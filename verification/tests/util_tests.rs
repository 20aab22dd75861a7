use yacrd::util::{get_file_type, str2u32, str2u64, str2usize, FileType};

#[test]
fn util_failed() {
    match str2usize("2,5") {
        Err(_) => assert!(true),
        Ok(a) => assert!(false, "str2usize('2,5') return {}", a),
    }
    match str2usize("2.5") {
        Err(_) => assert!(true),
        Ok(a) => assert!(false, "str2usize('2.5') return {}", a),
    }
    match str2u32("2,5") {
        Err(_) => assert!(true),
        Ok(a) => assert!(false, "str2u32('2,5') return {}", a),
    }
    match str2u32("2.5") {
        Err(_) => assert!(true),
        Ok(a) => assert!(false, "str2u32('2.5') return {}", a),
    }
    match str2u64("2,5") {
        Err(_) => assert!(true),
        Ok(a) => assert!(false, "str2u64('2,5') return {}", a),
    }
    match str2u64("2.5") {
        Err(_) => assert!(true),
        Ok(a) => assert!(false, "str2u64('2.5') return {}", a),
    }
}

#[test]
fn util_succeeded() {
    match str2usize("2") {
        Ok(a) => assert_eq!(a, 2),
        Err(_) => assert!(false, "str2usize('2') failed"),
    }
    match str2u32("2") {
        Ok(a) => assert_eq!(a, 2),
        Err(_) => assert!(false, "str2u32('2') failed"),
    }
    match str2u64("2") {
        Ok(a) => assert_eq!(a, 2),
        Err(_) => assert!(false, "str2u64('2') failed"),
    }
}

#[test]
fn util_m4() {
    assert_eq!(Some(FileType::M4), get_file_type("test.m4"));
}

#[test]
fn m4_with_other_ext() {
    assert_eq!(Some(FileType::M4), get_file_type("test.m4.other_ext"));
}

#[test]
fn m4_with_nopoint() {
    assert_eq!(None, get_file_type("m4.other_ext"));
}

#[test]
fn util_mhap() {
    assert_eq!(Some(FileType::M4), get_file_type("test.mhap"));
}

#[test]
fn mhap_with_other_ext() {
    assert_eq!(Some(FileType::M4), get_file_type("test.mhap.other_ext"));
}

#[test]
fn mhap_with_nopoint() {
    assert_eq!(None, get_file_type("mhap.other_ext"));
}

#[test]
fn util_paf() {
    assert_eq!(Some(FileType::Paf), get_file_type("test.paf"));
}

#[test]
fn paf_with_other_ext() {
    assert_eq!(Some(FileType::Paf), get_file_type("test.paf.other_ext"));
}

#[test]
fn paf_with_nopoint() {
    assert_eq!(None, get_file_type("paf.other_ext"));
}

#[test]
fn util_fasta() {
    assert_eq!(Some(FileType::Fasta), get_file_type("test.fasta"));
}

#[test]
fn fasta_with_other_ext() {
    assert_eq!(Some(FileType::Fasta), get_file_type("test.fasta.other_ext"));
}

#[test]
fn fasta_with_nopoint() {
    assert_eq!(None, get_file_type("fasta.other_ext"));
}

#[test]
fn fa() {
    assert_eq!(Some(FileType::Fasta), get_file_type("test.fa"));
}

#[test]
fn fa_with_other_ext() {
    assert_eq!(Some(FileType::Fasta), get_file_type("test.fa.other_ext"));
}

#[test]
fn fa_with_nopoint() {
    assert_eq!(None, get_file_type("fa.other_ext"));
}

#[test]
fn util_fastq() {
    assert_eq!(Some(FileType::Fastq), get_file_type("test.fastq"));
}

#[test]
fn fastq_with_other_ext() {
    assert_eq!(Some(FileType::Fastq), get_file_type("test.fastq.other_ext"));
}

#[test]
fn fastq_with_nopoint() {
    assert_eq!(None, get_file_type("fastq.other_ext"));
}

#[test]
fn fq() {
    assert_eq!(Some(FileType::Fastq), get_file_type("test.fq"));
}

#[test]
fn fq_with_other_ext() {
    assert_eq!(Some(FileType::Fastq), get_file_type("test.fq.other_ext"));
}

#[test]
fn fq_with_nopoint() {
    assert_eq!(None, get_file_type("fq.other_ext"));
}

#[test]
fn yacrd_overlap() {
    assert_eq!(Some(FileType::YacrdOverlap), get_file_type("test.yovl"));
}

#[test]
fn yacrd_overlap_with_other_ext() {
    assert_eq!(Some(FileType::YacrdOverlap), get_file_type("test.yovl.other_ext"));
}

#[test]
fn yacrd_overlap_with_nopoint() {
    assert_eq!(None, get_file_type("yovl.other_ext"));
}
