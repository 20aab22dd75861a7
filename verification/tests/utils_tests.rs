use yacrd::utils::{get_format, get_mapping_format_name, get_sequence_format, in_read, Format};

#[test]
fn filename_mapping_only() {
    assert_eq!(get_mapping_format_name("t.paf").unwrap(), Format::Paf);
    assert_eq!(get_mapping_format_name("t.mhap").unwrap(), Format::M4);
    assert_eq!(get_mapping_format_name("t.fasta"), None);
    assert_eq!(get_mapping_format_name("t.fastq"), None);
}

#[test]
fn filename_based() {
    assert_eq!(get_format("t.paf").unwrap(), Format::Paf);
    assert_eq!(get_format("t.mhap").unwrap(), Format::M4);
    assert_eq!(get_format("t.fasta").unwrap(), Format::Fasta);
    assert_eq!(get_format("t.fastq").unwrap(), Format::Fastq);
}

#[test]
fn filename_based_compressed() {
    assert_eq!(get_format("t.paf.gz").unwrap(), Format::Paf);
    assert_eq!(get_format("t.mhap.xz").unwrap(), Format::M4);
    assert_eq!(get_format("t.fasta.something").unwrap(), Format::Fasta);
    assert_eq!(get_format("t.fastq.zip").unwrap(), Format::Fastq);
}

#[test]
fn sequence_format_only() {
    assert_eq!(get_sequence_format("t.fasta").unwrap(), Format::Fasta);
    assert_eq!(get_sequence_format("t.fastq").unwrap(), Format::Fastq);
    assert_eq!(get_sequence_format("t.paf"), None);
}

#[test]
fn position_inside_read() {
    assert!(in_read(0, 100, 100));
    assert!(!in_read(0, 101, 100));
    assert!(!in_read(101, 0, 100));
}
