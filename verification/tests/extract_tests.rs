use yacrd::chimera::{BadReadMap, BadReadType, Interval, IntervalType};
use yacrd::editor::Ratio;
use yacrd::extract::generate_extracted_name;
use yacrd::reads2ovl::fullmemory::FullMemory;
use yacrd::reads2ovl::Reads2Ovl;
use yacrd::stack::FromOverlap;

fn remove_reads() -> BadReadMap {
    let mut m = BadReadMap::new();
    m.insert(
        "1".to_string(),
        (
            BadReadType::Chimeric,
            12000,
            vec![Interval { begin: 4500, end: 5500, int_type: IntervalType::Sure }],
        ),
    );
    m
}

#[test]
fn extract_filtred_name() {
    assert_eq!(generate_extracted_name("test.paf", "_test"), "test_test.paf");
    assert_eq!(generate_extracted_name("test.paf.gz", "_test"), "test_test.paf.gz");
    assert_eq!(generate_extracted_name("test.fasta", "_filtred"), "test_filtred.fasta");
    assert_eq!(
        generate_extracted_name("../something/test.fasta", "_filtred"),
        "../something/test_filtred.fasta"
    );
    assert_eq!(
        generate_extracted_name("../something.other/test.fasta", "_filtred"),
        "../something.other/test_filtred.fasta"
    );
}

const PAF_FILE: &str = "1\t12000\t20\t4500\t-\t2\t10000\t5500\t10000\t4500\t4500\t255
1\t12000\t5500\t10000\t-\t3\t10000\t0\t4500\t4500\t4500\t255
";

const PAF_FILE_EXTRACTED: &str = "1\t12000\t20\t4500\t-\t2\t10000\t5500\t10000\t4500\t4500\t255
1\t12000\t5500\t10000\t-\t3\t10000\t0\t4500\t4500\t4500\t255
";

#[test]
fn extract_paf() {
    let reads = remove_reads();
    let out = yacrd::extract::extract_paf(&reads, PAF_FILE).unwrap();
    assert_eq!(out, PAF_FILE_EXTRACTED);
}

const MHAP_FILE: &str = "1 2 0.1 2 0 100 450 1000 0 550 900 1000
1 3 0.1 2 0 550 900 1000 0 100 450 1000
";

const MHAP_FILE_EXTRACTED: &str = "1 2 0.1 2 0 100 450 1000 0 550 900 1000
1 3 0.1 2 0 550 900 1000 0 100 450 1000
";

#[test]
fn extract_mhap() {
    let reads = remove_reads();
    let out = yacrd::extract::extract_mhap(&reads, MHAP_FILE).unwrap();
    assert_eq!(out, MHAP_FILE_EXTRACTED);
}

#[test]
fn paf_file() {
    let mut ovlst = FullMemory::new(8192);

    ovlst.add_length("1".to_string(), 1000);
    ovlst.add_overlap("1".to_string(), (10, 490)).unwrap();
    ovlst.add_overlap("1".to_string(), (510, 1000)).unwrap();

    let mut stack = FromOverlap::new(ovlst, 0);

    let output = yacrd::editor::extract::paf(PAF_FILE, &mut stack, Ratio::new(8, 10)).unwrap();

    assert_eq!(PAF_FILE_EXTRACTED, output);
}

const M4_FILE: &str = "1 2 0.1 2 0 100 450 1000 0 550 900 1000
1 3 0.1 2 0 550 900 1000 0 100 450 1000
";

const M4_FILE_EXTRACTED: &str = "1 2 0.1 2 0 100 450 1000 0 550 900 1000
1 3 0.1 2 0 550 900 1000 0 100 450 1000
";

#[test]
fn filter_passes_only_clean_records() {
    let mut ovlst = FullMemory::new(8192);

    ovlst.add_length("1".to_string(), 1000);
    ovlst.add_overlap("1".to_string(), (10, 490)).unwrap();
    ovlst.add_overlap("1".to_string(), (510, 1000)).unwrap();

    let mut stack = FromOverlap::new(ovlst, 0);

    // read 1 is chimeric, so every record touching it is dropped
    let output = yacrd::editor::filter::paf(PAF_FILE, &mut stack, Ratio::new(8, 10)).unwrap();
    assert_eq!(output, "");
}

#[test]
fn m4_file() {
    let mut ovlst = FullMemory::new(8192);

    ovlst.add_length("1".to_string(), 1000);
    ovlst.add_overlap("1".to_string(), (10, 490)).unwrap();
    ovlst.add_overlap("1".to_string(), (510, 1000)).unwrap();

    let mut stack = FromOverlap::new(ovlst, 0);

    let output = yacrd::editor::extract::m4(M4_FILE, &mut stack, Ratio::new(8, 10)).unwrap();

    assert_eq!(M4_FILE_EXTRACTED, output);
}
