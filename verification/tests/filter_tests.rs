use yacrd::filter::{filterd_mhap, filterd_paf, generate_filterd_name, name_set};

#[test]
fn filter_filtred_name() {
    assert_eq!(generate_filterd_name("test.paf".to_string(), "_test"), "test_test.paf");
    assert_eq!(
        generate_filterd_name("test.paf.gz".to_string(), "_test"),
        "test_test.paf.gz"
    );
    assert_eq!(
        generate_filterd_name("test.fasta".to_string(), "_filtred"),
        "test_filtred.fasta"
    );
}

const PAF_FILE: &str = "1\t12000\t20\t4500\t-\t2\t10000\t5500\t10000\t4500\t4500\t255
1\t12000\t5500\t10000\t-\t3\t10000\t0\t4500\t4500\t4500\t255
";

const PAF_FILE_FILTRED: &str = "";

#[test]
fn filter_paf() {
    let remove_reads = name_set(vec!["1".to_string()]);
    let out = filterd_paf(&remove_reads, PAF_FILE).unwrap();
    assert_eq!(out, PAF_FILE_FILTRED);
}

const MHAP_FILE: &str = "1 2 0.1 2 0 100 450 1000 0 550 900 1000
1 3 0.1 2 0 550 900 1000 0 100 450 1000
";

const MHAP_FILE_FILTRED: &str = "";

#[test]
fn filter_mhap() {
    let remove_reads = name_set(vec!["1".to_string()]);
    let out = filterd_mhap(&remove_reads, MHAP_FILE).unwrap();
    assert_eq!(out, MHAP_FILE_FILTRED);
}

#[test]
fn filter_keeps_untouched_records() {
    let remove_reads = name_set(vec!["9".to_string()]);
    let out = filterd_paf(&remove_reads, PAF_FILE).unwrap();
    assert_eq!(out, PAF_FILE);
}

#[test]
fn filter_short_record_is_an_error() {
    let remove_reads = name_set(vec!["1".to_string()]);
    assert!(filterd_paf(&remove_reads, "1\t12000\t20\n").is_err());
}
