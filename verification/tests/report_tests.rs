use yacrd::chimera::{write_gap, BadReadMap, Interval, IntervalType};
use yacrd::editor::Ratio;
use yacrd::overlap::{find, parse, Read2Mapping};
use yacrd::postdetection::generate_out_name;
use yacrd::split::generate_split_name;
use yacrd::utils::Format;

#[test]
fn formating_gap() {
    let mut writer = String::new();
    let input = vec![
        Interval { begin: 0, end: 10, int_type: IntervalType::Sure },
        Interval { begin: 50, end: 100, int_type: IntervalType::Sure },
        Interval { begin: 150, end: 200, int_type: IntervalType::Sure },
    ];

    for (i, gaps) in input.iter().enumerate() {
        writer.push_str(&write_gap(gaps, input.len() - i));
    }

    assert_eq!(writer, "10,0,10;50,50,100;50,150,200");
}

#[test]
fn out_name() {
    assert_eq!(generate_out_name("test.paf", "_test"), "test_test.paf");
    assert_eq!(generate_out_name("test.paf.gz", "_test"), "test_test.paf.gz");
    assert_eq!(generate_out_name("test.fasta", "_filtred"), "test_filtred.fasta");
    assert_eq!(
        generate_out_name("../something/test.fasta", "_filtred"),
        "../something/test_filtred.fasta"
    );
    assert_eq!(
        generate_out_name("../something.other/test.fasta", "_filtred"),
        "../something.other/test_filtred.fasta"
    );
}

#[test]
fn split_name() {
    assert_eq!(generate_split_name("test.paf".to_string(), "_test"), "test_test.paf");
    assert_eq!(generate_split_name("test.paf.gz".to_string(), "_test"), "test_test.paf.gz");
    assert_eq!(generate_split_name("test.fasta".to_string(), "_test"), "test_test.fasta");
}

const PAF_FILE: &str = "1\t12000\t20\t4500\t-\t2\t10000\t5500\t10000\t4500\t4500\t255
1\t12000\t5500\t10000\t-\t3\t10000\t0\t4500\t4500\t4500\t255
";

const MHAP_FILE: &str = "1 2 0.1 2 0 20 4500 12000 0 5500 10000 10000
1 3 0.1 2 0 5500 10000 12000 0 0 4500 10000
";

fn check_read2mapping(hash: &Read2Mapping) {
    let one = hash.get("1").unwrap();
    assert_eq!(one.0, 12000);
    assert_eq!(
        one.1,
        vec![
            Interval { begin: 20, end: 4500, int_type: IntervalType::Sure },
            Interval { begin: 5500, end: 10000, int_type: IntervalType::Sure },
        ]
    );
    let two = hash.get("2").unwrap();
    assert_eq!(two.0, 10000);
    assert_eq!(two.1, vec![Interval { begin: 5500, end: 10000, int_type: IntervalType::Sure }]);
    let three = hash.get("3").unwrap();
    assert_eq!(three.0, 10000);
    assert_eq!(three.1, vec![Interval { begin: 0, end: 4500, int_type: IntervalType::Sure }]);
    let mut reads = hash.get_reads();
    reads.sort();
    assert_eq!(reads, vec!["1".to_string(), "2".to_string(), "3".to_string()]);
}

#[test]
fn mapping2read2mapping() {
    let mut hash = Read2Mapping::new();
    parse(PAF_FILE, Format::Paf, &mut hash).unwrap();
    check_read2mapping(&hash);

    let mut hash2 = Read2Mapping::new();
    parse(MHAP_FILE, Format::M4, &mut hash2).unwrap();
    check_read2mapping(&hash2);
}

const PAF_FILE_COV_1: &str = "1\t10000\t0\t4500\t-\t2\t10000\t5500\t10000\t4500\t4500\t255
1\t10000\t5500\t10000\t-\t3\t10000\t0\t4500\t4500\t4500\t255
1\t10000\t2000\t8000\t+\t4\t6000\t0\t6000\t6000\t6000\t255
2\t10000\t7500\t10000\t-\t4\t6000\t0\t2500\t2500\t2500\t255
3\t10000\t0\t2500\t-\t4\t6000\t3500\t6000\t2500\t2500\t255
";

#[test]
fn json_output() {
    let mut m = BadReadMap::new();
    m.insert(
        "1".to_string(),
        (
            yacrd::chimera::BadReadType::Chimeric,
            12000,
            vec![
                Interval { begin: 0, end: 20, int_type: IntervalType::Sure },
                Interval { begin: 4500, end: 5500, int_type: IntervalType::Sure },
                Interval { begin: 10000, end: 12000, int_type: IntervalType::Sure },
            ],
        ),
    );

    let out = yacrd::chimera::write_json(&m);
    assert_eq!(
        out,
        "{\"1\":{\"gaps\":[{\"begin\":0,\"end\":20},{\"begin\":4500,\"end\":5500},{\"begin\":10000,\"end\":12000}],\"length\":12000,\"type\":\"Chimeric\"}}"
    );

    let mut empty_gaps = BadReadMap::new();
    empty_gaps.insert("2".to_string(), (yacrd::chimera::BadReadType::NotBad, 10, vec![]));
    assert_eq!(
        yacrd::chimera::write_json(&empty_gaps),
        "{\"2\":{\"gaps\":[],\"length\":10,\"type\":\"NotBad\"}}"
    );
}

#[test]
fn find_chimera_report_all() {
    let result = "NotBad\t3\t10000\t7500,2500,10000\nChimeric\t4\t6000\t1000,2500,3500\nChimeric\t1\t10000\t2000,0,2000;1000,4500,5500;2000,8000,10000\nNotBad\t2\t10000\t7500,0,7500\n".to_string();

    let good: std::collections::HashSet<&str> = result.split("\n").collect();
    let mut remove_reads = BadReadMap::new();

    find(PAF_FILE_COV_1, Format::Paf, 1, Ratio::new(8, 10), &mut remove_reads).unwrap();

    let writer = yacrd::chimera::write(&remove_reads);

    assert_eq!(writer.split("\n").collect::<std::collections::HashSet<&str>>(), good);
}
