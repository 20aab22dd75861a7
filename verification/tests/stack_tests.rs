use yacrd::reads2ovl::fullmemory::FullMemory;
use yacrd::reads2ovl::Reads2Ovl;
use yacrd::stack::{BadPart, FromOverlap, FromReport};

const REPORT: &str = "NotBad\tSRR8494940.65223\t2706\t1131,0,1131;16,2690,2706
NotCovered\tSRR8494940.141626\t30116\t326,0,326;27159,2957,30116
Chimeric\tSRR8494940.91655\t15691\t151,0,151;4056,7213,11269;58,15633,15691
";

#[test]
fn from_report() {
    let mut stack = FromReport::from_content(REPORT).expect("Error when create stack object");

    let mut reads = stack.get_reads();
    reads.sort();
    let mut expected = vec![
        "SRR8494940.65223".to_string(),
        "SRR8494940.141626".to_string(),
        "SRR8494940.91655".to_string(),
    ];
    expected.sort();
    assert_eq!(expected, reads);

    assert_eq!(
        &(vec![(0, 1131), (2690, 2706)], 2706),
        stack.get_bad_part("SRR8494940.65223").unwrap()
    );
    assert_eq!(
        &(vec![(0, 326), (2957, 30116)], 30116),
        stack.get_bad_part("SRR8494940.141626").unwrap()
    );
    assert_eq!(
        &(vec![(0, 151), (7213, 11269), (15633, 15691)], 15691),
        stack.get_bad_part("SRR8494940.91655").unwrap()
    );
}

#[test]
fn from_overlap() {
    let mut ovl = FullMemory::new(8192);

    ovl.add_overlap("A".to_string(), (10, 990)).unwrap();
    ovl.add_length("A".to_string(), 1000);

    ovl.add_overlap("B".to_string(), (10, 90)).unwrap();
    ovl.add_length("B".to_string(), 1000);

    ovl.add_overlap("C".to_string(), (10, 490)).unwrap();
    ovl.add_overlap("C".to_string(), (510, 990)).unwrap();
    ovl.add_length("C".to_string(), 1000);

    ovl.add_overlap("D".to_string(), (0, 990)).unwrap();
    ovl.add_length("D".to_string(), 1000);

    ovl.add_overlap("E".to_string(), (10, 1000)).unwrap();
    ovl.add_length("E".to_string(), 1000);

    ovl.add_overlap("F".to_string(), (0, 490)).unwrap();
    ovl.add_overlap("F".to_string(), (510, 1000)).unwrap();
    ovl.add_length("F".to_string(), 1000);

    let mut stack = FromOverlap::new(ovl, 0);

    let mut reads = stack.get_reads();
    reads.sort();
    let mut expected = vec![
        "A".to_string(),
        "B".to_string(),
        "C".to_string(),
        "D".to_string(),
        "E".to_string(),
        "F".to_string(),
    ];
    expected.sort();
    assert_eq!(expected, reads);

    assert_eq!(&(vec![(0, 10), (990, 1000)], 1000), stack.get_bad_part("A").unwrap());
    assert_eq!(&(vec![(0, 10), (90, 1000)], 1000), stack.get_bad_part("B").unwrap());
    assert_eq!(
        &(vec![(0, 10), (490, 510), (990, 1000)], 1000),
        stack.get_bad_part("C").unwrap()
    );
    assert_eq!(&(vec![(990, 1000)], 1000), stack.get_bad_part("D").unwrap());
    assert_eq!(&(vec![(0, 10)], 1000), stack.get_bad_part("E").unwrap());
    assert_eq!(&(vec![(490, 510)], 1000), stack.get_bad_part("F").unwrap());
}

#[test]
fn coverage_upper_than_0() {
    let mut ovl = FullMemory::new(8192);

    ovl.add_length("A".to_string(), 1000);

    ovl.add_overlap("A".to_string(), (0, 425)).unwrap();
    ovl.add_overlap("A".to_string(), (0, 450)).unwrap();
    ovl.add_overlap("A".to_string(), (0, 475)).unwrap();

    ovl.add_overlap("A".to_string(), (525, 1000)).unwrap();
    ovl.add_overlap("A".to_string(), (550, 1000)).unwrap();
    ovl.add_overlap("A".to_string(), (575, 1000)).unwrap();

    let mut stack = FromOverlap::new(ovl, 2);

    assert_eq!(&(vec![(425, 575)], 1000), stack.get_bad_part("A").unwrap());
}

#[test]
fn failled_correctly_on_corrupt_yacrd() {
    let corrupt = "NotBad\tSRR8494940.65223\t2706\t1131,0,1131;16,2690,2706
NotCovered\tSRR8494940.141626\t30116\t326,0,326;27159,2957,30116
Chimeric\tSRR8494940.91655\t15691\t151,0,151;4056,7213,11269;58,156
";

    let stack = FromReport::from_content(corrupt);

    if !stack.is_err() {
        assert!(false);
    }
}

#[test]
fn unknown_read_reads_as_empty() {
    let mut stack = FromReport::from_content(REPORT).unwrap();
    assert_eq!(&(vec![], 0), stack.get_bad_part("absent").unwrap());
}
