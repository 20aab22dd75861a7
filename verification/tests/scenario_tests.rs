use yacrd::chimera::{BadReadMap, BadReadType, Interval, IntervalType};
use yacrd::editor::{report, type_of_read, Ratio, ReadType};
use yacrd::reads2ovl::fullmemory::FullMemory;
use yacrd::reads2ovl::Reads2Ovl;
use yacrd::stack::{parse_bad_string, BadPart, FromOverlap};

#[test]
fn chimeric_read_with_internal_gap() {
    let mut ovl = FullMemory::new(8192);
    ovl.add_length("1".to_string(), 12000);
    ovl.add_overlap("1".to_string(), (20, 4500)).unwrap();
    ovl.add_overlap("1".to_string(), (5500, 10000)).unwrap();

    let mut stack = FromOverlap::new(ovl, 0);
    let entry = stack.get_bad_part("1").unwrap();
    assert_eq!(entry.0, vec![(0, 20), (4500, 5500), (10000, 12000)]);
    assert_eq!(entry.1, 12000);
    assert_eq!(
        type_of_read(entry.1, &entry.0, Ratio::new(8, 10)),
        ReadType::Chimeric
    );
}

#[test]
fn extremity_gap_is_not_chimeric() {
    let mut ovl = FullMemory::new(8192);
    ovl.add_length("1".to_string(), 10000);
    ovl.add_overlap("1".to_string(), (1000, 10000)).unwrap();

    let mut stack = FromOverlap::new(ovl, 0);
    let entry = stack.get_bad_part("1").unwrap();
    assert_eq!(entry.0, vec![(0, 1000)]);
    assert_eq!(
        type_of_read(entry.1, &entry.0, Ratio::new(8, 10)),
        ReadType::NotBad
    );
}

#[test]
fn mostly_uncovered_read_is_not_covered() {
    let mut ovl = FullMemory::new(8192);
    ovl.add_length("1".to_string(), 10000);
    ovl.add_overlap("1".to_string(), (9000, 10000)).unwrap();

    let mut stack = FromOverlap::new(ovl, 0);
    let entry = stack.get_bad_part("1").unwrap();
    assert_eq!(entry.0, vec![(0, 9000)]);
    assert_eq!(
        type_of_read(entry.1, &entry.0, Ratio::new(8, 10)),
        ReadType::NotCovered
    );
}

#[test]
fn no_overlap_read_is_whole_gap() {
    let mut ovl = FullMemory::new(8192);
    ovl.add_length("1".to_string(), 5000);

    let mut stack = FromOverlap::new(ovl, 0);
    let entry = stack.get_bad_part("1").unwrap();
    assert_eq!(entry.0, vec![(0, 5000)]);
    assert_eq!(
        type_of_read(entry.1, &entry.0, Ratio::new(8, 10)),
        ReadType::NotCovered
    );
}

#[test]
fn touching_overlaps_leave_no_gap() {
    let mut ovl = FullMemory::new(8192);
    ovl.add_length("1".to_string(), 1000);
    ovl.add_overlap("1".to_string(), (0, 500)).unwrap();
    ovl.add_overlap("1".to_string(), (500, 1000)).unwrap();

    let mut stack = FromOverlap::new(ovl, 0);
    let entry = stack.get_bad_part("1").unwrap();
    // an end equal to the next begin closes no coverage: no region at all
    assert_eq!(entry.0, vec![]);
    assert_eq!(
        type_of_read(entry.1, &entry.0, Ratio::new(8, 10)),
        ReadType::NotBad
    );
}

#[test]
fn read_type_assignation() {
    let a = (vec![(0, 10), (990, 1000)], 1000);
    let b = (vec![(0, 10), (90, 1000)], 1000);
    let c = (vec![(0, 10), (490, 510), (990, 1000)], 1000);
    let d = (vec![(990, 1000)], 1000);
    let e = (vec![(0, 10)], 1000);
    let f = (vec![(490, 510)], 1000);

    let ncov = Ratio::new(8, 10);
    assert_eq!(ReadType::NotBad, type_of_read(a.1, &a.0, ncov));
    assert_eq!(ReadType::NotCovered, type_of_read(b.1, &b.0, ncov));
    assert_eq!(ReadType::Chimeric, type_of_read(c.1, &c.0, ncov));
    assert_eq!(ReadType::NotBad, type_of_read(d.1, &d.0, ncov));
    assert_eq!(ReadType::NotBad, type_of_read(e.1, &e.0, ncov));
    assert_eq!(ReadType::Chimeric, type_of_read(f.1, &f.0, ncov));
}

#[test]
fn report_line_round_trip() {
    let regions = vec![(0u32, 20u32), (4500, 5500), (10000, 12000)];
    let line = report("1", 12000, &regions, Ratio::new(8, 10));
    assert_eq!(line, "Chimeric\t1\t12000\t20,0,20;1000,4500,5500;2000,10000,12000\n");

    let fields: Vec<&str> = line.trim_end().split('\t').collect();
    let parsed = parse_bad_string(fields[3]).unwrap();
    assert_eq!(parsed, regions);

    // writing the parsed regions again gives back the identical line
    let again = report(fields[1], 12000, &parsed, Ratio::new(8, 10));
    assert_eq!(again, line);
}

#[test]
fn bad_string_rejects_short_entry() {
    assert!(parse_bad_string("58,156").is_err());
    assert!(parse_bad_string("").is_err());
    assert!(parse_bad_string("a,b,c").is_err());
}

#[test]
fn scrub_positions_keeps_covered_spans() {
    let bads = vec![(0u32, 4u32), (9, 13), (18, 22)];
    let keep = yacrd::editor::scrubbing::scrub_positions(&bads, 22);
    assert_eq!(keep, vec![(4, 9), (13, 18)]);

    let bads2 = vec![(4u32, 9u32), (13, 18)];
    let keep2 = yacrd::editor::scrubbing::scrub_positions(&bads2, 22);
    assert_eq!(keep2, vec![(0, 4), (9, 13), (18, 22)]);
}

#[test]
fn split_positions_cuts_internal_gaps() {
    let bads = vec![(4u32, 9u32), (13, 18)];
    let cuts = yacrd::editor::split::split_positions(&bads, 22);
    assert_eq!(cuts, vec![(0, 4), (9, 13), (18, 22)]);

    let with_extremity = vec![(0u32, 4u32), (9, 13), (18, 22)];
    let cuts2 = yacrd::editor::split::split_positions(&with_extremity, 22);
    assert_eq!(cuts2, vec![(0, 9), (13, 22)]);
}

#[test]
fn good_positions_between_removed_spans() {
    let removed = vec![
        Interval { begin: 4, end: 9, int_type: IntervalType::Sure },
        Interval { begin: 13, end: 18, int_type: IntervalType::Sure },
    ];
    let good = yacrd::subcommand::get_good_pos(&removed, 22);
    assert_eq!(
        good,
        vec![
            Interval { begin: 0, end: 4, int_type: IntervalType::Sure },
            Interval { begin: 9, end: 13, int_type: IntervalType::Sure },
            Interval { begin: 18, end: 22, int_type: IntervalType::Sure },
        ]
    );
}

#[test]
fn label_filtering_by_switches() {
    let mut m = BadReadMap::new();
    m.insert("1".to_string(), (BadReadType::Chimeric, 12000, vec![]));
    m.insert("2".to_string(), (BadReadType::NotBad, 10000, vec![]));
    m.insert("3".to_string(), (BadReadType::NotBad, 10000, vec![]));

    let paf = "1\t12000\t20\t4500\t-\t2\t10000\t5500\t10000\t4500\t4500\t255
2\t10000\t0\t4500\t-\t3\t10000\t0\t4500\t4500\t4500\t255
";
    let kept = yacrd::subcommand::paf(paf, &m, true, false, false).unwrap();
    assert_eq!(kept, "2\t10000\t0\t4500\t-\t3\t10000\t0\t4500\t4500\t4500\t255\n");
}
