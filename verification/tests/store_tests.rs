use yacrd::editor::{report_all, Ratio};
use yacrd::reads2ovl::fullmemory::FullMemory;
use yacrd::reads2ovl::ondisk::OnDisk;
use yacrd::reads2ovl::{init_content, OvlPage, Reads2Ovl};
use yacrd::stack::FromOverlap;

const PAF_FILE: &str = "1\t12000\t20\t4500\t-\t2\t10000\t5500\t10000\t4500\t4500\t255
1\t12000\t5500\t10000\t-\t3\t10000\t0\t4500\t4500\t4500\t255
";

const M4_FILE: &str = "1 2 0.1 2 0 20 4500 12000 0 5500 10000 10000
1 3 0.1 2 0 5500 10000 12000 0 0 4500 10000
";

#[test]
fn mod_paf() {
    let mut ovl = FullMemory::new(8192);
    init_content(&mut ovl, "reads.paf", PAF_FILE).expect("Error in overlap init");

    let mut reads = ovl.get_reads();
    reads.sort();
    assert_eq!(reads, vec!["1".to_string(), "2".to_string(), "3".to_string()]);

    assert_eq!(vec![(20, 4500), (5500, 10000)], ovl.overlap("1").unwrap());
    assert_eq!(vec![(5500, 10000)], ovl.overlap("2").unwrap());
    assert_eq!(vec![(0, 4500)], ovl.overlap("3").unwrap());
    assert_eq!(12000, ovl.length("1"));
}

#[test]
fn mod_m4() {
    let mut ovl = FullMemory::new(8192);
    init_content(&mut ovl, "reads.m4", M4_FILE).expect("Error in overlap init");

    let mut reads = ovl.get_reads();
    reads.sort();
    assert_eq!(reads, vec!["1".to_string(), "2".to_string(), "3".to_string()]);

    assert_eq!(vec![(20, 4500), (5500, 10000)], ovl.overlap("1").unwrap());
    assert_eq!(vec![(5500, 10000)], ovl.overlap("2").unwrap());
    assert_eq!(vec![(0, 4500)], ovl.overlap("3").unwrap());
}

#[test]
fn init_refuses_sequence_files() {
    let mut ovl = FullMemory::new(8192);
    assert!(init_content(&mut ovl, "reads.fasta", ">1\nACTG\n").is_err());
    assert!(init_content(&mut ovl, "reads.fastq", "@1\nACTG\n+\n!!!!\n").is_err());
    assert!(init_content(&mut ovl, "reads.unknown", "").is_err());
}

#[test]
fn ondisk_read_after_flush() {
    let dir = tempfile::tempdir().unwrap();
    let path = dir.path().join("store").to_str().unwrap().to_string();
    // a flush threshold of two forces paging out while ingesting
    let mut ovl = OnDisk::new(path, 2, 8192).unwrap();

    init_content(&mut ovl, "reads.paf", PAF_FILE).expect("Error in overlap init");

    assert_eq!(vec![(20, 4500), (5500, 10000)], ovl.overlap("1").unwrap());
    assert_eq!(vec![(5500, 10000)], ovl.overlap("2").unwrap());
    assert_eq!(vec![(0, 4500)], ovl.overlap("3").unwrap());
    assert_eq!(12000, ovl.length("1"));
    assert_eq!(10000, ovl.length("2"));
}

#[test]
fn memory_and_disk_report_identically() {
    let mut mem = FullMemory::new(8192);
    init_content(&mut mem, "reads.paf", PAF_FILE).unwrap();

    let dir = tempfile::tempdir().unwrap();
    let path = dir.path().join("store").to_str().unwrap().to_string();
    let mut disk = OnDisk::new(path, 2, 8192).unwrap();
    init_content(&mut disk, "reads.paf", PAF_FILE).unwrap();

    let mut mem_stack = FromOverlap::new(mem, 0);
    let mut disk_stack = FromOverlap::new(disk, 0);

    let mem_report = report_all(&mut mem_stack, Ratio::new(8, 10)).unwrap();
    let disk_report = report_all(&mut disk_stack, Ratio::new(8, 10)).unwrap();

    assert!(!mem_report.is_empty());
    assert_eq!(mem_report, disk_report);
}

#[test]
fn json_report_from_store() {
    let mut mem = FullMemory::new(8192);
    init_content(&mut mem, "reads.paf", "1\t1000\t100\t1000\t-\t2\t1000\t0\t900\t900\t900\t255\n")
        .unwrap();
    let mut stack = FromOverlap::new(mem, 0);
    let out = yacrd::chimera::json_report_all(&mut stack, Ratio::new(8, 10)).unwrap();
    assert_eq!(
        out,
        "{\"1\":{\"gaps\":[{\"begin\":0,\"end\":100}],\"length\":1000,\"type\":\"NotBad\"},\"2\":{\"gaps\":[{\"begin\":900,\"end\":1000}],\"length\":1000,\"type\":\"NotBad\"}}"
    );
}

#[test]
fn paged_iteration_drains_the_store() {
    let dir = tempfile::tempdir().unwrap();
    let path = dir.path().join("store").to_str().unwrap().to_string();
    let mut ovl = OnDisk::new(path, 2, 8192).unwrap();
    init_content(&mut ovl, "reads.paf", PAF_FILE).unwrap();

    let mut seen: Vec<(String, Vec<(u32, u32)>, usize)> = Vec::new();
    let mut page = OvlPage::new();
    loop {
        let done = ovl.get_overlaps(&mut page).unwrap();
        for id in &page.ids {
            let entry = page.map.get(id.as_str()).unwrap();
            seen.push((id.clone(), entry.0.clone(), entry.1));
        }
        if done {
            break;
        }
    }
    seen.sort();
    assert_eq!(
        seen,
        vec![
            ("1".to_string(), vec![(20, 4500), (5500, 10000)], 12000),
            ("2".to_string(), vec![(5500, 10000)], 10000),
            ("3".to_string(), vec![(0, 4500)], 10000),
        ]
    );
    // a drained store answers as if the reads were never seen
    assert_eq!(ovl.length("1"), 0);
    assert!(ovl.overlap("1").unwrap().is_empty());
}

#[test]
fn full_memory_page_moves_everything() {
    let mut ovl = FullMemory::new(8192);
    init_content(&mut ovl, "reads.paf", PAF_FILE).unwrap();

    let mut page = OvlPage::new();
    let done = ovl.get_overlaps(&mut page).unwrap();
    assert!(done);
    assert_eq!(page.ids.len(), 3);
    assert_eq!(ovl.get_reads().len(), 0);
}
