use world_statistics::region::{read_be_u32, ReadRun, RegionError, RegionFile, DEFAULT_READ_CAP};

fn header_with(entries: &[(usize, u32, u32)]) -> Vec<u8> {
    let mut h = vec![0u8; 8192];
    for &(slot, start, count) in entries {
        let e = (start << 8) | count;
        h[slot * 4..slot * 4 + 4].copy_from_slice(&e.to_be_bytes());
    }
    h
}

fn all_slots(runs: &[ReadRun]) -> Vec<usize> {
    runs.iter().flat_map(|r| r.slots.iter().copied()).collect()
}

#[test]
fn short_header_is_refused() {
    assert!(matches!(RegionFile::new(&vec![0u8; 8191]), Err(RegionError::ShortHeader)));
    assert!(matches!(RegionFile::new(&[]), Err(RegionError::ShortHeader)));
}

#[test]
fn header_entries_are_big_endian() {
    let h = header_with(&[(0, 2, 1), (1023, 0x123456, 0x78)]);
    let rf = RegionFile::new(&h).unwrap();
    assert_eq!(rf.offsets.len(), 1024);
    assert_eq!(rf.offsets[0], 0x0000_0201);
    assert_eq!(rf.offsets[1023], 0x1234_5678);
    assert_eq!(rf.offsets[5], 0);
}

#[test]
fn reads_four_bytes_big_endian() {
    assert_eq!(read_be_u32(&[0xde, 0xad, 0xbe, 0xef, 0x00], 0), 0xdead_beef);
    assert_eq!(read_be_u32(&[0x00, 0x00, 0x00, 0x01, 0x02], 1), 0x0000_0102);
}

#[test]
fn empty_container_has_no_reads() {
    let rf = RegionFile::new(&header_with(&[])).unwrap();
    assert!(rf.slot_order().is_empty());
    assert!(rf.read_plan(DEFAULT_READ_CAP).is_empty());
}

#[test]
fn slots_come_in_disk_order() {
    let rf = RegionFile::new(&header_with(&[(7, 9, 1), (3, 2, 1), (900, 5, 2)])).unwrap();
    assert_eq!(rf.slot_order(), vec![3, 900, 7]);
}

#[test]
fn single_slot_is_one_read() {
    let rf = RegionFile::new(&header_with(&[(42, 10, 3)])).unwrap();
    let runs = rf.read_plan(DEFAULT_READ_CAP);
    assert_eq!(runs.len(), 1);
    assert_eq!(runs[0].slots, vec![42]);
    assert_eq!(runs[0].start_sector, 10);
    assert_eq!(runs[0].sector_count, 3);
    assert_eq!(runs[0].skip_sectors, 8);
}

#[test]
fn contiguous_slots_are_one_read() {
    let rf = RegionFile::new(&header_with(&[(0, 2, 2), (1, 4, 3), (2, 7, 1), (5, 8, 4)])).unwrap();
    let runs = rf.read_plan(DEFAULT_READ_CAP);
    assert_eq!(runs.len(), 1);
    assert_eq!(runs[0].slots, vec![0, 1, 2, 5]);
    assert_eq!(runs[0].start_sector, 2);
    assert_eq!(runs[0].sector_count, 10);
    assert_eq!(runs[0].skip_sectors, 0);
}

#[test]
fn cap_splits_runs_but_keeps_every_slot() {
    let entries = [(0, 2, 2), (1, 4, 3), (2, 7, 1), (5, 8, 4), (9, 40, 1)];
    let rf = RegionFile::new(&header_with(&entries)).unwrap();
    for cap in [0u32, 1, 3, 5, 16, 100] {
        let runs = rf.read_plan(cap);
        assert_eq!(all_slots(&runs), vec![0, 1, 2, 5, 9]);
    }
    let runs = rf.read_plan(5);
    assert_eq!(runs.len(), 3);
    assert_eq!(runs[0].slots, vec![0, 1]);
    assert_eq!(runs[1].slots, vec![2, 5]);
    assert_eq!(runs[1].skip_sectors, 0);
    assert_eq!(runs[2].slots, vec![9]);
    assert_eq!(runs[2].skip_sectors, 28);
    assert_eq!(rf.read_plan(DEFAULT_READ_CAP).len(), 2);
}

#[test]
fn run_buffer_is_cut_into_frames() {
    let rf = RegionFile::new(&header_with(&[(4, 2, 1), (6, 3, 1)])).unwrap();
    let runs = rf.read_plan(DEFAULT_READ_CAP);
    assert_eq!(runs.len(), 1);
    let mut buf = vec![0u8; 2 * 4096];
    buf[0..4].copy_from_slice(&3u32.to_be_bytes());
    buf[4..7].copy_from_slice(&[0, 10, 11]);
    buf[4096..4100].copy_from_slice(&2u32.to_be_bytes());
    buf[4100..4102].copy_from_slice(&[2, 99]);
    let frames = rf.split_run(&runs[0], &buf).unwrap();
    assert_eq!(frames, vec![(4, vec![0, 10, 11]), (6, vec![2, 99])]);
}

#[test]
fn truncated_run_buffer_is_refused() {
    let rf = RegionFile::new(&header_with(&[(4, 2, 1), (6, 3, 1)])).unwrap();
    let runs = rf.read_plan(DEFAULT_READ_CAP);
    let mut buf = vec![0u8; 4096 + 2];
    buf[0..4].copy_from_slice(&3u32.to_be_bytes());
    assert!(matches!(rf.split_run(&runs[0], &buf), Err(RegionError::Truncated)));
    let mut buf = vec![0u8; 2 * 4096];
    buf[0..4].copy_from_slice(&9000u32.to_be_bytes());
    assert!(matches!(rf.split_run(&runs[0], &buf), Err(RegionError::Truncated)));
}
