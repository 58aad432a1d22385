use logbroker::config::{parse_size, size_from_parts, store_settings, Storage};
use logbroker::store::StoreSettings;
use logbroker::layout::{plan_recovery, segment_base, segment_file_name, FileKind, RecoveryPlan};
use logbroker::retention::files_to_delete;

#[test]
fn sizes_with_units() {
    assert_eq!(parse_size("10k"), Ok(10240));
    assert_eq!(parse_size("1m"), Ok(1048576));
    assert_eq!(parse_size("2G"), Ok(2147483648));
    assert_eq!(parse_size("size: 7M please"), Ok(7340032));
    assert_eq!(parse_size("0k"), Ok(0));
}

#[test]
fn size_errors() {
    assert_eq!(parse_size("64"), Err("Invalid format"));
    assert_eq!(parse_size("5x"), Err("Invalid format"));
    assert_eq!(parse_size(""), Err("Invalid format"));
    assert_eq!(parse_size("10kk"), Err("Unknown unit"));
    assert_eq!(parse_size("10Mg"), Err("Unknown unit"));
    assert_eq!(parse_size("99999999999999999999999k"), Err("Failed to parse number"));
    assert_eq!(parse_size("18014398509481984k"), Err("Size out of range"));
}

#[test]
fn size_parts() {
    assert_eq!(size_from_parts(b"3", b"K"), Ok(3072));
    assert_eq!(size_from_parts(b"", b"k"), Err("Failed to parse number"));
    assert_eq!(size_from_parts(b"1a", b"k"), Err("Failed to parse number"));
    assert_eq!(size_from_parts(b"1", b"t"), Err("Unknown unit"));
}

fn storage(max: &str, pull: &str, cache_limit: usize) -> Storage {
    Storage { max_file_size: max.to_string(), pull_max_limit: pull.to_string(), cache_limit }
}

#[test]
fn store_settings_from_sizes() {
    assert_eq!(
        store_settings(&storage("1g", "4k", 3)),
        Ok(StoreSettings { max_file_size: 1 << 30, pull_max_limit: 4096, cache_limit: 3 })
    );
}

#[test]
fn store_settings_refuse_a_bad_size() {
    assert_eq!(store_settings(&storage("64", "4k", 3)), Err("Invalid format"));
    assert_eq!(store_settings(&storage("1m", "none", 3)), Err("Invalid format"));
    assert_eq!(store_settings(&storage("1mm", "2x", 3)), Err("Unknown unit"));
}

#[test]
fn segment_names() {
    assert_eq!(segment_file_name(0, FileKind::Data), b"000000000000.data".to_vec());
    assert_eq!(segment_file_name(123456, FileKind::Index), b"000000123456.index".to_vec());
    assert_eq!(segment_file_name(12345678901234, FileKind::Data), b"12345678901234.data".to_vec());
    assert_eq!(segment_base(b"000000123456.data"), Some(123456));
    assert_eq!(segment_base(b"999999999999.data"), Some(999999999999));
    assert_eq!(segment_base(b"000000123456.index"), None);
    assert_eq!(segment_base(b"00000012345.data"), None);
    assert_eq!(segment_base(b"00000012345x.data"), None);
    assert_eq!(segment_base(b"000000123456.date"), None);
    assert_eq!(segment_base(b"12345678901234.data"), Some(12345678901234));
    assert_eq!(segment_base(&segment_file_name(u64::MAX, FileKind::Data)), Some(u64::MAX));
    assert_eq!(segment_base(b"99999999999999999999.data"), None);
    assert_eq!(segment_base(b"123456789012.data.data"), None);
}

#[test]
fn recovery_plan() {
    assert_eq!(plan_recovery(&[], 3), None);
    assert_eq!(plan_recovery(&[7], 3), Some(RecoveryPlan { active: 7, sealed: vec![] }));
    assert_eq!(
        plan_recovery(&[4, 0, 9, 2, 6], 3),
        Some(RecoveryPlan { active: 9, sealed: vec![4, 6] })
    );
    assert_eq!(
        plan_recovery(&[4, 0, 9, 2, 6], 10),
        Some(RecoveryPlan { active: 9, sealed: vec![0, 2, 4, 6] })
    );
    assert_eq!(plan_recovery(&[4, 0, 9], 1), Some(RecoveryPlan { active: 9, sealed: vec![] }));
    assert_eq!(plan_recovery(&[4, 0, 9], 0), Some(RecoveryPlan { active: 9, sealed: vec![] }));
}

fn names(list: &[&str]) -> Vec<Vec<u8>> {
    list.iter().map(|s| s.as_bytes().to_vec()).collect()
}

#[test]
fn sweep_deletes_oldest() {
    let dir = names(&[
        "000000000004.data",
        "000000000000.index",
        "notes.txt",
        "000000000000.data",
        "000000000004.index",
        "000000000002.data",
        "000000000002.index",
    ]);
    let gone = files_to_delete(&dir, 4);
    assert_eq!(gone, names(&["000000000000.data", "000000000000.index"]));
    assert!(files_to_delete(&dir, 6).is_empty());
    assert_eq!(files_to_delete(&dir, 0).len(), 6);
}

#[test]
fn sweep_twice_is_sweep_once() {
    let dir = names(&["000000000003.data", "000000000001.data", "000000000001.index", "000000000003.index", "000000000005.data", "000000000005.index", ".data", "x.log"]);
    let gone = files_to_delete(&dir, 2);
    assert_eq!(gone.len(), 4);
    let rest: Vec<Vec<u8>> = dir.iter().filter(|n| !gone.contains(n)).cloned().collect();
    assert!(files_to_delete(&rest, 2).is_empty());
    assert!(rest.contains(&b"000000000005.data".to_vec()));
    assert!(rest.contains(&b".data".to_vec()));
}
