use logbroker::layout::{plan_recovery, segment_file_name, FileKind};
use logbroker::protocol::{parse_pull_stream, Record};
use logbroker::store::{
    AppendError, AppendPlan, LookupError, RecoverError, SealedSegment, SegmentStore,
    StoreSettings, Transfer, INDEX_GROWTH, INITIAL_INDEX_LEN,
};
use std::collections::BTreeMap;

/// The files of one broker directory, kept in memory.
#[derive(Default)]
struct Disk {
    data: BTreeMap<u64, Vec<u8>>,
    index: BTreeMap<u64, Vec<u8>>,
}

impl Disk {
    fn fresh() -> Disk {
        let mut d = Disk::default();
        d.data.insert(0, Vec::new());
        d.index.insert(0, vec![0u8; INITIAL_INDEX_LEN]);
        d
    }

    fn apply(&mut self, plan: &AppendPlan) {
        if plan.sealed.is_some() {
            self.data.insert(plan.base, Vec::new());
            self.index.insert(plan.base, vec![0u8; INITIAL_INDEX_LEN]);
        }
        if let Some(len) = plan.index_len {
            self.index.get_mut(&plan.base).unwrap().resize(len, 0);
        }
        let data = self.data.get_mut(&plan.base).unwrap();
        assert_eq!(data.len() as u64, plan.data_start);
        data.extend_from_slice(&plan.record);
        let index = self.index.get_mut(&plan.base).unwrap();
        index[plan.slot_at..plan.slot_at + plan.slot.len()].copy_from_slice(&plan.slot);
    }

    fn read(&self, t: &Transfer) -> Vec<u8> {
        let data = &self.data[&t.base];
        data[t.start as usize..(t.start + t.len) as usize].to_vec()
    }

    /// Takes the store up again from the files alone.
    fn recover(&self, settings: StoreSettings) -> SegmentStore {
        let bases: Vec<u64> = self.data.keys().copied().collect();
        let plan = plan_recovery(&bases, settings.cache_limit).unwrap();
        let mut sealed = Vec::new();
        for b in &plan.sealed {
            sealed.push(
                SealedSegment::load(*b, self.index[b].clone(), self.data[b].len() as u64).unwrap(),
            );
        }
        SegmentStore::recover(
            settings,
            plan.active,
            self.index[&plan.active].clone(),
            self.data[&plan.active].len() as u64,
            sealed,
        )
        .unwrap()
    }
}

fn settings(max_file_size: u64, pull_max_limit: u64, cache_limit: usize) -> StoreSettings {
    StoreSettings { max_file_size, pull_max_limit, cache_limit }
}

fn records(bytes: &[u8]) -> Vec<Record> {
    let mut b = bytes.to_vec();
    b.extend_from_slice(&[0, 0, 0, 0]);
    parse_pull_stream(&b).unwrap()
}

fn push(store: &mut SegmentStore, disk: &mut Disk, payload: &[u8]) -> AppendPlan {
    let plan = store.append(payload).unwrap();
    disk.apply(&plan);
    plan
}

#[test]
fn fresh_store_is_empty() {
    let s = SegmentStore::create(settings(1024, 1024, 4));
    assert_eq!(s.position(), 0);
    assert_eq!(s.base(), 0);
    assert_eq!(s.data_len(), 0);
    assert!(s.sealed_bases().is_empty());
    assert_eq!(s.locate(0), Err(LookupError::IndexNotMatched));
    assert_eq!(s.locate(5), Err(LookupError::IndexNotMatched));
}

#[test]
fn append_writes_header_payload_and_slot() {
    let mut s = SegmentStore::create(settings(1024, 1024, 4));
    let plan = s.append(b"hey").unwrap();
    assert_eq!(plan.sealed, None);
    assert_eq!(plan.evicted, None);
    assert_eq!(plan.base, 0);
    assert_eq!(plan.index_len, None);
    assert_eq!(plan.data_start, 0);
    assert_eq!(plan.record, vec![0, 0, 0, 3, 0, 0, 0, 0, 0, 0, 0, 0, b'h', b'e', b'y']);
    assert_eq!(plan.slot_at, 0);
    let mut slot = vec![0, 0, 0, 0, 0, 0, 0, 0, 0, 0, 0, 15];
    slot.extend_from_slice(&[0; 12]);
    assert_eq!(plan.slot, slot);
    let plan = s.append(b"ab").unwrap();
    assert_eq!(plan.data_start, 15);
    assert_eq!(plan.slot_at, 12);
    assert_eq!(plan.record[..12], [0, 0, 0, 2, 0, 0, 0, 0, 0, 0, 0, 1]);
    assert_eq!(plan.slot[..12], [0, 0, 0, 0, 0, 0, 0, 15, 0, 0, 0, 14]);
    assert_eq!(s.data_len(), 29);
}

#[test]
fn position_counts_appends() {
    let mut s = SegmentStore::create(settings(100, 1024, 2));
    let start = s.position();
    for n in 0..25u64 {
        s.append(&[7u8; 30]).unwrap();
        assert_eq!(s.position(), start + n + 1);
    }
}

#[test]
fn slots_point_at_headers_with_their_offsets() {
    let mut s = SegmentStore::create(settings(1 << 20, 1 << 20, 2));
    let mut disk = Disk::fresh();
    for n in 0..10usize {
        push(&mut s, &mut disk, &vec![n as u8; n + 1]);
    }
    let index = &disk.index[&0];
    let data = &disk.data[&0];
    for k in 0..10usize {
        let slot = &index[12 * k..12 * k + 12];
        let start = u64::from_be_bytes(slot[..8].try_into().unwrap()) as usize;
        let size = u32::from_be_bytes(slot[8..].try_into().unwrap()) as usize;
        assert!(start + size <= data.len());
        let offset = u64::from_be_bytes(data[start + 4..start + 12].try_into().unwrap());
        assert_eq!(offset, k as u64);
        assert_eq!(size, 12 + k + 1);
    }
    assert!(index[120..132].iter().all(|b| *b == 0));
}

#[test]
fn round_trip_three_payloads() {
    let mut s = SegmentStore::create(settings(1 << 20, 1 << 20, 2));
    let mut disk = Disk::fresh();
    for p in [&b"a"[..], b"bb", b"ccc"] {
        push(&mut s, &mut disk, p);
    }
    let rs = records(&disk.data[&0]);
    assert_eq!(rs.len(), 3);
    assert_eq!(rs[0], Record { offset: 0, payload: b"a".to_vec() });
    assert_eq!(rs[1], Record { offset: 1, payload: b"bb".to_vec() });
    assert_eq!(rs[2], Record { offset: 2, payload: b"ccc".to_vec() });
    // Reading from offset 1 up sends records 1 and 2.
    let t = s.locate(1).unwrap();
    let got = records(&disk.read(&t));
    assert_eq!(got.len(), 2);
    assert_eq!(got[0].payload, b"bb".to_vec());
    assert_eq!(got[1].payload, b"ccc".to_vec());
    // A pull of 0 asks for the newest record.
    let t = s.locate(0).unwrap();
    let got = records(&disk.read(&t));
    assert_eq!(got.len(), 1);
    assert_eq!(got[0].payload, b"ccc".to_vec());
}

#[test]
fn rotation_at_max_file_size() {
    let mut s = SegmentStore::create(settings(64, 1 << 20, 4));
    let mut disk = Disk::fresh();
    let mut bases = Vec::new();
    for _ in 0..4 {
        let position = s.position();
        let plan = push(&mut s, &mut disk, &[9u8; 40]);
        if plan.sealed.is_some() {
            assert_eq!(plan.base, position);
        }
        bases.push(plan.base);
    }
    // A record takes 52 bytes, so a 64-byte data file holds one.
    assert_eq!(bases, vec![0, 1, 2, 3]);
    assert_eq!(s.sealed_bases(), vec![0, 1, 2]);
    let t = s.locate(2).unwrap();
    assert_eq!(t, Transfer { base: 2, start: 0, len: 52 });
    let got = records(&disk.read(&t));
    assert_eq!(got[0].offset, 2);
    let t = s.locate(0).unwrap();
    assert_eq!(t.base, 3);
}

#[test]
fn rotation_with_two_records_per_segment() {
    let mut s = SegmentStore::create(settings(110, 1 << 20, 4));
    let mut disk = Disk::fresh();
    for _ in 0..4 {
        push(&mut s, &mut disk, &[1u8; 40]);
    }
    assert_eq!(disk.data.keys().copied().collect::<Vec<_>>(), vec![0, 2]);
    assert_eq!(s.locate(1).unwrap(), Transfer { base: 0, start: 52, len: 52 });
    assert_eq!(s.locate(2).unwrap(), Transfer { base: 2, start: 0, len: 104 });
}

#[test]
fn rotation_keeps_cache_bounded() {
    let mut s = SegmentStore::create(settings(64, 1 << 20, 2));
    let mut evicted = Vec::new();
    for _ in 0..5 {
        let plan = s.append(&[3u8; 40]).unwrap();
        if let Some(e) = plan.evicted {
            evicted.push(e);
        }
    }
    assert_eq!(s.sealed_bases(), vec![2, 3]);
    assert_eq!(evicted, vec![0, 1]);
    assert_eq!(s.locate(1), Err(LookupError::IndexNotMatched));
    assert_eq!(s.locate(2).unwrap().base, 2);
}

#[test]
fn cache_of_zero_keeps_no_sealed_segment() {
    let mut s = SegmentStore::create(settings(64, 1 << 20, 0));
    s.append(&[3u8; 40]).unwrap();
    let plan = s.append(&[3u8; 40]).unwrap();
    assert_eq!(plan.sealed, Some(0));
    assert_eq!(plan.evicted, Some(0));
    assert!(s.sealed_bases().is_empty());
}

#[test]
fn oversized_record_in_empty_segment_does_not_rotate() {
    let mut s = SegmentStore::create(settings(10, 1 << 20, 2));
    let plan = s.append(&[1u8; 40]).unwrap();
    assert_eq!(plan.sealed, None);
    let plan = s.append(&[1u8; 1]).unwrap();
    assert_eq!(plan.sealed, Some(0));
    assert_eq!(plan.base, 1);
}

#[test]
fn restart_recovers_position() {
    let cfg = settings(64, 1 << 20, 4);
    let mut s = SegmentStore::create(cfg);
    let mut disk = Disk::fresh();
    for _ in 0..4 {
        push(&mut s, &mut disk, &[5u8; 40]);
    }
    let mut r = disk.recover(cfg);
    assert_eq!(r.position(), 4);
    assert_eq!(r.base(), s.base());
    assert_eq!(r.sealed_bases(), vec![0, 1, 2]);
    let plan = r.append(b"fifth").unwrap();
    disk.apply(&plan);
    let t = r.locate(4).unwrap();
    let got = records(&disk.read(&t));
    assert_eq!(got[0].offset, 4);
    assert_eq!(got[0].payload, b"fifth".to_vec());
}

#[test]
fn restart_of_a_single_segment() {
    let cfg = settings(1 << 20, 1 << 20, 4);
    let mut s = SegmentStore::create(cfg);
    let mut disk = Disk::fresh();
    for p in [&b"a"[..], b"bb", b"ccc"] {
        push(&mut s, &mut disk, p);
    }
    let r = disk.recover(cfg);
    assert_eq!(r.position(), 3);
    assert_eq!(r.data_len(), s.data_len());
    assert_eq!(r.locate(1), s.locate(1));
}

#[test]
fn pull_latest_with_large_and_small_limit() {
    for limit in [1u64 << 20, 10] {
        let mut s = SegmentStore::create(settings(1 << 20, limit, 2));
        for _ in 0..4 {
            s.append(&[2u8; 8]).unwrap();
        }
        assert_eq!(s.position(), 4);
        // Zero means the newest record: offset 3.
        let t = s.locate(0).unwrap();
        assert_eq!(t, Transfer { base: 0, start: 60, len: 20 });
        // From offset 1 the tail is 60 bytes: all of it, or one record.
        let t = s.locate(1).unwrap();
        let tail = if limit > 60 { 60 } else { 20 };
        assert_eq!(t, Transfer { base: 0, start: 20, len: tail });
    }
}

#[test]
fn pull_limit_policy_boundary() {
    let mut s = SegmentStore::create(settings(1 << 20, 40, 2));
    for _ in 0..3 {
        s.append(&[0u8; 8]).unwrap();
    }
    // 40 bytes remain from record 1: not over the limit, all are sent.
    assert_eq!(s.locate(1).unwrap().len, 40);
    // From offset 2, 20 bytes remain.
    assert_eq!(s.locate(2).unwrap().len, 20);
    s.append(&[0u8; 8]).unwrap();
    // Now 60 bytes remain from record 1: over the limit, one record is sent.
    assert_eq!(s.locate(1).unwrap(), Transfer { base: 0, start: 20, len: 20 });
}

#[test]
fn pull_past_position_is_not_matched() {
    let mut s = SegmentStore::create(settings(1 << 20, 1 << 20, 2));
    s.append(b"x").unwrap();
    assert_eq!(s.locate(1), Err(LookupError::IndexNotMatched));
    assert_eq!(s.locate(99), Err(LookupError::IndexNotMatched));
}

#[test]
fn index_grows_when_full() {
    let mut s = SegmentStore::create(settings(u64::MAX, 1 << 20, 2));
    let mut grown = Vec::new();
    for _ in 0..1024 {
        let plan = s.append(b"z").unwrap();
        if let Some(len) = plan.index_len {
            grown.push(len);
        }
    }
    assert_eq!(grown, vec![INITIAL_INDEX_LEN + INDEX_GROWTH]);
}

#[test]
fn offsets_exhausted() {
    let mut s = SegmentStore::recover(
        settings(1 << 20, 1 << 20, 2),
        u64::MAX,
        vec![0u8; 24],
        0,
        Vec::new(),
    )
    .unwrap();
    assert_eq!(s.position(), u64::MAX);
    assert_eq!(s.append(b"x").unwrap_err(), AppendError::OffsetsExhausted);
    assert_eq!(s.position(), u64::MAX);
}

#[test]
fn segment_full() {
    let mut s =
        SegmentStore::recover(settings(u64::MAX, 1 << 20, 2), 7, vec![0u8; 24], u64::MAX - 5, Vec::new())
            .unwrap();
    assert_eq!(s.append(b"x").unwrap_err(), AppendError::SegmentFull);
    assert_eq!(s.data_len(), u64::MAX - 5);
}

#[test]
fn recover_rejects_slot_past_data() {
    let mut index = vec![0u8; 36];
    index[7] = 10;
    index[11] = 20;
    let r = SegmentStore::recover(settings(1 << 20, 1 << 20, 2), 0, index, 25, Vec::new());
    assert_eq!(r.err(), Some(RecoverError::SlotOutOfRange));
}

#[test]
fn recover_rejects_offset_overflow() {
    let mut index = vec![0u8; 36];
    index[11] = 12;
    let r = SegmentStore::recover(settings(1 << 20, 1 << 20, 2), u64::MAX, index, 12, Vec::new());
    assert_eq!(r.err(), Some(RecoverError::OffsetOverflow));
}

#[test]
fn recover_rejects_sealed_out_of_order() {
    let a = SealedSegment::load(5, vec![0u8; 12], 0).unwrap();
    let b = SealedSegment::load(3, vec![0u8; 12], 0).unwrap();
    let r = SegmentStore::recover(settings(1 << 20, 1 << 20, 4), 9, vec![0u8; 12], 0, vec![a, b]);
    assert_eq!(r.err(), Some(RecoverError::SegmentOrder));
    let c = SealedSegment::load(9, vec![0u8; 12], 0).unwrap();
    let r = SegmentStore::recover(settings(1 << 20, 1 << 20, 4), 9, vec![0u8; 12], 0, vec![c]);
    assert_eq!(r.err(), Some(RecoverError::SegmentOrder));
}

#[test]
fn recover_rejects_a_gap_before_the_active_segment() {
    let mut index = vec![0u8; 24];
    index[11] = 12;
    let a = SealedSegment::load(0, index, 12).unwrap();
    assert_eq!(a.count, 1);
    let r = SegmentStore::recover(settings(1 << 20, 1 << 20, 4), 5, vec![0u8; 12], 0, vec![a]);
    assert_eq!(r.err(), Some(RecoverError::SegmentOrder));
}

#[test]
fn recovered_chain_serves_sealed_offsets() {
    let mut index = vec![0u8; 36];
    index[11] = 12;
    index[19] = 12;
    index[23] = 12;
    let a = SealedSegment::load(0, index, 24).unwrap();
    let s = SegmentStore::recover(settings(1 << 20, 1 << 20, 4), 2, vec![0u8; 12], 0, vec![a])
        .unwrap();
    assert_eq!(s.position(), 2);
    assert_eq!(s.locate(1).unwrap(), Transfer { base: 0, start: 12, len: 12 });
    assert_eq!(s.locate(2), Err(LookupError::IndexNotMatched));
}

#[test]
fn recover_ignores_partial_slot_and_counts_full_index() {
    let mut index = vec![0u8; 30];
    index[11] = 12;
    index[23] = 12;
    index[19] = 12;
    index[29] = 1;
    let s = SegmentStore::recover(settings(1 << 20, 1 << 20, 2), 10, index, 24, Vec::new()).unwrap();
    assert_eq!(s.position(), 12);
}

#[test]
fn sealed_load_counts_written_slots() {
    let mut index = vec![0u8; 48];
    index[11] = 20;
    index[19] = 20;
    index[23] = 20;
    let seg = SealedSegment::load(4, index, 40).unwrap();
    assert_eq!(seg.count, 2);
    assert_eq!(seg.base, 4);
    assert_eq!(SealedSegment::load(4, vec![0, 0, 0, 0, 0, 0, 0, 0, 0, 0, 0, 20], 10).err(), Some(RecoverError::SlotOutOfRange));
}

#[test]
fn file_names_of_a_segment() {
    assert_eq!(segment_file_name(2, FileKind::Data), b"000000000002.data".to_vec());
    assert_eq!(segment_file_name(2, FileKind::Index), b"000000000002.index".to_vec());
}
