//! The segment store of one broker: an active segment that takes appends,
//! a bounded cache of sealed segments, and the lookup that turns a logical
//! offset into a byte range of one data file.
use crate::codec::{
    be32, be64, encode_record, encode_slot_pair, header_len_at, header_offset_at,
    lemma_header_read_back, lemma_u32_round_trip, lemma_u64_round_trip, lemma_zero_values,
    read_slot, record_bytes, records_concat, slot_bytes, slot_is_empty, slot_size, slot_start,
    splice, write_at, zeros,
};
use crate::protocol::{lemma_stream_round_trip, parse_stream, stream_bytes};
use vstd::prelude::*;

verus! {

/// Bytes of a freshly created index file: room for 1024 slots.
pub const INITIAL_INDEX_LEN: usize = 12288;

/// Bytes added to an index file when it runs out of room: 512 slots.
pub const INDEX_GROWTH: usize = 6144;

/// The sizes that govern one store.
#[derive(Clone, Copy, Debug, PartialEq, Eq, Structural)]
pub struct StoreSettings {
    /// A data file is sealed before it would grow past this many bytes.
    pub max_file_size: u64,
    /// A pull that would send more than this many bytes sends one record.
    pub pull_max_limit: u64,
    /// How many sealed segments stay open for reads.
    pub cache_limit: usize,
}

/// A sealed segment kept open for reads: its index bytes and data length.
#[derive(Debug)]
pub struct SealedSegment {
    pub base: u64,
    /// Records in the segment: its written slots.
    pub count: u64,
    pub data_len: u64,
    pub index: Vec<u8>,
}

pub struct SealedView {
    pub base: u64,
    pub count: u64,
    pub data_len: u64,
    pub index: Seq<u8>,
}

impl View for SealedSegment {
    type V = SealedView;

    open spec fn view(&self) -> SealedView {
        SealedView {
            base: self.base,
            count: self.count,
            data_len: self.data_len,
            index: self.index@,
        }
    }
}

pub open spec fn sealed_views(v: Seq<SealedSegment>) -> Seq<SealedView> {
    v.map_values(|x: SealedSegment| x@)
}

/// Slots `0..count` exist, and each names a record of at least a header
/// that ends within `data_len` bytes.
pub open spec fn slots_fit(index: Seq<u8>, count: int, data_len: int) -> bool {
    &&& 0 <= count
    &&& 12 * count <= index.len()
    &&& forall|k: int|
        0 <= k < count ==> #[trigger] slot_start(index, k) + slot_size(index, k) <= data_len
            && slot_size(index, k) >= 12
}

impl SealedView {
    pub open spec fn wf(self) -> bool {
        &&& self.base + self.count <= u64::MAX
        &&& slots_fit(self.index, self.count as int, self.data_len as int)
    }
}

/// Sealed segment `i` holds records and ends where the next one begins, or,
/// for the newest, where the active segment begins.
pub open spec fn link(q: Seq<SealedView>, base: u64, i: int) -> bool {
    &&& q[i].count > 0
    &&& q[i].base + q[i].count == (if i + 1 < q.len() {
        q[i + 1].base as int
    } else {
        base as int
    })
}

/// The sealed segments run back to back, up to the active one at `base`.
pub open spec fn chained(q: Seq<SealedView>, base: u64) -> bool {
    forall|i: int| 0 <= i < q.len() ==> #[trigger] link(q, base, i)
}

/// The model of a store.
pub struct StoreView {
    pub settings: StoreSettings,
    /// Base offset of the active segment.
    pub base: u64,
    /// Offset that the next record gets.
    pub position: u64,
    /// Bytes in the active data file.
    pub data_len: u64,
    /// Bytes of the active index file.
    pub index: Seq<u8>,
    /// The cached sealed segments, oldest first.
    pub sealed: Seq<SealedView>,
    /// The bytes of the active data file, where this store wrote all of them.
    pub written: Option<Seq<u8>>,
    /// The bytes of all data files, oldest segment first, where this store
    /// wrote them all, starting from an empty directory.
    pub history: Option<Seq<u8>>,
}

impl StoreView {
    /// Records in the active segment.
    pub open spec fn count(self) -> int {
        self.position - self.base
    }

    pub open spec fn wf(self) -> bool {
        &&& self.base <= self.position
        &&& slots_fit(self.index, self.count(), self.data_len as int)
        &&& self.index.len() % 12 == 0
        &&& self.index.len() <= usize::MAX
        &&& 12 * (self.count() + 1) <= self.index.len() ==> slot_is_empty(self.index, self.count())
        &&& self.sealed.len() <= self.settings.cache_limit
        &&& forall|i: int|
            0 <= i < self.sealed.len() ==> (#[trigger] self.sealed[i]).wf() && self.sealed[i].base
                < self.base
        &&& forall|i: int, j: int|
            0 <= i < j < self.sealed.len() ==> #[trigger] self.sealed[i].base
                < #[trigger] self.sealed[j].base
        &&& chained(self.sealed, self.base)
    }

    /// The active data file is known byte for byte, and holds exactly the
    /// records of the written slots, back to back, slot `k` naming the record
    /// whose header carries offset `base + k`.
    pub open spec fn log_known(self) -> bool {
        match self.written {
            Some(d) => {
                &&& d.len() == self.data_len
                &&& self.count() == 0 ==> self.data_len == 0
                &&& self.count() > 0 ==> slot_start(self.index, 0) == 0 && slot_start(
                    self.index,
                    self.count() - 1,
                ) + slot_size(self.index, self.count() - 1) == self.data_len
                &&& forall|k: int|
                    0 <= k < self.count() ==> header_offset_at(d, #[trigger] slot_start(self.index, k) as int)
                        == self.base + k && header_len_at(d, slot_start(self.index, k) as int) + 12
                        == slot_size(self.index, k)
                &&& forall|k: int|
                    0 <= k < self.count() - 1 ==> #[trigger] slot_start(self.index, k + 1)
                        == slot_start(self.index, k) + slot_size(self.index, k)
            },
            None => false,
        }
    }
}

/// The store of one broker.
pub struct SegmentStore {
    settings: StoreSettings,
    base: u64,
    position: u64,
    data_len: u64,
    index: Vec<u8>,
    sealed: Vec<SealedSegment>,
    written: Ghost<Option<Seq<u8>>>,
    history: Ghost<Option<Seq<u8>>>,
}

impl View for SegmentStore {
    type V = StoreView;

    closed spec fn view(&self) -> StoreView {
        StoreView {
            settings: self.settings,
            base: self.base,
            position: self.position,
            data_len: self.data_len,
            index: self.index@,
            sealed: sealed_views(self.sealed@),
            written: self.written@,
            history: self.history@,
        }
    }
}

proof fn lemma_zero_slots(n: nat)
    requires
        n % 12 == 0,
    ensures
        forall|k: int| 0 <= k && 12 * k + 12 <= n ==> #[trigger] slot_is_empty(zeros(n), k),
{
    assert forall|k: int| 0 <= k && 12 * k + 12 <= n implies #[trigger] slot_is_empty(zeros(n), k) by {
        lemma_zero_values(zeros(n).subrange(12 * k, 12 * k + 8));
        lemma_zero_values(zeros(n).subrange(12 * k + 8, 12 * k + 12));
    }
}

/// A pull names no record that the store can read.
#[derive(Clone, Copy, Debug, PartialEq, Eq, Structural)]
pub enum LookupError {
    IndexNotMatched,
}

/// A byte range of one data file: the file of segment `base`, from `start`,
/// `len` bytes.
#[derive(Clone, Copy, Debug, PartialEq, Eq, Structural)]
pub struct Transfer {
    pub base: u64,
    pub start: u64,
    pub len: u64,
}

/// The offset a pull reads: a request for 0 asks for the newest record,
/// once there is one.
pub open spec fn effective_offset(requested: u64, position: u64) -> u64 {
    if requested == 0 && position > 0 {
        (position - 1) as u64
    } else {
        requested
    }
}

/// How many bytes a pull sends from a record at `start` of size `size` in a
/// file of `file_len` bytes: the rest of the file, or this one record alone
/// when the rest is over the limit.
pub open spec fn pull_len(file_len: u64, start: u64, size: u32, limit: u64) -> u64 {
    if file_len - start > limit {
        size as u64
    } else {
        (file_len - start) as u64
    }
}

/// The index of the sealed segment with the largest base at or below `off`,
/// or -1.
pub open spec fn last_at_or_below(q: Seq<SealedView>, off: u64) -> int
    decreases q.len(),
{
    if q.len() == 0 {
        -1
    } else if q.last().base <= off {
        q.len() - 1
    } else {
        last_at_or_below(q.drop_last(), off)
    }
}

/// Where the record at logical offset `off` is read, from slot `k` of `index`.
pub open spec fn transfer_of(
    base: u64,
    index: Seq<u8>,
    k: int,
    file_len: u64,
    limit: u64,
) -> Transfer {
    Transfer {
        base,
        start: slot_start(index, k),
        len: pull_len(file_len, slot_start(index, k), slot_size(index, k), limit),
    }
}

/// What a pull of `requested` reads: from the active segment when the
/// offset is written there, else from the cached sealed segment with the
/// largest base at or below it, when that segment holds the offset.
pub open spec fn located(s: StoreView, requested: u64) -> Result<Transfer, LookupError> {
    let off = effective_offset(requested, s.position);
    let limit = s.settings.pull_max_limit;
    if s.base <= off < s.position {
        Ok(transfer_of(s.base, s.index, off - s.base, s.data_len, limit))
    } else {
        let i = last_at_or_below(s.sealed, off);
        if i >= 0 && off - s.sealed[i].base < s.sealed[i].count {
            let e = s.sealed[i];
            Ok(transfer_of(e.base, e.index, off - e.base, e.data_len, limit))
        } else {
            Err(LookupError::IndexNotMatched)
        }
    }
}

proof fn lemma_last_at_or_below(q: Seq<SealedView>, off: u64)
    ensures
        -1 <= last_at_or_below(q, off) < q.len(),
        last_at_or_below(q, off) >= 0 ==> q[last_at_or_below(q, off)].base <= off,
        forall|j: int| last_at_or_below(q, off) < j < q.len() ==> #[trigger] q[j].base > off,
    decreases q.len(),
{
    if q.len() > 0 && q.last().base > off {
        lemma_last_at_or_below(q.drop_last(), off);
        assert forall|j: int| last_at_or_below(q, off) < j < q.len() implies #[trigger] q[j].base
            > off by {
            if j < q.len() - 1 {
                assert(q.drop_last()[j] == q[j]);
            }
        }
    }
}

fn pull_size(file_len: u64, start: u64, size: u32, limit: u64) -> (r: u64)
    requires
        start <= file_len,
    ensures
        r == pull_len(file_len, start, size, limit),
{
    if file_len - start > limit {
        size as u64
    } else {
        file_len - start
    }
}

impl SegmentStore {
    /// A store for an empty broker directory: one active segment at base 0.
    pub fn create(settings: StoreSettings) -> (r: SegmentStore)
        ensures
            r@.wf(),
            r@.log_known(),
            r@.settings == settings,
            r@.base == 0,
            r@.position == 0,
            r@.data_len == 0,
            r@.index == zeros(INITIAL_INDEX_LEN as nat),
            r@.sealed.len() == 0,
    {
        let index: Vec<u8> = vec![0u8; INITIAL_INDEX_LEN];
        assert(index@ =~= zeros(INITIAL_INDEX_LEN as nat));
        proof {
            lemma_zero_slots(INITIAL_INDEX_LEN as nat);
        }
        let r = SegmentStore {
            settings,
            base: 0,
            position: 0,
            data_len: 0,
            index,
            sealed: Vec::new(),
            written: Ghost(Some(Seq::empty())),
            history: Ghost(Some(Seq::empty())),
        };
        assert(r@.sealed =~= Seq::empty());
        r
    }

    pub fn settings(&self) -> (r: StoreSettings)
        ensures
            r == self@.settings,
    {
        self.settings
    }

    /// Base offset of the active segment.
    pub fn base(&self) -> (r: u64)
        ensures
            r == self@.base,
    {
        self.base
    }

    /// The offset that the next record gets.
    pub fn position(&self) -> (r: u64)
        ensures
            r == self@.position,
    {
        self.position
    }

    /// Bytes in the active data file.
    pub fn data_len(&self) -> (r: u64)
        ensures
            r == self@.data_len,
    {
        self.data_len
    }

    /// Bases of the cached sealed segments, oldest first.
    pub fn sealed_bases(&self) -> (r: Vec<u64>)
        ensures
            r@.len() == self@.sealed.len(),
            forall|i: int| 0 <= i < r@.len() ==> r@[i] == self@.sealed[i].base,
    {
        let mut r: Vec<u64> = Vec::new();
        let mut i: usize = 0;
        while i < self.sealed.len()
            invariant
                i <= self.sealed@.len(),
                r@.len() == i,
                forall|j: int| 0 <= j < i ==> r@[j] == self@.sealed[j].base,
            decreases self.sealed@.len() - i,
        {
            r.push(self.sealed[i].base);
            i = i + 1;
        }
        r
    }

    /// Resolves a pull of `requested` to the byte range that answers it.
    pub fn locate(&self, requested: u64) -> (r: Result<Transfer, LookupError>)
        requires
            self@.wf(),
        ensures
            r == located(self@, requested),
    {
        let limit = self.settings.pull_max_limit;
        let off = if requested == 0 && self.position > 0 {
            self.position - 1
        } else {
            requested
        };
        if self.base <= off && off < self.position {
            let k = (off - self.base) as usize;
            let (start, size) = read_slot(self.index.as_slice(), k);
            assert(slot_start(self@.index, k as int) + slot_size(self@.index, k as int)
                <= self.data_len);
            return Ok(Transfer { base: self.base, start, len: pull_size(self.data_len, start, size, limit) });
        }
        let ghost q = self@.sealed;
        let mut i: usize = self.sealed.len();
        assert(q.subrange(0, i as int) =~= q);
        while i > 0 && self.sealed[i - 1].base > off
            invariant
                i <= self.sealed@.len(),
                q == self@.sealed,
                last_at_or_below(q, off) == last_at_or_below(q.subrange(0, i as int), off),
            decreases i,
        {
            assert(q.subrange(0, i as int).drop_last() =~= q.subrange(0, i - 1));
            i = i - 1;
        }
        if i == 0 {
            assert(q.subrange(0, 0) =~= Seq::<SealedView>::empty());
            return Err(LookupError::IndexNotMatched);
        }
        let e = &self.sealed[i - 1];
        assert(e@ == q[i - 1]);
        assert(q.subrange(0, i as int).last() == q[i - 1]);
        assert(last_at_or_below(q, off) == i - 1);
        assert(e@.wf());
        if off - e.base < e.count {
            let _n = e.index.len();
            assert(12 * (off - e.base) <= e.index@.len());
            let k = (off - e.base) as usize;
            let (start, size) = read_slot(e.index.as_slice(), k);
            assert(slot_start(e@.index, k as int) + slot_size(e@.index, k as int) <= e.data_len);
            Ok(Transfer { base: e.base, start, len: pull_size(e.data_len, start, size, limit) })
        } else {
            Err(LookupError::IndexNotMatched)
        }
    }
}

/// Why an append was refused; the store is then unchanged.
#[derive(Clone, Copy, Debug, PartialEq, Eq, Structural)]
pub enum AppendError {
    /// The payload and its header do not fit the header's 32-bit size.
    PayloadTooLarge,
    /// Every logical offset has been handed out.
    OffsetsExhausted,
    /// The active data file would pass 2^64 bytes and holds no record to seal.
    SegmentFull,
    /// The active index cannot grow within the address space.
    IndexFull,
}

/// What the files must undergo for one append, in this order: when `sealed`
/// names a segment, it is reopened read-only and a fresh data file and index
/// file of `INITIAL_INDEX_LEN` zero bytes are created at `base`; `evicted`
/// names the sealed segment that leaves the read cache; when `index_len`
/// is given, the active index file is zero-extended to that length; then
/// `record` is written at `data_start` of the active data file and `slot` at
/// `slot_at` of the active index.
#[derive(Debug)]
pub struct AppendPlan {
    pub sealed: Option<u64>,
    pub evicted: Option<u64>,
    pub base: u64,
    pub index_len: Option<usize>,
    pub data_start: u64,
    pub record: Vec<u8>,
    pub slot_at: usize,
    pub slot: Vec<u8>,
}

/// The active segment is sealed before a record of `len` payload bytes: it
/// holds a record, and the new one would take its data file past the limit.
pub open spec fn rotates(s: StoreView, len: int) -> bool {
    s.position > s.base && s.data_len + 12 + len > s.settings.max_file_size
}

/// The newest `limit` entries of `q`.
pub open spec fn newest(q: Seq<SealedView>, limit: int) -> Seq<SealedView> {
    if q.len() > limit {
        q.subrange(q.len() - limit, q.len() as int)
    } else {
        q
    }
}

/// The active segment as a sealed one.
pub open spec fn sealed_of(s: StoreView) -> SealedView {
    SealedView { base: s.base, count: (s.position - s.base) as u64, data_len: s.data_len, index: s.index }
}

/// The store after sealing its active segment and starting an empty one at
/// `position`.
pub open spec fn rotated(s: StoreView) -> StoreView {
    StoreView {
        base: s.position,
        data_len: 0,
        index: zeros(INITIAL_INDEX_LEN as nat),
        sealed: newest(s.sealed.push(sealed_of(s)), s.settings.cache_limit as int),
        written: Some(Seq::empty()),
        ..s
    }
}

/// The active index lacks room for the next slot and the empty one after it.
pub open spec fn needs_room(s: StoreView) -> bool {
    12 * (s.count() + 2) > s.index.len()
}

pub open spec fn with_room(s: StoreView) -> StoreView {
    if needs_room(s) {
        StoreView { index: s.index + zeros(INDEX_GROWTH as nat), ..s }
    } else {
        s
    }
}

/// The store made ready for a record of `len` payload bytes.
pub open spec fn prepared(s: StoreView, len: int) -> StoreView {
    with_room(
        if rotates(s, len) {
            rotated(s)
        } else {
            s
        },
    )
}

/// The store after writing `payload` as the next record of the active
/// segment, its slot, and an empty slot after it.
pub open spec fn with_record(s: StoreView, payload: Seq<u8>) -> StoreView {
    StoreView {
        position: (s.position + 1) as u64,
        data_len: (s.data_len + 12 + payload.len()) as u64,
        index: splice(
            s.index,
            12 * s.count(),
            slot_bytes(s.data_len, (12 + payload.len()) as u32) + zeros(12),
        ),
        written: match s.written {
            Some(d) => Some(d + record_bytes(payload, s.position)),
            None => None,
        },
        history: match s.history {
            Some(h) => Some(h + record_bytes(payload, s.position)),
            None => None,
        },
        ..s
    }
}

/// The refusal that an append of `len` payload bytes meets, if any.
pub open spec fn append_error(s: StoreView, len: int) -> Option<AppendError> {
    let t = if rotates(s, len) {
        rotated(s)
    } else {
        s
    };
    if len + 12 > u32::MAX {
        Some(AppendError::PayloadTooLarge)
    } else if s.position == u64::MAX {
        Some(AppendError::OffsetsExhausted)
    } else if t.data_len + 12 + len > u64::MAX {
        Some(AppendError::SegmentFull)
    } else if needs_room(t) && t.index.len() + INDEX_GROWTH > usize::MAX {
        Some(AppendError::IndexFull)
    } else {
        None
    }
}

proof fn lemma_rotated_wf(s: StoreView)
    requires
        s.wf(),
        s.position > s.base,
    ensures
        rotated(s).wf(),
        rotated(s).log_known(),
{
    let r = rotated(s);
    let p = s.sealed.push(sealed_of(s));
    lemma_zero_slots(INITIAL_INDEX_LEN as nat);
    assert forall|i: int| 0 <= i < p.len() implies (#[trigger] p[i]).wf() && p[i].base
        < r.base by {
        if i < s.sealed.len() {
            assert(s.sealed[i].wf());
        }
    }
    assert forall|i: int, j: int| 0 <= i < j < p.len() implies #[trigger] p[i].base
        < #[trigger] p[j].base by {
        if j < s.sealed.len() {
            assert(s.sealed[i].base < s.sealed[j].base);
        } else {
            assert(s.sealed[i].wf());
        }
    }
    assert forall|i: int| 0 <= i < p.len() implies #[trigger] link(p, r.base, i) by {
        if i < s.sealed.len() {
            assert(link(s.sealed, s.base, i));
            if i + 1 < s.sealed.len() {
                assert(p[i + 1] == s.sealed[i + 1]);
            }
        }
    }
    lemma_suffix_chained(p, r.base, s.settings.cache_limit as int);
    let limit = s.settings.cache_limit as int;
    if p.len() > limit {
        let q = p.subrange(p.len() - limit, p.len() as int);
        assert forall|i: int| 0 <= i < q.len() implies (#[trigger] q[i]).wf() && q[i].base
            < r.base by {
            assert(q[i] == p[i + p.len() - limit]);
        }
        assert forall|i: int, j: int| 0 <= i < j < q.len() implies #[trigger] q[i].base
            < #[trigger] q[j].base by {
            assert(q[i] == p[i + p.len() - limit]);
            assert(q[j] == p[j + p.len() - limit]);
        }
    }
}

proof fn lemma_with_room_wf(s: StoreView)
    requires
        s.wf(),
        needs_room(s) ==> s.index.len() + INDEX_GROWTH <= usize::MAX,
    ensures
        with_room(s).wf(),
        s.log_known() ==> with_room(s).log_known(),
        !needs_room(with_room(s)),
{
    if needs_room(s) {
        let n = s.index + zeros(INDEX_GROWTH as nat);
        let c = s.count();
        assert forall|k: int| 0 <= k && 12 * k + 12 <= s.index.len() implies slot_start(n, k)
            == slot_start(s.index, k) && slot_size(n, k) == slot_size(s.index, k) by {
            assert(n.subrange(12 * k, 12 * k + 8) =~= s.index.subrange(12 * k, 12 * k + 8));
            assert(n.subrange(12 * k + 8, 12 * k + 12) =~= s.index.subrange(
                12 * k + 8,
                12 * k + 12,
            ));
        }
        assert(slots_fit(n, c, s.data_len as int));
        if 12 * (c + 1) > s.index.len() {
            assert(12 * c == s.index.len());
            assert(n.subrange(12 * c, 12 * c + 8) =~= zeros(8));
            assert(n.subrange(12 * c + 8, 12 * c + 12) =~= zeros(4));
            lemma_zero_values(zeros(8));
            lemma_zero_values(zeros(4));
        }
        if s.log_known() {
            let w = with_room(s);
            assert(forall|k: int|
                0 <= k < c - 1 ==> #[trigger] slot_start(w.index, k + 1) == slot_start(w.index, k)
                    + slot_size(w.index, k));
        }
    }
}

/// Splicing a slot and an empty slot in at slot `c` keeps the slots before
/// it and reads back as written.
proof fn lemma_splice_slots(index: Seq<u8>, c: int, dl: u64, sz: u32)
    requires
        0 <= c,
        12 * (c + 2) <= index.len(),
    ensures
        ({
            let ni = splice(index, 12 * c, slot_bytes(dl, sz) + zeros(12));
            &&& ni.len() == index.len()
            &&& forall|k: int|
                0 <= k < c ==> #[trigger] slot_start(ni, k) == slot_start(index, k) && slot_size(
                    ni,
                    k,
                ) == slot_size(index, k)
            &&& slot_start(ni, c) == dl
            &&& slot_size(ni, c) == sz
            &&& slot_is_empty(ni, c + 1)
        }),
{
    let ni = splice(index, 12 * c, slot_bytes(dl, sz) + zeros(12));
    assert forall|k: int| 0 <= k < c implies #[trigger] slot_start(ni, k) == slot_start(index, k)
        && slot_size(ni, k) == slot_size(index, k) by {
        assert(ni.subrange(12 * k, 12 * k + 8) =~= index.subrange(12 * k, 12 * k + 8));
        assert(ni.subrange(12 * k + 8, 12 * k + 12) =~= index.subrange(12 * k + 8, 12 * k + 12));
    }
    assert(ni.subrange(12 * c, 12 * c + 8) =~= be64(dl));
    assert(ni.subrange(12 * c + 8, 12 * c + 12) =~= be32(sz));
    lemma_u64_round_trip(dl);
    lemma_u32_round_trip(sz);
    assert(ni.subrange(12 * c + 12, 12 * c + 20) =~= zeros(8));
    assert(ni.subrange(12 * c + 20, 12 * c + 24) =~= zeros(4));
    lemma_zero_values(zeros(8));
    lemma_zero_values(zeros(4));
}

/// Appending a record keeps what the headers of earlier records say.
proof fn lemma_headers_kept(d: Seq<u8>, payload: Seq<u8>, offset: u64, st: int)
    requires
        0 <= st,
        st + 12 <= d.len(),
    ensures
        header_offset_at(d + record_bytes(payload, offset), st) == header_offset_at(d, st),
        header_len_at(d + record_bytes(payload, offset), st) == header_len_at(d, st),
{
    let nd = d + record_bytes(payload, offset);
    assert(nd.subrange(st, st + 4) =~= d.subrange(st, st + 4));
    assert(nd.subrange(st + 4, st + 12) =~= d.subrange(st + 4, st + 12));
}

proof fn lemma_with_record_wf(s: StoreView, payload: Seq<u8>)
    requires
        s.wf(),
        !needs_room(s),
        payload.len() + 12 <= u32::MAX,
        s.position < u64::MAX,
        s.data_len + 12 + payload.len() <= u64::MAX,
    ensures
        with_record(s, payload).wf(),
        s.log_known() ==> with_record(s, payload).log_known(),
        slot_start(with_record(s, payload).index, s.count()) == s.data_len,
        slot_size(with_record(s, payload).index, s.count()) == 12 + payload.len(),
{
    let n = with_record(s, payload);
    let c = s.count();
    let dl = s.data_len;
    let sz = (12 + payload.len()) as u32;
    let ni = n.index;
    lemma_splice_slots(s.index, c, dl, sz);
    assert(slots_fit(ni, c + 1, n.data_len as int)) by {
        assert forall|k: int| 0 <= k < c + 1 implies #[trigger] slot_start(ni, k) + slot_size(
            ni,
            k,
        ) <= n.data_len && slot_size(ni, k) >= 12 by {
            if k < c {
                assert(slot_start(s.index, k) + slot_size(s.index, k) <= dl);
            }
        }
    }
    assert(n.count() == c + 1);
    if s.log_known() {
        let d = s.written.unwrap();
        let nd = d + record_bytes(payload, s.position);
        lemma_header_read_back(d, payload, s.position);
        assert forall|k: int| 0 <= k < c + 1 implies header_offset_at(
            nd,
            #[trigger] slot_start(ni, k) as int,
        ) == n.base + k && header_len_at(nd, slot_start(ni, k) as int) + 12 == slot_size(ni, k) by {
            if k < c {
                assert(slot_start(s.index, k) + slot_size(s.index, k) <= dl);
                assert(slot_start(s.index, k) == slot_start(ni, k));
                lemma_headers_kept(d, payload, s.position, slot_start(s.index, k) as int);
            }
        }
        assert forall|k: int| 0 <= k < c implies #[trigger] slot_start(ni, k + 1) == slot_start(
            ni,
            k,
        ) + slot_size(ni, k) by {
            if k < c - 1 {
                assert(slot_start(s.index, k + 1) == slot_start(s.index, k) + slot_size(s.index, k));
            }
        }
    }
}

impl SegmentStore {
    fn make_room(&mut self) -> (grown: Option<usize>)
        requires
            old(self)@.wf(),
            needs_room(old(self)@) ==> old(self)@.index.len() + INDEX_GROWTH <= usize::MAX,
        ensures
            final(self)@ == with_room(old(self)@),
            grown == (if needs_room(old(self)@) {
                Some(final(self)@.index.len() as usize)
            } else {
                None
            }),
    {
        let count = (self.position - self.base) as usize;
        let ilen = self.index.len();
        if ilen - 12 * count < 24 {
            self.index.resize(ilen + INDEX_GROWTH, 0u8);
            assert(self.index@ =~= old(self)@.index + zeros(INDEX_GROWTH as nat));
            Some(self.index.len())
        } else {
            None
        }
    }

    fn write_record(&mut self, payload: &[u8]) -> (r: (u64, Vec<u8>, usize, Vec<u8>))
        requires
            old(self)@.wf(),
            !needs_room(old(self)@),
            payload@.len() + 12 <= u32::MAX,
            old(self)@.position < u64::MAX,
            old(self)@.data_len + 12 + payload@.len() <= u64::MAX,
        ensures
            final(self)@ == with_record(old(self)@, payload@),
            r.0 == old(self)@.data_len,
            r.1@ == record_bytes(payload@, old(self)@.position),
            r.2 == 12 * old(self)@.count(),
            r.3@ == slot_bytes(old(self)@.data_len, (12 + payload@.len()) as u32) + zeros(12),
    {
        let ghost t = self@;
        let size: u64 = payload.len() as u64 + 12;
        let count = (self.position - self.base) as usize;
        let start = self.data_len;
        let record = encode_record(payload, self.position);
        let slot = encode_slot_pair(start, size as u32);
        let slot_at = 12 * count;
        write_at(&mut self.index, slot_at, slot.as_slice());
        self.data_len = start + size;
        self.position = self.position + 1;
        self.written = Ghost(
            match t.written {
                Some(d) => Some(d + record_bytes(payload@, t.position)),
                None => None,
            },
        );
        self.history = Ghost(
            match t.history {
                Some(h) => Some(h + record_bytes(payload@, t.position)),
                None => None,
            },
        );
        assert(self@ == with_record(t, payload@));
        (start, record, slot_at, slot)
    }

    fn seal_active(&mut self) -> (evicted: Option<u64>)
        requires
            old(self)@.wf(),
            old(self)@.position > old(self)@.base,
        ensures
            final(self)@ == rotated(old(self)@),
            evicted == (if old(self)@.sealed.len() + 1 > old(self)@.settings.cache_limit {
                Some(old(self)@.sealed.push(sealed_of(old(self)@))[0].base)
            } else {
                None
            }),
    {
        let ghost s = self@;
        let mut index: Vec<u8> = vec![0u8; INITIAL_INDEX_LEN];
        assert(index@ =~= zeros(INITIAL_INDEX_LEN as nat));
        std::mem::swap(&mut index, &mut self.index);
        let seg = SealedSegment {
            base: self.base,
            count: self.position - self.base,
            data_len: self.data_len,
            index,
        };
        self.sealed.push(seg);
        let ghost p = s.sealed.push(sealed_of(s));
        assert(sealed_views(self.sealed@) =~= p);
        let mut evicted: Option<u64> = None;
        if self.sealed.len() > self.settings.cache_limit {
            let gone = self.sealed.remove(0);
            evicted = Some(gone.base);
            assert(sealed_views(self.sealed@) =~= p.subrange(1, p.len() as int));
        }
        self.base = self.position;
        self.data_len = 0;
        self.written = Ghost(Some(Seq::empty()));
        assert(self@.sealed =~= rotated(s).sealed);
        evicted
    }

    /// Appends `payload` as the next record: seals the active segment first
    /// when the record would take its data file past `max_file_size`, grows
    /// the index when it lacks room, and hands back what the files must
    /// undergo.
    pub fn append(&mut self, payload: &[u8]) -> (r: Result<AppendPlan, AppendError>)
        requires
            old(self)@.wf(),
        ensures
            final(self)@.wf(),
            old(self)@.log_known() ==> final(self)@.log_known(),
            r is Ok && rotates(old(self)@, payload@.len() as int) ==> final(self)@.log_known(),
            match r {
                Err(e) => append_error(old(self)@, payload@.len() as int) == Some(e) && final(self)@
                    == old(self)@,
                Ok(plan) => {
                    let s = old(self)@;
                    let len = payload@.len() as int;
                    let t = prepared(s, len);
                    &&& append_error(s, len) is None
                    &&& final(self)@ == with_record(t, payload@)
                    &&& plan.sealed == (if rotates(s, len) {
                        Some(s.base)
                    } else {
                        None
                    })
                    &&& plan.evicted == (if rotates(s, len) && s.sealed.len() + 1
                        > s.settings.cache_limit {
                        Some(s.sealed.push(sealed_of(s))[0].base)
                    } else {
                        None
                    })
                    &&& plan.base == t.base
                    &&& plan.index_len == (if needs_room(
                        if rotates(s, len) {
                            rotated(s)
                        } else {
                            s
                        },
                    ) {
                        Some(t.index.len() as usize)
                    } else {
                        None
                    })
                    &&& plan.data_start == t.data_len
                    &&& plan.record@ == record_bytes(payload@, s.position)
                    &&& plan.slot_at == 12 * t.count()
                    &&& plan.slot@ == slot_bytes(t.data_len, (12 + len) as u32) + zeros(12)
                },
            },
    {
        let len = payload.len();
        if len > 4294967283 {
            return Err(AppendError::PayloadTooLarge);
        }
        if self.position == u64::MAX {
            return Err(AppendError::OffsetsExhausted);
        }
        let size: u64 = len as u64 + 12;
        let rotate = self.position > self.base && (self.data_len > self.settings.max_file_size
            || self.settings.max_file_size - self.data_len < size);
        let count = (self.position - self.base) as usize;
        let ilen = self.index.len();
        if !rotate {
            if self.data_len > u64::MAX - size {
                return Err(AppendError::SegmentFull);
            }
            if ilen - 12 * count < 24 && ilen > usize::MAX - INDEX_GROWTH {
                return Err(AppendError::IndexFull);
            }
        }
        let ghost s = self@;
        let mut sealed: Option<u64> = None;
        let mut evicted: Option<u64> = None;
        if rotate {
            proof {
                lemma_rotated_wf(self@);
            }
            sealed = Some(self.base);
            evicted = self.seal_active();
        }
        proof {
            lemma_with_room_wf(self@);
        }
        let index_len = self.make_room();
        let ghost t = self@;
        assert(t == prepared(s, len as int));
        proof {
            lemma_with_record_wf(t, payload@);
        }
        let (start, record, slot_at, slot) = self.write_record(payload);
        Ok(AppendPlan {
            sealed,
            evicted,
            base: self.base,
            index_len,
            data_start: start,
            record,
            slot_at,
            slot,
        })
    }
}

/// Why the files of a segment cannot be taken up again.
#[derive(Clone, Copy, Debug, PartialEq, Eq, Structural)]
pub enum RecoverError {
    /// A written slot names bytes past the end of its data file, or fewer
    /// than a header.
    SlotOutOfRange,
    /// The base plus the written slots pass the largest offset.
    OffsetOverflow,
    /// The sealed segments do not run back to back, each holding records,
    /// up to the active one.
    SegmentOrder,
}

/// The first empty slot of `index` at or after slot `k`, or the number of
/// whole slots if none is empty.
pub open spec fn first_empty_from(index: Seq<u8>, k: nat) -> nat
    decreases index.len() - 12 * k,
{
    if 12 * k + 12 > index.len() || slot_is_empty(index, k as int) {
        k
    } else {
        first_empty_from(index, k + 1)
    }
}

/// How many slots of an index were written: those before the first empty one.
pub open spec fn first_empty(index: Seq<u8>) -> nat {
    first_empty_from(index, 0)
}

/// An index cut down to whole slots.
pub open spec fn whole_slots(index: Seq<u8>) -> Seq<u8> {
    index.subrange(0, index.len() - index.len() % 12)
}

proof fn lemma_first_empty_from(index: Seq<u8>, k: nat, c: nat)
    requires
        k <= c,
        12 * c <= index.len(),
        forall|j: int| k <= j < c ==> !(#[trigger] slot_is_empty(index, j)),
        12 * c + 12 <= index.len() ==> slot_is_empty(index, c as int),
    ensures
        first_empty_from(index, k) == c,
    decreases c - k,
{
    if k < c {
        assert(!slot_is_empty(index, k as int));
        lemma_first_empty_from(index, k + 1, c);
    }
}

proof fn lemma_first_empty_bound(index: Seq<u8>, k: nat)
    requires
        12 * k <= index.len(),
    ensures
        k <= first_empty_from(index, k),
        12 * first_empty_from(index, k) <= index.len(),
        forall|j: int|
            k <= j < first_empty_from(index, k) ==> !(#[trigger] slot_is_empty(index, j)),
        12 * first_empty_from(index, k) + 12 <= index.len() ==> slot_is_empty(
            index,
            first_empty_from(index, k) as int,
        ),
    decreases index.len() - 12 * k,
{
    if !(12 * k + 12 > index.len() || slot_is_empty(index, k as int)) {
        lemma_first_empty_bound(index, k + 1);
    }
}

/// Counts the written slots of `index` and checks that each fits a data file
/// of `data_len` bytes.
fn scan_index(index: &[u8], data_len: u64) -> (r: Result<u64, RecoverError>)
    ensures
        match r {
            Ok(c) => c == first_empty(index@) && slots_fit(index@, c as int, data_len as int),
            Err(e) => e == RecoverError::SlotOutOfRange && !slots_fit(
                index@,
                first_empty(index@) as int,
                data_len as int,
            ),
        },
{
    let n = index.len();
    let mut k: usize = 0;
    proof {
        lemma_first_empty_bound(index@, 0);
    }
    while n - 12 * k >= 12
        invariant
            n == index@.len(),
            12 * k <= n,
            first_empty_from(index@, k as nat) == first_empty(index@),
            slots_fit(index@, k as int, data_len as int),
            forall|j: int| 0 <= j < k ==> !(#[trigger] slot_is_empty(index@, j)),
        decreases n - 12 * k,
    {
        let (start, size) = read_slot(index, k);
        if start == 0 && size == 0 {
            return Ok(k as u64);
        }
        if start > data_len || (size as u64) > data_len - start || size < 12 {
            proof {
                lemma_first_empty_bound(index@, (k + 1) as nat);
                assert(first_empty(index@) > k);
            }
            return Err(RecoverError::SlotOutOfRange);
        }
        k = k + 1;
    }
    Ok(k as u64)
}

impl SealedSegment {
    /// Takes up a sealed segment from its base, its index bytes and the
    /// length of its data file.
    pub fn load(base: u64, index: Vec<u8>, data_len: u64) -> (r: Result<SealedSegment, RecoverError>)
        ensures
            match r {
                Ok(seg) => {
                    &&& seg@.wf()
                    &&& seg@ == SealedView {
                        base,
                        count: first_empty(index@) as u64,
                        data_len,
                        index: index@,
                    }
                },
                Err(e) => if !slots_fit(index@, first_empty(index@) as int, data_len as int) {
                    e == RecoverError::SlotOutOfRange
                } else {
                    e == RecoverError::OffsetOverflow && base + first_empty(index@) > u64::MAX
                },
            },
    {
        let count = scan_index(index.as_slice(), data_len)?;
        if count > u64::MAX - base {
            return Err(RecoverError::OffsetOverflow);
        }
        Ok(SealedSegment { base, count, data_len, index })
    }
}

impl SegmentStore {
    /// Takes up a store from the files of its active segment (base, index
    /// bytes, data length) and its sealed segments, oldest first, of which
    /// the newest `cache_limit` stay cached. The position is the active base
    /// plus the active index's written slots.
    pub fn recover(
        settings: StoreSettings,
        base: u64,
        index: Vec<u8>,
        data_len: u64,
        sealed: Vec<SealedSegment>,
    ) -> (r: Result<SegmentStore, RecoverError>)
        requires
            forall|i: int| 0 <= i < sealed@.len() ==> (#[trigger] sealed@[i])@.wf(),
        ensures
            ({
                let idx = whole_slots(index@);
                let c = first_empty(idx);
                let q = sealed_views(sealed@);
                match r {
                    Ok(st) => {
                        &&& st@.wf()
                        &&& st@ == StoreView {
                            settings,
                            base,
                            position: (base + c) as u64,
                            data_len,
                            index: idx,
                            sealed: newest(q, settings.cache_limit as int),
                            written: None,
                            history: None,
                        }
                    },
                    Err(e) => if !slots_fit(idx, c as int, data_len as int) {
                        e == RecoverError::SlotOutOfRange
                    } else if base + c > u64::MAX {
                        e == RecoverError::OffsetOverflow
                    } else {
                        e == RecoverError::SegmentOrder && !chained(q, base)
                    },
                }
            }),
    {
        let ghost old_index = index@;
        let mut slots = index;
        let n = slots.len();
        slots.truncate(n - n % 12);
        let ghost idx = slots@;
        assert(idx =~= whole_slots(old_index));
        let count = scan_index(slots.as_slice(), data_len)?;
        if count > u64::MAX - base {
            return Err(RecoverError::OffsetOverflow);
        }
        let ghost q = sealed_views(sealed@);
        assert forall|j: int| 0 <= j < q.len() implies (#[trigger] q[j]).wf() by {
            assert(sealed@[j]@.wf());
        }
        let mut i: usize = 0;
        while i < sealed.len()
            invariant
                q == sealed_views(sealed@),
                idx == whole_slots(old_index),
                old_index == index@,
                count == first_empty(idx),
                slots_fit(idx, count as int, data_len as int),
                count <= u64::MAX - base,
                i <= q.len(),
                forall|j: int| 0 <= j < q.len() ==> (#[trigger] q[j]).wf(),
                forall|j: int| 0 <= j < i ==> #[trigger] link(q, base, j),
            decreases q.len() - i,
        {
            assert(q[i as int] == sealed@[i as int]@);
            assert(q[i as int].wf());
            let end = sealed[i].base + sealed[i].count;
            let next = if i + 1 < sealed.len() {
                sealed[i + 1].base
            } else {
                base
            };
            assert(i + 1 < q.len() ==> q[i + 1] == sealed@[i + 1]@);
            if sealed[i].count == 0 || end != next {
                assert(!link(q, base, i as int));
                return Err(RecoverError::SegmentOrder);
            }
            i = i + 1;
        }
        proof {
            lemma_chain_order(q, base);
        }
        let mut kept = sealed;
        let limit = settings.cache_limit;
        if kept.len() > limit {
            let drop = kept.len() - limit;
            kept = kept.split_off(drop);
        }
        proof {
            lemma_first_empty_bound(idx, 0);
        }
        let r = SegmentStore {
            settings,
            base,
            position: base + count,
            data_len,
            index: slots,
            sealed: kept,
            written: Ghost(None),
            history: Ghost(None),
        };
        assert(r@.sealed =~= newest(q, limit as int));
        proof {
            let v = r@;
            lemma_suffix_chained(q, base, limit as int);
            assert forall|a: int, b: int| 0 <= a < b < v.sealed.len() implies #[trigger] v.sealed[a].base
                < #[trigger] v.sealed[b].base by {
                let off = q.len() - v.sealed.len();
                assert(v.sealed[a] == q[a + off]);
                assert(v.sealed[b] == q[b + off]);
                lemma_increasing(q, base, a + off, b + off);
            }
            assert forall|a: int| 0 <= a < v.sealed.len() implies (#[trigger] v.sealed[a]).wf()
                && v.sealed[a].base < v.base by {
                let off = q.len() - v.sealed.len();
                assert(v.sealed[a] == q[a + off]);
                assert(q[a + off].wf());
            }
            if 12 * (count + 1) <= idx.len() {
                assert(slot_is_empty(idx, count as int));
            }
        }
        Ok(r)
    }
}

/// A chain of sealed segments has increasing bases, all below the active one.
proof fn lemma_chain_order(q: Seq<SealedView>, base: u64)
    requires
        chained(q, base),
    ensures
        forall|j: int|
            0 <= j < q.len() ==> (#[trigger] q[j]).base < base && (j + 1 < q.len() ==> q[j].base
                < q[j + 1].base),
{
    assert forall|j: int| 0 <= j < q.len() implies (#[trigger] q[j]).base < base && (j + 1
        < q.len() ==> q[j].base < q[j + 1].base) by {
        lemma_chain_below(q, base, j);
        assert(link(q, base, j));
    }
}

proof fn lemma_chain_below(q: Seq<SealedView>, base: u64, j: int)
    requires
        chained(q, base),
        0 <= j < q.len(),
    ensures
        q[j].base < base,
    decreases q.len() - j,
{
    assert(link(q, base, j));
    if j + 1 < q.len() {
        lemma_chain_below(q, base, j + 1);
    }
}

/// The newest entries of a chain are a chain.
proof fn lemma_suffix_chained(q: Seq<SealedView>, base: u64, limit: int)
    requires
        chained(q, base),
        limit >= 0,
    ensures
        chained(newest(q, limit), base),
{
    if q.len() > limit {
        let n = newest(q, limit);
        let off = q.len() - limit;
        assert forall|i: int| 0 <= i < n.len() implies #[trigger] link(n, base, i) by {
            assert(link(q, base, i + off));
            assert(n[i] == q[i + off]);
            if i + 1 < n.len() {
                assert(n[i + 1] == q[i + 1 + off]);
            }
        }
    }
}

proof fn lemma_increasing(q: Seq<SealedView>, base: u64, a: int, b: int)
    requires
        0 <= a < b < q.len(),
        forall|j: int|
            0 <= j < q.len() ==> (#[trigger] q[j]).base < base && (j + 1 < q.len() ==> q[j].base
                < q[j + 1].base),
    ensures
        q[a].base < q[b].base,
    decreases b - a,
{
    if b > a + 1 {
        lemma_increasing(q, base, a, b - 1);
        assert(q[b - 1].base < q[b].base);
    } else {
        assert(q[a].base < q[a + 1].base);
    }
}

/// The model after appending each of `ps` in turn.
pub open spec fn after_appends(s: StoreView, ps: Seq<Seq<u8>>) -> StoreView
    decreases ps.len(),
{
    if ps.len() == 0 {
        s
    } else {
        let t = after_appends(s, ps.drop_last());
        with_record(prepared(t, ps.last().len() as int), ps.last())
    }
}

/// Every append of `ps`, in turn, is accepted.
pub open spec fn all_accepted(s: StoreView, ps: Seq<Seq<u8>>) -> bool
    decreases ps.len(),
{
    if ps.len() == 0 {
        true
    } else {
        all_accepted(s, ps.drop_last()) && append_error(
            after_appends(s, ps.drop_last()),
            ps.last().len() as int,
        ) is None
    }
}

/// One accepted append keeps the store well formed, keeps a known log
/// known, and leaves the next slot naming the new record.
pub proof fn lemma_append_step(s: StoreView, payload: Seq<u8>)
    requires
        s.wf(),
        append_error(s, payload.len() as int) is None,
    ensures
        ({
            let t = prepared(s, payload.len() as int);
            let n = with_record(t, payload);
            &&& n.wf()
            &&& s.log_known() ==> n.log_known()
            &&& rotates(s, payload.len() as int) ==> n.log_known()
            &&& n.position == s.position + 1
            &&& slot_start(n.index, t.count()) == t.data_len
            &&& slot_size(n.index, t.count()) == 12 + payload.len()
        }),
{
    let len = payload.len() as int;
    let u = if rotates(s, len) {
        rotated(s)
    } else {
        s
    };
    if rotates(s, len) {
        lemma_rotated_wf(s);
    }
    lemma_with_room_wf(u);
    lemma_with_record_wf(prepared(s, len), payload);
}

/// After N accepted appends the position has moved by exactly N.
pub proof fn lemma_position_counts_appends(s: StoreView, ps: Seq<Seq<u8>>)
    requires
        s.wf(),
        all_accepted(s, ps),
    ensures
        after_appends(s, ps).wf(),
        after_appends(s, ps).position == s.position + ps.len(),
    decreases ps.len(),
{
    if ps.len() > 0 {
        lemma_position_counts_appends(s, ps.drop_last());
        lemma_append_step(after_appends(s, ps.drop_last()), ps.last());
    }
}

/// In a store whose active data file it wrote, every written slot names
/// bytes within the data file, where a header carries the slot's offset.
/// Appends keep this so.
pub proof fn lemma_slots_name_records(s: StoreView, ps: Seq<Seq<u8>>)
    requires
        s.wf(),
        s.log_known(),
        all_accepted(s, ps),
    ensures
        ({
            let n = after_appends(s, ps);
            &&& n.log_known()
            &&& forall|k: int|
                0 <= k < n.count() ==> slot_start(n.index, k) + slot_size(n.index, k)
                    <= n.data_len && header_offset_at(
                    n.written.unwrap(),
                    #[trigger] slot_start(n.index, k) as int,
                ) == n.base + k
        }),
    decreases ps.len(),
{
    if ps.len() > 0 {
        lemma_slots_name_records(s, ps.drop_last());
        lemma_position_counts_appends(s, ps.drop_last());
        lemma_append_step(after_appends(s, ps.drop_last()), ps.last());
    }
    let n = after_appends(s, ps);
    lemma_position_counts_appends(s, ps);
    assert forall|k: int| 0 <= k < n.count() implies slot_start(n.index, k) + slot_size(n.index, k)
        <= n.data_len by {
        assert(slot_start(n.index, k) + slot_size(n.index, k) <= n.data_len);
    }
}

/// A restart that finds only the active segment's index and data length
/// recovers the position the store had.
pub proof fn lemma_restart_keeps_position(s: StoreView)
    requires
        s.wf(),
    ensures
        whole_slots(s.index) == s.index,
        first_empty(s.index) == s.count(),
        slots_fit(s.index, s.count(), s.data_len as int),
        s.base + first_empty(s.index) == s.position,
{
    assert(whole_slots(s.index) =~= s.index);
    assert forall|j: int| 0 <= j < s.count() implies !(#[trigger] slot_is_empty(s.index, j)) by {
        assert(slot_start(s.index, j) + slot_size(s.index, j) <= s.data_len);
        assert(slot_size(s.index, j) >= 12);
    }
    lemma_first_empty_from(s.index, 0, s.count() as nat);
}

/// Once a record would take the active data file past `max_file_size`, the
/// append that brings it puts it in a new segment whose base is the
/// position at that moment; the old segment becomes the newest sealed one.
pub proof fn lemma_rotation_starts_at_position(s: StoreView, payload: Seq<u8>)
    requires
        s.wf(),
        append_error(s, payload.len() as int) is None,
        s.position > s.base,
        s.data_len + 12 + payload.len() > s.settings.max_file_size,
    ensures
        ({
            let n = with_record(prepared(s, payload.len() as int), payload);
            &&& n.base == s.position
            &&& n.position == s.position + 1
            &&& n.settings.cache_limit > 0 ==> n.sealed.last() == sealed_of(s)
        }),
{
}

/// A pull sends the rest of the file from the located record when that is
/// within `pull_max_limit`, else this one record alone; either way the
/// range lies within the file.
pub proof fn lemma_pull_limit(s: StoreView, requested: u64)
    requires
        s.wf(),
    ensures
        ({
            let off = effective_offset(requested, s.position);
            let limit = s.settings.pull_max_limit;
            let k = off - s.base;
            let start = slot_start(s.index, k);
            let size = slot_size(s.index, k);
            s.base <= off < s.position ==> {
                &&& located(s, requested) is Ok
                &&& located(s, requested)->Ok_0.start == start
                &&& s.data_len - start > limit ==> located(s, requested)->Ok_0.len == size
                &&& s.data_len - start <= limit ==> located(s, requested)->Ok_0.len == s.data_len
                    - start
                &&& start + located(s, requested)->Ok_0.len <= s.data_len
            }
        }),
        located(s, requested) is Ok ==> {
            let t = located(s, requested)->Ok_0;
            let i = last_at_or_below(s.sealed, effective_offset(requested, s.position));
            t.base == s.base || (0 <= i < s.sealed.len() && t.base == s.sealed[i].base
                && t.start + t.len <= s.sealed[i].data_len)
        },
{
    let off = effective_offset(requested, s.position);
    if s.base <= off < s.position {
        assert(slot_start(s.index, off - s.base) + slot_size(s.index, off - s.base) <= s.data_len);
    } else {
        lemma_last_at_or_below(s.sealed, off);
        let i = last_at_or_below(s.sealed, off);
        if i >= 0 && off - s.sealed[i].base < s.sealed[i].count {
            let e = s.sealed[i];
            assert(e.wf());
            assert(slot_start(e.index, off - e.base) + slot_size(e.index, off - e.base)
                <= e.data_len);
        }
    }
}

/// The records that `ps` become when appended from offset `first`.
pub open spec fn numbered(ps: Seq<Seq<u8>>, first: u64) -> Seq<(u64, Seq<u8>)> {
    Seq::new(ps.len(), |i: int| ((first + i) as u64, ps[i]))
}

/// No append of `ps`, in turn, seals the active segment.
pub open spec fn stays_in_segment(s: StoreView, ps: Seq<Seq<u8>>) -> bool
    decreases ps.len(),
{
    ps.len() == 0 || (stays_in_segment(s, ps.drop_last()) && !rotates(
        after_appends(s, ps.drop_last()),
        ps.last().len() as int,
    ))
}

/// Appends that stay in the active segment add their records to its data
/// file, back to back, in the order pushed, numbered from the position.
pub proof fn lemma_appends_add_records(s: StoreView, ps: Seq<Seq<u8>>)
    requires
        s.wf(),
        s.log_known(),
        all_accepted(s, ps),
        stays_in_segment(s, ps),
    ensures
        after_appends(s, ps).written == Some(
            s.written.unwrap() + records_concat(numbered(ps, s.position)),
        ),
    decreases ps.len(),
{
    if ps.len() == 0 {
        assert(records_concat(numbered(ps, s.position)) =~= Seq::<u8>::empty());
        assert(s.written.unwrap() + Seq::<u8>::empty() =~= s.written.unwrap());
    } else {
        let init = ps.drop_last();
        lemma_appends_add_records(s, init);
        lemma_position_counts_appends(s, init);
        lemma_slots_name_records(s, init);
        let t = after_appends(s, init);
        assert(numbered(ps, s.position).drop_last() =~= numbered(init, s.position));
        let w = s.written.unwrap();
        let r = records_concat(numbered(init, s.position));
        let last = record_bytes(ps.last(), t.position);
        assert(w + r + last =~= w + (r + last));
    }
}

/// Round trip: payloads pushed into a fresh segment, none empty and none
/// sealing it, read back from its data file through the pull stream format
/// each exactly once, in push order, with their offsets.
pub proof fn lemma_round_trip(s: StoreView, ps: Seq<Seq<u8>>)
    requires
        s.wf(),
        s.written == Some(Seq::<u8>::empty()),
        s.log_known(),
        all_accepted(s, ps),
        stays_in_segment(s, ps),
        forall|i: int| 0 <= i < ps.len() ==> (#[trigger] ps[i]).len() > 0,
    ensures
        parse_stream(after_appends(s, ps).written.unwrap() + be32(0)) == Some(
            numbered(ps, s.position),
        ),
{
    lemma_appends_add_records(s, ps);
    lemma_accepted_sizes(s, ps);
    let rs = numbered(ps, s.position);
    assert(Seq::<u8>::empty() + records_concat(rs) =~= records_concat(rs));
    assert(after_appends(s, ps).written.unwrap() + be32(0) == stream_bytes(rs));
    assert forall|i: int| 0 <= i < rs.len() implies 0 < (#[trigger] rs[i]).1.len() && rs[i].1.len()
        + 12 <= u32::MAX by {
        assert(rs[i].1 == ps[i]);
    }
    lemma_stream_round_trip(rs);
}

/// Accepted payloads fit a record header.
proof fn lemma_accepted_sizes(s: StoreView, ps: Seq<Seq<u8>>)
    requires
        all_accepted(s, ps),
    ensures
        forall|i: int| 0 <= i < ps.len() ==> (#[trigger] ps[i]).len() + 12 <= u32::MAX,
    decreases ps.len(),
{
    if ps.len() > 0 {
        lemma_accepted_sizes(s, ps.drop_last());
        assert forall|i: int| 0 <= i < ps.len() implies (#[trigger] ps[i]).len() + 12 <= u32::MAX by {
            if i < ps.len() - 1 {
                assert(ps.drop_last()[i] == ps[i]);
            }
        }
    }
}

/// The model of a store created for an empty directory.
pub open spec fn fresh(settings: StoreSettings) -> StoreView {
    StoreView {
        settings,
        base: 0,
        position: 0,
        data_len: 0,
        index: zeros(INITIAL_INDEX_LEN as nat),
        sealed: Seq::empty(),
        written: Some(Seq::empty()),
        history: Some(Seq::empty()),
    }
}

/// After N accepted appends to a new broker, a cold restart from the
/// active segment's files finds position N: every record written before.
pub proof fn lemma_restart_counts_all_records(settings: StoreSettings, ps: Seq<Seq<u8>>)
    requires
        all_accepted(fresh(settings), ps),
    ensures
        ({
            let n = after_appends(fresh(settings), ps);
            n.base + first_empty(whole_slots(n.index)) == ps.len()
        }),
{
    lemma_zero_slots(INITIAL_INDEX_LEN as nat);
    assert(fresh(settings).wf());
    lemma_position_counts_appends(fresh(settings), ps);
    lemma_restart_keeps_position(after_appends(fresh(settings), ps));
}

/// A pull fails exactly when its offset is at or past the position, or lies
/// below the active segment with no cached sealed segment at or below it.
/// Below the active segment it reads from the cached sealed segment with the
/// largest base at or below the offset.
pub proof fn lemma_lookup_exact(s: StoreView, requested: u64)
    requires
        s.wf(),
    ensures
        ({
            let off = effective_offset(requested, s.position);
            let i = last_at_or_below(s.sealed, off);
            &&& (located(s, requested) is Ok) <==> (off < s.position && (s.base <= off || (
            s.sealed.len() > 0 && s.sealed[0].base <= off)))
            &&& (located(s, requested) is Ok && off < s.base) ==> {
                &&& 0 <= i < s.sealed.len()
                &&& s.sealed[i].base <= off
                &&& forall|j: int| i < j < s.sealed.len() ==> #[trigger] s.sealed[j].base > off
                &&& located(s, requested)->Ok_0.base == s.sealed[i].base
            }
        }),
{
    let off = effective_offset(requested, s.position);
    let q = s.sealed;
    lemma_last_at_or_below(q, off);
    let i = last_at_or_below(q, off);
    if !(s.base <= off < s.position) && q.len() > 0 {
        let last = q.len() - 1;
        assert(link(q, s.base, last));
        assert(q[last].base < s.base);
        if off >= s.position {
            assert(i == last);
        } else if q[0].base <= off {
            assert(i >= 0);
            assert(link(q, s.base, i));
            if i + 1 < q.len() {
                assert(q[i + 1].base > off);
            }
        } else {
            if i >= 0 {
                if i > 0 {
                    assert(q[0].base < q[i].base);
                }
                assert(false);
            }
        }
    }
}

/// The store wrote every data file from an empty directory, and the active
/// data file is the tail of all it wrote.
pub open spec fn history_known(s: StoreView) -> bool {
    match (s.history, s.written) {
        (Some(h), Some(d)) => d.len() <= h.len() && h.subrange(h.len() - d.len(), h.len() as int)
            == d,
        _ => false,
    }
}

/// One accepted append adds its record to all that the store wrote, and
/// keeps the active data file the tail of it.
proof fn lemma_history_step(t: StoreView, payload: Seq<u8>)
    requires
        t.wf(),
        history_known(t),
        append_error(t, payload.len() as int) is None,
    ensures
        ({
            let n = with_record(prepared(t, payload.len() as int), payload);
            &&& n.history == Some(t.history.unwrap() + record_bytes(payload, t.position))
            &&& history_known(n)
        }),
{
    let len = payload.len() as int;
    let p = prepared(t, len);
    assert(p.history == t.history);
    assert(p.position == t.position);
    let h = t.history.unwrap();
    let rb = record_bytes(payload, t.position);
    let nh = h + rb;
    if rotates(t, len) {
        assert(p.written == Some(Seq::<u8>::empty()));
        let nd = Seq::<u8>::empty() + rb;
        assert(nh.subrange(nh.len() - nd.len(), nh.len() as int) =~= nd);
    } else {
        assert(p.written == t.written);
        let d = t.written.unwrap();
        assert(h.subrange(h.len() - d.len(), h.len() as int) == d);
        let nd = d + rb;
        assert(nh.subrange(nh.len() - nd.len(), nh.len() as int) =~= nd);
    }
}

/// From a new broker, the data files, oldest segment first, hold the
/// records of all accepted appends back to back, in push order, numbered
/// from 0, whatever the rotations; the active data file is their tail.
pub proof fn lemma_history_holds_records(settings: StoreSettings, ps: Seq<Seq<u8>>)
    requires
        all_accepted(fresh(settings), ps),
    ensures
        after_appends(fresh(settings), ps).history == Some(records_concat(numbered(ps, 0))),
        history_known(after_appends(fresh(settings), ps)),
    decreases ps.len(),
{
    let s = fresh(settings);
    lemma_zero_slots(INITIAL_INDEX_LEN as nat);
    assert(s.wf());
    if ps.len() == 0 {
        assert(records_concat(numbered(ps, 0)) =~= Seq::<u8>::empty());
        assert(Seq::<u8>::empty().subrange(0, 0) =~= Seq::<u8>::empty());
    } else {
        let init = ps.drop_last();
        lemma_history_holds_records(settings, init);
        lemma_position_counts_appends(s, init);
        let t = after_appends(s, init);
        lemma_history_step(t, ps.last());
        assert(numbered(ps, 0).drop_last() =~= numbered(init, 0));
    }
}

/// Round trip across segments: payloads pushed to a new broker, none empty,
/// read back from its data files, oldest first, through the pull stream
/// format each exactly once, in push order, with offsets 0, 1, ...
pub proof fn lemma_history_round_trip(settings: StoreSettings, ps: Seq<Seq<u8>>)
    requires
        all_accepted(fresh(settings), ps),
        forall|i: int| 0 <= i < ps.len() ==> (#[trigger] ps[i]).len() > 0,
    ensures
        parse_stream(after_appends(fresh(settings), ps).history.unwrap() + be32(0)) == Some(
            numbered(ps, 0),
        ),
{
    lemma_history_holds_records(settings, ps);
    lemma_accepted_sizes(fresh(settings), ps);
    let rs = numbered(ps, 0);
    assert forall|i: int| 0 <= i < rs.len() implies 0 < (#[trigger] rs[i]).1.len() && rs[i].1.len()
        + 12 <= u32::MAX by {
        assert(rs[i].1 == ps[i]);
    }
    lemma_stream_round_trip(rs);
}

} // verus!
