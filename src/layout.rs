//! How a broker directory is laid out: segment file names, and which
//! segments a store takes up again at startup.
use crate::config::{all_digits, decimal_value, is_digit};
use vstd::prelude::*;

verus! {

/// The two files of a segment.
#[derive(Clone, Copy, Debug, PartialEq, Eq, Structural)]
pub enum FileKind {
    Data,
    Index,
}

pub open spec fn pow10(w: nat) -> nat
    decreases w,
{
    if w == 0 {
        1
    } else {
        10 * pow10((w - 1) as nat)
    }
}

/// The last `w` decimal digits of `v`, as ASCII, most significant first.
pub open spec fn digits(v: nat, w: nat) -> Seq<u8>
    decreases w,
{
    if w == 0 {
        Seq::empty()
    } else {
        digits(v / 10, (w - 1) as nat).push((48 + v % 10) as u8)
    }
}

/// How many decimal digits `v` has.
pub open spec fn num_digits(v: nat) -> nat
    decreases v,
{
    if v < 10 {
        1
    } else {
        1 + num_digits(v / 10)
    }
}

/// The digits of a segment's file name: its base, zero-padded to twelve.
pub open spec fn name_width(v: nat) -> nat {
    if num_digits(v) < 12 {
        12
    } else {
        num_digits(v)
    }
}

pub open spec fn suffix(kind: FileKind) -> Seq<u8> {
    match kind {
        FileKind::Data => seq![46u8, 100u8, 97u8, 116u8, 97u8],
        FileKind::Index => seq![46u8, 105u8, 110u8, 100u8, 101u8, 120u8],
    }
}

/// The file name of a segment's data or index file.
pub open spec fn segment_name(base: u64, kind: FileKind) -> Seq<u8> {
    digits(base as nat, name_width(base as nat)) + suffix(kind)
}

proof fn lemma_num_digits_bound(v: nat, k: nat)
    requires
        k >= 1,
        v < pow10(k),
    ensures
        num_digits(v) <= k,
    decreases k,
{
    if v >= 10 {
        let p = pow10((k - 1) as nat);
        assert(v / 10 < p) by (nonlinear_arith)
            requires
                v < 10 * p,
        ;
        if k == 1 {
            assert(pow10(0) == 1);
        } else {
            lemma_num_digits_bound(v / 10, (k - 1) as nat);
        }
    }
}

fn count_digits(v: u64) -> (r: u64)
    ensures
        r == num_digits(v as nat),
    decreases v,
{
    if v < 10 {
        1
    } else {
        proof {
            reveal_with_fuel(pow10, 21);
            lemma_num_digits_bound((v / 10) as nat, 20);
        }
        1 + count_digits(v / 10)
    }
}

fn push_digits(out: &mut Vec<u8>, v: u64, w: usize)
    ensures
        final(out)@ == old(out)@ + digits(v as nat, w as nat),
    decreases w,
{
    if w == 0 {
        assert(old(out)@ + Seq::<u8>::empty() =~= old(out)@);
        return;
    }
    push_digits(out, v / 10, w - 1);
    out.push((48 + v % 10) as u8);
    assert(final(out)@ =~= old(out)@ + digits(v as nat, w as nat));
}

/// The file name of a segment's data or index file: its base as decimal
/// digits, zero-padded to twelve, then `.data` or `.index`.
pub fn segment_file_name(base: u64, kind: FileKind) -> (r: Vec<u8>)
    ensures
        r@ == segment_name(base, kind),
{
    let n = count_digits(base);
    proof {
        reveal_with_fuel(pow10, 21);
        lemma_num_digits_bound(base as nat, 20);
    }
    let w: usize = if n < 12 {
        12
    } else {
        n as usize
    };
    let mut r: Vec<u8> = Vec::new();
    push_digits(&mut r, base, w);
    let tail: Vec<u8> = match kind {
        FileKind::Data => vec![46u8, 100u8, 97u8, 116u8, 97u8],
        FileKind::Index => vec![46u8, 105u8, 110u8, 100u8, 101u8, 120u8],
    };
    assert(tail@ =~= suffix(kind));
    let mut i: usize = 0;
    let ghost head = r@;
    while i < tail.len()
        invariant
            i <= tail@.len(),
            r@ == head + tail@.subrange(0, i as int),
        decreases tail@.len() - i,
    {
        r.push(tail[i]);
        assert(tail@.subrange(0, i + 1) =~= tail@.subrange(0, i as int).push(tail@[i as int]));
        i = i + 1;
    }
    assert(tail@.subrange(0, i as int) =~= tail@);
    r
}

/// The digits of a data file's name: all but its last five bytes.
pub open spec fn stem(name: Seq<u8>) -> Seq<u8> {
    name.subrange(0, name.len() - 5)
}

/// A name of at least twelve ASCII digits, then `.data`, whose digits write
/// a number that fits 64 bits.
pub open spec fn is_data_name(name: Seq<u8>) -> bool {
    &&& name.len() >= 17
    &&& all_digits(stem(name))
    &&& name.subrange(name.len() - 5, name.len() as int) == suffix(FileKind::Data)
    &&& decimal_value(stem(name)) <= u64::MAX
}

/// The base offset that a data file's name gives: for names of twelve or
/// more digits and `.data` (the digits of `segment_file_name`), none for
/// any other name.
pub fn segment_base(name: &[u8]) -> (r: Option<u64>)
    ensures
        r == (if is_data_name(name@) {
            Some(decimal_value(stem(name@)) as u64)
        } else {
            None::<u64>
        }),
{
    let n = name.len();
    if n < 17 {
        return None;
    }
    let m = n - 5;
    let dot: [u8; 5] = [46u8, 100u8, 97u8, 116u8, 97u8];
    let mut j: usize = 0;
    while j < 5
        invariant
            name@.len() == n,
            m == n - 5,
            dot@ == suffix(FileKind::Data),
            j <= 5,
            forall|i: int| 0 <= i < j ==> name@[m + i] == dot@[i],
        decreases 5 - j,
    {
        if name[m + j] != dot[j] {
            assert(name@.subrange(m as int, n as int)[j as int] != suffix(FileKind::Data)[j as int]);
            return None;
        }
        j = j + 1;
    }
    assert(name@.subrange(m as int, n as int) =~= suffix(FileKind::Data));
    let ghost digits = stem(name@);
    let mut i: usize = 0;
    while i < m
        invariant
            name@.len() == n,
            m == n - 5,
            digits == stem(name@),
            i <= m,
            all_digits(digits.subrange(0, i as int)),
        decreases m - i,
    {
        if name[i] < 48 || name[i] > 57 {
            assert(!is_digit(digits[i as int]));
            return None;
        }
        assert(digits.subrange(0, i + 1)[i as int] == name@[i as int]);
        i = i + 1;
    }
    assert(digits.subrange(0, m as int) =~= digits);
    let mut v: u64 = 0;
    let mut i: usize = 0;
    assert(digits.subrange(0, 0) =~= Seq::<u8>::empty());
    while i < m
        invariant
            name@.len() == n,
            m == n - 5,
            digits == stem(name@),
            digits.len() == m,
            all_digits(digits),
            i <= m,
            v == decimal_value(digits.subrange(0, i as int)),
        decreases m - i,
    {
        assert(digits[i as int] == name@[i as int]);
        assert(is_digit(digits[i as int]));
        let d = (name[i] - 48) as u64;
        assert(digits.subrange(0, i + 1).drop_last() =~= digits.subrange(0, i as int));
        if v > (u64::MAX - d) / 10 {
            proof {
                crate::config::lemma_decimal_grows(digits, i + 1);
            }
            return None;
        }
        v = v * 10 + d;
        i = i + 1;
    }
    assert(digits.subrange(0, m as int) =~= digits);
    Some(v)
}

/// Which segments a store takes up at startup: the one with the largest
/// base becomes active, and the next-largest are reopened as sealed,
/// oldest first.
#[derive(Clone, Debug, PartialEq, Eq)]
pub struct RecoveryPlan {
    pub active: u64,
    pub sealed: Vec<u64>,
}

/// How many sealed segments startup reopens: one fewer than the cache holds.
pub open spec fn reopen_count(cache_limit: usize) -> int {
    if cache_limit == 0 {
        0
    } else {
        cache_limit - 1
    }
}

/// `sealed` are the largest bases below `active`, oldest first, as many as
/// there are up to `want`.
pub open spec fn newest_below(bases: Seq<u64>, active: u64, sealed: Seq<u64>, want: int) -> bool {
    &&& sealed.len() <= want
    &&& forall|i: int| 0 <= i < sealed.len() ==> bases.contains(#[trigger] sealed[i]) && sealed[i] < active
    &&& forall|i: int, j: int| 0 <= i < j < sealed.len() ==> #[trigger] sealed[i] < #[trigger] sealed[j]
    &&& forall|b: u64|
        #[trigger] bases.contains(b) && b < active && (sealed.len() < want || (sealed.len() > 0
            && sealed[0] < b)) ==> sealed.contains(b)
}

/// Chooses the segments to take up from the bases found in a broker
/// directory; none when there are none.
pub fn plan_recovery(bases: &[u64], cache_limit: usize) -> (r: Option<RecoveryPlan>)
    ensures
        match r {
            None => bases@.len() == 0,
            Some(plan) => {
                &&& bases@.contains(plan.active)
                &&& forall|i: int| 0 <= i < bases@.len() ==> #[trigger] bases@[i] <= plan.active
                &&& newest_below(bases@, plan.active, plan.sealed@, reopen_count(cache_limit))
            },
        },
{
    let n = bases.len();
    if n == 0 {
        return None;
    }
    let mut active = bases[0];
    let mut i: usize = 1;
    while i < n
        invariant
            n == bases@.len(),
            1 <= i <= n,
            bases@.contains(active),
            forall|j: int| 0 <= j < i ==> #[trigger] bases@[j] <= active,
        decreases n - i,
    {
        if bases[i] > active {
            active = bases[i];
        }
        i = i + 1;
    }
    let want: usize = if cache_limit == 0 {
        0
    } else {
        cache_limit - 1
    };
    // Newest first: each entry is the largest base below the one before.
    let mut desc: Vec<u64> = Vec::new();
    let mut cur = active;
    loop
        invariant
            n == bases@.len(),
            want == reopen_count(cache_limit),
            desc@.len() <= want,
            cur == (if desc@.len() == 0 {
                active
            } else {
                desc@.last()
            }),
            cur <= active,
            forall|j: int| 0 <= j < desc@.len() ==> bases@.contains(#[trigger] desc@[j]) && desc@[j] < active,
            forall|j: int, k: int| 0 <= j < k < desc@.len() ==> #[trigger] desc@[j] > #[trigger] desc@[k],
            forall|b: u64| #[trigger] bases@.contains(b) && cur < b && b < active ==> desc@.contains(b),
        ensures
            desc@.len() <= want,
            forall|j: int| 0 <= j < desc@.len() ==> bases@.contains(#[trigger] desc@[j]) && desc@[j] < active,
            forall|j: int, k: int| 0 <= j < k < desc@.len() ==> #[trigger] desc@[j] > #[trigger] desc@[k],
            forall|b: u64|
                #[trigger] bases@.contains(b) && b < active && (desc@.len() < want || (desc@.len() > 0
                    && desc@.last() < b)) ==> desc@.contains(b),
        decreases cur,
    {
        if desc.len() >= want {
            assert(forall|b: u64|
                #[trigger] bases@.contains(b) && b < active && (desc@.len() < want || (desc@.len() > 0
                    && desc@.last() < b)) ==> desc@.contains(b));
            break;
        }
        let mut best: Option<u64> = None;
        let mut k: usize = 0;
        while k < n
            invariant
                n == bases@.len(),
                k <= n,
                match best {
                    None => forall|j: int| 0 <= j < k ==> #[trigger] bases@[j] >= cur,
                    Some(x) => bases@.contains(x) && x < cur && forall|j: int|
                        0 <= j < k && #[trigger] bases@[j] < cur ==> bases@[j] <= x,
                },
            decreases n - k,
        {
            let b = bases[k];
            if b < cur {
                match best {
                    None => {
                        best = Some(b);
                    },
                    Some(x) => {
                        if b > x {
                            best = Some(b);
                        }
                    },
                }
            }
            k = k + 1;
        }
        match best {
            None => {
                assert forall|b: u64| #[trigger] bases@.contains(b) && b < active implies desc@.contains(b) by {
                    let j = choose|j: int| 0 <= j < bases@.len() && bases@[j] == b;
                    assert(bases@[j] >= cur);
                    if b == cur {
                        assert(desc@[desc@.len() - 1] == b);
                    }
                }
                break;
            },
            Some(x) => {
                let ghost old_desc = desc@;
                desc.push(x);
                assert forall|b: u64| #[trigger] bases@.contains(b) && x < b && b < active implies desc@.contains(b) by {
                    if b < cur {
                        let j = choose|j: int| 0 <= j < bases@.len() && bases@[j] == b;
                        assert(bases@[j] <= x);
                    } else if b == cur {
                        assert(desc@[old_desc.len() - 1] == b);
                    } else {
                        assert(old_desc.contains(b));
                        let j = choose|j: int| 0 <= j < old_desc.len() && old_desc[j] == b;
                        assert(desc@[j] == b);
                    }
                }
                assert forall|j: int, k: int| 0 <= j < k < desc@.len() implies #[trigger] desc@[j] > #[trigger] desc@[k] by {
                    if k == desc@.len() - 1 && j < k {
                        if old_desc.len() > 0 {
                            assert(old_desc[j] >= old_desc.last());
                        }
                    }
                }
                cur = x;
            },
        }
    }
    // Oldest first.
    let mut sealed: Vec<u64> = Vec::new();
    let m = desc.len();
    let mut j: usize = 0;
    while j < m
        invariant
            m == desc@.len(),
            j <= m,
            sealed@.len() == j,
            forall|t: int| 0 <= t < j ==> #[trigger] sealed@[t] == desc@[m - 1 - t],
        decreases m - j,
    {
        sealed.push(desc[m - 1 - j]);
        j = j + 1;
    }
    proof {
        assert forall|b: u64|
            #[trigger] bases@.contains(b) && b < active && (sealed@.len() < want || (sealed@.len()
                > 0 && sealed@[0] < b)) implies sealed@.contains(b) by {
            if sealed@.len() > 0 {
                assert(sealed@[0] == desc@.last());
            }
            assert(desc@.contains(b));
            let t = choose|t: int| 0 <= t < m && desc@[t] == b;
            assert(sealed@[m - 1 - t] == b);
        }
        assert forall|a: int, c: int| 0 <= a < c < sealed@.len() implies #[trigger] sealed@[a]
            < #[trigger] sealed@[c] by {
            assert(desc@[m - 1 - c] > desc@[m - 1 - a]);
        }
        assert forall|a: int| 0 <= a < sealed@.len() implies bases@.contains(#[trigger] sealed@[a])
            && sealed@[a] < active by {
            assert(desc@[m - 1 - a] == sealed@[a]);
        }
    }
    Some(RecoveryPlan { active, sealed })
}

proof fn lemma_pow10_positive(w: nat)
    ensures
        pow10(w) > 0,
    decreases w,
{
    if w > 0 {
        lemma_pow10_positive((w - 1) as nat);
    }
}

proof fn lemma_pow10_mono(a: nat, b: nat)
    requires
        a <= b,
    ensures
        pow10(a) <= pow10(b),
    decreases b - a,
{
    if a < b {
        lemma_pow10_mono(a, (b - 1) as nat);
        lemma_pow10_positive((b - 1) as nat);
    }
}

proof fn lemma_digits_value(v: nat, w: nat)
    ensures
        digits(v, w).len() == w,
        all_digits(digits(v, w)),
        decimal_value(digits(v, w)) == v % pow10(w),
    decreases w,
{
    if w > 0 {
        let w1 = (w - 1) as nat;
        lemma_digits_value(v / 10, w1);
        lemma_pow10_positive(w1);
        let d = digits(v, w);
        assert(d.drop_last() =~= digits(v / 10, w1));
        assert forall|i: int| 0 <= i < d.len() implies is_digit(#[trigger] d[i]) by {
            if i < d.len() - 1 {
                assert(d[i] == digits(v / 10, w1)[i]);
            }
        }
        vstd::arithmetic::div_mod::lemma_mod_breakdown(v as int, 10, pow10(w1) as int);
    } else {
        assert(v % 1 == 0);
    }
}

proof fn lemma_below_pow10(v: nat)
    ensures
        v < pow10(num_digits(v)),
    decreases v,
{
    if v < 10 {
        assert(pow10(1) == 10 * pow10(0));
    } else {
        lemma_below_pow10(v / 10);
        let p = pow10(num_digits(v / 10));
        assert(v < 10 * p) by (nonlinear_arith)
            requires
                v / 10 < p,
        ;
    }
}

/// A data file's name reads back as its segment's base, at every base.
pub proof fn lemma_name_round_trip(base: u64)
    ensures
        is_data_name(segment_name(base, FileKind::Data)),
        decimal_value(stem(segment_name(base, FileKind::Data))) == base,
{
    let v = base as nat;
    let w = name_width(v);
    let name = segment_name(base, FileKind::Data);
    lemma_digits_value(v, w);
    lemma_below_pow10(v);
    lemma_pow10_mono(num_digits(v), w);
    lemma_pow10_positive(w);
    vstd::arithmetic::div_mod::lemma_small_mod(v, pow10(w));
    assert(stem(name) =~= digits(v, w));
    assert(name.subrange(name.len() - 5, name.len() as int) =~= suffix(FileKind::Data));
}

} // verus!
