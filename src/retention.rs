//! The retention sweep: in a broker directory, the oldest segment files
//! beyond a given count are deleted.
use vstd::prelude::*;

verus! {

/// Byte-wise lexicographic order, the order of file names.
pub open spec fn lex_lt(a: Seq<u8>, b: Seq<u8>) -> bool
    decreases a.len(),
{
    if a.len() == 0 {
        b.len() > 0
    } else if b.len() == 0 {
        false
    } else if a[0] != b[0] {
        a[0] < b[0]
    } else {
        lex_lt(a.drop_first(), b.drop_first())
    }
}

pub proof fn lemma_lex_irreflexive(a: Seq<u8>)
    ensures
        !lex_lt(a, a),
    decreases a.len(),
{
    if a.len() > 0 {
        lemma_lex_irreflexive(a.drop_first());
    }
}

pub proof fn lemma_lex_transitive(a: Seq<u8>, b: Seq<u8>, c: Seq<u8>)
    requires
        lex_lt(a, b),
        lex_lt(b, c),
    ensures
        lex_lt(a, c),
    decreases a.len(),
{
    if a.len() > 0 && b.len() > 0 && c.len() > 0 && a[0] == b[0] && b[0] == c[0] {
        lemma_lex_transitive(a.drop_first(), b.drop_first(), c.drop_first());
    }
}

pub proof fn lemma_lex_total(a: Seq<u8>, b: Seq<u8>)
    requires
        a != b,
    ensures
        lex_lt(a, b) || lex_lt(b, a),
    decreases a.len(),
{
    if a.len() > 0 && b.len() > 0 && a[0] == b[0] {
        if a.drop_first() == b.drop_first() {
            assert(a =~= seq![a[0]] + a.drop_first());
            assert(b =~= seq![b[0]] + b.drop_first());
        }
        lemma_lex_total(a.drop_first(), b.drop_first());
    } else if a.len() == 0 && b.len() == 0 {
        assert(a =~= b);
    }
}

fn lex_less(a: &[u8], b: &[u8]) -> (r: bool)
    ensures
        r == lex_lt(a@, b@),
{
    let mut i: usize = 0;
    assert(a@.subrange(0, a@.len() as int) =~= a@);
    assert(b@.subrange(0, b@.len() as int) =~= b@);
    while i < a.len() && i < b.len()
        invariant
            i <= a@.len(),
            i <= b@.len(),
            lex_lt(a@, b@) == lex_lt(a@.subrange(i as int, a@.len() as int), b@.subrange(
                i as int,
                b@.len() as int,
            )),
        decreases a@.len() - i,
    {
        let ghost sa = a@.subrange(i as int, a@.len() as int);
        let ghost sb = b@.subrange(i as int, b@.len() as int);
        assert(sa[0] == a@[i as int]);
        assert(sb[0] == b@[i as int]);
        if a[i] != b[i] {
            return a[i] < b[i];
        }
        assert(sa.drop_first() =~= a@.subrange(i + 1, a@.len() as int));
        assert(sb.drop_first() =~= b@.subrange(i + 1, b@.len() as int));
        i = i + 1;
    }
    let ghost sa = a@.subrange(i as int, a@.len() as int);
    let ghost sb = b@.subrange(i as int, b@.len() as int);
    assert(i == a@.len() ==> sa.len() == 0);
    assert(i == b@.len() ==> sb.len() == 0);
    i < b.len()
}

/// A name with the extension `data` or `index`: it ends in `.data` or
/// `.index` after a non-empty stem.
pub open spec fn is_segment_file(name: Seq<u8>) -> bool {
    (name.len() > 5 && name.subrange(name.len() - 5, name.len() as int) == seq![
        46u8,
        100u8,
        97u8,
        116u8,
        97u8,
    ]) || (name.len() > 6 && name.subrange(name.len() - 6, name.len() as int) == seq![
        46u8,
        105u8,
        110u8,
        100u8,
        101u8,
        120u8,
    ])
}

fn ends_with(name: &[u8], tail: &[u8]) -> (r: bool)
    ensures
        r == (name@.len() > tail@.len() && name@.subrange(
            name@.len() - tail@.len(),
            name@.len() as int,
        ) == tail@),
{
    let n = name.len();
    let t = tail.len();
    if n <= t {
        return false;
    }
    let mut i: usize = 0;
    while i < t
        invariant
            n == name@.len(),
            t == tail@.len(),
            n > t,
            i <= t,
            forall|j: int| 0 <= j < i ==> name@[n - t + j] == tail@[j],
        decreases t - i,
    {
        if name[n - t + i] != tail[i] {
            assert(name@.subrange(n - t, n as int)[i as int] != tail@[i as int]);
            return false;
        }
        i = i + 1;
    }
    assert(name@.subrange(n - t, n as int) =~= tail@);
    true
}

fn segment_file(name: &[u8]) -> (r: bool)
    ensures
        r == is_segment_file(name@),
{
    let data: [u8; 5] = [46u8, 100u8, 97u8, 116u8, 97u8];
    let index: [u8; 6] = [46u8, 105u8, 110u8, 100u8, 101u8, 120u8];
    assert(data@ =~= seq![46u8, 100u8, 97u8, 116u8, 97u8]);
    assert(index@ =~= seq![46u8, 105u8, 110u8, 100u8, 101u8, 120u8]);
    ends_with(name, data.as_slice()) || ends_with(name, index.as_slice())
}

pub open spec fn names_view(v: Seq<Vec<u8>>) -> Seq<Seq<u8>> {
    v.map_values(|x: Vec<u8>| x@)
}

/// The segment files of a directory listing.
pub open spec fn segment_files(names: Seq<Seq<u8>>) -> Set<Seq<u8>> {
    names.to_set().filter(|x: Seq<u8>| is_segment_file(x))
}

/// How many segment files a sweep keeping `max_files` deletes.
pub open spec fn deletion_count(names: Seq<Seq<u8>>, max_files: nat) -> nat {
    let n = segment_files(names).len();
    if n > max_files {
        (n - max_files) as nat
    } else {
        0
    }
}

/// `deleted` are the oldest segment files of the listing, by name, in
/// ascending order, as many as exceed `max_files`.
pub open spec fn swept(names: Seq<Seq<u8>>, max_files: nat, deleted: Seq<Seq<u8>>) -> bool {
    &&& deleted.len() == deletion_count(names, max_files)
    &&& forall|i: int| 0 <= i < deleted.len() ==> segment_files(names).contains(#[trigger] deleted[i])
    &&& forall|i: int, j: int| 0 <= i < j < deleted.len() ==> lex_lt(#[trigger] deleted[i], #[trigger] deleted[j])
    &&& forall|x: Seq<u8>, i: int|
        segment_files(names).contains(x) && !deleted.contains(x) && 0 <= i < deleted.len()
            ==> #[trigger] lex_lt(deleted[i], x)
}

fn copy_name(v: &Vec<u8>) -> (r: Vec<u8>)
    ensures
        r@ == v@,
{
    let mut r: Vec<u8> = Vec::new();
    let mut i: usize = 0;
    while i < v.len()
        invariant
            i <= v@.len(),
            r@ == v@.subrange(0, i as int),
        decreases v@.len() - i,
    {
        r.push(v[i]);
        assert(v@.subrange(0, i + 1) =~= v@.subrange(0, i as int).push(v@[i as int]));
        i = i + 1;
    }
    assert(v@.subrange(0, i as int) =~= v@);
    r
}

pub open spec fn strictly_sorted(s: Seq<Seq<u8>>) -> bool {
    forall|a: int, b: int| 0 <= a < b < s.len() ==> #[trigger] lex_lt(s[a], s[b])
}

/// Puts `c` into its place in a strictly sorted list that lacks it.
fn insert_sorted(s: &mut Vec<Vec<u8>>, c: Vec<u8>)
    requires
        strictly_sorted(names_view(old(s)@)),
        !names_view(old(s)@).contains(c@),
    ensures
        strictly_sorted(names_view(final(s)@)),
        final(s)@.len() == old(s)@.len() + 1,
        forall|x: Seq<u8>| #[trigger] names_view(final(s)@).contains(x) <==> (names_view(old(s)@).contains(x) || x == c@),
{
    let ghost o = names_view(s@);
    let mut p: usize = 0;
    while p < s.len() && lex_less(s[p].as_slice(), c.as_slice())
        invariant
            o == names_view(s@),
            p <= s@.len(),
            forall|q: int| 0 <= q < p ==> lex_lt(#[trigger] o[q], c@),
        decreases s@.len() - p,
    {
        p = p + 1;
    }
    proof {
        if p < s@.len() {
            assert(o[p as int] != c@) by {
                assert(o.contains(o[p as int]));
            }
            lemma_lex_total(o[p as int], c@);
        }
    }
    assert forall|q: int| p <= q < o.len() implies lex_lt(c@, #[trigger] o[q]) by {
        if q > p {
            assert(lex_lt(o[p as int], o[q]));
            lemma_lex_transitive(c@, o[p as int], o[q]);
        }
    }
    s.insert(p, c);
    let ghost n = names_view(s@);
    assert(n =~= o.insert(p as int, c@));
    assert forall|a: int, b: int| 0 <= a < b < n.len() implies #[trigger] lex_lt(n[a], n[b]) by {
        if b < p {
            assert(lex_lt(o[a], o[b]));
        } else if b == p {
            assert(lex_lt(o[a], c@));
        } else if a < p {
            assert(lex_lt(o[a], o[b - 1]));
        } else if a == p {
            assert(lex_lt(c@, o[b - 1]));
        } else {
            assert(lex_lt(o[a - 1], o[b - 1]));
        }
    }
    assert forall|x: Seq<u8>| #[trigger] n.contains(x) <==> (o.contains(x) || x == c@) by {
        if n.contains(x) {
            let j = choose|j: int| 0 <= j < n.len() && n[j] == x;
            if j < p {
                assert(o[j] == x);
            } else if j > p {
                assert(o[j - 1] == x);
            }
        }
        if o.contains(x) {
            let j = choose|j: int| 0 <= j < o.len() && o[j] == x;
            if j < p {
                assert(n[j] == x);
            } else {
                assert(n[j + 1] == x);
            }
        }
        if x == c@ {
            assert(n[p as int] == x);
        }
    }
}

/// The segment files to delete from a directory listing so that at most
/// `max_files` remain: the ones first by name, in ascending order. The
/// names of a listing are distinct.
pub fn files_to_delete(names: &Vec<Vec<u8>>, max_files: usize) -> (r: Vec<Vec<u8>>)
    requires
        names_view(names@).no_duplicates(),
    ensures
        swept(names_view(names@), max_files as nat, names_view(r@)),
{
    let ghost l = names_view(names@);
    let mut sorted: Vec<Vec<u8>> = Vec::new();
    let mut i: usize = 0;
    while i < names.len()
        invariant
            l == names_view(names@),
            l.no_duplicates(),
            i <= l.len(),
            strictly_sorted(names_view(sorted@)),
            forall|x: Seq<u8>| #[trigger] names_view(sorted@).contains(x) <==> (exists|j: int|
                0 <= j < i && l[j] == x && is_segment_file(x)),
        decreases l.len() - i,
    {
        if segment_file(names[i].as_slice()) {
            let c = copy_name(&names[i]);
            assert(!names_view(sorted@).contains(c@)) by {
                if names_view(sorted@).contains(c@) {
                    let j = choose|j: int| 0 <= j < i && l[j] == c@ && is_segment_file(c@);
                    assert(l[j] == l[i as int]);
                }
            }
            let ghost before = names_view(sorted@);
            insert_sorted(&mut sorted, c);
            assert forall|x: Seq<u8>| #[trigger] names_view(sorted@).contains(x) <==> (exists|j: int|
                0 <= j < i + 1 && l[j] == x && is_segment_file(x)) by {
                if x == l[i as int] {
                    assert(names_view(sorted@).contains(x));
                }
                if before.contains(x) {
                    let j = choose|j: int| 0 <= j < i && l[j] == x && is_segment_file(x);
                    assert(0 <= j < i + 1 && l[j] == x);
                }
            }
        } else {
            assert forall|x: Seq<u8>| #[trigger] names_view(sorted@).contains(x) <==> (exists|j: int|
                0 <= j < i + 1 && l[j] == x && is_segment_file(x)) by {
                if exists|j: int| 0 <= j < i + 1 && l[j] == x && is_segment_file(x) {
                    let j = choose|j: int| 0 <= j < i + 1 && l[j] == x && is_segment_file(x);
                    if j == i {
                        assert(!is_segment_file(l[j]));
                    }
                    assert(0 <= j < i && l[j] == x);
                }
            }
        }
        i = i + 1;
    }
    let ghost sv = names_view(sorted@);
    proof {
        assert(segment_files(l) =~= sv.to_set()) by {
            assert forall|x: Seq<u8>| segment_files(l).contains(x) <==> sv.to_set().contains(x) by {
                if segment_files(l).contains(x) {
                    assert(l.contains(x));
                    let j = choose|j: int| 0 <= j < l.len() && l[j] == x;
                    assert(sv.contains(x));
                }
            }
        }
        assert(sv.no_duplicates()) by {
            assert forall|a: int, b: int| 0 <= a < sv.len() && 0 <= b < sv.len() && a != b implies sv[a] != sv[b] by {
                if a < b {
                    assert(lex_lt(sv[a], sv[b]));
                    lemma_lex_irreflexive(sv[a]);
                } else {
                    assert(lex_lt(sv[b], sv[a]));
                    lemma_lex_irreflexive(sv[b]);
                }
            }
        }
        sv.unique_seq_to_set();
    }
    let n = sorted.len();
    let k: usize = if n > max_files {
        n - max_files
    } else {
        0
    };
    let mut r: Vec<Vec<u8>> = Vec::new();
    let mut j: usize = 0;
    while j < k
        invariant
            sv == names_view(sorted@),
            n == sv.len(),
            k <= n,
            j <= k,
            names_view(r@) == sv.subrange(0, j as int),
        decreases k - j,
    {
        let c = copy_name(&sorted[j]);
        assert(c@ == sv[j as int]);
        let ghost before = names_view(r@);
        r.push(c);
        assert(names_view(r@) =~= before.push(c@));
        assert(names_view(r@) =~= sv.subrange(0, j + 1));
        j = j + 1;
    }
    proof {
        let d = names_view(r@);
        assert forall|x: Seq<u8>, a: int|
            segment_files(l).contains(x) && !d.contains(x) && 0 <= a < d.len() implies #[trigger] lex_lt(d[a], x) by {
            assert(sv.to_set().contains(x));
            let q = choose|q: int| 0 <= q < sv.len() && sv[q] == x;
            if q < k {
                assert(d[q] == x);
            }
            assert(d[a] == sv[a]);
        }
        assert forall|a: int| 0 <= a < d.len() implies segment_files(l).contains(#[trigger] d[a]) by {
            assert(d[a] == sv[a]);
            assert(sv.to_set().contains(sv[a]));
        }
        assert forall|a: int, b: int| 0 <= a < b < d.len() implies lex_lt(#[trigger] d[a], #[trigger] d[b]) by {
            assert(d[a] == sv[a]);
            assert(d[b] == sv[b]);
        }
    }
    r
}

/// Sweeping twice with the same `max_files` is sweeping once: once the
/// files of a sweep are deleted, the next sweep of that directory deletes
/// none.
pub proof fn lemma_sweep_idempotent(
    names: Seq<Seq<u8>>,
    max_files: nat,
    deleted: Seq<Seq<u8>>,
    after: Seq<Seq<u8>>,
)
    requires
        swept(names, max_files, deleted),
        after.to_set() == names.to_set().difference(deleted.to_set()),
    ensures
        deletion_count(after, max_files) == 0,
        swept(after, max_files, Seq::empty()),
{
    let c = segment_files(names);
    let d = deleted.to_set();
    assert(deleted.no_duplicates()) by {
        assert forall|a: int, b: int| 0 <= a < deleted.len() && 0 <= b < deleted.len() && a != b implies deleted[a] != deleted[b] by {
            if a < b {
                assert(lex_lt(deleted[a], deleted[b]));
                lemma_lex_irreflexive(deleted[a]);
            } else {
                assert(lex_lt(deleted[b], deleted[a]));
                lemma_lex_irreflexive(deleted[b]);
            }
        }
    }
    deleted.unique_seq_to_set();
    vstd::seq_lib::seq_to_set_is_finite(names);
    vstd::seq_lib::seq_to_set_is_finite(deleted);
    assert(d.subset_of(c)) by {
        assert forall|x: Seq<u8>| d.contains(x) implies c.contains(x) by {
            let a = choose|a: int| 0 <= a < deleted.len() && deleted[a] == x;
        }
    }
    assert(segment_files(after) =~= c.difference(d));
    names.to_set().lemma_len_filter(|x: Seq<u8>| is_segment_file(x));
    vstd::set_lib::lemma_set_difference_len(c, d);
    assert(c.intersect(d) =~= d);
    assert(segment_files(after).len() <= max_files);
}

} // verus!
