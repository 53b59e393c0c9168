use vstd::prelude::*;
use vstd::arithmetic::power2::pow2;

verus! {

/// The total payload size of the implicit options marked present in `p`
/// (`p[k]` is the presence of the option with index `k`).
pub open spec fn subset_sum(sizes: Seq<nat>, p: Seq<bool>) -> nat
    decreases p.len(),
{
    if p.len() == 0 {
        0
    } else {
        subset_sum(sizes, p.drop_last()) + if p.last() {
            sizes[p.len() - 1]
        } else {
            0
        }
    }
}

/// The sum of the first `n` sizes.
pub open spec fn total_size(sizes: Seq<nat>, n: nat) -> nat
    decreases n,
{
    if n == 0 {
        0
    } else {
        total_size(sizes, (n - 1) as nat) + sizes[n - 1]
    }
}

/// Whether distinct presence combinations of the first `n` options always
/// give distinct payload totals.
pub open spec fn unique_subset_sums(sizes: Seq<nat>, n: nat) -> bool {
    forall|p1: Seq<bool>, p2: Seq<bool>|
        p1.len() == n && p2.len() == n && p1 != p2 ==> subset_sum(sizes, p1) != subset_sum(
            sizes,
            p2,
        )
}

/// One entry of a length table: an encoded length and the presence of each
/// implicit option for that length.
pub open spec fn entry_view(e: (usize, Vec<bool>)) -> (nat, Seq<bool>) {
    (e.0 as nat, e.1@)
}

pub open spec fn table_view(t: Seq<(usize, Vec<bool>)>) -> Seq<(nat, Seq<bool>)> {
    Seq::new(t.len(), |j: int| entry_view(t[j]))
}

/// Whether `t` lists, once each, every presence combination of the first `n`
/// options with the length `base` plus its payload total, and no two entries
/// share a length.
pub open spec fn table_ok(t: Seq<(nat, Seq<bool>)>, sizes: Seq<nat>, n: nat, base: nat) -> bool {
    &&& forall|j: int|
        0 <= j < t.len() ==> (#[trigger] t[j]).1.len() == n && t[j].0 == base + subset_sum(
            sizes,
            t[j].1,
        )
    &&& forall|p: Seq<bool>| p.len() == n ==> exists|j: int| 0 <= j < t.len() && #[trigger] t[j].1 == p
    &&& forall|j1: int, j2: int|
        0 <= j1 < t.len() && 0 <= j2 < t.len() && j1 != j2 ==> (#[trigger] t[j1]).0 != (
        #[trigger] t[j2]).0
}

/// Whether the lengths of a table increase strictly from entry to entry.
pub open spec fn lengths_increasing(t: Seq<(nat, Seq<bool>)>) -> bool {
    forall|j1: int, j2: int| 0 <= j1 < j2 < t.len() ==> (#[trigger] t[j1]).0 < (#[trigger] t[j2]).0
}

/// Whether no two entries of a table share a length.
pub open spec fn lengths_distinct(t: Seq<(nat, Seq<bool>)>) -> bool {
    forall|j1: int, j2: int|
        0 <= j1 < t.len() && 0 <= j2 < t.len() && j1 != j2 ==> (#[trigger] t[j1]).0 != (
        #[trigger] t[j2]).0
}

/// Whether every entry of `v` is an entry of `orig` from index `lo` on.
#[verifier::opaque]
pub open spec fn entries_from(v: Seq<(nat, Seq<bool>)>, orig: Seq<(nat, Seq<bool>)>, lo: int) -> bool {
    forall|j: int| 0 <= j < v.len() ==> exists|k: int| lo <= k < orig.len() && #[trigger] v[j] == orig[k]
}

/// Whether every entry of `orig` from index `lo` on is an entry of `v`.
#[verifier::opaque]
pub open spec fn covers_from(v: Seq<(nat, Seq<bool>)>, orig: Seq<(nat, Seq<bool>)>, lo: int) -> bool {
    forall|k: int| lo <= k < orig.len() ==> exists|j: int| 0 <= j < v.len() && v[j] == #[trigger] orig[k]
}

proof fn lemma_table_view_insert(t: Seq<(usize, Vec<bool>)>, i: int, x: (usize, Vec<bool>))
    requires
        0 <= i <= t.len(),
    ensures
        table_view(t.insert(i, x)) == table_view(t).insert(i, entry_view(x)),
{
    assert(table_view(t.insert(i, x)) =~= table_view(t).insert(i, entry_view(x)));
}

/// Inserting `y` into an increasing list, after the entries shorter than it
/// and before the longer ones, keeps the list increasing.
proof fn lemma_insert_increasing(o: Seq<(nat, Seq<bool>)>, y: (nat, Seq<bool>), p: int)
    requires
        0 <= p <= o.len(),
        lengths_increasing(o),
        forall|j: int| 0 <= j < p ==> (#[trigger] o[j]).0 < y.0,
        forall|j: int| p <= j < o.len() ==> (#[trigger] o[j]).0 > y.0,
    ensures
        lengths_increasing(o.insert(p, y)),
{
    let v = o.insert(p, y);
    assert forall|j1: int, j2: int| 0 <= j1 < j2 < v.len() implies (#[trigger] v[j1]).0 < (
    #[trigger] v[j2]).0 by {
        if j2 < p {
            assert(v[j1] == o[j1] && v[j2] == o[j2]);
        } else if j2 == p {
            assert(v[j1] == o[j1]);
        } else if j1 < p {
            assert(v[j1] == o[j1] && v[j2] == o[j2 - 1]);
        } else if j1 == p {
            assert(v[j2] == o[j2 - 1]);
        } else {
            assert(v[j1] == o[j1 - 1] && v[j2] == o[j2 - 1]);
        }
    }
}

/// Inserting entry `m` of `orig` into a list of entries of `orig` after `m`
/// gives a list of entries from `m` on.
proof fn lemma_insert_entries(o: Seq<(nat, Seq<bool>)>, orig: Seq<(nat, Seq<bool>)>, m: int, p: int)
    requires
        0 <= m < orig.len(),
        0 <= p <= o.len(),
        entries_from(o, orig, m + 1),
    ensures
        entries_from(o.insert(p, orig[m]), orig, m),
{
    reveal(entries_from);
    let v = o.insert(p, orig[m]);
    assert forall|j: int| 0 <= j < v.len() implies exists|k: int|
        m <= k < orig.len() && #[trigger] v[j] == orig[k] by {
        if j < p {
            assert(v[j] == o[j]);
            let k = choose|k: int| m + 1 <= k < orig.len() && o[j] == orig[k];
            assert(v[j] == orig[k]);
        } else if j == p {
            assert(v[j] == orig[m]);
        } else {
            assert(v[j] == o[j - 1]);
            let k = choose|k: int| m + 1 <= k < orig.len() && o[j - 1] == orig[k];
            assert(v[j] == orig[k]);
        }
    }
}

/// Inserting entry `m` of `orig` into a list that holds every entry after
/// `m` gives a list that holds every entry from `m` on.
proof fn lemma_insert_covers(o: Seq<(nat, Seq<bool>)>, orig: Seq<(nat, Seq<bool>)>, m: int, p: int)
    requires
        0 <= m < orig.len(),
        0 <= p <= o.len(),
        covers_from(o, orig, m + 1),
    ensures
        covers_from(o.insert(p, orig[m]), orig, m),
{
    reveal(covers_from);
    let v = o.insert(p, orig[m]);
    assert forall|k: int| m <= k < orig.len() implies exists|j: int|
        0 <= j < v.len() && v[j] == #[trigger] orig[k] by {
        if k == m {
            assert(v[p] == orig[k]);
        } else {
            let j0 = choose|j: int| 0 <= j < o.len() && o[j] == orig[k];
            if j0 < p {
                assert(v[j0] == orig[k]);
            } else {
                assert(v[j0 + 1] == orig[k]);
            }
        }
    }
}

/// Inserting entry `m` of a table into an increasing list of the entries
/// after it, at the place its length belongs, gives an increasing list of
/// the entries from `m` on.
proof fn lemma_sorted_insert(o: Seq<(nat, Seq<bool>)>, orig: Seq<(nat, Seq<bool>)>, m: int, p: int)
    requires
        0 <= m < orig.len(),
        0 <= p <= o.len(),
        lengths_distinct(orig),
        lengths_increasing(o),
        forall|j: int| 0 <= j < p ==> (#[trigger] o[j]).0 < orig[m].0,
        p < o.len() ==> !(o[p].0 < orig[m].0),
        entries_from(o, orig, m + 1),
        covers_from(o, orig, m + 1),
    ensures
        lengths_increasing(o.insert(p, orig[m])),
        entries_from(o.insert(p, orig[m]), orig, m),
        covers_from(o.insert(p, orig[m]), orig, m),
{
    assert forall|j: int| 0 <= j < o.len() implies (#[trigger] o[j]).0 != orig[m].0 by {
        reveal(entries_from);
        let k = choose|k: int| m + 1 <= k < orig.len() && o[j] == orig[k];
        assert(orig[k].0 != orig[m].0);
    }
    assert forall|j: int| p <= j < o.len() implies (#[trigger] o[j]).0 > orig[m].0 by {
        if p < j {
            assert(o[p].0 < o[j].0);
        }
        assert(o[p].0 != orig[m].0);
    }
    lemma_insert_increasing(o, orig[m], p);
    lemma_insert_entries(o, orig, m, p);
    lemma_insert_covers(o, orig, m, p);
}

/// The entries of `t` ordered by length. Since no two entries share a length,
/// the result has the same entries, each once, in increasing order of length.
fn sort_by_length(t: Vec<(usize, Vec<bool>)>) -> (r: Vec<(usize, Vec<bool>)>)
    requires
        lengths_distinct(table_view(t@)),
    ensures
        r@.len() == t@.len(),
        lengths_increasing(table_view(r@)),
        entries_from(table_view(r@), table_view(t@), 0),
        covers_from(table_view(r@), table_view(t@), 0),
{
    let ghost orig = table_view(t@);
    let mut rest = t;
    let mut out: Vec<(usize, Vec<bool>)> = Vec::new();
    proof {
        reveal(entries_from);
        reveal(covers_from);
        assert(orig.take(orig.len() as int) =~= orig);
    }
    while rest.len() > 0
        invariant
            lengths_distinct(orig),
            table_view(rest@) == orig.take(rest@.len() as int),
            rest@.len() <= orig.len(),
            out@.len() + rest@.len() == orig.len(),
            lengths_increasing(table_view(out@)),
            entries_from(table_view(out@), orig, rest@.len() as int),
            covers_from(table_view(out@), orig, rest@.len() as int),
        decreases rest@.len(),
    {
        let ghost m = rest@.len() - 1;
        let ghost before = rest@;
        let x = rest.pop().unwrap();
        proof {
            assert(entry_view(x) == orig[m]) by {
                assert(table_view(before)[m] == orig.take(m + 1)[m]);
            }
            assert(table_view(rest@) =~= orig.take(m));
        }
        let mut pos: usize = 0;
        while pos < out.len() && out[pos].0 < x.0
            invariant
                pos <= out@.len(),
                forall|j: int| 0 <= j < pos ==> (#[trigger] table_view(out@)[j]).0 < x.0,
            decreases out@.len() - pos,
        {
            pos = pos + 1;
        }
        let ghost o = table_view(out@);
        let ghost prev = out@;
        out.insert(pos, x);
        proof {
            lemma_table_view_insert(prev, pos as int, x);
            lemma_sorted_insert(o, orig, m, pos as int);
        }
    }
    out
}

pub proof fn lemma_subset_sum_bound(sizes: Seq<nat>, p: Seq<bool>)
    requires
        p.len() <= sizes.len(),
    ensures
        subset_sum(sizes, p) <= total_size(sizes, p.len()),
    decreases p.len(),
{
    if p.len() > 0 {
        lemma_subset_sum_bound(sizes, p.drop_last());
    }
}

pub proof fn lemma_total_size_monotonic(sizes: Seq<nat>, a: nat, b: nat)
    requires
        a <= b,
    ensures
        total_size(sizes, a) <= total_size(sizes, b),
    decreases b,
{
    if a < b {
        lemma_total_size_monotonic(sizes, a, (b - 1) as nat);
    }
}

/// Presence combinations that collide among the first `m` options still
/// collide, with every later option absent, among the first `n`.
pub proof fn lemma_unique_prefix(sizes: Seq<nat>, m: nat, n: nat)
    requires
        m <= n,
        unique_subset_sums(sizes, n),
    ensures
        unique_subset_sums(sizes, m),
    decreases n - m,
{
    if m < n {
        lemma_unique_prefix(sizes, m + 1, n);
        assert forall|p1: Seq<bool>, p2: Seq<bool>|
            p1.len() == m && p2.len() == m && p1 != p2 implies subset_sum(sizes, p1) != subset_sum(
            sizes,
            p2,
        ) by {
            let q1 = p1.push(false);
            let q2 = p2.push(false);
            assert(q1.drop_last() =~= p1);
            assert(q2.drop_last() =~= p2);
            if q1 == q2 {
                assert(p1 =~= p2);
            }
            assert(subset_sum(sizes, q1) != subset_sum(sizes, q2));
        }
    }
}

/// A complete table with distinct lengths means the sums are unique.
pub proof fn lemma_table_unique(t: Seq<(nat, Seq<bool>)>, sizes: Seq<nat>, n: nat, base: nat)
    requires
        table_ok(t, sizes, n, base),
    ensures
        unique_subset_sums(sizes, n),
{
    assert forall|p1: Seq<bool>, p2: Seq<bool>|
        p1.len() == n && p2.len() == n && p1 != p2 implies subset_sum(sizes, p1) != subset_sum(
        sizes,
        p2,
    ) by {
        let j1 = choose|j: int| 0 <= j < t.len() && #[trigger] t[j].1 == p1;
        let j2 = choose|j: int| 0 <= j < t.len() && #[trigger] t[j].1 == p2;
        assert(t[j1].1 == p1);
        assert(t[j2].1 == p2);
    }
}

/// A copy of `p` with `b` appended.
fn pushed(p: &Vec<bool>, b: bool) -> (r: Vec<bool>)
    ensures
        r@ == p@.push(b),
{
    let mut r: Vec<bool> = Vec::new();
    let mut k: usize = 0;
    while k < p.len()
        invariant
            k <= p@.len(),
            r@ == p@.take(k as int),
        decreases p@.len() - k,
    {
        r.push(p[k]);
        proof {
            assert(r@ =~= p@.take(k + 1));
        }
        k = k + 1;
    }
    r.push(b);
    proof {
        assert(p@.take(p@.len() as int) =~= p@);
    }
    r
}

/// The table of encoded lengths of a layout whose implicit options have the
/// payload sizes `sizes` and whose other fields take `base` bytes: one entry
/// for each of the `2^k` presence combinations of `k` options, in increasing
/// order of length; empty when there are no implicit options.
///
/// Options are added one at a time; adding option `i` fails with `Err(i)` as
/// soon as two presence combinations of the first `i + 1` options give the
/// same length.
#[verifier::loop_isolation(false)]
pub fn length_table(sizes: &[usize], base: usize) -> (r: Result<Vec<(usize, Vec<bool>)>, usize>)
    requires
        base + total_size(Seq::new(sizes@.len(), |k: int| sizes@[k] as nat), sizes@.len())
            <= usize::MAX,
    ensures
        sizes@.len() == 0 ==> (r matches Ok(t) && t@.len() == 0),
        sizes@.len() > 0 ==> ({
            let sz = Seq::new(sizes@.len(), |k: int| sizes@[k] as nat);
            match r {
                Ok(t) => {
                    &&& table_ok(table_view(t@), sz, sizes@.len(), base as nat)
                    &&& unique_subset_sums(sz, sizes@.len())
                    &&& lengths_increasing(table_view(t@))
                    &&& t@.len() == pow2(sizes@.len() as nat)
                },
                Err(i) => {
                    &&& i < sizes@.len()
                    &&& unique_subset_sums(sz, i as nat)
                    &&& !unique_subset_sums(sz, (i + 1) as nat)
                    &&& !unique_subset_sums(sz, sizes@.len())
                },
            }
        }),
{
    if sizes.len() == 0 {
        return Ok(Vec::new());
    }
    let ghost sz = Seq::new(sizes@.len(), |k: int| sizes@[k] as nat);
    let mut cur: Vec<(usize, Vec<bool>)> = Vec::new();
    cur.push((base, Vec::new()));
    proof {
        let t = table_view(cur@);
        assert(t[0].1 =~= Seq::<bool>::empty());
        assert forall|p: Seq<bool>| p.len() == 0 implies exists|j: int|
            0 <= j < t.len() && #[trigger] t[j].1 == p by {
            assert(p =~= Seq::<bool>::empty());
            assert(t[0].1 == p);
        }
    }
    let n = sizes.len();
    let mut i: usize = 0;
    proof {
        vstd::arithmetic::power2::lemma2_to64();
    }
    while i < n
        invariant
            n == sizes@.len(),
            sz == Seq::new(sizes@.len(), |k: int| sizes@[k] as nat),
            base + total_size(sz, n as nat) <= usize::MAX,
            i <= n,
            table_ok(table_view(cur@), sz, i as nat, base as nat),
            cur@.len() == pow2(i as nat),
        decreases n - i,
    {
        let s = sizes[i];
        let c = cur.len();
        let mut next: Vec<(usize, Vec<bool>)> = Vec::new();
        let ghost t0 = table_view(cur@);
        proof {
            lemma_total_size_monotonic(sz, (i + 1) as nat, n as nat);
        }
        // every combination with option `i` absent
        let mut j: usize = 0;
        while j < c
            invariant
                c == cur@.len(),
                t0 == table_view(cur@),
                j <= c,
                next@.len() == j,
                forall|k: int|
                    0 <= k < j ==> (#[trigger] table_view(next@)[k]).0 == t0[k].0 && table_view(
                        next@,
                    )[k].1 == t0[k].1.push(false),
            decreases c - j,
        {
            let p = pushed(&cur[j].1, false);
            let ghost before = next@;
            next.push((cur[j].0, p));
            proof {
                assert forall|k: int| 0 <= k < j implies table_view(next@)[k] == table_view(before)[k] by {
                    assert(next@[k] == before[k]);
                }
                assert(table_view(next@)[j as int].1 == t0[j as int].1.push(false));
                assert forall|k: int| 0 <= k < j + 1 implies (#[trigger] table_view(next@)[k]).0
                    == t0[k].0 && table_view(next@)[k].1 == t0[k].1.push(false) by {
                    if k < j {
                        assert(table_view(next@)[k] == table_view(before)[k]);
                    }
                }
            }
            j = j + 1;
        }
        // every combination with option `i` present
        let mut j: usize = 0;
        while j < c
            invariant
                c == cur@.len(),
                t0 == table_view(cur@),
                table_ok(t0, sz, i as nat, base as nat),
                sz == Seq::new(sizes@.len(), |k: int| sizes@[k] as nat),
                i < n == sizes@.len(),
                s == sizes@[i as int],
                base + total_size(sz, (i + 1) as nat) <= usize::MAX,
                j <= c,
                next@.len() == c + j,
                forall|k: int|
                    0 <= k < c ==> (#[trigger] table_view(next@)[k]).0 == t0[k].0 && table_view(
                        next@,
                    )[k].1 == t0[k].1.push(false),
                forall|k: int|
                    0 <= k < j ==> (#[trigger] table_view(next@)[c + k]).0 == t0[k].0 + s
                        && table_view(next@)[c + k].1 == t0[k].1.push(true),
                forall|k1: int, k2: int|
                    0 <= k1 < next@.len() && 0 <= k2 < next@.len() && k1 != k2 ==> (
                    #[trigger] table_view(next@)[k1]).0 != (#[trigger] table_view(next@)[k2]).0,
            decreases c - j,
        {
            proof {
                let e = t0[j as int];
                assert(e.1.len() == i);
                lemma_subset_sum_bound(sz, e.1);
                lemma_total_size_monotonic(sz, i as nat, (i + 1) as nat);
            }
            let sum = cur[j].0 + s;
            let mut m: usize = 0;
            let len_now = next.len();
            while m < len_now
                invariant
                    len_now == next@.len(),
                    m <= len_now,
                    forall|k: int| 0 <= k < m ==> (#[trigger] table_view(next@)[k]).0 != sum,
                decreases len_now - m,
            {
                if next[m].0 == sum {
                    proof {
                        let tn = table_view(next@);
                        let q = tn[m as int].1;
                        let r = t0[j as int].1.push(true);
                        assert(t0[j as int].1.len() == i);
                        assert(r.drop_last() =~= t0[j as int].1);
                        if (m as int) < c {
                            assert(t0[m as int].1.len() == i);
                            assert(q == t0[m as int].1.push(false));
                            assert(q.drop_last() =~= t0[m as int].1);
                            assert(q.last() == false);
                            assert(q != r);
                            assert(subset_sum(sz, q) == subset_sum(sz, t0[m as int].1));
                        } else {
                            let k = m - c;
                            assert(tn[c + k].1 == t0[k as int].1.push(true));
                            assert(t0[k as int].1.len() == i);
                            assert(q.drop_last() =~= t0[k as int].1);
                            assert(k != j);
                            assert(t0[k as int].0 != t0[j as int].0);
                            assert(q != r);
                        }
                        assert(q.len() == i + 1);
                        assert(r.len() == i + 1);
                        assert(subset_sum(sz, r) == subset_sum(sz, t0[j as int].1) + s);
                        assert(!unique_subset_sums(sz, (i + 1) as nat));
                        lemma_table_unique(t0, sz, i as nat, base as nat);
                        if unique_subset_sums(sz, n as nat) {
                            lemma_unique_prefix(sz, (i + 1) as nat, n as nat);
                        }
                    }
                    return Err(i);
                }
                m = m + 1;
            }
            let p = pushed(&cur[j].1, true);
            let ghost before = next@;
            next.push((sum, p));
            proof {
                assert forall|k: int| 0 <= k < before.len() implies table_view(next@)[k] == table_view(before)[k] by {
                    assert(next@[k] == before[k]);
                }
                let tn = table_view(next@);
                assert(tn[(c + j) as int].0 == sum);
                assert(tn[(c + j) as int].1 == t0[j as int].1.push(true));
                assert forall|k: int| 0 <= k < c implies (#[trigger] tn[k]).0 == t0[k].0
                    && tn[k].1 == t0[k].1.push(false) by {
                    assert(tn[k] == table_view(before)[k]);
                }
                assert forall|k: int| 0 <= k < j + 1 implies (#[trigger] tn[c + k]).0 == t0[k].0 + s
                    && tn[c + k].1 == t0[k].1.push(true) by {
                    if k < j {
                        assert(tn[c + k] == table_view(before)[c + k]);
                    }
                }
                assert forall|k1: int, k2: int|
                    0 <= k1 < tn.len() && 0 <= k2 < tn.len() && k1 != k2 implies (
                    #[trigger] tn[k1]).0 != (#[trigger] tn[k2]).0 by {
                    if k1 < before.len() && k2 < before.len() {
                        assert(tn[k1] == table_view(before)[k1]);
                        assert(tn[k2] == table_view(before)[k2]);
                    } else if k1 < before.len() {
                        assert(tn[k1] == table_view(before)[k1]);
                    } else {
                        assert(tn[k2] == table_view(before)[k2]);
                    }
                }
            }
            j = j + 1;
        }
        proof {
            let tn = table_view(next@);
            assert forall|k: int| 0 <= k < tn.len() implies (#[trigger] tn[k]).1.len() == i + 1
                && tn[k].0 == base + subset_sum(sz, tn[k].1) by {
                if k < c {
                    assert(t0[k].1.len() == i);
                    assert(tn[k].1.drop_last() =~= t0[k].1);
                } else {
                    let k2 = k - c;
                    assert(tn[c + k2].1 == t0[k2].1.push(true));
                    assert(tn[c + k2].0 == t0[k2].0 + s);
                    assert(c + k2 == k);
                    assert(t0[k2].1.len() == i);
                    assert(tn[k].1.drop_last() =~= t0[k2].1);
                }
            }
            assert forall|p: Seq<bool>| p.len() == i + 1 implies exists|k: int|
                0 <= k < tn.len() && #[trigger] tn[k].1 == p by {
                let q = p.drop_last();
                assert(q.len() == i);
                let jq = choose|jj: int| 0 <= jj < t0.len() && #[trigger] t0[jj].1 == q;
                assert(t0[jq].1 == q);
                if p.last() {
                    assert(q.push(true) =~= p);
                    assert(tn[c + jq].1 == p);
                } else {
                    assert(q.push(false) =~= p);
                    assert(tn[jq].1 == p);
                }
            }
        }
        proof {
            vstd::arithmetic::power2::lemma_pow2_unfold((i + 1) as nat);
        }
        cur = next;
        i = i + 1;
    }
    proof {
        lemma_table_unique(table_view(cur@), sz, n as nat, base as nat);
    }
    let ghost unsorted = table_view(cur@);
    let sorted = sort_by_length(cur);
    proof {
        reveal(entries_from);
        reveal(covers_from);
        let t = table_view(sorted@);
        assert forall|j: int| 0 <= j < t.len() implies (#[trigger] t[j]).1.len() == n && t[j].0
            == base + subset_sum(sz, t[j].1) by {
            let k = choose|k: int| 0 <= k < unsorted.len() && t[j] == unsorted[k];
            assert(unsorted[k].1.len() == n);
        }
        assert forall|p: Seq<bool>| p.len() == n implies exists|j: int|
            0 <= j < t.len() && #[trigger] t[j].1 == p by {
            let k = choose|k: int| 0 <= k < unsorted.len() && #[trigger] unsorted[k].1 == p;
            let j = choose|j: int| 0 <= j < t.len() && t[j] == unsorted[k];
            assert(t[j].1 == p);
        }
        assert forall|j1: int, j2: int|
            0 <= j1 < t.len() && 0 <= j2 < t.len() && j1 != j2 implies (#[trigger] t[j1]).0 != (
            #[trigger] t[j2]).0 by {
            if j1 < j2 {
                assert(t[j1].0 < t[j2].0);
            } else {
                assert(t[j2].0 < t[j1].0);
            }
        }
    }
    Ok(sorted)
}

} // verus!
