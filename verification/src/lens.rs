use vstd::prelude::*;
use crate::value::FieldData;
use crate::variable::{
    all_fit, data_fits, data_shape_ok, encoding, field_wf, lemma_encoding_step_fields,
    lemma_max_len_prefix, lemma_min_len_le_max, lemma_slot_len, max_len, min_len, shapes_ok,
    slot_encoding, slot_max_len, FieldLayout, OptionalKind, VariableLayout,
};
use crate::schema::lemma_take_full;

verus! {

/// The possible lengths of a fixed-size field's slot.
pub open spec fn slot_lens(f: FieldLayout) -> Set<nat> {
    match f {
        FieldLayout::Value { value, optional } => match optional {
            OptionalKind::No => set![value.spec_size()],
            OptionalKind::Tagged => set![1nat, 1 + value.spec_size()],
            OptionalKind::Implicit(_) => set![0nat, value.spec_size()],
        },
        FieldLayout::Vec { .. } => Set::empty(),
    }
}

/// Every length an encoding of fields without `Vec`s can have.
pub open spec fn exact_lens(fields: Seq<FieldLayout>) -> Set<nat>
    decreases fields.len(),
{
    if fields.len() == 0 {
        set![0nat]
    } else {
        let prev = exact_lens(fields.drop_last());
        let slot = slot_lens(fields.last());
        Set::new(|x: nat| exists|t: nat, s: nat| prev.contains(t) && slot.contains(s) && x == t + s)
    }
}

pub open spec fn has_vec(fields: Seq<FieldLayout>) -> bool {
    exists|i: int| 0 <= i < fields.len() && #[trigger] fields[i] is Vec
}

/// The valid encoded lengths of a layout.
#[derive(Debug, PartialEq, Eq)]
pub enum DataLens {
    /// Exactly one length.
    Exact(usize),
    /// Finitely many lengths, in increasing order.
    OneOf(Vec<usize>),
    /// Any length in this range: the layout has a `Vec` field.
    Range(usize, usize),
}

pub open spec fn strictly_increasing(v: Seq<usize>) -> bool {
    forall|i: int, j: int| 0 <= i < j < v.len() ==> v[i] < v[j]
}

pub open spec fn seq_set(v: Seq<usize>) -> Set<nat> {
    Set::new(|x: nat| exists|i: int| 0 <= i < v.len() && v[i] == x)
}

/// Inserts `x` into a strictly increasing sequence, keeping it so.
fn insert_sorted(v: &mut Vec<usize>, x: usize)
    requires
        strictly_increasing(old(v)@),
    ensures
        strictly_increasing(final(v)@),
        seq_set(final(v)@) == seq_set(old(v)@).insert(x as nat),
        final(v)@.len() >= 1,
{
    let n = v.len();
    let mut i: usize = 0;
    while i < n && v[i] < x
        invariant
            n == v@.len(),
            i <= n,
            strictly_increasing(v@),
            forall|k: int| 0 <= k < i ==> v@[k] < x,
        decreases n - i,
    {
        i = i + 1;
    }
    let ghost o = v@;
    if i < n && v[i] == x {
        proof {
            assert(seq_set(o).insert(x as nat) =~= seq_set(o));
        }
        return;
    }
    v.insert(i, x);
    proof {
        assert(v@ == o.take(i as int).push(x) + o.skip(i as int)) by {
            assert(v@ =~= o.take(i as int).push(x) + o.skip(i as int));
        }
        assert forall|a: int, b: int| 0 <= a < b < v@.len() implies v@[a] < v@[b] by {
            if a < i && b > i {
                assert(v@[b] == o[b - 1]);
                assert(o[b - 1] >= x) by {
                    if o[b - 1] < x {
                        assert(o[i as int] <= o[b - 1]);
                    }
                }
            }
            if b > i && a > i {
                assert(v@[a] == o[a - 1]);
                assert(v@[b] == o[b - 1]);
            }
            if a == i && b > i {
                assert(v@[b] == o[b - 1]);
                assert(o[b - 1] >= o[i as int]);
            }
        }
        assert forall|y: nat| seq_set(o).insert(x as nat).contains(y) implies #[trigger] seq_set(v@).contains(y) by {
            if y == x {
                assert(v@[i as int] == x);
            } else {
                let k = choose|k: int| 0 <= k < o.len() && o[k] == y;
                if k < i {
                    assert(v@[k] == y);
                } else {
                    assert(v@[k + 1] == y);
                }
            }
        }
        assert forall|y: nat| #[trigger] seq_set(v@).contains(y) implies seq_set(o).insert(x as nat).contains(y) by {
            let k = choose|k: int| 0 <= k < v@.len() && v@[k] == y;
            if k < i {
                assert(o[k] == y);
                assert(seq_set(o).contains(y));
            } else if k > i {
                assert(o[k - 1] == y);
                assert(seq_set(o).contains(y));
            }
        }
        assert(seq_set(v@) =~= seq_set(o).insert(x as nat));
    }
}

impl VariableLayout {
    /// The valid encoded lengths: the range from the smallest to the largest
    /// encoding when there is a `Vec` field, else every length an encoding can
    /// have (one, or several in increasing order).
    pub fn data_lens(&self) -> (r: DataLens)
        requires
            self.wf(),
        ensures
            r matches DataLens::Range(lo, hi) ==> has_vec(self@.fields) && lo == min_len(
                self@.fields,
            ) && hi == max_len(self@.fields),
            r matches DataLens::Exact(n) ==> !has_vec(self@.fields) && exact_lens(self@.fields)
                == set![n as nat],
            r matches DataLens::OneOf(v) ==> {
                &&& !has_vec(self@.fields)
                &&& v@.len() >= 2
                &&& strictly_increasing(v@)
                &&& seq_set(v@) == exact_lens(self@.fields)
            },
    {
        proof {
            self.lemma_wf();
        }
        let fields = self.fields();
        let n = fields.len();
        let mut lo: usize = 0;
        let mut hi: usize = 0;
        let mut lens: Vec<usize> = Vec::new();
        lens.push(0);
        let mut any_vec = false;
        let mut i: usize = 0;
        proof {
            assert(fields@.take(0) =~= Seq::<FieldLayout>::empty());
            assert(seq_set(lens@).contains(0nat)) by {
                assert(lens@[0] == 0);
            }
            assert(seq_set(lens@) =~= set![0nat]);
        }
        while i < n
            invariant
                n == fields@.len(),
                fields@ == self@.fields,
                forall|j: int| 0 <= j < n ==> field_wf(#[trigger] fields@[j]),
                max_len(fields@) <= usize::MAX,
                i <= n,
                lo == min_len(fields@.take(i as int)),
                hi == max_len(fields@.take(i as int)),
                any_vec == has_vec(fields@.take(i as int)),
                !any_vec ==> strictly_increasing(lens@) && seq_set(lens@) == exact_lens(
                    fields@.take(i as int),
                ),
                !any_vec ==> forall|k: int| 0 <= k < lens@.len() ==> lens@[k] <= hi,
                !any_vec ==> lens@.len() >= 1,
            decreases n - i,
        {
            proof {
                lemma_encoding_step_fields(fields@, i as int);
                lemma_max_len_prefix(fields@, i + 1);
                lemma_min_len_le_max(fields@.take(i + 1));
                crate::variable::lemma_slot_min_le_max(fields@[i as int]);
                let t = fields@.take(i + 1);
                assert(t.drop_last() =~= fields@.take(i as int));
                assert(has_vec(t) == (has_vec(fields@.take(i as int)) || fields@[i as int] is Vec)) by {
                    if has_vec(t) {
                        let k = choose|k: int| 0 <= k < t.len() && #[trigger] t[k] is Vec;
                        if k < i {
                            assert(fields@.take(i as int)[k] == t[k]);
                        }
                    }
                    if has_vec(fields@.take(i as int)) {
                        let k = choose|k: int| 0 <= k < i && #[trigger] fields@.take(i as int)[k] is Vec;
                        assert(t[k] == fields@.take(i as int)[k]);
                    }
                    if fields@[i as int] is Vec {
                        assert(t[i as int] is Vec);
                    }
                }
            }
            let f = fields[i];
            let (smin, smax) = slot_bounds(f);
            let ghost old_lens = lens@;
            let ghost old_hi = hi;
            lo = lo + smin;
            hi = hi + smax;
            match f {
                FieldLayout::Vec { .. } => {
                    any_vec = true;
                },
                FieldLayout::Value { value, optional } => {
                    if !any_vec {
                        let size = value.size();
                        let (a, b) = match optional {
                            OptionalKind::No => (size, size),
                            OptionalKind::Tagged => (1, 1 + size),
                            OptionalKind::Implicit(_) => (0, size),
                        };
                        let mut next: Vec<usize> = Vec::new();
                        let m = lens.len();
                        let mut k: usize = 0;
                        while k < m
                            invariant
                                m == lens@.len(),
                                lens@ == old_lens,
                                k <= m,
                                m >= 1,
                                k > 0 ==> next@.len() >= 1,
                                strictly_increasing(next@),
                                forall|q: int| 0 <= q < m ==> lens@[q] <= old_hi,
                                old_hi + a <= hi,
                                old_hi + b <= hi,
                                seq_set(next@) == Set::new(
                                    |x: nat|
                                        exists|q: int|
                                            0 <= q < k && (x == lens@[q] + a || x == lens@[q] + b),
                                ),
                                forall|q: int| 0 <= q < next@.len() ==> next@[q] <= hi,
                            decreases m - k,
                        {
                            let t = lens[k];
                            let ghost before = seq_set(next@);
                            insert_sorted(&mut next, t + a);
                            insert_sorted(&mut next, t + b);
                            proof {
                                assert(seq_set(next@) =~= Set::new(
                                    |x: nat|
                                        exists|q: int|
                                            0 <= q < k + 1 && (x == lens@[q] + a || x == lens@[q] + b),
                                )) by {
                                    assert forall|x: nat| #[trigger] seq_set(next@).contains(x) implies exists|q: int|
                                        0 <= q < k + 1 && (x == lens@[q] + a || x == lens@[q] + b) by {
                                        if before.contains(x) {
                                            let q = choose|q: int|
                                                0 <= q < k && (x == lens@[q] + a || x == lens@[q] + b);
                                            assert(0 <= q < k + 1);
                                        } else if x == t + a {
                                            assert(x == lens@[k as int] + a);
                                        } else {
                                            assert(x == lens@[k as int] + b);
                                        }
                                    }
                                    assert forall|x: nat| (exists|q: int|
                                        0 <= q < k + 1 && (x == lens@[q] + a || x == lens@[q] + b)) implies #[trigger] seq_set(next@).contains(x) by {
                                        let q = choose|q: int|
                                            0 <= q < k + 1 && (x == lens@[q] + a || x == lens@[q] + b);
                                        if q < k {
                                            assert(before.contains(x));
                                        }
                                    }
                                }
                                assert forall|q: int| 0 <= q < next@.len() implies next@[q] <= hi by {
                                    assert(seq_set(next@).contains(next@[q] as nat));
                                }
                            }
                            k = k + 1;
                        }
                        proof {
                            let t = fields@.take(i + 1);
                            assert(slot_lens(t.last()) =~= set![a as nat, b as nat]);
                            assert(seq_set(next@) =~= exact_lens(t)) by {
                                assert forall|x: nat| #[trigger] seq_set(next@).contains(x) implies exact_lens(t).contains(x) by {
                                    let q = choose|q: int|
                                        0 <= q < m && (x == lens@[q] + a || x == lens@[q] + b);
                                    assert(seq_set(old_lens).contains(lens@[q] as nat));
                                    assert(slot_lens(t.last()).contains(a as nat));
                                    assert(slot_lens(t.last()).contains(b as nat));
                                }
                                assert forall|x: nat| #[trigger] exact_lens(t).contains(x) implies seq_set(next@).contains(x) by {
                                    let (tt, s) = choose|tt: nat, s: nat|
                                        exact_lens(t.drop_last()).contains(tt) && slot_lens(t.last()).contains(s) && x == tt + s;
                                    let q = choose|q: int| 0 <= q < old_lens.len() && old_lens[q] == tt;
                                    assert(lens@[q] == tt);
                                }
                            }
                        }
                        lens = next;
                    }
                },
            }
            i = i + 1;
        }
        proof {
            lemma_take_full(fields@);
        }
        if any_vec {
            DataLens::Range(lo, hi)
        } else if lens.len() == 1 {
            proof {
                assert(seq_set(lens@) =~= set![lens@[0] as nat]) by {
                    assert forall|x: nat| seq_set(lens@).contains(x) implies x == lens@[0] by {
                        let q = choose|q: int| 0 <= q < lens@.len() && lens@[q] == x;
                    }
                }
            }
            DataLens::Exact(lens[0])
        } else {
            DataLens::OneOf(lens)
        }
    }
}

/// The smallest and largest slot of a field.
fn slot_bounds(f: FieldLayout) -> (r: (usize, usize))
    requires
        field_wf(f),
        slot_max_len(f) <= usize::MAX,
    ensures
        r.0 == crate::variable::slot_min_len(f),
        r.1 == slot_max_len(f),
{
    let hi = crate::variable::slot_max_of(f) as usize;
    let lo = match f {
        FieldLayout::Value { value, optional } => match optional {
            OptionalKind::No => value.size(),
            OptionalKind::Tagged => 1,
            OptionalKind::Implicit(_) => 0,
        },
        FieldLayout::Vec { len_width, .. } => len_width,
    };
    (lo, hi)
}


/// Every encoding has a valid length: between the shortest and the longest
/// encoding, and, when no field is a `Vec`, one of the exact lengths that
/// `data_lens` lists.
pub proof fn lemma_encoding_len_valid(fields: Seq<FieldLayout>, data: Seq<FieldData>)
    requires
        forall|i: int| 0 <= i < fields.len() ==> field_wf(#[trigger] fields[i]),
        shapes_ok(fields, data),
        all_fit(fields, data),
    ensures
        min_len(fields) <= encoding(fields, data).len() <= max_len(fields),
        !has_vec(fields) ==> exact_lens(fields).contains(encoding(fields, data).len()),
    decreases fields.len(),
{
    if fields.len() > 0 {
        let n = fields.len() - 1;
        let f2 = fields.drop_last();
        let d2 = data.take(n);
        assert forall|i: int| 0 <= i < f2.len() implies data_shape_ok(f2[i], d2[i]) && data_fits(
            f2[i],
            d2[i],
        ) && field_wf(f2[i]) by {
            assert(data_shape_ok(fields[i], data[i]));
            assert(data_fits(fields[i], data[i]));
            assert(field_wf(fields[i]));
        }
        lemma_encoding_len_valid(f2, d2);
        assert(data_shape_ok(fields[n], data[n]));
        assert(data_fits(fields[n], data[n]));
        lemma_slot_len(fields.last(), data[n]);
        if !has_vec(fields) {
            assert(!has_vec(f2)) by {
                if has_vec(f2) {
                    let k = choose|k: int| 0 <= k < f2.len() && #[trigger] f2[k] is Vec;
                    assert(fields[k] is Vec);
                }
            }
            assert(!(fields[n] is Vec));
            let t = encoding(f2, d2).len();
            let slot = slot_encoding(fields.last(), data[n]).len();
            assert(slot_lens(fields.last()).contains(slot));
            assert(exact_lens(fields).contains(t + slot));
        }
    }
}

} // verus!
