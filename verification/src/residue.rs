use vstd::prelude::*;
use vstd::arithmetic::div_mod::{
    lemma_add_mod_noop, lemma_fundamental_div_mod, lemma_mod_multiples_vanish, lemma_mod_self_0,
    lemma_mod_bound, lemma_small_mod,
};
use crate::value::{lemma_flatten_len, payload_ok, FieldData};
use crate::schema::SchemaError;
use crate::variable::{
    max_len, min_len, BufferOffset, all_fit, capacity, data_fits, data_shape_ok, encoding, field_wf, lemma_encoding_step,
    shapes_ok, slot_encoding, FieldLayout, OptionalKind,
};
use crate::bytes::lemma_le_bytes_len;

verus! {

/// The greatest common divisor, by Euclid's algorithm.
pub open spec fn spec_gcd(a: nat, b: nat) -> nat
    decreases b,
{
    if b == 0 {
        a
    } else {
        spec_gcd(b, a % b)
    }
}

pub proof fn lemma_gcd_divides(a: nat, b: nat)
    requires
        a > 0 || b > 0,
    ensures
        spec_gcd(a, b) > 0,
        a % spec_gcd(a, b) == 0,
        b % spec_gcd(a, b) == 0,
    decreases b,
{
    if b == 0 {
        lemma_mod_self_0(a as int);
        lemma_small_mod(0, a);
    } else {
        lemma_mod_bound(a as int, b as int);
        lemma_gcd_divides(b, a % b);
        let g = spec_gcd(b, a % b);
        lemma_fundamental_div_mod(b as int, g as int);
        lemma_fundamental_div_mod((a % b) as int, g as int);
        let k1 = b / g;
        let k2 = (a % b) / g;
        lemma_fundamental_div_mod(a as int, b as int);
        let q = a / b;
        assert(a == g * (k1 * q + k2)) by (nonlinear_arith)
            requires
                a == b * q + a % b,
                b == g * k1 + 0,
                a % b == g * k2 + 0,
        ;
        lemma_mod_multiples_vanish((k1 * q + k2) as int, 0, g as int);
        lemma_small_mod(0, g);
    }
}

/// Every common divisor of `a` and `b` divides their greatest common
/// divisor.
pub proof fn lemma_gcd_greatest(a: nat, b: nat, d: nat)
    requires
        d > 0,
        a % d == 0,
        b % d == 0,
    ensures
        spec_gcd(a, b) % d == 0,
    decreases b,
{
    if b > 0 {
        lemma_fundamental_div_mod(a as int, d as int);
        lemma_fundamental_div_mod(b as int, d as int);
        lemma_fundamental_div_mod(a as int, b as int);
        let ka = a / d;
        let kb = b / d;
        let q = a / b;
        let r = a % b;
        assert(a == d * ka);
        assert(b == d * kb);
        assert(a == b * q + r);
        assert(r == d * (ka - kb * q)) by (nonlinear_arith)
            requires
                a == d * ka,
                b == d * kb,
                a == b * q + r,
        ;
        lemma_mod_multiples_vanish(ka - kb * q, 0, d as int);
        lemma_small_mod(0, d);
        lemma_gcd_greatest(b, a % b, d);
    }
}

/// The number of elements after which the residues of a `Vec`'s length
/// repeat modulo `m`.
pub open spec fn period(m: nat, size: nat) -> nat {
    m / spec_gcd(m, size)
}

pub proof fn lemma_period(m: nat, size: nat, n: nat)
    requires
        m > 0,
    ensures
        period(m, size) > 0,
        (n * size) % m == ((n % period(m, size)) * size) % m,
{
    lemma_gcd_divides(m, size);
    let g = spec_gcd(m, size);
    let p = period(m, size);
    lemma_fundamental_div_mod(m as int, g as int);
    lemma_fundamental_div_mod(size as int, g as int);
    let km = m / g;
    let ks = size / g;
    assert(m == g * km);
    assert(size == g * ks);
    assert(km > 0) by (nonlinear_arith)
        requires
            m == g * km,
            m > 0,
    ;
    lemma_fundamental_div_mod(n as int, p as int);
    let q = (n / p) as nat;
    let r = n % p;
    assert(n * size == m * (q * ks) + r * size) by (nonlinear_arith)
        requires
            n == p * q + r,
            p == km,
            m == g * km,
            size == g * ks,
    ;
    lemma_mod_multiples_vanish((q * ks) as int, (r * size) as int, m as int);
}

/// What borrowing a field needs: its payload's alignment and how far past
/// the start of the slot the payload starts. Plain copies need nothing.
pub open spec fn borrow_requirement(f: FieldLayout) -> Option<(nat, nat)> {
    match f {
        FieldLayout::Value { value, optional } => if value.spec_is_borrowed() {
            Some(
                (
                    value.spec_align(),
                    if optional is Tagged {
                        1nat
                    } else {
                        0nat
                    },
                ),
            )
        } else {
            None
        },
        FieldLayout::Vec { elem, len_width } => if elem.spec_align() > 1 {
            Some((elem.spec_align(), len_width as nat))
        } else {
            None
        },
    }
}

/// The largest element count whose residue needs listing.
pub open spec fn vec_max_k(len_width: nat, size: nat, m: nat) -> nat {
    let c = capacity(len_width);
    let p = (period(m, size) - 1) as nat;
    if c <= p {
        c
    } else {
        p
    }
}

/// The length of a `Vec` slot with `k` elements, modulo `m`.
pub open spec fn vec_residue(len_width: nat, k: nat, size: nat, m: nat) -> nat {
    (len_width + k * size) % m
}

/// The possible lengths of a field's slot, modulo `m`.
pub open spec fn len_residues(f: FieldLayout, m: nat) -> Set<nat> {
    if m == 1 {
        set![0nat]
    } else {
        match f {
            FieldLayout::Value { value, optional } => {
                let s = value.spec_size();
                match optional {
                    OptionalKind::No => set![s % m],
                    OptionalKind::Tagged => set![1nat % m, (1 + s) % m],
                    OptionalKind::Implicit(_) => set![0nat, s % m],
                }
            },
            FieldLayout::Vec { elem, len_width } => Set::new(
                |x: nat|
                    exists|k: nat|
                        k <= vec_max_k(len_width as nat, elem.spec_size(), m) && x == #[trigger] vec_residue(
                            len_width as nat,
                            k,
                            elem.spec_size(),
                            m,
                        ),
            ),
        }
    }
}

/// The possible offsets, modulo `m`, at which the slot after `fields` starts.
pub open spec fn start_residues(fields: Seq<FieldLayout>, m: nat) -> Set<nat>
    decreases fields.len(),
{
    if fields.len() == 0 {
        set![0nat]
    } else {
        let prev = start_residues(fields.drop_last(), m);
        let lens = len_residues(fields.last(), m);
        Set::new(
            |x: nat|
                exists|r: nat, l: nat| prev.contains(r) && lens.contains(l) && x == (r + l) % m,
        )
    }
}

/// The residues of `s` moved by `k`, modulo `m`.
pub open spec fn shifted(s: Set<nat>, k: nat, m: nat) -> Set<nat> {
    Set::new(|x: nat| exists|r: nat| s.contains(r) && x == shift_of(r, k, m))
}

/// `r` moved by `k`, modulo `m`.
pub open spec fn shift_of(r: nat, k: nat, m: nat) -> nat {
    (r + k) % m
}

/// The length of each slot of an encoding is one of its listed residues.
pub proof fn lemma_slot_len_residue(f: FieldLayout, d: FieldData, m: nat)
    requires
        m > 0,
        field_wf(f),
        data_shape_ok(f, d),
        data_fits(f, d),
    ensures
        len_residues(f, m).contains(slot_encoding(f, d).len() % m),
{
    let len = slot_encoding(f, d).len();
    if m == 1 {
        assert(len % 1 == 0);
    } else {
        match (f, d) {
            (FieldLayout::Vec { elem, len_width }, FieldData::Items(items)) => {
                let size = elem.spec_size();
                let n = items.len();
                lemma_le_bytes_len(n, len_width as nat);
                lemma_flatten_len(items, size);
                lemma_period(m, size, n);
                let p = period(m, size);
                let k = n % p;
                lemma_mod_bound(n as int, p as int);
                assert(k <= n) by {
                    lemma_fundamental_div_mod(n as int, p as int);
                    assert((n / p) * p >= 0) by (nonlinear_arith)
                        requires n / p >= 0, p > 0;
                    assert(p * (n / p) == (n / p) * p) by (nonlinear_arith);
                }
                assert(k <= vec_max_k(len_width as nat, size, m));
                lemma_add_mod_noop(len_width as int, (n * size) as int, m as int);
                lemma_add_mod_noop(len_width as int, (k * size) as int, m as int);
                assert(len == len_width + n * size);
                assert(len % m == vec_residue(len_width as nat, k, size, m));
                assert(len_residues(f, m).contains(len % m));
            },
            _ => {
                lemma_small_mod(0, m);
                assert(data_shape_ok(f, d));
            },
        }
    }
}

/// The encoding of the first `i` fields of any record ends at one of the
/// listed start residues.
pub proof fn lemma_start_residue(fields: Seq<FieldLayout>, data: Seq<FieldData>, m: nat, i: int)
    requires
        m > 0,
        forall|j: int| 0 <= j < fields.len() ==> field_wf(#[trigger] fields[j]),
        shapes_ok(fields, data),
        all_fit(fields, data),
        0 <= i <= fields.len(),
    ensures
        start_residues(fields.take(i), m).contains(encoding(fields.take(i), data.take(i)).len() % m),
    decreases i,
{
    if i == 0 {
        assert(encoding(fields.take(0), data.take(0)).len() == 0) by {
            assert(fields.take(0) =~= Seq::<FieldLayout>::empty());
        }
        assert(0nat % m == 0) by {
            lemma_small_mod(0, m);
        }
    } else {
        lemma_start_residue(fields, data, m, i - 1);
        lemma_encoding_step(fields, data, i - 1);
        assert(data_shape_ok(fields[i - 1], data[i - 1]));
        assert(data_fits(fields[i - 1], data[i - 1]));
        lemma_slot_len_residue(fields[i - 1], data[i - 1], m);
        let prev = encoding(fields.take(i - 1), data.take(i - 1)).len();
        let slot = slot_encoding(fields[i - 1], data[i - 1]).len();
        lemma_add_mod_noop(prev as int, slot as int, m as int);
        let t = fields.take(i);
        assert(t.drop_last() =~= fields.take(i - 1));
        assert(t.last() == fields[i - 1]);
        let r = prev % m;
        let l = slot % m;
        assert(start_residues(t.drop_last(), m).contains(r));
        assert(len_residues(t.last(), m).contains(l));
        assert((prev + slot) % m == (r + l) % m);
    }
}

} // verus!

verus! {

/// Whether every field before the end of `fields` is a plain value, so the
/// next slot starts at a fixed offset.
pub open spec fn all_plain(fields: Seq<FieldLayout>) -> bool {
    forall|j: int|
        0 <= j < fields.len() ==> #[trigger] fields[j] matches FieldLayout::Value {
            optional: OptionalKind::No,
            ..
        }
}

/// The error that the alignment check reports for field `i`, if any.
pub open spec fn alignment_error(fields: Seq<FieldLayout>, bo: BufferOffset, i: int) -> Option<
    SchemaError,
> {
    match borrow_requirement(fields[i]) {
        None => None,
        Some((a, shift)) => match bo {
            BufferOffset::Unaligned => if a > 1 {
                Some(SchemaError::UnalignedBorrow { field: i as usize, align: a as usize })
            } else {
                None
            },
            BufferOffset::Fixed(b) => {
                if a > 8 {
                    Some(SchemaError::AlignmentAboveEight { field: i as usize, align: a as usize })
                } else {
                    let sh = shifted(start_residues(fields.take(i), a), (b + shift) as nat, a);
                    if sh == set![0nat] {
                        None
                    } else if all_plain(fields.take(i)) {
                        let start = min_len(fields.take(i));
                        Some(
                            SchemaError::MisalignedAtFixedOffset {
                                field: i as usize,
                                payload_offset: (start + shift) as usize,
                                residue: ((b + start + shift) % (a as int)) as usize,
                                align: a as usize,
                            },
                        )
                    } else if exists|r: nat| sh == set![r] {
                        Some(
                            SchemaError::MisalignedStable {
                                field: i as usize,
                                residue: (choose|r: nat| sh == set![r]) as usize,
                                align: a as usize,
                            },
                        )
                    } else {
                        Some(SchemaError::MisalignedAfterVariable { field: i as usize, align: a as usize })
                    }
                }
            },
        },
    }
}

/// The first alignment error from field `i` on.
pub open spec fn alignment_check_from(fields: Seq<FieldLayout>, bo: BufferOffset, i: nat) -> Result<
    (),
    SchemaError,
>
    decreases fields.len() - i,
{
    if i >= fields.len() {
        Ok(())
    } else {
        match alignment_error(fields, bo, i as int) {
            Some(e) => Err(e),
            None => alignment_check_from(fields, bo, i + 1),
        }
    }
}

pub proof fn lemma_alignment_check_ok(fields: Seq<FieldLayout>, bo: BufferOffset, i: nat, j: int)
    requires
        alignment_check_from(fields, bo, i) is Ok,
        i <= j < fields.len(),
    ensures
        alignment_error(fields, bo, j) is None,
    decreases j - i,
{
    if i < j {
        lemma_alignment_check_ok(fields, bo, i + 1, j);
    }
}

/// Borrowed views are only handed out where every valid encoding aligns
/// them: in a layout that passes the alignment check, the payload of every
/// borrowed field sits at an address that is a multiple of its alignment,
/// for every record, given that the buffer starts `b` bytes past an 8-byte
/// aligned address (with `buffer_offset = unaligned`, no borrowed field needs
/// any alignment).
pub proof fn lemma_borrowed_fields_aligned(
    fields: Seq<FieldLayout>,
    bo: BufferOffset,
    data: Seq<FieldData>,
    i: int,
)
    requires
        alignment_check_from(fields, bo, 0) is Ok,
        forall|j: int| 0 <= j < fields.len() ==> field_wf(#[trigger] fields[j]),
        shapes_ok(fields, data),
        all_fit(fields, data),
        0 <= i < fields.len(),
    ensures
        borrow_requirement(fields[i]) matches Some((a, shift)) ==> match bo {
            BufferOffset::Unaligned => a <= 1,
            BufferOffset::Fixed(b) => (b + encoding(fields.take(i), data.take(i)).len() + shift)
                % (a as int) == 0,
        },
{
    lemma_alignment_check_ok(fields, bo, 0, i);
    match borrow_requirement(fields[i]) {
        Some((a, shift)) => {
            match bo {
                BufferOffset::Fixed(b) => {
                    assert(field_wf(fields[i]));
                    assert(a > 0) by {
                        assert(fields[i] matches FieldLayout::Value { value, .. } ==> value.wf());
                    }
                    let off = encoding(fields.take(i), data.take(i)).len();
                    lemma_start_residue(fields, data, a, i);
                    let r = off % a;
                    let sh = shifted(start_residues(fields.take(i), a), (b + shift) as nat, a);
                    assert(sh.contains(((r + (b + shift)) % (a as int)) as nat));
                    assert(sh == set![0nat]);
                    lemma_add_mod_noop(off as int, (b + shift) as int, a as int);
                    assert((r + (b + shift)) % (a as int) == (off + (b + shift)) % (a as int)) by {
                        lemma_mod_bound((b + shift) as int, a as int);
                        lemma_add_mod_noop(r as int, (b + shift) as int, a as int);
                        vstd::arithmetic::div_mod::lemma_mod_twice(off as int, a as int);
                    }
                    assert((b + off + shift) == off + (b + shift));
                },
                BufferOffset::Unaligned => {},
            }
        },
        None => {},
    }
}

} // verus!

verus! {

/// The residues marked in a bitmap.
pub open spec fn bits_set(v: Seq<bool>) -> Set<nat> {
    Set::new(|x: nat| x < v.len() && v[x as int])
}

/// Euclid's algorithm.
pub fn gcd(a: usize, b: usize) -> (g: usize)
    ensures
        g == spec_gcd(a as nat, b as nat),
        a > 0 || b > 0 ==> g > 0 && a % g == 0 && b % g == 0,
        forall|d: nat|
            d > 0 && (a as nat) % d == 0 && (b as nat) % d == 0 ==> #[trigger] ((g as nat) % d) == 0,
{
    proof {
        if a > 0 || b > 0 {
            lemma_gcd_divides(a as nat, b as nat);
        }
        assert forall|d: nat| d > 0 && (a as nat) % d == 0 && (b as nat) % d == 0 implies #[trigger] (spec_gcd(
            a as nat,
            b as nat,
        ) % d) == 0 by {
            lemma_gcd_greatest(a as nat, b as nat, d);
        }
    }
    let mut x = a;
    let mut y = b;
    while y != 0
        invariant
            spec_gcd(x as nat, y as nat) == spec_gcd(a as nat, b as nat),
        decreases y,
    {
        let r = x % y;
        x = y;
        y = r;
    }
    x
}

/// A bitmap of `m` residues, all unmarked.
fn empty_bits(m: usize) -> (v: Vec<bool>)
    ensures
        v@.len() == m,
        forall|x: int| 0 <= x < m ==> !v@[x],
{
    let mut v: Vec<bool> = Vec::new();
    let mut k: usize = 0;
    while k < m
        invariant
            k <= m,
            v@.len() == k,
            forall|x: int| 0 <= x < k ==> !v@[x],
        decreases m - k,
    {
        v.push(false);
        k = k + 1;
    }
    v
}

pub proof fn lemma_len_residues_small(f: FieldLayout, m: nat)
    requires
        m > 0,
    ensures
        forall|x: nat| #[trigger] len_residues(f, m).contains(x) ==> x < m,
{
    assert forall|x: nat| #[trigger] len_residues(f, m).contains(x) implies x < m by {
        if m > 1 {
            match f {
                FieldLayout::Vec { elem, len_width } => {
                    let k = choose|k: nat|
                        k <= vec_max_k(len_width as nat, elem.spec_size(), m) && x
                            == #[trigger] vec_residue(len_width as nat, k, elem.spec_size(), m);
                    lemma_mod_bound((len_width + k * elem.spec_size()) as int, m as int);
                },
                FieldLayout::Value { value, .. } => {
                    lemma_mod_bound(value.spec_size() as int, m as int);
                    lemma_mod_bound(1 + value.spec_size() as int, m as int);
                    lemma_mod_bound(1, m as int);
                },
            }
        }
    }
}

/// The slot-length residues of a field, as a bitmap.
fn len_residue_bits(f: FieldLayout, m: usize) -> (v: Vec<bool>)
    requires
        field_wf(f),
        1 <= m <= 8,
    ensures
        v@.len() == m,
        bits_set(v@) == len_residues(f, m as nat),
{
    let mut v = empty_bits(m);
    proof {
        lemma_len_residues_small(f, m as nat);
    }
    if m == 1 {
        v.set(0, true);
        proof {
            assert(bits_set(v@) =~= set![0nat]);
        }
        return v;
    }
    match f {
        FieldLayout::Value { value, optional } => {
            let s = value.size();
            match optional {
                OptionalKind::No => {
                    v.set(s % m, true);
                },
                OptionalKind::Tagged => {
                    v.set(1 % m, true);
                    v.set((s % m + 1) % m, true);
                    proof {
                        lemma_add_mod_noop(1, s as int, m as int);
                        lemma_small_mod(1, m as nat);
                    }
                },
                OptionalKind::Implicit(_) => {
                    v.set(0, true);
                    v.set(s % m, true);
                },
            }
            proof {
                lemma_small_mod(0, m as nat);
                assert(bits_set(v@) =~= len_residues(f, m as nat));
            }
            v
        },
        FieldLayout::Vec { elem, len_width } => {
            let size = elem.size();
            let g = gcd(m, size);
            proof {
                lemma_gcd_divides(m as nat, size as nat);
                vstd::arithmetic::div_mod::lemma_div_is_ordered_by_denominator(m as int, 1, g as int);
            }
            let p = m / g;
            proof {
                lemma_period(m as nat, size as nat, 0);
            }
            let cap = crate::variable::capacity_of(len_width);
            let max_k: u64 = if cap <= (p - 1) as u64 {
                cap
            } else {
                (p - 1) as u64
            };
            let ghost mk = vec_max_k(len_width as nat, size as nat, m as nat);
            assert(max_k == mk);
            let mut k: u64 = 0;
            while k <= max_k
                invariant
                    max_k == mk,
                    max_k <= 8,
                    k <= max_k + 1,
                    v@.len() == m,
                    2 <= m <= 8,
                    forall|x: nat|
                        x < m ==> (v@[x as int] <==> exists|k2: nat|
                            k2 < k && x == #[trigger] vec_residue(
                                len_width as nat,
                                k2,
                                size as nat,
                                m as nat,
                            )),
                decreases max_k + 1 - k,
            {
                proof {
                    assert(k as u128 * size as u128 <= 16 * 0xFFFF_FFFF_FFFF_FFFFu128) by (nonlinear_arith)
                        requires
                            k <= 16,
                            size <= 0xFFFF_FFFF_FFFF_FFFFu64,
                    ;
                }
                let r = ((len_width as u128 + k as u128 * size as u128) % m as u128) as usize;
                let ghost before = v@;
                v.set(r, true);
                proof {
                    assert(r == vec_residue(len_width as nat, k as nat, size as nat, m as nat));
                    assert forall|x: nat|
                        x < m implies (v@[x as int] <==> exists|k2: nat|
                            k2 < k + 1 && x == #[trigger] vec_residue(
                                len_width as nat,
                                k2,
                                size as nat,
                                m as nat,
                            )) by {
                        if x == r {
                            assert(x == vec_residue(len_width as nat, k as nat, size as nat, m as nat));
                        } else {
                            if exists|k2: nat|
                                k2 < k + 1 && x == #[trigger] vec_residue(
                                    len_width as nat,
                                    k2,
                                    size as nat,
                                    m as nat,
                                ) {
                                let k2 = choose|k2: nat|
                                    k2 < k + 1 && x == #[trigger] vec_residue(
                                        len_width as nat,
                                        k2,
                                        size as nat,
                                        m as nat,
                                    );
                                assert(k2 != k);
                                assert(before[x as int]);
                            }
                        }
                    }
                }
                k = k + 1;
            }
            proof {
                assert(bits_set(v@) =~= len_residues(f, m as nat)) by {
                    assert forall|x: nat| #[trigger] len_residues(f, m as nat).contains(x) implies bits_set(v@).contains(x) by {
                        let k2 = choose|k2: nat|
                            k2 <= mk && x == #[trigger] vec_residue(len_width as nat, k2, size as nat, m as nat);
                        assert(k2 < k);
                    }
                }
            }
            v
        },
    }
}

} // verus!

verus! {

pub open spec fn hit(cur: Seq<bool>, lens: Seq<bool>, m: nat, r: nat, l: nat, x: nat) -> bool {
    r < m && l < m && cur[r as int] && lens[l as int] && x == (r + l) % m
}

/// The residues `(r + l) % m` for marked `r` and `l`.
fn combine_bits(cur: &Vec<bool>, lens: &Vec<bool>, m: usize) -> (next: Vec<bool>)
    requires
        cur@.len() == m,
        lens@.len() == m,
        1 <= m <= 8,
    ensures
        next@.len() == m,
        bits_set(next@) == Set::new(
            |x: nat|
                exists|r: nat, l: nat|
                    bits_set(cur@).contains(r) && bits_set(lens@).contains(l) && x == (r + l) % (m as nat),
        ),
{
    let mut next = empty_bits(m);
    let mut r: usize = 0;
    while r < m
        invariant
            cur@.len() == m,
            lens@.len() == m,
            1 <= m <= 8,
            r <= m,
            next@.len() == m,
            forall|x: nat|
                x < m ==> (next@[x as int] <==> exists|r2: nat, l2: nat|
                    r2 < r && #[trigger] hit(cur@, lens@, m as nat, r2, l2, x)),
        decreases m - r,
    {
        let mut l: usize = 0;
        while l < m
            invariant
                cur@.len() == m,
                lens@.len() == m,
                1 <= m <= 8,
                r < m,
                l <= m,
                next@.len() == m,
                forall|x: nat|
                    x < m ==> (next@[x as int] <==> exists|r2: nat, l2: nat|
                        (r2 < r || (r2 == r && l2 < l)) && #[trigger] hit(
                            cur@,
                            lens@,
                            m as nat,
                            r2,
                            l2,
                            x,
                        )),
            decreases m - l,
        {
            if cur[r] && lens[l] {
                let y = (r + l) % m;
                let ghost before = next@;
                next.set(y, true);
                proof {
                    assert(hit(cur@, lens@, m as nat, r as nat, l as nat, y as nat));
                    assert forall|x: nat|
                        x < m implies (next@[x as int] <==> exists|r2: nat, l2: nat|
                            (r2 < r || (r2 == r && l2 < l + 1)) && #[trigger] hit(
                                cur@,
                                lens@,
                                m as nat,
                                r2,
                                l2,
                                x,
                            )) by {
                        if x != y {
                            if exists|r2: nat, l2: nat|
                                (r2 < r || (r2 == r && l2 < l + 1)) && #[trigger] hit(
                                    cur@,
                                    lens@,
                                    m as nat,
                                    r2,
                                    l2,
                                    x,
                                ) {
                                let (r2, l2) = choose|r2: nat, l2: nat|
                                    (r2 < r || (r2 == r && l2 < l + 1)) && #[trigger] hit(
                                        cur@,
                                        lens@,
                                        m as nat,
                                        r2,
                                        l2,
                                        x,
                                    );
                                assert(!(r2 == r && l2 == l));
                                assert(before[x as int]);
                            }
                        }
                    }
                }
            } else {
                proof {
                    assert forall|x: nat|
                        x < m implies (next@[x as int] <==> exists|r2: nat, l2: nat|
                            (r2 < r || (r2 == r && l2 < l + 1)) && #[trigger] hit(
                                cur@,
                                lens@,
                                m as nat,
                                r2,
                                l2,
                                x,
                            )) by {
                        if exists|r2: nat, l2: nat|
                            (r2 < r || (r2 == r && l2 < l + 1)) && #[trigger] hit(
                                cur@,
                                lens@,
                                m as nat,
                                r2,
                                l2,
                                x,
                            ) {
                            let (r2, l2) = choose|r2: nat, l2: nat|
                                (r2 < r || (r2 == r && l2 < l + 1)) && #[trigger] hit(
                                    cur@,
                                    lens@,
                                    m as nat,
                                    r2,
                                    l2,
                                    x,
                                );
                            assert(!(r2 == r && l2 == l));
                        }
                    }
                }
            }
            l = l + 1;
        }
        proof {
            assert forall|x: nat|
                x < m implies (next@[x as int] <==> exists|r2: nat, l2: nat|
                    r2 < r + 1 && #[trigger] hit(cur@, lens@, m as nat, r2, l2, x)) by {
                if exists|r2: nat, l2: nat| r2 < r + 1 && #[trigger] hit(cur@, lens@, m as nat, r2, l2, x) {
                    let (r2, l2) = choose|r2: nat, l2: nat|
                        r2 < r + 1 && #[trigger] hit(cur@, lens@, m as nat, r2, l2, x);
                    assert(r2 < r || (r2 == r && l2 < m));
                }
            }
        }
        r = r + 1;
    }
    proof {
        let spec_set = Set::new(
            |x: nat|
                exists|r: nat, l: nat|
                    bits_set(cur@).contains(r) && bits_set(lens@).contains(l) && x == (r + l) % (m as nat),
        );
        assert forall|x: nat| #[trigger] spec_set.contains(x) implies bits_set(next@).contains(x) by {
            let (r2, l2) = choose|r2: nat, l2: nat|
                bits_set(cur@).contains(r2) && bits_set(lens@).contains(l2) && x == (r2 + l2) % (m as nat);
            assert(hit(cur@, lens@, m as nat, r2, l2, x));
            lemma_mod_bound((r2 + l2) as int, m as int);
        }
        assert forall|x: nat| #[trigger] bits_set(next@).contains(x) implies spec_set.contains(x) by {
            let (r2, l2) = choose|r2: nat, l2: nat|
                r2 < m && #[trigger] hit(cur@, lens@, m as nat, r2, l2, x);
            assert(bits_set(cur@).contains(r2));
            assert(bits_set(lens@).contains(l2));
        }
        assert(bits_set(next@) =~= spec_set);
    }
    next
}

} // verus!

verus! {

/// The possible start residues, modulo `m`, of the slot of field `i`.
fn start_residue_bits(fields: &[FieldLayout], i: usize, m: usize) -> (v: Vec<bool>)
    requires
        i <= fields@.len(),
        1 <= m <= 8,
        forall|j: int| 0 <= j < fields@.len() ==> field_wf(#[trigger] fields@[j]),
    ensures
        v@.len() == m,
        bits_set(v@) == start_residues(fields@.take(i as int), m as nat),
{
    let mut cur = empty_bits(m);
    cur.set(0, true);
    proof {
        assert(fields@.take(0) =~= Seq::<FieldLayout>::empty());
        assert(bits_set(cur@) =~= set![0nat]);
    }
    let mut j: usize = 0;
    while j < i
        invariant
            i <= fields@.len(),
            1 <= m <= 8,
            forall|k: int| 0 <= k < fields@.len() ==> field_wf(#[trigger] fields@[k]),
            j <= i,
            cur@.len() == m,
            bits_set(cur@) == start_residues(fields@.take(j as int), m as nat),
        decreases i - j,
    {
        let lens = len_residue_bits(fields[j], m);
        cur = combine_bits(&cur, &lens, m);
        proof {
            let t = fields@.take(j + 1);
            assert(t.drop_last() =~= fields@.take(j as int));
            assert(t.last() == fields@[j as int]);
            assert(bits_set(cur@) =~= start_residues(t, m as nat));
        }
        j = j + 1;
    }
    cur
}

/// The residues of a bitmap moved by `k`, modulo `m`.
fn shift_bits(v: &Vec<bool>, k: usize, m: usize) -> (w: Vec<bool>)
    requires
        v@.len() == m,
        1 <= m <= 8,
        k <= 16,
    ensures
        w@.len() == m,
        bits_set(w@) == shifted(bits_set(v@), k as nat, m as nat),
{
    let mut w = empty_bits(m);
    let mut r: usize = 0;
    while r < m
        invariant
            v@.len() == m,
            1 <= m <= 8,
            k <= 16,
            r <= m,
            w@.len() == m,
            forall|x: nat|
                x < m ==> (w@[x as int] <==> exists|r2: nat|
                    r2 < r && v@[r2 as int] && x == #[trigger] shift_of(r2, k as nat, m as nat)),
        decreases m - r,
    {
        if v[r] {
            let y = (r + k) % m;
            let ghost before = w@;
            w.set(y, true);
            proof {
                assert forall|x: nat|
                    x < m implies (w@[x as int] <==> exists|r2: nat|
                        r2 < r + 1 && v@[r2 as int] && x == #[trigger] shift_of(r2, k as nat, m as nat)) by {
                    if x == y {
                        assert(x == shift_of(r as nat, k as nat, m as nat));
                    } else if exists|r2: nat|
                        r2 < r + 1 && v@[r2 as int] && x == #[trigger] shift_of(r2, k as nat, m as nat) {
                        let r2 = choose|r2: nat|
                            r2 < r + 1 && v@[r2 as int] && x == #[trigger] shift_of(r2, k as nat, m as nat);
                        assert(r2 != r);
                        assert(before[x as int]);
                    }
                }
            }
        } else {
            proof {
                assert forall|x: nat|
                    x < m implies (w@[x as int] <==> exists|r2: nat|
                        r2 < r + 1 && v@[r2 as int] && x == #[trigger] shift_of(r2, k as nat, m as nat)) by {
                    if exists|r2: nat|
                        r2 < r + 1 && v@[r2 as int] && x == #[trigger] shift_of(r2, k as nat, m as nat) {
                        let r2 = choose|r2: nat|
                            r2 < r + 1 && v@[r2 as int] && x == #[trigger] shift_of(r2, k as nat, m as nat);
                        assert(r2 != r);
                    }
                }
            }
        }
        r = r + 1;
    }
    proof {
        let s = shifted(bits_set(v@), k as nat, m as nat);
        assert forall|x: nat| #[trigger] s.contains(x) implies bits_set(w@).contains(x) by {
            let r2 = choose|r2: nat| bits_set(v@).contains(r2) && x == shift_of(r2, k as nat, m as nat);
            lemma_mod_bound((r2 + k) as int, m as int);
        }
        assert(bits_set(w@) =~= s);
    }
    w
}

/// Which residues a bitmap marks: none but 0, exactly one (which), or more.
fn classify_bits(v: &Vec<bool>, m: usize) -> (r: (bool, Option<usize>))
    requires
        v@.len() == m,
        1 <= m,
    ensures
        r.0 == (bits_set(v@) == set![0nat]),
        match r.1 {
            Some(x) => bits_set(v@) == set![x as nat],
            None => !exists|x: nat| bits_set(v@) == set![x],
        },
{
    let mut count: usize = 0;
    let mut last: usize = 0;
    let mut i: usize = 0;
    while i < m
        invariant
            v@.len() == m,
            i <= m,
            count <= i,
            count == 0 ==> forall|x: int| 0 <= x < i ==> !v@[x],
            count >= 1 ==> last < i && v@[last as int],
            count == 1 ==> forall|x: int| 0 <= x < i && x != last ==> !v@[x],
            count >= 2 ==> exists|x: int| 0 <= x < i && x != last && v@[x],
        decreases m - i,
    {
        if v[i] {
            count = count + 1;
            last = i;
        }
        i = i + 1;
    }
    proof {
        if count == 0 {
            assert forall|x: nat| !bits_set(v@).contains(x) by {}
            assert(!bits_set(v@).contains(0nat));
            assert forall|x: nat| bits_set(v@) != set![x] by {
                assert(set![x].contains(x));
            }
        } else if count == 1 {
            assert(bits_set(v@) =~= set![last as nat]);
            if bits_set(v@) == set![0nat] {
                assert(set![0nat].contains(last as nat));
            }
            if last == 0 {
                assert(bits_set(v@) =~= set![0nat]);
            }
        } else {
            let y = choose|x: int| 0 <= x < m && x != last && v@[x];
            assert(bits_set(v@).contains(y as nat));
            assert(bits_set(v@).contains(last as nat));
            assert forall|x: nat| bits_set(v@) != set![x] by {
                if bits_set(v@) == set![x] {
                    assert(set![x].contains(y as nat));
                    assert(set![x].contains(last as nat));
                }
            }
        }
    }
    if count == 1 {
        (last == 0, Some(last))
    } else {
        (false, None)
    }
}

} // verus!

verus! {

/// What borrowing field `f` needs, if anything.
fn borrow_req(f: FieldLayout) -> (r: Option<(usize, usize)>)
    ensures
        match r {
            Some((a, s)) => borrow_requirement(f) == Some((a as nat, s as nat)),
            None => borrow_requirement(f) is None,
        },
{
    match f {
        FieldLayout::Value { value, optional } => if value.is_borrowed() {
            let shift: usize = match optional {
                OptionalKind::Tagged => 1,
                _ => 0,
            };
            Some((value.align(), shift))
        } else {
            None
        },
        FieldLayout::Vec { elem, len_width } => if elem.align() > 1 {
            Some((elem.align(), len_width))
        } else {
            None
        },
    }
}

/// Whether the first `i` fields are plain values, and if so where field `i`
/// starts.
fn fixed_start(fields: &[FieldLayout], i: usize) -> (r: Option<usize>)
    requires
        i <= fields@.len(),
        max_len(fields@) <= usize::MAX,
    ensures
        match r {
            Some(n) => all_plain(fields@.take(i as int)) && n == min_len(fields@.take(i as int)),
            None => !all_plain(fields@.take(i as int)),
        },
{
    let mut n: usize = 0;
    let mut j: usize = 0;
    while j < i
        invariant
            i <= fields@.len(),
            max_len(fields@) <= usize::MAX,
            j <= i,
            all_plain(fields@.take(j as int)),
            n == min_len(fields@.take(j as int)),
            n <= max_len(fields@.take(j as int)),
        decreases i - j,
    {
        proof {
            crate::variable::lemma_encoding_step_fields(fields@, j as int);
            crate::variable::lemma_max_len_prefix(fields@, j + 1);
        }
        match fields[j] {
            FieldLayout::Value { value, optional: OptionalKind::No } => {
                n = n + value.size();
            },
            _ => {
                proof {
                    assert(fields@.take(i as int)[j as int] == fields@[j as int]);
                }
                return None;
            },
        }
        proof {
            assert forall|k: int| 0 <= k < j + 1 implies #[trigger] fields@.take(j + 1)[k] matches FieldLayout::Value {
                optional: OptionalKind::No,
                ..
            } by {
                if k < j {
                    assert(fields@.take(j + 1)[k] == fields@.take(j as int)[k]);
                }
            }
        }
        j = j + 1;
    }
    Some(n)
}

/// The check that borrowed fields can always be aligned: `Ok` exactly when
/// `alignment_check_from` finds no error, else the first error it finds.
pub fn check_alignment(fields: &[FieldLayout], bo: BufferOffset) -> (r: Result<(), SchemaError>)
    requires
        forall|j: int| 0 <= j < fields@.len() ==> field_wf(#[trigger] fields@[j]),
        max_len(fields@) <= usize::MAX,
        bo matches BufferOffset::Fixed(b) ==> b < 8,
    ensures
        r == alignment_check_from(fields@, bo, 0),
{
    let n = fields.len();
    let mut i: usize = 0;
    while i < n
        invariant
            n == fields@.len(),
            forall|j: int| 0 <= j < fields@.len() ==> field_wf(#[trigger] fields@[j]),
            max_len(fields@) <= usize::MAX,
            bo matches BufferOffset::Fixed(b) ==> b < 8,
            i <= n,
            alignment_check_from(fields@, bo, 0) == alignment_check_from(fields@, bo, i as nat),
        decreases n - i,
    {
        let ghost fs = fields@;
        match borrow_req(fields[i]) {
            None => {},
            Some((a, shift)) => {
                match bo {
                    BufferOffset::Unaligned => {
                        if a > 1 {
                            return Err(SchemaError::UnalignedBorrow { field: i, align: a });
                        }
                    },
                    BufferOffset::Fixed(b) => {
                        if a > 8 {
                            return Err(SchemaError::AlignmentAboveEight { field: i, align: a });
                        }
                        proof {
                            assert(field_wf(fs[i as int]));
                            assert(a >= 1) by {
                                assert(fs[i as int] matches FieldLayout::Value { value, .. } ==> value.wf());
                            }
                            assert(shift <= 8) by {
                                assert(fs[i as int] matches FieldLayout::Vec { len_width, .. } ==> len_width <= 8);
                            }
                        }
                        let starts = start_residue_bits(fields, i, a);
                        let sh = shift_bits(&starts, b + shift, a);
                        let (zero_only, single) = classify_bits(&sh, a);
                        if !zero_only {
                            match fixed_start(fields, i) {
                                Some(start) => {
                                    proof {
                                        crate::variable::lemma_max_len_prefix(fs, i + 1);
                                        crate::variable::lemma_encoding_step_fields(fs, i as int);
                                        crate::variable::lemma_slot_min_le_max(fs[i as int]);
                                        assert(start + shift <= max_len(fs.take(i + 1))) by {
                                            match fs[i as int] {
                                                FieldLayout::Vec { elem, len_width } => {
                                                    assert(elem.spec_size() * capacity(len_width as nat) >= 0) by (nonlinear_arith);
                                                },
                                                _ => {},
                                            }
                                            assert(min_len(fs.take(i as int)) <= max_len(fs.take(i as int))) by {
                                                crate::variable::lemma_min_len_le_max(fs.take(i as int));
                                            }
                                        }
                                    }
                                    let residue = (b + (start + shift) % a) % a;
                                    proof {
                                        vstd::arithmetic::div_mod::lemma_add_mod_noop_right(
                                            b as int,
                                            (start + shift) as int,
                                            a as int,
                                        );
                                        assert(b + start + shift == b + (start + shift));
                                    }
                                    return Err(
                                        SchemaError::MisalignedAtFixedOffset {
                                            field: i,
                                            payload_offset: start + shift,
                                            residue,
                                            align: a,
                                        },
                                    );
                                },
                                None => {},
                            }
                            match single {
                                Some(x) => {
                                    proof {
                                        let shs = shifted(
                                            start_residues(fs.take(i as int), a as nat),
                                            (b + shift) as nat,
                                            a as nat,
                                        );
                                        let c = choose|r: nat| shs == set![r];
                                        assert(shs == set![c]);
                                        assert(set![c].contains(x as nat));
                                    }
                                    return Err(
                                        SchemaError::MisalignedStable { field: i, residue: x, align: a },
                                    );
                                },
                                None => {
                                    return Err(SchemaError::MisalignedAfterVariable { field: i, align: a });
                                },
                            }
                        }
                    },
                }
            },
        }
        i = i + 1;
    }
    Ok(())
}

} // verus!

verus! {

/// A payload of `n` zero bytes.
pub open spec fn zero_bytes(n: nat) -> Seq<u8> {
    Seq::new(n, |i: int| 0u8)
}

/// The smallest value of a field: a zero payload, an absent option, or an
/// empty `Vec`.
pub open spec fn least_value(f: FieldLayout) -> FieldData {
    match f {
        FieldLayout::Value { value, optional: OptionalKind::No } => FieldData::Value(
            zero_bytes(value.spec_size()),
        ),
        FieldLayout::Value { .. } => FieldData::Optional(None),
        FieldLayout::Vec { .. } => FieldData::Items(Seq::empty()),
    }
}

pub proof fn lemma_least_value(f: FieldLayout)
    ensures
        data_shape_ok(f, least_value(f)),
        data_fits(f, least_value(f)),
{
}

/// Every slot length residue listed for a field is the slot length, modulo
/// `m`, of a value that fits the field.
pub proof fn lemma_len_residue_witness(f: FieldLayout, m: nat, l: nat) -> (d: FieldData)
    requires
        m > 0,
        field_wf(f),
        len_residues(f, m).contains(l),
    ensures
        data_shape_ok(f, d),
        data_fits(f, d),
        slot_encoding(f, d).len() % m == l,
{
    if m == 1 {
        lemma_least_value(f);
        let d = least_value(f);
        lemma_mod_bound(slot_encoding(f, d).len() as int, 1);
        d
    } else {
        match f {
            FieldLayout::Value { value, optional } => {
                let p = zero_bytes(value.spec_size());
                let some = FieldData::Optional(Some(p));
                match optional {
                    OptionalKind::No => FieldData::Value(p),
                    OptionalKind::Tagged => {
                        if l == 1nat % m {
                            FieldData::Optional(None)
                        } else {
                            assert(slot_encoding(f, some).len() == 1 + value.spec_size());
                            some
                        }
                    },
                    OptionalKind::Implicit(_) => {
                        if l == 0 {
                            lemma_small_mod(0, m);
                            FieldData::Optional(None)
                        } else {
                            some
                        }
                    },
                }
            },
            FieldLayout::Vec { elem, len_width } => {
                let size = elem.spec_size();
                let k = choose|k: nat|
                    k <= vec_max_k(len_width as nat, size, m) && l == #[trigger] vec_residue(
                        len_width as nat,
                        k,
                        size,
                        m,
                    );
                let items = Seq::new(k, |i: int| zero_bytes(size));
                let d = FieldData::Items(items);
                lemma_le_bytes_len(k, len_width as nat);
                assert forall|i: int| 0 <= i < items.len() implies #[trigger] items[i].len() == size by {}
                lemma_flatten_len(items, size);
                assert(forall|i: int| 0 <= i < items.len() ==> payload_ok(elem, #[trigger] items[i]));
                d
            },
        }
    }
}

/// Every start residue listed for the slot after `fields` is the length,
/// modulo `m`, of the encoding of a record that fits them.
pub proof fn lemma_start_residue_witness(fields: Seq<FieldLayout>, m: nat, r: nat) -> (data: Seq<
    FieldData,
>)
    requires
        m > 0,
        forall|j: int| 0 <= j < fields.len() ==> field_wf(#[trigger] fields[j]),
        start_residues(fields, m).contains(r),
    ensures
        shapes_ok(fields, data),
        all_fit(fields, data),
        encoding(fields, data).len() % m == r,
    decreases fields.len(),
{
    if fields.len() == 0 {
        lemma_small_mod(0, m);
        Seq::empty()
    } else {
        let n = fields.len() - 1;
        let prev = fields.drop_last();
        let (r0, l) = choose|r0: nat, l: nat|
            start_residues(prev, m).contains(r0) && len_residues(fields.last(), m).contains(l) && r
                == (r0 + l) % m;
        assert(forall|j: int| 0 <= j < prev.len() ==> field_wf(#[trigger] prev[j])) by {
            assert(forall|j: int| 0 <= j < prev.len() ==> prev[j] == fields[j]);
        }
        let data0 = lemma_start_residue_witness(prev, m, r0);
        let d = lemma_len_residue_witness(fields.last(), m, l);
        let data = data0.push(d);
        assert(data.take(n) =~= data0);
        let e0 = encoding(prev, data0).len();
        let s = slot_encoding(fields.last(), d).len();
        assert(encoding(fields, data).len() == e0 + s);
        lemma_add_mod_noop(e0 as int, s as int, m as int);
        lemma_mod_bound(r0 as int, m as int);
        lemma_mod_bound(l as int, m as int);
        assert(forall|j: int| 0 <= j < n ==> data[j] == data0[j] && fields[j] == prev[j]);
        data
    }
}

/// The alignment check is complete: when it rejects a borrowed field of a
/// layout with a fixed buffer offset `b` (other than for an alignment above
/// 8), some record that fits the layout puts that field's payload at an
/// address that is not a multiple of its alignment.
pub proof fn lemma_rejected_field_misaligned(fields: Seq<FieldLayout>, b: usize, i: int) -> (data:
    Seq<FieldData>)
    requires
        forall|j: int| 0 <= j < fields.len() ==> field_wf(#[trigger] fields[j]),
        0 <= i < fields.len(),
        borrow_requirement(fields[i]) matches Some((a, _)) && a <= 8,
        alignment_error(fields, BufferOffset::Fixed(b), i) is Some,
    ensures
        shapes_ok(fields, data),
        all_fit(fields, data),
        borrow_requirement(fields[i]) matches Some((a, shift)) && (b + encoding(
            fields.take(i),
            data.take(i),
        ).len() + shift) % (a as int) != 0,
{
    let (a, shift) = borrow_requirement(fields[i])->Some_0;
    let front = fields.take(i);
    assert(a > 0) by {
        assert(field_wf(fields[i]));
        assert(fields[i] matches FieldLayout::Value { value, .. } ==> value.wf());
    }
    assert(forall|j: int| 0 <= j < front.len() ==> field_wf(#[trigger] front[j])) by {
        assert(forall|j: int| 0 <= j < front.len() ==> front[j] == fields[j]);
    }
    let starts = start_residues(front, a);
    let sh = shifted(starts, (b + shift) as nat, a);
    assert(sh != set![0nat]);
    // Some start is listed: that of the smallest record.
    let least = Seq::new(front.len(), |j: int| least_value(front[j]));
    assert forall|j: int| 0 <= j < front.len() implies data_shape_ok(front[j], least[j]) && data_fits(
        front[j],
        least[j],
    ) by {
        lemma_least_value(front[j]);
    }
    crate::residue::lemma_start_residue(front, least, a, front.len() as int);
    assert(front.take(front.len() as int) =~= front);
    assert(least.take(least.len() as int) =~= least);
    let r_any = encoding(front, least).len() % a;
    assert(starts.contains(r_any));
    assert(sh.contains(shift_of(r_any, (b + shift) as nat, a)));
    // Some listed start does not give an aligned payload.
    let x = if shift_of(r_any, (b + shift) as nat, a) != 0 {
        shift_of(r_any, (b + shift) as nat, a)
    } else {
        assert(exists|x: nat| sh.contains(x) && x != 0) by {
            if forall|x: nat| sh.contains(x) ==> x == 0 {
                assert(sh =~= set![0nat]);
            }
        }
        choose|x: nat| sh.contains(x) && x != 0
    };
    let r0 = choose|r0: nat| starts.contains(r0) && x == shift_of(r0, (b + shift) as nat, a);
    let data0 = lemma_start_residue_witness(front, a, r0);
    let rest = Seq::new((fields.len() - i) as nat, |j: int| least_value(fields[i + j]));
    let data = data0 + rest;
    assert(data.take(i) =~= data0);
    assert forall|j: int| 0 <= j < fields.len() implies data_shape_ok(fields[j], data[j]) && data_fits(
        fields[j],
        data[j],
    ) by {
        if j < i {
            assert(data[j] == data0[j]);
            assert(front[j] == fields[j]);
        } else {
            assert(data[j] == rest[j - i]);
            lemma_least_value(fields[j]);
        }
    }
    let e = encoding(front, data0).len();
    lemma_add_mod_noop(e as int, (b + shift) as int, a as int);
    lemma_mod_bound((b + shift) as int, a as int);
    lemma_mod_bound(e as int, a as int);
    lemma_add_mod_noop(r0 as int, (b + shift) as int, a as int);
    lemma_small_mod(r0, a);
    assert((e + (b + shift)) % (a as int) == x);
    assert(b + e + shift == e + (b + shift));
    data
}

/// The alignment check of a layout with a fixed buffer offset `b` fails,
/// other than for an alignment above 8, only when some record that fits the
/// layout puts the payload of a borrowed field (from field `i` on) at an
/// address that is not a multiple of its alignment.
pub proof fn lemma_alignment_check_complete(fields: Seq<FieldLayout>, b: usize, i: nat) -> (r: (
    int,
    Seq<FieldData>,
))
    requires
        forall|j: int| 0 <= j < fields.len() ==> field_wf(#[trigger] fields[j]),
        alignment_check_from(fields, BufferOffset::Fixed(b), i) matches Err(e) && !(
        e is AlignmentAboveEight),
    ensures
        i <= r.0 < fields.len(),
        shapes_ok(fields, r.1),
        all_fit(fields, r.1),
        borrow_requirement(fields[r.0]) matches Some((a, shift)) && (b + encoding(
            fields.take(r.0),
            r.1.take(r.0),
        ).len() + shift) % (a as int) != 0,
    decreases fields.len() - i,
{
    match alignment_error(fields, BufferOffset::Fixed(b), i as int) {
        Some(e) => {
            let data = lemma_rejected_field_misaligned(fields, b, i as int);
            (i as int, data)
        },
        None => lemma_alignment_check_complete(fields, b, i + 1),
    }
}

} // verus!
