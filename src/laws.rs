//! Laws of masks and of the accessors.
use vstd::prelude::*;
use crate::bitfield::{BitfieldView, bitfield_wf};
use crate::codegen::{mask_view, value_view};
use crate::expand::view_valid;
use crate::layout::width_spec;
use crate::field::{
    Field, Packed, fits, bit_set, contains_spec, get_literal_spec, mask_spec, popcount, set_literal_spec,
    set_spec, unset_spec,
};

verus! {

proof fn lemma_low_ones_bit(k: u128, j: u128)
    by (bit_vector)
    requires
        k < 128,
        j < 128,
    ensures
        ((u128::MAX >> k) >> j) & 1 == 1 <==> j + k < 128,
{
}

proof fn lemma_shl_bit(x: u128, s: u128, i: u128)
    by (bit_vector)
    requires
        s < 128,
        i < 128,
    ensures
        ((x << s) >> i) & 1 == 1 <==> (s <= i && (x >> ((i - s) as u128)) & 1 == 1),
{
}

proof fn lemma_mask_bit(start: u128, end: u128, i: u128)
    requires
        start <= end < 128,
        i < 128,
    ensures
        bit_set(mask_spec(start, end), i) == (start <= i && i <= end),
{
    let k = (127 - (end - start)) as u128;
    lemma_shl_bit(u128::MAX >> k, start, i);
    if start <= i {
        lemma_low_ones_bit(k, (i - start) as u128);
    }
}

proof fn lemma_mask_formula(start: u128, end: u128)
    by (bit_vector)
    requires
        start <= end < 128,
    ensures
        end - start + 1 < 128 ==> mask_spec(start, end) == ((((1u128 << ((end - start
            + 1) as u128)) - 1) as u128) << start),
        end - start + 1 == 128 ==> mask_spec(start, end) == u128::MAX,
{
}

proof fn lemma_popcount_mask(start: u128, end: u128, n: nat)
    requires
        start <= end < 128,
        n <= 128,
    ensures
        popcount(mask_spec(start, end), n) == if n <= start {
            0
        } else if n <= end + 1 {
            n - start
        } else {
            end - start + 1
        },
    decreases n,
{
    if n > 0 {
        lemma_popcount_mask(start, end, (n - 1) as nat);
        lemma_mask_bit(start, end, (n - 1) as u128);
    }
}

/// The mask of the range `start..=end` has a one exactly at the positions of
/// the range, equals `((1 << len) - 1) << start` for `len = end - start + 1`
/// (all ones when the range spans 128 bits), and has `len` one bits.
pub proof fn lemma_mask_correct(start: u128, end: u128)
    requires
        start <= end < 128,
    ensures
        forall|i: u128| i < 128 ==> (bit_set(#[trigger] mask_spec(start, end), i) <==> start <= i <= end),
        end - start + 1 < 128 ==> mask_spec(start, end) == ((((1u128 << ((end - start
            + 1) as u128)) - 1) as u128) << start),
        end - start + 1 == 128 ==> mask_spec(start, end) == u128::MAX,
        popcount(mask_spec(start, end), 128) == end - start + 1,
{
    assert forall|i: u128| i < 128 implies (bit_set(#[trigger] mask_spec(start, end), i) <==> start
        <= i <= end) by {
        lemma_mask_bit(start, end, i);
    }
    lemma_mask_formula(start, end);
    lemma_popcount_mask(start, end, 128);
}

/// Wrapping a raw pattern and unwrapping it gives the pattern back.
pub proof fn lemma_round_trip(r: u128)
    ensures
        (Packed { bits: r }).bits == r,
{
}

proof fn lemma_set_bits(r: u128, m: u128, v: u128)
    by (bit_vector)
    requires
        v & !m == 0,
    ensures
        ((r & !m) | v) & m == v,
{
}

/// After setting a field, the value holds that field, whatever it held
/// before; a counter is held in any case.
pub proof fn lemma_set_contains(r: u128, f: Field)
    requires
        f.wf(),
    ensures
        contains_spec(set_spec(r, f), f),
{
    lemma_set_bits(r, f.mask, f.value);
}

/// Unsetting a field clears exactly the bits of its mask.
pub proof fn lemma_unset_clears_mask(r: u128, f: Field)
    ensures
        unset_spec(r, f) == r & !f.mask,
{
}

proof fn lemma_keep_masked(r: u128, w: u128, m: u128)
    by (bit_vector)
    ensures
        ((r & !m) | (w & m)) & m == w & m,
{
}

#[verifier::rlimit(100)]
proof fn lemma_and_shl(v: u128, l: u128, s: u128)
    by (bit_vector)
    requires
        s < 128,
    ensures
        (v << s) & (l << s) == (v & l) << s,
{
}

proof fn lemma_shl_shr_low_ones(v: u128, k: u128, s: u128)
    by (bit_vector)
    requires
        s <= k < 128,
    ensures
        ((v & (u128::MAX >> k)) << s) >> s == v & (u128::MAX >> k),
{
}

proof fn lemma_literal_bits(r: u128, v: u128, start: u128, end: u128)
    requires
        start <= end < 128,
    ensures
        ((((r & !mask_spec(start, end)) | ((v << start) & mask_spec(start, end))) & mask_spec(
            start,
            end,
        )) >> start) == v & (u128::MAX >> ((127 - (end - start)) as u128)),
{
    let k = (127 - (end - start)) as u128;
    let m = mask_spec(start, end);
    lemma_keep_masked(r, v << start, m);
    lemma_and_shl(v, u128::MAX >> k, start);
    lemma_shl_shr_low_ones(v, k, start);
}

proof fn lemma_low_ones_formula(len: u128, v: u128)
    by (bit_vector)
    requires
        1 <= len < 128,
    ensures
        u128::MAX >> ((128 - len) as u128) == (((1u128 << len) - 1) as u128),
        v >> len == 0 ==> v & (u128::MAX >> ((128 - len) as u128)) == v,
{
}

/// Writing a literal into a field and reading the field back gives the
/// literal cut to the field's width: `v & ((1 << len) - 1)`, all of `v` when
/// the field spans 128 bits, and `v` itself when `v` fits in the field.
pub proof fn lemma_literal_round_trip(r: u128, f: Field, v: u128)
    requires
        f.wf(),
    ensures
        get_literal_spec(set_literal_spec(r, f, v), f) == v & (u128::MAX >> ((128
            - f.len()) as u128)),
        f.len() < 128 ==> get_literal_spec(set_literal_spec(r, f, v), f) == v & ((((1u128
            << f.len()) - 1) as u128)),
        f.len() == 128 ==> get_literal_spec(set_literal_spec(r, f, v), f) == v,
        f.len() < 128 && v >> f.len() == 0 ==> get_literal_spec(set_literal_spec(r, f, v), f)
            == v,
{
    lemma_literal_bits(r, v, f.start_bit, f.end_bit);
    if f.len() < 128 {
        lemma_low_ones_formula(f.len(), v);
    } else {
        assert(v & (u128::MAX >> 0u128) == v) by (bit_vector);
    }
}

proof fn lemma_mask_fits(start: u128, end: u128, w: u128)
    by (bit_vector)
    requires
        start <= end < w,
        w < 128,
    ensures
        mask_spec(start, end) >> w == 0,
{
}

proof fn lemma_fits_ops(raw: u128, m: u128, v: u128, w: u128)
    by (bit_vector)
    requires
        raw >> w == 0,
        m >> w == 0,
        w < 128,
    ensures
        ((raw & !m) | (v & m)) >> w == 0,
        (raw & !m) >> w == 0,
        (raw & m) >> w == 0,
{
}

proof fn lemma_shr_fits(x: u128, s: u128, w: u128)
    by (bit_vector)
    requires
        x >> w == 0,
        w < 128,
        s < 128,
    ensures
        (x >> s) >> w == 0,
{
}

/// The operations keep a value within the width `w` of its backing type
/// when the field lies within that width: no bit at position `w` or above
/// is ever set, so the arithmetic on 128 bits agrees with the arithmetic on
/// the backing type.
pub proof fn lemma_ops_stay_in_width(raw: u128, f: Field, v: u128, w: u128)
    requires
        f.wf(),
        f.end_bit < w <= 128,
        fits(raw, w),
    ensures
        fits(set_spec(raw, f), w),
        fits(unset_spec(raw, f), w),
        fits(set_literal_spec(raw, f, v), w),
        fits(get_literal_spec(raw, f), w),
{
    if w < 128 {
        lemma_mask_fits(f.start_bit, f.end_bit, w);
        let val = f.value;
        let m = f.mask;
        assert(val == val & m) by (bit_vector)
            requires
                val & !m == 0,
        ;
        lemma_fits_ops(raw, f.mask, f.value, w);
        lemma_fits_ops(raw, f.mask, v << f.start_bit, w);
        lemma_shr_fits(raw & f.mask, f.start_bit, w);
    }
}

/// The constants generated for a valid declaration obey the laws, in the
/// width `w` of its backing type. For field `k` with bits `s..=e`, mask
/// literal `m` and value literal `v`: `m` has a one exactly at the bits of
/// the field, equals `((1 << len) - 1) << s`, and has `len = e - s + 1` one
/// bits; `v` lies within `m`; setting the field on any raw value `r` of the
/// backing type makes the field held (`(r' & m) == v`); unsetting clears
/// exactly `m`; writing a literal and reading it back gives the literal cut
/// to `len` bits; and no result leaves the backing width. (A value that is
/// not foldable is printed as written, and the compiler of the generated
/// code computes its number.)
pub proof fn lemma_generated_constants(x: BitfieldView, k: int, r: u128, lit: u128)
    requires
        bitfield_wf(x),
        view_valid(x),
        0 <= k < x.fields.len(),
        crate::expr::expr_ok(x.fields[k].value),
        fits(r, width_spec(x.ty)->Some_0 as u128),
    ensures
        ({
            let w = width_spec(x.ty)->Some_0;
            let f = x.fields[k];
            let m = mask_view(f);
            let v = value_view(f, w);
            &&& forall|i: u128| i < 128 ==> (bit_set(#[trigger] mask_spec(f.start, f.end), i) <==> f.start
                <= i <= f.end)
            &&& f.end - f.start + 1 < 128 ==> m == ((((1u128 << ((f.end - f.start + 1) as u128))
                - 1) as u128) << f.start)
            &&& f.end - f.start + 1 == 128 ==> m == u128::MAX
            &&& popcount(m, 128) == f.end - f.start + 1
            &&& fits(m, w as u128)
            &&& v & !m == 0
            &&& ((r & !m) | v) & m == v
            &&& fits((r & !m) | v, w as u128)
            &&& fits(r & !m, w as u128)
            &&& ((((r & !m) | ((lit << f.start) & m)) & m) >> f.start) == lit & (u128::MAX >> ((127
                - (f.end - f.start)) as u128))
            &&& fits((r & !m) | ((lit << f.start) & m), w as u128)
        }),
{
    let w = width_spec(x.ty)->Some_0;
    let f = x.fields[k];
    assert(f.start <= f.end < w);
    let m = mask_view(f);
    let v = value_view(f, w);
    lemma_mask_correct(f.start, f.end);
    crate::layout::lemma_value_in_mask(crate::expr::expr_eval(f.value, w) << f.start, m);
    lemma_set_bits(r, m, v);
    lemma_literal_bits(r, lit, f.start, f.end);
    if w < 128 {
        lemma_mask_fits(f.start, f.end, w as u128);
        assert(v == v & m) by (bit_vector)
            requires
                v & !m == 0,
        ;
        lemma_fits_ops(r, m, v, w as u128);
        lemma_fits_ops(r, m, lit << f.start, w as u128);
    }
}

} // verus!
