//! Validation of a declaration, the errors it reports, the runtime records
//! of its fields, and the rendering of a value as the flags it holds.
use vstd::prelude::*;
use crate::bitfield::{self, Bitfield, str_eq};
use crate::expr::{eval_expr, expr_eval, expr_fits, expr_fits_exec, expr_ok, expr_ok_exec};
use crate::lexer::{Spanned, Tok, Token, toks_of};
use crate::field::{Field, Packed, contains_spec, get_literal_spec, mask_spec};
use crate::text::{decimal, push_char, push_decimal};

verus! {

/// Which bound of a field's range lies outside the backing type.
#[derive(Clone, Copy, PartialEq, Eq, Structural, Debug)]
pub enum Bound {
    Start,
    End,
}

/// The kinds of error that a declaration can have.
#[derive(Clone, Copy, PartialEq, Eq, Structural, Debug)]
pub enum ErrorKind {
    /// The text does not follow the declaration grammar.
    Syntax,
    /// The backing type is not one of `u8`, `u16`, `u32`, `u64`, `u128`.
    UnsupportedBackingType,
    /// A field's start bit is greater than its end bit.
    RangeOrder,
    /// A field's bound is not below the width of the backing type.
    OutOfRange(Bound),
    /// A field's foldable value does not evaluate in the backing type: a
    /// literal or a result past its largest value, a difference below zero,
    /// or a shift by its width or more.
    ValueOverflow,
    /// A field's value is not foldable (it names a constant, casts,
    /// divides...), so the runtime layout, which needs its number, cannot be
    /// built. Generated code is not affected: it keeps such a value as
    /// written.
    ValueNotConstant,
}

/// An error of a declaration, with the character offset it refers to.
#[derive(Clone, Copy, PartialEq, Eq, Structural, Debug)]
pub struct Error {
    pub kind: ErrorKind,
    pub pos: usize,
}

impl Error {
    /// A short description of the error.
    pub fn message(&self) -> (r: &'static str)
        ensures
            r@ == message_spec(self.kind),
    {
        match self.kind {
            ErrorKind::Syntax => "unexpected input in bitfield declaration",
            ErrorKind::UnsupportedBackingType => "Type must be one of u8, u16, u32, u64, or u128",
            ErrorKind::RangeOrder => "Start bit must not be greater than end bit",
            ErrorKind::OutOfRange(Bound::Start) => "Start bit must be less than underlying size",
            ErrorKind::OutOfRange(Bound::End) => "End bit must be less than underlying size",
            ErrorKind::ValueOverflow => "Value does not fit in the underlying type",
            ErrorKind::ValueNotConstant => "Value is not a literal constant expression",
        }
    }
}

/// The description of each kind of error.
pub open spec fn message_spec(kind: ErrorKind) -> Seq<char> {
    match kind {
        ErrorKind::Syntax => "unexpected input in bitfield declaration"@,
        ErrorKind::UnsupportedBackingType => "Type must be one of u8, u16, u32, u64, or u128"@,
        ErrorKind::RangeOrder => "Start bit must not be greater than end bit"@,
        ErrorKind::OutOfRange(Bound::Start) => "Start bit must be less than underlying size"@,
        ErrorKind::OutOfRange(Bound::End) => "End bit must be less than underlying size"@,
        ErrorKind::ValueOverflow => "Value does not fit in the underlying type"@,
        ErrorKind::ValueNotConstant => "Value is not a literal constant expression"@,
    }
}

/// The width in bits of a backing type written as its tokens: only the
/// single names `u8`, `u16`, `u32`, `u64` and `u128` are supported.
pub open spec fn width_spec(ty: Seq<Tok>) -> Option<u32> {
    if ty.len() == 1 && ty[0] is Ident {
        width_name(ty[0]->Ident_0)
    } else {
        None
    }
}

/// The width in bits of a supported backing type, by its name.
pub open spec fn width_name(ty: Seq<char>) -> Option<u32> {
    if ty == "u8"@ {
        Some(8)
    } else if ty == "u16"@ {
        Some(16)
    } else if ty == "u32"@ {
        Some(32)
    } else if ty == "u64"@ {
        Some(64)
    } else if ty == "u128"@ {
        Some(128)
    } else {
        None
    }
}

/// The width in bits of the backing type named `ty`, if it is supported.
pub fn width_of(ty: &str) -> (r: Option<u32>)
    ensures
        r == width_name(ty@),
{
    if str_eq(ty, "u8") {
        Some(8)
    } else if str_eq(ty, "u16") {
        Some(16)
    } else if str_eq(ty, "u32") {
        Some(32)
    } else if str_eq(ty, "u64") {
        Some(64)
    } else if str_eq(ty, "u128") {
        Some(128)
    } else {
        None
    }
}

/// Where a field's value starts (the start bit when it has no token).
pub open spec fn value_pos(f: bitfield::Field) -> usize {
    if f.value.tokens@.len() > 0 {
        f.value.tokens@[0].pos
    } else {
        f.start_bit.pos
    }
}

/// The first failing check of one field, in the order: the range is
/// ordered, the start bit is in range, the end bit is in range, a foldable
/// value evaluates in the backing type.
pub open spec fn field_error(f: bitfield::Field, width: u32) -> Option<Error> {
    if f.start_bit.value > f.end_bit.value {
        Some(Error { kind: ErrorKind::RangeOrder, pos: f.start_bit.pos })
    } else if f.start_bit.value >= width {
        Some(Error { kind: ErrorKind::OutOfRange(Bound::Start), pos: f.start_bit.pos })
    } else if f.end_bit.value >= width {
        Some(Error { kind: ErrorKind::OutOfRange(Bound::End), pos: f.end_bit.pos })
    } else if expr_ok(f.value.view()) && !expr_fits(f.value.view(), width) {
        Some(Error { kind: ErrorKind::ValueOverflow, pos: value_pos(f) })
    } else {
        None
    }
}

fn value_pos_exec(f: &bitfield::Field) -> (r: usize)
    ensures
        r == value_pos(*f),
{
    if f.value.tokens.len() > 0 {
        f.value.tokens[0].pos
    } else {
        f.start_bit.pos
    }
}

/// The errors of the fields, in declaration order, one at most per field.
pub open spec fn fields_errors(fs: Seq<bitfield::Field>, width: u32) -> Seq<Error>
    decreases fs.len(),
{
    if fs.len() == 0 {
        Seq::empty()
    } else {
        let prev = fields_errors(fs.drop_last(), width);
        match field_error(fs.last(), width) {
            Some(e) => prev.push(e),
            None => prev,
        }
    }
}

/// Checks one field against the width of the backing type.
pub fn check_field(f: &bitfield::Field, width: u32) -> (r: Option<Error>)
    requires
        1 <= width <= 128,
    ensures
        r == field_error(*f, width),
{
    if f.start_bit.value > f.end_bit.value {
        Some(Error { kind: ErrorKind::RangeOrder, pos: f.start_bit.pos })
    } else if f.start_bit.value >= width as u128 {
        Some(Error { kind: ErrorKind::OutOfRange(Bound::Start), pos: f.start_bit.pos })
    } else if f.end_bit.value >= width as u128 {
        Some(Error { kind: ErrorKind::OutOfRange(Bound::End), pos: f.end_bit.pos })
    } else if expr_ok_exec(&f.value.tokens) && !expr_fits_exec(&f.value.tokens, width) {
        Some(Error { kind: ErrorKind::ValueOverflow, pos: value_pos_exec(f) })
    } else {
        None
    }
}

/// What a declaration validates to: the width of its backing type, or its
/// errors. An unsupported backing type is the only error then reported;
/// otherwise every field is checked and each failing one reported.
pub open spec fn validate_spec(b: Bitfield) -> Result<u32, Seq<Error>> {
    match width_spec(toks_of(b.ty@)) {
        None => Err(seq![Error { kind: ErrorKind::UnsupportedBackingType, pos: b.ty_pos }]),
        Some(w) => if fields_errors(b.fields@, w).len() == 0 {
            Ok(w)
        } else {
            Err(fields_errors(b.fields@, w))
        },
    }
}

/// Validates a declaration: returns the width of its backing type, or all
/// its errors.
pub fn validate(b: &Bitfield) -> (r: Result<u32, Vec<Error>>)
    ensures
        r matches Ok(w) ==> validate_spec(*b) == Ok::<u32, Seq<Error>>(w),
        r matches Err(es) ==> validate_spec(*b) == Err::<u32, Seq<Error>>(es@),
{
    let width = match ty_width(&b.ty) {
        Some(w) => w,
        None => {
            let mut es: Vec<Error> = Vec::new();
            es.push(Error { kind: ErrorKind::UnsupportedBackingType, pos: b.ty_pos });
            assert(es@ =~= seq![Error { kind: ErrorKind::UnsupportedBackingType, pos: b.ty_pos }]);
            return Err(es);
        },
    };
    let mut es: Vec<Error> = Vec::new();
    let mut k: usize = 0;
    while k < b.fields.len()
        invariant
            k <= b.fields@.len(),
            1 <= width <= 128,
            es@ == fields_errors(b.fields@.subrange(0, k as int), width),
        decreases b.fields@.len() - k,
    {
        let e = check_field(&b.fields[k], width);
        proof {
            let s = b.fields@.subrange(0, k + 1);
            assert(s.drop_last() =~= b.fields@.subrange(0, k as int));
            assert(s.last() == b.fields@[k as int]);
        }
        match e {
            Some(e) => es.push(e),
            None => {},
        }
        k = k + 1;
    }
    assert(b.fields@.subrange(0, b.fields@.len() as int) =~= b.fields@);
    if es.len() == 0 {
        Ok(width)
    } else {
        Err(es)
    }
}

/// The width of the backing type written as the tokens `ty`.
pub fn ty_width(ty: &Vec<Spanned>) -> (r: Option<u32>)
    ensures
        r == width_spec(toks_of(ty@)),
{
    if ty.len() != 1 {
        return None;
    }
    match &ty[0].token {
        Token::Ident(s) => width_of(s.as_str()),
        _ => None,
    }
}

/// The runtime record of a declared field: its mask, and its value, as the
/// expression evaluates in width `w`, shifted to the start bit and clipped
/// to the mask.
pub open spec fn record_of(f: bitfield::Field, w: u32) -> Field {
    Field {
        name: f.name,
        start_bit: f.start_bit.value,
        end_bit: f.end_bit.value,
        mask: mask_spec(f.start_bit.value, f.end_bit.value),
        value: (expr_eval(f.value.view(), w) << f.start_bit.value) & mask_spec(
            f.start_bit.value,
            f.end_bit.value,
        ),
        is_counter: f.is_counter,
    }
}

/// A validated declaration: the name of the type, the width of its backing
/// type, and the record of each field in declaration order.
pub struct Layout {
    pub name: String,
    pub bits: u32,
    pub fields: Vec<Field>,
}

impl Layout {
    pub open spec fn wf(&self) -> bool {
        &&& self.bits == 8 || self.bits == 16 || self.bits == 32 || self.bits == 64 || self.bits
            == 128
        &&& forall|k: int|
            0 <= k < self.fields@.len() ==> (#[trigger] self.fields@[k]).wf()
                && self.fields@[k].end_bit < self.bits
    }
}

/// The mask of the range `start..=end`.
pub fn mask_of(start: u128, end: u128) -> (r: u128)
    requires
        start <= end < 128,
    ensures
        r == mask_spec(start, end),
{
    (u128::MAX >> (127 - (end - start))) << start
}

pub(crate) proof fn lemma_value_in_mask(v: u128, m: u128)
    by (bit_vector)
    ensures
        (v & m) & !m == 0,
{
}

/// The runtime record of a field that passed validation.
pub fn to_record(f: &bitfield::Field, width: u32) -> (r: Field)
    requires
        field_error(*f, width) is None,
        expr_ok(f.value.view()),
        1 <= width <= 128,
    ensures
        r == record_of(*f, width),
        r.wf(),
{
    let start = f.start_bit.value;
    let end = f.end_bit.value;
    let mask = mask_of(start, end);
    let v = eval_expr(&f.value.tokens, width);
    proof {
        lemma_value_in_mask(v << start, mask);
    }
    Field {
        name: f.name.clone(),
        start_bit: start,
        end_bit: end,
        mask,
        value: (v << start) & mask,
        is_counter: f.is_counter,
    }
}

/// One error for each field whose value is not foldable, in declaration
/// order.
pub open spec fn unfolded_errors(fs: Seq<bitfield::Field>) -> Seq<Error>
    decreases fs.len(),
{
    if fs.len() == 0 {
        Seq::empty()
    } else {
        let prev = unfolded_errors(fs.drop_last());
        if expr_ok(fs.last().value.view()) {
            prev
        } else {
            prev.push(Error { kind: ErrorKind::ValueNotConstant, pos: value_pos(fs.last()) })
        }
    }
}

/// What building the runtime layout of a declaration gives: the errors of
/// validation, else one error for each value that is not foldable, else the
/// width of the backing type.
pub open spec fn compile_spec(b: Bitfield) -> Result<u32, Seq<Error>> {
    match validate_spec(b) {
        Err(es) => Err(es),
        Ok(w) => if unfolded_errors(b.fields@).len() == 0 {
            Ok(w)
        } else {
            Err(unfolded_errors(b.fields@))
        },
    }
}

proof fn lemma_no_unfolded(fs: Seq<bitfield::Field>, k: int)
    requires
        unfolded_errors(fs).len() == 0,
        0 <= k < fs.len(),
    ensures
        expr_ok(fs[k].value.view()),
    decreases fs.len(),
{
    if k < fs.len() - 1 {
        assert(fs.drop_last()[k] == fs[k]);
        lemma_no_unfolded(fs.drop_last(), k);
    }
}

/// Validates a declaration, checks that every value is foldable, and
/// computes the record of each field.
pub fn compile(b: &Bitfield) -> (r: Result<Layout, Vec<Error>>)
    ensures
        r matches Ok(l) ==> {
            &&& l.wf()
            &&& compile_spec(*b) == Ok::<u32, Seq<Error>>(l.bits)
            &&& l.name@ == b.name@
            &&& l.fields@ == b.fields@.map_values(|f: bitfield::Field| record_of(f, l.bits))
        },
        r matches Err(es) ==> compile_spec(*b) == Err::<u32, Seq<Error>>(es@),
{
    let width = match validate(b) {
        Ok(w) => w,
        Err(es) => return Err(es),
    };
    let mut ue: Vec<Error> = Vec::new();
    let mut k: usize = 0;
    while k < b.fields.len()
        invariant
            k <= b.fields@.len(),
            ue@ == unfolded_errors(b.fields@.subrange(0, k as int)),
        decreases b.fields@.len() - k,
    {
        proof {
            let s = b.fields@.subrange(0, k + 1);
            assert(s.drop_last() =~= b.fields@.subrange(0, k as int));
            assert(s.last() == b.fields@[k as int]);
        }
        if !expr_ok_exec(&b.fields[k].value.tokens) {
            ue.push(Error { kind: ErrorKind::ValueNotConstant, pos: value_pos_exec(&b.fields[k]) });
        }
        k = k + 1;
    }
    assert(b.fields@.subrange(0, b.fields@.len() as int) =~= b.fields@);
    if ue.len() > 0 {
        return Err(ue);
    }
    proof {
        assert forall|q: int| 0 <= q < b.fields@.len() implies expr_ok(
            #[trigger] b.fields@[q].value.view(),
        ) by {
            lemma_no_unfolded(b.fields@, q);
        }
    }
    proof {
        assert forall|k: int| 0 <= k < b.fields@.len() implies field_error(
            #[trigger] b.fields@[k],
            width,
        ) is None by {
            lemma_no_errors(b.fields@, width, k);
        }
    }
    let mut fields: Vec<Field> = Vec::new();
    let mut k: usize = 0;
    while k < b.fields.len()
        invariant
            k <= b.fields@.len(),
            width_spec(toks_of(b.ty@)) == Some(width),
            forall|q: int| 0 <= q < b.fields@.len() ==> field_error(#[trigger] b.fields@[q], width) is None,
            forall|q: int| 0 <= q < b.fields@.len() ==> expr_ok(#[trigger] b.fields@[q].value.view()),
            fields@ == b.fields@.subrange(0, k as int).map_values(
                |f: bitfield::Field| record_of(f, width),
            ),
            forall|q: int|
                0 <= q < fields@.len() ==> (#[trigger] fields@[q]).wf() && fields@[q].end_bit < width,
        decreases b.fields@.len() - k,
    {
        let r = to_record(&b.fields[k], width);
        fields.push(r);
        proof {
            assert(fields@ =~= b.fields@.subrange(0, k + 1).map_values(
                |f: bitfield::Field| record_of(f, width),
            ));
        }
        k = k + 1;
    }
    assert(b.fields@.subrange(0, b.fields@.len() as int) =~= b.fields@);
    Ok(Layout { name: b.name.clone(), bits: width, fields })
}

pub(crate) proof fn lemma_no_errors(fs: Seq<bitfield::Field>, width: u32, k: int)
    requires
        fields_errors(fs, width).len() == 0,
        0 <= k < fs.len(),
    ensures
        field_error(fs[k], width) is None,
    decreases fs.len(),
{
    if k < fs.len() - 1 {
        assert(fs.drop_last()[k] == fs[k]);
        lemma_no_errors(fs.drop_last(), width, k);
    }
}

/// How a held field shows in the rendering of a value: its name, and for a
/// counter its literal in parentheses.
pub open spec fn entry_text(f: Field, raw: u128) -> Seq<char> {
    f.name@ + if f.is_counter {
        "("@ + decimal(get_literal_spec(raw, f) as nat) + ")"@
    } else {
        Seq::empty()
    }
}

/// The entries of the fields that `raw` holds, in declaration order.
pub open spec fn held_entries(fs: Seq<Field>, raw: u128) -> Seq<Seq<char>>
    decreases fs.len(),
{
    if fs.len() == 0 {
        Seq::empty()
    } else {
        let prev = held_entries(fs.drop_last(), raw);
        if contains_spec(raw, fs.last()) {
            prev.push(entry_text(fs.last(), raw))
        } else {
            prev
        }
    }
}

/// The entries joined by `" | "`.
pub open spec fn join(xs: Seq<Seq<char>>) -> Seq<char>
    decreases xs.len(),
{
    if xs.len() == 0 {
        Seq::empty()
    } else if xs.len() == 1 {
        xs[0]
    } else {
        join(xs.drop_last()) + " | "@ + xs.last()
    }
}

/// The rendering of the value `raw` of the type `name` with fields `fs`:
/// `Name(A | B | C(5))`.
pub open spec fn format_spec(name: Seq<char>, fs: Seq<Field>, raw: u128) -> Seq<char> {
    name + "("@ + join(held_entries(fs, raw)) + ")"@
}

impl Layout {
    /// The first field named `name`, if there is one.
    pub fn field(&self, name: &str) -> (r: Option<&Field>)
        ensures
            r matches Some(f) ==> exists|k: int|
                0 <= k < self.fields@.len() && self.fields@[k] == *f && f.name@ == name@ && forall|
                    q: int,
                | 0 <= q < k ==> (#[trigger] self.fields@[q]).name@ != name@,
            r is None ==> forall|q: int|
                0 <= q < self.fields@.len() ==> (#[trigger] self.fields@[q]).name@ != name@,
    {
        let mut k: usize = 0;
        while k < self.fields.len()
            invariant
                k <= self.fields@.len(),
                forall|q: int| 0 <= q < k ==> (#[trigger] self.fields@[q]).name@ != name@,
            decreases self.fields@.len() - k,
        {
            if str_eq(self.fields[k].name.as_str(), name) {
                return Some(&self.fields[k]);
            }
            k = k + 1;
        }
        None
    }

    /// Renders a value as the flags it holds: the type name, then the held
    /// fields in declaration order joined by `" | "` in parentheses, each
    /// counter followed by its literal in parentheses.
    pub fn format(&self, value: Packed) -> (r: String)
        requires
            self.wf(),
        ensures
            r@ == format_spec(self.name@, self.fields@, value.bits),
    {
        let mut out = String::new();
        out.append(self.name.as_str());
        push_char(&mut out, '(');
        let ghost start = out@;
        let mut first = true;
        let mut k: usize = 0;
        while k < self.fields.len()
            invariant
                self.wf(),
                k <= self.fields@.len(),
                out@ == start + join(held_entries(self.fields@.subrange(0, k as int), value.bits)),
                first == (held_entries(self.fields@.subrange(0, k as int), value.bits).len() == 0),
            decreases self.fields@.len() - k,
        {
            let f = &self.fields[k];
            let ghost prev = held_entries(self.fields@.subrange(0, k as int), value.bits);
            let ghost before = out@;
            proof {
                let s = self.fields@.subrange(0, k + 1);
                assert(s.drop_last() =~= self.fields@.subrange(0, k as int));
                assert(s.last() == self.fields@[k as int]);
            }
            if value.contains(f) {
                if !first {
                    out.append(" | ");
                }
                out.append(f.name.as_str());
                if f.is_counter {
                    push_char(&mut out, '(');
                    push_decimal(&mut out, value.get_literal(f));
                    push_char(&mut out, ')');
                }
                first = false;
                proof {
                    let e = entry_text(*f, value.bits);
                    let xs = prev.push(e);
                    assert(xs.drop_last() =~= prev);
                    reveal_strlit("(");
                    reveal_strlit(")");
                    assert(out@ =~= before + (if prev.len() == 0 {
                        Seq::empty()
                    } else {
                        " | "@
                    }) + e);
                    assert(out@ =~= start + join(xs));
                }
            }
            k = k + 1;
        }
        assert(self.fields@.subrange(0, self.fields@.len() as int) =~= self.fields@);
        push_char(&mut out, ')');
        proof {
            reveal_strlit("(");
            reveal_strlit(")");
            assert(out@ =~= format_spec(self.name@, self.fields@, value.bits));
        }
        out
    }
}

proof fn lemma_error_listed(fs: Seq<bitfield::Field>, w: u32, k: int)
    requires
        0 <= k < fs.len(),
        field_error(fs[k], w) is Some,
    ensures
        fields_errors(fs, w).contains(field_error(fs[k], w)->Some_0),
    decreases fs.len(),
{
    let prev = fields_errors(fs.drop_last(), w);
    if k < fs.len() - 1 {
        assert(fs.drop_last()[k] == fs[k]);
        lemma_error_listed(fs.drop_last(), w, k);
        let q = choose|q: int| 0 <= q < prev.len() && prev[q] == field_error(fs[k], w)->Some_0;
        if field_error(fs.last(), w) is Some {
            assert(fields_errors(fs, w)[q] == prev[q]);
        }
    } else {
        assert(fields_errors(fs, w).last() == field_error(fs[k], w)->Some_0);
    }
}

/// Validation rejects every bad field, however many fields the declaration
/// has: when the backing type is supported and field `k` has its start bit
/// after its end bit, or a bound at or past the width, the declaration does
/// not validate and its errors include that field's error, of the kind and
/// at the bound that the checks name. An unsupported backing type is
/// rejected on its own, with one error at the type.
pub proof fn lemma_validation_rejects(b: Bitfield, k: int)
    requires
        0 <= k < b.fields@.len(),
    ensures
        width_spec(toks_of(b.ty@)) is None ==> validate_spec(b) == Err::<u32, Seq<Error>>(
            seq![Error { kind: ErrorKind::UnsupportedBackingType, pos: b.ty_pos }],
        ),
        width_spec(toks_of(b.ty@)) matches Some(w) ==> {
            let f = b.fields@[k];
            &&& f.start_bit.value > f.end_bit.value ==> (validate_spec(b) matches Err(es)
                && es.contains(Error { kind: ErrorKind::RangeOrder, pos: f.start_bit.pos }))
            &&& f.start_bit.value <= f.end_bit.value && f.start_bit.value >= w ==> (validate_spec(
                b,
            ) matches Err(es) && es.contains(
                Error { kind: ErrorKind::OutOfRange(Bound::Start), pos: f.start_bit.pos },
            ))
            &&& f.start_bit.value < w <= f.end_bit.value ==> (validate_spec(b) matches Err(es)
                && es.contains(Error { kind: ErrorKind::OutOfRange(Bound::End), pos: f.end_bit.pos }))
        },
{
    if let Some(w) = width_spec(toks_of(b.ty@)) {
        if field_error(b.fields@[k], w) is Some {
            lemma_error_listed(b.fields@, w, k);
        }
    }
}

} // verus!
