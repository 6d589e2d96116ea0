//! From the source text of a declaration to its layout or its generated
//! source text.
use vstd::prelude::*;
use crate::bitfield::{Bitfield, BitfieldView, bitfield_toks, bitfield_wf};
use crate::codegen::{generated_text, mask_view, to_tokens, value_view};
use crate::field::Field;
use crate::expr::{expr_fits, expr_ok};
use crate::layout::{
    Error, ErrorKind, Layout, compile, compile_spec, field_error, unfolded_errors, fields_errors, lemma_no_errors,
    record_of, validate_spec, width_spec,
};
use crate::bitfield::FieldView;
use crate::lexer::{TokAt, Tok, lex_spec, tokenize, toks_of};
use crate::text::to_chars;

verus! {

/// The tokens of `text` when it can be read.
pub open spec fn lexed(text: Seq<char>) -> Seq<Tok> {
    lex_spec(text)->Ok_0.map_values(|t: TokAt| t.0)
}

/// `text` reads as the declaration `x`.
pub open spec fn reads_as(text: Seq<char>, x: BitfieldView) -> bool {
    &&& lex_spec(text) is Ok
    &&& bitfield_wf(x)
    &&& lexed(text) == bitfield_toks(x)
}

/// `text` reads as some declaration.
pub open spec fn well_formed(text: Seq<char>) -> bool {
    exists|x: BitfieldView| reads_as(text, x)
}

/// A field lies in order within the width `w`, and its value, when it is
/// foldable, evaluates in that width.
pub open spec fn field_valid(f: FieldView, w: u32) -> bool {
    &&& f.start <= f.end < w
    &&& expr_ok(f.value) ==> expr_fits(f.value, w)
}

/// A declaration whose backing type is supported and whose every field is
/// valid in its width.
pub open spec fn view_valid(x: BitfieldView) -> bool {
    &&& width_spec(x.ty) is Some
    &&& forall|k: int| 0 <= k < x.fields.len() ==> field_valid(#[trigger] x.fields[k], width_spec(x.ty)->Some_0)
}

/// Every value of the declaration is foldable.
pub open spec fn view_foldable(x: BitfieldView) -> bool {
    forall|k: int| 0 <= k < x.fields.len() ==> expr_ok(#[trigger] x.fields[k].value)
}

/// Reads a declaration from its source text. Fails with a syntax error, at
/// the offset of the character or token that cannot be read (the length of
/// the text when it ends too soon), exactly when the text does not read as a
/// declaration.
pub fn parse_source(input: &str) -> (r: Result<Bitfield, Error>)
    ensures
        r matches Ok(b) ==> b.wf() && reads_as(input@, b.view()),
        r matches Err(e) ==> e.kind == ErrorKind::Syntax && !well_formed(input@),
        lex_spec(input@) matches Err(p) ==> r == Err::<Bitfield, Error>(
            Error { kind: ErrorKind::Syntax, pos: p as usize },
        ),
        forall|x: BitfieldView| #[trigger] reads_as(input@, x) ==> (r matches Ok(b) && b.view() == x),
{
    let chars = to_chars(input);
    let toks = match tokenize(&chars) {
        Ok(t) => t,
        Err(p) => return Err(Error { kind: ErrorKind::Syntax, pos: p }),
    };
    proof {
        assert(toks_of(toks@) =~= lexed(input@));
    }
    match Bitfield::parse(&toks) {
        Ok(b) => Ok(b),
        Err(e) => {
            let pos = if e < toks.len() {
                toks[e].pos
            } else {
                chars.len()
            };
            Err(Error { kind: ErrorKind::Syntax, pos })
        },
    }
}

/// The runtime record `r` is that of the declared field `f`.
pub open spec fn record_matches(r: Field, f: FieldView, w: u32) -> bool {
    &&& r.name@ == f.name
    &&& r.start_bit == f.start
    &&& r.end_bit == f.end
    &&& r.mask == mask_view(f)
    &&& r.value == value_view(f, w)
    &&& r.is_counter == f.is_counter
}

/// Expands a declaration from its source text into the source text of the
/// generated type. A syntax error comes exactly when the text does not read
/// as a declaration; a declaration that reads yields its generated text when
/// it is valid, and its validation errors otherwise.
pub fn bitfield(input: &str, defmt: bool) -> (r: Result<String, Vec<Error>>)
    ensures
        !well_formed(input@) <==> (r matches Err(es) && es@.len() == 1 && es@[0].kind
            == ErrorKind::Syntax),
        forall|x: BitfieldView| #[trigger]
            reads_as(input@, x) ==> (view_valid(x) <==> r is Ok) && (r matches Ok(s) ==> s@
                == generated_text(x, defmt)),
        r matches Err(es) ==> (es@[0].kind != ErrorKind::Syntax ==> exists|b: Bitfield|
            b.wf() && reads_as(input@, b.view()) && validate_spec(b) == Err::<u32, Seq<Error>>(
                es@,
            )),
{
    let b = match parse_source(input) {
        Ok(b) => b,
        Err(e) => {
            let mut es: Vec<Error> = Vec::new();
            es.push(e);
            return Err(es);
        },
    };
    proof {
        lemma_valid(b);
        lemma_errors_not_syntax(b);
    }
    let ghost bb = b;
    let r = to_tokens(b, defmt);
    proof {
        match &r {
            Ok(s) => {},
            Err(es) => {
                assert(bb.wf() && reads_as(input@, bb.view()) && validate_spec(bb) == Err::<
                    u32,
                    Seq<Error>,
                >(es@));
            },
        }
    }
    r
}

/// Reads a declaration from its source text and validates it into its
/// layout: the width of its backing type and the record of each field.
pub fn layout_of(input: &str) -> (r: Result<Layout, Vec<Error>>)
    ensures
        !well_formed(input@) <==> (r matches Err(es) && es@.len() == 1 && es@[0].kind
            == ErrorKind::Syntax),
        r matches Ok(l) ==> l.wf(),
        forall|x: BitfieldView| #[trigger]
            reads_as(input@, x) ==> (view_valid(x) && view_foldable(x) <==> r is Ok) && (r matches Ok(l) ==> {
                &&& Some(l.bits) == width_spec(x.ty)
                &&& l.name@ == x.name
                &&& l.fields@.len() == x.fields.len()
                &&& forall|k: int|
                    0 <= k < x.fields.len() ==> record_matches(#[trigger] l.fields@[k], x.fields[k], l.bits)
            }),
        r matches Err(es) ==> (es@[0].kind != ErrorKind::Syntax ==> exists|b: Bitfield|
            b.wf() && reads_as(input@, b.view()) && compile_spec(b) == Err::<u32, Seq<Error>>(
                es@,
            )),
{
    let b = match parse_source(input) {
        Ok(b) => b,
        Err(e) => {
            let mut es: Vec<Error> = Vec::new();
            es.push(e);
            return Err(es);
        },
    };
    proof {
        lemma_valid(b);
        lemma_errors_not_syntax(b);
        lemma_foldable(b.fields@);
        assert forall|k: int| 0 <= k < b.fields@.len() implies b.view().fields[k].value
            == #[trigger] b.fields@[k].value.view() by {
            assert(b.view().fields[k] == b.fields@[k].view());
        }
    }
    let r = compile(&b);
    proof {
        if let Ok(l) = &r {
            assert forall|k: int| 0 <= k < b.fields@.len() implies record_matches(
                #[trigger] l.fields@[k],
                b.view().fields[k],
                l.bits,
            ) by {
                let f = b.fields@[k];
                assert(l.fields@[k] == record_of(f, l.bits));
                assert(b.view().fields[k] == f.view());
            }
        }
    }
    r
}

proof fn lemma_fields_errors_kind(fs: Seq<crate::bitfield::Field>, w: u32)
    ensures
        forall|k: int|
            0 <= k < fields_errors(fs, w).len() ==> (#[trigger] fields_errors(fs, w)[k]).kind
                != ErrorKind::Syntax,
    decreases fs.len(),
{
    if fs.len() > 0 {
        lemma_fields_errors_kind(fs.drop_last(), w);
    }
}

proof fn lemma_fields_no_errors(fs: Seq<crate::bitfield::Field>, w: u32)
    requires
        forall|k: int| 0 <= k < fs.len() ==> (#[trigger] field_error(fs[k], w)) is None,
    ensures
        fields_errors(fs, w).len() == 0,
    decreases fs.len(),
{
    if fs.len() > 0 {
        assert(field_error(fs[fs.len() - 1], w) is None);
        assert forall|k: int| 0 <= k < fs.drop_last().len() implies (#[trigger] field_error(
            fs.drop_last()[k],
            w,
        )) is None by {
            assert(fs.drop_last()[k] == fs[k]);
        }
        lemma_fields_no_errors(fs.drop_last(), w);
    }
}

/// Validation gives no syntax error.
proof fn lemma_errors_not_syntax(b: Bitfield)
    ensures
        validate_spec(b) matches Err(es) ==> es.len() > 0 && es[0].kind != ErrorKind::Syntax,
{
    if let Some(w) = width_spec(toks_of(b.ty@)) {
        lemma_fields_errors_kind(b.fields@, w);
    }
}

proof fn lemma_foldable(fs: Seq<crate::bitfield::Field>)
    ensures
        unfolded_errors(fs).len() == 0 <==> forall|k: int|
            0 <= k < fs.len() ==> expr_ok(#[trigger] fs[k].value.view()),
        forall|k: int|
            0 <= k < unfolded_errors(fs).len() ==> (#[trigger] unfolded_errors(fs)[k]).kind
                == ErrorKind::ValueNotConstant,
    decreases fs.len(),
{
    if fs.len() > 0 {
        lemma_foldable(fs.drop_last());
        assert forall|k: int| 0 <= k < fs.drop_last().len() implies fs.drop_last()[k] == fs[k] by {}
        if forall|k: int| 0 <= k < fs.len() ==> expr_ok(#[trigger] fs[k].value.view()) {
            assert(expr_ok(fs[fs.len() - 1].value.view()));
        }
    }
}

/// A declaration validates exactly when its view is valid.
proof fn lemma_valid(b: Bitfield)
    ensures
        view_valid(b.view()) <==> validate_spec(b) is Ok,
{
    if validate_spec(b) is Ok {
        let w = width_spec(toks_of(b.ty@))->Some_0;
        assert forall|k: int| 0 <= k < b.view().fields.len() implies #[trigger] b.view().fields[k].start
            <= b.view().fields[k].end < width_spec(b.view().ty)->Some_0 by {
            lemma_no_errors(b.fields@, w, k);
            assert(b.view().fields[k] == b.fields@[k].view());
        }
        assert forall|k: int| 0 <= k < b.view().fields.len() implies field_valid(
            #[trigger] b.view().fields[k],
            width_spec(b.view().ty)->Some_0,
        ) by {
            lemma_no_errors(b.fields@, w, k);
            assert(b.view().fields[k] == b.fields@[k].view());
        }
    }
    if view_valid(b.view()) {
        let w = width_spec(toks_of(b.ty@))->Some_0;
        assert forall|k: int| 0 <= k < b.fields@.len() implies (#[trigger] field_error(
            b.fields@[k],
            w,
        )) is None by {
            assert(b.view().fields[k] == b.fields@[k].view());
            assert(field_valid(b.view().fields[k], w));
        }
        lemma_fields_no_errors(b.fields@, w);
    }
}

} // verus!
