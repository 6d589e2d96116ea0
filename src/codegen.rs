//! The source text generated for a validated declaration.
use vstd::prelude::*;
use crate::bitfield::{
    AttrView, Attribute, Bitfield, FieldView, BitfieldView, attrs_view, fields_view,
};
use crate::field::mask_spec;
use crate::field::Field;
use crate::layout::{
    Error, field_error, lemma_no_errors, mask_of, to_record, validate, validate_spec, width_spec,
};
use crate::expr::{expr_eval, expr_ok, expr_ok_exec};
use crate::lexer::{Spanned, Tok, Token, toks_of};
use crate::text::{decimal, push_char, push_decimal};

verus! {

/// The source text of one token.
pub open spec fn tok_text(t: Tok) -> Seq<char> {
    match t {
        Tok::Ident(s) => s,
        Tok::Int(n) => decimal(n as nat),
        Tok::Punct(c) => seq![c],
        Tok::Str(s) => s,
        Tok::Doc(s) => "///"@ + s + "\n"@,
    }
}

/// Whether a token is a word: an identifier, a number or a string.
pub open spec fn is_word(t: Tok) -> bool {
    t is Ident || t is Int || t is Str
}

/// The source text of a run of tokens: one space between two words, none
/// elsewhere.
pub open spec fn toks_text(v: Seq<Tok>) -> Seq<char>
    decreases v.len(),
{
    if v.len() == 0 {
        Seq::empty()
    } else {
        toks_text(v.drop_last()) + (if v.len() > 1 && is_word(v[v.len() - 2]) && is_word(
            v.last(),
        ) {
            " "@
        } else {
            Seq::empty()
        }) + tok_text(v.last())
    }
}

/// The source text of one attribute, on a line of its own after `indent`.
pub open spec fn attr_text(a: AttrView, indent: Seq<char>) -> Seq<char> {
    match a {
        AttrView::Doc(s) => indent + "///"@ + s + "\n"@,
        AttrView::Outer(t) => indent + "#["@ + toks_text(t) + "]\n"@,
    }
}

/// The source text of a run of attributes.
pub open spec fn attrs_text(v: Seq<AttrView>, indent: Seq<char>) -> Seq<char>
    decreases v.len(),
{
    if v.len() == 0 {
        Seq::empty()
    } else {
        attrs_text(v.drop_last(), indent) + attr_text(v.last(), indent)
    }
}

fn push_str(out: &mut String, s: &str)
    ensures
        final(out)@ == old(out)@ + s@,
{
    out.append(s);
}

fn push_token(out: &mut String, t: &Token)
    ensures
        final(out)@ == old(out)@ + tok_text(t.view()),
{
    match t {
        Token::Ident(s) => push_str(out, s.as_str()),
        Token::Int(n) => push_decimal(out, *n),
        Token::Punct(c) => {
            push_char(out, *c);
            assert(old(out)@.push(*c) =~= old(out)@ + seq![*c]);
        },
        Token::Str(s) => push_str(out, s.as_str()),
        Token::Doc(s) => {
            push_str(out, "///");
            push_str(out, s.as_str());
            push_str(out, "\n");
            assert(final(out)@ =~= old(out)@ + tok_text(t.view()));
        },
    }
}

fn is_word_exec(t: &Token) -> (r: bool)
    ensures
        r == is_word(t.view()),
{
    match t {
        Token::Ident(_) | Token::Int(_) | Token::Str(_) => true,
        _ => false,
    }
}

fn push_tokens(out: &mut String, v: &Vec<Spanned>)
    ensures
        final(out)@ == old(out)@ + toks_text(toks_of(v@)),
{
    let ghost start = out@;
    let mut k: usize = 0;
    while k < v.len()
        invariant
            k <= v@.len(),
            out@ == start + toks_text(toks_of(v@.subrange(0, k as int))),
        decreases v@.len() - k,
    {
        let ghost before = out@;
        if k > 0 && is_word_exec(&v[k - 1].token) && is_word_exec(&v[k].token) {
            push_str(out, " ");
        }
        push_token(out, &v[k].token);
        proof {
            let s = toks_of(v@.subrange(0, k + 1));
            assert(s.drop_last() =~= toks_of(v@.subrange(0, k as int)));
            assert(s.last() == v@[k as int].token.view());
            if k > 0 {
                assert(s[k - 1] == v@[k - 1].token.view());
            }
            assert(out@ =~= start + toks_text(s));
        }
        k = k + 1;
    }
    assert(v@.subrange(0, v@.len() as int) =~= v@);
}

fn push_attrs(out: &mut String, v: &Vec<Attribute>, indent: &str)
    ensures
        final(out)@ == old(out)@ + attrs_text(attrs_view(v@), indent@),
{
    let ghost start = out@;
    let mut k: usize = 0;
    while k < v.len()
        invariant
            k <= v@.len(),
            out@ == start + attrs_text(attrs_view(v@.subrange(0, k as int)), indent@),
        decreases v@.len() - k,
    {
        let ghost before = out@;
        push_str(out, indent);
        match &v[k] {
            Attribute::Doc(s) => {
                push_str(out, "///");
                push_str(out, s.as_str());
                push_str(out, "\n");
            },
            Attribute::Outer(toks) => {
                push_str(out, "#[");
                push_tokens(out, toks);
                push_str(out, "]\n");
            },
        }
        proof {
            let s = attrs_view(v@.subrange(0, k + 1));
            assert(s.drop_last() =~= attrs_view(v@.subrange(0, k as int)));
            assert(s.last() == v@[k as int].view());
            assert(out@ =~= before + attr_text(v@[k as int].view(), indent@));
            assert(out@ =~= start + attrs_text(s, indent@));
        }
        k = k + 1;
    }
    assert(v@.subrange(0, v@.len() as int) =~= v@);
}

/// The record type of the fields of the generated type `n`, after its visibility.
pub open spec fn record_text(n: Seq<char>, t: Seq<char>) -> Seq<char> {
    "struct "@
        + n
        + "Field {\n    pub name: &'static str,\n    pub start_bit: "@
        + t
        + ",\n    pub end_bit: "@
        + t
        + ",\n    pub mask: "@
        + t
        + ",\n    pub value: "@
        + t
        + ",\n    pub is_counter: bool,\n}\n\n"@
}

fn push_record(out: &mut String, n: &str, t: &str)
    ensures
        final(out)@ == old(out)@ + record_text(n@, t@),
{
    let ghost start = out@;
    push_str(out, "struct ");
    push_str(out, n);
    push_str(out, "Field {\n    pub name: &'static str,\n    pub start_bit: ");
    push_str(out, t);
    push_str(out, ",\n    pub end_bit: ");
    push_str(out, t);
    push_str(out, ",\n    pub mask: ");
    push_str(out, t);
    push_str(out, ",\n    pub value: ");
    push_str(out, t);
    push_str(out, ",\n    pub is_counter: bool,\n}\n\n");
    assert(out@ =~= start + record_text(n@, t@));
}

/// The generated type itself, after its attributes and visibility.
pub open spec fn wrapper_text(n: Seq<char>, t: Seq<char>) -> Seq<char> {
    "struct "@
        + n
        + "("@
        + t
        + ");\n\n#[allow(non_upper_case_globals)]\nimpl "@
        + n
        + " {\n"@
}

fn push_wrapper(out: &mut String, n: &str, t: &str)
    ensures
        final(out)@ == old(out)@ + wrapper_text(n@, t@),
{
    let ghost start = out@;
    push_str(out, "struct ");
    push_str(out, n);
    push_str(out, "(");
    push_str(out, t);
    push_str(out, ");\n\n#[allow(non_upper_case_globals)]\nimpl ");
    push_str(out, n);
    push_str(out, " {\n");
    assert(out@ =~= start + wrapper_text(n@, t@));
}

/// The accessors of the generated type, with `n` its name and `t` its backing type.
pub open spec fn methods_text(n: Seq<char>, t: Seq<char>) -> Seq<char> {
    "\n    /// Converts an integer into the bitfield.\n    #[inline]\n    pub const fn from_bits(bits: "@
        + t
        + ") -> Self {\n        Self(bits)\n    }\n\n    /// Converts the bitfield into its underlying integer.\n    #[inline]\n    pub const fn to_bits(&self) -> "@
        + t
        + " {\n        self.0\n    }\n\n    /// Whether the bitfield holds `field`; a counter field is always held.\n    #[inline]\n    pub const fn contains(&self, field: "@
        + n
        + "Field) -> bool {\n        field.is_counter || (self.0 & field.mask) == field.value\n    }\n\n    /// Sets the bits of `field` to its value.\n    #[inline]\n    pub const fn set(&mut self, field: "@
        + n
        + "Field) -> Self {\n        self.0 = (self.0 & !field.mask) | field.value;\n        *self\n    }\n\n    /// Clears the bits of `field`. A field of value `0` over the same bits is\n    /// held afterwards.\n    #[inline]\n    pub const fn unset(&mut self, field: "@
        + n
        + "Field) -> Self {\n        self.0 &= !field.mask;\n        *self\n    }\n\n    /// The content of the bits of `field`, shifted down to bit zero.\n    #[inline]\n    pub const fn get_literal(&self, field: "@
        + n
        + "Field) -> "@
        + t
        + " {\n        (self.0 & field.mask) >> field.start_bit\n    }\n\n    /// Writes `value`, clipped to `field`, over the bits of `field`.\n    #[inline]\n    pub const fn set_literal(&mut self, field: "@
        + n
        + "Field, value: "@
        + t
        + ") -> Self {\n        self.0 = (self.0 & !field.mask) | ((value << field.start_bit) & field.mask);\n        *self\n    }\n}\n\n"@
}

fn push_methods(out: &mut String, n: &str, t: &str)
    ensures
        final(out)@ == old(out)@ + methods_text(n@, t@),
{
    let ghost start = out@;
    push_str(out, "\n    /// Converts an integer into the bitfield.\n    #[inline]\n    pub const fn from_bits(bits: ");
    push_str(out, t);
    push_str(out, ") -> Self {\n        Self(bits)\n    }\n\n    /// Converts the bitfield into its underlying integer.\n    #[inline]\n    pub const fn to_bits(&self) -> ");
    push_str(out, t);
    push_str(out, " {\n        self.0\n    }\n\n    /// Whether the bitfield holds `field`; a counter field is always held.\n    #[inline]\n    pub const fn contains(&self, field: ");
    push_str(out, n);
    push_str(out, "Field) -> bool {\n        field.is_counter || (self.0 & field.mask) == field.value\n    }\n\n    /// Sets the bits of `field` to its value.\n    #[inline]\n    pub const fn set(&mut self, field: ");
    push_str(out, n);
    push_str(out, "Field) -> Self {\n        self.0 = (self.0 & !field.mask) | field.value;\n        *self\n    }\n\n    /// Clears the bits of `field`. A field of value `0` over the same bits is\n    /// held afterwards.\n    #[inline]\n    pub const fn unset(&mut self, field: ");
    push_str(out, n);
    push_str(out, "Field) -> Self {\n        self.0 &= !field.mask;\n        *self\n    }\n\n    /// The content of the bits of `field`, shifted down to bit zero.\n    #[inline]\n    pub const fn get_literal(&self, field: ");
    push_str(out, n);
    push_str(out, "Field) -> ");
    push_str(out, t);
    push_str(out, " {\n        (self.0 & field.mask) >> field.start_bit\n    }\n\n    /// Writes `value`, clipped to `field`, over the bits of `field`.\n    #[inline]\n    pub const fn set_literal(&mut self, field: ");
    push_str(out, n);
    push_str(out, "Field, value: ");
    push_str(out, t);
    push_str(out, ") -> Self {\n        self.0 = (self.0 & !field.mask) | ((value << field.start_bit) & field.mask);\n        *self\n    }\n}\n\n");
    assert(out@ =~= start + methods_text(n@, t@));
}

/// The `Debug` and `Display` impls of the generated type `n`.
pub open spec fn format_text(n: Seq<char>) -> Seq<char> {
    "impl ::core::fmt::Debug for "@
        + n
        + " {\n    fn fmt(&self, f: &mut ::core::fmt::Formatter<'_>) -> ::core::fmt::Result {\n        ::core::fmt::Display::fmt(self, f)\n    }\n}\n\nimpl ::core::fmt::Display for "@
        + n
        + " {\n    fn fmt(&self, f: &mut ::core::fmt::Formatter<'_>) -> ::core::fmt::Result {\n        let mut first = true;\n        f.write_str(\""@
        + n
        + "(\")?;\n        for field in Self::FIELDS.iter().filter(|field| self.contains(**field)) {\n            if !first {\n                f.write_str(\" | \")?;\n            }\n            first = false;\n            f.write_str(field.name)?;\n            if field.is_counter {\n                f.write_str(\"(\")?;\n                ::core::fmt::Display::fmt(&self.get_literal(*field), f)?;\n                f.write_str(\")\")?;\n            }\n        }\n        f.write_str(\")\")\n    }\n}\n"@
}

fn push_format(out: &mut String, n: &str)
    ensures
        final(out)@ == old(out)@ + format_text(n@),
{
    let ghost start = out@;
    push_str(out, "impl ::core::fmt::Debug for ");
    push_str(out, n);
    push_str(out, " {\n    fn fmt(&self, f: &mut ::core::fmt::Formatter<'_>) -> ::core::fmt::Result {\n        ::core::fmt::Display::fmt(self, f)\n    }\n}\n\nimpl ::core::fmt::Display for ");
    push_str(out, n);
    push_str(out, " {\n    fn fmt(&self, f: &mut ::core::fmt::Formatter<'_>) -> ::core::fmt::Result {\n        let mut first = true;\n        f.write_str(\"");
    push_str(out, n);
    push_str(out, "(\")?;\n        for field in Self::FIELDS.iter().filter(|field| self.contains(**field)) {\n            if !first {\n                f.write_str(\" | \")?;\n            }\n            first = false;\n            f.write_str(field.name)?;\n            if field.is_counter {\n                f.write_str(\"(\")?;\n                ::core::fmt::Display::fmt(&self.get_literal(*field), f)?;\n                f.write_str(\")\")?;\n            }\n        }\n        f.write_str(\")\")\n    }\n}\n");
    assert(out@ =~= start + format_text(n@));
}

/// The `defmt::Format` impl of the generated type `n`.
pub open spec fn defmt_text(n: Seq<char>) -> Seq<char> {
    "\nimpl ::defmt::Format for "@
        + n
        + " {\n    fn format(&self, fmt: ::defmt::Formatter) {\n        let mut first = true;\n        ::defmt::Format::format(\""@
        + n
        + "(\", fmt);\n        for field in Self::FIELDS.iter().filter(|field| self.contains(**field)) {\n            if !first {\n                ::defmt::Format::format(\" | \", fmt);\n            }\n            first = false;\n            ::defmt::Format::format(field.name, fmt);\n            if field.is_counter {\n                ::defmt::Format::format(\"(\", fmt);\n                ::defmt::Format::format(&self.get_literal(*field), fmt);\n                ::defmt::Format::format(\")\", fmt);\n            }\n        }\n        ::defmt::Format::format(\")\", fmt);\n    }\n}\n"@
}

fn push_defmt(out: &mut String, n: &str)
    ensures
        final(out)@ == old(out)@ + defmt_text(n@),
{
    let ghost start = out@;
    push_str(out, "\nimpl ::defmt::Format for ");
    push_str(out, n);
    push_str(out, " {\n    fn format(&self, fmt: ::defmt::Formatter) {\n        let mut first = true;\n        ::defmt::Format::format(\"");
    push_str(out, n);
    push_str(out, "(\", fmt);\n        for field in Self::FIELDS.iter().filter(|field| self.contains(**field)) {\n            if !first {\n                ::defmt::Format::format(\" | \", fmt);\n            }\n            first = false;\n            ::defmt::Format::format(field.name, fmt);\n            if field.is_counter {\n                ::defmt::Format::format(\"(\", fmt);\n                ::defmt::Format::format(&self.get_literal(*field), fmt);\n                ::defmt::Format::format(\")\", fmt);\n            }\n        }\n        ::defmt::Format::format(\")\", fmt);\n    }\n}\n");
    assert(out@ =~= start + defmt_text(n@));
}


pub open spec fn bool_text(b: bool) -> Seq<char> {
    if b {
        "true"@
    } else {
        "false"@
    }
}

/// The mask of a field.
pub open spec fn mask_view(f: FieldView) -> u128 {
    mask_spec(f.start, f.end)
}

/// The value of a field, as its expression evaluates in width `w`, shifted
/// to its start bit and clipped to its mask.
pub open spec fn value_view(f: FieldView, w: u32) -> u128 {
    (expr_eval(f.value, w) << f.start) & mask_view(f)
}

/// The associated constant of one field of the generated type `n`, with the
/// field's attributes in front of it and its mask and value folded to
/// literals.
pub open spec fn field_text(n: Seq<char>, f: FieldView, w: u32) -> Seq<char> {
    field_head_text(n, f) + record_text_of(f, w)
}

/// The attributes and the declaration of a field's constant, up to its
/// record.
pub open spec fn field_head_text(n: Seq<char>, f: FieldView) -> Seq<char> {
    attrs_text(f.attrs, "    "@) + "    pub const "@ + f.name + ": "@ + n + "Field = "@ + n
        + "Field {\n        name: \""@ + f.name + "\",\n"@
}

/// The numbers of a field's record, as literals.
pub open spec fn record_text_of(f: FieldView, w: u32) -> Seq<char> {
    "        start_bit: "@ + decimal(f.start as nat) + ",\n        end_bit: "@ + decimal(
        f.end as nat,
    ) + ",\n        mask: "@ + decimal(mask_view(f) as nat) + ",\n        value: "@ + value_text(
        f,
        w,
    ) + ",\n        is_counter: "@ + bool_text(f.is_counter) + ",\n    };\n"@
}

/// The value of a field's record: the folded number when the value is
/// foldable, else the value as written, shifted to the start bit and clipped
/// to the mask by the compiler: `((VALUE) << START) & MASK`.
pub open spec fn value_text(f: FieldView, w: u32) -> Seq<char> {
    if expr_ok(f.value) {
        decimal(value_view(f, w) as nat)
    } else {
        "(("@ + toks_text(f.value) + ") << "@ + decimal(f.start as nat) + ") & "@ + decimal(
            mask_view(f) as nat,
        )
    }
}

/// The associated constants of all the fields, in declaration order.
pub open spec fn consts_text(n: Seq<char>, fs: Seq<FieldView>, w: u32) -> Seq<char>
    decreases fs.len(),
{
    if fs.len() == 0 {
        Seq::empty()
    } else {
        consts_text(n, fs.drop_last(), w) + field_text(n, fs.last(), w)
    }
}

/// `Self::NAME, ` for each field, in declaration order.
pub open spec fn names_text(fs: Seq<FieldView>) -> Seq<char>
    decreases fs.len(),
{
    if fs.len() == 0 {
        Seq::empty()
    } else {
        names_text(fs.drop_last()) + "Self::"@ + fs.last().name + ", "@
    }
}

/// The table of all the fields of the generated type `n`.
pub open spec fn table_text(n: Seq<char>, fs: Seq<FieldView>) -> Seq<char> {
    "\n    /// Every field, in declaration order.\n    pub const FIELDS: &'static ["@ + n
        + "Field] = &["@ + names_text(fs) + "];\n"@
}

/// The visibility of the declaration followed by a space, or nothing.
pub open spec fn vis_text(v: Seq<Tok>) -> Seq<char> {
    if v.len() == 0 {
        Seq::empty()
    } else {
        toks_text(v) + " "@
    }
}


/// The source text generated for a declaration; `defmt` adds an impl of
/// `defmt::Format`.
pub open spec fn generated_text(b: BitfieldView, defmt: bool) -> Seq<char> {
    let n = b.name;
    let t = toks_text(b.ty);
    let w = width_spec(b.ty)->Some_0;
    "#[derive(Clone, Copy, Debug)]\n"@ + vis_text(b.vis) + record_text(n, t)
        + "#[derive(Clone, Copy, PartialEq, Eq, PartialOrd, Ord, Hash)]\n"@ + attrs_text(
        b.attrs,
        ""@,
    ) + vis_text(b.vis) + wrapper_text(n, t) + consts_text(n, b.fields, w) + table_text(n, b.fields)
        + methods_text(n, t) + format_text(n) + if defmt {
        defmt_text(n)
    } else {
        Seq::empty()
    }
}

fn push_bool(out: &mut String, b: bool)
    ensures
        final(out)@ == old(out)@ + bool_text(b),
{
    if b {
        push_str(out, "true");
    } else {
        push_str(out, "false");
    }
}

fn push_field_head(out: &mut String, n: &str, f: &crate::bitfield::Field)
    ensures
        final(out)@ == old(out)@ + field_head_text(n@, f.view()),
{
    let ghost start = out@;
    push_attrs(out, &f.attrs, "    ");
    push_str(out, "    pub const ");
    push_str(out, f.name.as_str());
    push_str(out, ": ");
    push_str(out, n);
    push_str(out, "Field = ");
    push_str(out, n);
    push_str(out, "Field {\n        name: \"");
    push_str(out, f.name.as_str());
    push_str(out, "\",\n");
    assert(out@ =~= start + field_head_text(n@, f.view()));
}

fn push_value(out: &mut String, f: &crate::bitfield::Field, w: u32)
    requires
        field_error(*f, w) is None,
        1 <= w <= 128,
    ensures
        final(out)@ == old(out)@ + value_text(f.view(), w),
{
    let ghost start = out@;
    if expr_ok_exec(&f.value.tokens) {
        let r = to_record(f, w);
        push_decimal(out, r.value);
    } else {
        let mask = mask_of(f.start_bit.value, f.end_bit.value);
        push_str(out, "((");
        push_tokens(out, &f.value.tokens);
        push_str(out, ") << ");
        push_decimal(out, f.start_bit.value);
        push_str(out, ") & ");
        push_decimal(out, mask);
    }
    assert(out@ =~= start + value_text(f.view(), w));
}

fn push_record_text(out: &mut String, f: &crate::bitfield::Field, w: u32)
    requires
        field_error(*f, w) is None,
        1 <= w <= 128,
    ensures
        final(out)@ == old(out)@ + record_text_of(f.view(), w),
{
    let ghost start = out@;
    push_str(out, "        start_bit: ");
    push_decimal(out, f.start_bit.value);
    push_str(out, ",\n        end_bit: ");
    push_decimal(out, f.end_bit.value);
    push_str(out, ",\n        mask: ");
    push_decimal(out, mask_of(f.start_bit.value, f.end_bit.value));
    push_str(out, ",\n        value: ");
    push_value(out, f, w);
    push_str(out, ",\n        is_counter: ");
    push_bool(out, f.is_counter);
    push_str(out, ",\n    };\n");
    assert(out@ =~= start + record_text_of(f.view(), w));
}

fn push_field(out: &mut String, n: &str, f: &crate::bitfield::Field, w: u32)
    requires
        field_error(*f, w) is None,
        1 <= w <= 128,
    ensures
        final(out)@ == old(out)@ + field_text(n@, f.view(), w),
{
    push_field_head(out, n, f);
    push_record_text(out, f, w);
    assert(final(out)@ =~= old(out)@ + field_text(n@, f.view(), w));
}

fn push_vis(out: &mut String, v: &Vec<Spanned>)
    ensures
        final(out)@ == old(out)@ + vis_text(toks_of(v@)),
{
    if v.len() > 0 {
        push_tokens(out, v);
        push_str(out, " ");
        assert(final(out)@ =~= old(out)@ + vis_text(toks_of(v@)));
    } else {
        assert(old(out)@ + vis_text(toks_of(v@)) =~= old(out)@);
    }
}

/// Generates the source text of a declaration: the record type of its
/// fields, the wrapper type with one associated constant per field and the
/// table of all of them, its accessors, and its formatting impls. A
/// declaration that does not validate yields its errors instead.
pub fn to_tokens(bitfield: Bitfield, defmt: bool) -> (r: Result<String, Vec<Error>>)
    ensures
        r is Ok <==> validate_spec(bitfield) is Ok,
        r matches Ok(s) ==> s@ == generated_text(bitfield.view(), defmt),
        r matches Err(es) ==> validate_spec(bitfield) == Err::<u32, Seq<Error>>(es@),
{
    let w = match validate(&bitfield) {
        Ok(w) => w,
        Err(es) => return Err(es),
    };
    proof {
        assert forall|k: int| 0 <= k < bitfield.fields@.len() implies field_error(
            #[trigger] bitfield.fields@[k],
            w,
        ) is None by {
            lemma_no_errors(bitfield.fields@, w, k);
        }
    }
    let n = bitfield.name.as_str();
    let mut ty_text = String::new();
    push_tokens(&mut ty_text, &bitfield.ty);
    assert(ty_text@ =~= toks_text(toks_of(bitfield.ty@)));
    let t = ty_text.as_str();
    let mut out = String::new();
    push_str(&mut out, "#[derive(Clone, Copy, Debug)]\n");
    push_vis(&mut out, &bitfield.visibility);
    push_record(&mut out, n, t);
    push_str(&mut out, "#[derive(Clone, Copy, PartialEq, Eq, PartialOrd, Ord, Hash)]\n");
    push_attrs(&mut out, &bitfield.attrs, "");
    push_vis(&mut out, &bitfield.visibility);
    push_wrapper(&mut out, n, t);
    let ghost before_consts = out@;
    let mut k: usize = 0;
    while k < bitfield.fields.len()
        invariant
            k <= bitfield.fields@.len(),
            forall|q: int|
                0 <= q < bitfield.fields@.len() ==> field_error(#[trigger] bitfield.fields@[q], w)
                    is None,
            1 <= w <= 128,
            n@ == bitfield.name@,
            out@ == before_consts + consts_text(
                n@,
                fields_view(bitfield.fields@.subrange(0, k as int)),
                w,
            ),
        decreases bitfield.fields@.len() - k,
    {
        push_field(&mut out, n, &bitfield.fields[k], w);
        proof {
            let s = fields_view(bitfield.fields@.subrange(0, k + 1));
            assert(s.drop_last() =~= fields_view(bitfield.fields@.subrange(0, k as int)));
            assert(s.last() == bitfield.fields@[k as int].view());
            assert(out@ =~= before_consts + consts_text(n@, s, w));
        }
        k = k + 1;
    }
    assert(bitfield.fields@.subrange(0, bitfield.fields@.len() as int) =~= bitfield.fields@);
    let ghost before_table = out@;
    push_str(&mut out, "\n    /// Every field, in declaration order.\n    pub const FIELDS: &'static [");
    push_str(&mut out, n);
    push_str(&mut out, "Field] = &[");
    let ghost before_names = out@;
    let mut k: usize = 0;
    while k < bitfield.fields.len()
        invariant
            k <= bitfield.fields@.len(),
            out@ == before_names + names_text(fields_view(bitfield.fields@.subrange(0, k as int))),
        decreases bitfield.fields@.len() - k,
    {
        push_str(&mut out, "Self::");
        push_str(&mut out, bitfield.fields[k].name.as_str());
        push_str(&mut out, ", ");
        proof {
            let s = fields_view(bitfield.fields@.subrange(0, k + 1));
            assert(s.drop_last() =~= fields_view(bitfield.fields@.subrange(0, k as int)));
            assert(s.last() == bitfield.fields@[k as int].view());
            assert(out@ =~= before_names + names_text(s));
        }
        k = k + 1;
    }
    push_str(&mut out, "];\n");
    assert(out@ =~= before_table + table_text(n@, fields_view(bitfield.fields@)));
    push_methods(&mut out, n, t);
    push_format(&mut out, n);
    if defmt {
        push_defmt(&mut out, n);
    }
    assert(out@ =~= generated_text(bitfield.view(), defmt));
    Ok(out)
}

} // verus!
