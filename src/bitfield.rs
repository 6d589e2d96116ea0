//! The declaration grammar: the parsed form of a declaration, the token
//! sequence that each parsed form is written as, and the parser, proved to
//! be the exact inverse of that writing.
use vstd::prelude::*;
use crate::lexer::{Spanned, Tok, Token, toks_of};

verus! {

/// An attribute as the specification states it: a doc comment, or the
/// tokens between the brackets of `#[...]`.
pub ghost enum AttrView {
    Doc(Seq<char>),
    Outer(Seq<Tok>),
}

/// A field entry as the specification states it. `ranged` says whether the
/// `..END` part was written, `valued` whether the `= VALUE` part was.
pub ghost struct FieldView {
    pub attrs: Seq<AttrView>,
    pub name: Seq<char>,
    pub start: u128,
    pub end: u128,
    pub ranged: bool,
    pub value: Seq<Tok>,
    pub valued: bool,
    pub is_counter: bool,
}

/// A declaration as the specification states it.
pub ghost struct BitfieldView {
    pub attrs: Seq<AttrView>,
    pub vis: Seq<Tok>,
    pub name: Seq<char>,
    pub ty: Seq<Tok>,
    pub fields: Seq<FieldView>,
}

/// An integer literal of a declaration and the offset where it stands.
#[derive(Clone, Copy, PartialEq, Eq, Structural, Debug)]
pub struct Lit {
    pub value: u128,
    pub pos: usize,
}

/// The value expression of a field, by its tokens; `!0` marks a counter.
pub struct Expr {
    pub tokens: Vec<Spanned>,
}

impl Expr {
    pub open spec fn view(&self) -> Seq<Tok> {
        toks_of(self.tokens@)
    }
}

/// An attribute in front of the declaration or of a field, passed through to
/// the generated code.
pub enum Attribute {
    /// A doc comment: the text after `///`.
    Doc(String),
    /// `#[...]`: the tokens between the brackets.
    Outer(Vec<Spanned>),
}

impl Attribute {
    pub open spec fn view(&self) -> AttrView {
        match self {
            Attribute::Doc(s) => AttrView::Doc(s@),
            Attribute::Outer(v) => AttrView::Outer(toks_of(v@)),
        }
    }
}

pub open spec fn attrs_view(v: Seq<Attribute>) -> Seq<AttrView> {
    v.map_values(|a: Attribute| a.view())
}

/// One field entry of a declaration: `NAME: START[..END] [= VALUE];`.
/// Without `..END` the end bit is the start bit; without `= VALUE` the value
/// is `1` for a field of one bit and `0` for a wider one. `VALUE` is an
/// expression, kept as written: folded to a number when it is foldable (see
/// `crate::expr`), else left to the compiler of the generated code.
pub struct Field {
    pub attrs: Vec<Attribute>,
    pub name: String,
    pub start_bit: Lit,
    pub end_bit: Lit,
    pub ranged: bool,
    pub value: Expr,
    pub valued: bool,
    pub is_counter: bool,
}

impl Field {
    pub open spec fn view(&self) -> FieldView {
        FieldView {
            attrs: attrs_view(self.attrs@),
            name: self.name@,
            start: self.start_bit.value,
            end: self.end_bit.value,
            ranged: self.ranged,
            value: self.value.view(),
            valued: self.valued,
            is_counter: self.is_counter,
        }
    }

    pub open spec fn wf(&self) -> bool {
        field_wf(self.view())
    }
}

pub open spec fn fields_view(v: Seq<Field>) -> Seq<FieldView> {
    v.map_values(|f: Field| f.view())
}

/// A parsed declaration: `struct NAME: TYPE { FIELD; ... }` with its
/// attributes and visibility. `TYPE` is kept as the tokens written before
/// the `{`; validation decides whether it names a supported width.
pub struct Bitfield {
    pub attrs: Vec<Attribute>,
    pub visibility: Vec<Spanned>,
    pub name: String,
    pub ty: Vec<Spanned>,
    pub ty_pos: usize,
    pub fields: Vec<Field>,
}

impl Bitfield {
    pub open spec fn view(&self) -> BitfieldView {
        BitfieldView {
            attrs: attrs_view(self.attrs@),
            vis: toks_of(self.visibility@),
            name: self.name@,
            ty: toks_of(self.ty@),
            fields: fields_view(self.fields@),
        }
    }

    pub open spec fn wf(&self) -> bool {
        &&& bitfield_wf(self.view())
        &&& forall|k: int| 0 <= k < self.fields@.len() ==> (#[trigger] self.fields@[k]).wf()
    }
}

/// No token of `t` is the punctuation `open` or `close`.
pub open spec fn free_of(t: Seq<Tok>, open: char, close: char) -> bool {
    forall|m: int| 0 <= m < t.len() ==> t[m] != Tok::Punct(open) && t[m] != Tok::Punct(close)
}

pub open spec fn attr_wf(a: AttrView) -> bool {
    match a {
        AttrView::Doc(_) => true,
        AttrView::Outer(t) => free_of(t, '[', ']'),
    }
}

pub open spec fn attrs_wf(a: Seq<AttrView>) -> bool {
    forall|k: int| 0 <= k < a.len() ==> attr_wf(#[trigger] a[k])
}

/// The default value of a field without `= VALUE`: `1` for a field of one
/// bit, `0` for a wider one.
pub open spec fn default_value(start: u128, end: u128) -> Seq<Tok> {
    if start == end {
        seq![Tok::Int(1)]
    } else {
        seq![Tok::Int(0)]
    }
}

/// The value that marks a counter: `!0`.
pub open spec fn counter_mark() -> Seq<Tok> {
    seq![Tok::Punct('!'), Tok::Int(0)]
}

/// Without `..END` the end bit is the start bit; without `= VALUE` the
/// value is the default, and with it the value is any non-empty run of
/// tokens without `;` or `{`: an expression, evaluated where it is used.
///
/// A counter is exactly a field whose value is written `!0`. The test is on
/// how the value is written, not on what it evaluates to: `!0` is all ones
/// at every width, so the mark does not depend on the field's width, and a
/// value that merely evaluates to the field's all-ones pattern (a flag of
/// value `1`, or `0b111` over three bits) stays an ordinary field.
pub open spec fn field_wf(f: FieldView) -> bool {
    &&& attrs_wf(f.attrs)
    &&& !f.ranged ==> f.end == f.start
    &&& !f.valued ==> f.value == default_value(f.start, f.end)
    &&& f.valued ==> f.value.len() > 0 && free_of(f.value, '{', ';')
    &&& f.is_counter == (f.value == counter_mark())
}

/// A visibility: nothing, `pub`, or `pub(...)` with no parenthesis inside.
pub open spec fn vis_wf(v: Seq<Tok>) -> bool {
    ||| v.len() == 0
    ||| v == seq![Tok::Ident("pub"@)]
    ||| (v.len() >= 3 && v[0] == Tok::Ident("pub"@) && v[1] == Tok::Punct('(') && v.last()
        == Tok::Punct(')') && free_of(v.subrange(2, v.len() - 1), '(', ')'))
}

/// The backing type is written as one or more tokens before the body's `{`.
pub open spec fn bitfield_wf(b: BitfieldView) -> bool {
    &&& attrs_wf(b.attrs)
    &&& vis_wf(b.vis)
    &&& b.ty.len() > 0
    &&& free_of(b.ty, '}', '{')
    &&& forall|k: int| 0 <= k < b.fields.len() ==> field_wf(#[trigger] b.fields[k])
}

/// The tokens of one attribute.
pub open spec fn attr_toks(a: AttrView) -> Seq<Tok> {
    match a {
        AttrView::Doc(s) => seq![Tok::Doc(s)],
        AttrView::Outer(t) => seq![Tok::Punct('#'), Tok::Punct('[')] + t + seq![Tok::Punct(']')],
    }
}

/// The tokens of a run of attributes.
pub open spec fn attrs_toks(a: Seq<AttrView>) -> Seq<Tok>
    decreases a.len(),
{
    if a.len() == 0 {
        Seq::empty()
    } else {
        attr_toks(a[0]) + attrs_toks(a.drop_first())
    }
}

/// The tokens of one field entry, its `;` included.
pub open spec fn field_toks(f: FieldView) -> Seq<Tok> {
    attrs_toks(f.attrs) + field_body(f)
}

/// The tokens of a field entry after its attributes.
pub open spec fn field_body(f: FieldView) -> Seq<Tok> {
    seq![Tok::Ident(f.name), Tok::Punct(':'), Tok::Int(f.start)] + (if f.ranged {
        seq![Tok::Punct('.'), Tok::Punct('.'), Tok::Int(f.end)]
    } else {
        Seq::empty()
    }) + (if f.valued {
        seq![Tok::Punct('=')] + f.value
    } else {
        Seq::empty()
    }) + seq![Tok::Punct(';')]
}

/// The tokens of a run of field entries.
pub open spec fn fields_toks(fs: Seq<FieldView>) -> Seq<Tok>
    decreases fs.len(),
{
    if fs.len() == 0 {
        Seq::empty()
    } else {
        field_toks(fs[0]) + fields_toks(fs.drop_first())
    }
}

/// The tokens of a whole declaration.
pub open spec fn bitfield_toks(b: BitfieldView) -> Seq<Tok> {
    attrs_toks(b.attrs) + b.vis + seq![Tok::Ident("struct"@), Tok::Ident(b.name), Tok::Punct(':')]
        + b.ty + seq![Tok::Punct('{')] + fields_toks(b.fields) + seq![Tok::Punct('}')]
}

/// `t` holds `p` from index `i` on.
pub open spec fn holds_at(t: Seq<Tok>, i: int, p: Seq<Tok>) -> bool {
    0 <= i && i + p.len() <= t.len() && t.subrange(i, i + p.len()) == p
}

/// Whether `t[i]` can start an attribute.
pub open spec fn attr_start(t: Seq<Tok>, i: int) -> bool {
    0 <= i < t.len() && (t[i] is Doc || t[i] == Tok::Punct('#'))
}

pub(crate) fn str_eq(a: &str, b: &str) -> (r: bool)
    ensures
        r == (a@ == b@),
{
    let n = a.unicode_len();
    if n != b.unicode_len() {
        return false;
    }
    let mut k: usize = 0;
    while k < n
        invariant
            n == a@.len() == b@.len(),
            k <= n,
            a@.subrange(0, k as int) == b@.subrange(0, k as int),
        decreases n - k,
    {
        if a.get_char(k) != b.get_char(k) {
            assert(a@[k as int] != b@[k as int]);
            return false;
        }
        assert(a@.subrange(0, k + 1) =~= a@.subrange(0, k as int).push(a@[k as int]));
        assert(b@.subrange(0, k + 1) =~= b@.subrange(0, k as int).push(b@[k as int]));
        k = k + 1;
    }
    assert(a@ =~= a@.subrange(0, n as int));
    assert(b@ =~= b@.subrange(0, n as int));
    true
}

fn clone_token(t: &Token) -> (r: Token)
    ensures
        r.view() == t.view(),
{
    match t {
        Token::Ident(s) => Token::Ident(s.clone()),
        Token::Int(n) => Token::Int(*n),
        Token::Punct(c) => Token::Punct(*c),
        Token::Str(s) => Token::Str(s.clone()),
        Token::Doc(s) => Token::Doc(s.clone()),
    }
}

fn clone_spanned(t: &Spanned) -> (r: Spanned)
    ensures
        r.token.view() == t.token.view(),
        r.pos == t.pos,
{
    Spanned { token: clone_token(&t.token), pos: t.pos }
}

fn punct_at(toks: &Vec<Spanned>, i: usize, c: char) -> (r: bool)
    ensures
        r == (i < toks@.len() && toks_of(toks@)[i as int] == Tok::Punct(c)),
{
    if i < toks.len() {
        match &toks[i].token {
            Token::Punct(d) => *d == c,
            _ => false,
        }
    } else {
        false
    }
}

fn ident_at(toks: &Vec<Spanned>, i: usize) -> (r: Option<String>)
    ensures
        r is Some <==> (i < toks@.len() && toks_of(toks@)[i as int] is Ident),
        r matches Some(s) ==> toks_of(toks@)[i as int] == Tok::Ident(s@),
{
    if i < toks.len() {
        match &toks[i].token {
            Token::Ident(s) => Some(s.clone()),
            _ => None,
        }
    } else {
        None
    }
}

fn keyword_at(toks: &Vec<Spanned>, i: usize, kw: &str) -> (r: bool)
    ensures
        r == (i < toks@.len() && toks_of(toks@)[i as int] == Tok::Ident(kw@)),
{
    if i < toks.len() {
        match &toks[i].token {
            Token::Ident(s) => str_eq(s.as_str(), kw),
            _ => false,
        }
    } else {
        false
    }
}

fn int_at(toks: &Vec<Spanned>, i: usize) -> (r: Option<Lit>)
    ensures
        r is Some <==> (i < toks@.len() && toks_of(toks@)[i as int] is Int),
        r matches Some(l) ==> toks_of(toks@)[i as int] == Tok::Int(l.value) && l.pos
            == toks@[i as int].pos,
{
    if i < toks.len() {
        match &toks[i].token {
            Token::Int(n) => Some(Lit { value: *n, pos: toks[i].pos }),
            _ => None,
        }
    } else {
        None
    }
}

/// Reads the tokens from `i` up to the first `close`, which must come before
/// any `open`. Returns them and the index after `close`, or the index of the
/// offending token (the length when the input ends first).
fn parse_group(toks: &Vec<Spanned>, i: usize, open: char, close: char) -> (r: Result<
    (Vec<Spanned>, usize),
    usize,
>)
    requires
        i <= toks@.len(),
    ensures
        r matches Ok((v, j)) ==> {
            &&& i < j <= toks@.len()
            &&& free_of(toks_of(v@), open, close)
            &&& toks_of(toks@).subrange(i as int, j as int) == toks_of(v@) + seq![Tok::Punct(close)]
        },
        r matches Err(e) ==> e <= toks@.len(),
        forall|inner: Seq<Tok>|
            free_of(inner, open, close) && #[trigger] holds_at(
                toks_of(toks@),
                i as int,
                inner + seq![Tok::Punct(close)],
            ) ==> (r matches Ok((v, j)) && toks_of(v@) == inner && j == i + inner.len() + 1),
{
    let ghost t = toks_of(toks@);
    let mut v: Vec<Spanned> = Vec::new();
    let mut k = i;
    while k < toks.len()
        invariant
            i <= k <= toks@.len(),
            t == toks_of(toks@),
            toks_of(v@) == t.subrange(i as int, k as int),
            free_of(toks_of(v@), open, close),
        decreases toks@.len() - k,
    {
        if punct_at(toks, k, close) {
            proof {
                assert(t.subrange(i as int, k + 1) =~= toks_of(v@) + seq![Tok::Punct(close)]);
                assert forall|inner: Seq<Tok>|
                    free_of(inner, open, close) && #[trigger] holds_at(
                        t,
                        i as int,
                        inner + seq![Tok::Punct(close)],
                    ) implies toks_of(v@) == inner && k == i + inner.len() by {
                    let full = inner + seq![Tok::Punct(close)];
                    assert(t.subrange(i as int, i + full.len()) == full);
                    if inner.len() < k - i {
                        assert(t[i + inner.len()] == full[inner.len() as int]);
                        assert(toks_of(v@)[inner.len() as int] == t[i + inner.len()]);
                    } else if inner.len() > k - i {
                        assert(t[k as int] == full[k - i]);
                        assert(full[k - i] == inner[k - i]);
                    }
                    assert(inner.len() == k - i);
                    assert forall|m: int| 0 <= m < inner.len() implies inner[m] == toks_of(v@)[m] by {
                        assert(full[m] == t[i + m]);
                    }
                    assert(inner =~= toks_of(v@));
                }
            }
            return Ok((v, k + 1));
        }
        if punct_at(toks, k, open) {
            proof {
                assert forall|inner: Seq<Tok>|
                    free_of(inner, open, close) && #[trigger] holds_at(
                        t,
                        i as int,
                        inner + seq![Tok::Punct(close)],
                    ) implies false by {
                    let full = inner + seq![Tok::Punct(close)];
                    assert(t.subrange(i as int, i + full.len()) == full);
                    if k - i < inner.len() {
                        assert(t[k as int] == full[k - i]);
                        assert(full[k - i] == inner[k - i]);
                    } else if k - i == inner.len() {
                        assert(t[k as int] == full[k - i]);
                    } else {
                        assert(t[i + inner.len()] == full[inner.len() as int]);
                        assert(toks_of(v@)[inner.len() as int] == t[i + inner.len()]);
                    }
                }
            }
            return Err(k);
        }
        let ghost before = v@;
        v.push(clone_spanned(&toks[k]));
        proof {
            assert(toks_of(v@) =~= toks_of(before).push(t[k as int]));
            assert(t.subrange(i as int, k + 1) =~= t.subrange(i as int, k as int).push(t[k as int]));
        }
        k = k + 1;
    }
    proof {
        assert forall|inner: Seq<Tok>|
            free_of(inner, open, close) && #[trigger] holds_at(
                t,
                i as int,
                inner + seq![Tok::Punct(close)],
            ) implies false by {
            let full = inner + seq![Tok::Punct(close)];
            assert(t.subrange(i as int, i + full.len()) == full);
            assert(t[i + inner.len()] == full[inner.len() as int]);
            assert(toks_of(v@)[inner.len() as int] == t[i + inner.len()]);
        }
    }
    Err(toks.len())
}

proof fn lemma_holds_split(t: Seq<Tok>, i: int, p: Seq<Tok>, q: Seq<Tok>)
    requires
        holds_at(t, i, p + q),
    ensures
        holds_at(t, i, p),
        holds_at(t, i + p.len(), q),
{
    let pq = p + q;
    assert(t.subrange(i, i + pq.len()) == pq);
    assert forall|m: int| 0 <= m < p.len() implies t.subrange(i, i + p.len())[m] == p[m] by {
        assert(t[i + m] == pq[m]);
    }
    assert(t.subrange(i, i + p.len()) =~= p);
    assert forall|m: int| 0 <= m < q.len() implies t.subrange(i + p.len(), i + p.len()
        + q.len())[m] == q[m] by {
        assert(t[i + p.len() + m] == pq[p.len() + m]);
    }
    assert(t.subrange(i + p.len(), i + p.len() + q.len()) =~= q);
}

proof fn lemma_subrange_join(t: Seq<Tok>, i: int, j: int, k: int)
    requires
        0 <= i <= j <= k <= t.len(),
    ensures
        t.subrange(i, k) == t.subrange(i, j) + t.subrange(j, k),
{
    assert(t.subrange(i, k) =~= t.subrange(i, j) + t.subrange(j, k));
}

fn attr_start_exec(toks: &Vec<Spanned>, i: usize) -> (r: bool)
    ensures
        r == attr_start(toks_of(toks@), i as int),
{
    if i < toks.len() {
        match &toks[i].token {
            Token::Doc(_) => true,
            Token::Punct(c) => *c == '#',
            _ => false,
        }
    } else {
        false
    }
}

/// Reads one attribute at `i`: a doc comment or `#[...]`.
fn parse_attr(toks: &Vec<Spanned>, i: usize) -> (r: Result<(Attribute, usize), usize>)
    requires
        i <= toks@.len(),
    ensures
        r matches Ok((a, j)) ==> {
            &&& i < j <= toks@.len()
            &&& attr_wf(a.view())
            &&& toks_of(toks@).subrange(i as int, j as int) == attr_toks(a.view())
        },
        r matches Err(e) ==> e <= toks@.len(),
        forall|x: AttrView|
            attr_wf(x) && #[trigger] holds_at(toks_of(toks@), i as int, attr_toks(x)) ==> (r matches Ok(
                (a, j),
            ) && a.view() == x && j == i + attr_toks(x).len()),
{
    let ghost t = toks_of(toks@);
    if i < toks.len() {
        match &toks[i].token {
            Token::Doc(s) => {
                let a = Attribute::Doc(s.clone());
                proof {
                    assert(t.subrange(i as int, i + 1) =~= attr_toks(a.view()));
                    assert forall|x: AttrView|
                        attr_wf(x) && #[trigger] holds_at(t, i as int, attr_toks(x)) implies a.view()
                        == x && i + 1 == i + attr_toks(x).len() by {
                        assert(t[i as int] == t.subrange(i as int, i + attr_toks(x).len())[0]);
                    }
                }
                return Ok((a, i + 1));
            },
            _ => {},
        }
    }
    if punct_at(toks, i, '#') && punct_at(toks, i + 1, '[') {
        match parse_group(toks, i + 2, '[', ']') {
            Ok((v, j)) => {
                let a = Attribute::Outer(v);
                proof {
                    lemma_subrange_join(t, i as int, i + 2, j as int);
                    assert(t.subrange(i as int, i + 2) =~= seq![Tok::Punct('#'), Tok::Punct('[')]);
                    assert(attr_toks(a.view()) =~= seq![Tok::Punct('#'), Tok::Punct('[')] + (
                    toks_of(v@) + seq![Tok::Punct(']')]));
                    assert forall|x: AttrView|
                        attr_wf(x) && #[trigger] holds_at(t, i as int, attr_toks(x)) implies a.view()
                        == x && j == i + attr_toks(x).len() by {
                        assert(t[i as int] == t.subrange(i as int, i + attr_toks(x).len())[0]);
                        if let AttrView::Outer(inner) = x {
                            let head = seq![Tok::Punct('#'), Tok::Punct('[')];
                            assert(attr_toks(x) =~= head + (inner + seq![Tok::Punct(']')]));
                            lemma_holds_split(t, i as int, head, inner + seq![Tok::Punct(']')]);
                            assert(holds_at(t, i + 2, inner + seq![Tok::Punct(']')]));
                        }
                    }
                }
                Ok((a, j))
            },
            Err(e) => {
                proof {
                    assert forall|x: AttrView|
                        attr_wf(x) && #[trigger] holds_at(t, i as int, attr_toks(x)) implies false by {
                        assert(t[i as int] == t.subrange(i as int, i + attr_toks(x).len())[0]);
                        if let AttrView::Outer(inner) = x {
                            let head = seq![Tok::Punct('#'), Tok::Punct('[')];
                            assert(attr_toks(x) =~= head + (inner + seq![Tok::Punct(']')]));
                            lemma_holds_split(t, i as int, head, inner + seq![Tok::Punct(']')]);
                            assert(holds_at(t, i + 2, inner + seq![Tok::Punct(']')]));
                        }
                    }
                }
                Err(e)
            },
        }
    } else {
        proof {
            assert forall|x: AttrView|
                attr_wf(x) && #[trigger] holds_at(t, i as int, attr_toks(x)) implies false by {
                assert(t[i as int] == t.subrange(i as int, i + attr_toks(x).len())[0]);
                assert(t[i + 1] == t.subrange(i as int, i + attr_toks(x).len())[1]);
            }
        }
        if punct_at(toks, i, '#') {
            Err(i + 1)
        } else {
            Err(i)
        }
    }
}

/// Reads the run of attributes that starts at `i`.
fn parse_attrs(toks: &Vec<Spanned>, i: usize) -> (r: Result<(Vec<Attribute>, usize), usize>)
    requires
        i <= toks@.len(),
    ensures
        r matches Ok((v, j)) ==> {
            &&& i <= j <= toks@.len()
            &&& attrs_wf(attrs_view(v@))
            &&& toks_of(toks@).subrange(i as int, j as int) == attrs_toks(attrs_view(v@))
            &&& !attr_start(toks_of(toks@), j as int)
        },
        r matches Err(e) ==> e <= toks@.len(),
        forall|xs: Seq<AttrView>|
            attrs_wf(xs) && #[trigger] holds_at(toks_of(toks@), i as int, attrs_toks(xs))
                && !attr_start(toks_of(toks@), i + attrs_toks(xs).len()) ==> (r matches Ok((v, j))
                && attrs_view(v@) == xs && j == i + attrs_toks(xs).len()),
    decreases toks@.len() - i,
{
    let ghost t = toks_of(toks@);
    if !attr_start_exec(toks, i) {
        let v: Vec<Attribute> = Vec::new();
        proof {
            assert(attrs_view(v@) =~= Seq::<AttrView>::empty());
            assert(t.subrange(i as int, i as int) =~= Seq::<Tok>::empty());
            assert forall|xs: Seq<AttrView>|
                attrs_wf(xs) && #[trigger] holds_at(t, i as int, attrs_toks(xs)) && !attr_start(
                    t,
                    i + attrs_toks(xs).len(),
                ) implies attrs_view(v@) == xs && i == i + attrs_toks(xs).len() by {
                if xs.len() > 0 {
                    lemma_holds_split(t, i as int, attr_toks(xs[0]), attrs_toks(xs.drop_first()));
                    assert(t[i as int] == t.subrange(i as int, i + attr_toks(xs[0]).len())[0]);
                }
                assert(xs =~= Seq::<AttrView>::empty());
            }
        }
        return Ok((v, i));
    }
    match parse_attr(toks, i) {
        Err(e) => {
            proof {
                assert forall|xs: Seq<AttrView>|
                    attrs_wf(xs) && #[trigger] holds_at(t, i as int, attrs_toks(xs)) && !attr_start(
                        t,
                        i + attrs_toks(xs).len(),
                    ) implies false by {
                    if xs.len() > 0 {
                        lemma_holds_split(t, i as int, attr_toks(xs[0]), attrs_toks(xs.drop_first()));
                        assert(attr_wf(xs[0]));
                    }
                }
            }
            Err(e)
        },
        Ok((a, j)) => {
            match parse_attrs(toks, j) {
                Err(e) => {
                    proof {
                        assert forall|xs: Seq<AttrView>|
                            attrs_wf(xs) && #[trigger] holds_at(t, i as int, attrs_toks(xs))
                                && !attr_start(t, i + attrs_toks(xs).len()) implies false by {
                            if xs.len() > 0 {
                                lemma_holds_split(
                                    t,
                                    i as int,
                                    attr_toks(xs[0]),
                                    attrs_toks(xs.drop_first()),
                                );
                                assert(attr_wf(xs[0]));
                                let rest = xs.drop_first();
                                assert forall|k: int| 0 <= k < rest.len() implies attr_wf(
                                    #[trigger] rest[k],
                                ) by {
                                    assert(rest[k] == xs[k + 1]);
                                }
                                assert(holds_at(t, j as int, attrs_toks(rest)));
                            }
                        }
                    }
                    Err(e)
                },
                Ok((rest, k)) => {
                    let ghost rv = attrs_view(rest@);
                    let mut v: Vec<Attribute> = Vec::new();
                    v.push(a);
                    let mut rest = rest;
                    v.append(&mut rest);
                    proof {
                        let av = attrs_view(v@);
                        assert(av.drop_first() =~= rv);
                        assert(av[0] == a.view());
                        assert(attrs_toks(av) == attr_toks(av[0]) + attrs_toks(av.drop_first()));
                        lemma_subrange_join(t, i as int, j as int, k as int);
                        assert forall|m: int| 0 <= m < av.len() implies attr_wf(#[trigger] av[m]) by {
                            if m > 0 {
                                assert(av[m] == rv[m - 1]);
                            }
                        }
                        assert forall|xs: Seq<AttrView>|
                            attrs_wf(xs) && #[trigger] holds_at(t, i as int, attrs_toks(xs))
                                && !attr_start(t, i + attrs_toks(xs).len()) implies av == xs && k
                            == i + attrs_toks(xs).len() by {
                            if xs.len() > 0 {
                                lemma_holds_split(
                                    t,
                                    i as int,
                                    attr_toks(xs[0]),
                                    attrs_toks(xs.drop_first()),
                                );
                                assert(attr_wf(xs[0]));
                                let xr = xs.drop_first();
                                assert forall|q: int| 0 <= q < xr.len() implies attr_wf(
                                    #[trigger] xr[q],
                                ) by {
                                    assert(xr[q] == xs[q + 1]);
                                }
                                assert(holds_at(t, j as int, attrs_toks(xr)));
                                assert(a.view() == xs[0]);
                                assert(j + attrs_toks(xr).len() == i + attrs_toks(xs).len());
                                assert(rv == xr);
                                assert forall|m: int| 0 <= m < xs.len() implies av[m] == xs[m] by {
                                    if m > 0 {
                                        assert(av[m] == rv[m - 1]);
                                        assert(xr[m - 1] == xs[m]);
                                    }
                                }
                                assert(av =~= xs);
                            }
                        }
                    }
                    Ok((v, k))
                },
            }
        },
    }
}

/// Where the parts of a field entry stand when `t` holds it at `i`.
proof fn lemma_field_at(t: Seq<Tok>, i: int, x: FieldView)
    requires
        holds_at(t, i, field_toks(x)),
    ensures
        holds_at(t, i, attrs_toks(x.attrs)),
        ({
            let a = i + attrs_toks(x.attrs).len();
            let b = a + 3 + if x.ranged {
                3int
            } else {
                0int
            };
            &&& !attr_start(t, a)
            &&& t[a] == Tok::Ident(x.name)
            &&& t[a + 1] == Tok::Punct(':')
            &&& t[a + 2] == Tok::Int(x.start)
            &&& x.ranged ==> t[a + 3] == Tok::Punct('.') && t[a + 4] == Tok::Punct('.') && t[a
                + 5] == Tok::Int(x.end)
            &&& t[b] != Tok::Punct('.') || t[b + 1] != Tok::Punct('.')
            &&& x.valued ==> t[b] == Tok::Punct('=') && holds_at(
                t,
                b + 1,
                x.value + seq![Tok::Punct(';')],
            ) && b + 1 + x.value.len() + 1 == i + field_toks(x).len()
            &&& !x.valued ==> t[b] == Tok::Punct(';') && b + 1 == i + field_toks(x).len()
        }),
{
    lemma_holds_split(t, i, attrs_toks(x.attrs), field_body(x));
    let a = i + attrs_toks(x.attrs).len();
    let body = field_body(x);
    assert(t.subrange(a, a + body.len()) == body);
    assert forall|m: int| 0 <= m < body.len() implies t[a + m] == body[m] by {
        assert(t.subrange(a, a + body.len())[m] == t[a + m]);
    }
    assert(body[0] == Tok::Ident(x.name));
    assert(body[1] == Tok::Punct(':'));
    assert(body[2] == Tok::Int(x.start));
    let r = if x.ranged {
        seq![Tok::Punct('.'), Tok::Punct('.'), Tok::Int(x.end)]
    } else {
        Seq::<Tok>::empty()
    };
    let v = if x.valued {
        seq![Tok::Punct('=')] + x.value
    } else {
        Seq::<Tok>::empty()
    };
    let head = seq![Tok::Ident(x.name), Tok::Punct(':'), Tok::Int(x.start)];
    assert(body =~= head + r + v + seq![Tok::Punct(';')]);
    if x.ranged {
        assert(body[3] == Tok::Punct('.'));
        assert(body[4] == Tok::Punct('.'));
        assert(body[5] == Tok::Int(x.end));
    }
    let b = a + 3 + r.len();
    assert(t[b] == body[3 + r.len() as int]);
    if x.valued {
        assert(body[3 + r.len() as int] == Tok::Punct('='));
        let rest = x.value + seq![Tok::Punct(';')];
        assert(body =~= (head + r + seq![Tok::Punct('=')]) + rest);
        lemma_holds_split(t, a, head + r + seq![Tok::Punct('=')], rest);
    } else {
        assert(body[3 + r.len() as int] == Tok::Punct(';'));
    }
}

impl Field {
    /// Reads one field entry, its `;` included, at token `i`. Returns the
    /// field and the index after it, or the index of the offending token.
    #[verifier::rlimit(100)]
    pub fn parse(toks: &Vec<Spanned>, i: usize) -> (r: Result<(Field, usize), usize>)
        requires
            i <= toks@.len(),
        ensures
            r matches Ok((f, j)) ==> {
                &&& i < j <= toks@.len()
                &&& f.wf()
                &&& toks_of(toks@).subrange(i as int, j as int) == field_toks(f.view())
            },
            r matches Err(e) ==> e <= toks@.len(),
            forall|x: FieldView|
                field_wf(x) && #[trigger] holds_at(toks_of(toks@), i as int, field_toks(x)) ==> (r matches Ok(
                    (f, j),
                ) && f.view() == x && j == i + field_toks(x).len()),
    {
        let ghost t = toks_of(toks@);
        let n = toks.len();
        let (attrs, a) = match parse_attrs(toks, i) {
            Ok(p) => p,
            Err(e) => {
                proof {
                    assert forall|x: FieldView|
                        field_wf(x) && #[trigger] holds_at(t, i as int, field_toks(x)) implies false by {
                        lemma_field_at(t, i as int, x);
                    }
                }
                return Err(e);
            },
        };
        assert forall|x: FieldView|
            field_wf(x) && #[trigger] holds_at(t, i as int, field_toks(x)) implies attrs_view(attrs@)
            == x.attrs && a == i + attrs_toks(x.attrs).len() by {
            lemma_field_at(t, i as int, x);
        }
        let name = match ident_at(toks, a) {
            Some(n) => n,
            None => {
                proof {
                    assert forall|x: FieldView|
                        field_wf(x) && #[trigger] holds_at(t, i as int, field_toks(x)) implies false by {
                        lemma_field_at(t, i as int, x);
                    }
                }
                return Err(a);
            },
        };
        if !punct_at(toks, a + 1, ':') {
            proof {
                assert forall|x: FieldView|
                    field_wf(x) && #[trigger] holds_at(t, i as int, field_toks(x)) implies false by {
                    lemma_field_at(t, i as int, x);
                }
            }
            return Err(a + 1);
        }
        let start_bit = match int_at(toks, a + 2) {
            Some(l) => l,
            None => {
                proof {
                    assert forall|x: FieldView|
                        field_wf(x) && #[trigger] holds_at(t, i as int, field_toks(x)) implies false by {
                        lemma_field_at(t, i as int, x);
                    }
                }
                return Err(a + 2);
            },
        };
        let mut b = a + 3;
        let ranged = punct_at(toks, b, '.') && punct_at(toks, b + 1, '.');
        let end_bit = if ranged {
            match int_at(toks, b + 2) {
                Some(l) => {
                    b = b + 3;
                    l
                },
                None => {
                    proof {
                        assert forall|x: FieldView|
                            field_wf(x) && #[trigger] holds_at(t, i as int, field_toks(x)) implies false by {
                            lemma_field_at(t, i as int, x);
                        }
                    }
                    return Err(b + 2);
                },
            }
        } else {
            start_bit
        };
        let valued = punct_at(toks, b, '=');
        let ghost bb = b;
        let value = if valued {
            match parse_group(toks, b + 1, '{', ';') {
                Ok((v, j)) => {
                    if v.len() == 0 {
                        proof {
                            assert forall|x: FieldView|
                                field_wf(x) && #[trigger] holds_at(t, i as int, field_toks(x)) implies false by {
                                lemma_field_at(t, i as int, x);
                            }
                        }
                        return Err(b + 1);
                    }
                    b = j;
                    Expr { tokens: v }
                },
                Err(e) => {
                    proof {
                        assert forall|x: FieldView|
                            field_wf(x) && #[trigger] holds_at(t, i as int, field_toks(x)) implies false by {
                            lemma_field_at(t, i as int, x);
                        }
                    }
                    return Err(e);
                },
            }
        } else {
            if !punct_at(toks, b, ';') {
                proof {
                    assert forall|x: FieldView|
                        field_wf(x) && #[trigger] holds_at(t, i as int, field_toks(x)) implies false by {
                        lemma_field_at(t, i as int, x);
                    }
                }
                return Err(b);
            }
            let d: u128 = if start_bit.value == end_bit.value {
                1
            } else {
                0
            };
            let mut v: Vec<Spanned> = Vec::new();
            v.push(Spanned { token: Token::Int(d), pos: start_bit.pos });
            proof {
                assert(toks_of(v@) =~= default_value(start_bit.value, end_bit.value));
            }
            b = b + 1;
            Expr { tokens: v }
        };
        let is_counter = value.tokens.len() == 2 && punct_at(&value.tokens, 0, '!') && match &value.tokens[1].token {
            Token::Int(n) => *n == 0,
            _ => false,
        };
        proof {
            if is_counter {
                assert(value.view() =~= counter_mark());
            }
        }
        let f = Field { attrs, name, start_bit, end_bit, ranged, value, valued, is_counter };
        proof {
            let fv = f.view();
            let body = field_body(fv);
            if valued {
                lemma_subrange_join(t, a as int, bb + 1, b as int);
                assert(t.subrange(a as int, bb + 1) =~= seq![
                    Tok::Ident(fv.name),
                    Tok::Punct(':'),
                    Tok::Int(fv.start),
                ] + (if fv.ranged {
                    seq![Tok::Punct('.'), Tok::Punct('.'), Tok::Int(fv.end)]
                } else {
                    Seq::empty()
                }) + seq![Tok::Punct('=')]);
            }
            assert(t.subrange(a as int, b as int) =~= body);
            lemma_subrange_join(t, i as int, a as int, b as int);
            assert forall|x: FieldView|
                field_wf(x) && #[trigger] holds_at(t, i as int, field_toks(x)) implies fv == x && b
                == i + field_toks(x).len() by {
                lemma_field_at(t, i as int, x);
                if x.valued {
                    assert(fv.value == x.value);
                }
            }
        }
        Ok((f, b))
    }
}

proof fn lemma_field_first(t: Seq<Tok>, i: int, x: FieldView)
    requires
        holds_at(t, i, field_toks(x)),
    ensures
        t[i] != Tok::Punct('}'),
{
    lemma_field_at(t, i, x);
    let at = attrs_toks(x.attrs);
    if x.attrs.len() > 0 {
        lemma_holds_split(t, i, attr_toks(x.attrs[0]), attrs_toks(x.attrs.drop_first()));
        assert(t[i] == t.subrange(i, i + attr_toks(x.attrs[0]).len())[0]);
    } else {
        assert(at.len() == 0);
    }
}

proof fn lemma_fields_step(t: Seq<Tok>, i: int, xs: Seq<FieldView>)
    requires
        holds_at(t, i, fields_toks(xs) + seq![Tok::Punct('}')]),
    ensures
        xs.len() == 0 ==> t[i] == Tok::Punct('}'),
        xs.len() > 0 ==> {
            &&& holds_at(t, i, field_toks(xs[0]))
            &&& holds_at(
                t,
                i + field_toks(xs[0]).len(),
                fields_toks(xs.drop_first()) + seq![Tok::Punct('}')],
            )
            &&& t[i] != Tok::Punct('}')
        },
{
    let all = fields_toks(xs) + seq![Tok::Punct('}')];
    if xs.len() == 0 {
        assert(t[i] == t.subrange(i, i + all.len())[0]);
    } else {
        assert(all =~= field_toks(xs[0]) + (fields_toks(xs.drop_first()) + seq![Tok::Punct('}')]));
        lemma_holds_split(
            t,
            i,
            field_toks(xs[0]),
            fields_toks(xs.drop_first()) + seq![Tok::Punct('}')],
        );
        lemma_field_first(t, i, xs[0]);
    }
}

pub open spec fn fields_wf(xs: Seq<FieldView>) -> bool {
    forall|k: int| 0 <= k < xs.len() ==> field_wf(#[trigger] xs[k])
}

/// Reads the field entries from `i` up to the closing `}`.
fn parse_fields(toks: &Vec<Spanned>, i: usize) -> (r: Result<(Vec<Field>, usize), usize>)
    requires
        i <= toks@.len(),
    ensures
        r matches Ok((v, j)) ==> {
            &&& i <= j < toks@.len()
            &&& toks_of(toks@)[j as int] == Tok::Punct('}')
            &&& forall|k: int| 0 <= k < v@.len() ==> (#[trigger] v@[k]).wf()
            &&& toks_of(toks@).subrange(i as int, j as int) == fields_toks(fields_view(v@))
        },
        r matches Err(e) ==> e <= toks@.len(),
        forall|xs: Seq<FieldView>|
            fields_wf(xs) && #[trigger] holds_at(
                toks_of(toks@),
                i as int,
                fields_toks(xs) + seq![Tok::Punct('}')],
            ) ==> (r matches Ok((v, j)) && fields_view(v@) == xs && j == i + fields_toks(xs).len()),
    decreases toks@.len() - i,
{
    let ghost t = toks_of(toks@);
    if punct_at(toks, i, '}') {
        let v: Vec<Field> = Vec::new();
        proof {
            assert(fields_view(v@) =~= Seq::<FieldView>::empty());
            assert(t.subrange(i as int, i as int) =~= Seq::<Tok>::empty());
            assert forall|xs: Seq<FieldView>|
                fields_wf(xs) && #[trigger] holds_at(t, i as int, fields_toks(xs) + seq![Tok::Punct('}')])
                implies fields_view(v@) == xs && i == i + fields_toks(xs).len() by {
                lemma_fields_step(t, i as int, xs);
                assert(xs =~= Seq::<FieldView>::empty());
            }
        }
        return Ok((v, i));
    }
    if i >= toks.len() {
        proof {
            assert forall|xs: Seq<FieldView>|
                fields_wf(xs) && #[trigger] holds_at(t, i as int, fields_toks(xs) + seq![Tok::Punct('}')])
                implies false by {
                lemma_fields_step(t, i as int, xs);
            }
        }
        return Err(i);
    }
    match Field::parse(toks, i) {
        Err(e) => {
            proof {
                assert forall|xs: Seq<FieldView>|
                    fields_wf(xs) && #[trigger] holds_at(t, i as int, fields_toks(xs) + seq![Tok::Punct('}')])
                    implies false by {
                    lemma_fields_step(t, i as int, xs);
                    assert(field_wf(xs[0]));
                }
            }
            Err(e)
        },
        Ok((f, j)) => {
            match parse_fields(toks, j) {
                Err(e) => {
                    proof {
                        assert forall|xs: Seq<FieldView>|
                            fields_wf(xs) && #[trigger] holds_at(
                                t,
                                i as int,
                                fields_toks(xs) + seq![Tok::Punct('}')],
                            ) implies false by {
                            lemma_fields_step(t, i as int, xs);
                            assert(field_wf(xs[0]));
                            let xr = xs.drop_first();
                            assert forall|q: int| 0 <= q < xr.len() implies field_wf(#[trigger] xr[q]) by {
                                assert(xr[q] == xs[q + 1]);
                            }
                        }
                    }
                    Err(e)
                },
                Ok((rest, k)) => {
                    let ghost rv = fields_view(rest@);
                    let ghost rest_seq = rest@;
                    let ghost fv = f.view();
                    let mut v: Vec<Field> = Vec::new();
                    v.push(f);
                    let mut rest = rest;
                    v.append(&mut rest);
                    proof {
                        let av = fields_view(v@);
                        assert(av.drop_first() =~= rv);
                        assert(av[0] == fv);
                        assert(fields_toks(av) == field_toks(av[0]) + fields_toks(av.drop_first()));
                        lemma_subrange_join(t, i as int, j as int, k as int);
                        assert forall|m: int| 0 <= m < v@.len() implies (#[trigger] v@[m]).wf() by {
                            if m > 0 {
                                assert(v@[m] == rest_seq[m - 1]);
                            }
                        }
                        assert forall|xs: Seq<FieldView>|
                            fields_wf(xs) && #[trigger] holds_at(
                                t,
                                i as int,
                                fields_toks(xs) + seq![Tok::Punct('}')],
                            ) implies av == xs && k == i + fields_toks(xs).len() by {
                            lemma_fields_step(t, i as int, xs);
                            assert(field_wf(xs[0]));
                            let xr = xs.drop_first();
                            assert forall|q: int| 0 <= q < xr.len() implies field_wf(#[trigger] xr[q]) by {
                                assert(xr[q] == xs[q + 1]);
                            }
                            assert(fv == xs[0]);
                            assert(rv == xr);
                            assert forall|m: int| 0 <= m < xs.len() implies av[m] == xs[m] by {
                                if m > 0 {
                                    assert(av[m] == rv[m - 1]);
                                    assert(xr[m - 1] == xs[m]);
                                }
                            }
                            assert(av =~= xs);
                        }
                    }
                    Ok((v, k))
                },
            }
        },
    }
}

fn clone_range(toks: &Vec<Spanned>, from: usize, to: usize) -> (r: Vec<Spanned>)
    requires
        from <= to <= toks@.len(),
    ensures
        toks_of(r@) == toks_of(toks@).subrange(from as int, to as int),
{
    let mut r: Vec<Spanned> = Vec::new();
    let mut k = from;
    while k < to
        invariant
            from <= k <= to <= toks@.len(),
            toks_of(r@) == toks_of(toks@).subrange(from as int, k as int),
        decreases to - k,
    {
        let ghost before = r@;
        r.push(clone_spanned(&toks[k]));
        proof {
            assert(toks_of(r@) =~= toks_of(before).push(toks_of(toks@)[k as int]));
            assert(toks_of(toks@).subrange(from as int, k + 1) =~= toks_of(toks@).subrange(
                from as int,
                k as int,
            ).push(toks_of(toks@)[k as int]));
        }
        k = k + 1;
    }
    r
}

/// Reads the visibility at `i`, which the keyword `struct` follows.
fn parse_vis(toks: &Vec<Spanned>, i: usize) -> (r: Result<(Vec<Spanned>, usize), usize>)
    requires
        i <= toks@.len(),
    ensures
        r matches Ok((v, j)) ==> {
            &&& i <= j <= toks@.len()
            &&& vis_wf(toks_of(v@))
            &&& toks_of(toks@).subrange(i as int, j as int) == toks_of(v@)
        },
        r matches Err(e) ==> e <= toks@.len(),
        forall|vis: Seq<Tok>|
            vis_wf(vis) && #[trigger] holds_at(
                toks_of(toks@),
                i as int,
                vis + seq![Tok::Ident("struct"@)],
            ) ==> (r matches Ok((v, j)) && toks_of(v@) == vis && j == i + vis.len()),
{
    let ghost t = toks_of(toks@);
    let n = toks.len();
    proof {
        reveal_strlit("pub");
        reveal_strlit("struct");
        assert("pub"@ != "struct"@) by {
            assert("pub"@.len() != "struct"@.len());
        }
    }
    if keyword_at(toks, i, "pub") {
        if punct_at(toks, i + 1, '(') {
            match parse_group(toks, i + 2, '(', ')') {
                Ok((inner, j)) => {
                    let v = clone_range(toks, i, j);
                    proof {
                        lemma_subrange_join(t, i as int, i + 2, j as int);
                        let tv = toks_of(v@);
                        assert(tv.subrange(2, tv.len() - 1) =~= toks_of(inner@));
                        assert(tv[0] == t[i as int]);
                        assert(tv[1] == t[i + 1]);
                        assert(tv.last() == t[j - 1]);
                        assert(t[j - 1] == t.subrange(i + 2, j as int)[j - 1 - (i + 2)]);
                        assert forall|vis: Seq<Tok>|
                            vis_wf(vis) && #[trigger] holds_at(
                                t,
                                i as int,
                                vis + seq![Tok::Ident("struct"@)],
                            ) implies tv == vis && j == i + vis.len() by {
                            let full = vis + seq![Tok::Ident("struct"@)];
                            assert(t[i as int] == t.subrange(i as int, i + full.len())[0]);
                            assert(t[i + 1] == t.subrange(i as int, i + full.len())[1]);
                            let inner_v = vis.subrange(2, vis.len() - 1);
                            assert(full =~= seq![vis[0], vis[1]] + (inner_v + seq![Tok::Punct(')')])
                                + seq![Tok::Ident("struct"@)]);
                            lemma_holds_split(
                                t,
                                i as int,
                                seq![vis[0], vis[1]] + (inner_v + seq![Tok::Punct(')')]),
                                seq![Tok::Ident("struct"@)],
                            );
                            lemma_holds_split(
                                t,
                                i as int,
                                seq![vis[0], vis[1]],
                                inner_v + seq![Tok::Punct(')')],
                            );
                            assert(holds_at(t, i + 2, inner_v + seq![Tok::Punct(')')]));
                            assert(vis =~= seq![vis[0], vis[1]] + inner_v + seq![Tok::Punct(')')]);
                            assert(tv =~= t.subrange(i as int, j as int));
                            assert(tv =~= vis);
                        }
                    }
                    Ok((v, j))
                },
                Err(e) => {
                    proof {
                        assert forall|vis: Seq<Tok>|
                            vis_wf(vis) && #[trigger] holds_at(
                                t,
                                i as int,
                                vis + seq![Tok::Ident("struct"@)],
                            ) implies false by {
                            let full = vis + seq![Tok::Ident("struct"@)];
                            assert(t[i as int] == t.subrange(i as int, i + full.len())[0]);
                            assert(t[i + 1] == t.subrange(i as int, i + full.len())[1]);
                            let inner_v = vis.subrange(2, vis.len() - 1);
                            assert(full =~= seq![vis[0], vis[1]] + (inner_v + seq![Tok::Punct(')')])
                                + seq![Tok::Ident("struct"@)]);
                            lemma_holds_split(
                                t,
                                i as int,
                                seq![vis[0], vis[1]] + (inner_v + seq![Tok::Punct(')')]),
                                seq![Tok::Ident("struct"@)],
                            );
                            lemma_holds_split(
                                t,
                                i as int,
                                seq![vis[0], vis[1]],
                                inner_v + seq![Tok::Punct(')')],
                            );
                        }
                    }
                    Err(e)
                },
            }
        } else {
            let v = clone_range(toks, i, i + 1);
            proof {
                assert(toks_of(v@) =~= seq![Tok::Ident("pub"@)]);
                assert forall|vis: Seq<Tok>|
                    vis_wf(vis) && #[trigger] holds_at(t, i as int, vis + seq![Tok::Ident("struct"@)])
                    implies toks_of(v@) == vis && i + 1 == i + vis.len() by {
                    let full = vis + seq![Tok::Ident("struct"@)];
                    assert(t[i as int] == t.subrange(i as int, i + full.len())[0]);
                    assert(t[i + 1] == t.subrange(i as int, i + full.len())[1]);
                }
            }
            Ok((v, i + 1))
        }
    } else {
        let v: Vec<Spanned> = Vec::new();
        proof {
            assert(toks_of(v@) =~= Seq::<Tok>::empty());
            assert(t.subrange(i as int, i as int) =~= Seq::<Tok>::empty());
            assert forall|vis: Seq<Tok>|
                vis_wf(vis) && #[trigger] holds_at(t, i as int, vis + seq![Tok::Ident("struct"@)])
                implies toks_of(v@) == vis && i == i + vis.len() by {
                let full = vis + seq![Tok::Ident("struct"@)];
                assert(t[i as int] == t.subrange(i as int, i + full.len())[0]);
                assert(vis =~= Seq::<Tok>::empty());
            }
        }
        Ok((v, i))
    }
}

/// Where the parts of a declaration stand in its tokens.
proof fn lemma_bitfield_at(t: Seq<Tok>, x: BitfieldView)
    requires
        t == bitfield_toks(x),
        vis_wf(x.vis),
    ensures
        ({
            let a = attrs_toks(x.attrs).len() as int;
            let c = a + x.vis.len();
            let d = c + 3 + x.ty.len() + 1;
            &&& holds_at(t, 0, attrs_toks(x.attrs))
            &&& !attr_start(t, a)
            &&& holds_at(t, a, x.vis + seq![Tok::Ident("struct"@)])
            &&& t[c] == Tok::Ident("struct"@)
            &&& t[c + 1] == Tok::Ident(x.name)
            &&& t[c + 2] == Tok::Punct(':')
            &&& holds_at(t, c + 3, x.ty + seq![Tok::Punct('{')])
            &&& holds_at(t, d, fields_toks(x.fields) + seq![Tok::Punct('}')])
            &&& t.len() == d + fields_toks(x.fields).len() + 1
        }),
{
    let av = attrs_toks(x.attrs);
    let h = seq![Tok::Ident("struct"@), Tok::Ident(x.name), Tok::Punct(':')];
    let ty = x.ty + seq![Tok::Punct('{')];
    let f = fields_toks(x.fields) + seq![Tok::Punct('}')];
    assert(t =~= av + (x.vis + seq![Tok::Ident("struct"@)]) + (h.drop_first() + ty + f));
    assert(t.subrange(0, t.len() as int) == t);
    lemma_holds_split(t, 0, av + (x.vis + seq![Tok::Ident("struct"@)]), h.drop_first() + ty + f);
    lemma_holds_split(t, 0, av, x.vis + seq![Tok::Ident("struct"@)]);
    let c = av.len() + x.vis.len() as int;
    assert(t =~= (av + x.vis + h) + (ty + f));
    lemma_holds_split(t, 0, av + x.vis + h, ty + f);
    lemma_holds_split(t, c + 3, ty, f);
    assert(t[c] == (av + x.vis + h)[c]);
    assert(t[c + 1] == (av + x.vis + h)[c + 1]);
    assert(t[c + 2] == (av + x.vis + h)[c + 2]);
    if x.vis.len() > 0 {
        assert(t[av.len() as int] == x.vis[0]);
    }
}

impl Bitfield {
    /// Reads a whole declaration:
    /// `[attributes] [visibility] struct NAME: TYPE { FIELD; ... }`, and
    /// nothing after it. Returns the declaration, or the index of the
    /// offending token (the number of tokens when the input ends too soon).
    #[verifier::rlimit(100)]
    pub fn parse(toks: &Vec<Spanned>) -> (r: Result<Bitfield, usize>)
        ensures
            r matches Ok(b) ==> b.wf() && toks_of(toks@) == bitfield_toks(b.view()),
            r matches Err(e) ==> e <= toks@.len(),
            forall|x: BitfieldView|
                bitfield_wf(x) && toks_of(toks@) == #[trigger] bitfield_toks(x) ==> (r matches Ok(b)
                    && b.view() == x),
    {
        let ghost t = toks_of(toks@);
        let n = toks.len();
        let (attrs, a) = match parse_attrs(toks, 0) {
            Ok(p) => p,
            Err(e) => {
                proof {
                    assert forall|x: BitfieldView|
                        bitfield_wf(x) && t == #[trigger] bitfield_toks(x) implies false by {
                        lemma_bitfield_at(t, x);
                    }
                }
                return Err(e);
            },
        };
        let (visibility, c) = match parse_vis(toks, a) {
            Ok(p) => p,
            Err(e) => {
                proof {
                    assert forall|x: BitfieldView|
                        bitfield_wf(x) && t == #[trigger] bitfield_toks(x) implies false by {
                        lemma_bitfield_at(t, x);
                    }
                }
                return Err(e);
            },
        };
        if !keyword_at(toks, c, "struct") {
            proof {
                assert forall|x: BitfieldView|
                    bitfield_wf(x) && t == #[trigger] bitfield_toks(x) implies false by {
                    lemma_bitfield_at(t, x);
                }
            }
            return Err(c);
        }
        let name = match ident_at(toks, c + 1) {
            Some(s) => s,
            None => {
                proof {
                    assert forall|x: BitfieldView|
                        bitfield_wf(x) && t == #[trigger] bitfield_toks(x) implies false by {
                        lemma_bitfield_at(t, x);
                    }
                }
                return Err(c + 1);
            },
        };
        if !punct_at(toks, c + 2, ':') {
            proof {
                assert forall|x: BitfieldView|
                    bitfield_wf(x) && t == #[trigger] bitfield_toks(x) implies false by {
                    lemma_bitfield_at(t, x);
                }
            }
            return Err(c + 2);
        }
        let (ty, e) = match parse_group(toks, c + 3, '}', '{') {
            Ok(p) => p,
            Err(e) => {
                proof {
                    assert forall|x: BitfieldView|
                        bitfield_wf(x) && t == #[trigger] bitfield_toks(x) implies false by {
                        lemma_bitfield_at(t, x);
                    }
                }
                return Err(e);
            },
        };
        if ty.len() == 0 {
            proof {
                assert forall|x: BitfieldView|
                    bitfield_wf(x) && t == #[trigger] bitfield_toks(x) implies false by {
                    lemma_bitfield_at(t, x);
                }
            }
            return Err(c + 3);
        }
        let ty_pos = toks[c + 3].pos;
        let (fields, d) = match parse_fields(toks, e) {
            Ok(p) => p,
            Err(e) => {
                proof {
                    assert forall|x: BitfieldView|
                        bitfield_wf(x) && t == #[trigger] bitfield_toks(x) implies false by {
                        lemma_bitfield_at(t, x);
                    }
                }
                return Err(e);
            },
        };
        if d + 1 != toks.len() {
            proof {
                assert forall|x: BitfieldView|
                    bitfield_wf(x) && t == #[trigger] bitfield_toks(x) implies false by {
                    lemma_bitfield_at(t, x);
                }
            }
            return Err(d + 1);
        }
        let b = Bitfield { attrs, visibility, name, ty, ty_pos, fields };
        proof {
            let bv = b.view();
            let h = seq![Tok::Ident("struct"@), Tok::Ident(bv.name), Tok::Punct(':')];
            lemma_subrange_join(t, 0, a as int, c as int);
            lemma_subrange_join(t, 0, c as int, c + 3);
            lemma_subrange_join(t, 0, c + 3, e as int);
            lemma_subrange_join(t, 0, e as int, d as int);
            lemma_subrange_join(t, 0, d as int, d + 1);
            assert(t.subrange(c as int, c + 3) =~= h);
            assert(t.subrange(d as int, d + 1) =~= seq![Tok::Punct('}')]);
            assert(t.subrange(0, d + 1) =~= t);
            assert(t =~= bitfield_toks(bv));
            assert forall|x: BitfieldView|
                bitfield_wf(x) && t == #[trigger] bitfield_toks(x) implies bv == x by {
                lemma_bitfield_at(t, x);
            }
        }
        Ok(b)
    }
}

} // verus!
