//! The tokens of a declaration's source text: identifiers, integer literals
//! (decimal, `0x`, `0b`, `0o`, with `_` separators and a `u`/`i` type
//! suffix), one-character punctuation, string literals, `///` doc comments,
//! and `//` comments and white space between tokens. Block comments, char
//! literals and raw strings are not read: text that holds one, even inside
//! an attribute, is a syntax error.
use vstd::prelude::*;
use crate::text::push_char;

verus! {

/// A token of a declaration, as the parser sees it.
pub ghost enum Tok {
    Ident(Seq<char>),
    Int(u128),
    Punct(char),
    Str(Seq<char>),
    Doc(Seq<char>),
}

/// A token of a declaration.
pub enum Token {
    /// An identifier or keyword.
    Ident(String),
    /// An integer literal, by its value.
    Int(u128),
    /// One punctuation character.
    Punct(char),
    /// A string literal, quotes and escapes included, as written.
    Str(String),
    /// A doc comment: the text after `///` up to the end of its line.
    Doc(String),
}

impl Token {
    pub open spec fn view(&self) -> Tok {
        match self {
            Token::Ident(s) => Tok::Ident(s@),
            Token::Int(n) => Tok::Int(*n),
            Token::Punct(c) => Tok::Punct(*c),
            Token::Str(s) => Tok::Str(s@),
            Token::Doc(s) => Tok::Doc(s@),
        }
    }
}

/// A token with the character offset where it starts.
pub struct Spanned {
    pub token: Token,
    pub pos: usize,
}

/// A token as the lexer's specification states it: the token and its offset.
pub type TokAt = (Tok, nat);

impl Spanned {
    pub open spec fn view(&self) -> TokAt {
        (self.token.view(), self.pos as nat)
    }
}

/// The tokens of `v` as the specification states them.
pub open spec fn views(v: Seq<Spanned>) -> Seq<TokAt> {
    v.map_values(|x: Spanned| x.view())
}

/// The tokens of `v`, without their offsets.
pub open spec fn toks_of(v: Seq<Spanned>) -> Seq<Tok> {
    v.map_values(|t: Spanned| t.token.view())
}

pub open spec fn is_space(c: char) -> bool {
    c == ' ' || c == '\t' || c == '\n' || c == '\r'
}

pub open spec fn is_ident_start(c: char) -> bool {
    ('a' <= c && c <= 'z') || ('A' <= c && c <= 'Z') || c == '_'
}

pub open spec fn is_ident_continue(c: char) -> bool {
    is_ident_start(c) || ('0' <= c && c <= '9')
}

/// The start of an integer literal's type suffix (`u8`, `i32`, `usize`...),
/// which the literal's value ignores.
pub open spec fn is_suffix_start(c: char) -> bool {
    c == 'u' || c == 'i'
}

/// The punctuation characters that form tokens of their own.
pub open spec fn is_punct(c: char) -> bool {
    c == ':' || c == ';' || c == '.' || c == '=' || c == '!' || c == '#' || c == '['
        || c == ']' || c == '(' || c == ')' || c == '{' || c == '}' || c == ',' || c == '<'
        || c == '>' || c == '-' || c == '+' || c == '*' || c == '/' || c == '&' || c == '|'
        || c == '^' || c == '%' || c == '@' || c == '?' || c == '~' || c == '$'
}

/// The value of `c` as a digit in `base`, if it is one.
pub open spec fn digit_value(c: char, base: nat) -> Option<nat> {
    let d: int = if '0' <= c && c <= '9' {
        c as int - '0' as int
    } else if 'a' <= c && c <= 'f' {
        c as int - 'a' as int + 10
    } else if 'A' <= c && c <= 'F' {
        c as int - 'A' as int + 10
    } else {
        -1
    };
    if 0 <= d < base {
        Some(d as nat)
    } else {
        None
    }
}

/// Whether `s[i]` starts a line comment: `//` that is not a doc comment.
pub open spec fn starts_comment(s: Seq<char>, i: int) -> bool {
    &&& i + 1 < s.len()
    &&& s[i] == '/'
    &&& s[i + 1] == '/'
    &&& !starts_doc(s, i)
}

/// Whether `s[i]` starts a doc comment: `///` not followed by a fourth `/`.
pub open spec fn starts_doc(s: Seq<char>, i: int) -> bool {
    &&& i + 2 < s.len()
    &&& s[i] == '/'
    &&& s[i + 1] == '/'
    &&& s[i + 2] == '/'
    &&& !(i + 3 < s.len() && s[i + 3] == '/')
}

/// The offset of the end of the line that holds `s[i]`: the next `\n`, or the
/// end of the text.
pub open spec fn line_end(s: Seq<char>, i: nat) -> nat
    decreases s.len() - i,
{
    if i < s.len() && s[i as int] != '\n' {
        line_end(s, i + 1)
    } else {
        i
    }
}

/// The offset of the first character at or after `i` that is neither white
/// space nor part of a line comment.
pub open spec fn trivia_end(s: Seq<char>, i: nat) -> nat
    decreases s.len() - i,
{
    if i < s.len() && is_space(s[i as int]) {
        trivia_end(s, i + 1)
    } else if i < s.len() && starts_comment(s, i as int) {
        let j = line_end(s, i);
        if i < j <= s.len() {
            trivia_end(s, j)
        } else {
            i
        }
    } else {
        i
    }
}

/// The end of the run of identifier characters that starts at `i`.
pub open spec fn ident_end(s: Seq<char>, i: nat) -> nat
    decreases s.len() - i,
{
    if i < s.len() && is_ident_continue(s[i as int]) {
        ident_end(s, i + 1)
    } else {
        i
    }
}

/// The end of the run of digits of `base` and underscores that starts at `i`.
pub open spec fn digits_end(s: Seq<char>, i: nat, base: nat) -> nat
    decreases s.len() - i,
{
    if i < s.len() && (s[i as int] == '_' || digit_value(s[i as int], base) is Some) {
        digits_end(s, i + 1, base)
    } else {
        i
    }
}

/// The number that the digits of `base` in `s[from..to]` write, underscores
/// left out.
pub open spec fn digits_value(s: Seq<char>, from: int, to: int, base: nat) -> nat
    decreases to - from,
{
    if to <= from {
        0
    } else {
        let prev = digits_value(s, from, to - 1, base);
        match digit_value(s[to - 1], base) {
            Some(d) => prev * base + d,
            None => prev,
        }
    }
}

/// Whether `s[from..to]` holds at least one digit of `base`.
pub open spec fn has_digit(s: Seq<char>, from: int, to: int, base: nat) -> bool {
    exists|k: int| from <= k < to && (digit_value(s[k], base) is Some)
}

/// The base of the integer literal that starts at `i` and the offset of its
/// first digit.
pub open spec fn int_base(s: Seq<char>, i: int) -> (nat, int) {
    if s[i] == '0' && i + 1 < s.len() && s[i + 1] == 'x' {
        (16, i + 2)
    } else if s[i] == '0' && i + 1 < s.len() && s[i + 1] == 'b' {
        (2, i + 2)
    } else if s[i] == '0' && i + 1 < s.len() && s[i + 1] == 'o' {
        (8, i + 2)
    } else {
        (10, i)
    }
}

/// The end of the string literal whose opening quote is at `i`: the offset
/// just past its closing quote, if it is closed. A backslash escapes the
/// character that follows it.
pub open spec fn str_end(s: Seq<char>, j: nat) -> Option<nat>
    decreases s.len() + 2 - j,
{
    if j >= s.len() {
        None
    } else if s[j as int] == '"' {
        Some(j + 1)
    } else if s[j as int] == '\\' {
        str_end(s, j + 2)
    } else {
        str_end(s, j + 1)
    }
}

/// The token that starts at `i` (not trivia, not the end) and the offset
/// after it, or the offset of the character that cannot be read.
pub open spec fn token_at(s: Seq<char>, i: nat) -> Result<(Tok, nat), nat> {
    let c = s[i as int];
    if is_ident_start(c) {
        let j = ident_end(s, i);
        Ok((Tok::Ident(s.subrange(i as int, j as int)), j))
    } else if '0' <= c && c <= '9' {
        let (base, from) = int_base(s, i as int);
        let j = digits_end(s, from as nat, base);
        let k = if j < s.len() && is_suffix_start(s[j as int]) {
            ident_end(s, j)
        } else {
            j
        };
        if !has_digit(s, from, j as int, base) {
            Err(i)
        } else if k == j && j < s.len() && is_ident_continue(s[j as int]) {
            Err(j)
        } else if digits_value(s, from, j as int, base) > u128::MAX {
            Err(i)
        } else {
            Ok((Tok::Int(digits_value(s, from, j as int, base) as u128), k))
        }
    } else if c == '"' {
        match str_end(s, i + 1) {
            Some(j) => Ok((Tok::Str(s.subrange(i as int, j as int)), j)),
            None => Err(i),
        }
    } else if starts_doc(s, i as int) {
        let j = line_end(s, i);
        Ok((Tok::Doc(s.subrange((i + 3) as int, j as int)), j))
    } else if is_punct(c) {
        Ok((Tok::Punct(c), i + 1))
    } else {
        Err(i)
    }
}

/// The tokens of `s` from offset `i` on, or the offset of the first character
/// that cannot be read.
pub open spec fn lex_from(s: Seq<char>, i: nat) -> Result<Seq<TokAt>, nat>
    decreases s.len() - i,
{
    let j = trivia_end(s, i);
    if j >= s.len() || j < i {
        Ok(Seq::empty())
    } else {
        match token_at(s, j) {
            Ok((t, k)) => if j < k <= s.len() {
                match lex_from(s, k) {
                    Ok(rest) => Ok(seq![(t, j)] + rest),
                    Err(p) => Err(p),
                }
            } else {
                Err(j)
            },
            Err(p) => Err(p),
        }
    }
}

/// The tokens of a whole text.
pub open spec fn lex_spec(s: Seq<char>) -> Result<Seq<TokAt>, nat> {
    lex_from(s, 0)
}

fn is_space_exec(c: char) -> (r: bool)
    ensures
        r == is_space(c),
{
    c == ' ' || c == '\t' || c == '\n' || c == '\r'
}

fn is_ident_start_exec(c: char) -> (r: bool)
    ensures
        r == is_ident_start(c),
{
    ('a' <= c && c <= 'z') || ('A' <= c && c <= 'Z') || c == '_'
}

fn is_ident_continue_exec(c: char) -> (r: bool)
    ensures
        r == is_ident_continue(c),
{
    is_ident_start_exec(c) || ('0' <= c && c <= '9')
}

fn is_punct_exec(c: char) -> (r: bool)
    ensures
        r == is_punct(c),
{
    c == ':' || c == ';' || c == '.' || c == '=' || c == '!' || c == '#' || c == '['
        || c == ']' || c == '(' || c == ')' || c == '{' || c == '}' || c == ',' || c == '<'
        || c == '>' || c == '-' || c == '+' || c == '*' || c == '/' || c == '&' || c == '|'
        || c == '^' || c == '%' || c == '@' || c == '?' || c == '~' || c == '$'
}

fn digit_value_exec(c: char, base: u128) -> (r: Option<u128>)
    requires
        base == 2 || base == 8 || base == 10 || base == 16,
    ensures
        r == (match digit_value(c, base as nat) {
            Some(d) => Some(d as u128),
            None => None,
        }),
{
    let d: u128 = if '0' <= c && c <= '9' {
        (c as u32 - '0' as u32) as u128
    } else if 'a' <= c && c <= 'f' {
        (c as u32 - 'a' as u32 + 10) as u128
    } else if 'A' <= c && c <= 'F' {
        (c as u32 - 'A' as u32 + 10) as u128
    } else {
        return None;
    };
    if d < base {
        Some(d)
    } else {
        None
    }
}

fn starts_doc_exec(s: &Vec<char>, i: usize) -> (r: bool)
    ensures
        r == starts_doc(s@, i as int),
{
    i < s.len() && s.len() - i > 2 && s[i] == '/' && s[i + 1] == '/' && s[i + 2] == '/' && !(
    s.len() - i > 3 && s[i + 3] == '/')
}

fn starts_comment_exec(s: &Vec<char>, i: usize) -> (r: bool)
    ensures
        r == starts_comment(s@, i as int),
{
    i < s.len() && s.len() - i > 1 && s[i] == '/' && s[i + 1] == '/' && !starts_doc_exec(s, i)
}

fn line_end_exec(s: &Vec<char>, i: usize) -> (r: usize)
    requires
        i <= s@.len(),
    ensures
        r == line_end(s@, i as nat),
        i <= r <= s@.len(),
{
    let mut j = i;
    while j < s.len() && s[j] != '\n'
        invariant
            i <= j <= s@.len(),
            line_end(s@, j as nat) == line_end(s@, i as nat),
        decreases s@.len() - j,
    {
        j = j + 1;
    }
    j
}

fn trivia_end_exec(s: &Vec<char>, i: usize) -> (r: usize)
    requires
        i <= s@.len(),
    ensures
        r == trivia_end(s@, i as nat),
        i <= r <= s@.len(),
{
    let mut j = i;
    loop
        invariant
            i <= j <= s@.len(),
            trivia_end(s@, j as nat) == trivia_end(s@, i as nat),
        decreases s@.len() - j,
    {
        if j < s.len() && is_space_exec(s[j]) {
            j = j + 1;
        } else if j < s.len() && starts_comment_exec(s, j) {
            let k = line_end_exec(s, j);
            if j < k {
                j = k;
            } else {
                return j;
            }
        } else {
            return j;
        }
    }
}

fn ident_end_exec(s: &Vec<char>, i: usize) -> (r: usize)
    requires
        i <= s@.len(),
    ensures
        r == ident_end(s@, i as nat),
        i <= r <= s@.len(),
{
    let mut j = i;
    while j < s.len() && is_ident_continue_exec(s[j])
        invariant
            i <= j <= s@.len(),
            ident_end(s@, j as nat) == ident_end(s@, i as nat),
        decreases s@.len() - j,
    {
        j = j + 1;
    }
    j
}

fn substring(s: &Vec<char>, from: usize, to: usize) -> (r: String)
    requires
        from <= to <= s@.len(),
    ensures
        r@ == s@.subrange(from as int, to as int),
{
    let mut r = String::new();
    let mut k = from;
    while k < to
        invariant
            from <= k <= to <= s@.len(),
            r@ == s@.subrange(from as int, k as int),
        decreases to - k,
    {
        push_char(&mut r, s[k]);
        k = k + 1;
        assert(r@ =~= s@.subrange(from as int, k as int));
    }
    r
}

proof fn lemma_digits_value_grows(s: Seq<char>, from: int, to: int, base: nat)
    requires
        from < to,
        base >= 1,
    ensures
        digits_value(s, from, to, base) >= digits_value(s, from, to - 1, base),
{
    let prev = digits_value(s, from, to - 1, base);
    assert(prev * base >= prev) by (nonlinear_arith)
        requires
            base >= 1,
    ;
}

/// Reads the digits of the integer literal whose first digit is at `from`.
/// Returns the end of the digits, whether one of them is a digit of `base`,
/// and their value when it fits.
fn scan_digits(s: &Vec<char>, from: usize, base: u128) -> (r: (usize, bool, Option<u128>))
    requires
        from <= s@.len(),
        base == 2 || base == 8 || base == 10 || base == 16,
    ensures
        r.0 == digits_end(s@, from as nat, base as nat),
        r.1 == has_digit(s@, from as int, r.0 as int, base as nat),
        r.2 == (if digits_value(s@, from as int, r.0 as int, base as nat) <= u128::MAX {
            Some(digits_value(s@, from as int, r.0 as int, base as nat) as u128)
        } else {
            None::<u128>
        }),
{
    let ghost b = base as nat;
    let mut j = from;
    let mut seen = false;
    let mut acc: Option<u128> = Some(0);
    loop
        invariant
            from <= j <= s@.len(),
            digits_end(s@, j as nat, b) == digits_end(s@, from as nat, b),
            b == base,
            base == 2 || base == 8 || base == 10 || base == 16,
            seen == has_digit(s@, from as int, j as int, b),
            acc == (if digits_value(s@, from as int, j as int, b) <= u128::MAX {
                Some(digits_value(s@, from as int, j as int, b) as u128)
            } else {
                None::<u128>
            }),
        ensures
            digits_end(s@, j as nat, b) == j,
        decreases s@.len() - j,
    {
        if j >= s.len() {
            assert(digits_end(s@, j as nat, b) == j);
            break;
        }
        let c = s[j];
        let d = digit_value_exec(c, base);
        if c != '_' && d.is_none() {
            assert(digits_end(s@, j as nat, b) == j);
            break;
        }
        proof {
            lemma_digits_value_grows(s@, from as int, j + 1, b);
            assert(has_digit(s@, from as int, j + 1, b) == (has_digit(s@, from as int, j as int, b)
                || digit_value(s@[j as int], b) is Some)) by {
                if digit_value(s@[j as int], b) is Some {
                    assert(from <= j < j + 1);
                }
                if has_digit(s@, from as int, j + 1, b) && !(digit_value(s@[j as int], b) is Some) {
                    let k = choose|k: int| from <= k < j + 1 && (digit_value(s@[k], b) is Some);
                    assert(from <= k < j);
                }
            }
        }
        match d {
            Some(dv) => {
                seen = true;
                acc = match acc {
                    Some(a) => match a.checked_mul(base) {
                        Some(m) => m.checked_add(dv),
                        None => None,
                    },
                    None => None,
                };
            },
            None => {},
        }
        j = j + 1;
    }
    (j, seen, acc)
}

fn str_end_exec(s: &Vec<char>, i: usize) -> (r: Option<usize>)
    requires
        i <= s@.len(),
    ensures
        r is None <==> str_end(s@, i as nat) is None,
        r matches Some(j) ==> str_end(s@, i as nat) == Some(j as nat) && i < j <= s@.len(),
{
    let mut j = i;
    loop
        invariant
            i <= j <= s@.len(),
            str_end(s@, j as nat) == str_end(s@, i as nat),
        decreases s@.len() - j,
    {
        if j >= s.len() {
            return None;
        } else if s[j] == '"' {
            return Some(j + 1);
        } else if s[j] == '\\' {
            if j + 1 >= s.len() {
                assert(str_end(s@, (j + 2) as nat) is None);
                return None;
            }
            j = j + 2;
        } else {
            j = j + 1;
        }
    }
}

fn token_at_exec(s: &Vec<char>, i: usize) -> (r: Result<(Token, usize), usize>)
    requires
        i < s@.len(),
    ensures
        r is Ok <==> token_at(s@, i as nat) is Ok,
        r is Ok ==> r->Ok_0.0.view() == token_at(s@, i as nat)->Ok_0.0 && r->Ok_0.1
            == token_at(s@, i as nat)->Ok_0.1,
        r is Err ==> r->Err_0 == token_at(s@, i as nat)->Err_0,
{
    let n = s.len();
    let c = s[i];
    if is_ident_start_exec(c) {
        let j = ident_end_exec(s, i);
        Ok((Token::Ident(substring(s, i, j)), j))
    } else if '0' <= c && c <= '9' {
        let (base, from): (u128, usize) = if c == '0' && s.len() - i > 1 && s[i + 1] == 'x' {
            (16, i + 2)
        } else if c == '0' && s.len() - i > 1 && s[i + 1] == 'b' {
            (2, i + 2)
        } else if c == '0' && s.len() - i > 1 && s[i + 1] == 'o' {
            (8, i + 2)
        } else {
            (10, i)
        };
        assert(int_base(s@, i as int) == (base as nat, from as int));
        let (j, seen, value) = scan_digits(s, from, base);
        let k = if j < s.len() && (s[j] == 'u' || s[j] == 'i') {
            ident_end_exec(s, j)
        } else {
            j
        };
        if !seen {
            Err(i)
        } else if k == j && j < s.len() && is_ident_continue_exec(s[j]) {
            Err(j)
        } else {
            match value {
                Some(v) => Ok((Token::Int(v), k)),
                None => Err(i),
            }
        }
    } else if c == '"' {
        match str_end_exec(s, i + 1) {
            Some(j) => Ok((Token::Str(substring(s, i, j)), j)),
            None => Err(i),
        }
    } else if starts_doc_exec(s, i) {
        let j = line_end_exec(s, i + 3);
        proof {
            assert(line_end(s@, i as nat) == line_end(s@, (i + 1) as nat));
            assert(line_end(s@, (i + 1) as nat) == line_end(s@, (i + 2) as nat));
            assert(line_end(s@, (i + 2) as nat) == line_end(s@, (i + 3) as nat));
        }
        Ok((Token::Doc(substring(s, i + 3, j)), j))
    } else if is_punct_exec(c) {
        Ok((Token::Punct(c), i + 1))
    } else {
        Err(i)
    }
}

/// `done` followed by the outcome of reading the rest.
pub open spec fn after(done: Seq<TokAt>, rest: Result<Seq<TokAt>, nat>) -> Result<
    Seq<TokAt>,
    nat,
> {
    match rest {
        Ok(t) => Ok(done + t),
        Err(p) => Err(p),
    }
}

/// Splits `text` into tokens, or gives the offset of the first character that
/// cannot be read.
pub fn tokenize(s: &Vec<char>) -> (r: Result<Vec<Spanned>, usize>)
    ensures
        r is Ok <==> lex_spec(s@) is Ok,
        r is Ok ==> views(r->Ok_0@) == lex_spec(s@)->Ok_0,
        r is Err ==> r->Err_0 == lex_spec(s@)->Err_0,
{
    let mut out: Vec<Spanned> = Vec::new();
    let mut i: usize = 0;
    loop
        invariant
            i <= s@.len(),
            lex_spec(s@) == after(views(out@), lex_from(s@, i as nat)),
        decreases s@.len() - i,
    {
        let ghost old_view = views(out@);
        let j = trivia_end_exec(s, i);
        if j >= s.len() {
            assert(lex_from(s@, i as nat) == Ok::<Seq<TokAt>, nat>(Seq::empty()));
            assert(old_view + Seq::<TokAt>::empty() =~= old_view);
            return Ok(out);
        }
        assert(lex_from(s@, i as nat) == match token_at(s@, j as nat) {
            Ok((t, k)) => if j < k <= s@.len() {
                match lex_from(s@, k) {
                    Ok(rest) => Ok(seq![(t, j as nat)] + rest),
                    Err(p) => Err(p),
                }
            } else {
                Err(j as nat)
            },
            Err(p) => Err(p),
        });
        match token_at_exec(s, j) {
            Ok((t, k)) => {
                if j < k && k <= s.len() {
                    let sp = Spanned { token: t, pos: j };
                    let ghost x = sp.view();
                    out.push(sp);
                    proof {
                        assert(views(out@) =~= old_view.push(x));
                        match lex_from(s@, k as nat) {
                            Ok(rest) => {
                                assert(old_view + (seq![x] + rest) =~= old_view.push(x) + rest);
                            },
                            Err(p) => {},
                        }
                    }
                    i = k;
                } else {
                    return Err(j);
                }
            },
            Err(p) => {
                return Err(p);
            },
        }
    }
}

} // verus!
