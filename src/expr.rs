//! Foldable value expressions: integer literals, parentheses, `!`, and the
//! binary operators `*`, `+`, `-`, `<<`, `>>`, `&`, `^`, `|` with Rust's
//! precedence, evaluated as Rust evaluates constants of the backing type.
use vstd::prelude::*;
use crate::lexer::{Spanned, Tok, Token, toks_of};

verus! {

/// Ones at the `w` lowest positions, for `1 <= w <= 128`.
pub open spec fn ones(w: u32) -> u128 {
    u128::MAX >> ((128 - w) as u128)
}

/// The binary operator at `t[i]` of precedence level `lvl` (0 binds
/// loosest), with the number of tokens it takes.
pub open spec fn op_at(t: Seq<Tok>, i: int, lvl: nat) -> Option<(u8, int)> {
    if i < 0 || i >= t.len() {
        None
    } else if lvl == 0 && t[i] == Tok::Punct('|') {
        Some((0u8, 1int))
    } else if lvl == 1 && t[i] == Tok::Punct('^') {
        Some((1u8, 1int))
    } else if lvl == 2 && t[i] == Tok::Punct('&') {
        Some((2u8, 1int))
    } else if lvl == 3 && t[i] == Tok::Punct('<') && i + 1 < t.len() && t[i + 1] == Tok::Punct('<') {
        Some((3u8, 2int))
    } else if lvl == 3 && t[i] == Tok::Punct('>') && i + 1 < t.len() && t[i + 1] == Tok::Punct('>') {
        Some((4u8, 2int))
    } else if lvl == 4 && t[i] == Tok::Punct('+') {
        Some((5u8, 1int))
    } else if lvl == 4 && t[i] == Tok::Punct('-') {
        Some((6u8, 1int))
    } else if lvl == 5 && t[i] == Tok::Punct('*') {
        Some((7u8, 1int))
    } else {
        None
    }
}

/// A binary operator applied in width `w`. Checked, it fails where Rust's
/// constant evaluation in a `w`-bit unsigned type fails: a sum or product
/// past the largest value, a difference below zero, a shift by `w` or more.
/// Unchecked, results wrap to `w` bits and a shift amount is taken modulo
/// `w`, which only tells whether the expression is well formed.
pub open spec fn apply(op: u8, a: u128, b: u128, w: u32, checked: bool) -> Option<u128> {
    if op == 0 {
        Some(a | b)
    } else if op == 1 {
        Some(a ^ b)
    } else if op == 2 {
        Some(a & b)
    } else if op == 3 {
        if checked {
            if b >= w {
                None
            } else {
                Some((a << b) & ones(w))
            }
        } else {
            Some((a << (b % (w as u128))) & ones(w))
        }
    } else if op == 4 {
        if checked {
            if b >= w {
                None
            } else {
                Some(a >> b)
            }
        } else {
            Some(a >> (b % (w as u128)))
        }
    } else if op == 5 {
        if checked {
            if a as int + b as int > ones(w) as int {
                None
            } else {
                Some((a + b) as u128)
            }
        } else {
            Some(a.wrapping_add(b) & ones(w))
        }
    } else if op == 6 {
        if checked {
            if a < b {
                None
            } else {
                Some((a - b) as u128)
            }
        } else {
            Some(a.wrapping_sub(b) & ones(w))
        }
    } else {
        if checked {
            if a as int * b as int > ones(w) as int {
                None
            } else {
                Some((a * b) as u128)
            }
        } else {
            Some(a.wrapping_mul(b) & ones(w))
        }
    }
}

/// The expression of level `lvl` that starts at `t[i]`: its value in width
/// `w` and the index after it. Level 6 is a literal, a parenthesized
/// expression or `!` applied to a level-6 expression; a lower level is a
/// left-associated chain of operators of that level over the next level.
/// Checked, a literal past the largest `w`-bit value fails too.
pub open spec fn ev(t: Seq<Tok>, i: int, lvl: nat, w: u32, checked: bool) -> Option<(u128, int)>
    decreases t.len() - i, 7 - lvl, 1int,
{
    if i < 0 || i >= t.len() {
        None
    } else if lvl >= 6 {
        match t[i] {
            Tok::Int(n) => if checked && n > ones(w) {
                None
            } else {
                Some((n & ones(w), i + 1))
            },
            Tok::Punct(c) => if c == '(' {
                match ev(t, i + 1, 0, w, checked) {
                    Some((a, j)) => if i < j < t.len() && t[j] == Tok::Punct(')') {
                        Some((a, j + 1))
                    } else {
                        None
                    },
                    None => None,
                }
            } else if c == '!' {
                match ev(t, i + 1, 6, w, checked) {
                    Some((a, j)) => Some((!a & ones(w), j)),
                    None => None,
                }
            } else {
                None
            },
            _ => None,
        }
    } else {
        match ev(t, i, lvl + 1, w, checked) {
            Some((a, j)) => if i < j <= t.len() {
                ev_tail(t, j, lvl, a, w, checked)
            } else {
                None
            },
            None => None,
        }
    }
}

/// The rest of a chain of level `lvl` from `t[i]`, after the operands so far
/// have given `acc`.
pub open spec fn ev_tail(t: Seq<Tok>, i: int, lvl: nat, acc: u128, w: u32, checked: bool) -> Option<
    (u128, int),
>
    decreases t.len() - i, 7 - lvl, 0int,
{
    if i < 0 || i > t.len() || lvl >= 6 {
        None
    } else {
        match op_at(t, i, lvl) {
            Some((op, k)) => match ev(t, i + k, lvl + 1, w, checked) {
                Some((b, j)) => if i < j <= t.len() {
                    match apply(op, acc, b, w, checked) {
                        Some(c) => ev_tail(t, j, lvl, c, w, checked),
                        None => None,
                    }
                } else {
                    None
                },
                None => None,
            },
            None => Some((acc, i)),
        }
    }
}

/// `t` is one whole foldable expression: literals, parentheses, `!` and the
/// operators above, nothing else. Any other value (a named constant, a
/// path, a cast, a division...) is left to the compiler of the generated
/// code.
pub open spec fn expr_ok(t: Seq<Tok>) -> bool {
    ev(t, 0, 0, 128, false) matches Some((_, j)) && j == t.len()
}

/// The foldable expression `t` can be evaluated in width `w` as Rust would:
/// no literal and no intermediate result leaves the `w`-bit range, and no
/// shift is by `w` or more.
pub open spec fn expr_fits(t: Seq<Tok>, w: u32) -> bool {
    ev(t, 0, 0, w, true) matches Some((_, j)) && j == t.len()
}

/// The value in width `w` of the expression that starts `t` (zero when it
/// cannot be evaluated).
pub open spec fn expr_eval(t: Seq<Tok>, w: u32) -> u128 {
    match ev(t, 0, 0, w, true) {
        Some((v, _)) => v,
        None => 0,
    }
}

fn ones_exec(w: u32) -> (r: u128)
    requires
        1 <= w <= 128,
    ensures
        r == ones(w),
{
    u128::MAX >> ((128 - w) as u128)
}

fn punct_is(toks: &Vec<Spanned>, i: usize, c: char) -> (r: bool)
    ensures
        r == (i < toks@.len() && toks_of(toks@)[i as int] == Tok::Punct(c)),
{
    if i < toks.len() {
        match &toks[i].token {
            Token::Punct(d) => *d == c,
            _ => false,
        }
    } else {
        false
    }
}

fn op_at_exec(toks: &Vec<Spanned>, i: usize, lvl: usize) -> (r: Option<(u8, usize)>)
    ensures
        r is Some <==> op_at(toks_of(toks@), i as int, lvl as nat) is Some,
        r matches Some((op, k)) ==> op_at(toks_of(toks@), i as int, lvl as nat) == Some(
            (op, k as int),
        ) && i + k <= toks@.len(),
{
    if i >= toks.len() {
        None
    } else if lvl == 0 && punct_is(toks, i, '|') {
        Some((0, 1))
    } else if lvl == 1 && punct_is(toks, i, '^') {
        Some((1, 1))
    } else if lvl == 2 && punct_is(toks, i, '&') {
        Some((2, 1))
    } else if lvl == 3 && punct_is(toks, i, '<') && punct_is(toks, i + 1, '<') {
        Some((3, 2))
    } else if lvl == 3 && punct_is(toks, i, '>') && punct_is(toks, i + 1, '>') {
        Some((4, 2))
    } else if lvl == 4 && punct_is(toks, i, '+') {
        Some((5, 1))
    } else if lvl == 4 && punct_is(toks, i, '-') {
        Some((6, 1))
    } else if lvl == 5 && punct_is(toks, i, '*') {
        Some((7, 1))
    } else {
        None
    }
}

fn apply_exec(op: u8, a: u128, b: u128, w: u32, checked: bool) -> (r: Option<u128>)
    requires
        1 <= w <= 128,
    ensures
        r == apply(op, a, b, w, checked),
{
    let m = ones_exec(w);
    if op == 0 {
        Some(a | b)
    } else if op == 1 {
        Some(a ^ b)
    } else if op == 2 {
        Some(a & b)
    } else if op == 3 {
        if checked {
            if b >= w as u128 {
                None
            } else {
                Some((a << b) & m)
            }
        } else {
            Some((a << (b % (w as u128))) & m)
        }
    } else if op == 4 {
        if checked {
            if b >= w as u128 {
                None
            } else {
                Some(a >> b)
            }
        } else {
            Some(a >> (b % (w as u128)))
        }
    } else if op == 5 {
        if checked {
            match a.checked_add(b) {
                Some(c) => if c > m {
                    None
                } else {
                    Some(c)
                },
                None => None,
            }
        } else {
            Some(a.wrapping_add(b) & m)
        }
    } else if op == 6 {
        if checked {
            if a < b {
                None
            } else {
                Some(a - b)
            }
        } else {
            Some(a.wrapping_sub(b) & m)
        }
    } else {
        if checked {
            match a.checked_mul(b) {
                Some(c) => if c > m {
                    None
                } else {
                    Some(c)
                },
                None => None,
            }
        } else {
            Some(a.wrapping_mul(b) & m)
        }
    }
}

fn ev_exec(toks: &Vec<Spanned>, i: usize, lvl: usize, w: u32, checked: bool) -> (r: Option<(u128, usize)>)
    requires
        1 <= w <= 128,
        lvl <= 6,
    ensures
        r is Some <==> ev(toks_of(toks@), i as int, lvl as nat, w, checked) is Some,
        r matches Some((v, j)) ==> ev(toks_of(toks@), i as int, lvl as nat, w, checked) == Some(
            (v, j as int),
        ),
    decreases toks@.len() - i, 7 - lvl, 1int,
{
    let ghost t = toks_of(toks@);
    if i >= toks.len() {
        return None;
    }
    if lvl >= 6 {
        match &toks[i].token {
            Token::Int(n) => {
                let m = ones_exec(w);
                if checked && *n > m {
                    None
                } else {
                    Some((*n & m, i + 1))
                }
            },
            Token::Punct(c) => {
                if *c == '(' {
                    match ev_exec(toks, i + 1, 0, w, checked) {
                        Some((a, j)) => {
                            if i < j && j < toks.len() && punct_is(toks, j, ')') {
                                Some((a, j + 1))
                            } else {
                                None
                            }
                        },
                        None => None,
                    }
                } else if *c == '!' {
                    match ev_exec(toks, i + 1, 6, w, checked) {
                        Some((a, j)) => Some((!a & ones_exec(w), j)),
                        None => None,
                    }
                } else {
                    None
                }
            },
            _ => None,
        }
    } else {
        match ev_exec(toks, i, lvl + 1, w, checked) {
            Some((a, j)) => {
                if i < j && j <= toks.len() {
                    ev_tail_exec(toks, j, lvl, a, w, checked)
                } else {
                    None
                }
            },
            None => None,
        }
    }
}

fn ev_tail_exec(toks: &Vec<Spanned>, i: usize, lvl: usize, acc: u128, w: u32, checked: bool) -> (r: Option<
    (u128, usize),
>)
    requires
        1 <= w <= 128,
        lvl < 6,
        i <= toks@.len(),
    ensures
        r is Some <==> ev_tail(toks_of(toks@), i as int, lvl as nat, acc, w, checked) is Some,
        r matches Some((v, j)) ==> ev_tail(toks_of(toks@), i as int, lvl as nat, acc, w, checked) == Some(
            (v, j as int),
        ),
    decreases toks@.len() - i, 7 - lvl, 0int,
{
    let n = toks.len();
    match op_at_exec(toks, i, lvl) {
        Some((op, k)) => {
            match ev_exec(toks, i + k, lvl + 1, w, checked) {
                Some((b, j)) => {
                    if i < j && j <= toks.len() {
                        match apply_exec(op, acc, b, w, checked) {
                            Some(c) => ev_tail_exec(toks, j, lvl, c, w, checked),
                            None => None,
                        }
                    } else {
                        None
                    }
                },
                None => None,
            }
        },
        None => Some((acc, i)),
    }
}

/// Whether the tokens `toks` form one whole value expression.
pub fn expr_ok_exec(toks: &Vec<Spanned>) -> (r: bool)
    ensures
        r == expr_ok(toks_of(toks@)),
{
    match ev_exec(toks, 0, 0, 128, false) {
        Some((_, j)) => j == toks.len(),
        None => false,
    }
}

/// Whether the foldable expression `toks` can be evaluated in width `w`.
pub fn expr_fits_exec(toks: &Vec<Spanned>, w: u32) -> (r: bool)
    requires
        1 <= w <= 128,
    ensures
        r == expr_fits(toks_of(toks@), w),
{
    match ev_exec(toks, 0, 0, w, true) {
        Some((_, j)) => j == toks.len(),
        None => false,
    }
}

/// The value in width `w` of the expression `toks`.
pub fn eval_expr(toks: &Vec<Spanned>, w: u32) -> (r: u128)
    requires
        1 <= w <= 128,
    ensures
        r == expr_eval(toks_of(toks@), w),
{
    match ev_exec(toks, 0, 0, w, true) {
        Some((v, _)) => v,
        None => 0,
    }
}

} // verus!
