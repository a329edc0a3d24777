//! Parsing JSON text.
//!
//! `sp_text` is the mathematical parser: a fuel-bounded recursive
//! descent over a character sequence. The executable parser returns
//! exactly what `sp_text` says on every input. The fuel bound
//! `2 * remaining + 1` always suffices, and the result does not depend
//! on the fuel once it is large enough (`lemma_sp_value_fuel`).

use vstd::prelude::*;

use crate::json::{JVal, JsonValue, jvals_of, jmembers_of, lemma_jvals_of, lemma_jmembers_of};
use crate::text::{spec_hex_value, push_char, hex_value, char_from_u32};

verus! {

/// JSON whitespace.
pub open spec fn is_ws(c: char) -> bool {
    c == ' ' || c == '\t' || c == '\r' || c == '\n'
}

/// A decimal digit.
pub open spec fn is_digit(c: char) -> bool {
    48 <= (c as u32) <= 57
}

/// The value of a decimal digit character.
pub open spec fn digit_val(c: char) -> int {
    (c as u32) - 48
}

/// The character with the given code.
pub open spec fn char_of_code(h: int) -> char {
    h as char
}

/// First position at or after `pos` that does not hold whitespace.
pub open spec fn sp_ws(t: Seq<char>, pos: int) -> int
    decreases t.len() - pos,
{
    if 0 <= pos < t.len() && is_ws(t[pos]) {
        sp_ws(t, pos + 1)
    } else {
        pos
    }
}

/// First position at or after `pos` that does not hold a digit.
pub open spec fn digits_end(t: Seq<char>, pos: int) -> int
    decreases t.len() - pos,
{
    if 0 <= pos < t.len() && is_digit(t[pos]) {
        digits_end(t, pos + 1)
    } else {
        pos
    }
}

/// The number named by a run of decimal digits.
pub open spec fn digits_val(s: Seq<char>) -> nat
    decreases s.len(),
{
    if s.len() == 0 {
        0
    } else {
        (digits_val(s.drop_last()) * 10 + digit_val(s.last())) as nat
    }
}

/// Parse the body of a string, after the opening quote, collecting
/// the characters read so far in `acc`.
pub open spec fn sp_str_body(t: Seq<char>, pos: int, acc: Seq<char>) -> Option<(Seq<char>, int)>
    decreases t.len() - pos,
{
    if !(0 <= pos < t.len()) {
        Option::None
    } else if t[pos] == '"' {
        Option::Some((acc, pos + 1))
    } else if t[pos] == '\\' {
        if pos + 2 > t.len() {
            Option::None
        } else {
            let e = t[pos + 1];
            if e == '"' {
                sp_str_body(t, pos + 2, acc.push('"'))
            } else if e == '\\' {
                sp_str_body(t, pos + 2, acc.push('\\'))
            } else if e == '/' {
                sp_str_body(t, pos + 2, acc.push('/'))
            } else if e == 'n' {
                sp_str_body(t, pos + 2, acc.push('\n'))
            } else if e == 'r' {
                sp_str_body(t, pos + 2, acc.push('\r'))
            } else if e == 't' {
                sp_str_body(t, pos + 2, acc.push('\t'))
            } else if e == 'b' {
                sp_str_body(t, pos + 2, acc.push('\u{8}'))
            } else if e == 'f' {
                sp_str_body(t, pos + 2, acc.push('\u{c}'))
            } else if e == 'u' {
                if pos + 6 > t.len() {
                    Option::None
                } else {
                    let d1 = spec_hex_value(t[pos + 2]);
                    let d2 = spec_hex_value(t[pos + 3]);
                    let d3 = spec_hex_value(t[pos + 4]);
                    let d4 = spec_hex_value(t[pos + 5]);
                    let h = d1 * 4096 + d2 * 256 + d3 * 16 + d4;
                    if d1 < 16 && d2 < 16 && d3 < 16 && d4 < 16 && (h < 0xD800 || 0xE000 <= h) {
                        sp_str_body(t, pos + 6, acc.push(char_of_code(h)))
                    } else {
                        Option::None
                    }
                }
            } else {
                Option::None
            }
        }
    } else if (t[pos] as u32) < 0x20 {
        Option::None
    } else {
        sp_str_body(t, pos + 1, acc.push(t[pos]))
    }
}

/// Parse a number whose first character (a digit or `-`) stands at `pos`.
pub open spec fn sp_number(t: Seq<char>, pos: int) -> Option<(JVal, int)> {
    let neg = t[pos] == '-';
    let start = if neg { pos + 1 } else { pos };
    let e = digits_end(t, start);
    if e == start {
        Option::None
    } else {
        let n = digits_val(t.subrange(start, e));
        if neg {
            if n <= 0x8000000000000000 {
                Option::Some((JVal::Int((-(n as int)) as i64), e))
            } else {
                Option::None
            }
        } else {
            if n <= 0x7fffffffffffffff {
                Option::Some((JVal::Int(n as i64), e))
            } else {
                Option::None
            }
        }
    }
}

/// Parse one value, skipping leading whitespace.
pub open spec fn sp_value(t: Seq<char>, pos: int, fuel: nat) -> Option<(JVal, int)>
    decreases fuel,
{
    if fuel == 0 {
        Option::None
    } else {
        let p = sp_ws(t, pos);
        if !(0 <= p < t.len()) {
            Option::None
        } else {
            let c = t[p];
            if c == 'n' {
                if p + 4 <= t.len() && t[p + 1] == 'u' && t[p + 2] == 'l' && t[p + 3] == 'l' {
                    Option::Some((JVal::Null, p + 4))
                } else {
                    Option::None
                }
            } else if c == 't' {
                if p + 4 <= t.len() && t[p + 1] == 'r' && t[p + 2] == 'u' && t[p + 3] == 'e' {
                    Option::Some((JVal::Bool(true), p + 4))
                } else {
                    Option::None
                }
            } else if c == 'f' {
                if p + 5 <= t.len() && t[p + 1] == 'a' && t[p + 2] == 'l' && t[p + 3] == 's'
                    && t[p + 4] == 'e' {
                    Option::Some((JVal::Bool(false), p + 5))
                } else {
                    Option::None
                }
            } else if c == '"' {
                match sp_str_body(t, p + 1, Seq::empty()) {
                    Option::Some((s, q)) => Option::Some((JVal::Str(s), q)),
                    Option::None => Option::None,
                }
            } else if c == '-' || is_digit(c) {
                sp_number(t, p)
            } else if c == '[' {
                let q = sp_ws(t, p + 1);
                if 0 <= q < t.len() && t[q] == ']' {
                    Option::Some((JVal::Arr(Seq::empty()), q + 1))
                } else {
                    match sp_elems(t, p + 1, (fuel - 1) as nat, Seq::empty()) {
                        Option::Some((vs, r)) => Option::Some((JVal::Arr(vs), r)),
                        Option::None => Option::None,
                    }
                }
            } else if c == '{' {
                let q = sp_ws(t, p + 1);
                if 0 <= q < t.len() && t[q] == '}' {
                    Option::Some((JVal::Obj(Seq::empty()), q + 1))
                } else {
                    match sp_members(t, p + 1, (fuel - 1) as nat, Seq::empty()) {
                        Option::Some((ms, r)) => Option::Some((JVal::Obj(ms), r)),
                        Option::None => Option::None,
                    }
                }
            } else {
                Option::None
            }
        }
    }
}

/// Parse the elements of a non-empty array, up to its closing bracket.
pub open spec fn sp_elems(t: Seq<char>, pos: int, fuel: nat, acc: Seq<JVal>) -> Option<
    (Seq<JVal>, int),
>
    decreases fuel,
{
    if fuel == 0 {
        Option::None
    } else {
        match sp_value(t, pos, (fuel - 1) as nat) {
            Option::None => Option::None,
            Option::Some((v, q)) => {
                let r = sp_ws(t, q);
                if 0 <= r < t.len() && t[r] == ',' {
                    sp_elems(t, r + 1, (fuel - 1) as nat, acc.push(v))
                } else if 0 <= r < t.len() && t[r] == ']' {
                    Option::Some((acc.push(v), r + 1))
                } else {
                    Option::None
                }
            },
        }
    }
}

/// Parse the members of a non-empty object, up to its closing brace.
pub open spec fn sp_members(
    t: Seq<char>,
    pos: int,
    fuel: nat,
    acc: Seq<(Seq<char>, JVal)>,
) -> Option<(Seq<(Seq<char>, JVal)>, int)>
    decreases fuel,
{
    if fuel == 0 {
        Option::None
    } else {
        let p = sp_ws(t, pos);
        if !(0 <= p < t.len()) || t[p] != '"' {
            Option::None
        } else {
            match sp_str_body(t, p + 1, Seq::empty()) {
                Option::None => Option::None,
                Option::Some((k, q)) => {
                    let r = sp_ws(t, q);
                    if !(0 <= r < t.len()) || t[r] != ':' {
                        Option::None
                    } else {
                        match sp_value(t, r + 1, (fuel - 1) as nat) {
                            Option::None => Option::None,
                            Option::Some((v, s2)) => {
                                let u = sp_ws(t, s2);
                                if 0 <= u < t.len() && t[u] == ',' {
                                    sp_members(t, u + 1, (fuel - 1) as nat, acc.push((k, v)))
                                } else if 0 <= u < t.len() && t[u] == '}' {
                                    Option::Some((acc.push((k, v)), u + 1))
                                } else {
                                    Option::None
                                }
                            },
                        }
                    }
                },
            }
        }
    }
}

/// Parse a whole text: one value, with nothing but whitespace around it.
pub open spec fn sp_text(t: Seq<char>) -> Option<JVal> {
    match sp_value(t, 0, (2 * t.len() + 1) as nat) {
        Option::Some((v, q)) => {
            if sp_ws(t, q) == t.len() {
                Option::Some(v)
            } else {
                Option::None
            }
        },
        Option::None => Option::None,
    }
}

/// Whitespace skipping stays within the text and skips only whitespace.
pub proof fn lemma_sp_ws(t: Seq<char>, pos: int)
    requires
        0 <= pos <= t.len(),
    ensures
        pos <= sp_ws(t, pos) <= t.len(),
        sp_ws(t, pos) < t.len() ==> !is_ws(t[sp_ws(t, pos)]),
        forall|j: int| pos <= j < sp_ws(t, pos) ==> is_ws(t[j]),
    decreases t.len() - pos,
{
    if 0 <= pos < t.len() && is_ws(t[pos]) {
        lemma_sp_ws(t, pos + 1);
    }
}

/// Whitespace skipping is the identity on a non-whitespace character.
pub proof fn lemma_sp_ws_id(t: Seq<char>, pos: int)
    requires
        0 <= pos <= t.len(),
        pos < t.len() ==> !is_ws(t[pos]),
    ensures
        sp_ws(t, pos) == pos,
{
}

/// The digit run stays within the text and covers only digits.
pub proof fn lemma_digits_end(t: Seq<char>, pos: int)
    requires
        0 <= pos <= t.len(),
    ensures
        pos <= digits_end(t, pos) <= t.len(),
        digits_end(t, pos) < t.len() ==> !is_digit(t[digits_end(t, pos)]),
        forall|j: int| pos <= j < digits_end(t, pos) ==> is_digit(t[j]),
    decreases t.len() - pos,
{
    if 0 <= pos < t.len() && is_digit(t[pos]) {
        lemma_digits_end(t, pos + 1);
    }
}

/// A successful string body parse moves forward and stays in the text.
pub proof fn lemma_sp_str_body_bounds(t: Seq<char>, pos: int, acc: Seq<char>)
    requires
        0 <= pos <= t.len(),
    ensures
        sp_str_body(t, pos, acc) matches Option::Some((s, q)) ==> pos < q <= t.len(),
    decreases t.len() - pos,
{
    if 0 <= pos < t.len() && t[pos] != '"' {
        if t[pos] == '\\' {
            if pos + 2 <= t.len() {
                let e = t[pos + 1];
                if e == '"' {
                    lemma_sp_str_body_bounds(t, pos + 2, acc.push('"'));
                } else if e == '\\' {
                    lemma_sp_str_body_bounds(t, pos + 2, acc.push('\\'));
                } else if e == '/' {
                    lemma_sp_str_body_bounds(t, pos + 2, acc.push('/'));
                } else if e == 'n' {
                    lemma_sp_str_body_bounds(t, pos + 2, acc.push('\n'));
                } else if e == 'r' {
                    lemma_sp_str_body_bounds(t, pos + 2, acc.push('\r'));
                } else if e == 't' {
                    lemma_sp_str_body_bounds(t, pos + 2, acc.push('\t'));
                } else if e == 'b' {
                    lemma_sp_str_body_bounds(t, pos + 2, acc.push('\u{8}'));
                } else if e == 'f' {
                    lemma_sp_str_body_bounds(t, pos + 2, acc.push('\u{c}'));
                } else if e == 'u' {
                    if pos + 6 <= t.len() {
                        let d1 = spec_hex_value(t[pos + 2]);
                        let d2 = spec_hex_value(t[pos + 3]);
                        let d3 = spec_hex_value(t[pos + 4]);
                        let d4 = spec_hex_value(t[pos + 5]);
                        let h = d1 * 4096 + d2 * 256 + d3 * 16 + d4;
                        lemma_sp_str_body_bounds(t, pos + 6, acc.push(char_of_code(h)));
                    }
                }
            }
        } else if (t[pos] as u32) >= 0x20 {
            lemma_sp_str_body_bounds(t, pos + 1, acc.push(t[pos]));
        }
    }
}

/// A successful number parse moves forward and stays in the text.
pub proof fn lemma_sp_number_bounds(t: Seq<char>, pos: int)
    requires
        0 <= pos < t.len(),
    ensures
        sp_number(t, pos) matches Option::Some((v, q)) ==> pos < q <= t.len(),
{
    let neg = t[pos] == '-';
    let start: int = if neg { pos + 1 } else { pos };
    if start <= t.len() {
        lemma_digits_end(t, start);
    }
}

/// A successful value parse moves forward and stays in the text.
pub proof fn lemma_sp_value_bounds(t: Seq<char>, pos: int, fuel: nat)
    requires
        0 <= pos <= t.len(),
    ensures
        sp_value(t, pos, fuel) matches Option::Some((v, q)) ==> pos < q <= t.len(),
    decreases fuel,
{
    if fuel != 0 {
        lemma_sp_ws(t, pos);
        let p = sp_ws(t, pos);
        if 0 <= p < t.len() {
            let c = t[p];
            if c == '"' {
                lemma_sp_str_body_bounds(t, p + 1, Seq::empty());
            } else if c == '-' || is_digit(c) {
                lemma_sp_number_bounds(t, p);
            } else if c == '[' {
                lemma_sp_ws(t, p + 1);
                lemma_sp_elems_bounds(t, p + 1, (fuel - 1) as nat, Seq::empty());
            } else if c == '{' {
                lemma_sp_ws(t, p + 1);
                lemma_sp_members_bounds(t, p + 1, (fuel - 1) as nat, Seq::empty());
            }
        }
    }
}

/// A successful element-list parse moves forward and stays in the text.
pub proof fn lemma_sp_elems_bounds(t: Seq<char>, pos: int, fuel: nat, acc: Seq<JVal>)
    requires
        0 <= pos <= t.len(),
    ensures
        sp_elems(t, pos, fuel, acc) matches Option::Some((vs, q)) ==> pos < q <= t.len(),
    decreases fuel,
{
    if fuel != 0 {
        lemma_sp_value_bounds(t, pos, (fuel - 1) as nat);
        match sp_value(t, pos, (fuel - 1) as nat) {
            Option::Some((v, q)) => {
                lemma_sp_ws(t, q);
                let r = sp_ws(t, q);
                if 0 <= r < t.len() && t[r] == ',' {
                    lemma_sp_elems_bounds(t, r + 1, (fuel - 1) as nat, acc.push(v));
                }
            },
            Option::None => {},
        }
    }
}

/// A successful member-list parse moves forward and stays in the text.
pub proof fn lemma_sp_members_bounds(
    t: Seq<char>,
    pos: int,
    fuel: nat,
    acc: Seq<(Seq<char>, JVal)>,
)
    requires
        0 <= pos <= t.len(),
    ensures
        sp_members(t, pos, fuel, acc) matches Option::Some((ms, q)) ==> pos < q <= t.len(),
    decreases fuel,
{
    if fuel != 0 {
        lemma_sp_ws(t, pos);
        let p = sp_ws(t, pos);
        if 0 <= p < t.len() && t[p] == '"' {
            lemma_sp_str_body_bounds(t, p + 1, Seq::empty());
            match sp_str_body(t, p + 1, Seq::empty()) {
                Option::Some((k, q)) => {
                    lemma_sp_ws(t, q);
                    let r = sp_ws(t, q);
                    if 0 <= r < t.len() && t[r] == ':' {
                        lemma_sp_value_bounds(t, r + 1, (fuel - 1) as nat);
                        match sp_value(t, r + 1, (fuel - 1) as nat) {
                            Option::Some((v, s2)) => {
                                lemma_sp_ws(t, s2);
                                let u = sp_ws(t, s2);
                                if 0 <= u < t.len() && t[u] == ',' {
                                    lemma_sp_members_bounds(
                                        t,
                                        u + 1,
                                        (fuel - 1) as nat,
                                        acc.push((k, v)),
                                    );
                                }
                            },
                            Option::None => {},
                        }
                    }
                },
                Option::None => {},
            }
        }
    }
}

/// Above the bound `2 * remaining + 1`, the fuel does not change what
/// a value parse returns.
pub proof fn lemma_sp_value_fuel(t: Seq<char>, pos: int, f1: nat, f2: nat)
    requires
        0 <= pos <= t.len(),
        f1 >= 2 * (t.len() - pos) + 1,
        f2 >= 2 * (t.len() - pos) + 1,
    ensures
        sp_value(t, pos, f1) == sp_value(t, pos, f2),
    decreases f1 + f2,
{
    lemma_sp_ws(t, pos);
    let p = sp_ws(t, pos);
    if 0 <= p < t.len() {
        let c = t[p];
        if c == '[' {
            let q = sp_ws(t, p + 1);
            lemma_sp_ws(t, p + 1);
            if !(0 <= q < t.len() && t[q] == ']') {
                lemma_sp_elems_fuel(t, p + 1, (f1 - 1) as nat, (f2 - 1) as nat, Seq::empty());
            }
        } else if c == '{' {
            let q = sp_ws(t, p + 1);
            lemma_sp_ws(t, p + 1);
            if !(0 <= q < t.len() && t[q] == '}') {
                lemma_sp_members_fuel(t, p + 1, (f1 - 1) as nat, (f2 - 1) as nat, Seq::empty());
            }
        }
    }
}

/// Above the bound `2 * remaining + 2`, the fuel does not change what
/// an element-list parse returns.
pub proof fn lemma_sp_elems_fuel(t: Seq<char>, pos: int, f1: nat, f2: nat, acc: Seq<JVal>)
    requires
        0 <= pos <= t.len(),
        f1 >= 2 * (t.len() - pos) + 2,
        f2 >= 2 * (t.len() - pos) + 2,
    ensures
        sp_elems(t, pos, f1, acc) == sp_elems(t, pos, f2, acc),
    decreases f1 + f2,
{
    lemma_sp_value_fuel(t, pos, (f1 - 1) as nat, (f2 - 1) as nat);
    lemma_sp_value_bounds(t, pos, (f1 - 1) as nat);
    match sp_value(t, pos, (f1 - 1) as nat) {
        Option::Some((v, q)) => {
            lemma_sp_ws(t, q);
            let r = sp_ws(t, q);
            if 0 <= r < t.len() && t[r] == ',' {
                lemma_sp_elems_fuel(t, r + 1, (f1 - 1) as nat, (f2 - 1) as nat, acc.push(v));
            }
        },
        Option::None => {},
    }
}

/// Above the bound `2 * remaining + 2`, the fuel does not change what
/// a member-list parse returns.
pub proof fn lemma_sp_members_fuel(
    t: Seq<char>,
    pos: int,
    f1: nat,
    f2: nat,
    acc: Seq<(Seq<char>, JVal)>,
)
    requires
        0 <= pos <= t.len(),
        f1 >= 2 * (t.len() - pos) + 2,
        f2 >= 2 * (t.len() - pos) + 2,
    ensures
        sp_members(t, pos, f1, acc) == sp_members(t, pos, f2, acc),
    decreases f1 + f2,
{
    lemma_sp_ws(t, pos);
    let p = sp_ws(t, pos);
    if 0 <= p < t.len() && t[p] == '"' {
        lemma_sp_str_body_bounds(t, p + 1, Seq::empty());
        match sp_str_body(t, p + 1, Seq::empty()) {
            Option::Some((k, q)) => {
                lemma_sp_ws(t, q);
                let r = sp_ws(t, q);
                if 0 <= r < t.len() && t[r] == ':' {
                    lemma_sp_value_fuel(t, r + 1, (f1 - 1) as nat, (f2 - 1) as nat);
                    lemma_sp_value_bounds(t, r + 1, (f1 - 1) as nat);
                    match sp_value(t, r + 1, (f1 - 1) as nat) {
                        Option::Some((v, s2)) => {
                            lemma_sp_ws(t, s2);
                            let u = sp_ws(t, s2);
                            if 0 <= u < t.len() && t[u] == ',' {
                                lemma_sp_members_fuel(
                                    t,
                                    u + 1,
                                    (f1 - 1) as nat,
                                    (f2 - 1) as nat,
                                    acc.push((k, v)),
                                );
                            }
                        },
                        Option::None => {},
                    }
                }
            },
            Option::None => {},
        }
    }
}


/// The model of an executable parse step.
pub open spec fn step_model(r: Option<(JsonValue, usize)>) -> Option<(JVal, int)> {
    match r {
        Option::Some((v, q)) => Option::Some((v@, q as int)),
        Option::None => Option::None,
    }
}

/// The characters of a string, one per element.
pub fn str_chars(s: &str) -> (r: Vec<char>)
    ensures
        r@ == s@,
{
    let n = s.unicode_len();
    let mut r: Vec<char> = Vec::new();
    let mut i: usize = 0;
    while i < n
        invariant
            n == s@.len(),
            0 <= i <= n,
            r@ == s@.take(i as int),
        decreases n - i,
    {
        r.push(s.get_char(i));
        proof {
            assert(r@ =~= s@.take(i + 1));
        }
        i = i + 1;
    }
    proof {
        assert(r@ =~= s@);
    }
    r
}

fn is_ws_exec(c: char) -> (b: bool)
    ensures
        b == is_ws(c),
{
    c == ' ' || c == '\t' || c == '\r' || c == '\n'
}

fn is_digit_exec(c: char) -> (b: bool)
    ensures
        b == is_digit(c),
{
    let u = c as u32;
    48 <= u && u <= 57
}

fn digit_value(c: char) -> (d: u64)
    requires
        is_digit(c),
    ensures
        d == digit_val(c),
        d < 10,
{
    ((c as u32) - 48) as u64
}

/// Skip whitespace, as `sp_ws` says.
fn scan_ws(cs: &Vec<char>, pos: usize) -> (r: usize)
    requires
        pos <= cs@.len(),
    ensures
        r == sp_ws(cs@, pos as int),
        pos <= r <= cs@.len(),
{
    let n = cs.len();
    let mut i = pos;
    while i < n && is_ws_exec(cs[i])
        invariant
            pos <= i <= n,
            n == cs@.len(),
            sp_ws(cs@, pos as int) == sp_ws(cs@, i as int),
        decreases n - i,
    {
        proof {
            assert(sp_ws(cs@, i as int) == sp_ws(cs@, i + 1));
        }
        i = i + 1;
    }
    proof {
        assert(sp_ws(cs@, i as int) == i as int);
    }
    i
}

/// Parse a string whose opening quote stands at `pos`, as
/// `sp_str_body` says.
fn parse_string_at(cs: &Vec<char>, pos: usize) -> (r: Option<(String, usize)>)
    requires
        pos < cs@.len(),
        cs@[pos as int] == '"',
    ensures
        match r {
            Option::Some((s, q)) => sp_str_body(cs@, pos + 1, Seq::empty())
                == Option::Some((s@, q as int)) && pos < q <= cs@.len(),
            Option::None => sp_str_body(cs@, pos + 1, Seq::empty()) is None,
        },
{
    let ghost t = cs@;
    let n = cs.len();
    let mut out = String::new();
    let mut i: usize = pos + 1;
    loop
        invariant
            pos + 1 <= i <= n,
            n == t.len(),
            t == cs@,
            pos < n,
            sp_str_body(t, i as int, out@) == sp_str_body(t, pos + 1, Seq::<char>::empty()),
        decreases n - i,
    {
        if i == n {
            proof {
                assert(sp_str_body(t, i as int, out@) is None);
            }
            return Option::None;
        }
        let c = cs[i];
        if c == '"' {
            proof {
                assert(sp_str_body(t, i as int, out@) == Option::Some((out@, i + 1)));
            }
            return Option::Some((out, i + 1));
        } else if c == '\\' {
            if n - i < 2 {
                proof {
                    assert(sp_str_body(t, i as int, out@) is None);
                }
                return Option::None;
            }
            let e = cs[i + 1];
            let ghost prev = out@;
            if e == '"' {
                push_char(&mut out, '"');
                proof {
                    assert(sp_str_body(t, i as int, prev) == sp_str_body(t, i + 2, out@));
                }
                i = i + 2;
            } else if e == '\\' {
                push_char(&mut out, '\\');
                proof {
                    assert(sp_str_body(t, i as int, prev) == sp_str_body(t, i + 2, out@));
                }
                i = i + 2;
            } else if e == '/' {
                push_char(&mut out, '/');
                proof {
                    assert(sp_str_body(t, i as int, prev) == sp_str_body(t, i + 2, out@));
                }
                i = i + 2;
            } else if e == 'n' {
                push_char(&mut out, '\n');
                proof {
                    assert(sp_str_body(t, i as int, prev) == sp_str_body(t, i + 2, out@));
                }
                i = i + 2;
            } else if e == 'r' {
                push_char(&mut out, '\r');
                proof {
                    assert(sp_str_body(t, i as int, prev) == sp_str_body(t, i + 2, out@));
                }
                i = i + 2;
            } else if e == 't' {
                push_char(&mut out, '\t');
                proof {
                    assert(sp_str_body(t, i as int, prev) == sp_str_body(t, i + 2, out@));
                }
                i = i + 2;
            } else if e == 'b' {
                push_char(&mut out, '\u{8}');
                proof {
                    assert(sp_str_body(t, i as int, prev) == sp_str_body(t, i + 2, out@));
                }
                i = i + 2;
            } else if e == 'f' {
                push_char(&mut out, '\u{c}');
                proof {
                    assert(sp_str_body(t, i as int, prev) == sp_str_body(t, i + 2, out@));
                }
                i = i + 2;
            } else if e == 'u' {
                if n - i < 6 {
                    proof {
                        assert(sp_str_body(t, i as int, out@) is None);
                    }
                    return Option::None;
                }
                let h1 = hex_value(cs[i + 2]);
                let h2 = hex_value(cs[i + 3]);
                let h3 = hex_value(cs[i + 4]);
                let h4 = hex_value(cs[i + 5]);
                if h1 >= 16 || h2 >= 16 || h3 >= 16 || h4 >= 16 {
                    proof {
                        assert(sp_str_body(t, i as int, out@) is None);
                    }
                    return Option::None;
                }
                let h: u32 = h1 * 4096 + h2 * 256 + h3 * 16 + h4;
                if 0xD800 <= h && h < 0xE000 {
                    proof {
                        assert(sp_str_body(t, i as int, out@) is None);
                    }
                    return Option::None;
                }
                let copt = char_from_u32(h);
                let c2 = copt.unwrap();
                proof {
                    assert(c2 as u32 == h as int);
                    assert(c2 == char_of_code(h as int));
                }
                push_char(&mut out, c2);
                proof {
                    assert(sp_str_body(t, i as int, prev) == sp_str_body(t, i + 6, out@));
                }
                i = i + 6;
            } else {
                proof {
                    assert(sp_str_body(t, i as int, out@) is None);
                }
                return Option::None;
            }
        } else if (c as u32) < 0x20 {
            proof {
                assert(sp_str_body(t, i as int, out@) is None);
            }
            return Option::None;
        } else {
            let ghost prev = out@;
            push_char(&mut out, c);
            proof {
                assert(sp_str_body(t, i as int, prev) == sp_str_body(t, i + 1, out@));
            }
            i = i + 1;
        }
    }
}

/// Growing a digit run never shrinks its value.
proof fn lemma_digits_val_step(t: Seq<char>, start: int, i: int)
    requires
        0 <= start <= i < t.len(),
        is_digit(t[i]),
    ensures
        digits_val(t.subrange(start, i + 1))
            == digits_val(t.subrange(start, i)) * 10 + digit_val(t[i]),
{
    assert(t.subrange(start, i + 1).drop_last() =~= t.subrange(start, i));
    assert(t.subrange(start, i + 1).last() == t[i]);
}

/// Parse a number whose first character stands at `pos`, as
/// `sp_number` says.
fn parse_number_at(cs: &Vec<char>, pos: usize) -> (r: Option<(JsonValue, usize)>)
    requires
        pos < cs@.len(),
        cs@[pos as int] == '-' || is_digit(cs@[pos as int]),
    ensures
        step_model(r) == sp_number(cs@, pos as int),
        r matches Option::Some((v, q)) ==> pos < q <= cs@.len(),
{
    let ghost t = cs@;
    let n = cs.len();
    let neg = cs[pos] == '-';
    let start = if neg { pos + 1 } else { pos };
    let ghost e = digits_end(t, start as int);
    proof {
        lemma_digits_end(t, start as int);
    }
    let mut i = start;
    let mut mag: u64 = 0;
    let mut over = false;
    while i < n && is_digit_exec(cs[i])
        invariant
            start <= i <= n,
            start <= n,
            n == t.len(),
            t == cs@,
            e == digits_end(t, start as int),
            digits_end(t, start as int) == digits_end(t, i as int),
            forall|j: int| start <= j < i ==> is_digit(t[j]),
            !over ==> mag == digits_val(t.subrange(start as int, i as int)),
            over ==> digits_val(t.subrange(start as int, i as int)) > u64::MAX,
        decreases n - i,
    {
        let d = digit_value(cs[i]);
        let ghost prev_val = digits_val(t.subrange(start as int, i as int));
        proof {
            lemma_digits_val_step(t, start as int, i as int);
        }
        if !over {
            match mag.checked_mul(10) {
                Option::Some(m10) => {
                    match m10.checked_add(d) {
                        Option::Some(m2) => {
                            mag = m2;
                        },
                        Option::None => {
                            over = true;
                        },
                    }
                },
                Option::None => {
                    over = true;
                },
            }
        } else {
            proof {
                assert(digits_val(t.subrange(start as int, i + 1)) >= prev_val);
            }
        }
        proof {
            assert(digits_end(t, i as int) == digits_end(t, i + 1));
        }
        i = i + 1;
    }
    proof {
        assert(digits_end(t, i as int) == i as int);
        assert(e == i as int);
    }
    if i == start {
        proof {
            assert(sp_number(t, pos as int) is None);
        }
        return Option::None;
    }
    if over {
        proof {
            assert(sp_number(t, pos as int) is None);
        }
        return Option::None;
    }
    if neg {
        if mag > 9223372036854775808u64 {
            proof {
                assert(sp_number(t, pos as int) is None);
            }
            return Option::None;
        }
        let v: i64 = if mag == 9223372036854775808u64 {
            i64::MIN
        } else {
            -(mag as i64)
        };
        proof {
            assert(v as int == -(mag as int));
            assert(sp_number(t, pos as int) == Option::Some((JVal::Int(v), e)));
        }
        Option::Some((JsonValue::Int(v), i))
    } else {
        if mag > 9223372036854775807u64 {
            proof {
                assert(sp_number(t, pos as int) is None);
            }
            return Option::None;
        }
        proof {
            assert(sp_number(t, pos as int) == Option::Some((JVal::Int(mag as i64), e)));
        }
        Option::Some((JsonValue::Int(mag as i64), i))
    }
}

/// Parse one value at `pos`, as `sp_value` says with fuel
/// `2 * remaining + 1`.
fn parse_value_at(cs: &Vec<char>, pos: usize) -> (r: Option<(JsonValue, usize)>)
    requires
        pos <= cs@.len(),
    ensures
        step_model(r) == sp_value(cs@, pos as int, (2 * (cs@.len() - pos) + 1) as nat),
        r matches Option::Some((v, q)) ==> pos < q <= cs@.len(),
    decreases cs@.len() - pos,
{
    let ghost t = cs@;
    let ghost fuel = (2 * (t.len() - pos) + 1) as nat;
    let n = cs.len();
    let p = scan_ws(cs, pos);
    if p == n {
        proof {
            assert(sp_value(t, pos as int, fuel) is None);
        }
        return Option::None;
    }
    let c = cs[p];
    if c == 'n' {
        if n - p >= 4 && cs[p + 1] == 'u' && cs[p + 2] == 'l' && cs[p + 3] == 'l' {
            proof {
                assert(sp_value(t, pos as int, fuel) == Option::Some((JVal::Null, p + 4)));
            }
            Option::Some((JsonValue::Null, p + 4))
        } else {
            proof {
                assert(sp_value(t, pos as int, fuel) is None);
            }
            Option::None
        }
    } else if c == 't' {
        if n - p >= 4 && cs[p + 1] == 'r' && cs[p + 2] == 'u' && cs[p + 3] == 'e' {
            proof {
                assert(sp_value(t, pos as int, fuel) == Option::Some((JVal::Bool(true), p + 4)));
            }
            Option::Some((JsonValue::Bool(true), p + 4))
        } else {
            proof {
                assert(sp_value(t, pos as int, fuel) is None);
            }
            Option::None
        }
    } else if c == 'f' {
        if n - p >= 5 && cs[p + 1] == 'a' && cs[p + 2] == 'l' && cs[p + 3] == 's'
            && cs[p + 4] == 'e' {
            proof {
                assert(sp_value(t, pos as int, fuel) == Option::Some((JVal::Bool(false), p + 5)));
            }
            Option::Some((JsonValue::Bool(false), p + 5))
        } else {
            proof {
                assert(sp_value(t, pos as int, fuel) is None);
            }
            Option::None
        }
    } else if c == '"' {
        match parse_string_at(cs, p) {
            Option::Some((s, q)) => {
                proof {
                    assert(sp_value(t, pos as int, fuel) == Option::Some((JVal::Str(s@), q as int)));
                }
                Option::Some((JsonValue::Str(s), q))
            },
            Option::None => {
                proof {
                    assert(sp_value(t, pos as int, fuel) is None);
                }
                Option::None
            },
        }
    } else if c == '-' || is_digit_exec(c) {
        let r = parse_number_at(cs, p);
        proof {
            assert(sp_value(t, pos as int, fuel) == sp_number(t, p as int));
        }
        r
    } else if c == '[' {
        let q0 = scan_ws(cs, p + 1);
        if q0 < n && cs[q0] == ']' {
            let empty_elems: Vec<JsonValue> = Vec::new();
            proof {
                assert(sp_value(t, pos as int, fuel)
                    == Option::Some((JVal::Arr(Seq::empty()), q0 + 1)));
                assert(JsonValue::Arr(empty_elems)@ =~= JVal::Arr(Seq::<JVal>::empty()));
            }
            return Option::Some((JsonValue::Arr(empty_elems), q0 + 1));
        }
        let ghost target = sp_elems(t, p + 1, (fuel - 1) as nat, Seq::<JVal>::empty());
        proof {
            lemma_sp_elems_fuel(
                t,
                p + 1,
                (fuel - 1) as nat,
                (2 * (t.len() - (p + 1)) + 2) as nat,
                Seq::<JVal>::empty(),
            );
        }
        let mut acc: Vec<JsonValue> = Vec::new();
        let mut cur = p + 1;
        loop
            invariant
                p + 1 <= cur <= n,
                n == t.len(),
                t == cs@,
                pos <= p < n,
                fuel == (2 * (t.len() - pos) + 1) as nat,
                target == sp_elems(t, p + 1, (fuel - 1) as nat, Seq::<JVal>::empty()),
                target == sp_elems(t, cur as int, (2 * (t.len() - cur) + 2) as nat, jvals_of(acc@)),
                sp_value(t, pos as int, fuel) == match target {
                    Option::Some((vs, r2)) => Option::Some((JVal::Arr(vs), r2)),
                    Option::None => Option::None,
                },
            decreases n - cur,
        {
            let ghost accm = jvals_of(acc@);
            let ghost efuel = (2 * (t.len() - cur) + 2) as nat;
            let rv = parse_value_at(cs, cur);
            match rv {
                Option::None => {
                    proof {
                        assert(sp_elems(t, cur as int, efuel, accm) is None);
                    }
                    return Option::None;
                },
                Option::Some((v, q)) => {
                    let r2 = scan_ws(cs, q);
                    proof {
                        assert(sp_value(t, cur as int, (efuel - 1) as nat)
                            == Option::Some((v@, q as int)));
                    }
                    if r2 < n && cs[r2] == ',' {
                        let ghost old_acc = acc@;
                        acc.push(v);
                        proof {
                            assert(jvals_of(acc@) =~= accm.push(v@)) by {
                                lemma_jvals_of(acc@);
                                lemma_jvals_of(old_acc);
                                assert(acc@ == old_acc.push(v));
                            }
                            assert(sp_elems(t, cur as int, efuel, accm)
                                == sp_elems(t, r2 + 1, (efuel - 1) as nat, accm.push(v@)));
                            lemma_sp_elems_fuel(
                                t,
                                r2 + 1,
                                (efuel - 1) as nat,
                                (2 * (t.len() - (r2 + 1)) + 2) as nat,
                                accm.push(v@),
                            );
                        }
                        cur = r2 + 1;
                    } else if r2 < n && cs[r2] == ']' {
                        let ghost old_acc = acc@;
                        acc.push(v);
                        proof {
                            assert(jvals_of(acc@) =~= accm.push(v@)) by {
                                lemma_jvals_of(acc@);
                                lemma_jvals_of(old_acc);
                                assert(acc@ == old_acc.push(v));
                            }
                            assert(sp_elems(t, cur as int, efuel, accm)
                                == Option::Some((accm.push(v@), r2 + 1)));
                            assert(JsonValue::Arr(acc)@ == JVal::Arr(jvals_of(acc@)));
                        }
                        return Option::Some((JsonValue::Arr(acc), r2 + 1));
                    } else {
                        proof {
                            assert(sp_elems(t, cur as int, efuel, accm) is None);
                        }
                        return Option::None;
                    }
                },
            }
        }
    } else if c == '{' {
        let q0 = scan_ws(cs, p + 1);
        if q0 < n && cs[q0] == '}' {
            let empty_members: Vec<(String, JsonValue)> = Vec::new();
            proof {
                assert(sp_value(t, pos as int, fuel)
                    == Option::Some((JVal::Obj(Seq::empty()), q0 + 1)));
                assert(JsonValue::Obj(empty_members)@
                    =~= JVal::Obj(Seq::<(Seq<char>, JVal)>::empty()));
            }
            return Option::Some((JsonValue::Obj(empty_members), q0 + 1));
        }
        let ghost target = sp_members(t, p + 1, (fuel - 1) as nat, Seq::<(Seq<char>, JVal)>::empty());
        proof {
            lemma_sp_members_fuel(
                t,
                p + 1,
                (fuel - 1) as nat,
                (2 * (t.len() - (p + 1)) + 2) as nat,
                Seq::<(Seq<char>, JVal)>::empty(),
            );
        }
        let mut acc: Vec<(String, JsonValue)> = Vec::new();
        let mut cur = p + 1;
        loop
            invariant
                p + 1 <= cur <= n,
                n == t.len(),
                t == cs@,
                pos <= p < n,
                fuel == (2 * (t.len() - pos) + 1) as nat,
                target == sp_members(t, p + 1, (fuel - 1) as nat, Seq::<(Seq<char>, JVal)>::empty()),
                target == sp_members(
                    t,
                    cur as int,
                    (2 * (t.len() - cur) + 2) as nat,
                    jmembers_of(acc@),
                ),
                sp_value(t, pos as int, fuel) == match target {
                    Option::Some((ms, r2)) => Option::Some((JVal::Obj(ms), r2)),
                    Option::None => Option::None,
                },
            decreases n - cur,
        {
            let ghost accm = jmembers_of(acc@);
            let ghost mfuel = (2 * (t.len() - cur) + 2) as nat;
            let kp = scan_ws(cs, cur);
            if kp == n {
                proof {
                    assert(sp_members(t, cur as int, mfuel, accm) is None);
                }
                return Option::None;
            }
            if cs[kp] != '"' {
                proof {
                    assert(sp_members(t, cur as int, mfuel, accm) is None);
                }
                return Option::None;
            }
            match parse_string_at(cs, kp) {
                Option::None => {
                    proof {
                        assert(sp_members(t, cur as int, mfuel, accm) is None);
                    }
                    return Option::None;
                },
                Option::Some((k, kq)) => {
                    let cp = scan_ws(cs, kq);
                    if !(cp < n) {
                        proof {
                            assert(sp_members(t, cur as int, mfuel, accm) is None);
                        }
                        return Option::None;
                    }
                    if cs[cp] != ':' {
                        proof {
                            assert(sp_members(t, cur as int, mfuel, accm) is None);
                        }
                        return Option::None;
                    }
                    let rv = parse_value_at(cs, cp + 1);
                    proof {
                        lemma_sp_value_fuel(
                            t,
                            cp + 1,
                            (mfuel - 1) as nat,
                            (2 * (t.len() - (cp + 1)) + 1) as nat,
                        );
                    }
                    match rv {
                        Option::None => {
                            proof {
                                assert(sp_members(t, cur as int, mfuel, accm) is None);
                            }
                            return Option::None;
                        },
                        Option::Some((v, vq)) => {
                            let u = scan_ws(cs, vq);
                            if u < n && cs[u] == ',' {
                                let ghost old_acc = acc@;
                                acc.push((k, v));
                                proof {
                                    assert(jmembers_of(acc@) =~= accm.push((k@, v@))) by {
                                        lemma_jmembers_of(acc@);
                                        lemma_jmembers_of(old_acc);
                                        assert(acc@ == old_acc.push((k, v)));
                                    }
                                    assert(sp_members(t, cur as int, mfuel, accm)
                                        == sp_members(
                                        t,
                                        u + 1,
                                        (mfuel - 1) as nat,
                                        accm.push((k@, v@)),
                                    ));
                                    lemma_sp_members_fuel(
                                        t,
                                        u + 1,
                                        (mfuel - 1) as nat,
                                        (2 * (t.len() - (u + 1)) + 2) as nat,
                                        accm.push((k@, v@)),
                                    );
                                }
                                cur = u + 1;
                            } else if u < n && cs[u] == '}' {
                                let ghost old_acc = acc@;
                                acc.push((k, v));
                                proof {
                                    assert(jmembers_of(acc@) =~= accm.push((k@, v@))) by {
                                        lemma_jmembers_of(acc@);
                                        lemma_jmembers_of(old_acc);
                                        assert(acc@ == old_acc.push((k, v)));
                                    }
                                    assert(sp_members(t, cur as int, mfuel, accm)
                                        == Option::Some((accm.push((k@, v@)), u + 1)));
                                    assert(JsonValue::Obj(acc)@ == JVal::Obj(jmembers_of(acc@)));
                                }
                                return Option::Some((JsonValue::Obj(acc), u + 1));
                            } else {
                                proof {
                                    assert(sp_members(t, cur as int, mfuel, accm) is None);
                                }
                                return Option::None;
                            }
                        },
                    }
                },
            }
        }
    } else {
        proof {
            assert(sp_value(t, pos as int, fuel) is None);
        }
        Option::None
    }
}

/// Parse a whole text, as `sp_text` says.
pub fn parse_json(s: &str) -> (r: Option<JsonValue>)
    ensures
        match r {
            Option::Some(v) => sp_text(s@) == Option::Some(v@),
            Option::None => sp_text(s@) is None,
        },
{
    let cs = str_chars(s);
    let rv = parse_value_at(&cs, 0);
    match rv {
        Option::Some((v, q)) => {
            let e = scan_ws(&cs, q);
            if e == cs.len() {
                Option::Some(v)
            } else {
                Option::None
            }
        },
        Option::None => Option::None,
    }
}

} // verus!
