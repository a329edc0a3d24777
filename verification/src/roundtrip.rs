//! The codec round trip: parsing canonical text gives the value back.
//!
//! `lemma_sp_text_ser` is the main theorem: for every value `v`,
//! `sp_text(ser_val(v)) == Some(v)`. A corollary is that canonical
//! serialization is injective. The proof follows the grammar: a value's
//! text embedded in a larger text, followed by a terminator character,
//! parses to exactly that value.

use vstd::prelude::*;

use crate::json::JVal;
use crate::parse::{
    char_of_code, digit_val, digits_end, digits_val, is_digit, is_ws, sp_elems, sp_members,
    sp_number, sp_str_body, sp_text, sp_value, sp_ws, lemma_sp_ws_id,
};
use crate::ser::{esc_char, esc_str, ser_elems, ser_int, ser_members, ser_nat, ser_string, ser_val};
use crate::text::{lemma_hex_digit_value, spec_hex_digit, spec_hex_value};

verus! {

/// A character that may lawfully follow an embedded value: a
/// separator, a closing bracket, or whitespace.
pub open spec fn is_term(c: char) -> bool {
    c == ',' || c == ']' || c == '}' || is_ws(c)
}

/// Split an equality of a subrange with a concatenation into two.
proof fn lemma_subrange_cat(t: Seq<char>, pos: int, end: int, a: Seq<char>, b: Seq<char>)
    requires
        0 <= pos <= end <= t.len(),
        t.subrange(pos, end) == a + b,
    ensures
        t.subrange(pos, pos + a.len()) == a,
        t.subrange(pos + a.len(), end) == b,
{
    assert(t.subrange(pos, end).len() == end - pos);
    assert((a + b).len() == a.len() + b.len());
    assert(end - pos == a.len() + b.len());
    assert(t.subrange(pos, pos + a.len()) =~= a) by {
        assert forall|j: int| 0 <= j < a.len() implies #[trigger] t.subrange(
            pos,
            pos + a.len(),
        )[j] == a[j] by {
            assert(t.subrange(pos, end)[j] == (a + b)[j]);
            assert(t.subrange(pos, end)[j] == t[pos + j]);
            assert(t.subrange(pos, pos + a.len())[j] == t[pos + j]);
        }
    }
    assert(t.subrange(pos + a.len(), end) =~= b) by {
        assert forall|j: int| 0 <= j < b.len() implies #[trigger] t.subrange(
            pos + a.len(),
            end,
        )[j] == b[j] by {
            assert(t.subrange(pos, end)[a.len() + j] == (a + b)[a.len() + j]);
            assert(t.subrange(pos, end)[a.len() + j] == t[pos + a.len() + j]);
            assert(t.subrange(pos + a.len(), end)[j] == t[pos + a.len() + j]);
        }
    }
}

/// The digits of a natural number are digits.
proof fn lemma_ser_nat_digits(n: nat)
    ensures
        ser_nat(n).len() >= 1,
        forall|j: int| 0 <= j < ser_nat(n).len() ==> is_digit(#[trigger] ser_nat(n)[j]),
    decreases n,
{
    if n >= 10 {
        lemma_ser_nat_digits(n / 10);
    }
}

/// Reading the digits of `n` back gives `n`.
proof fn lemma_digits_val_ser_nat(n: nat)
    ensures
        digits_val(ser_nat(n)) == n,
    decreases n,
{
    if n < 10 {
        assert(ser_nat(n).drop_last() =~= Seq::<char>::empty());
        assert(digits_val(Seq::<char>::empty()) == 0);
        assert(ser_nat(n).last() == spec_hex_digit(n as int));
        assert(digit_val(spec_hex_digit(n as int)) == n);
    } else {
        lemma_digits_val_ser_nat(n / 10);
        assert(ser_nat(n).drop_last() =~= ser_nat(n / 10));
        assert(ser_nat(n).last() == spec_hex_digit((n % 10) as int));
        assert(digit_val(spec_hex_digit((n % 10) as int)) == n % 10);
    }
}

/// A maximal digit run ends exactly where the digits stop.
proof fn lemma_digits_end_run(t: Seq<char>, a: int, b: int)
    requires
        0 <= a <= b <= t.len(),
        forall|j: int| a <= j < b ==> is_digit(t[j]),
        b == t.len() || !is_digit(t[b]),
    ensures
        digits_end(t, a) == b,
    decreases b - a,
{
    if a < b {
        lemma_digits_end_run(t, a + 1, b);
    }
}

/// A character code below the surrogate range casts back to its character.
proof fn lemma_char_code_roundtrip(c: char)
    requires
        (c as u32) < 0xD800,
    ensures
        ((c as u32) as int) as char == c,
{
}

/// What the first character of an escape looks like.
proof fn lemma_esc_char_shape(c: char)
    ensures
        esc_char(c).len() >= 1,
        esc_char(c)[0] != '"',
        esc_char(c)[0] == '\\' || esc_char(c) == seq![c],
        esc_char(c) == seq![c] ==> c != '"' && c != '\\' && (c as u32) >= 0x20,
{
    assert(seq![c].len() == 1);
    if c == '"' || c == '\\' || c == '\n' || c == '\r' || c == '\t' {
        assert(esc_char(c).len() == 2);
    } else if (c as u32) < 0x20 {
        assert(esc_char(c)[0] == '\\');
        assert(esc_char(c).len() == 6);
    }
}

/// The escaped body unfolds at the front, one character at a time.
proof fn lemma_esc_str_front(s: Seq<char>)
    requires
        s.len() > 0,
    ensures
        esc_str(s) == esc_char(s[0]) + esc_str(s.skip(1)),
    decreases s.len(),
{
    if s.len() == 1 {
        assert(s.drop_last() =~= Seq::<char>::empty());
        assert(s.skip(1) =~= Seq::<char>::empty());
        assert(esc_str(s) =~= esc_char(s[0]) + esc_str(s.skip(1)));
    } else {
        lemma_esc_str_front(s.drop_last());
        assert(s.drop_last()[0] == s[0]);
        assert(s.drop_last().skip(1) =~= s.skip(1).drop_last());
        assert(s.skip(1).last() == s.last());
        assert(esc_str(s) =~= esc_char(s[0]) + esc_str(s.skip(1)));
    }
}

/// Parsing the escaped body of `w`, closed by a quote, yields `w`.
proof fn lemma_str_body_ser(w: Seq<char>, acc: Seq<char>, t: Seq<char>, pos: int, endq: int)
    requires
        0 <= pos <= endq <= t.len(),
        t.subrange(pos, endq) == esc_str(w).push('"'),
    ensures
        sp_str_body(t, pos, acc) == Option::Some((acc + w, endq)),
    decreases w.len(),
{
    if w.len() == 0 {
        assert(esc_str(w).push('"') =~= seq!['"']);
        assert(t.subrange(pos, endq)[0] == t[pos]);
        assert(t[pos] == '"');
        assert(endq == pos + 1);
        assert(acc + w =~= acc);
    } else {
        lemma_esc_str_front(w);
        lemma_esc_char_shape(w[0]);
        let e0 = esc_char(w[0]);
        let k = e0.len();
        assert(esc_str(w).push('"') =~= e0 + esc_str(w.skip(1)).push('"'));
        lemma_subrange_cat(t, pos, endq, e0, esc_str(w.skip(1)).push('"'));
        assert forall|j: int| 0 <= j < k implies #[trigger] t[pos + j] == e0[j] by {
            assert(t.subrange(pos, pos + k)[j] == t[pos + j]);
        }
        let c = w[0];
        if c == '"' {
            assert(t[pos] == '\\' && t[pos + 1] == '"');
            lemma_str_body_ser(w.skip(1), acc.push('"'), t, pos + 2, endq);
            assert(acc.push(c) + w.skip(1) =~= acc + w);
        } else if c == '\\' {
            assert(t[pos] == '\\' && t[pos + 1] == '\\');
            lemma_str_body_ser(w.skip(1), acc.push('\\'), t, pos + 2, endq);
            assert(acc.push(c) + w.skip(1) =~= acc + w);
        } else if c == '\n' {
            assert(t[pos] == '\\' && t[pos + 1] == 'n');
            lemma_str_body_ser(w.skip(1), acc.push('\n'), t, pos + 2, endq);
            assert(acc.push(c) + w.skip(1) =~= acc + w);
        } else if c == '\r' {
            assert(t[pos] == '\\' && t[pos + 1] == 'r');
            lemma_str_body_ser(w.skip(1), acc.push('\r'), t, pos + 2, endq);
            assert(acc.push(c) + w.skip(1) =~= acc + w);
        } else if c == '\t' {
            assert(t[pos] == '\\' && t[pos + 1] == 't');
            lemma_str_body_ser(w.skip(1), acc.push('\t'), t, pos + 2, endq);
            assert(acc.push(c) + w.skip(1) =~= acc + w);
        } else if (c as u32) < 0x20 {
            let cu = (c as u32) as int;
            assert(k == 6);
            assert(t[pos] == '\\' && t[pos + 1] == 'u' && t[pos + 2] == '0' && t[pos + 3] == '0');
            assert(t[pos + 4] == spec_hex_digit(cu / 16));
            assert(t[pos + 5] == spec_hex_digit(cu % 16));
            lemma_hex_digit_value(cu / 16);
            lemma_hex_digit_value(cu % 16);
            assert(spec_hex_value(t[pos + 2]) == 0);
            assert(spec_hex_value(t[pos + 3]) == 0);
            let h = spec_hex_value(t[pos + 2]) * 4096 + spec_hex_value(t[pos + 3]) * 256
                + spec_hex_value(t[pos + 4]) * 16 + spec_hex_value(t[pos + 5]);
            assert(h == cu);
            lemma_char_code_roundtrip(c);
            assert(char_of_code(h) == c);
            lemma_str_body_ser(w.skip(1), acc.push(c), t, pos + 6, endq);
            assert(acc.push(c) + w.skip(1) =~= acc + w);
        } else {
            assert(t[pos] == c);
            lemma_str_body_ser(w.skip(1), acc.push(c), t, pos + 1, endq);
            assert(acc.push(c) + w.skip(1) =~= acc + w);
        }
    }
}

/// Parsing the decimal text of `i`, followed by a non-digit, yields `i`.
proof fn lemma_number_ser(i: i64, t: Seq<char>, pos: int, end: int)
    requires
        0 <= pos <= end <= t.len(),
        t.subrange(pos, end) == ser_int(i as int),
        end == t.len() || !is_digit(t[end]),
    ensures
        sp_number(t, pos) == Option::Some((JVal::Int(i), end)),
{
    if i < 0 {
        let m = (-(i as int)) as nat;
        lemma_ser_nat_digits(m);
        lemma_digits_val_ser_nat(m);
        assert(t.subrange(pos, end).len() == end - pos);
        assert((seq!['-'] + ser_nat(m)).len() == 1 + ser_nat(m).len());
        lemma_subrange_cat(t, pos, end, seq!['-'], ser_nat(m));
        assert(t.subrange(pos, pos + 1)[0] == t[pos]);
        assert(t[pos] == '-');
        assert forall|j: int| pos + 1 <= j < end implies is_digit(t[j]) by {
            assert(t.subrange(pos + 1, end)[j - pos - 1] == t[j]);
        }
        lemma_digits_end_run(t, pos + 1, end);
        assert(digits_val(t.subrange(pos + 1, end)) == m);
        assert(m <= 0x8000000000000000);
        assert((-(m as int)) as i64 == i);
    } else {
        let m = (i as int) as nat;
        lemma_ser_nat_digits(m);
        lemma_digits_val_ser_nat(m);
        assert(t.subrange(pos, end)[0] == t[pos]);
        assert(is_digit(t[pos]));
        assert(t[pos] != '-');
        assert forall|j: int| pos <= j < end implies is_digit(t[j]) by {
            assert(t.subrange(pos, end)[j - pos] == t[j]);
        }
        lemma_digits_end_run(t, pos, end);
        assert(digits_val(t.subrange(pos, end)) == m);
        assert(m <= 0x7fffffffffffffff);
        assert((m as int) as i64 == i);
    }
}

/// The first element of a concatenation is the first of its head.
proof fn lemma_add_first(a: Seq<char>, b: Seq<char>)
    requires
        a.len() >= 1,
    ensures
        (a + b).len() == a.len() + b.len(),
        (a + b)[0] == a[0],
{
    assert((a + b)[0] == a[0]);
}

/// A non-empty element list's text starts with its first value's text.
proof fn lemma_ser_elems_first(vs: Seq<JVal>)
    requires
        vs.len() >= 1,
    ensures
        ser_elems(vs).len() >= 1,
        ser_elems(vs)[0] == ser_val(vs[0])[0],
{
    lemma_ser_val_first(vs[0]);
    if vs.len() > 1 {
        assert(ser_elems(vs) =~= ser_val(vs[0]) + (seq![','] + ser_elems(vs.skip(1))));
        lemma_add_first(ser_val(vs[0]), seq![','] + ser_elems(vs.skip(1)));
    }
}

/// A non-empty member list's text starts with a quote.
proof fn lemma_ser_members_first(ms: Seq<(Seq<char>, JVal)>)
    requires
        ms.len() >= 1,
    ensures
        ser_members(ms).len() >= 1,
        ser_members(ms)[0] == '"',
{
    let head = ser_string(ms[0].0);
    assert(head =~= seq!['"'] + (esc_str(ms[0].0) + seq!['"']));
    lemma_add_first(seq!['"'], esc_str(ms[0].0) + seq!['"']);
    assert(head[0] == '"');
    if ms.len() == 1 {
        assert(ser_members(ms) =~= head + (seq![':'] + ser_val(ms[0].1)));
        lemma_add_first(head, seq![':'] + ser_val(ms[0].1));
    } else {
        assert(ser_members(ms) =~= head + (seq![':'] + ser_val(ms[0].1) + seq![',']
            + ser_members(ms.skip(1))));
        lemma_add_first(head, seq![':'] + ser_val(ms[0].1) + seq![','] + ser_members(ms.skip(1)));
    }
}

/// The first character of a value's text names its kind, and is
/// neither whitespace nor a separator.
proof fn lemma_ser_val_first(v: JVal)
    ensures
        ser_val(v).len() >= 1,
        v is Null ==> ser_val(v)[0] == 'n',
        v is Bool ==> ser_val(v)[0] == 't' || ser_val(v)[0] == 'f',
        v is Int ==> ser_val(v)[0] == '-' || is_digit(ser_val(v)[0]),
        v is Str ==> ser_val(v)[0] == '"',
        v is Arr ==> ser_val(v)[0] == '[',
        v is Obj ==> ser_val(v)[0] == '{',
        !is_ws(ser_val(v)[0]),
        !is_term(ser_val(v)[0]),
        ser_val(v)[0] != ':',
{
    match v {
        JVal::Int(i) => {
            if i < 0 {
                let m = (-(i as int)) as nat;
                assert(ser_val(v)[0] == (seq!['-'] + ser_nat(m))[0]);
            } else {
                lemma_ser_nat_digits((i as int) as nat);
            }
        },
        _ => {},
    }
}

/// Parsing an embedded canonical value, followed by the end of the
/// text or a separator, yields exactly that value.
pub proof fn lemma_value_ser(v: JVal, t: Seq<char>, pos: int, end: int, fuel: nat)
    requires
        0 <= pos <= end <= t.len(),
        t.subrange(pos, end) == ser_val(v),
        end == t.len() || is_term(t[end]),
        fuel >= 2 * (t.len() - pos) + 1,
    ensures
        sp_value(t, pos, fuel) == Option::Some((v, end)),
    decreases v,
{
    lemma_ser_val_first(v);
    assert(t.subrange(pos, end).len() == end - pos);
    assert(end - pos == ser_val(v).len());
    assert(t.subrange(pos, end)[0] == t[pos]);
    assert(pos < end);
    lemma_sp_ws_id(t, pos);
    assert forall|j: int| 0 <= j < end - pos implies #[trigger] t[pos + j] == ser_val(v)[j] by {
        assert(t.subrange(pos, end)[j] == t[pos + j]);
    }
    match v {
        JVal::Null => {
            assert(end == pos + 4);
            assert(t[pos + 1] == 'u' && t[pos + 2] == 'l' && t[pos + 3] == 'l');
        },
        JVal::Bool(b) => {
            if b {
                assert(end == pos + 4);
                assert(t[pos + 1] == 'r' && t[pos + 2] == 'u' && t[pos + 3] == 'e');
            } else {
                assert(end == pos + 5);
                assert(t[pos + 1] == 'a' && t[pos + 2] == 'l' && t[pos + 3] == 's' && t[pos + 4]
                    == 'e');
            }
        },
        JVal::Int(i) => {
            lemma_number_ser(i, t, pos, end);
        },
        JVal::Str(s) => {
            assert(ser_string(s) =~= seq!['"'] + esc_str(s).push('"'));
            lemma_subrange_cat(t, pos, end, seq!['"'], esc_str(s).push('"'));
            lemma_str_body_ser(s, Seq::empty(), t, pos + 1, end);
            assert(Seq::<char>::empty() + s =~= s);
        },
        JVal::Arr(vs) => {
            if vs.len() == 0 {
                assert(vs =~= Seq::<JVal>::empty());
                assert(ser_val(v) =~= seq!['[', ']']);
                assert(end == pos + 2);
                assert(t.subrange(pos, end)[1] == t[pos + 1]);
                assert(t[pos + 1] == ']');
                lemma_sp_ws_id(t, pos + 1);
            } else {
                assert(ser_val(v) =~= seq!['['] + (ser_elems(vs) + seq![']']));
                lemma_ser_elems_first(vs);
                assert((seq!['['] + (ser_elems(vs) + seq![']'])).len() == 2 + ser_elems(vs).len());
                assert(end >= pos + 3);
                lemma_subrange_cat(t, pos, end, seq!['['], ser_elems(vs) + seq![']']);
                lemma_subrange_cat(t, pos + 1, end, ser_elems(vs), seq![']']);
                assert(t.subrange(end - 1, end)[0] == t[end - 1]);
                assert(t[end - 1] == ']');
                lemma_ser_elems_first(vs);
                lemma_ser_val_first(vs[0]);
                assert(t.subrange(pos + 1, end - 1)[0] == t[pos + 1]);
                assert(t[pos + 1] == ser_val(vs[0])[0]);
                lemma_sp_ws_id(t, pos + 1);
                assert(t[pos + 1] != ']');
                assert(decreases_to!(v => vs));
                lemma_elems_ser(vs, Seq::empty(), t, pos + 1, end - 1, (fuel - 1) as nat);
                assert(Seq::<JVal>::empty() + vs =~= vs);
            }
        },
        JVal::Obj(ms) => {
            if ms.len() == 0 {
                assert(ms =~= Seq::<(Seq<char>, JVal)>::empty());
                assert(ser_val(v) =~= seq!['{', '}']);
                assert(end == pos + 2);
                assert(t.subrange(pos, end)[1] == t[pos + 1]);
                assert(t[pos + 1] == '}');
                lemma_sp_ws_id(t, pos + 1);
            } else {
                assert(ser_val(v) =~= seq!['{'] + (ser_members(ms) + seq!['}']));
                lemma_ser_members_first(ms);
                assert((seq!['{'] + (ser_members(ms) + seq!['}'])).len() == 2 + ser_members(ms).len());
                assert(end >= pos + 3);
                lemma_subrange_cat(t, pos, end, seq!['{'], ser_members(ms) + seq!['}']);
                lemma_subrange_cat(t, pos + 1, end, ser_members(ms), seq!['}']);
                assert(t.subrange(end - 1, end)[0] == t[end - 1]);
                assert(t[end - 1] == '}');
                lemma_ser_members_first(ms);
                assert(t.subrange(pos + 1, end - 1)[0] == t[pos + 1]);
                assert(t[pos + 1] == '"');
                lemma_sp_ws_id(t, pos + 1);
                assert(t[pos + 1] != '}');
                assert(decreases_to!(v => ms));
                lemma_members_ser(ms, Seq::empty(), t, pos + 1, end - 1, (fuel - 1) as nat);
                assert(Seq::<(Seq<char>, JVal)>::empty() + ms =~= ms);
            }
        },
    }
}

/// Parsing embedded comma-separated element texts, closed by `]`,
/// yields the elements.
pub proof fn lemma_elems_ser(
    vs: Seq<JVal>,
    acc: Seq<JVal>,
    t: Seq<char>,
    pos: int,
    end: int,
    fuel: nat,
)
    requires
        vs.len() >= 1,
        0 <= pos <= end < t.len(),
        t.subrange(pos, end) == ser_elems(vs),
        t[end] == ']',
        fuel >= 2 * (t.len() - pos) + 2,
    ensures
        sp_elems(t, pos, fuel, acc) == Option::Some((acc + vs, end + 1)),
    decreases vs,
{
    assert(decreases_to!(vs => vs[0]));
    let k = ser_val(vs[0]).len();
    lemma_ser_val_first(vs[0]);
    if vs.len() == 1 {
        assert(ser_elems(vs) == ser_val(vs[0]));
        assert(end == pos + k);
        lemma_value_ser(vs[0], t, pos, end, (fuel - 1) as nat);
        lemma_sp_ws_id(t, end);
        assert(acc + vs =~= acc.push(vs[0]));
    } else {
        assert(ser_elems(vs) =~= ser_val(vs[0]) + (seq![','] + ser_elems(vs.skip(1))));
        lemma_subrange_cat(t, pos, end, ser_val(vs[0]), seq![','] + ser_elems(vs.skip(1)));
        lemma_subrange_cat(t, pos + k, end, seq![','], ser_elems(vs.skip(1)));
        assert(t.subrange(pos + k, pos + k + 1)[0] == t[pos + k]);
        assert(t[pos + k] == ',');
        lemma_value_ser(vs[0], t, pos, pos + k, (fuel - 1) as nat);
        lemma_sp_ws_id(t, pos + k);
        assert(decreases_to!(vs => vs.subrange(1, vs.len() as int)));
        assert(vs.skip(1) == vs.subrange(1, vs.len() as int));
        lemma_elems_ser(vs.skip(1), acc.push(vs[0]), t, pos + k + 1, end, (fuel - 1) as nat);
        assert(acc.push(vs[0]) + vs.skip(1) =~= acc + vs);
    }
}

/// Parsing embedded comma-separated member texts, closed by `}`,
/// yields the members.
pub proof fn lemma_members_ser(
    ms: Seq<(Seq<char>, JVal)>,
    acc: Seq<(Seq<char>, JVal)>,
    t: Seq<char>,
    pos: int,
    end: int,
    fuel: nat,
)
    requires
        ms.len() >= 1,
        0 <= pos <= end < t.len(),
        t.subrange(pos, end) == ser_members(ms),
        t[end] == '}',
        fuel >= 2 * (t.len() - pos) + 2,
    ensures
        sp_members(t, pos, fuel, acc) == Option::Some((acc + ms, end + 1)),
    decreases ms,
{
    assert(decreases_to!(ms => ms[0]));
    assert(decreases_to!(ms[0] => ms[0].1));
    let k0 = ms[0].0;
    let v0 = ms[0].1;
    let sk = ser_string(k0).len();
    let kv = ser_val(v0).len();
    let head = ser_string(k0) + seq![':'] + ser_val(v0);
    assert(head.len() == sk + 1 + kv);
    if ms.len() == 1 {
        assert(ser_members(ms) =~= ser_string(k0) + (seq![':'] + ser_val(v0)));
        lemma_subrange_cat(t, pos, end, ser_string(k0), seq![':'] + ser_val(v0));
        lemma_subrange_cat(t, pos + sk, end, seq![':'], ser_val(v0));
    } else {
        assert(ser_members(ms) =~= ser_string(k0) + (seq![':'] + (ser_val(v0) + (seq![',']
            + ser_members(ms.skip(1))))));
        lemma_subrange_cat(
            t,
            pos,
            end,
            ser_string(k0),
            seq![':'] + (ser_val(v0) + (seq![','] + ser_members(ms.skip(1)))),
        );
        lemma_subrange_cat(
            t,
            pos + sk,
            end,
            seq![':'],
            ser_val(v0) + (seq![','] + ser_members(ms.skip(1))),
        );
        lemma_subrange_cat(
            t,
            pos + sk + 1,
            end,
            ser_val(v0),
            seq![','] + ser_members(ms.skip(1)),
        );
        lemma_subrange_cat(
            t,
            pos + sk + 1 + kv,
            end,
            seq![','],
            ser_members(ms.skip(1)),
        );
    }
    // the key string
    assert(ser_string(k0) =~= seq!['"'] + esc_str(k0).push('"'));
    assert(t.subrange(pos, pos + sk) == ser_string(k0));
    assert(t.subrange(pos, pos + sk)[0] == t[pos]);
    assert(t[pos] == '"');
    lemma_sp_ws_id(t, pos);
    lemma_subrange_cat(t, pos, pos + sk, seq!['"'], esc_str(k0).push('"'));
    lemma_str_body_ser(k0, Seq::empty(), t, pos + 1, pos + sk);
    assert(Seq::<char>::empty() + k0 =~= k0);
    // the colon
    assert(t.subrange(pos + sk, pos + sk + 1)[0] == t[pos + sk]);
    assert(t[pos + sk] == ':');
    lemma_sp_ws_id(t, pos + sk);
    // the value
    if ms.len() == 1 {
        lemma_value_ser(v0, t, pos + sk + 1, end, (fuel - 1) as nat);
        lemma_sp_ws_id(t, end);
        assert(acc + ms =~= acc.push((k0, v0)));
    } else {
        assert(t.subrange(pos + sk + 1 + kv, pos + sk + 1 + kv + 1)[0] == t[pos + sk + 1 + kv]);
        assert(t[pos + sk + 1 + kv] == ',');
        lemma_value_ser(v0, t, pos + sk + 1, pos + sk + 1 + kv, (fuel - 1) as nat);
        lemma_sp_ws_id(t, pos + sk + 1 + kv);
        assert(decreases_to!(ms => ms.subrange(1, ms.len() as int)));
        assert(ms.skip(1) == ms.subrange(1, ms.len() as int));
        lemma_members_ser(
            ms.skip(1),
            acc.push((k0, v0)),
            t,
            pos + sk + 1 + kv + 1,
            end,
            (fuel - 1) as nat,
        );
        assert(acc.push((k0, v0)) + ms.skip(1) =~= acc + ms);
    }
}

/// Round trip: the canonical text of any value parses back to it.
pub proof fn lemma_sp_text_ser(v: JVal)
    ensures
        sp_text(ser_val(v)) == Option::Some(v),
{
    let t = ser_val(v);
    assert(t.subrange(0, t.len() as int) =~= t);
    lemma_value_ser(v, t, 0, t.len() as int, (2 * t.len() + 1) as nat);
}

/// A framed line round-trips too: the canonical text of a value,
/// closed with the one newline of its frame, still parses back to it.
pub proof fn lemma_sp_text_ser_framed(v: JVal)
    ensures
        sp_text(ser_val(v).push('\n')) == Option::Some(v),
{
    let t = ser_val(v).push('\n');
    lemma_ser_val_first(v);
    assert(t.subrange(0, t.len() - 1) =~= ser_val(v));
    assert(t[t.len() - 1] == '\n');
    lemma_value_ser(v, t, 0, t.len() - 1, (2 * t.len() + 1) as nat);
    assert(sp_ws(t, t.len() - 1) == t.len()) by {
        assert(sp_ws(t, t.len() as int) == t.len());
    }
}

/// Canonical serialization is injective: equal texts mean equal values.
pub proof fn lemma_ser_val_injective(v1: JVal, v2: JVal)
    requires
        ser_val(v1) == ser_val(v2),
    ensures
        v1 == v2,
{
    lemma_sp_text_ser(v1);
    lemma_sp_text_ser(v2);
}

} // verus!
