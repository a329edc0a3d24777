//! Canonical JSON text for a value.
//!
//! `ser_val` is the mathematical serialization; `write_value` and
//! `json_text` produce exactly that text. The text of one value never
//! holds a newline, which is what makes newline framing of whole
//! messages safe.

use vstd::prelude::*;

use crate::json::{JVal, JsonValue, jvals_of, jmembers_of, lemma_jvals_of, lemma_jmembers_of};
use crate::text::{push_char, hex_digit, spec_hex_digit};

verus! {

broadcast use vstd::std_specs::vec::group_vec_axioms;

/// Decimal digits of a natural number, most significant first.
pub open spec fn ser_nat(n: nat) -> Seq<char>
    decreases n,
{
    if n < 10 {
        seq![spec_hex_digit(n as int)]
    } else {
        ser_nat(n / 10) + seq![spec_hex_digit((n % 10) as int)]
    }
}

/// Decimal text of an integer.
pub open spec fn ser_int(i: int) -> Seq<char> {
    if i < 0 {
        seq!['-'] + ser_nat((-i) as nat)
    } else {
        ser_nat(i as nat)
    }
}

/// The characters a string character contributes inside quotes.
pub open spec fn esc_char(c: char) -> Seq<char> {
    if c == '"' {
        seq!['\\', '"']
    } else if c == '\\' {
        seq!['\\', '\\']
    } else if c == '\n' {
        seq!['\\', 'n']
    } else if c == '\r' {
        seq!['\\', 'r']
    } else if c == '\t' {
        seq!['\\', 't']
    } else if (c as u32) < 0x20 {
        seq!['\\', 'u', '0', '0',
            spec_hex_digit((c as u32) as int / 16),
            spec_hex_digit((c as u32) as int % 16)]
    } else {
        seq![c]
    }
}

/// The escaped body of a string.
pub open spec fn esc_str(s: Seq<char>) -> Seq<char>
    decreases s.len(),
{
    if s.len() == 0 {
        Seq::empty()
    } else {
        esc_str(s.drop_last()) + esc_char(s.last())
    }
}

/// A quoted, escaped JSON string.
pub open spec fn ser_string(s: Seq<char>) -> Seq<char> {
    seq!['"'] + esc_str(s) + seq!['"']
}

/// Canonical JSON text of a value: no spaces, strings escaped as by
/// `esc_char`, object members in their stored order.
pub open spec fn ser_val(v: JVal) -> Seq<char>
    decreases v,
{
    match v {
        JVal::Null => seq!['n', 'u', 'l', 'l'],
        JVal::Bool(b) => if b {
            seq!['t', 'r', 'u', 'e']
        } else {
            seq!['f', 'a', 'l', 's', 'e']
        },
        JVal::Int(i) => ser_int(i as int),
        JVal::Str(s) => ser_string(s),
        JVal::Arr(vs) => seq!['['] + ser_elems(vs) + seq![']'],
        JVal::Obj(ms) => seq!['{'] + ser_members(ms) + seq!['}'],
    }
}

/// Comma-separated texts of array elements.
pub open spec fn ser_elems(vs: Seq<JVal>) -> Seq<char>
    decreases vs,
{
    if vs.len() == 0 {
        Seq::empty()
    } else if vs.len() == 1 {
        ser_val(vs[0])
    } else {
        proof {
            assert(decreases_to!(vs => vs.subrange(1, vs.len() as int)));
            assert(vs.skip(1) == vs.subrange(1, vs.len() as int));
        }
        ser_val(vs[0]) + seq![','] + ser_elems(vs.skip(1))
    }
}

/// Comma-separated `"key":value` texts of object members.
pub open spec fn ser_members(ms: Seq<(Seq<char>, JVal)>) -> Seq<char>
    decreases ms,
{
    if ms.len() == 0 {
        Seq::empty()
    } else if ms.len() == 1 {
        ser_string(ms[0].0) + seq![':'] + ser_val(ms[0].1)
    } else {
        proof {
            assert(decreases_to!(ms => ms.subrange(1, ms.len() as int)));
            assert(ms.skip(1) == ms.subrange(1, ms.len() as int));
        }
        ser_string(ms[0].0) + seq![':'] + ser_val(ms[0].1) + seq![','] + ser_members(ms.skip(1))
    }
}

/// Appending one element extends the comma-separated text at its end.
pub proof fn lemma_ser_elems_snoc(vs: Seq<JVal>, x: JVal)
    ensures
        vs.len() == 0 ==> ser_elems(vs.push(x)) == ser_val(x),
        vs.len() > 0 ==> ser_elems(vs.push(x)) == ser_elems(vs) + seq![','] + ser_val(x),
    decreases vs.len(),
{
    let w = vs.push(x);
    if vs.len() == 0 {
        assert(w.len() == 1);
        assert(w[0] == x);
    } else {
        lemma_ser_elems_snoc(vs.skip(1), x);
        assert(w.skip(1) =~= vs.skip(1).push(x));
        assert(w[0] == vs[0]);
        if vs.len() == 1 {
            assert(ser_elems(w) == ser_val(vs[0]) + seq![','] + ser_elems(w.skip(1)));
            assert(ser_elems(w) =~= ser_elems(vs) + seq![','] + ser_val(x));
        } else {
            assert(ser_elems(w) == ser_val(vs[0]) + seq![','] + ser_elems(w.skip(1)));
            assert(ser_elems(w) =~= ser_elems(vs) + seq![','] + ser_val(x));
        }
    }
}

/// Appending one member extends the comma-separated text at its end.
pub proof fn lemma_ser_members_snoc(ms: Seq<(Seq<char>, JVal)>, k: Seq<char>, x: JVal)
    ensures
        ms.len() == 0 ==> ser_members(ms.push((k, x))) == ser_string(k) + seq![':'] + ser_val(x),
        ms.len() > 0 ==> ser_members(ms.push((k, x)))
            == ser_members(ms) + seq![','] + ser_string(k) + seq![':'] + ser_val(x),
    decreases ms.len(),
{
    let w = ms.push((k, x));
    if ms.len() == 0 {
        assert(w.len() == 1);
        assert(w[0] == (k, x));
    } else {
        lemma_ser_members_snoc(ms.skip(1), k, x);
        assert(w.skip(1) =~= ms.skip(1).push((k, x)));
        assert(w[0] == ms[0]);
        if ms.len() == 1 {
            assert(ser_members(w) =~= ser_members(ms) + seq![','] + ser_string(k) + seq![':'] + ser_val(x));
        } else {
            assert(ser_members(w) =~= ser_members(ms) + seq![','] + ser_string(k) + seq![':'] + ser_val(x));
        }
    }
}

/// Decimal digits of `n`, appended.
pub fn write_u64(out: &mut String, n: u64)
    ensures
        final(out)@ == old(out)@ + ser_nat(n as nat),
    decreases n,
{
    if n >= 10 {
        write_u64(out, n / 10);
        push_char(out, hex_digit(n % 10));
        proof {
            assert((n as nat) / 10 == (n / 10) as nat);
            assert((n as nat) % 10 == (n % 10) as nat);
            assert(out@ =~= old(out)@ + ser_nat(n as nat));
        }
    } else {
        push_char(out, hex_digit(n));
        proof {
            assert(out@ =~= old(out)@ + ser_nat(n as nat));
        }
    }
}

/// Decimal text of `i`, appended.
pub fn write_i64(out: &mut String, i: i64)
    ensures
        final(out)@ == old(out)@ + ser_int(i as int),
{
    if i < 0 {
        push_char(out, '-');
        let mag: u64 = if i == i64::MIN {
            9223372036854775808u64
        } else {
            (-i) as u64
        };
        proof {
            assert(mag as nat == (-(i as int)) as nat);
        }
        write_u64(out, mag);
        proof {
            assert(out@ =~= old(out)@ + ser_int(i as int));
        }
    } else {
        write_u64(out, i as u64);
        proof {
            assert(out@ =~= old(out)@ + ser_int(i as int));
        }
    }
}

/// The escape text of one character, appended.
fn write_escaped_char(out: &mut String, c: char)
    ensures
        final(out)@ == old(out)@ + esc_char(c),
{
    if c == '"' {
        push_char(out, '\\');
        push_char(out, '"');
        proof { assert(out@ =~= old(out)@ + esc_char(c)); }
    } else if c == '\\' {
        push_char(out, '\\');
        push_char(out, '\\');
        proof { assert(out@ =~= old(out)@ + esc_char(c)); }
    } else if c == '\n' {
        push_char(out, '\\');
        push_char(out, 'n');
        proof { assert(out@ =~= old(out)@ + esc_char(c)); }
    } else if c == '\r' {
        push_char(out, '\\');
        push_char(out, 'r');
        proof { assert(out@ =~= old(out)@ + esc_char(c)); }
    } else if c == '\t' {
        push_char(out, '\\');
        push_char(out, 't');
        proof { assert(out@ =~= old(out)@ + esc_char(c)); }
    } else if (c as u32) < 0x20 {
        push_char(out, '\\');
        push_char(out, 'u');
        push_char(out, '0');
        push_char(out, '0');
        push_char(out, hex_digit(((c as u32) / 16) as u64));
        push_char(out, hex_digit(((c as u32) % 16) as u64));
        proof { assert(out@ =~= old(out)@ + esc_char(c)); }
    } else {
        push_char(out, c);
        proof { assert(out@ =~= old(out)@ + esc_char(c)); }
    }
}

/// A quoted, escaped JSON string, appended.
pub fn write_string(out: &mut String, s: &str)
    ensures
        final(out)@ == old(out)@ + ser_string(s@),
{
    push_char(out, '"');
    let n = s.unicode_len();
    let mut i: usize = 0;
    while i < n
        invariant
            n == s@.len(),
            0 <= i <= n,
            out@ == old(out)@ + seq!['"'] + esc_str(s@.take(i as int)),
        decreases n - i,
    {
        let c = s.get_char(i);
        write_escaped_char(out, c);
        proof {
            assert(s@.take(i + 1).drop_last() =~= s@.take(i as int));
            assert(s@.take(i + 1).last() == s@[i as int]);
            assert(esc_str(s@.take(i + 1)) == esc_str(s@.take(i as int)) + esc_char(s@[i as int]));
            assert(out@ =~= old(out)@ + seq!['"'] + esc_str(s@.take(i + 1)));
        }
        i = i + 1;
    }
    push_char(out, '"');
    proof {
        assert(s@.take(n as int) =~= s@);
        assert(out@ =~= old(out)@ + ser_string(s@));
    }
}

/// Canonical JSON text of `v`, appended.
pub fn write_value(out: &mut String, v: &JsonValue)
    ensures
        final(out)@ == old(out)@ + ser_val(v@),
    decreases v,
{
    match v {
        JsonValue::Null => {
            push_char(out, 'n');
            push_char(out, 'u');
            push_char(out, 'l');
            push_char(out, 'l');
            proof { assert(out@ =~= old(out)@ + ser_val(v@)); }
        },
        JsonValue::Bool(b) => {
            if *b {
                push_char(out, 't');
                push_char(out, 'r');
                push_char(out, 'u');
                push_char(out, 'e');
            } else {
                push_char(out, 'f');
                push_char(out, 'a');
                push_char(out, 'l');
                push_char(out, 's');
                push_char(out, 'e');
            }
            proof { assert(out@ =~= old(out)@ + ser_val(v@)); }
        },
        JsonValue::Int(i) => {
            write_i64(out, *i);
        },
        JsonValue::Str(s) => {
            write_string(out, s.as_str());
        },
        JsonValue::Arr(vs) => {
            let ghost base = out@;
            let ghost vsm = jvals_of(vs@);
            proof {
                lemma_jvals_of(vs@);
            }
            push_char(out, '[');
            let n = vs.len();
            let mut i: usize = 0;
            while i < n
                invariant
                    n == vs@.len(),
                    0 <= i <= n,
                    vsm == jvals_of(vs@),
                    vsm.len() == n,
                    forall|j: int| 0 <= j < n ==> vsm[j] == vs@[j]@,
                    out@ == base + seq!['['] + ser_elems(vsm.take(i as int)),
                    decreases_to!(*v => vs@),
                decreases n - i,
            {
                if i > 0 {
                    push_char(out, ',');
                }
                proof {
                    assert(decreases_to!(vs@ => vs@[i as int]));
                }
                write_value(out, &vs[i]);
                proof {
                    assert(vsm.take(i + 1) =~= vsm.take(i as int).push(vsm[i as int]));
                    lemma_ser_elems_snoc(vsm.take(i as int), vsm[i as int]);
                    assert(out@ =~= base + seq!['['] + ser_elems(vsm.take(i + 1)));
                }
                i = i + 1;
            }
            push_char(out, ']');
            proof {
                assert(vsm.take(n as int) =~= vsm);
                assert(out@ =~= base + ser_val(v@));
            }
        },
        JsonValue::Obj(ps) => {
            let ghost base = out@;
            let ghost msm = jmembers_of(ps@);
            proof {
                lemma_jmembers_of(ps@);
            }
            push_char(out, '{');
            let n = ps.len();
            let mut i: usize = 0;
            while i < n
                invariant
                    n == ps@.len(),
                    0 <= i <= n,
                    msm == jmembers_of(ps@),
                    msm.len() == n,
                    forall|j: int| 0 <= j < n ==> msm[j] == (ps@[j].0@, ps@[j].1@),
                    out@ == base + seq!['{'] + ser_members(msm.take(i as int)),
                    decreases_to!(*v => ps@),
                decreases n - i,
            {
                if i > 0 {
                    push_char(out, ',');
                }
                write_string(out, ps[i].0.as_str());
                push_char(out, ':');
                proof {
                    assert(decreases_to!(ps@ => ps@[i as int]));
                    assert(decreases_to!(ps@[i as int] => ps@[i as int].1));
                }
                write_value(out, &ps[i].1);
                proof {
                    assert(msm.take(i + 1) =~= msm.take(i as int).push(msm[i as int]));
                    lemma_ser_members_snoc(msm.take(i as int), msm[i as int].0, msm[i as int].1);
                    assert(out@ =~= base + seq!['{'] + ser_members(msm.take(i + 1)));
                }
                i = i + 1;
            }
            push_char(out, '}');
            proof {
                assert(msm.take(n as int) =~= msm);
                assert(out@ =~= base + ser_val(v@));
            }
        },
    }
}

/// Canonical JSON text of `v` as a fresh string.
pub fn json_text(v: &JsonValue) -> (r: String)
    ensures
        r@ == ser_val(v@),
{
    let mut out = String::new();
    write_value(&mut out, v);
    out
}


/// No newline anywhere in the text.
pub open spec fn newline_free(s: Seq<char>) -> bool {
    forall|i: int| 0 <= i < s.len() ==> s[i] != '\n'
}

/// Concatenation keeps texts newline-free.
pub proof fn lemma_newline_free_concat(a: Seq<char>, b: Seq<char>)
    requires
        newline_free(a),
        newline_free(b),
    ensures
        newline_free(a + b),
{
    assert forall|i: int| 0 <= i < (a + b).len() implies (a + b)[i] != '\n' by {
        if i < a.len() {
            assert((a + b)[i] == a[i]);
        } else {
            assert((a + b)[i] == b[i - a.len()]);
        }
    }
}

/// Decimal digits hold no newline.
pub proof fn lemma_ser_nat_newline_free(n: nat)
    ensures
        newline_free(ser_nat(n)),
    decreases n,
{
    if n >= 10 {
        lemma_ser_nat_newline_free(n / 10);
        lemma_newline_free_concat(ser_nat(n / 10), seq![spec_hex_digit((n % 10) as int)]);
    }
}

/// An escape holds no newline: the newline itself leaves as `\n`.
pub proof fn lemma_esc_char_newline_free(c: char)
    ensures
        newline_free(esc_char(c)),
{
}

/// An escaped string body holds no newline.
pub proof fn lemma_esc_str_newline_free(s: Seq<char>)
    ensures
        newline_free(esc_str(s)),
    decreases s.len(),
{
    if s.len() > 0 {
        lemma_esc_str_newline_free(s.drop_last());
        lemma_esc_char_newline_free(s.last());
        lemma_newline_free_concat(esc_str(s.drop_last()), esc_char(s.last()));
    }
}

/// A quoted string holds no newline.
pub proof fn lemma_ser_string_newline_free(s: Seq<char>)
    ensures
        newline_free(ser_string(s)),
{
    lemma_esc_str_newline_free(s);
    lemma_newline_free_concat(seq!['"'], esc_str(s));
    lemma_newline_free_concat(seq!['"'] + esc_str(s), seq!['"']);
    assert(ser_string(s) == seq!['"'] + esc_str(s) + seq!['"']);
}

/// The canonical text of any value holds no newline, so one message
/// per line framing never splits a value.
pub proof fn lemma_ser_val_newline_free(v: JVal)
    ensures
        newline_free(ser_val(v)),
    decreases v,
{
    match v {
        JVal::Null => {},
        JVal::Bool(b) => {},
        JVal::Int(i) => {
            if i < 0 {
                lemma_ser_nat_newline_free((-(i as int)) as nat);
                lemma_newline_free_concat(seq!['-'], ser_nat((-(i as int)) as nat));
            } else {
                lemma_ser_nat_newline_free((i as int) as nat);
            }
        },
        JVal::Str(s) => {
            lemma_ser_string_newline_free(s);
        },
        JVal::Arr(vs) => {
            assert(decreases_to!(v => vs));
            lemma_ser_elems_newline_free(vs);
            lemma_newline_free_concat(seq!['['], ser_elems(vs));
            lemma_newline_free_concat(seq!['['] + ser_elems(vs), seq![']']);
        },
        JVal::Obj(ms) => {
            assert(decreases_to!(v => ms));
            lemma_ser_members_newline_free(ms);
            lemma_newline_free_concat(seq!['{'], ser_members(ms));
            lemma_newline_free_concat(seq!['{'] + ser_members(ms), seq!['}']);
        },
    }
}

/// Element lists hold no newline.
pub proof fn lemma_ser_elems_newline_free(vs: Seq<JVal>)
    ensures
        newline_free(ser_elems(vs)),
    decreases vs,
{
    if vs.len() >= 1 {
        assert(decreases_to!(vs => vs[0]));
        lemma_ser_val_newline_free(vs[0]);
        if vs.len() > 1 {
            assert(decreases_to!(vs => vs.subrange(1, vs.len() as int)));
            assert(vs.skip(1) == vs.subrange(1, vs.len() as int));
            lemma_ser_elems_newline_free(vs.skip(1));
            lemma_newline_free_concat(ser_val(vs[0]), seq![',']);
            lemma_newline_free_concat(ser_val(vs[0]) + seq![','], ser_elems(vs.skip(1)));
        }
    }
}

/// Member lists hold no newline.
pub proof fn lemma_ser_members_newline_free(ms: Seq<(Seq<char>, JVal)>)
    ensures
        newline_free(ser_members(ms)),
    decreases ms,
{
    if ms.len() >= 1 {
        assert(decreases_to!(ms => ms[0]));
        assert(decreases_to!(ms[0] => ms[0].1));
        lemma_ser_string_newline_free(ms[0].0);
        lemma_ser_val_newline_free(ms[0].1);
        lemma_newline_free_concat(ser_string(ms[0].0), seq![':']);
        lemma_newline_free_concat(ser_string(ms[0].0) + seq![':'], ser_val(ms[0].1));
        if ms.len() > 1 {
            assert(decreases_to!(ms => ms.subrange(1, ms.len() as int)));
            assert(ms.skip(1) == ms.subrange(1, ms.len() as int));
            lemma_ser_members_newline_free(ms.skip(1));
            lemma_newline_free_concat(ser_string(ms[0].0) + seq![':'] + ser_val(ms[0].1), seq![',']);
            lemma_newline_free_concat(
                ser_string(ms[0].0) + seq![':'] + ser_val(ms[0].1) + seq![','],
                ser_members(ms.skip(1)),
            );
        }
    }
}

} // verus!
