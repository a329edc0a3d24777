//! Identifiers for requests and callback tokens.
//!
//! An `IdSource` issues strings of four hexadecimal 64-bit parts
//! joined by `-`. The first three parts are random; the last is a
//! counter, so two ids issued by one source never collide
//! (`lemma_req_id_injective`). `generate_uuid` is the free-standing
//! variant whose four parts are all random.

use vstd::prelude::*;

use crate::text::{hex_digit, push_char, spec_hex_digit, lemma_hex_digit_value};

verus! {

/// Hexadecimal digits of `n`, no leading zeros.
pub open spec fn hex_chars(n: nat) -> Seq<char>
    decreases n,
{
    if n < 16 {
        seq![spec_hex_digit(n as int)]
    } else {
        hex_chars(n / 16) + seq![spec_hex_digit((n % 16) as int)]
    }
}

/// Hexadecimal digits of `n`, zero-padded to `width` digits.
pub open spec fn hex_pad(n: nat, width: nat) -> Seq<char>
    decreases width,
{
    if width == 0 {
        Seq::empty()
    } else {
        hex_pad(n / 16, (width - 1) as nat) + seq![spec_hex_digit((n % 16) as int)]
    }
}

/// Sixteen to the given power.
pub open spec fn pow16(w: nat) -> nat
    decreases w,
{
    if w == 0 {
        1
    } else {
        16 * pow16((w - 1) as nat)
    }
}

/// An id issued by an `IdSource`: three random parts and the counter.
pub open spec fn req_id(r1: u64, r2: u64, r3: u64, c: u64) -> Seq<char> {
    hex_pad(r1 as nat, 16) + seq!['-'] + hex_pad(r2 as nat, 16) + seq!['-'] + hex_pad(
        r3 as nat,
        16,
    ) + seq!['-'] + hex_pad(c as nat, 16)
}

/// A uuid-shaped string of four parts.
pub open spec fn uuid_chars(a: u64, b: u64, c: u64, d: u64) -> Seq<char> {
    hex_chars(a as nat) + seq!['-'] + hex_chars(b as nat) + seq!['-'] + hex_chars(c as nat)
        + seq!['-'] + hex_chars(d as nat)
}

/// Relies on `rand::random`: one uniformly random 64-bit value. No
/// property of the result is assumed.
#[verifier::external_body]
fn random_u64() -> u64 {
    rand::random::<u64>()
}

/// Padded digits always have the asked width.
pub proof fn lemma_hex_pad_len(n: nat, width: nat)
    ensures
        hex_pad(n, width).len() == width,
    decreases width,
{
    if width > 0 {
        lemma_hex_pad_len(n / 16, (width - 1) as nat);
    }
}

/// Padded digits name their number: equal texts, equal numbers.
pub proof fn lemma_hex_pad_injective(n: nat, m: nat, width: nat)
    requires
        n < pow16(width),
        m < pow16(width),
        hex_pad(n, width) == hex_pad(m, width),
    ensures
        n == m,
    decreases width,
{
    if width == 0 {
        assert(pow16(0) == 1);
    } else {
        lemma_hex_pad_len(n / 16, (width - 1) as nat);
        lemma_hex_pad_len(m / 16, (width - 1) as nat);
        assert(hex_pad(n, width).last() == spec_hex_digit((n % 16) as int));
        assert(hex_pad(m, width).last() == spec_hex_digit((m % 16) as int));
        lemma_hex_digit_value((n % 16) as int);
        lemma_hex_digit_value((m % 16) as int);
        assert(n % 16 == m % 16);
        assert(hex_pad(n, width).drop_last() =~= hex_pad(n / 16, (width - 1) as nat));
        assert(hex_pad(m, width).drop_last() =~= hex_pad(m / 16, (width - 1) as nat));
        assert(n / 16 < pow16((width - 1) as nat)) by {
            assert(pow16(width) == 16 * pow16((width - 1) as nat));
        }
        assert(m / 16 < pow16((width - 1) as nat)) by {
            assert(pow16(width) == 16 * pow16((width - 1) as nat));
        }
        lemma_hex_pad_injective(n / 16, m / 16, (width - 1) as nat);
    }
}

/// Every 64-bit value fits in sixteen hexadecimal digits.
pub proof fn lemma_u64_lt_pow16()
    ensures
        pow16(16) == 0x10000000000000000,
{
    reveal_with_fuel(pow16, 17);
}

/// Two ids whose counters differ are different strings, whatever
/// their random parts hold.
pub proof fn lemma_req_id_injective(r1: u64, r2: u64, r3: u64, c: u64, s1: u64, s2: u64, s3: u64, d: u64)
    requires
        c != d,
    ensures
        req_id(r1, r2, r3, c) != req_id(s1, s2, s3, d),
{
    let a = req_id(r1, r2, r3, c);
    let b = req_id(s1, s2, s3, d);
    lemma_hex_pad_len(r1 as nat, 16);
    lemma_hex_pad_len(r2 as nat, 16);
    lemma_hex_pad_len(r3 as nat, 16);
    lemma_hex_pad_len(c as nat, 16);
    lemma_hex_pad_len(s1 as nat, 16);
    lemma_hex_pad_len(s2 as nat, 16);
    lemma_hex_pad_len(s3 as nat, 16);
    lemma_hex_pad_len(d as nat, 16);
    assert(a.len() == 67);
    assert(b.len() == 67);
    if a == b {
        assert(a.subrange(51, 67) =~= hex_pad(c as nat, 16)) by {
            assert(forall|j: int|
                0 <= j < 16 ==> a[51 + j] == #[trigger] hex_pad(c as nat, 16)[j]);
        }
        assert(b.subrange(51, 67) =~= hex_pad(d as nat, 16)) by {
            assert(forall|j: int|
                0 <= j < 16 ==> b[51 + j] == #[trigger] hex_pad(d as nat, 16)[j]);
        }
        lemma_u64_lt_pow16();
        lemma_hex_pad_injective(c as nat, d as nat, 16);
        assert(false);
    }
}

/// Hexadecimal digits of `n`, appended, no leading zeros.
fn write_hex(out: &mut String, n: u64)
    ensures
        final(out)@ == old(out)@ + hex_chars(n as nat),
    decreases n,
{
    if n >= 16 {
        write_hex(out, n / 16);
        push_char(out, hex_digit(n % 16));
        proof {
            assert((n as nat) / 16 == (n / 16) as nat);
            assert(out@ =~= old(out)@ + hex_chars(n as nat));
        }
    } else {
        push_char(out, hex_digit(n));
        proof {
            assert(out@ =~= old(out)@ + hex_chars(n as nat));
        }
    }
}

/// Hexadecimal digits of `n`, appended, zero-padded to `width`.
fn write_hex_pad(out: &mut String, n: u64, width: u64)
    ensures
        final(out)@ == old(out)@ + hex_pad(n as nat, width as nat),
    decreases width,
{
    if width > 0 {
        write_hex_pad(out, n / 16, width - 1);
        push_char(out, hex_digit(n % 16));
        proof {
            assert((n as nat) / 16 == (n / 16) as nat);
            assert(out@ =~= old(out)@ + hex_pad(n as nat, width as nat));
        }
    } else {
        proof {
            assert(out@ =~= old(out)@ + hex_pad(n as nat, width as nat));
        }
    }
}

/// A random identifier: four random hexadecimal 64-bit parts joined
/// by `-`.
pub fn generate_uuid() -> (r: String)
    ensures
        exists|a: u64, b: u64, c: u64, d: u64| r@ == uuid_chars(a, b, c, d),
{
    let a = random_u64();
    let b = random_u64();
    let c = random_u64();
    let d = random_u64();
    let mut out = String::new();
    write_hex(&mut out, a);
    push_char(&mut out, '-');
    write_hex(&mut out, b);
    push_char(&mut out, '-');
    write_hex(&mut out, c);
    push_char(&mut out, '-');
    write_hex(&mut out, d);
    proof {
        assert(out@ =~= uuid_chars(a, b, c, d));
    }
    out
}

/// Issues ids unique within one peer: the final part of each id is a
/// counter.
pub struct IdSource {
    counter: u64,
}

impl IdSource {
    pub closed spec fn count(&self) -> u64 {
        self.counter
    }

    pub fn new() -> (r: IdSource)
        ensures
            r.count() == 0,
    {
        IdSource { counter: 0 }
    }

    /// A fresh id: its counter part is the source's current count.
    pub fn fresh(&mut self) -> (id: String)
        ensures
            final(self).count() == old(self).count().wrapping_add(1),
            exists|r1: u64, r2: u64, r3: u64| id@ == req_id(r1, r2, r3, old(self).count()),
    {
        let r1 = random_u64();
        let r2 = random_u64();
        let r3 = random_u64();
        let mut out = String::new();
        write_hex_pad(&mut out, r1, 16);
        push_char(&mut out, '-');
        write_hex_pad(&mut out, r2, 16);
        push_char(&mut out, '-');
        write_hex_pad(&mut out, r3, 16);
        push_char(&mut out, '-');
        write_hex_pad(&mut out, self.counter, 16);
        self.counter = self.counter.wrapping_add(1);
        proof {
            assert(out@ =~= req_id(r1, r2, r3, old(self).counter));
        }
        out
    }
}

} // verus!
