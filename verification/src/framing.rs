//! Newline framing of the byte stream.
//!
//! A reader may receive partial chunks; `split_frames` cuts the
//! accumulated text at each newline into complete frames and the
//! unfinished tail. Because one message's text never holds a newline
//! (`lemma_ser_val_newline_free`), concatenated framed messages split
//! back into exactly those messages (`lemma_split_framed`).

use vstd::prelude::*;

use crate::message::strings_view;
use crate::ser::newline_free;
use crate::text::push_char;

verus! {

/// Split from `pos` on: every `\n` closes the frame gathered so far.
pub open spec fn split_acc(
    t: Seq<char>,
    pos: int,
    cur: Seq<char>,
    acc: Seq<Seq<char>>,
) -> (Seq<Seq<char>>, Seq<char>)
    decreases t.len() - pos,
{
    if !(0 <= pos < t.len()) {
        (acc, cur)
    } else if t[pos] == '\n' {
        split_acc(t, pos + 1, Seq::empty(), acc.push(cur))
    } else {
        split_acc(t, pos + 1, cur.push(t[pos]), acc)
    }
}

/// The complete frames of a text, and its unfinished tail.
pub open spec fn spec_split(t: Seq<char>) -> (Seq<Seq<char>>, Seq<char>) {
    split_acc(t, 0, Seq::empty(), Seq::empty())
}

/// The lines, each closed with one newline, concatenated.
pub open spec fn framed_concat(lines: Seq<Seq<char>>) -> Seq<char>
    decreases lines.len(),
{
    if lines.len() == 0 {
        Seq::empty()
    } else {
        lines[0].push('\n') + framed_concat(lines.skip(1))
    }
}

/// Cut the gathered text at each newline: the complete frames in
/// order, and the unfinished tail to carry into the next read.
pub fn split_frames(buffer: &str) -> (r: (Vec<String>, String))
    ensures
        (strings_view(r.0@), r.1@) == spec_split(buffer@),
{
    let cs = crate::parse::str_chars(buffer);
    let n = cs.len();
    let mut frames: Vec<String> = Vec::new();
    let mut cur = String::new();
    let mut i: usize = 0;
    proof {
        assert(strings_view(frames@) =~= Seq::<Seq<char>>::empty());
        assert(cur@ =~= Seq::<char>::empty());
    }
    while i < n
        invariant
            n == cs@.len(),
            cs@ == buffer@,
            0 <= i <= n,
            split_acc(buffer@, i as int, cur@, strings_view(frames@)) == spec_split(buffer@),
        decreases n - i,
    {
        let c = cs[i];
        if c == '\n' {
            let ghost prev_frames = strings_view(frames@);
            let ghost prev_cur = cur@;
            let mut done = String::new();
            core::mem::swap(&mut done, &mut cur);
            frames.push(done);
            proof {
                assert(strings_view(frames@) =~= prev_frames.push(prev_cur));
            }
        } else {
            push_char(&mut cur, c);
        }
        i = i + 1;
    }
    (frames, cur)
}

/// Consuming one newline-free frame and its newline closes exactly
/// that frame.
proof fn lemma_split_acc_line(
    t: Seq<char>,
    pos: int,
    cur: Seq<char>,
    acc: Seq<Seq<char>>,
    w: Seq<char>,
)
    requires
        0 <= pos,
        pos + w.len() < t.len(),
        newline_free(w),
        t.subrange(pos, pos + w.len()) == w,
        t[pos + w.len()] == '\n',
    ensures
        split_acc(t, pos, cur, acc) == split_acc(
            t,
            pos + w.len() + 1,
            Seq::empty(),
            acc.push(cur + w),
        ),
    decreases w.len(),
{
    if w.len() == 0 {
        assert(cur + w =~= cur);
    } else {
        assert(t.subrange(pos, pos + w.len())[0] == t[pos]);
        assert(t[pos] == w[0]);
        assert(w[0] != '\n');
        assert(t.subrange(pos + 1, pos + 1 + (w.len() - 1)) =~= w.skip(1)) by {
            assert forall|j: int| 0 <= j < w.len() - 1 implies #[trigger] t.subrange(
                pos + 1,
                pos + w.len(),
            )[j] == w.skip(1)[j] by {
                assert(t.subrange(pos + 1, pos + w.len())[j] == t[pos + 1 + j]);
                assert(t.subrange(pos, pos + w.len())[j + 1] == t[pos + 1 + j]);
            }
        }
        lemma_split_acc_line(t, pos + 1, cur.push(w[0]), acc, w.skip(1));
        assert(cur.push(w[0]) + w.skip(1) =~= cur + w);
    }
}

/// Splitting the concatenation of framed, newline-free lines gives
/// back exactly those lines, with nothing left over.
proof fn lemma_split_acc_framed(t: Seq<char>, pos: int, acc: Seq<Seq<char>>, lines: Seq<Seq<char>>)
    requires
        0 <= pos <= t.len(),
        t.skip(pos) == framed_concat(lines),
        forall|i: int| 0 <= i < lines.len() ==> newline_free(#[trigger] lines[i]),
    ensures
        split_acc(t, pos, Seq::empty(), acc) == (acc + lines, Seq::<char>::empty()),
    decreases lines.len(),
{
    if lines.len() == 0 {
        assert(t.skip(pos).len() == 0);
        assert(pos >= t.len());
        assert(acc + lines =~= acc);
    } else {
        let w = lines[0];
        assert(t.skip(pos).len() == framed_concat(lines).len());
        assert((w.push('\n') + framed_concat(lines.skip(1))).len() == w.len() + 1 + framed_concat(
            lines.skip(1),
        ).len());
        assert(t.subrange(pos, pos + w.len()) =~= w) by {
            assert forall|j: int| 0 <= j < w.len() implies #[trigger] t.subrange(
                pos,
                pos + w.len(),
            )[j] == w[j] by {
                assert(t.skip(pos)[j] == t[pos + j]);
                assert((w.push('\n') + framed_concat(lines.skip(1)))[j] == w.push('\n')[j]);
            }
        }
        assert(t[pos + w.len()] == '\n') by {
            assert(t.skip(pos)[w.len() as int] == t[pos + w.len()]);
            assert((w.push('\n') + framed_concat(lines.skip(1)))[w.len() as int] == w.push(
                '\n',
            )[w.len() as int]);
        }
        lemma_split_acc_line(t, pos, Seq::empty(), acc, w);
        assert(Seq::<char>::empty() + w =~= w);
        assert(t.skip(pos + w.len() + 1) =~= framed_concat(lines.skip(1))) by {
            assert forall|j: int| 0 <= j < framed_concat(lines.skip(1)).len() implies #[trigger] t.skip(
                pos + w.len() + 1,
            )[j] == framed_concat(lines.skip(1))[j] by {
                assert(t.skip(pos + w.len() + 1)[j] == t[pos + w.len() + 1 + j]);
                assert(t.skip(pos)[w.len() + 1 + j] == t[pos + w.len() + 1 + j]);
                assert((w.push('\n') + framed_concat(lines.skip(1)))[w.len() + 1 + j]
                    == framed_concat(lines.skip(1))[j]);
            }
        }
        lemma_split_acc_framed(t, pos + w.len() + 1, acc.push(w), lines.skip(1));
        assert(acc.push(w) + lines.skip(1) =~= acc + lines);
    }
}

/// Framing loses nothing: newline-free lines, each closed with one
/// newline and concatenated in any grouping, split back into exactly
/// those lines.
pub proof fn lemma_split_framed(lines: Seq<Seq<char>>)
    requires
        forall|i: int| 0 <= i < lines.len() ==> newline_free(#[trigger] lines[i]),
    ensures
        spec_split(framed_concat(lines)) == (lines, Seq::<char>::empty()),
{
    let t = framed_concat(lines);
    assert(t.skip(0) =~= t);
    lemma_split_acc_framed(t, 0, Seq::empty(), lines);
    assert(Seq::<Seq<char>>::empty() + lines =~= lines);
}

} // verus!
