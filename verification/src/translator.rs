use crate::text::{chars_to_string, string_to_chars};
use vstd::prelude::*;

verus! {

/// The text cut into pieces of at most `w` characters, in order; text no
/// longer than `w` is one piece.
pub open spec fn chunks_of(s: Seq<char>, w: int) -> Seq<Seq<char>>
    recommends
        w >= 1,
    decreases s.len(),
{
    if w < 1 || s.len() <= w {
        seq![s]
    } else {
        seq![s.take(w)] + chunks_of(s.skip(w), w)
    }
}

/// The pieces joined with newlines.
pub open spec fn join_lines(parts: Seq<Seq<char>>) -> Seq<char>
    decreases parts.len(),
{
    if parts.len() == 0 {
        Seq::empty()
    } else if parts.len() == 1 {
        parts[0]
    } else {
        parts[0] + seq!['\n'] + join_lines(parts.skip(1))
    }
}

/// Breaks translated output into lines of at most `width` characters, so a
/// long translation stays readable in the launcher's list.
pub fn chunk_text(s: &str, width: usize) -> (r: String)
    requires
        width >= 1,
    ensures
        r@ == join_lines(chunks_of(s@, width as int)),
{
    let chars = string_to_chars(s);
    let total = chars.len();
    let mut out: Vec<char> = Vec::new();
    let mut pos: usize = 0;
    proof {
        assert(chars@.skip(0) =~= chars@);
        assert(out@ + join_lines(chunks_of(chars@.skip(0), width as int)) =~= join_lines(
            chunks_of(s@, width as int),
        ));
    }
    while total - pos > width
        invariant
            pos <= total,
            total == chars@.len(),
            chars@ == s@,
            width >= 1,
            join_lines(chunks_of(s@, width as int)) == out@ + join_lines(
                chunks_of(chars@.skip(pos as int), width as int),
            ),
        decreases total - pos,
    {
        let ghost pre = chars@.skip(pos as int);
        let ghost base = out@;
        let mut i: usize = 0;
        while i < width
            invariant
                i <= width,
                pos + width <= total,
                total == chars@.len(),
                pre == chars@.skip(pos as int),
                out@ == base + pre.take(i as int),
            decreases width - i,
        {
            proof {
                assert(pre[i as int] == chars@[pos + i]);
            }
            out.push(chars[pos + i]);
            i = i + 1;
            proof {
                assert(out@ =~= base + pre.take(i as int));
            }
        }
        out.push('\n');
        pos = pos + width;
        proof {
            let rest = chars@.skip(pos as int);
            assert(pre.skip(width as int) =~= rest);
            lemma_chunks_len(rest, width as int);
            lemma_join_lines_cons(pre.take(width as int), chunks_of(rest, width as int));
            assert(chunks_of(pre, width as int) == seq![pre.take(width as int)] + chunks_of(
                rest,
                width as int,
            ));
            assert(out@ =~= base + (pre.take(width as int) + seq!['\n']));
            assert(out@ + join_lines(chunks_of(rest, width as int)) =~= base + join_lines(
                chunks_of(pre, width as int),
            ));
        }
    }
    // the final piece: everything that is left
    let ghost pre = chars@.skip(pos as int);
    let ghost base = out@;
    let mut i: usize = pos;
    while i < total
        invariant
            pos <= i <= total,
            total == chars@.len(),
            pre == chars@.skip(pos as int),
            out@ == base + chars@.subrange(pos as int, i as int),
        decreases total - i,
    {
        out.push(chars[i]);
        i = i + 1;
        proof {
            assert(out@ =~= base + chars@.subrange(pos as int, i as int));
        }
    }
    proof {
        assert(chars@.subrange(pos as int, total as int) =~= pre);
        assert(pre.len() <= width as int);
        assert(chunks_of(pre, width as int) == seq![pre]);
        assert(join_lines(seq![pre]) == pre);
        assert(out@ =~= join_lines(chunks_of(s@, width as int)));
    }
    chars_to_string(&out)
}

proof fn lemma_chunks_len(s: Seq<char>, w: int)
    requires
        w >= 1,
    ensures
        chunks_of(s, w).len() >= 1,
    decreases s.len(),
{
    if s.len() > w {
        lemma_chunks_len(s.skip(w), w);
    }
}

proof fn lemma_join_lines_cons(head: Seq<char>, rest: Seq<Seq<char>>)
    requires
        rest.len() >= 1,
    ensures
        join_lines(seq![head] + rest) == head + seq!['\n'] + join_lines(rest),
{
    let parts = seq![head] + rest;
    assert(parts[0] == head);
    assert(parts.skip(1) =~= rest);
    assert(parts.len() >= 2);
    assert(join_lines(parts) =~= head + seq!['\n'] + join_lines(rest));
}

/// Tabs replaced by four spaces, character for character otherwise.
pub open spec fn spec_replace_tabs(s: Seq<char>) -> Seq<char>
    decreases s.len(),
{
    if s.len() == 0 {
        Seq::empty()
    } else {
        (if s[0] == '\t' {
            seq![' ', ' ', ' ', ' ']
        } else {
            seq![s[0]]
        }) + spec_replace_tabs(s.skip(1))
    }
}

/// Widens tabs in dictionary output to four spaces.
pub fn replace_tabs(s: &str) -> (r: String)
    ensures
        r@ == spec_replace_tabs(s@),
{
    let chars = string_to_chars(s);
    let mut out: Vec<char> = Vec::new();
    let mut i: usize = 0;
    proof {
        assert(chars@.skip(0) =~= chars@);
        assert(out@ + spec_replace_tabs(chars@.skip(0)) =~= spec_replace_tabs(s@));
    }
    while i < chars.len()
        invariant
            i <= chars@.len(),
            chars@ == s@,
            spec_replace_tabs(s@) == out@ + spec_replace_tabs(chars@.skip(i as int)),
        decreases chars@.len() - i,
    {
        let ghost pre = chars@.skip(i as int);
        let c = chars[i];
        proof {
            assert(pre[0] == c);
            assert(pre.skip(1) =~= chars@.skip(i as int + 1));
        }
        if c == '\t' {
            out.push(' ');
            out.push(' ');
            out.push(' ');
            out.push(' ');
        } else {
            out.push(c);
        }
        proof {
            assert(out@ + spec_replace_tabs(chars@.skip(i as int + 1)) =~= spec_replace_tabs(s@));
        }
        i = i + 1;
    }
    proof {
        assert(chars@.skip(i as int) =~= Seq::<char>::empty());
        assert(out@ =~= spec_replace_tabs(s@));
    }
    chars_to_string(&out)
}

/// Whether a query goes to the sentence translator or the dictionary: a
/// query with a space inside is a sentence.
pub fn wants_sentence_translation(q: &str) -> (r: bool)
    ensures
        r == exists|i: int| 0 <= i < q@.len() && q@[i] == ' ',
{
    let chars = string_to_chars(q);
    let mut i: usize = 0;
    while i < chars.len()
        invariant
            i <= chars@.len(),
            chars@ == q@,
            forall|j: int| 0 <= j < i ==> q@[j] != ' ',
        decreases chars@.len() - i,
    {
        if chars[i] == ' ' {
            return true;
        }
        i = i + 1;
    }
    false
}

} // verus!
