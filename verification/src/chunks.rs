//! Splitting a text into chunks at its blank-line separators.

use vstd::prelude::*;
use crate::lines::{all_lines, is_line, join_lines};

verus! {

/// Number of characters in front of the first blank-line separator of `s`,
/// which is two newlines in a row; the whole length of `s` where it holds
/// none.
pub open spec fn chunk_end(s: Seq<char>) -> nat
    decreases s.len(),
{
    if s.len() < 2 {
        s.len()
    } else if s[0] == '\n' && s[1] == '\n' {
        0
    } else {
        1 + chunk_end(s.skip(1))
    }
}

/// The chunks of `s`: the pieces between its blank-line separators, in
/// order. The separators are found from the front and do not overlap.
pub open spec fn split_chunks(s: Seq<char>) -> Seq<Seq<char>>
    decreases s.len(),
{
    let n = chunk_end(s) as int;
    if n + 2 > s.len() {
        seq![s]
    } else {
        seq![s.take(n)] + split_chunks(s.skip(n + 2))
    }
}

/// The text made of the given chunks with a blank-line separator between
/// each two.
pub open spec fn join_chunks(chunks: Seq<Seq<char>>) -> Seq<char>
    decreases chunks.len(),
{
    if chunks.len() == 0 {
        Seq::empty()
    } else if chunks.len() == 1 {
        chunks[0]
    } else {
        chunks[0] + seq!['\n', '\n'] + join_chunks(chunks.skip(1))
    }
}

/// `s` holds no blank-line separator: no two newlines in a row.
pub open spec fn is_chunk(s: Seq<char>) -> bool {
    forall|i: int| 0 <= i && i + 1 < s.len() ==> !(#[trigger] s[i] == '\n' && s[i + 1] == '\n')
}

/// `s` does not end in a newline.
pub open spec fn ends_in_text(s: Seq<char>) -> bool {
    s.len() > 0 ==> s.last() != '\n'
}

/// `chunk_end` is the one position that has no separator before it and
/// either a separator or too little text for one at it.
pub proof fn lemma_chunk_end(s: Seq<char>, n: int)
    requires
        0 <= n <= s.len(),
        forall|i: int|
            0 <= i < n && i + 1 < s.len() ==> !(#[trigger] s[i] == '\n' && s[i + 1] == '\n'),
        n + 2 <= s.len() ==> s[n] == '\n' && s[n + 1] == '\n',
        n + 2 > s.len() ==> n == s.len(),
    ensures
        chunk_end(s) == n,
    decreases n,
{
    if n > 0 && s.len() >= 2 {
        let t = s.skip(1);
        assert(!(s[0] == '\n' && s[1] == '\n'));
        assert forall|i: int| 0 <= i < n - 1 && i + 1 < t.len() implies !(#[trigger] t[i] == '\n'
            && t[i + 1] == '\n') by {
            assert(t[i] == s[i + 1]);
            assert(!(s[i + 1] == '\n' && s[i + 2] == '\n'));
        }
        lemma_chunk_end(t, n - 1);
    }
}

/// What `chunk_end` finds: it is within the text, no separator begins
/// before it, and either a separator begins at it or it is the end.
pub proof fn lemma_chunk_end_is_first(s: Seq<char>)
    ensures
        chunk_end(s) <= s.len(),
        is_chunk(s.take(chunk_end(s) as int)),
        ends_in_text(s.take(chunk_end(s) as int)) || chunk_end(s) == s.len(),
        chunk_end(s) < s.len() ==> chunk_end(s) + 2 <= s.len() && s[chunk_end(s) as int] == '\n'
            && s[chunk_end(s) as int + 1] == '\n',
    decreases s.len(),
{
    let n = chunk_end(s) as int;
    if s.len() < 2 {
        assert(s.take(n) =~= s);
    } else if s[0] == '\n' && s[1] == '\n' {
    } else {
        let t = s.skip(1);
        lemma_chunk_end_is_first(t);
        let front = s.take(n);
        let before = t.take(n - 1);
        assert forall|i: int| 0 <= i && i + 1 < front.len() implies !(#[trigger] front[i] == '\n'
            && front[i + 1] == '\n') by {
            if i > 0 {
                assert(before[i - 1] == front[i]);
                assert(before[i] == front[i + 1]);
            }
        }
        if n < s.len() {
            if n > 1 {
                assert(before.last() == front.last());
            } else {
                assert(front.last() == s[0]);
                assert(s[1] == '\n');
            }
        }
    }
}

/// A text without a separator is its own single chunk.
pub proof fn lemma_split_chunks_one(chunk: Seq<char>)
    requires
        is_chunk(chunk),
    ensures
        split_chunks(chunk) == seq![chunk],
{
    lemma_chunk_end(chunk, chunk.len() as int);
}

/// The first chunk of a text that begins with a chunk and a separator is
/// that chunk, and the other chunks are those of what follows. The chunk
/// must not end in a newline, which would be taken for the first half of
/// the separator.
pub proof fn lemma_split_chunks_cons(chunk: Seq<char>, rest: Seq<char>)
    requires
        is_chunk(chunk),
        ends_in_text(chunk),
    ensures
        split_chunks(chunk + seq!['\n', '\n'] + rest) == seq![chunk] + split_chunks(rest),
{
    let s = chunk + seq!['\n', '\n'] + rest;
    let n = chunk.len() as int;
    assert forall|i: int| 0 <= i < n && i + 1 < s.len() implies !(#[trigger] s[i] == '\n' && s[i
        + 1] == '\n') by {
        assert(s[i] == chunk[i]);
        if i + 1 < n {
            assert(s[i + 1] == chunk[i + 1]);
        }
    }
    lemma_chunk_end(s, n);
    assert(s.take(n) =~= chunk);
    assert(s.skip(n + 2) =~= rest);
}

/// Splitting takes apart what joining put together: the chunks of the text
/// joined from one or more chunks are those chunks, where none but the last
/// ends in a newline.
pub proof fn lemma_split_join_chunks(chunks: Seq<Seq<char>>)
    requires
        chunks.len() > 0,
        forall|i: int| 0 <= i < chunks.len() ==> is_chunk(#[trigger] chunks[i]),
        forall|i: int| 0 <= i < chunks.len() - 1 ==> ends_in_text(#[trigger] chunks[i]),
    ensures
        split_chunks(join_chunks(chunks)) == chunks,
    decreases chunks.len(),
{
    if chunks.len() == 1 {
        lemma_split_chunks_one(chunks[0]);
        assert(seq![chunks[0]] =~= chunks);
    } else {
        let rest = chunks.skip(1);
        assert forall|i: int| 0 <= i < rest.len() implies is_chunk(#[trigger] rest[i]) by {
            assert(rest[i] == chunks[i + 1]);
        }
        assert forall|i: int| 0 <= i < rest.len() - 1 implies ends_in_text(#[trigger] rest[i]) by {
            assert(rest[i] == chunks[i + 1]);
        }
        lemma_split_join_chunks(rest);
        lemma_split_chunks_cons(chunks[0], join_chunks(rest));
        assert(seq![chunks[0]] + rest =~= chunks);
    }
}

/// Splitting loses nothing: a text has at least one chunk, no chunk holds
/// a separator, none but the last ends in a newline, and joined again they
/// are the text.
pub proof fn chunks_join_back(s: Seq<char>)
    ensures
        split_chunks(s).len() > 0,
        forall|i: int| 0 <= i < split_chunks(s).len() ==> is_chunk(#[trigger] split_chunks(s)[i]),
        forall|i: int|
            0 <= i < split_chunks(s).len() - 1 ==> ends_in_text(#[trigger] split_chunks(s)[i]),
        join_chunks(split_chunks(s)) == s,
    decreases s.len(),
{
    let n = chunk_end(s) as int;
    lemma_chunk_end_is_first(s);
    if n + 2 > s.len() {
        assert(s.take(n) =~= s);
    } else {
        let rest = split_chunks(s.skip(n + 2));
        let chunks = seq![s.take(n)] + rest;
        chunks_join_back(s.skip(n + 2));
        assert(chunks.skip(1) =~= rest);
        assert(s.take(n) + seq!['\n', '\n'] + s.skip(n + 2) =~= s);
        assert forall|i: int| 0 <= i < chunks.len() implies is_chunk(#[trigger] chunks[i]) by {
            if i > 0 {
                assert(chunks[i] == rest[i - 1]);
            }
        }
        assert forall|i: int| 0 <= i < chunks.len() - 1 implies ends_in_text(
            #[trigger] chunks[i],
        ) by {
            if i > 0 {
                assert(chunks[i] == rest[i - 1]);
            }
        }
    }
}

/// What is put behind joined chunks is put behind the last of them.
pub proof fn lemma_join_chunks_tail(chunks: Seq<Seq<char>>, tail: Seq<char>)
    requires
        chunks.len() > 0,
    ensures
        join_chunks(chunks) + tail == join_chunks(
            chunks.update(chunks.len() - 1, chunks.last() + tail),
        ),
    decreases chunks.len(),
{
    let last = chunks.len() - 1;
    let longer = chunks.update(last, chunks.last() + tail);
    if chunks.len() > 1 {
        let rest = chunks.skip(1);
        lemma_join_chunks_tail(rest, tail);
        assert(longer.skip(1) =~= rest.update(last - 1, rest.last() + tail));
        assert(join_chunks(chunks) + tail =~= chunks[0] + seq!['\n', '\n'] + (join_chunks(rest)
            + tail));
    }
}

/// Lines joined hold two newlines in a row only where a line between the
/// first and the last is empty.
pub proof fn lemma_join_lines_is_chunk(lines: Seq<Seq<char>>)
    requires
        all_lines(lines),
        forall|i: int| 0 < i < lines.len() - 1 ==> (#[trigger] lines[i]).len() > 0,
    ensures
        is_chunk(join_lines(lines)),
        lines.len() > 0 && lines[0].len() > 0 ==> join_lines(lines).len() > 0 && join_lines(
            lines,
        )[0] == lines[0][0],
    decreases lines.len(),
{
    if lines.len() <= 1 {
        if lines.len() == 1 {
            assert(is_line(lines[0]));
        }
    } else {
        let first = lines[0];
        let rest = lines.skip(1);
        let tail = join_lines(rest);
        let s = first + seq!['\n'] + tail;
        assert(is_line(first));
        assert forall|i: int| 0 <= i < rest.len() implies is_line(#[trigger] rest[i]) by {
            assert(rest[i] == lines[i + 1]);
        }
        assert forall|i: int| 0 < i < rest.len() - 1 implies (#[trigger] rest[i]).len() > 0 by {
            assert(rest[i] == lines[i + 1]);
        }
        lemma_join_lines_is_chunk(rest);
        if tail.len() > 0 {
            assert(is_line(rest[0]));
            if rest.len() == 1 {
                assert(tail[0] == rest[0][0]);
            } else {
                assert(rest[0] == lines[1]);
                assert(tail[0] == rest[0][0]);
            }
            assert(tail[0] != '\n');
        }
        let n = first.len() as int;
        assert forall|i: int| 0 <= i && i + 1 < s.len() implies !(#[trigger] s[i] == '\n' && s[i
            + 1] == '\n') by {
            if i < n {
                assert(s[i] == first[i]);
            } else if i == n {
                assert(s[i + 1] == tail[0]);
            } else {
                assert(s[i] == tail[i - n - 1]);
                assert(s[i + 1] == tail[i - n]);
            }
        }
    }
}

/// Finds where the first chunk of `text[from..]` ends: at its first
/// blank-line separator, or at the end of the text.
pub fn chunk_end_at(text: &Vec<char>, from: usize) -> (end: usize)
    requires
        from <= text.len(),
    ensures
        from <= end <= text.len(),
        end - from == chunk_end(text@.skip(from as int)),
        end == text.len() || end + 2 <= text.len(),
{
    let ghost s = text@.skip(from as int);
    let len = text.len();
    let mut end: usize = from;
    while len - end >= 2 && !(text[end] == '\n' && text[end + 1] == '\n')
        invariant
            from <= end <= len,
            len == text.len(),
            s == text@.skip(from as int),
            forall|i: int|
                0 <= i < end - from && i + 1 < s.len() ==> !(#[trigger] s[i] == '\n' && s[i + 1]
                    == '\n'),
        decreases len - end,
    {
        end = end + 1;
    }
    if len - end < 2 {
        end = len;
    }
    proof {
        lemma_chunk_end(s, end - from);
    }
    end
}

} // verus!
