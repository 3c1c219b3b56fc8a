//! Splitting a text into lines, and walking over them one at a time.

use vstd::prelude::*;

verus! {

/// Number of characters in front of the first newline of `s`; the whole
/// length of `s` where it holds no newline.
pub open spec fn line_end(s: Seq<char>) -> nat
    decreases s.len(),
{
    if s.len() == 0 || s[0] == '\n' {
        0
    } else {
        1 + line_end(s.skip(1))
    }
}

/// The lines of `s`: the pieces between its newlines, in order. A text with
/// `n` newlines has `n + 1` lines, so the empty text has one empty line, and
/// a text that ends in a newline has an empty last line.
pub open spec fn split_lines(s: Seq<char>) -> Seq<Seq<char>>
    decreases s.len(),
{
    let n = line_end(s) as int;
    if n >= s.len() {
        seq![s]
    } else {
        seq![s.take(n)] + split_lines(s.skip(n + 1))
    }
}

/// No character of `s` is a newline.
pub open spec fn is_line(s: Seq<char>) -> bool {
    forall|i: int| 0 <= i < s.len() ==> #[trigger] s[i] != '\n'
}

/// The text made of the given lines with a newline between each two.
pub open spec fn join_lines(lines: Seq<Seq<char>>) -> Seq<char>
    decreases lines.len(),
{
    if lines.len() == 0 {
        Seq::empty()
    } else if lines.len() == 1 {
        lines[0]
    } else {
        lines[0] + seq!['\n'] + join_lines(lines.skip(1))
    }
}

/// Each of the given texts is a line: none holds a newline.
pub open spec fn all_lines(lines: Seq<Seq<char>>) -> bool {
    forall|i: int| 0 <= i < lines.len() ==> is_line(#[trigger] lines[i])
}

/// `line_end` is the one position that has no newline before it and either
/// a newline or the end of the text at it.
pub proof fn lemma_line_end(s: Seq<char>, n: int)
    requires
        0 <= n <= s.len(),
        is_line(s.take(n)),
        n < s.len() ==> s[n] == '\n',
    ensures
        line_end(s) == n,
    decreases n,
{
    if n == 0 {
    } else {
        assert(s.take(n)[0] == s[0]);
        let t = s.skip(1);
        assert(is_line(t.take(n - 1))) by {
            assert forall|i: int| 0 <= i < n - 1 implies #[trigger] t.take(n - 1)[i] != '\n' by {
                assert(s.take(n)[i + 1] == t.take(n - 1)[i]);
            }
        }
        lemma_line_end(t, n - 1);
    }
}

/// What `line_end` finds: it is within the text, nothing before it is a
/// newline, and it is a newline unless it is the end.
pub proof fn lemma_line_end_is_first(s: Seq<char>)
    ensures
        line_end(s) <= s.len(),
        is_line(s.take(line_end(s) as int)),
        line_end(s) < s.len() ==> s[line_end(s) as int] == '\n',
    decreases s.len(),
{
    if s.len() == 0 || s[0] == '\n' {
    } else {
        let t = s.skip(1);
        lemma_line_end_is_first(t);
        let n = line_end(s);
        assert forall|i: int| 0 <= i < n implies #[trigger] s.take(n as int)[i] != '\n' by {
            if i > 0 {
                assert(t.take(n - 1)[i - 1] == s.take(n as int)[i]);
            }
        }
    }
}

/// A text without a newline is its own single line.
pub proof fn lemma_split_lines_one(line: Seq<char>)
    requires
        is_line(line),
    ensures
        split_lines(line) == seq![line],
{
    assert(line.take(line.len() as int) =~= line);
    lemma_line_end(line, line.len() as int);
}

/// The first line of a text that begins with a line and a newline is that
/// line, and the other lines are those of what follows.
pub proof fn lemma_split_lines_cons(line: Seq<char>, rest: Seq<char>)
    requires
        is_line(line),
    ensures
        split_lines(line + seq!['\n'] + rest) == seq![line] + split_lines(rest),
{
    let s = line + seq!['\n'] + rest;
    let n = line.len() as int;
    assert(s.take(n) =~= line);
    assert(s.skip(n + 1) =~= rest);
    lemma_line_end(s, n);
}

/// Splitting takes apart what joining put together: the lines of the text
/// joined from one or more lines are those lines.
pub proof fn lemma_split_join_lines(lines: Seq<Seq<char>>)
    requires
        lines.len() > 0,
        all_lines(lines),
    ensures
        split_lines(join_lines(lines)) == lines,
    decreases lines.len(),
{
    if lines.len() == 1 {
        lemma_split_lines_one(lines[0]);
        assert(seq![lines[0]] =~= lines);
    } else {
        let rest = lines.skip(1);
        assert forall|i: int| 0 <= i < rest.len() implies is_line(#[trigger] rest[i]) by {
            assert(rest[i] == lines[i + 1]);
        }
        lemma_split_join_lines(rest);
        lemma_split_lines_cons(lines[0], join_lines(rest));
        assert(seq![lines[0]] + rest =~= lines);
    }
}

/// Splitting loses nothing: a text has at least one line, none of its
/// lines holds a newline, and joined again they are the text.
pub proof fn lines_join_back(s: Seq<char>)
    ensures
        split_lines(s).len() > 0,
        all_lines(split_lines(s)),
        join_lines(split_lines(s)) == s,
    decreases s.len(),
{
    let n = line_end(s) as int;
    lemma_line_end_is_first(s);
    if n >= s.len() {
        assert(s.take(n) =~= s);
    } else {
        let rest = split_lines(s.skip(n + 1));
        let lines = seq![s.take(n)] + rest;
        lines_join_back(s.skip(n + 1));
        assert(lines.skip(1) =~= rest);
        assert(s.take(n) + seq!['\n'] + s.skip(n + 1) =~= s);
        assert forall|i: int| 0 <= i < lines.len() implies is_line(#[trigger] lines[i]) by {
            if i > 0 {
                assert(lines[i] == rest[i - 1]);
            }
        }
    }
}

/// A walk over the lines of a stretch of text, front to back.
pub struct LineCursor<'a> {
    text: &'a Vec<char>,
    next: usize,
    end: usize,
    done: bool,
}

impl<'a> LineCursor<'a> {
    #[verifier::type_invariant]
    spec fn well_formed(self) -> bool {
        self.next <= self.end <= self.text.len()
    }

    /// The text that the cursor walks over a part of.
    pub closed spec fn text(self) -> Seq<char> {
        self.text@
    }

    /// The lines that the cursor has still to hand out.
    pub closed spec fn remaining(self) -> Seq<Seq<char>> {
        if self.done {
            Seq::empty()
        } else {
            split_lines(self.text@.subrange(self.next as int, self.end as int))
        }
    }

    /// A cursor in front of the first line of `text[from..to]`.
    pub fn new(text: &'a Vec<char>, from: usize, to: usize) -> (cursor: Self)
        requires
            from <= to <= text.len(),
        ensures
            cursor.text() == text@,
            cursor.remaining() == split_lines(text@.subrange(from as int, to as int)),
    {
        LineCursor { text, next: from, end: to, done: false }
    }

    /// The text that the cursor walks over a part of.
    pub fn source(&self) -> (text: &'a Vec<char>)
        ensures
            text@ == self.text(),
    {
        self.text
    }

    /// Hands out the bounds of the next line within the text and steps over
    /// it, or returns `None` when no line is left.
    pub fn next_line(&mut self) -> (line: Option<(usize, usize)>)
        ensures
            final(self).text() == old(self).text(),
            old(self).remaining().len() == 0 ==> line is None && final(self).remaining()
                == old(self).remaining(),
            old(self).remaining().len() > 0 ==> ({
                &&& line matches Some((from, to))
                &&& from <= to <= old(self).text().len()
                &&& old(self).text().subrange(from as int, to as int) == old(self).remaining()[0]
                &&& final(self).remaining() == old(self).remaining().skip(1)
            }),
    {
        proof {
            use_type_invariant(&*self);
        }
        if self.done {
            return None;
        }
        let from = self.next;
        let ghost s = self.text@.subrange(from as int, self.end as int);
        let mut to = from;
        while to < self.end && self.text[to] != '\n'
            invariant
                from <= to <= self.end <= self.text.len(),
                s == self.text@.subrange(from as int, self.end as int),
                is_line(s.take(to - from)),
            decreases self.end - to,
        {
            to = to + 1;
            assert forall|i: int| 0 <= i < to - from implies #[trigger] s.take(to - from)[i]
                != '\n' by {
                if i < to - from - 1 {
                    assert(s.take(to - from - 1)[i] == s.take(to - from)[i]);
                }
            }
        }
        proof {
            lemma_line_end(s, to - from);
            assert(s.take(to - from) =~= self.text@.subrange(from as int, to as int));
        }
        if to == self.end {
            self.done = true;
            assert(seq![s].skip(1) =~= Seq::<Seq<char>>::empty());
        } else {
            self.next = to + 1;
            proof {
                let rest = split_lines(s.skip(to - from + 1));
                assert(s.skip(to - from + 1) =~= self.text@.subrange(
                    to as int + 1,
                    self.end as int,
                ));
                assert((seq![s.take(to - from)] + rest).skip(1) =~= rest);
            }
        }
        Some((from, to))
    }
}

} // verus!
