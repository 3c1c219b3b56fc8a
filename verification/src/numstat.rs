//! The statistics table: one line for each changed file, with the counts
//! of added and removed lines and the path, as `--numstat` prints them.

use vstd::prelude::*;
use crate::commit::{FileDiff, FileDiffView};
use crate::error::ParseError;
use crate::lines::LineCursor;
use crate::text::{
    after_first_word, chars_of, count_at, first_word, is_blank, is_whitespace, lemma_blank_run,
    lemma_run_len, lemma_trim_start, lemma_words_blank_tail, lemma_words_trim, parse_count,
    run_end_at, run_len, string_at, trim, trim_end_at, trim_start, words,
};

verus! {

/// The number that a token of the statistics table stands for. A token that
/// is no count, such as the `-` of a binary file, stands for zero.
pub open spec fn count_or_zero(token: Seq<char>) -> u64 {
    match parse_count(token) {
        Some(n) => n,
        None => 0,
    }
}

/// The entry that one line of the statistics table stands for. Whitespace
/// at either end of the line is ignored. The first two words are the counts
/// of added and removed lines. The path is all that follows the gap behind
/// the second word, so it may hold whitespace itself. A line with fewer
/// than three words is no entry.
pub open spec fn stat_line(line: Seq<char>) -> Option<FileDiffView> {
    let entry = trim(line);
    let added = first_word(entry);
    let removed = first_word(after_first_word(entry));
    let path = after_first_word(after_first_word(entry));
    if path.len() == 0 {
        None
    } else {
        Some(
            FileDiffView {
                file_name: path,
                additions: count_or_zero(added),
                deletions: count_or_zero(removed),
            },
        )
    }
}

/// The entries of a statistics table, in the order of its lines. Blank
/// lines are passed over. The first line that is neither blank nor an
/// entry makes the whole table invalid.
pub open spec fn stat_table(lines: Seq<Seq<char>>) -> Result<Seq<FileDiffView>, ParseError>
    decreases lines.len(),
{
    if lines.len() == 0 {
        Ok(Seq::empty())
    } else {
        match stat_table(lines.drop_last()) {
            Err(e) => Err(e),
            Ok(entries) => if is_blank(lines.last()) {
                Ok(entries)
            } else {
                match stat_line(lines.last()) {
                    Some(entry) => Ok(entries.push(entry)),
                    None => Err(ParseError::InvalidStatLine),
                }
            },
        }
    }
}

/// The lines of a table that stand for a file: those that are not blank,
/// in their order.
pub open spec fn stat_entries(lines: Seq<Seq<char>>) -> Seq<Seq<char>> {
    lines.filter(|line: Seq<char>| !is_blank(line))
}

/// `entry` is what the line `line` of a table says of a file. The line has
/// three words or more. Each count is the number that its word writes, and
/// zero where the word writes none, as the `-` of a binary file. The path
/// is what follows the second word, so its words are the other words of
/// the line.
pub open spec fn is_entry_of(entry: FileDiffView, line: Seq<char>) -> bool {
    &&& words(line).len() >= 3
    &&& stat_line(line) == Some(entry)
    &&& entry.additions == match parse_count(words(line)[0]) {
        Some(n) => n,
        None => 0,
    }
    &&& entry.deletions == match parse_count(words(line)[1]) {
        Some(n) => n,
        None => 0,
    }
    &&& words(entry.file_name) == words(line).skip(2)
}

/// `s` is a word: it is not empty and holds no whitespace.
pub open spec fn is_word(s: Seq<char>) -> bool {
    &&& s.len() > 0
    &&& forall|i: int| 0 <= i < s.len() ==> !is_whitespace(#[trigger] s[i])
}

/// `s` is a gap between words: it is not empty and holds whitespace only.
pub open spec fn is_gap(s: Seq<char>) -> bool {
    s.len() > 0 && is_blank(s)
}

/// `s` can be the path of an entry: it is not empty, and neither its first
/// nor its last character is whitespace. In between it may hold any.
pub open spec fn is_path(s: Seq<char>) -> bool {
    s.len() > 0 && !is_whitespace(s[0]) && !is_whitespace(s.last())
}

/// A line made of two words and a path, with a gap behind each word, is
/// the entry with that path and with the counts that the words stand for:
/// zero for a word that is no count. Whitespace within the path is kept.
pub proof fn lemma_stat_line_words(
    added: Seq<char>,
    gap: Seq<char>,
    removed: Seq<char>,
    other_gap: Seq<char>,
    path: Seq<char>,
)
    requires
        is_word(added),
        is_gap(gap),
        is_word(removed),
        is_gap(other_gap),
        is_path(path),
    ensures
        !is_blank(added + gap + removed + other_gap + path),
        stat_line(added + gap + removed + other_gap + path) == Some(
            FileDiffView {
                file_name: path,
                additions: count_or_zero(added),
                deletions: count_or_zero(removed),
            },
        ),
{
    let line = added + gap + removed + other_gap + path;
    assert(line[0] == added[0]);
    assert(line.last() == path.last());
    lemma_run_len(line, true, 0);
    assert(trim_start(line) =~= line);
    assert(trim(line) == line);

    assert forall|i: int| 0 <= i < added.len() implies !is_whitespace(#[trigger] line[i]) by {
        assert(line[i] == added[i]);
    }
    assert(line[added.len() as int] == gap[0]);
    lemma_run_len(line, false, added.len() as int);
    assert(first_word(line) =~= added);

    let tail = line.skip(added.len() as int);
    assert(tail =~= gap + removed + other_gap + path);
    assert forall|i: int| 0 <= i < gap.len() implies is_whitespace(#[trigger] tail[i]) by {
        assert(tail[i] == gap[i]);
    }
    assert(tail[gap.len() as int] == removed[0]);
    lemma_run_len(tail, true, gap.len() as int);
    let rest = after_first_word(line);
    assert(rest =~= removed + other_gap + path);

    assert forall|i: int| 0 <= i < removed.len() implies !is_whitespace(#[trigger] rest[i]) by {
        assert(rest[i] == removed[i]);
    }
    assert(rest[removed.len() as int] == other_gap[0]);
    lemma_run_len(rest, false, removed.len() as int);
    assert(first_word(rest) =~= removed);

    let other_tail = rest.skip(removed.len() as int);
    assert(other_tail =~= other_gap + path);
    assert forall|i: int| 0 <= i < other_gap.len() implies is_whitespace(
        #[trigger] other_tail[i],
    ) by {
        assert(other_tail[i] == other_gap[i]);
    }
    assert(other_tail[other_gap.len() as int] == path[0]);
    lemma_run_len(other_tail, true, other_gap.len() as int);
    assert(after_first_word(rest) =~= path);
}

/// A line of the table is an entry exactly when it has three words or
/// more. The counts of the entry are read from the first two words of the
/// line, and the words of its path are the other words of the line.
pub proof fn stat_line_is_three_words(line: Seq<char>)
    ensures
        stat_line(line) is Some <==> words(line).len() >= 3,
        stat_line(line) matches Some(entry) ==> {
            &&& entry.additions == count_or_zero(words(line)[0])
            &&& entry.deletions == count_or_zero(words(line)[1])
            &&& words(entry.file_name) == words(line).skip(2)
        },
{
    let entry = trim(line);
    lemma_words_trim(line);
    lemma_trim_start(entry);
    if entry.len() > 0 {
        let rest = after_first_word(entry);
        let tail = words(entry.skip(run_len(entry, false) as int));
        lemma_words_blank_tail(entry.skip(run_len(entry, false) as int), Seq::empty());
        assert(tail == words(rest));
        lemma_trim_start(entry.skip(run_len(entry, false) as int));
        assert(trim_start(rest) == rest);
        if rest.len() > 0 {
            let path = after_first_word(rest);
            let more = words(rest.skip(run_len(rest, false) as int));
            lemma_words_blank_tail(rest.skip(run_len(rest, false) as int), Seq::empty());
            assert(more == words(path));
            lemma_trim_start(rest.skip(run_len(rest, false) as int));
            assert(trim_start(path) == path);
            assert(words(line) == seq![first_word(entry)] + (seq![first_word(rest)] + words(
                path,
            )));
            assert(words(line).skip(2) =~= words(path));
            if path.len() > 0 {
                assert(words(path).len() > 0);
            }
        } else {
            lemma_run_len(rest, false, 0);
            assert(rest.skip(0) =~= rest);
        }
    } else {
        lemma_run_len(entry, false, 0);
        assert(entry.skip(0) =~= entry);
        lemma_run_len(entry, true, 0);
    }
}

/// A table that is invalid up to some line is invalid as a whole, for the
/// same reason.
pub proof fn lemma_stat_table_prefix(lines: Seq<Seq<char>>, n: int)
    requires
        0 <= n <= lines.len(),
        stat_table(lines.take(n)) is Err,
    ensures
        stat_table(lines) == stat_table(lines.take(n)),
    decreases lines.len(),
{
    if n == lines.len() {
        assert(lines.take(n) =~= lines);
    } else {
        assert(lines.drop_last().take(n) =~= lines.take(n));
        lemma_stat_table_prefix(lines.drop_last(), n);
    }
}

/// The entries of a table made of two parts are those of the first part
/// followed by those of the second, so a line is read the same whatever
/// stands before or behind it. An invalid line in the first part counts
/// before one in the second.
pub proof fn lemma_stat_table_concat(front: Seq<Seq<char>>, back: Seq<Seq<char>>)
    ensures
        stat_table(front + back) == match stat_table(front) {
            Err(e) => Err::<Seq<FileDiffView>, ParseError>(e),
            Ok(entries) => match stat_table(back) {
                Err(e) => Err(e),
                Ok(more) => Ok(entries + more),
            },
        },
    decreases back.len(),
{
    if back.len() == 0 {
        assert(front + back =~= front);
        if stat_table(front) is Ok {
            assert(stat_table(front)->Ok_0 + Seq::<FileDiffView>::empty() =~= stat_table(
                front,
            )->Ok_0);
        }
    } else {
        let whole = front + back;
        assert(whole.drop_last() =~= front + back.drop_last());
        assert(whole.last() == back.last());
        lemma_stat_table_concat(front, back.drop_last());
        if stat_table(front) is Ok && stat_table(back.drop_last()) is Ok {
            let entries = stat_table(front)->Ok_0;
            let more = stat_table(back.drop_last())->Ok_0;
            if !is_blank(back.last()) && stat_line(back.last()) is Some {
                let entry = stat_line(back.last())->Some_0;
                assert((entries + more).push(entry) =~= entries + more.push(entry));
            }
        }
    }
}

/// A table in which every line is an entry stands for those entries, one
/// for each line, in the order of the lines.
pub proof fn lemma_stat_table_each(lines: Seq<Seq<char>>, entries: Seq<FileDiffView>)
    requires
        lines.len() == entries.len(),
        forall|i: int| 0 <= i < lines.len() ==> !is_blank(#[trigger] lines[i]),
        forall|i: int| 0 <= i < lines.len() ==> stat_line(#[trigger] lines[i]) == Some(entries[i]),
    ensures
        stat_table(lines) == Ok::<Seq<FileDiffView>, ParseError>(entries),
    decreases lines.len(),
{
    if lines.len() == 0 {
        assert(entries =~= Seq::empty());
    } else {
        let front = lines.drop_last();
        assert forall|i: int| 0 <= i < front.len() implies stat_line(#[trigger] front[i]) == Some(
            entries.drop_last()[i],
        ) by {
            assert(front[i] == lines[i]);
        }
        assert forall|i: int| 0 <= i < front.len() implies !is_blank(#[trigger] front[i]) by {
            assert(front[i] == lines[i]);
        }
        lemma_stat_table_each(front, entries.drop_last());
        assert(stat_line(lines[lines.len() - 1]) == Some(entries.last()));
        assert(entries.drop_last().push(entries.last()) =~= entries);
    }
}

/// A table is valid exactly when each of its lines that is not blank has
/// three words or more. It then has one entry for each such line, in the
/// order of the lines, and each entry is what its line says: a count that
/// is no number reads as zero and stops nothing.
pub proof fn stat_table_reads_each_line(lines: Seq<Seq<char>>)
    ensures
        stat_table(lines) is Ok <==> forall|k: int|
            0 <= k < stat_entries(lines).len() ==> words(#[trigger] stat_entries(lines)[k]).len()
                >= 3,
        stat_table(lines) matches Ok(entries) ==> {
            &&& entries.len() == stat_entries(lines).len()
            &&& forall|k: int|
                0 <= k < entries.len() ==> is_entry_of(
                    #[trigger] entries[k],
                    stat_entries(lines)[k],
                )
        },
    decreases lines.len(),
{
    reveal(Seq::filter);
    if lines.len() > 0 {
        let front = lines.drop_last();
        let last = lines.last();
        let kept = stat_entries(front);
        stat_table_reads_each_line(front);
        stat_line_is_three_words(last);
        if is_blank(last) {
            assert(stat_entries(lines) == kept);
        } else {
            assert(stat_entries(lines) == kept.push(last));
            let all = stat_entries(lines);
            assert forall|k: int| 0 <= k < kept.len() implies all[k] == kept[k] by {}
            assert(all[kept.len() as int] == last);
            if stat_table(front) is Ok && stat_line(last) is Some {
                let entries = stat_table(lines)->Ok_0;
                let before = stat_table(front)->Ok_0;
                assert(entries == before.push(stat_line(last)->Some_0));
                assert forall|k: int| 0 <= k < entries.len() implies is_entry_of(
                    #[trigger] entries[k],
                    all[k],
                ) by {
                    if k < before.len() {
                        assert(entries[k] == before[k]);
                        assert(is_entry_of(before[k], kept[k]));
                    }
                }
            }
            if forall|k: int| 0 <= k < all.len() ==> words(#[trigger] all[k]).len() >= 3 {
                assert forall|k: int| 0 <= k < kept.len() implies words(#[trigger] kept[k]).len()
                    >= 3 by {
                    assert(all[k] == kept[k]);
                }
                assert(words(all[kept.len() as int]).len() >= 3);
            }
            if stat_table(lines) is Ok {
                assert forall|k: int| 0 <= k < all.len() implies words(#[trigger] all[k]).len()
                    >= 3 by {
                    if k < kept.len() {
                        assert(all[k] == kept[k]);
                    }
                }
            }
        }
    }
}

/// A blank line of the table stands for nothing: the table is read as it
/// is without the line.
pub proof fn blank_line_is_passed_over(
    front: Seq<Seq<char>>,
    line: Seq<char>,
    back: Seq<Seq<char>>,
)
    requires
        is_blank(line),
    ensures
        stat_table(front + seq![line] + back) == stat_table(front + back),
{
    let alone = seq![line];
    assert(alone.last() == line);
    assert(alone.drop_last() =~= Seq::<Seq<char>>::empty());
    assert(stat_table(alone.drop_last()) == Ok::<Seq<FileDiffView>, ParseError>(Seq::empty()));
    lemma_stat_table_concat(front, alone);
    lemma_stat_table_concat(front + alone, back);
    lemma_stat_table_concat(front, back);
    if stat_table(front) is Ok {
        let entries = stat_table(front)->Ok_0;
        assert(entries + Seq::<FileDiffView>::empty() =~= entries);
    }
}

/// A line of the table whose first two words are no counts, as for a
/// binary file, is the entry with both counts zero, and the lines before
/// and behind it are read as they are without it.
pub proof fn uncounted_line_reads_as_zero(
    front: Seq<Seq<char>>,
    line: Seq<char>,
    back: Seq<Seq<char>>,
)
    requires
        words(line).len() >= 3,
        parse_count(words(line)[0]) is None,
        parse_count(words(line)[1]) is None,
    ensures
        stat_line(line) matches Some(entry) && entry.additions == 0 && entry.deletions == 0,
        stat_table(front + seq![line] + back) == match stat_table(front) {
            Err(e) => Err::<Seq<FileDiffView>, ParseError>(e),
            Ok(entries) => match stat_table(back) {
                Err(e) => Err(e),
                Ok(more) => Ok(entries.push(stat_line(line)->Some_0) + more),
            },
        },
{
    stat_line_is_three_words(line);
    lemma_trim_start(line);
    let entry = stat_line(line)->Some_0;
    let alone = seq![line];
    assert(!is_blank(line));
    assert(alone.last() == line);
    assert(alone.drop_last() =~= Seq::<Seq<char>>::empty());
    assert(stat_table(alone.drop_last()) == Ok::<Seq<FileDiffView>, ParseError>(Seq::empty()));
    assert(stat_table(alone) == Ok::<Seq<FileDiffView>, ParseError>(
        Seq::<FileDiffView>::empty().push(entry),
    ));
    lemma_stat_table_concat(front, alone);
    lemma_stat_table_concat(front + alone, back);
    if stat_table(front) is Ok {
        let entries = stat_table(front)->Ok_0;
        assert(entries + Seq::<FileDiffView>::empty().push(entry) =~= entries.push(entry));
    }
}

/// Reads the entry written by `text[from..to]`, a line of the statistics
/// table.
pub fn stat_line_at(text: &Vec<char>, from: usize, to: usize) -> (entry: Option<FileDiff>)
    requires
        from <= to <= text.len(),
    ensures
        match entry {
            Some(diff) => stat_line(text@.subrange(from as int, to as int)) == Some(diff@),
            None => stat_line(text@.subrange(from as int, to as int)) is None,
        },
{
    let ghost line = text@.subrange(from as int, to as int);
    let start = run_end_at(text, from, to, true);
    assert(trim_start(line) =~= text@.subrange(start as int, to as int));
    let end = trim_end_at(text, start, to);
    let ghost entry = text@.subrange(start as int, end as int);
    assert(entry == trim(line));
    let added_end = run_end_at(text, start, end, false);
    assert(entry.take(added_end - start) =~= text@.subrange(start as int, added_end as int));
    assert(entry.skip(added_end - start) =~= text@.subrange(added_end as int, end as int));
    let removed_start = run_end_at(text, added_end, end, true);
    let ghost rest = text@.subrange(removed_start as int, end as int);
    assert(rest =~= trim_start(entry.skip(added_end - start)));
    let removed_end = run_end_at(text, removed_start, end, false);
    assert(rest.take(removed_end - removed_start) =~= text@.subrange(
        removed_start as int,
        removed_end as int,
    ));
    assert(rest.skip(removed_end - removed_start) =~= text@.subrange(
        removed_end as int,
        end as int,
    ));
    let path_start = run_end_at(text, removed_end, end, true);
    assert(text@.subrange(path_start as int, end as int) =~= trim_start(
        rest.skip(removed_end - removed_start),
    ));
    if path_start == end {
        return None;
    }
    let additions = match count_at(text, start, added_end) {
        Some(n) => n,
        None => 0,
    };
    let deletions = match count_at(text, removed_start, removed_end) {
        Some(n) => n,
        None => 0,
    };
    Some(FileDiff::new(string_at(text, path_start, end), additions, deletions))
}

/// Reads one line of the statistics table: the counts of added and removed
/// lines, then the path. A count that is no number reads as zero. `None`
/// where the line has fewer than three words.
pub fn parse_stat_line(line: &str) -> (entry: Option<FileDiff>)
    ensures
        match entry {
            Some(diff) => stat_line(line@) == Some(diff@),
            None => stat_line(line@) is None,
        },
{
    let text = chars_of(line);
    assert(text@.subrange(0, text.len() as int) =~= line@);
    stat_line_at(&text, 0, text.len())
}

/// Reads the lines that are left as a statistics table: one entry for each
/// line that is not blank, in the order of the lines.
///
/// Fails with `InvalidStatLine` where a line that is not blank has fewer
/// than three words.
pub fn stat_table_at(lines: &mut LineCursor<'_>) -> (r: Result<Vec<FileDiff>, ParseError>)
    ensures
        final(lines).text() == old(lines).text(),
        match r {
            Ok(diff) => stat_table(old(lines).remaining()) == Ok::<Seq<FileDiffView>, ParseError>(
                diff@.map_values(|d: FileDiff| d@),
            ),
            Err(e) => stat_table(old(lines).remaining()) == Err::<Seq<FileDiffView>, ParseError>(
                e,
            ),
        },
{
    let ghost table = lines.remaining();
    let text = lines.source();
    let mut diff: Vec<FileDiff> = Vec::new();
    let ghost mut m: int = 0;
    assert(table.skip(0) =~= table);
    assert(table.take(0) =~= Seq::<Seq<char>>::empty());
    assert(diff@.map_values(|d: FileDiff| d@) =~= Seq::<FileDiffView>::empty());
    loop
        invariant
            0 <= m <= table.len(),
            table == old(lines).remaining(),
            lines.text() == text@,
            lines.text() == old(lines).text(),
            lines.remaining() == table.skip(m),
            stat_table(table.take(m)) == Ok::<Seq<FileDiffView>, ParseError>(
                diff@.map_values(|d: FileDiff| d@),
            ),
        ensures
            stat_table(table) == Ok::<Seq<FileDiffView>, ParseError>(
                diff@.map_values(|d: FileDiff| d@),
            ),
        decreases table.len() - m,
    {
        match lines.next_line() {
            None => {
                assert(table.take(m) =~= table);
                break ;
            },
            Some((from, to)) => {
                assert(table.skip(m)[0] == table[m]);
                assert(table.skip(m).skip(1) =~= table.skip(m + 1));
                assert(table.take(m + 1).drop_last() =~= table.take(m));
                assert(table.take(m + 1).last() == table[m]);
                let gap = run_end_at(text, from, to, true);
                proof {
                    lemma_blank_run(table[m]);
                }
                if gap != to {
                    match stat_line_at(text, from, to) {
                        Some(entry) => {
                            let ghost before = diff@.map_values(|d: FileDiff| d@);
                            diff.push(entry);
                            assert(diff@.map_values(|d: FileDiff| d@) =~= before.push(entry@));
                        },
                        None => {
                            proof {
                                lemma_stat_table_prefix(table, m + 1);
                            }
                            return Err(ParseError::InvalidStatLine);
                        },
                    }
                }
                proof {
                    m = m + 1;
                }
            },
        }
    }
    Ok(diff)
}

} // verus!
