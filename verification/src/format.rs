//! The text that the tool prints for given records, and the proofs that
//! reading such a text gives the records back.

use vstd::prelude::*;
use crate::chunks::{
    ends_in_text, is_chunk, join_chunks, lemma_join_chunks_tail, lemma_join_lines_is_chunk,
    lemma_split_join_chunks,
};
use crate::commit::{CommitView, CommitWithDiffView, FileDiffView};
use crate::error::ParseError;
use crate::lines::{all_lines, is_line, join_lines, lemma_split_join_lines};
use crate::log::{lemma_log_records_each, log_history, log_record};
use crate::numstat::{
    is_gap, is_path, is_word, lemma_stat_line_words, lemma_stat_table_each, stat_line,
};
use crate::show::{lemma_body_len, show_record, table_lines, terminated};
use crate::text::{
    format_count, is_blank, is_digit, is_whitespace, lemma_format_count, parse_count,
    unsigned_digits,
};

verus! {

/// The chunk that the log prints for a commit: the hash, the author, the
/// timestamp in decimal notation and the subject, on a line each.
pub open spec fn format_record(commit: CommitView) -> Seq<char> {
    join_lines(
        seq![
            commit.hash,
            commit.author,
            format_count(commit.timestamp as nat),
            commit.message,
        ],
    )
}

/// The text that the log prints for a list of commits: their chunks, with a
/// blank line between each two.
pub open spec fn format_log(commits: Seq<CommitView>) -> Seq<char> {
    join_chunks(commits.map_values(|c: CommitView| format_record(c)))
}

/// The text of a log in which each chunk ends in a newline of its own, as
/// the tool prints it: the chunks with a blank line between each two, and a
/// newline behind the last.
pub open spec fn format_log_with_final_newline(commits: Seq<CommitView>) -> Seq<char> {
    if commits.len() == 0 {
        Seq::empty()
    } else {
        format_log(commits) + seq!['\n']
    }
}

/// The line that the statistics table prints for an entry: the two counts
/// and the path, with a tab behind each count.
pub open spec fn format_stat_line(entry: FileDiffView) -> Seq<char> {
    format_count(entry.additions as nat) + seq!['\t'] + format_count(entry.deletions as nat)
        + seq!['\t'] + entry.file_name
}

/// The text that the show command prints for a commit whose message body
/// has the given lines: the author, the timestamp and the subject, the
/// lines of the body, an empty line, and one line for each changed file.
pub open spec fn format_show(detail: CommitWithDiffView, body: Seq<Seq<char>>) -> Seq<char> {
    join_lines(
        seq![
            detail.commit.author,
            format_count(detail.commit.timestamp as nat),
            detail.commit.message,
        ] + body + seq![Seq::<char>::empty()] + detail.diff.map_values(
            |e: FileDiffView| format_stat_line(e),
        ),
    )
}

/// A commit as the log can carry it: its hash, author and subject are
/// lines, the author is not empty, and it has no description.
pub open spec fn is_log_commit(commit: CommitView) -> bool {
    &&& is_line(commit.hash)
    &&& is_line(commit.author)
    &&& commit.author.len() > 0
    &&& is_line(commit.message)
    &&& commit.description is None
}

/// What is read as a count holds no newline.
pub proof fn lemma_count_is_line(s: Seq<char>)
    requires
        parse_count(s) is Some,
    ensures
        is_line(s),
{
    let digits = unsigned_digits(s);
    assert forall|i: int| 0 <= i < s.len() implies #[trigger] s[i] != '\n' by {
        if digits == s {
            assert(is_digit(digits[i]));
        } else if i > 0 {
            assert(is_digit(digits[i - 1]));
        }
    }
}

/// Four lines joined, written out.
proof fn lemma_join_four(a: Seq<char>, b: Seq<char>, c: Seq<char>, d: Seq<char>)
    ensures
        join_lines(seq![a, b, c, d]) == a + seq!['\n'] + b + seq!['\n'] + c + seq!['\n'] + d,
{
    let lines = seq![a, b, c, d];
    reveal_with_fuel(join_lines, 4);
    assert(lines.skip(1) =~= seq![b, c, d]);
    assert(lines.skip(1).skip(1) =~= seq![c, d]);
    assert(lines.skip(1).skip(1).skip(1) =~= seq![d]);
    assert(join_lines(lines) =~= a + seq!['\n'] + b + seq!['\n'] + c + seq!['\n'] + d);
}

/// A chunk of four lines, of which the third is a count, is read as the
/// commit with these four fields, and with no description.
pub proof fn record_of_four_lines(
    hash: Seq<char>,
    author: Seq<char>,
    stamp: Seq<char>,
    subject: Seq<char>,
)
    requires
        is_line(hash),
        is_line(author),
        parse_count(stamp) is Some,
        is_line(subject),
    ensures
        log_record(hash + seq!['\n'] + author + seq!['\n'] + stamp + seq!['\n'] + subject) == Ok::<
            CommitView,
            ParseError,
        >(
            CommitView {
                hash,
                author,
                timestamp: parse_count(stamp)->Some_0,
                message: subject,
                description: None,
            },
        ),
{
    let lines = seq![hash, author, stamp, subject];
    lemma_count_is_line(stamp);
    lemma_split_join_lines(lines);
    lemma_join_four(hash, author, stamp, subject);
}

/// The chunk printed for a commit is read as that commit. Where the author
/// is not empty, the chunk holds no blank-line separator; where the subject
/// is not empty, it does not end in a newline.
pub proof fn record_round_trip(commit: CommitView)
    requires
        is_line(commit.hash),
        is_line(commit.author),
        is_line(commit.message),
        commit.description is None,
    ensures
        log_record(format_record(commit)) == Ok::<CommitView, ParseError>(commit),
        commit.author.len() > 0 ==> is_chunk(format_record(commit)),
        commit.message.len() > 0 ==> ends_in_text(format_record(commit)),
        !is_blank(format_record(commit)),
{
    let stamp = format_count(commit.timestamp as nat);
    let lines = seq![commit.hash, commit.author, stamp, commit.message];
    let chunk = format_record(commit);
    lemma_format_count(commit.timestamp as nat);
    lemma_count_is_line(stamp);
    lemma_split_join_lines(lines);
    lemma_join_four(commit.hash, commit.author, stamp, commit.message);
    if commit.author.len() > 0 {
        lemma_join_lines_is_chunk(lines);
    }
    if commit.message.len() > 0 {
        assert(chunk.last() == commit.message.last());
    }
    let at = (commit.hash.len() + 1 + commit.author.len() + 1) as int;
    assert(chunk[at] == stamp[0]);
    assert(is_digit(stamp[0]));
    assert(!is_whitespace(chunk[at]));
}

/// Reading the text that the log prints for a list of commits gives the
/// list back, field for field. The commits must be such as the log can
/// carry, and only the last may have an empty subject: an empty author, or
/// an empty subject further up, puts two newlines in a row where no chunk
/// ends.
pub proof fn log_round_trip(commits: Seq<CommitView>)
    requires
        forall|i: int| 0 <= i < commits.len() ==> is_log_commit(#[trigger] commits[i]),
        forall|i: int| 0 <= i < commits.len() - 1 ==> (#[trigger] commits[i]).message.len() > 0,
    ensures
        log_history(format_log(commits)) == Ok::<Seq<CommitView>, ParseError>(commits),
{
    let chunks = commits.map_values(|c: CommitView| format_record(c));
    let text = format_log(commits);
    if commits.len() == 0 {
        assert(commits =~= Seq::empty());
    } else {
        assert forall|i: int| 0 <= i < chunks.len() implies is_chunk(#[trigger] chunks[i])
            && log_record(chunks[i]) == Ok::<CommitView, ParseError>(commits[i]) by {
            assert(is_log_commit(commits[i]));
            record_round_trip(commits[i]);
        }
        assert forall|i: int| 0 <= i < chunks.len() - 1 implies ends_in_text(
            #[trigger] chunks[i],
        ) by {
            assert(is_log_commit(commits[i]));
            assert(commits[i].message.len() > 0);
            record_round_trip(commits[i]);
        }
        lemma_split_join_chunks(chunks);
        lemma_log_records_each(chunks, commits);
        assert(is_log_commit(commits[0]));
        record_round_trip(commits[0]);
        let first = chunks[0];
        let at = choose|i: int| 0 <= i < first.len() && !is_whitespace(first[i]);
        assert(text[at] == first[at]);
    }
}

/// Reading the log as the tool prints it, with a newline behind the last
/// chunk too, gives the list of commits back. Here no subject may be empty,
/// the last neither: its newline and the final one would be taken for a
/// separator.
pub proof fn log_with_final_newline_round_trip(commits: Seq<CommitView>)
    requires
        forall|i: int| 0 <= i < commits.len() ==> is_log_commit(#[trigger] commits[i]),
        forall|i: int| 0 <= i < commits.len() ==> (#[trigger] commits[i]).message.len() > 0,
    ensures
        log_history(format_log_with_final_newline(commits)) == Ok::<Seq<CommitView>, ParseError>(
            commits,
        ),
{
    if commits.len() == 0 {
        assert(commits =~= Seq::empty());
    } else {
        let records = commits.map_values(|c: CommitView| format_record(c));
        let last = commits.len() - 1;
        let end = commits[last];
        let chunks = records.update(last, records[last] + seq!['\n']);
        let text = format_log_with_final_newline(commits);
        lemma_join_chunks_tail(records, seq!['\n']);
        assert forall|i: int| 0 <= i < chunks.len() implies is_chunk(#[trigger] chunks[i])
            && log_record(chunks[i]) == Ok::<CommitView, ParseError>(commits[i]) by {
            assert(is_log_commit(commits[i]));
            assert(commits[i].message.len() > 0);
            record_round_trip(commits[i]);
            if i == last {
                let stamp = format_count(end.timestamp as nat);
                let lines = seq![end.hash, end.author, stamp, end.message, Seq::<char>::empty()];
                lemma_format_count(end.timestamp as nat);
                lemma_count_is_line(stamp);
                lemma_join_four(end.hash, end.author, stamp, end.message);
                reveal_with_fuel(join_lines, 5);
                assert(lines.skip(1).skip(1).skip(1).skip(1) =~= seq![Seq::<char>::empty()]);
                assert(lines.skip(1).skip(1).skip(1) =~= seq![end.message, Seq::<char>::empty()]);
                assert(lines.skip(1).skip(1) =~= seq![stamp, end.message, Seq::<char>::empty()]);
                assert(lines.skip(1) =~= seq![
                    end.author,
                    stamp,
                    end.message,
                    Seq::<char>::empty(),
                ]);
                assert(join_lines(lines) =~= chunks[i]);
                lemma_split_join_lines(lines);
                lemma_join_lines_is_chunk(lines);
            }
        }
        assert forall|i: int| 0 <= i < chunks.len() - 1 implies ends_in_text(
            #[trigger] chunks[i],
        ) by {
            assert(is_log_commit(commits[i]));
            assert(commits[i].message.len() > 0);
            record_round_trip(commits[i]);
        }
        lemma_split_join_chunks(chunks);
        lemma_log_records_each(chunks, commits);
        assert(is_log_commit(commits[0]));
        record_round_trip(commits[0]);
        let first = records[0];
        let at = choose|i: int| 0 <= i < first.len() && !is_whitespace(first[i]);
        assert(format_log(commits)[at] == first[at]);
        assert(text[at] == first[at]);
    }
}

/// The line printed for an entry is read as that entry, where the path is
/// a line that neither begins nor ends with whitespace.
pub proof fn stat_line_round_trip(entry: FileDiffView)
    requires
        is_path(entry.file_name),
        is_line(entry.file_name),
    ensures
        is_line(format_stat_line(entry)),
        !is_blank(format_stat_line(entry)),
        stat_line(format_stat_line(entry)) == Some(entry),
{
    let added = format_count(entry.additions as nat);
    let removed = format_count(entry.deletions as nat);
    let tab = seq!['\t'];
    let line = format_stat_line(entry);
    lemma_format_count(entry.additions as nat);
    lemma_format_count(entry.deletions as nat);
    lemma_count_is_line(added);
    lemma_count_is_line(removed);
    assert(is_word(added)) by {
        assert forall|i: int| 0 <= i < added.len() implies !is_whitespace(#[trigger] added[i]) by {
            assert(is_digit(added[i]));
        }
    }
    assert(is_word(removed)) by {
        assert forall|i: int| 0 <= i < removed.len() implies !is_whitespace(
            #[trigger] removed[i],
        ) by {
            assert(is_digit(removed[i]));
        }
    }
    assert(is_gap(tab)) by {
        assert(is_whitespace(tab[0]));
    }
    lemma_stat_line_words(added, tab, removed, tab, entry.file_name);
    assert forall|i: int| 0 <= i < line.len() implies #[trigger] line[i] != '\n' by {
        let a = added.len() as int;
        let r = removed.len() as int;
        if i < a {
            assert(line[i] == added[i]);
        } else if i == a {
        } else if i < a + 1 + r {
            assert(line[i] == removed[i - a - 1]);
        } else if i == a + 1 + r {
        } else {
            assert(line[i] == entry.file_name[i - a - r - 2]);
        }
    }
}

/// Reading the text that the show command prints for a commit gives the
/// commit and its statistics back, field for field, with the hash that was
/// asked for. The author and the subject must be lines, the body must be
/// made of lines that are not empty, and each path must be a line that
/// neither begins nor ends with whitespace.
pub proof fn show_round_trip(detail: CommitWithDiffView, body: Seq<Seq<char>>)
    requires
        is_line(detail.commit.author),
        is_line(detail.commit.message),
        all_lines(body),
        forall|i: int| 0 <= i < body.len() ==> (#[trigger] body[i]).len() > 0,
        detail.commit.description == Some(terminated(body)),
        forall|i: int|
            0 <= i < detail.diff.len() ==> is_path((#[trigger] detail.diff[i]).file_name)
                && is_line(detail.diff[i].file_name),
    ensures
        show_record(format_show(detail, body), detail.commit.hash) == Ok::<
            CommitWithDiffView,
            ParseError,
        >(detail),
{
    let stamp = format_count(detail.commit.timestamp as nat);
    let header = seq![detail.commit.author, stamp, detail.commit.message];
    let table = detail.diff.map_values(|e: FileDiffView| format_stat_line(e));
    let lines = header + body + seq![Seq::<char>::empty()] + table;
    let n = body.len() as int;
    lemma_format_count(detail.commit.timestamp as nat);
    lemma_count_is_line(stamp);
    assert forall|i: int| 0 <= i < table.len() implies is_line(#[trigger] table[i]) && !is_blank(
        table[i],
    ) && stat_line(table[i]) == Some(detail.diff[i]) by {
        stat_line_round_trip(detail.diff[i]);
    }
    assert forall|i: int| 0 <= i < lines.len() implies is_line(#[trigger] lines[i]) by {
        if i < 3 {
        } else if i < 3 + n {
            assert(lines[i] == body[i - 3]);
        } else if i == 3 + n {
        } else {
            assert(lines[i] == table[i - n - 4]);
        }
    }
    lemma_split_join_lines(lines);
    let rest = lines.skip(3);
    assert(rest =~= body + seq![Seq::<char>::empty()] + table);
    assert forall|i: int| 0 <= i < n implies (#[trigger] rest[i]).len() > 0 by {
        assert(rest[i] == body[i]);
    }
    lemma_body_len(rest, n);
    assert(rest.take(n) =~= body);
    assert(table_lines(rest) =~= table);
    lemma_stat_table_each(table, detail.diff);
}

} // verus!
