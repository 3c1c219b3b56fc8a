//! The detail reader: one commit with its message body and the table of
//! per-file statistics, as `git show --pretty=format:%aN%n%at%n%s%n%b%n
//! --numstat` prints them.

use vstd::prelude::*;
use crate::commit::{Commit, CommitView, CommitWithDiff, CommitWithDiffView};
use crate::error::ParseError;
use crate::lines::{split_lines, LineCursor};
use crate::numstat::{
    is_entry_of, stat_entries, stat_table, stat_table_at, stat_table_reads_each_line,
};
use crate::text::{
    append_at, chars_of, count_at, is_blank, lemma_blank_run, parse_count, push_char, run_end_at,
    string_at, words,
};

verus! {

/// The format that the show command is asked for. In the tool's notation it
/// names, in the order in which `show_record` reads them, the author, the
/// author date in seconds, the subject and the body, each followed by a
/// newline. With `--numstat` the tool prints the statistics table behind it.
pub const SHOW_TEMPLATE: &'static str = "--pretty=format:%aN%n%at%n%s%n%b%n";

/// Number of lines at the front of `lines` that are not empty. Behind the
/// three header lines of a record these are the lines of the body, which the
/// first empty line ends.
pub open spec fn body_len(lines: Seq<Seq<char>>) -> nat
    decreases lines.len(),
{
    if lines.len() == 0 || lines[0].len() == 0 {
        0
    } else {
        1 + body_len(lines.skip(1))
    }
}

/// The text made of the given lines, each followed by a newline.
pub open spec fn terminated(lines: Seq<Seq<char>>) -> Seq<char>
    decreases lines.len(),
{
    if lines.len() == 0 {
        Seq::empty()
    } else {
        terminated(lines.drop_last()) + lines.last() + seq!['\n']
    }
}

/// The lines behind the empty line that ends the body: the statistics
/// table. Where no empty line ends the body there is no table.
pub open spec fn table_lines(lines: Seq<Seq<char>>) -> Seq<Seq<char>> {
    if body_len(lines) < lines.len() {
        lines.skip(body_len(lines) as int + 1)
    } else {
        Seq::empty()
    }
}

/// The commit and statistics that the output of the show command stands
/// for, with the hash that the caller asked for. The lines are, in order:
/// the author, the timestamp, the subject, the lines of the body up to the
/// first empty line, and the statistics table.
pub open spec fn show_record(text: Seq<char>, hash: Seq<char>) -> Result<
    CommitWithDiffView,
    ParseError,
> {
    let lines = split_lines(text);
    if lines.len() < 3 {
        Err(ParseError::MissingField)
    } else {
        match parse_count(lines[1]) {
            None => Err(ParseError::InvalidTimestamp),
            Some(timestamp) => match stat_table(table_lines(lines.skip(3))) {
                Err(e) => Err(e),
                Ok(diff) => Ok(
                    CommitWithDiffView {
                        commit: CommitView {
                            hash,
                            author: lines[0],
                            timestamp,
                            message: lines[2],
                            description: Some(
                                terminated(lines.skip(3).take(body_len(lines.skip(3)) as int)),
                            ),
                        },
                        diff,
                    },
                ),
            },
        }
    }
}

/// The lines of the output of the show command that stand for a file: the
/// lines of its statistics table that are not blank.
pub open spec fn show_entries(text: Seq<char>) -> Seq<Seq<char>> {
    stat_entries(table_lines(split_lines(text).skip(3)))
}

/// What is read from an output that has the shape of a record says of each
/// line of its table what that line says: one entry for each line that is
/// not blank, in the order of the lines, with zero for a count that is no
/// number. And the output has that shape exactly when it has three lines
/// or more, its second line is a count, and each line of the table that is
/// not blank has three words or more.
pub proof fn show_record_reads_each_line(text: Seq<char>, hash: Seq<char>)
    ensures
        show_record(text, hash) is Ok <==> {
            &&& split_lines(text).len() >= 3
            &&& parse_count(split_lines(text)[1]) is Some
            &&& forall|k: int|
                0 <= k < show_entries(text).len() ==> words(#[trigger] show_entries(text)[k]).len()
                    >= 3
        },
        show_record(text, hash) matches Ok(detail) ==> {
            &&& detail.diff.len() == show_entries(text).len()
            &&& forall|k: int|
                0 <= k < detail.diff.len() ==> is_entry_of(
                    #[trigger] detail.diff[k],
                    show_entries(text)[k],
                )
        },
{
    stat_table_reads_each_line(table_lines(split_lines(text).skip(3)));
}

/// `body_len` is the one position that has only lines that are not empty
/// before it and either an empty line or the end at it.
pub proof fn lemma_body_len(lines: Seq<Seq<char>>, n: int)
    requires
        0 <= n <= lines.len(),
        forall|i: int| 0 <= i < n ==> (#[trigger] lines[i]).len() > 0,
        n < lines.len() ==> lines[n].len() == 0,
    ensures
        body_len(lines) == n,
    decreases n,
{
    if n > 0 {
        let rest = lines.skip(1);
        assert forall|i: int| 0 <= i < n - 1 implies (#[trigger] rest[i]).len() > 0 by {
            assert(rest[i] == lines[i + 1]);
        }
        lemma_body_len(rest, n - 1);
    }
}

/// Reads the lines of the body: those up to the first empty line, which is
/// stepped over too, or up to the end where no line is empty. The lines are
/// handed back as one text, each followed by a newline.
pub fn body_at(lines: &mut LineCursor<'_>) -> (body: String)
    ensures
        final(lines).text() == old(lines).text(),
        body@ == terminated(
            old(lines).remaining().take(body_len(old(lines).remaining()) as int),
        ),
        final(lines).remaining() == table_lines(old(lines).remaining()),
{
    let ghost rest = lines.remaining();
    let text = lines.source();
    let mut body = String::new();
    let ghost mut k: int = 0;
    assert(rest.skip(0) =~= rest);
    assert(rest.take(0) =~= Seq::<Seq<char>>::empty());
    loop
        invariant_except_break
            lines.remaining() == rest.skip(k),
        invariant
            0 <= k <= rest.len(),
            lines.text() == text@,
            forall|i: int| 0 <= i < k ==> (#[trigger] rest[i]).len() > 0,
            body@ == terminated(rest.take(k)),
        ensures
            body_len(rest) == k,
            lines.remaining() == table_lines(rest),
        decreases rest.len() - k,
    {
        match lines.next_line() {
            None => {
                proof {
                    lemma_body_len(rest, k);
                }
                break ;
            },
            Some((from, to)) => {
                assert(rest.skip(k)[0] == rest[k]);
                assert(rest.skip(k).skip(1) =~= rest.skip(k + 1));
                if from == to {
                    proof {
                        lemma_body_len(rest, k);
                    }
                    break ;
                }
                append_at(&mut body, text, from, to);
                push_char(&mut body, '\n');
                proof {
                    assert(rest.take(k + 1).drop_last() =~= rest.take(k));
                    k = k + 1;
                }
            },
        }
    }
    body
}

/// Reads the characters of an output of the show command for the commit
/// `hash`, as `try_parse_commit` reads the output.
pub fn detail_at(text: &Vec<char>, hash: &str) -> (r: Result<CommitWithDiff, ParseError>)
    ensures
        match r {
            Ok(detail) => show_record(text@, hash@) == Ok::<CommitWithDiffView, ParseError>(
                detail@,
            ),
            Err(e) => show_record(text@, hash@) == Err::<CommitWithDiffView, ParseError>(e),
        },
{
    assert(text@.subrange(0, text.len() as int) =~= text@);
    let mut lines = LineCursor::new(text, 0, text.len());
    let author = match lines.next_line() {
        Some(line) => line,
        None => { return Err(ParseError::MissingField); },
    };
    let stamp = match lines.next_line() {
        Some(line) => line,
        None => { return Err(ParseError::MissingField); },
    };
    let subject = match lines.next_line() {
        Some(line) => line,
        None => { return Err(ParseError::MissingField); },
    };
    assert(lines.remaining() =~= split_lines(text@).skip(3));
    let timestamp = match count_at(text, stamp.0, stamp.1) {
        Some(n) => n,
        None => { return Err(ParseError::InvalidTimestamp); },
    };
    let description = body_at(&mut lines);
    let diff = match stat_table_at(&mut lines) {
        Ok(diff) => diff,
        Err(e) => { return Err(e); },
    };
    let commit = Commit::new(
        String::from_str(hash),
        string_at(text, author.0, author.1),
        timestamp,
        string_at(text, subject.0, subject.1),
        Some(description),
    );
    Ok(CommitWithDiff::new(commit, diff))
}

/// Reads the output of the show command for the commit `hash`: the author,
/// the timestamp and the subject on a line each, the body up to the first
/// empty line, and then the statistics table with one file per line. Each
/// line of the table that is not blank gives one entry, in the order of
/// the lines; a count that is no number reads as zero.
///
/// Fails with `MissingField` where the output has fewer than three lines,
/// else with `InvalidTimestamp` where the second line is no count, else with
/// `InvalidStatLine` where a line of the table that is not blank has fewer
/// than three words.
pub fn try_parse_commit(output: &str, hash: &str) -> (r: Result<CommitWithDiff, ParseError>)
    ensures
        match r {
            Ok(detail) => show_record(output@, hash@) == Ok::<CommitWithDiffView, ParseError>(
                detail@,
            ),
            Err(e) => show_record(output@, hash@) == Err::<CommitWithDiffView, ParseError>(e),
        },
        r is Ok <==> {
            &&& split_lines(output@).len() >= 3
            &&& parse_count(split_lines(output@)[1]) is Some
            &&& forall|k: int|
                0 <= k < show_entries(output@).len() ==> words(
                    #[trigger] show_entries(output@)[k],
                ).len() >= 3
        },
        r matches Ok(detail) ==> {
            &&& detail.commit.hash@ == hash@
            &&& detail.diff.len() == show_entries(output@).len()
            &&& forall|k: int|
                0 <= k < detail.diff.len() ==> is_entry_of(
                    (#[trigger] detail.diff[k])@,
                    show_entries(output@)[k],
                )
        },
{
    let text = chars_of(output);
    let r = detail_at(&text, hash);
    proof {
        show_record_reads_each_line(output@, hash@);
        if r is Ok {
            let detail = r->Ok_0;
            assert forall|k: int| 0 <= k < detail.diff.len() implies is_entry_of(
                (#[trigger] detail.diff[k])@,
                show_entries(output@)[k],
            ) by {
                assert(detail@.diff[k] == detail.diff[k]@);
            }
        }
    }
    r
}

/// Reads the output of the show command for the commit `hash`, where the
/// output is known to have the shape of a record. Each line of the table
/// that is not blank gives one entry, in the order of the lines; a count
/// that is no number reads as zero.
pub fn parse_commit(output: &str, hash: &str) -> (detail: CommitWithDiff)
    requires
        show_record(output@, hash@) is Ok,
    ensures
        show_record(output@, hash@) == Ok::<CommitWithDiffView, ParseError>(detail@),
        detail.commit.hash@ == hash@,
        detail.diff.len() == show_entries(output@).len(),
        forall|k: int|
            0 <= k < detail.diff.len() ==> is_entry_of(
                (#[trigger] detail.diff[k])@,
                show_entries(output@)[k],
            ),
{
    match try_parse_commit(output, hash) {
        Ok(detail) => detail,
        Err(_) => vstd::pervasive::unreached(),
    }
}

/// The arguments with which the tool prints the commit `hash` in the form
/// that `get_commit` reads. The hash is handed on as it is.
pub fn show_arguments(hash: &str) -> (args: Vec<String>)
    ensures
        args@.len() == 4,
        args@[0]@ == "show"@,
        args@[1]@ == hash@,
        args@[2]@ == SHOW_TEMPLATE@,
        args@[3]@ == "--numstat"@,
{
    let mut args: Vec<String> = Vec::new();
    args.push(String::from_str("show"));
    args.push(String::from_str(hash));
    args.push(String::from_str(SHOW_TEMPLATE));
    args.push(String::from_str("--numstat"));
    args
}

/// The commit that stands in what was captured of the output of the show
/// command for `hash`. Nothing captured, because the tool could not be run
/// or printed what is no text, is no commit and no error. So is a blank
/// output: the tool prints nothing where it fails, as it does for a hash
/// that it does not know. Any other output is read as `try_parse_commit`
/// reads it.
pub fn get_commit(captured: Option<&str>, hash: &str) -> (r: Result<
    Option<CommitWithDiff>,
    ParseError,
>)
    ensures
        match captured {
            None => r is Ok && r->Ok_0 is None,
            Some(output) => if is_blank(output@) {
                r is Ok && r->Ok_0 is None
            } else {
                match r {
                    Ok(Some(detail)) => show_record(output@, hash@) == Ok::<
                        CommitWithDiffView,
                        ParseError,
                    >(detail@),
                    Ok(None) => false,
                    Err(e) => show_record(output@, hash@) == Err::<
                        CommitWithDiffView,
                        ParseError,
                    >(e),
                }
            },
        },
{
    match captured {
        None => Ok(None),
        Some(output) => {
            let text = chars_of(output);
            let gap = run_end_at(&text, 0, text.len(), true);
            proof {
                assert(text@.subrange(0, text.len() as int) =~= output@);
                lemma_blank_run(output@);
            }
            if gap == text.len() {
                Ok(None)
            } else {
                match detail_at(&text, hash) {
                    Ok(detail) => Ok(Some(detail)),
                    Err(e) => Err(e),
                }
            }
        },
    }
}

} // verus!
