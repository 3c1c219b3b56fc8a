//! The log reader: the list of commits, as `git log
//! --pretty=format:%H%n%aN%n%at%n%s%n` prints them. Each commit is a chunk
//! of four lines; a blank line stands between two chunks.

use vstd::prelude::*;
use crate::chunks::{chunk_end_at, split_chunks};
use crate::commit::{Commit, CommitView};
use crate::error::ParseError;
use crate::lines::{split_lines, LineCursor};
use crate::text::{
    chars_of, count_at, is_blank, lemma_blank_run, parse_count, run_end_at, string_at,
};

verus! {

/// The format that the log command is asked for. In the tool's notation it
/// names, in the order in which `log_record` reads them, the full hash, the
/// author, the author date in seconds and the subject, each followed by a
/// newline. The tool itself puts one more newline between two commits.
pub const LOG_TEMPLATE: &'static str = "--pretty=format:%H%n%aN%n%at%n%s%n";

/// The commit that one chunk of the log stands for. Its first four lines
/// are, in order, the hash, the author, the timestamp and the subject;
/// further lines are ignored. The log carries no message body.
pub open spec fn log_record(chunk: Seq<char>) -> Result<CommitView, ParseError> {
    let lines = split_lines(chunk);
    if lines.len() < 4 {
        Err(ParseError::MissingField)
    } else {
        match parse_count(lines[2]) {
            None => Err(ParseError::InvalidTimestamp),
            Some(timestamp) => Ok(
                CommitView {
                    hash: lines[0],
                    author: lines[1],
                    timestamp,
                    message: lines[3],
                    description: None,
                },
            ),
        }
    }
}

/// The commits that a sequence of chunks stands for, in the order of the
/// chunks. The first chunk that is no record makes the whole invalid, for
/// the reason that this chunk is none.
pub open spec fn log_records(chunks: Seq<Seq<char>>) -> Result<Seq<CommitView>, ParseError>
    decreases chunks.len(),
{
    if chunks.len() == 0 {
        Ok(Seq::empty())
    } else {
        match log_records(chunks.drop_last()) {
            Err(e) => Err(e),
            Ok(commits) => match log_record(chunks.last()) {
                Ok(commit) => Ok(commits.push(commit)),
                Err(e) => Err(e),
            },
        }
    }
}

/// The commits that the output of the log command stands for. A blank
/// output is an empty history. Any other output is cut into chunks at its
/// blank-line separators, and every chunk is one commit.
pub open spec fn log_history(text: Seq<char>) -> Result<Seq<CommitView>, ParseError> {
    if is_blank(text) {
        Ok(Seq::empty())
    } else {
        log_records(split_chunks(text))
    }
}

/// The chunk at `i` is the first of `chunks` that is no record, and `e` is
/// why it is none.
pub open spec fn fails_first_at(chunks: Seq<Seq<char>>, i: int, e: ParseError) -> bool {
    &&& 0 <= i < chunks.len()
    &&& log_record(chunks[i]) == Err::<CommitView, ParseError>(e)
    &&& forall|j: int| 0 <= j < i ==> log_record(#[trigger] chunks[j]) is Ok
}

/// A sequence of chunks that is invalid up to some chunk is invalid as a
/// whole, for the same reason.
pub proof fn lemma_log_records_prefix(chunks: Seq<Seq<char>>, n: int)
    requires
        0 <= n <= chunks.len(),
        log_records(chunks.take(n)) is Err,
    ensures
        log_records(chunks) == log_records(chunks.take(n)),
    decreases chunks.len(),
{
    if n == chunks.len() {
        assert(chunks.take(n) =~= chunks);
    } else {
        assert(chunks.drop_last().take(n) =~= chunks.take(n));
        lemma_log_records_prefix(chunks.drop_last(), n);
    }
}

/// A sequence of chunks stands for a sequence of commits exactly when each
/// chunk stands for the commit at its place: as many commits as chunks, in
/// the order of the chunks.
pub proof fn lemma_log_records_each(chunks: Seq<Seq<char>>, commits: Seq<CommitView>)
    ensures
        log_records(chunks) == Ok::<Seq<CommitView>, ParseError>(commits) <==> {
            &&& commits.len() == chunks.len()
            &&& forall|i: int|
                0 <= i < chunks.len() ==> log_record(#[trigger] chunks[i]) == Ok::<
                    CommitView,
                    ParseError,
                >(commits[i])
        },
    decreases chunks.len(),
{
    if chunks.len() == 0 {
        assert(commits.len() == 0 ==> commits =~= Seq::empty());
    } else {
        let front = chunks.drop_last();
        let last = chunks.last();
        if commits.len() > 0 {
            lemma_log_records_each(front, commits.drop_last());
            if log_records(chunks) == Ok::<Seq<CommitView>, ParseError>(commits) {
                let before = log_records(front)->Ok_0;
                assert(commits == before.push(log_record(last)->Ok_0));
                assert(commits.drop_last() =~= before);
                assert forall|i: int| 0 <= i < chunks.len() implies log_record(
                    #[trigger] chunks[i],
                ) == Ok::<CommitView, ParseError>(commits[i]) by {
                    if i < front.len() {
                        assert(chunks[i] == front[i]);
                        assert(commits[i] == commits.drop_last()[i]);
                    }
                }
            }
            if commits.len() == chunks.len() && forall|i: int|
                0 <= i < chunks.len() ==> log_record(#[trigger] chunks[i]) == Ok::<
                    CommitView,
                    ParseError,
                >(commits[i]) {
                assert forall|i: int| 0 <= i < front.len() implies log_record(
                    #[trigger] front[i],
                ) == Ok::<CommitView, ParseError>(commits.drop_last()[i]) by {
                    assert(front[i] == chunks[i]);
                }
                assert(log_record(chunks[chunks.len() - 1]) == Ok::<CommitView, ParseError>(
                    commits.last(),
                ));
                assert(commits.drop_last().push(commits.last()) =~= commits);
            }
        } else {
            if log_records(front) is Ok && log_record(last) is Ok {
                assert(log_records(chunks)->Ok_0.len() > 0);
            }
        }
    }
}

/// A sequence of chunks is invalid exactly when one of them is no record,
/// and the error is that of the first such chunk.
pub proof fn lemma_log_records_error(chunks: Seq<Seq<char>>, e: ParseError)
    ensures
        log_records(chunks) == Err::<Seq<CommitView>, ParseError>(e) <==> exists|i: int|
            fails_first_at(chunks, i, e),
    decreases chunks.len(),
{
    if chunks.len() > 0 {
        let front = chunks.drop_last();
        let n = front.len() as int;
        lemma_log_records_error(front, e);
        assert forall|j: int| 0 <= j < n implies front[j] == chunks[j] by {}
        if log_records(front) is Ok {
            lemma_log_records_each(front, log_records(front)->Ok_0);
        } else {
            lemma_log_records_error(front, log_records(front)->Err_0);
        }
        if log_records(chunks) == Err::<Seq<CommitView>, ParseError>(e) {
            if log_records(front) is Ok {
                assert(fails_first_at(chunks, n, e));
            } else {
                let i = choose|i: int| fails_first_at(front, i, e);
                assert(fails_first_at(chunks, i, e));
            }
        }
        if exists|i: int| fails_first_at(chunks, i, e) {
            let i = choose|i: int| fails_first_at(chunks, i, e);
            if i < n {
                assert(fails_first_at(front, i, e));
            } else if log_records(front) is Err {
                let k = choose|k: int| fails_first_at(front, k, log_records(front)->Err_0);
                assert(log_record(chunks[k]) is Ok);
            }
        }
    }
}

/// What the result for a text that is not blank says of its chunks: it is
/// a list of commits exactly when every chunk is a record, the list then
/// has one commit for each chunk, in the order of the chunks, and an error
/// is that of the first chunk that is no record.
pub proof fn lemma_history_each(text: Seq<char>)
    requires
        !is_blank(text),
    ensures
        log_history(text) is Ok <==> forall|i: int|
            0 <= i < split_chunks(text).len() ==> log_record(#[trigger] split_chunks(text)[i])
                is Ok,
        log_history(text) matches Ok(commits) ==> {
            &&& commits.len() == split_chunks(text).len()
            &&& forall|i: int|
                0 <= i < commits.len() ==> log_record(#[trigger] split_chunks(text)[i]) == Ok::<
                    CommitView,
                    ParseError,
                >(commits[i])
        },
        log_history(text) matches Err(e) ==> exists|i: int|
            fails_first_at(split_chunks(text), i, e),
{
    let chunks = split_chunks(text);
    match log_records(chunks) {
        Ok(commits) => {
            lemma_log_records_each(chunks, commits);
        },
        Err(e) => {
            lemma_log_records_error(chunks, e);
            let i = choose|i: int| fails_first_at(chunks, i, e);
            assert(!(log_record(chunks[i]) is Ok));
        },
    }
}

/// Reads the commit written by the chunk `text[from..to]`.
pub fn record_at(text: &Vec<char>, from: usize, to: usize) -> (r: Result<Commit, ParseError>)
    requires
        from <= to <= text.len(),
    ensures
        match r {
            Ok(commit) => log_record(text@.subrange(from as int, to as int)) == Ok::<
                CommitView,
                ParseError,
            >(commit@),
            Err(e) => log_record(text@.subrange(from as int, to as int)) == Err::<
                CommitView,
                ParseError,
            >(e),
        },
{
    let mut lines = LineCursor::new(text, from, to);
    let hash = match lines.next_line() {
        Some(line) => line,
        None => { return Err(ParseError::MissingField); },
    };
    let author = match lines.next_line() {
        Some(line) => line,
        None => { return Err(ParseError::MissingField); },
    };
    let stamp = match lines.next_line() {
        Some(line) => line,
        None => { return Err(ParseError::MissingField); },
    };
    let subject = match lines.next_line() {
        Some(line) => line,
        None => { return Err(ParseError::MissingField); },
    };
    match count_at(text, stamp.0, stamp.1) {
        Some(timestamp) => Ok(
            Commit::new(
                string_at(text, hash.0, hash.1),
                string_at(text, author.0, author.1),
                timestamp,
                string_at(text, subject.0, subject.1),
                None,
            ),
        ),
        None => Err(ParseError::InvalidTimestamp),
    }
}

/// Reads one chunk of the log: the hash, the author, the timestamp and the
/// subject, on a line each.
///
/// Fails with `MissingField` where the chunk has fewer than four lines, else
/// with `InvalidTimestamp` where the third line is no count.
pub fn try_parse_single_commit(output: &str) -> (r: Result<Commit, ParseError>)
    ensures
        match r {
            Ok(commit) => log_record(output@) == Ok::<CommitView, ParseError>(commit@),
            Err(e) => log_record(output@) == Err::<CommitView, ParseError>(e),
        },
{
    let text = chars_of(output);
    assert(text@.subrange(0, text.len() as int) =~= output@);
    record_at(&text, 0, text.len())
}

/// Reads one chunk of the log that is known to have the shape of a record.
pub fn parse_single_commit(output: &str) -> (commit: Commit)
    requires
        log_record(output@) is Ok,
    ensures
        log_record(output@) == Ok::<CommitView, ParseError>(commit@),
        commit@.description is None,
{
    match try_parse_single_commit(output) {
        Ok(commit) => commit,
        Err(_) => vstd::pervasive::unreached(),
    }
}

/// Reads the output of the log command: no commit where the output is
/// blank, else one commit for each chunk, in the order of the chunks.
///
/// Fails where a chunk is no record, with the error of the first such
/// chunk.
pub fn try_parse_commits(output: &str) -> (r: Result<Vec<Commit>, ParseError>)
    ensures
        match r {
            Ok(commits) => log_history(output@) == Ok::<Seq<CommitView>, ParseError>(
                commits@.map_values(|c: Commit| c@),
            ),
            Err(e) => log_history(output@) == Err::<Seq<CommitView>, ParseError>(e),
        },
        is_blank(output@) ==> r is Ok && r->Ok_0.len() == 0,
        !is_blank(output@) ==> (r is Ok <==> forall|i: int|
            0 <= i < split_chunks(output@).len() ==> log_record(
                #[trigger] split_chunks(output@)[i],
            ) is Ok),
        !is_blank(output@) ==> (r matches Ok(commits) ==> {
            &&& commits.len() == split_chunks(output@).len()
            &&& forall|i: int|
                0 <= i < commits.len() ==> log_record(#[trigger] split_chunks(output@)[i]) == Ok::<
                    CommitView,
                    ParseError,
                >(commits[i]@)
        }),
        !is_blank(output@) ==> (r matches Err(e) ==> exists|i: int|
            fails_first_at(split_chunks(output@), i, e)),
{
    let text = chars_of(output);
    let mut commits: Vec<Commit> = Vec::new();
    assert(commits@.map_values(|c: Commit| c@) =~= Seq::<CommitView>::empty());
    let gap = run_end_at(&text, 0, text.len(), true);
    proof {
        assert(text@.subrange(0, text.len() as int) =~= output@);
        lemma_blank_run(output@);
    }
    if gap == text.len() {
        return Ok(commits);
    }
    let ghost chunks = split_chunks(output@);
    let ghost mut done: Seq<Seq<char>> = Seq::empty();
    let mut from: usize = 0;
    assert(text@.skip(0) =~= text@);
    loop
        invariant_except_break
            from <= text.len(),
            chunks == done + split_chunks(text@.skip(from as int)),
        invariant
            text@ == output@,
            !is_blank(output@),
            chunks == split_chunks(output@),
            log_records(done) == Ok::<Seq<CommitView>, ParseError>(
                commits@.map_values(|c: Commit| c@),
            ),
        ensures
            done == chunks,
        decreases text.len() - from,
    {
        let to = chunk_end_at(&text, from);
        let ghost chunk = text@.subrange(from as int, to as int);
        proof {
            let s = text@.skip(from as int);
            assert(s.take(to - from) =~= chunk);
            if to + 2 <= text.len() {
                assert(s.skip(to - from + 2) =~= text@.skip(to + 2));
                assert(chunks =~= done.push(chunk) + split_chunks(text@.skip(to + 2)));
            } else {
                assert(chunk =~= s);
                assert(chunks =~= done.push(chunk));
            }
            assert(done.push(chunk).drop_last() =~= done);
            assert(chunks.take(done.len() as int + 1) =~= done.push(chunk));
        }
        match record_at(&text, from, to) {
            Ok(commit) => {
                let ghost before = commits@.map_values(|c: Commit| c@);
                commits.push(commit);
                assert(commits@.map_values(|c: Commit| c@) =~= before.push(commit@));
            },
            Err(e) => {
                proof {
                    lemma_log_records_prefix(chunks, done.len() as int + 1);
                    lemma_history_each(output@);
                }
                return Err(e);
            },
        }
        proof {
            done = done.push(chunk);
        }
        if to == text.len() {
            break ;
        }
        from = to + 2;
    }
    proof {
        lemma_history_each(output@);
    }
    Ok(commits)
}

/// Reads the output of the log command, where every chunk of the output is
/// known to have the shape of a record.
pub fn parse_commits(output: &str) -> (commits: Vec<Commit>)
    requires
        log_history(output@) is Ok,
    ensures
        log_history(output@) == Ok::<Seq<CommitView>, ParseError>(
            commits@.map_values(|c: Commit| c@),
        ),
        is_blank(output@) ==> commits.len() == 0,
        !is_blank(output@) ==> commits.len() == split_chunks(output@).len(),
        !is_blank(output@) ==> forall|i: int|
            0 <= i < commits.len() ==> log_record(#[trigger] split_chunks(output@)[i]) == Ok::<
                CommitView,
                ParseError,
            >(commits[i]@),
{
    match try_parse_commits(output) {
        Ok(commits) => commits,
        Err(_) => vstd::pervasive::unreached(),
    }
}

/// The arguments with which the tool prints the log in the form that
/// `get_commits` reads.
pub fn log_arguments() -> (args: Vec<String>)
    ensures
        args@.len() == 2,
        args@[0]@ == "log"@,
        args@[1]@ == LOG_TEMPLATE@,
{
    let mut args: Vec<String> = Vec::new();
    args.push(String::from_str("log"));
    args.push(String::from_str(LOG_TEMPLATE));
    args
}

/// The history that stands in what was captured of the output of the log
/// command. Nothing captured, because the tool could not be run or printed
/// what is no text, is an empty history and no error. A captured output is
/// read as `try_parse_commits` reads it, so a blank one, as of a tool that
/// failed and printed nothing, is an empty history too.
pub fn get_commits(captured: Option<&str>) -> (r: Result<Vec<Commit>, ParseError>)
    ensures
        match captured {
            None => r is Ok && r->Ok_0.len() == 0,
            Some(output) => {
                &&& is_blank(output@) ==> r is Ok && r->Ok_0.len() == 0
                &&& match r {
                    Ok(commits) => log_history(output@) == Ok::<Seq<CommitView>, ParseError>(
                        commits@.map_values(|c: Commit| c@),
                    ),
                    Err(e) => log_history(output@) == Err::<Seq<CommitView>, ParseError>(e),
                }
            },
        },
{
    match captured {
        None => Ok(Vec::new()),
        Some(output) => try_parse_commits(output),
    }
}

} // verus!
