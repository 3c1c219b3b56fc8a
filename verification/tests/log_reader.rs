use gitlog::chunks::chunk_end_at;
use gitlog::commit::Commit;
use gitlog::error::ParseError;
use gitlog::log::{
    get_commits, log_arguments, parse_commits, parse_single_commit, record_at, try_parse_commits,
    try_parse_single_commit, LOG_TEMPLATE,
};
use gitlog::text::{chars_of, string_at};

#[test]
fn test_single_commit_parsing() {
    let output = "797a1acbdec5e0db0edad56ee53e009b65be52ff
Damian Kocjan
1727789190
fix: update tailwindcss file name in shadcn config";

    let commit = parse_single_commit(output);

    assert_eq!(commit.hash, "797a1acbdec5e0db0edad56ee53e009b65be52ff");
    assert_eq!(commit.author, "Damian Kocjan");
    assert_eq!(commit.timestamp, 1727789190);
    assert_eq!(
        commit.message,
        "fix: update tailwindcss file name in shadcn config"
    );
}

#[test]
fn test_commits_parsing() {
    let output = "797a1acbdec5e0db0edad56ee53e009b65be52ff
Damian Kocjan
1727789190
fix: update tailwindcss file name in shadcn config

38c53a749226dc9b7fbc71d0cbe5f5c9cb2f287e
Damian Kocjan
1727786432
feat: get commits

c48207137657e4ecf08563db4ca43e03392cddaf
Damian Kocjan
1727694652
test: add test config

383ceb3b61672aca95f50622afd4e8a6f7b3fe35
Damian Kocjan
1727694637
chore: change tailwindcss config to ts file

3d0dfe5bff45ab179e56902801fead74b73442ba
Damian Kocjan
1727650366
style: change to `New York` shadcn style

86b27dfb437f7d35d9183c7045dd8d8e1fac4864
Damian Kocjan
1727131415
add shadcn

c0ce0b88c373589159ad61deba7e6c1c29f2af02
Damian Kocjan
1727130272
init
";

    let commits = parse_commits(output);

    assert_eq!(commits.len(), 7);

    assert_eq!(commits[0].hash, "797a1acbdec5e0db0edad56ee53e009b65be52ff");
    assert_eq!(commits[0].author, "Damian Kocjan");
    assert_eq!(commits[0].timestamp, 1727789190);
    assert_eq!(
        commits[0].message,
        "fix: update tailwindcss file name in shadcn config"
    );

    assert_eq!(commits[1].hash, "38c53a749226dc9b7fbc71d0cbe5f5c9cb2f287e");
    assert_eq!(commits[1].author, "Damian Kocjan");
    assert_eq!(commits[1].timestamp, 1727786432);
    assert_eq!(commits[1].message, "feat: get commits");
}

fn commit(hash: &str, author: &str, timestamp: u64, message: &str) -> Commit {
    Commit::new(
        hash.to_string(),
        author.to_string(),
        timestamp,
        message.to_string(),
        None,
    )
}

fn print_log(commits: &[Commit]) -> String {
    let chunks: Vec<String> = commits
        .iter()
        .map(|c| format!("{}\n{}\n{}\n{}", c.hash, c.author, c.timestamp, c.message))
        .collect();
    chunks.join("\n\n")
}

#[test]
fn single_chunk_gives_its_four_fields_and_no_description() {
    let parsed = parse_single_commit("a1b2\nAlice\n1000\nfix bug");
    assert_eq!(parsed, commit("a1b2", "Alice", 1000, "fix bug"));
    assert_eq!(parsed.description, None);
}

#[test]
fn constructor_keeps_every_field() {
    let c = Commit::new(
        "h".to_string(),
        "a".to_string(),
        7,
        "m".to_string(),
        Some("d\n".to_string()),
    );
    assert_eq!(c.hash, "h");
    assert_eq!(c.author, "a");
    assert_eq!(c.timestamp, 7);
    assert_eq!(c.message, "m");
    assert_eq!(c.description, Some("d\n".to_string()));
}

#[test]
fn lines_behind_the_subject_are_ignored() {
    let parsed = try_parse_single_commit("h\na\n5\ns\nextra\nmore");
    assert_eq!(parsed, Ok(commit("h", "a", 5, "s")));
}

#[test]
fn fields_may_be_empty() {
    assert_eq!(try_parse_single_commit("\n\n0\n"), Ok(commit("", "", 0, "")));
}

#[test]
fn fields_keep_inner_and_outer_spaces() {
    let parsed = try_parse_single_commit(" h \n A  B \n12\n  two  words ");
    assert_eq!(parsed, Ok(commit(" h ", " A  B ", 12, "  two  words ")));
}

#[test]
fn fields_keep_characters_beyond_ascii() {
    let parsed = try_parse_single_commit("ab12\nŁukasz Żółć\n1700000000\nfix: naïve café ☕ 提交");
    assert_eq!(
        parsed,
        Ok(commit("ab12", "Łukasz Żółć", 1700000000, "fix: naïve café ☕ 提交"))
    );
}

#[test]
fn carriage_return_belongs_to_the_line() {
    assert_eq!(
        try_parse_single_commit("h\r\na\r\n5\r\ns"),
        Err(ParseError::InvalidTimestamp)
    );
    assert_eq!(
        try_parse_single_commit("h\r\na\n5\ns\r"),
        Ok(commit("h\r", "a", 5, "s\r"))
    );
}

#[test]
fn chunk_with_fewer_than_four_lines_misses_a_field() {
    assert_eq!(try_parse_single_commit(""), Err(ParseError::MissingField));
    assert_eq!(try_parse_single_commit("h"), Err(ParseError::MissingField));
    assert_eq!(try_parse_single_commit("h\na"), Err(ParseError::MissingField));
    assert_eq!(try_parse_single_commit("h\na\n5"), Err(ParseError::MissingField));
    assert_eq!(try_parse_single_commit("h\na\nx"), Err(ParseError::MissingField));
    assert_eq!(try_parse_single_commit("h\na\n5\n"), Ok(commit("h", "a", 5, "")));
}

#[test]
fn timestamp_that_is_no_count_is_invalid() {
    for stamp in ["", "x", "12a", "-1", " 5", "5 ", "1.5", "+", "++1", "1_000", "٣"] {
        let text = format!("h\na\n{}\ns", stamp);
        assert_eq!(
            try_parse_single_commit(&text),
            Err(ParseError::InvalidTimestamp),
            "{:?}",
            stamp
        );
    }
}

#[test]
fn timestamp_may_have_a_plus_sign_and_leading_zeros() {
    assert_eq!(try_parse_single_commit("h\na\n+15\ns"), Ok(commit("h", "a", 15, "s")));
    assert_eq!(try_parse_single_commit("h\na\n0015\ns"), Ok(commit("h", "a", 15, "s")));
}

#[test]
fn timestamp_must_fit_in_64_bits() {
    assert_eq!(
        try_parse_single_commit("h\na\n18446744073709551615\ns"),
        Ok(commit("h", "a", u64::MAX, "s"))
    );
    assert_eq!(
        try_parse_single_commit("h\na\n18446744073709551616\ns"),
        Err(ParseError::InvalidTimestamp)
    );
    assert_eq!(
        try_parse_single_commit("h\na\n99999999999999999999999999\ns"),
        Err(ParseError::InvalidTimestamp)
    );
}

#[test]
fn empty_output_is_an_empty_history() {
    assert_eq!(try_parse_commits(""), Ok(vec![]));
    assert_eq!(parse_commits("").len(), 0);
}

#[test]
fn blank_output_is_an_empty_history() {
    for text in ["\n", " ", "\n\n", "\n\n\n", " \t\r\n \n", "\u{a0}\u{2003}\n"] {
        assert_eq!(try_parse_commits(text), Ok(vec![]), "{:?}", text);
    }
}

#[test]
fn one_record_for_each_chunk_in_order() {
    let text = "h1\na1\n1\ns1\n\nh2\na2\n2\ns2\n\nh3\na3\n3\ns3";
    let parsed = parse_commits(text);
    assert_eq!(parsed.len(), text.split("\n\n").count());
    assert_eq!(
        parsed,
        vec![
            commit("h1", "a1", 1, "s1"),
            commit("h2", "a2", 2, "s2"),
            commit("h3", "a3", 3, "s3"),
        ]
    );
    for (chunk, parsed) in text.split("\n\n").zip(parsed.iter()) {
        assert_eq!(&parse_single_commit(chunk), parsed);
    }
}

#[test]
fn log_as_the_tool_prints_it_ends_each_record_with_a_newline() {
    let text = "h1\na1\n1\ns1\n\nh2\na2\n2\ns2\n";
    assert_eq!(
        try_parse_commits(text),
        Ok(vec![commit("h1", "a1", 1, "s1"), commit("h2", "a2", 2, "s2")])
    );
}

#[test]
fn printed_log_reads_back_as_the_same_commits() {
    let commits = vec![
        commit("797a1acbdec5e0db0edad56ee53e009b65be52ff", "Damian Kocjan", 1727789190, "fix: x"),
        commit("", "B", 0, "subject with  spaces "),
        commit("38c5", "Ünï Cødé", u64::MAX, "feat: ✓"),
        commit("c0ce", "Last", 42, ""),
    ];
    let text = print_log(&commits);
    assert_eq!(try_parse_commits(&text), Ok(commits.clone()));
    assert_eq!(parse_commits(&text), commits);
}

#[test]
fn printed_log_with_final_newline_reads_back_as_the_same_commits() {
    let commits = vec![
        commit("797a", "Damian Kocjan", 1727789190, "fix: x"),
        commit("", "B", 0, " "),
        commit("c0ce", "Last", 42, "init"),
    ];
    let text = print_log(&commits) + "\n";
    assert_eq!(try_parse_commits(&text), Ok(commits));
    let text = print_log(&[commit("h", "a", 5, "")]) + "\n";
    assert_eq!(try_parse_commits(&text), Err(ParseError::MissingField));
}

#[test]
fn printed_log_of_no_commit_reads_back_as_none() {
    let text = print_log(&[]);
    assert_eq!(text, "");
    assert_eq!(try_parse_commits(&text), Ok(vec![]));
}

#[test]
fn empty_author_cuts_the_chunk_in_two() {
    let text = print_log(&[commit("h", "", 5, "s")]);
    assert_eq!(try_parse_commits(&text), Err(ParseError::MissingField));
}

#[test]
fn empty_subject_before_another_commit_cuts_its_chunk_short() {
    let text = print_log(&[commit("h", "a", 5, ""), commit("h2", "a2", 6, "s2")]);
    assert_eq!(try_parse_commits(&text), Err(ParseError::MissingField));
}

#[test]
fn separators_are_found_from_the_front() {
    // Three newlines: the first two separate, the third opens the next chunk.
    let text = "h1\na1\n1\ns1\n\n\na2\n2\ns2";
    assert_eq!(
        try_parse_commits(text),
        Ok(vec![commit("h1", "a1", 1, "s1"), commit("", "a2", 2, "s2")])
    );
    // Four newlines make two separators with an empty chunk between.
    let text = "h1\na1\n1\ns1\n\n\n\nh2\na2\n2\ns2";
    assert_eq!(try_parse_commits(text), Err(ParseError::MissingField));
}

#[test]
fn trailing_separator_leaves_an_empty_chunk() {
    assert_eq!(
        try_parse_commits("h1\na1\n1\ns1\n\n"),
        Err(ParseError::MissingField)
    );
}

#[test]
fn error_is_that_of_the_first_bad_chunk() {
    let text = "h1\na1\n1\ns1\n\nh2\na2\nbad\ns2\n\nh3";
    assert_eq!(try_parse_commits(text), Err(ParseError::InvalidTimestamp));
    let text = "h1\na1\n1\ns1\n\nh2\n\nh3\na3\nbad\ns3";
    assert_eq!(try_parse_commits(text), Err(ParseError::MissingField));
}

#[test]
fn nothing_captured_is_an_empty_history() {
    assert_eq!(get_commits(None), Ok(vec![]));
}

#[test]
fn captured_output_is_read() {
    assert_eq!(
        get_commits(Some("a1b2\nAlice\n1000\nfix bug\n")),
        Ok(vec![commit("a1b2", "Alice", 1000, "fix bug")])
    );
    assert_eq!(get_commits(Some("")), Ok(vec![]));
    assert_eq!(get_commits(Some("a1b2\nAlice")), Err(ParseError::MissingField));
}

#[test]
fn log_arguments_ask_for_the_four_fields() {
    assert_eq!(
        log_arguments(),
        vec!["log".to_string(), "--pretty=format:%H%n%aN%n%at%n%s%n".to_string()]
    );
    assert_eq!(LOG_TEMPLATE, "--pretty=format:%H%n%aN%n%at%n%s%n");
}

#[test]
fn chunk_ends_at_the_first_pair_of_newlines() {
    let text = chars_of("ab\n\ncd\n\n\nef\n");
    assert_eq!(chunk_end_at(&text, 0), 2);
    assert_eq!(chunk_end_at(&text, 1), 2);
    assert_eq!(chunk_end_at(&text, 2), 2);
    assert_eq!(chunk_end_at(&text, 3), 6);
    assert_eq!(chunk_end_at(&text, 4), 6);
    assert_eq!(chunk_end_at(&text, 7), 7);
    assert_eq!(chunk_end_at(&text, 8), text.len());
    assert_eq!(chunk_end_at(&text, text.len() - 1), text.len());
    assert_eq!(chunk_end_at(&text, text.len()), text.len());
}

fn chunks_of(s: &str) -> Vec<String> {
    let text = chars_of(s);
    let mut chunks = Vec::new();
    let mut from = 0;
    loop {
        let to = chunk_end_at(&text, from);
        chunks.push(string_at(&text, from, to));
        if to == text.len() {
            return chunks;
        }
        from = to + 2;
    }
}

#[test]
fn chunks_are_the_pieces_between_pairs_of_newlines() {
    for s in [
        "", "a", "\n", "\n\n", "\n\n\n", "\n\n\n\n", "a\n\nb", "a\n\n\nb", "a\n\n\n\nb",
        "a\nb\n\nc\n", "\n\na", "a\n\n", "a\n \nb", "ż\n\n☕\n\n\n\n\nx",
    ] {
        let expected: Vec<String> = s.split("\n\n").map(|c| c.to_string()).collect();
        assert_eq!(chunks_of(s), expected, "{:?}", s);
    }
}

#[test]
fn chunks_of_known_texts() {
    assert_eq!(chunks_of(""), vec![""]);
    assert_eq!(chunks_of("a\n\nb"), vec!["a", "b"]);
    assert_eq!(chunks_of("a\n\n\nb"), vec!["a", "\nb"]);
    assert_eq!(chunks_of("a\n\n"), vec!["a", ""]);
}

#[test]
fn record_is_read_from_a_part_of_the_text() {
    let text = chars_of("xx\n\nh\na\n5\ns\n\nyy");
    assert_eq!(record_at(&text, 4, 11), Ok(commit("h", "a", 5, "s")));
    assert_eq!(record_at(&text, 4, 9), Err(ParseError::MissingField));
    assert_eq!(record_at(&text, 0, 2), Err(ParseError::MissingField));
    assert_eq!(record_at(&text, 6, 17), Err(ParseError::InvalidTimestamp));
}
