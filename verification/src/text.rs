//! Character-level vocabulary shared by the parsers: whitespace, decimal
//! numbers, and the conversion between strings and indexable characters.

use vstd::prelude::*;

verus! {

/// The characters with the Unicode property `White_Space`.
pub open spec fn is_whitespace(c: char) -> bool {
    let u = c as u32;
    ||| 0x09 <= u <= 0x0D
    ||| u == 0x20
    ||| u == 0x85
    ||| u == 0xA0
    ||| u == 0x1680
    ||| 0x2000 <= u <= 0x200A
    ||| u == 0x2028
    ||| u == 0x2029
    ||| u == 0x202F
    ||| u == 0x205F
    ||| u == 0x3000
}

/// A text is blank when it is empty or holds whitespace only.
pub open spec fn is_blank(s: Seq<char>) -> bool {
    forall|i: int| 0 <= i < s.len() ==> is_whitespace(#[trigger] s[i])
}

/// Number of characters at the front of `s` that are all whitespace
/// (`space` is true) or all not whitespace (`space` is false): the length of
/// the leading gap, or of the leading word.
pub open spec fn run_len(s: Seq<char>, space: bool) -> nat
    decreases s.len(),
{
    if s.len() == 0 || is_whitespace(s[0]) != space {
        0
    } else {
        1 + run_len(s.skip(1), space)
    }
}

/// `s` without its leading whitespace.
pub open spec fn trim_start(s: Seq<char>) -> Seq<char> {
    s.skip(run_len(s, true) as int)
}

/// `s` without its trailing whitespace.
pub open spec fn trim_end(s: Seq<char>) -> Seq<char>
    decreases s.len(),
{
    if s.len() == 0 || !is_whitespace(s.last()) {
        s
    } else {
        trim_end(s.drop_last())
    }
}

/// `s` without the whitespace at either end.
pub open spec fn trim(s: Seq<char>) -> Seq<char> {
    trim_end(trim_start(s))
}

/// The first word of `s`: its characters up to the first whitespace.
pub open spec fn first_word(s: Seq<char>) -> Seq<char> {
    s.take(run_len(s, false) as int)
}

/// What follows the first word of `s` and the gap behind it.
pub open spec fn after_first_word(s: Seq<char>) -> Seq<char> {
    trim_start(s.skip(run_len(s, false) as int))
}

/// The words of `s`: its longest stretches without whitespace, in order.
pub open spec fn words(s: Seq<char>) -> Seq<Seq<char>>
    decreases s.len(),
    via words_decreases
{
    let t = trim_start(s);
    if t.len() == 0 {
        Seq::empty()
    } else {
        seq![first_word(t)] + words(t.skip(run_len(t, false) as int))
    }
}

#[via_fn]
proof fn words_decreases(s: Seq<char>) {
    lemma_trim_start(s);
    lemma_run_len_is_first(trim_start(s), false);
}

/// The ASCII decimal digits.
pub open spec fn is_digit(c: char) -> bool {
    0x30 <= c as u32 <= 0x39
}

/// The number that a decimal digit stands for.
pub open spec fn digit_value(c: char) -> nat {
    (c as u32 - 0x30) as nat
}

/// Every character of `s` is a decimal digit.
pub open spec fn all_digits(s: Seq<char>) -> bool {
    forall|i: int| 0 <= i < s.len() ==> is_digit(#[trigger] s[i])
}

/// The number written by a string of decimal digits, most significant digit
/// first. The empty string stands for zero.
pub open spec fn digits_value(s: Seq<char>) -> nat
    decreases s.len(),
{
    if s.len() == 0 {
        0
    } else {
        10 * digits_value(s.drop_last()) + digit_value(s.last())
    }
}

/// The digits of a count, once an optional leading plus sign is set aside.
pub open spec fn unsigned_digits(s: Seq<char>) -> Seq<char> {
    if s.len() > 0 && s[0] == '+' {
        s.skip(1)
    } else {
        s
    }
}

/// The count written by `s`: an optional plus sign followed by at least one
/// decimal digit and nothing else, with a value that fits in 64 bits.
/// Anything else is no count.
pub open spec fn parse_count(s: Seq<char>) -> Option<u64> {
    let digits = unsigned_digits(s);
    if digits.len() > 0 && all_digits(digits) && digits_value(digits) <= u64::MAX {
        Some(digits_value(digits) as u64)
    } else {
        None
    }
}

/// The character that writes a digit below ten.
pub open spec fn digit_char(d: nat) -> char {
    (0x30 + d) as char
}

/// The decimal notation of `n`, without sign or leading zeros.
pub open spec fn format_count(n: nat) -> Seq<char>
    decreases n,
{
    if n < 10 {
        seq![digit_char(n)]
    } else {
        format_count(n / 10).push(digit_char(n % 10))
    }
}

/// `run_len` is the one position that has only characters of the given kind
/// before it and either a character of the other kind or the end at it.
pub proof fn lemma_run_len(s: Seq<char>, space: bool, n: int)
    requires
        0 <= n <= s.len(),
        forall|i: int| 0 <= i < n ==> is_whitespace(#[trigger] s[i]) == space,
        n < s.len() ==> is_whitespace(s[n]) != space,
    ensures
        run_len(s, space) == n,
    decreases n,
{
    if n > 0 {
        let t = s.skip(1);
        assert forall|i: int| 0 <= i < n - 1 implies is_whitespace(#[trigger] t[i]) == space by {
            assert(t[i] == s[i + 1]);
        }
        lemma_run_len(t, space, n - 1);
    }
}

/// What `run_len` finds: it is within the text, everything before it is of
/// the given kind, and the character at it, if any, is of the other kind.
pub proof fn lemma_run_len_is_first(s: Seq<char>, space: bool)
    ensures
        run_len(s, space) <= s.len(),
        forall|i: int| 0 <= i < run_len(s, space) ==> is_whitespace(#[trigger] s[i]) == space,
        run_len(s, space) < s.len() ==> is_whitespace(s[run_len(s, space) as int]) != space,
    decreases s.len(),
{
    if s.len() == 0 || is_whitespace(s[0]) != space {
    } else {
        let t = s.skip(1);
        lemma_run_len_is_first(t, space);
        assert forall|i: int| 0 <= i < run_len(s, space) implies is_whitespace(#[trigger] s[i])
            == space by {
            if i > 0 {
                assert(t[i - 1] == s[i]);
            }
        }
    }
}

/// A text is blank exactly when its leading whitespace is all of it.
pub proof fn lemma_blank_run(s: Seq<char>)
    ensures
        is_blank(s) <==> run_len(s, true) == s.len(),
{
    lemma_run_len_is_first(s, true);
    if is_blank(s) {
        lemma_run_len(s, true, s.len() as int);
    }
}

/// What is left when the leading whitespace is taken away is no longer
/// than the text and does not begin with whitespace, so that its first
/// word is not empty and taking the leading whitespace away once more
/// changes nothing.
pub proof fn lemma_trim_start(s: Seq<char>)
    ensures
        trim_start(s).len() <= s.len(),
        trim_start(s).len() == 0 <==> is_blank(s),
        trim_start(s).len() > 0 ==> !is_whitespace(trim_start(s)[0]) && 0 < run_len(
            trim_start(s),
            false,
        ) <= trim_start(s).len(),
        trim_start(trim_start(s)) == trim_start(s),
{
    let t = trim_start(s);
    lemma_run_len_is_first(s, true);
    lemma_blank_run(s);
    lemma_run_len_is_first(t, false);
    lemma_run_len(t, true, 0);
    assert(t.skip(0) =~= t);
}

/// What is left when the trailing whitespace is taken away is the front
/// part of the text, does not end with whitespace, and has only whitespace
/// behind it.
pub proof fn lemma_trim_end(s: Seq<char>)
    ensures
        trim_end(s).len() <= s.len(),
        trim_end(s) == s.take(trim_end(s).len() as int),
        is_blank(s.skip(trim_end(s).len() as int)),
        trim_end(s).len() > 0 ==> !is_whitespace(trim_end(s).last()),
    decreases s.len(),
{
    if s.len() == 0 || !is_whitespace(s.last()) {
        assert(s.take(s.len() as int) =~= s);
    } else {
        let front = s.drop_last();
        lemma_trim_end(front);
        let n = trim_end(s).len() as int;
        assert(front.take(n) =~= s.take(n));
        assert forall|i: int| 0 <= i < s.skip(n).len() implies is_whitespace(
            #[trigger] s.skip(n)[i],
        ) by {
            if i < front.skip(n).len() {
                assert(s.skip(n)[i] == front.skip(n)[i]);
            }
        }
    }
}

/// Whitespace at the end of a text is not part of a word, and none before
/// a word either.
pub proof fn lemma_words_blank_tail(s: Seq<char>, tail: Seq<char>)
    requires
        is_blank(tail),
    ensures
        words(s + tail) == words(s),
        words(trim_start(s)) == words(s),
    decreases s.len(),
{
    let whole = s + tail;
    let t = trim_start(s);
    lemma_trim_start(s);
    lemma_trim_start(whole);
    if is_blank(s) {
        assert(is_blank(whole)) by {
            assert forall|i: int| 0 <= i < whole.len() implies is_whitespace(
                #[trigger] whole[i],
            ) by {
                if i < s.len() {
                    assert(whole[i] == s[i]);
                } else {
                    assert(whole[i] == tail[i - s.len()]);
                }
            }
        }
    } else {
        let k = run_len(s, true) as int;
        lemma_run_len_is_first(s, true);
        assert forall|i: int| 0 <= i < k implies is_whitespace(#[trigger] whole[i]) by {
            assert(whole[i] == s[i]);
        }
        assert(whole[k] == s[k]);
        lemma_run_len(whole, true, k);
        let u = trim_start(whole);
        assert(u =~= t + tail);
        let n = run_len(t, false) as int;
        lemma_run_len_is_first(t, false);
        assert forall|i: int| 0 <= i < n implies !is_whitespace(#[trigger] u[i]) by {
            assert(u[i] == t[i]);
        }
        if n < u.len() {
            if n < t.len() {
                assert(u[n] == t[n]);
            } else {
                assert(u[n] == tail[0]);
            }
        }
        lemma_run_len(u, false, n);
        assert(first_word(u) =~= first_word(t));
        assert(u.skip(n) =~= t.skip(n) + tail);
        lemma_words_blank_tail(t.skip(n), tail);
    }
}

/// Whitespace at either end of a text is not part of a word: the words of
/// the trimmed text are those of the text.
pub proof fn lemma_words_trim(s: Seq<char>)
    ensures
        words(trim(s)) == words(s),
        trim(s).len() > 0 ==> !is_whitespace(trim(s)[0]),
        trim_start(trim(s)) == trim(s),
{
    let t = trim_start(s);
    let n = trim(s).len() as int;
    lemma_trim_start(s);
    lemma_trim_end(t);
    lemma_words_blank_tail(trim(s), t.skip(n));
    assert(trim(s) + t.skip(n) =~= t);
    lemma_words_blank_tail(s, Seq::empty());
    if n > 0 {
        assert(trim(s)[0] == t[0]);
    }
    lemma_run_len(trim(s), true, 0);
    assert(trim(s).skip(0) =~= trim(s));
}

/// A prefix of a digit string never stands for more than the whole.
pub proof fn lemma_digits_value_prefix(s: Seq<char>, n: int)
    requires
        0 <= n <= s.len(),
    ensures
        digits_value(s.take(n)) <= digits_value(s),
    decreases s.len(),
{
    if n == s.len() {
        assert(s.take(n) =~= s);
    } else {
        lemma_digits_value_prefix(s.drop_last(), n);
        assert(s.drop_last().take(n) =~= s.take(n));
    }
}

/// Reading the decimal notation of a number gives the number back.
pub proof fn lemma_format_count(n: nat)
    ensures
        format_count(n).len() > 0,
        all_digits(format_count(n)),
        digits_value(format_count(n)) == n,
        n <= u64::MAX ==> parse_count(format_count(n)) == Some(n as u64),
    decreases n,
{
    let s = format_count(n);
    if n < 10 {
        assert(s.drop_last() =~= Seq::<char>::empty());
        assert(digits_value(s.drop_last()) == 0);
    } else {
        let front = format_count(n / 10);
        lemma_format_count(n / 10);
        assert(s.drop_last() =~= front);
        assert(s.last() == digit_char(n % 10));
        assert forall|i: int| 0 <= i < s.len() implies is_digit(#[trigger] s[i]) by {
            if i < front.len() {
                assert(s[i] == front[i]);
            }
        }
    }
    assert(is_digit(s[0]));
    assert(unsigned_digits(s) == s);
}

/// Copies the characters of `s` into a vector, so that they can be indexed in
/// constant time.
pub fn chars_of(s: &str) -> (chars: Vec<char>)
    ensures
        chars@ == s@,
{
    let mut chars: Vec<char> = Vec::new();
    for c in it: s.chars()
        invariant
            it.seq() == s@,
            chars@ == s@.take(it.index() as int),
    {
        chars.push(c);
    }
    chars
}

/// Tells whether `c` is whitespace.
pub fn char_is_whitespace(c: char) -> (b: bool)
    ensures
        b == is_whitespace(c),
{
    let u: u32 = c as u32;
    (0x09 <= u && u <= 0x0D) || u == 0x20 || u == 0x85 || u == 0xA0 || u == 0x1680 || (0x2000 <= u
        && u <= 0x200A) || u == 0x2028 || u == 0x2029 || u == 0x202F || u == 0x205F || u == 0x3000
}

/// Finds where the leading run of whitespace (`space` is true) or of other
/// characters (`space` is false) of `text[from..to]` ends.
pub fn run_end_at(text: &Vec<char>, from: usize, to: usize, space: bool) -> (end: usize)
    requires
        from <= to <= text.len(),
    ensures
        from <= end <= to,
        end - from == run_len(text@.subrange(from as int, to as int), space),
{
    let ghost s = text@.subrange(from as int, to as int);
    let mut end: usize = from;
    while end < to && char_is_whitespace(text[end]) == space
        invariant
            from <= end <= to <= text.len(),
            s == text@.subrange(from as int, to as int),
            forall|i: int| 0 <= i < end - from ==> is_whitespace(#[trigger] s[i]) == space,
        decreases to - end,
    {
        end = end + 1;
    }
    proof {
        lemma_run_len(s, space, end - from);
    }
    end
}

/// Finds where `text[from..to]` ends once its trailing whitespace is left
/// out.
pub fn trim_end_at(text: &Vec<char>, from: usize, to: usize) -> (end: usize)
    requires
        from <= to <= text.len(),
    ensures
        from <= end <= to,
        text@.subrange(from as int, end as int) == trim_end(
            text@.subrange(from as int, to as int),
        ),
{
    let mut end: usize = to;
    while end > from && char_is_whitespace(text[end - 1])
        invariant
            from <= end <= to <= text.len(),
            trim_end(text@.subrange(from as int, end as int)) == trim_end(
                text@.subrange(from as int, to as int),
            ),
        decreases end,
    {
        proof {
            let s = text@.subrange(from as int, end as int);
            assert(s.drop_last() =~= text@.subrange(from as int, end as int - 1));
        }
        end = end - 1;
    }
    end
}

/// Reads the count written by the characters `text[from..to]`.
pub fn count_at(text: &Vec<char>, from: usize, to: usize) -> (r: Option<u64>)
    requires
        from <= to <= text.len(),
    ensures
        r == parse_count(text@.subrange(from as int, to as int)),
{
    let ghost s = text@.subrange(from as int, to as int);
    let start: usize = if from < to && text[from] == '+' {
        from + 1
    } else {
        from
    };
    let ghost digits = unsigned_digits(s);
    assert(digits =~= text@.subrange(start as int, to as int));
    if start == to {
        return None;
    }
    let mut value: u64 = 0;
    let mut i: usize = start;
    while i < to
        invariant
            from <= start <= i <= to <= text.len(),
            start < to,
            digits == unsigned_digits(text@.subrange(from as int, to as int)),
            digits == text@.subrange(start as int, to as int),
            all_digits(digits.take(i - start)),
            value == digits_value(digits.take(i - start)),
        decreases to - i,
    {
        let c = text[i];
        let u: u32 = c as u32;
        if u < 0x30 || u > 0x39 {
            assert(!is_digit(digits[i - start]));
            return None;
        }
        let d: u64 = (u - 0x30) as u64;
        proof {
            let next = digits.take(i - start + 1);
            assert(next.drop_last() =~= digits.take(i - start));
            assert(next.last() == c);
            assert(digits_value(next) == 10 * value + d);
            assert(all_digits(next)) by {
                assert forall|j: int| 0 <= j < next.len() implies is_digit(#[trigger] next[j]) by {
                    if j < i - start {
                        assert(next[j] == digits.take(i - start)[j]);
                    }
                }
            }
            lemma_digits_value_prefix(digits, i - start + 1);
        }
        if value > (u64::MAX - d) / 10 {
            return None;
        }
        value = value * 10 + d;
        i = i + 1;
    }
    assert(digits.take(i - start) =~= digits);
    Some(value)
}

/// `String::push` of the standard library: the character `c` is appended to
/// the end of `s`, and nothing else of `s` changes.
#[verifier::external_body]
pub(crate) fn push_char(s: &mut String, c: char)
    ensures
        final(s)@ == old(s)@.push(c),
{
    s.push(c);
}

/// Appends the characters `text[from..to]` to `s`.
pub fn append_at(s: &mut String, text: &Vec<char>, from: usize, to: usize)
    requires
        from <= to <= text.len(),
    ensures
        final(s)@ == old(s)@ + text@.subrange(from as int, to as int),
{
    let mut i: usize = from;
    while i < to
        invariant
            from <= i <= to <= text.len(),
            s@ == old(s)@ + text@.subrange(from as int, i as int),
        decreases to - i,
    {
        push_char(s, text[i]);
        i = i + 1;
    }
}

/// Builds the string that holds the characters `text[from..to]`.
pub fn string_at(text: &Vec<char>, from: usize, to: usize) -> (s: String)
    requires
        from <= to <= text.len(),
    ensures
        s@ == text@.subrange(from as int, to as int),
{
    let mut s = String::new();
    append_at(&mut s, text, from, to);
    s
}

} // verus!
