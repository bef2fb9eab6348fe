//! The report that an external benchmark driver prints on its standard
//! output: one `key value` pair per line, `checksum <u64>` and any number of
//! `sample_ns <u128>` lines; other lines are ignored.

use vstd::prelude::*;
use crate::text::{push_char, push_str, str_chars, str_to_string};
use crate::options::{chars_equal, 
    char_is_whitespace, char_views, lemma_split_nonempty, lemma_trim_start_skip, split_chars,
    split_on, trim_start, white_space,
};

verus! {

/// `l` without one trailing carriage return.
pub open spec fn strip_cr(l: Seq<char>) -> Seq<char> {
    if l.len() > 0 && l.last() == '\r' {
        l.drop_last()
    } else {
        l
    }
}

/// The lines of `text` as `str::lines` yields them: split at `\n`, a
/// `\r\n` ending counts as one line ending, and a final empty line (after a
/// last line ending, or of an empty text) is not a line.
pub open spec fn lines_of(text: Seq<char>) -> Seq<Seq<char>> {
    let pieces = split_on(text, '\n');
    let ended = pieces.drop_last().map_values(|l: Seq<char>| strip_cr(l));
    if pieces.last().len() == 0 {
        ended
    } else {
        ended.push(pieces.last())
    }
}

/// The number of leading characters of `s` that are not white space.
pub open spec fn word_len(s: Seq<char>) -> nat
    decreases s.len(),
{
    if s.len() > 0 && !white_space(s[0]) {
        1 + word_len(s.drop_first())
    } else {
        0
    }
}

/// The first white-space separated word of `s` (empty if there is none).
pub open spec fn first_word(s: Seq<char>) -> Seq<char> {
    let t = trim_start(s);
    t.subrange(0, word_len(t) as int)
}

/// What follows the first word of `s`.
pub open spec fn after_first_word(s: Seq<char>) -> Seq<char> {
    let t = trim_start(s);
    t.subrange(word_len(t) as int, t.len() as int)
}

proof fn lemma_word_len_bound(s: Seq<char>)
    ensures
        word_len(s) <= s.len(),
    decreases s.len(),
{
    if s.len() > 0 && !white_space(s[0]) {
        lemma_word_len_bound(s.drop_first());
    }
}

proof fn lemma_word_len_run(s: Seq<char>, k: int)
    requires
        0 <= k <= s.len(),
        forall|i: int| 0 <= i < k ==> !white_space(#[trigger] s[i]),
        k == s.len() || white_space(s[k]),
    ensures
        word_len(s) == k,
    decreases k,
{
    if k > 0 {
        let t = s.drop_first();
        assert forall|i: int| 0 <= i < k - 1 implies !white_space(#[trigger] t[i]) by {
            assert(t[i] == s[i + 1]);
        }
        if k - 1 < t.len() {
            assert(t[k - 1] == s[k]);
        }
        lemma_word_len_run(t, k - 1);
    }
}

/// The bounds of the first word of `line` from position `from` on: it
/// starts at `r.0` after white space only, and ends at `r.1`.
fn word_bounds(line: &Vec<char>, from: usize) -> (r: (usize, usize))
    requires
        from <= line@.len(),
    ensures
        from <= r.0 <= r.1 <= line@.len(),
        trim_start(line@.subrange(from as int, line@.len() as int)) == line@.subrange(
            r.0 as int,
            line@.len() as int,
        ),
        word_len(line@.subrange(r.0 as int, line@.len() as int)) == r.1 - r.0,
{
    let n = line.len();
    let mut start = from;
    while start < n && char_is_whitespace(line[start])
        invariant
            from <= start <= n == line@.len(),
            forall|i: int| from <= i < start ==> white_space(#[trigger] line@[i]),
        decreases n - start,
    {
        start = start + 1;
    }
    let mut end = start;
    while end < n && !char_is_whitespace(line[end])
        invariant
            start <= end <= n == line@.len(),
            forall|i: int| start <= i < end ==> !white_space(#[trigger] line@[i]),
        decreases n - end,
    {
        end = end + 1;
    }
    proof {
        let s = line@.subrange(from as int, n as int);
        let k = start - from;
        assert forall|i: int| 0 <= i < k implies white_space(#[trigger] s[i]) by {
            assert(s[i] == line@[from + i]);
        }
        lemma_trim_start_skip(s, k);
        let tail = line@.subrange(start as int, n as int);
        assert(s.subrange(k, s.len() as int) =~= tail);
        if start < n {
            assert(tail[0] == line@[start as int]);
        }
        assert(trim_start(tail) == tail);
        assert forall|i: int| 0 <= i < end - start implies !white_space(#[trigger] tail[i]) by {
            assert(tail[i] == line@[start + i]);
        }
        if end < n {
            assert(tail[end - start] == line@[end as int]);
        }
        lemma_word_len_run(tail, end - start);
    }
    (start, end)
}

/// A copy of `v[a..b]`.
fn copy_range(v: &Vec<char>, a: usize, b: usize) -> (r: Vec<char>)
    requires
        a <= b <= v@.len(),
    ensures
        r@ == v@.subrange(a as int, b as int),
{
    let mut r: Vec<char> = Vec::new();
    let mut i = a;
    while i < b
        invariant
            a <= i <= b <= v@.len(),
            r@ == v@.subrange(a as int, i as int),
        decreases b - i,
    {
        r.push(v[i]);
        i = i + 1;
        proof {
            assert(r@ =~= v@.subrange(a as int, i as int));
        }
    }
    r
}

/// The lines of a text, as `lines_of` describes them.
fn text_lines(chars: &Vec<char>) -> (r: Vec<Vec<char>>)
    ensures
        char_views(r@) == lines_of(chars@),
{
    let pieces = split_chars(chars, '\n');
    proof {
        lemma_split_nonempty(chars@, '\n');
    }
    let n = pieces.len();
    let ghost all = split_on(chars@, '\n');
    let mut lines: Vec<Vec<char>> = Vec::new();
    let mut i: usize = 0;
    while i + 1 < n
        invariant
            1 <= n == pieces@.len(),
            char_views(pieces@) == all,
            i + 1 <= n,
            char_views(lines@) == all.drop_last().take(i as int).map_values(
                |l: Seq<char>| strip_cr(l),
            ),
        decreases n - i,
    {
        let piece = &pieces[i];
        let mut end = piece.len();
        if end > 0 && piece[end - 1] == '\r' {
            end = end - 1;
        }
        let line = copy_range(piece, 0, end);
        proof {
            assert(all[i as int] == pieces@[i as int]@);
            assert(line@ == strip_cr(all[i as int]));
        }
        let ghost before = lines@;
        let ghost lv = line@;
        lines.push(line);
        i = i + 1;
        proof {
            let f = |l: Seq<char>| strip_cr(l);
            let prev = all.drop_last().take(i - 1);
            let next = all.drop_last().take(i as int);
            assert(next =~= prev.push(all[i - 1]));
            assert(next.map_values(f) =~= prev.map_values(f).push(strip_cr(all[i - 1])));
            assert(char_views(lines@) =~= char_views(before).push(lv));
            assert(char_views(lines@) =~= next.map_values(f));
        }
    }
    proof {
        assert(all.drop_last().take(i as int) =~= all.drop_last());
        assert(all.last() == pieces@[n - 1]@);
    }
    let last = &pieces[n - 1];
    if last.len() > 0 {
        let line = copy_range(last, 0, last.len());
        lines.push(line);
        proof {
            assert(line@ =~= all.last());
            assert(char_views(lines@) =~= lines_of(chars@));
        }
    }
    lines
}

/// The digits of an unsigned decimal literal: `t` without one leading `+`.
pub open spec fn decimal_digits(t: Seq<char>) -> Seq<char> {
    if t.len() > 0 && t[0] == '+' {
        t.drop_first()
    } else {
        t
    }
}

/// Whether `t` is an optional `+` followed by one or more ASCII digits.
pub open spec fn is_unsigned_decimal(t: Seq<char>) -> bool {
    let d = decimal_digits(t);
    d.len() > 0 && forall|i: int| 0 <= i < d.len() ==> '0' <= #[trigger] d[i] <= '9'
}

/// The number that the ASCII digits `d` write in base ten.
pub open spec fn digits_value(d: Seq<char>) -> nat
    decreases d.len(),
{
    if d.len() == 0 {
        0
    } else {
        digits_value(d.drop_last()) * 10 + (d.last() as nat - '0' as nat) as nat
    }
}

/// Whether `t` is an unsigned decimal literal whose value is at most `max`.
pub open spec fn decimal_fits(t: Seq<char>, max: nat) -> bool {
    is_unsigned_decimal(t) && digits_value(decimal_digits(t)) <= max
}

/// The message of the error with which `str::parse::<u64>` refuses `t`.
pub uninterp spec fn u64_parse_error(t: Seq<char>) -> Seq<char>;

/// The message of the error with which `str::parse::<u128>` refuses `t`.
pub uninterp spec fn u128_parse_error(t: Seq<char>) -> Seq<char>;

/// Calls `str::parse::<u64>` (`u64::from_str_radix` in base ten), which is
/// documented to accept exactly an optional `+` followed by ASCII digits
/// whose value fits in a `u64`; a refusal is handed back as the error's
/// message, left to the name `u64_parse_error`.
#[verifier::external_body]
fn parse_u64(t: &str) -> (r: Result<u64, String>)
    ensures
        match r {
            Ok(v) => decimal_fits(t@, u64::MAX as nat) && v == digits_value(decimal_digits(t@)),
            Err(e) => !decimal_fits(t@, u64::MAX as nat) && e@ == u64_parse_error(t@),
        },
{
    t.parse::<u64>().map_err(|error| error.to_string())
}

/// Calls `str::parse::<u128>` (`u128::from_str_radix` in base ten), which
/// is documented to accept exactly an optional `+` followed by ASCII digits
/// whose value fits in a `u128`; a refusal is handed back as the error's
/// message, left to the name `u128_parse_error`.
#[verifier::external_body]
fn parse_u128(t: &str) -> (r: Result<u128, String>)
    ensures
        match r {
            Ok(v) => decimal_fits(t@, u128::MAX as nat) && v == digits_value(decimal_digits(t@)),
            Err(e) => !decimal_fits(t@, u128::MAX as nat) && e@ == u128_parse_error(t@),
        },
{
    t.parse::<u128>().map_err(|error| error.to_string())
}

/// What the driver reported so far: the samples in order and the last
/// checksum, or the message of the first line that could not be read.
pub type DriverState = Result<(Seq<u128>, Option<u64>), Seq<char>>;

/// The effect of one line: a `checksum` or `sample_ns` key followed by a
/// value records the value, or fails if it is no number of the right size;
/// a line with fewer than two words, or another key, changes nothing.
pub open spec fn line_effect(line: Seq<char>, samples: Seq<u128>, checksum: Option<u64>) -> DriverState {
    let key = first_word(line);
    let value = first_word(after_first_word(line));
    if key.len() == 0 || value.len() == 0 {
        Ok((samples, checksum))
    } else if key == "checksum"@ {
        if decimal_fits(value, u64::MAX as nat) {
            Ok((samples, Some(digits_value(decimal_digits(value)) as u64)))
        } else {
            Err("invalid checksum output: "@ + u64_parse_error(value))
        }
    } else if key == "sample_ns"@ {
        if decimal_fits(value, u128::MAX as nat) {
            Ok((samples.push(digits_value(decimal_digits(value)) as u128), checksum))
        } else {
            Err("invalid sample output: "@ + u128_parse_error(value))
        }
    } else {
        Ok((samples, checksum))
    }
}

/// The state after reading `lines` in order; reading stops at the first
/// failure.
pub open spec fn read_lines(lines: Seq<Seq<char>>) -> DriverState
    decreases lines.len(),
{
    if lines.len() == 0 {
        Ok((Seq::<u128>::empty(), None))
    } else {
        match read_lines(lines.drop_last()) {
            Err(e) => Err(e),
            Ok((samples, checksum)) => line_effect(lines.last(), samples, checksum),
        }
    }
}

/// The message for a report without a checksum.
pub open spec fn missing_checksum_message() -> Seq<char> {
    "cpp-taskflow driver did not return checksum"@
}

/// The samples and checksum that the driver's report `text` gives, or the
/// message with which it is refused.
pub open spec fn driver_report(text: Seq<char>) -> Result<(Seq<u128>, u64), Seq<char>> {
    match read_lines(lines_of(text)) {
        Err(e) => Err(e),
        Ok((samples, None)) => Err(missing_checksum_message()),
        Ok((samples, Some(checksum))) => Ok((samples, checksum)),
    }
}

proof fn lemma_failure_sticks(lines: Seq<Seq<char>>, k: int, e: Seq<char>)
    requires
        0 <= k <= lines.len(),
        read_lines(lines.take(k)) == DriverState::Err(e),
    ensures
        read_lines(lines) == DriverState::Err(e),
    decreases lines.len() - k,
{
    if k == lines.len() {
        assert(lines.take(k) =~= lines);
    } else {
        assert(lines.take(k + 1).drop_last() =~= lines.take(k));
        lemma_failure_sticks(lines, k + 1, e);
    }
}

/// What one benchmark run of the driver measured.
#[derive(Debug)]
pub struct Measurement {
    pub samples_ns: Vec<u128>,
    pub checksum: u64,
}

fn string_of(v: &Vec<char>) -> (s: String)
    ensures
        s@ == v@,
{
    let mut s = str_to_string("");
    let mut i: usize = 0;
    proof {
        reveal_strlit("");
        assert(v@.subrange(0, 0) =~= ""@);
    }
    while i < v.len()
        invariant
            i <= v@.len(),
            s@ == v@.subrange(0, i as int),
        decreases v@.len() - i,
    {
        push_char(&mut s, v[i]);
        i = i + 1;
        proof {
            assert(s@ =~= v@.subrange(0, i as int));
        }
    }
    proof {
        assert(v@.subrange(0, v@.len() as int) =~= v@);
    }
    s
}

fn prefixed(head: &str, tail: &str) -> (s: String)
    ensures
        s@ == head@ + tail@,
{
    let mut s = str_to_string(head);
    push_str(&mut s, tail);
    s
}

/// Reads the driver's report `text`: the `sample_ns` values in order and
/// the last `checksum`; the first line whose value is no number of the
/// right size, or a report without a checksum, is refused with its message.
pub fn parse_driver_report(text: &str) -> (r: Result<Measurement, String>)
    ensures
        match r {
            Ok(m) => driver_report(text@) == Ok::<(Seq<u128>, u64), Seq<char>>((m.samples_ns@, m.checksum)),
            Err(e) => driver_report(text@) == Err::<(Seq<u128>, u64), Seq<char>>(e@),
        },
{
    let chars = str_chars(text);
    let lines = text_lines(&chars);
    let ghost all = lines_of(text@);
    let mut samples: Vec<u128> = Vec::new();
    let mut checksum: Option<u64> = None;
    let mut i: usize = 0;
    proof {
        assert(all.take(0) =~= Seq::<Seq<char>>::empty());
    }
    while i < lines.len()
        invariant
            i <= lines@.len(),
            char_views(lines@) == all,
            all == lines_of(text@),
            read_lines(all.take(i as int)) == DriverState::Ok((samples@, checksum)),
        decreases lines@.len() - i,
    {
        let line = &lines[i];
        let (key_start, key_end) = word_bounds(line, 0);
        let (value_start, value_end) = word_bounds(line, key_end);
        let ghost l = line@;
        proof {
            assert(all[i as int] == l);
            assert(all.take(i + 1).drop_last() =~= all.take(i as int));
            assert(all.take(i + 1).last() == l);
            assert(l.subrange(0, l.len() as int) =~= l);
            lemma_word_len_bound(trim_start(l));
            let t = trim_start(l);
            assert(first_word(l) =~= l.subrange(key_start as int, key_end as int));
            assert(after_first_word(l) =~= l.subrange(key_end as int, l.len() as int));
            assert(first_word(after_first_word(l)) =~= l.subrange(
                value_start as int,
                value_end as int,
            ));
        }
        if key_start < key_end && value_start < value_end {
            let key = copy_range(line, key_start, key_end);
            let value_chars = copy_range(line, value_start, value_end);
            let value = string_of(&value_chars);
            if chars_equal(&key, "checksum") {
                match parse_u64(value.as_str()) {
                    Ok(v) => {
                        checksum = Some(v);
                    },
                    Err(message) => {
                        let e = prefixed("invalid checksum output: ", message.as_str());
                        proof {
                            lemma_failure_sticks(all, i + 1, e@);
                        }
                        return Err(e);
                    },
                }
            } else if chars_equal(&key, "sample_ns") {
                match parse_u128(value.as_str()) {
                    Ok(v) => {
                        samples.push(v);
                    },
                    Err(message) => {
                        let e = prefixed("invalid sample output: ", message.as_str());
                        proof {
                            lemma_failure_sticks(all, i + 1, e@);
                        }
                        return Err(e);
                    },
                }
            }
        }
        i = i + 1;
    }
    proof {
        assert(all.take(i as int) =~= all);
    }
    match checksum {
        Some(c) => Ok(Measurement { samples_ns: samples, checksum: c }),
        None => {
            let e = str_to_string("cpp-taskflow driver did not return checksum");
            proof {
                reveal_strlit("cpp-taskflow driver did not return checksum");
            }
            Err(e)
        },
    }
}

/// The text that `String::from_utf8_lossy` decodes from `bytes`.
pub uninterp spec fn utf8_lossy(bytes: Seq<u8>) -> Seq<char>;

/// Calls `String::from_utf8_lossy`, which decodes `bytes` as UTF-8 with each
/// invalid sequence replaced by U+FFFD; the decoded text is left to the name
/// `utf8_lossy`.
#[verifier::external_body]
fn decode_utf8_lossy(bytes: &[u8]) -> (s: String)
    ensures
        s@ == utf8_lossy(bytes@),
{
    String::from_utf8_lossy(bytes).into_owned()
}

/// Reads the driver's standard output `stdout`, decoded as UTF-8 with
/// invalid sequences replaced, as `parse_driver_report` reads a text.
pub fn parse_cpp_output(stdout: &[u8]) -> (r: Result<Measurement, String>)
    ensures
        match r {
            Ok(m) => driver_report(utf8_lossy(stdout@)) == Ok::<(Seq<u128>, u64), Seq<char>>(
                (m.samples_ns@, m.checksum),
            ),
            Err(e) => driver_report(utf8_lossy(stdout@)) == Err::<(Seq<u128>, u64), Seq<char>>(e@),
        },
{
    let text = decode_utf8_lossy(stdout);
    parse_driver_report(text.as_str())
}

} // verus!
