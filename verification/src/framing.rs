//! Framing of raw HTTP messages.
//!
//! A message is a start line, header lines up to and including a bare CRLF
//! line, and a body of exactly as many bytes as the last `Content-Length`
//! header declares (none when no such header was sent). Bytes are never
//! decoded or normalised: the framed message is a prefix of the input.

use vstd::prelude::*;

verus! {

/// Line feed, the byte that ends every line.
pub const LF: u8 = 10;

/// Carriage return.
pub const CR: u8 = 13;

/// Why a byte stream does not hold one complete message.
#[derive(Clone, Copy, Debug, PartialEq, Eq, Structural)]
pub enum FramingError {
    /// The stream ended before the start line and the header block, closed
    /// by a bare CRLF line, were complete.
    UnterminatedHead,
    /// A `Content-Length` header carries a value that is not a decimal
    /// number that fits a `usize`.
    InvalidContentLength,
    /// The stream ended before the declared number of body bytes arrived.
    TruncatedBody,
}

impl FramingError {
    /// Whether the message was cut short inside its body, as opposed to
    /// being malformed in its start line or headers.
    pub open spec fn spec_is_truncation(self) -> bool {
        self == FramingError::TruncatedBody
    }

    /// Tells a truncated message from a malformed one.
    pub fn is_truncation(&self) -> (truncated: bool)
        ensures
            truncated == self.spec_is_truncation(),
    {
        match self {
            FramingError::TruncatedBody => true,
            FramingError::UnterminatedHead => false,
            FramingError::InvalidContentLength => false,
        }
    }
}

/// The index just past the first line feed at or after `from`, or `None`
/// when no line feed follows.
pub open spec fn spec_line_end(s: Seq<u8>, from: int) -> Option<int>
    decreases s.len() - from,
{
    if from < 0 || from >= s.len() {
        None
    } else if s[from] == LF {
        Some(from + 1)
    } else {
        spec_line_end(s, from + 1)
    }
}

/// A line end found by `spec_line_end` lies within the input, sits just
/// past a line feed, and no line feed comes before it.
pub proof fn lemma_line_end_found(s: Seq<u8>, from: int)
    requires
        spec_line_end(s, from) is Some,
    ensures
        0 <= from < spec_line_end(s, from)->0 <= s.len(),
        s[spec_line_end(s, from)->0 - 1] == LF,
        forall|j: int| from <= j < spec_line_end(s, from)->0 - 1 ==> s[j] != LF,
    decreases s.len() - from,
{
    if s[from] != LF {
        lemma_line_end_found(s, from + 1);
    }
}

/// Without a line end there is no line feed at or after `from`.
pub proof fn lemma_line_end_missing(s: Seq<u8>, from: int)
    requires
        0 <= from,
        spec_line_end(s, from) is None,
    ensures
        forall|j: int| from <= j < s.len() ==> s[j] != LF,
    decreases s.len() - from,
{
    if from < s.len() {
        lemma_line_end_missing(s, from + 1);
    }
}

/// The first line feed at or after `from` fixes the line end.
pub proof fn lemma_line_end_is(s: Seq<u8>, from: int, at: int)
    requires
        0 <= from <= at < s.len(),
        s[at] == LF,
        forall|j: int| from <= j < at ==> s[j] != LF,
    ensures
        spec_line_end(s, from) == Some(at + 1),
    decreases at - from,
{
    if from < at {
        lemma_line_end_is(s, from + 1, at);
    }
}

/// Finds the end of the line that starts at `from`.
pub fn find_line_end(input: &[u8], from: usize) -> (end: Option<usize>)
    ensures
        match end {
            Some(e) => spec_line_end(input@, from as int) == Some(e as int),
            None => spec_line_end(input@, from as int) is None,
        },
{
    let mut i: usize = from;
    while i < input.len()
        invariant
            from <= i,
            from < input.len() ==> i <= input.len(),
            forall|j: int| from <= j < i ==> input@[j] != LF,
        decreases input.len() - i,
    {
        if input[i] == LF {
            proof {
                lemma_line_end_is(input@, from as int, i as int);
            }
            return Some(i + 1);
        }
        i += 1;
    }
    proof {
        if spec_line_end(input@, from as int) is Some {
            lemma_line_end_found(input@, from as int);
        }
    }
    None
}

/// The number of bytes that the whitespace character encoded at index `i`
/// occupies, or 0 when no whitespace character starts there. Whitespace is
/// every character with the Unicode property White_Space, in UTF-8: the
/// ASCII controls 9 to 13 and the space, U+0085, U+00A0, U+1680, U+2000 to
/// U+200A, U+2028, U+2029, U+202F, U+205F and U+3000.
pub open spec fn spec_whitespace_width(s: Seq<u8>, i: int) -> nat {
    if i < 0 || i >= s.len() {
        0
    } else if (9 <= s[i] <= 13) || s[i] == 32 {
        1
    } else if i + 1 < s.len() && s[i] == 0xC2 && (s[i + 1] == 0x85 || s[i + 1] == 0xA0) {
        2
    } else if i + 2 < s.len() && s[i] == 0xE1 && s[i + 1] == 0x9A && s[i + 2] == 0x80 {
        3
    } else if i + 2 < s.len() && s[i] == 0xE2 && s[i + 1] == 0x80 && (0x80 <= s[i + 2] <= 0x8A
        || s[i + 2] == 0xA8 || s[i + 2] == 0xA9 || s[i + 2] == 0xAF) {
        3
    } else if i + 2 < s.len() && s[i] == 0xE2 && s[i + 1] == 0x81 && s[i + 2] == 0x9F {
        3
    } else if i + 2 < s.len() && s[i] == 0xE3 && s[i + 1] == 0x80 && s[i + 2] == 0x80 {
        3
    } else {
        0
    }
}

/// The bytes of `s` from index `from` on, with every whitespace character
/// left out.
pub open spec fn spec_strip_from(s: Seq<u8>, from: int) -> Seq<u8>
    decreases s.len() - from,
{
    if from < 0 || from >= s.len() {
        Seq::empty()
    } else if spec_whitespace_width(s, from) > 0 {
        spec_strip_from(s, from + spec_whitespace_width(s, from))
    } else {
        seq![s[from]] + spec_strip_from(s, from + 1)
    }
}

/// `s` with every whitespace character left out.
pub open spec fn spec_strip(s: Seq<u8>) -> Seq<u8> {
    spec_strip_from(s, 0)
}

/// Measures the whitespace character that starts at index `i`.
pub fn whitespace_width(input: &[u8], i: usize) -> (width: usize)
    ensures
        width == spec_whitespace_width(input@, i as int),
        width <= 3,
        i + width <= input.len() || width == 0,
{
    let n: usize = input.len();
    if i >= n {
        return 0;
    }
    let a: u8 = input[i];
    if (9 <= a && a <= 13) || a == 32 {
        return 1;
    }
    if n - i >= 2 && a == 0xC2 {
        let b: u8 = input[i + 1];
        if b == 0x85 || b == 0xA0 {
            return 2;
        }
    }
    if n - i >= 3 {
        let b: u8 = input[i + 1];
        let c: u8 = input[i + 2];
        if a == 0xE1 && b == 0x9A && c == 0x80 {
            return 3;
        }
        if a == 0xE2 && b == 0x80 && ((0x80 <= c && c <= 0x8A) || c == 0xA8 || c == 0xA9 || c
            == 0xAF) {
            return 3;
        }
        if a == 0xE2 && b == 0x81 && c == 0x9F {
            return 3;
        }
        if a == 0xE3 && b == 0x80 && c == 0x80 {
            return 3;
        }
    }
    0
}

/// Copies `input` without its whitespace characters.
pub fn strip_whitespace(input: &[u8]) -> (stripped: Vec<u8>)
    ensures
        stripped@ == spec_strip(input@),
{
    let mut out: Vec<u8> = Vec::new();
    let mut i: usize = 0;
    while i < input.len()
        invariant
            i <= input.len(),
            out@ + spec_strip_from(input@, i as int) == spec_strip(input@),
        decreases input.len() - i,
    {
        let width: usize = whitespace_width(input, i);
        if width > 0 {
            i += width;
        } else {
            proof {
                let rest = spec_strip_from(input@, i + 1);
                assert(out@.push(input@[i as int]) + rest =~= out@ + (seq![input@[i as int]]
                    + rest));
            }
            out.push(input[i]);
            i += 1;
        }
    }
    proof {
        assert(out@ + Seq::<u8>::empty() =~= out@);
    }
    out
}

/// Whether `b` is an ASCII decimal digit.
pub open spec fn spec_is_digit(b: u8) -> bool {
    48 <= b <= 57
}

/// Whether every byte of `s` is an ASCII decimal digit.
pub open spec fn spec_all_digits(s: Seq<u8>) -> bool {
    forall|i: int| 0 <= i < s.len() ==> spec_is_digit(#[trigger] s[i])
}

/// The number that the decimal digits `s` write, most significant first.
pub open spec fn spec_decimal(s: Seq<u8>) -> nat
    decreases s.len(),
{
    if s.len() == 0 {
        0
    } else {
        10 * spec_decimal(s.drop_last()) + (if s.last() >= 48 {
            (s.last() - 48) as nat
        } else {
            0
        })
    }
}

/// `s` without one leading plus sign.
pub open spec fn spec_unsigned(s: Seq<u8>) -> Seq<u8> {
    if s.len() > 0 && s[0] == 43 {
        s.skip(1)
    } else {
        s
    }
}

/// The length that `s` writes: an optional plus sign, then one or more
/// decimal digits whose value fits a `usize`. Anything else is `None`.
pub open spec fn spec_parse_length(s: Seq<u8>) -> Option<usize> {
    let digits = spec_unsigned(s);
    if digits.len() > 0 && spec_all_digits(digits) && spec_decimal(digits) <= usize::MAX {
        Some(spec_decimal(digits) as usize)
    } else {
        None
    }
}

/// A longer run of digits never writes a smaller number than its prefix.
pub proof fn lemma_decimal_prefix(s: Seq<u8>, k: int)
    requires
        0 <= k <= s.len(),
    ensures
        spec_decimal(s.take(k)) <= spec_decimal(s),
    decreases s.len() - k,
{
    if k < s.len() {
        assert(s.take(k + 1).drop_last() =~= s.take(k));
        lemma_decimal_prefix(s, k + 1);
    } else {
        assert(s.take(k) =~= s);
    }
}

/// Reads a length written in decimal.
pub fn parse_length(text: &[u8]) -> (value: Option<usize>)
    ensures
        value == spec_parse_length(text@),
{
    let start: usize = if text.len() > 0 && text[0] == 43 {
        1
    } else {
        0
    };
    if start == text.len() {
        return None;
    }
    let ghost digits = spec_unsigned(text@);
    let mut acc: usize = 0;
    let mut i: usize = start;
    while i < text.len()
        invariant
            start <= i <= text.len(),
            digits == spec_unsigned(text@),
            digits == text@.skip(start as int),
            spec_all_digits(digits.take(i - start)),
            acc == spec_decimal(digits.take(i - start)),
        decreases text.len() - i,
    {
        let b: u8 = text[i];
        if b < 48 || b > 57 {
            proof {
                assert(digits[i - start] == b);
            }
            return None;
        }
        let ghost next = digits.take(i - start + 1);
        proof {
            assert(next.drop_last() =~= digits.take(i - start));
            assert(next.last() == b);
            lemma_decimal_prefix(digits, i - start + 1);
        }
        let scaled: usize = match acc.checked_mul(10) {
            Some(m) => m,
            None => {
                return None;
            },
        };
        acc = match scaled.checked_add((b - 48) as usize) {
            Some(v) => v,
            None => {
                return None;
            },
        };
        i += 1;
    }
    proof {
        assert(digits.take(i - start) =~= digits);
    }
    Some(acc)
}

/// The index of the first colon that a space follows, at or after `from`.
pub open spec fn spec_separator(line: Seq<u8>, from: int) -> Option<int>
    decreases line.len() - from,
{
    if from < 0 || from + 1 >= line.len() {
        None
    } else if line[from] == 58 && line[from + 1] == 32 {
        Some(from)
    } else {
        spec_separator(line, from + 1)
    }
}

/// The name of a header line: what stands before the first colon and
/// space, or the whole line when it has none.
pub open spec fn spec_header_name(line: Seq<u8>) -> Seq<u8> {
    match spec_separator(line, 0) {
        Some(at) => line.take(at),
        None => line,
    }
}

/// The value of a header line: what follows the first colon and space, up
/// to the end of the line.
pub open spec fn spec_header_value(line: Seq<u8>) -> Seq<u8> {
    match spec_separator(line, 0) {
        Some(at) => line.skip(at + 2),
        None => Seq::empty(),
    }
}

/// The bytes of `Content-Length`.
pub open spec fn spec_content_length_name() -> Seq<u8> {
    seq![
        67u8, 111u8, 110u8, 116u8, 101u8, 110u8, 116u8, 45u8, 76u8, 101u8, 110u8, 103u8, 116u8,
        104u8,
    ]
}

/// What one header line declares about the body: `Ok(None)` when it is
/// not a `Content-Length` header, `Ok(Some(n))` when it declares `n`
/// bytes, and an error when its value, stripped of whitespace, is no
/// length.
pub open spec fn spec_content_length_of(line: Seq<u8>) -> Result<Option<usize>, FramingError> {
    if spec_header_name(line) == spec_content_length_name() {
        match spec_parse_length(spec_strip(spec_header_value(line))) {
            Some(n) => Ok(Some(n)),
            None => Err(FramingError::InvalidContentLength),
        }
    } else {
        Ok(None)
    }
}

/// The bare CRLF line that closes the header block.
pub open spec fn spec_blank_line() -> Seq<u8> {
    seq![CR, LF]
}

/// How far the header lines of a message have been read.
pub enum HeadScan {
    /// The input ended inside the header block. The first line that is
    /// not complete starts at `resume`; `declared` is the body length
    /// that the complete lines declare.
    Open { resume: int, declared: nat },
    /// The blank line was found: the head ends at `end` and a body of
    /// `declared` bytes follows.
    Closed { end: int, declared: nat },
    /// A `Content-Length` header was found whose value is no length.
    Invalid,
}

/// Reads header lines of `s` from index `pos` on, where `declared` is the
/// body length declared before `pos`. The last `Content-Length` header
/// before the blank line decides.
pub open spec fn spec_scan_head(s: Seq<u8>, pos: int, declared: nat) -> HeadScan
    decreases s.len() - pos,
{
    match spec_line_end(s, pos) {
        None => HeadScan::Open { resume: pos, declared },
        Some(end) => {
            proof {
                lemma_line_end_found(s, pos);
            }
            if s.subrange(pos, end) == spec_blank_line() {
                HeadScan::Closed { end, declared }
            } else {
                match spec_content_length_of(s.subrange(pos, end)) {
                    Err(_) => HeadScan::Invalid,
                    Ok(Some(n)) => spec_scan_head(s, end, n as nat),
                    Ok(None) => spec_scan_head(s, end, declared),
                }
            }
        },
    }
}

/// Reads the head of a message: the start line, which is taken as it is,
/// and then the header lines.
pub open spec fn spec_head(s: Seq<u8>) -> HeadScan {
    match spec_line_end(s, 0) {
        None => HeadScan::Open { resume: 0, declared: 0 },
        Some(first) => spec_scan_head(s, first, 0),
    }
}

/// The length of the one message that `s` starts with, when `s` is all
/// that the stream holds: the start line, the header lines through the
/// blank line, and the declared number of body bytes.
pub open spec fn spec_frame(s: Seq<u8>) -> Result<int, FramingError> {
    match spec_head(s) {
        HeadScan::Open { .. } => Err(FramingError::UnterminatedHead),
        HeadScan::Invalid => Err(FramingError::InvalidContentLength),
        HeadScan::Closed { end, declared } => if end + declared <= s.len() {
            Ok(end + declared)
        } else {
            Err(FramingError::TruncatedBody)
        },
    }
}

/// Finds the colon and space that part a header's name from its value.
pub fn find_separator(line: &[u8]) -> (at: Option<usize>)
    ensures
        match at {
            Some(i) => spec_separator(line@, 0) == Some(i as int) && i + 2 <= line.len(),
            None => spec_separator(line@, 0) is None,
        },
{
    let mut i: usize = 0;
    while i < line.len() && line.len() - i >= 2
        invariant
            i <= line.len(),
            spec_separator(line@, 0) == spec_separator(line@, i as int),
        decreases line.len() - i,
    {
        if line[i] == 58 && line[i + 1] == 32 {
            return Some(i);
        }
        i += 1;
    }
    None
}

/// Whether `name` is exactly `Content-Length`.
pub fn is_content_length_name(name: &[u8]) -> (same: bool)
    ensures
        same == (name@ == spec_content_length_name()),
{
    let same: bool = name.len() == 14 && name[0] == 67 && name[1] == 111 && name[2] == 110
        && name[3] == 116 && name[4] == 101 && name[5] == 110 && name[6] == 116 && name[7] == 45
        && name[8] == 76 && name[9] == 101 && name[10] == 110 && name[11] == 103 && name[12]
        == 116 && name[13] == 104;
    proof {
        let want = spec_content_length_name();
        if same {
            assert(name@ =~= want);
        } else if name@ == want {
            assert(want.len() == 14);
            assert(want[0] == 67 && want[1] == 111 && want[2] == 110 && want[3] == 116);
            assert(want[4] == 101 && want[5] == 110 && want[6] == 116 && want[7] == 45);
            assert(want[8] == 76 && want[9] == 101 && want[10] == 110 && want[11] == 103);
            assert(want[12] == 116 && want[13] == 104);
        }
    }
    same
}

/// Reads what one header line declares about the length of the body.
pub fn content_length_of(line: &[u8]) -> (declared: Result<Option<usize>, FramingError>)
    ensures
        declared == spec_content_length_of(line@),
{
    let at: usize = match find_separator(line) {
        Some(i) => i,
        None => {
            proof {
                assert(spec_strip(Seq::<u8>::empty()) =~= Seq::<u8>::empty());
            }
            return if is_content_length_name(line) {
                Err(FramingError::InvalidContentLength)
            } else {
                Ok(None)
            };
        },
    };
    let name: &[u8] = vstd::slice::slice_subrange(line, 0, at);
    if !is_content_length_name(name) {
        return Ok(None);
    }
    let value: &[u8] = vstd::slice::slice_subrange(line, at + 2, line.len());
    let stripped: Vec<u8> = strip_whitespace(value);
    match parse_length(stripped.as_slice()) {
        Some(n) => Ok(Some(n)),
        None => Err(FramingError::InvalidContentLength),
    }
}

/// Whether `line` is the bare CRLF line.
pub fn is_blank_line(line: &[u8]) -> (blank: bool)
    ensures
        blank == (line@ == spec_blank_line()),
{
    let blank: bool = line.len() == 2 && line[0] == CR && line[1] == LF;
    proof {
        let want = spec_blank_line();
        if blank {
            assert(line@ =~= want);
        } else if line@ == want {
            assert(want.len() == 2 && want[0] == CR && want[1] == LF);
        }
    }
    blank
}

/// Finds where the first message in `input` ends, taking `input` for the
/// whole stream. On success the message is `input[..length]`, byte for
/// byte; what follows it is not looked at.
pub fn frame_message(input: &[u8]) -> (framed: Result<usize, FramingError>)
    ensures
        match framed {
            Ok(length) => spec_frame(input@) == Ok::<int, FramingError>(length as int),
            Err(e) => spec_frame(input@) == Err::<int, FramingError>(e),
        },
{
    let first: usize = match find_line_end(input, 0) {
        Some(e) => e,
        None => {
            return Err(FramingError::UnterminatedHead);
        },
    };
    proof {
        lemma_line_end_found(input@, 0);
    }
    let mut pos: usize = first;
    let mut declared: usize = 0;
    loop
        invariant
            first <= pos <= input.len(),
            spec_line_end(input@, 0) == Some(first as int),
            spec_scan_head(input@, first as int, 0) == spec_scan_head(
                input@,
                pos as int,
                declared as nat,
            ),
        decreases input.len() - pos,
    {
        let end: usize = match find_line_end(input, pos) {
            Some(e) => e,
            None => {
                return Err(FramingError::UnterminatedHead);
            },
        };
        proof {
            lemma_line_end_found(input@, pos as int);
        }
        let line: &[u8] = vstd::slice::slice_subrange(input, pos, end);
        if is_blank_line(line) {
            return if declared <= input.len() - end {
                Ok(end + declared)
            } else {
                Err(FramingError::TruncatedBody)
            };
        }
        match content_length_of(line) {
            Err(e) => {
                return Err(e);
            },
            Ok(Some(n)) => {
                declared = n;
            },
            Ok(None) => {},
        }
        pos = end;
    }
}

/// A line that is complete stays the same line when more input follows.
pub proof fn lemma_line_end_extend(s: Seq<u8>, more: Seq<u8>, from: int)
    requires
        spec_line_end(s, from) is Some,
    ensures
        spec_line_end(s + more, from) == spec_line_end(s, from),
        (s + more).subrange(from, spec_line_end(s, from)->0) == s.subrange(
            from,
            spec_line_end(s, from)->0,
        ),
    decreases s.len() - from,
{
    lemma_line_end_found(s, from);
    let end = spec_line_end(s, from)->0;
    assert((s + more)[from] == s[from]);
    if s[from] != LF {
        lemma_line_end_extend(s, more, from + 1);
    }
    assert((s + more).subrange(from, end) =~= s.subrange(from, end));
}

/// Reading header lines of a longer input goes on where the reading of
/// the shorter one stopped: a head that was closed or invalid stays so,
/// and an open one is resumed at its first incomplete line.
pub proof fn lemma_scan_head_extend(s: Seq<u8>, more: Seq<u8>, pos: int, declared: nat)
    requires
        0 <= pos,
    ensures
        match spec_scan_head(s, pos, declared) {
            HeadScan::Open { resume, declared: so_far } => spec_scan_head(s + more, pos, declared)
                == spec_scan_head(s + more, resume, so_far) && pos <= resume
                && spec_line_end(s, resume) is None,
            closed_or_invalid => spec_scan_head(s + more, pos, declared) == closed_or_invalid,
        },
    decreases s.len() - pos,
{
    match spec_line_end(s, pos) {
        None => {},
        Some(end) => {
            lemma_line_end_found(s, pos);
            lemma_line_end_extend(s, more, pos);
            let line = s.subrange(pos, end);
            if line != spec_blank_line() {
                match spec_content_length_of(line) {
                    Err(_) => {},
                    Ok(Some(n)) => {
                        lemma_scan_head_extend(s, more, end, n as nat);
                    },
                    Ok(None) => {
                        lemma_scan_head_extend(s, more, end, declared);
                    },
                }
            }
        },
    }
}

/// A closed head ends within the input, after the start line.
pub proof fn lemma_scan_head_closed(s: Seq<u8>, pos: int, declared: nat)
    requires
        0 <= pos,
        spec_scan_head(s, pos, declared) is Closed,
    ensures
        pos < spec_scan_head(s, pos, declared)->end <= s.len(),
    decreases s.len() - pos,
{
    lemma_line_end_found(s, pos);
    let end = spec_line_end(s, pos)->0;
    let line = s.subrange(pos, end);
    if line != spec_blank_line() {
        match spec_content_length_of(line) {
            Err(_) => {},
            Ok(Some(n)) => {
                lemma_scan_head_closed(s, end, n as nat);
            },
            Ok(None) => {
                lemma_scan_head_closed(s, end, declared);
            },
        }
    }
}

/// The head of a message is read the same whatever follows it: a head
/// that was closed or invalid stays so when more input follows.
pub proof fn lemma_head_extend(s: Seq<u8>, more: Seq<u8>)
    requires
        !(spec_head(s) is Open),
    ensures
        spec_head(s + more) == spec_head(s),
{
    let first = spec_line_end(s, 0)->0;
    lemma_line_end_extend(s, more, 0);
    lemma_line_end_found(s, 0);
    lemma_scan_head_extend(s, more, first, 0);
}

/// Framing is exact: when `head` is a complete head that declares as many
/// bytes as `body` holds, the message framed out of `head`, `body` and
/// anything that follows is `head` and `body`, whatever bytes the body
/// and the rest hold.
pub proof fn lemma_frame_exact(head: Seq<u8>, body: Seq<u8>, rest: Seq<u8>)
    requires
        spec_head(head) == (HeadScan::Closed { end: head.len() as int, declared: body.len() }),
    ensures
        spec_frame(head + body + rest) == Ok::<int, FramingError>((head.len() + body.len()) as int),
        (head + body + rest).take((head.len() + body.len()) as int) == head + body,
{
    assert(head + body + rest =~= head + (body + rest));
    lemma_head_extend(head, body + rest);
    assert((head + body + rest).take((head.len() + body.len()) as int) =~= head + body);
}

/// A body shorter than declared is a truncated message: when `head` is a
/// complete head that declares more bytes than `body` holds, framing
/// `head` and `body` fails with `TruncatedBody`.
pub proof fn lemma_frame_truncated(head: Seq<u8>, declared: nat, body: Seq<u8>)
    requires
        spec_head(head) == (HeadScan::Closed { end: head.len() as int, declared }),
        body.len() < declared,
    ensures
        spec_frame(head + body) == Err::<int, FramingError>(FramingError::TruncatedBody),
{
    lemma_head_extend(head, body);
}

/// What follows a message has no part in framing it; neither has it in
/// the rejection of a `Content-Length` value.
pub proof fn lemma_frame_ignores_rest(s: Seq<u8>, rest: Seq<u8>)
    requires
        spec_frame(s) is Ok || spec_frame(s) == Err::<int, FramingError>(
            FramingError::InvalidContentLength,
        ),
    ensures
        spec_frame(s + rest) == spec_frame(s),
{
    lemma_head_extend(s, rest);
}

/// A framed message lies within the input, and is itself one whole
/// message.
pub proof fn lemma_frame_is_message(s: Seq<u8>)
    requires
        spec_frame(s) is Ok,
    ensures
        0 < spec_frame(s)->Ok_0 <= s.len(),
        spec_frame(s.take(spec_frame(s)->Ok_0)) == spec_frame(s),
{
    let length = spec_frame(s)->Ok_0;
    let first = spec_line_end(s, 0)->0;
    lemma_line_end_found(s, 0);
    lemma_scan_head_closed(s, first, 0);
    let end = spec_head(s)->end;
    lemma_head_prefix(s, end);
    let message = s.take(length);
    assert(message =~= s.take(end) + s.subrange(end, length));
    lemma_head_extend(s.take(end), s.subrange(end, length));
}

/// A closed head is read from its own bytes alone.
pub proof fn lemma_head_prefix(s: Seq<u8>, end: int)
    requires
        spec_head(s) is Closed,
        spec_head(s)->end == end,
    ensures
        0 < end <= s.len(),
        spec_head(s.take(end)) == spec_head(s),
{
    let first = spec_line_end(s, 0)->0;
    lemma_line_end_found(s, 0);
    lemma_scan_head_closed(s, first, 0);
    lemma_line_end_prefix(s, 0, end);
    lemma_scan_head_prefix(s, first, 0, end);
}

/// A line that ends by `upto` is the same line in the first `upto` bytes.
pub proof fn lemma_line_end_prefix(s: Seq<u8>, from: int, upto: int)
    requires
        spec_line_end(s, from) is Some,
        spec_line_end(s, from)->0 <= upto <= s.len(),
    ensures
        spec_line_end(s.take(upto), from) == spec_line_end(s, from),
        s.take(upto).subrange(from, spec_line_end(s, from)->0) == s.subrange(
            from,
            spec_line_end(s, from)->0,
        ),
    decreases s.len() - from,
{
    lemma_line_end_found(s, from);
    let end = spec_line_end(s, from)->0;
    assert(s.take(upto)[from] == s[from]);
    if s[from] != LF {
        lemma_line_end_prefix(s, from + 1, upto);
    }
    assert(s.take(upto).subrange(from, end) =~= s.subrange(from, end));
}

/// Header lines that close by `upto` are read the same in the first
/// `upto` bytes.
pub proof fn lemma_scan_head_prefix(s: Seq<u8>, pos: int, declared: nat, upto: int)
    requires
        0 <= pos,
        spec_scan_head(s, pos, declared) is Closed,
        spec_scan_head(s, pos, declared)->end <= upto <= s.len(),
    ensures
        spec_scan_head(s.take(upto), pos, declared) == spec_scan_head(s, pos, declared),
    decreases s.len() - pos,
{
    lemma_line_end_found(s, pos);
    let end = spec_line_end(s, pos)->0;
    let line = s.subrange(pos, end);
    if line == spec_blank_line() {
        lemma_line_end_prefix(s, pos, upto);
    } else {
        match spec_content_length_of(line) {
            Err(_) => {},
            Ok(Some(n)) => {
                lemma_scan_head_closed(s, end, n as nat);
                lemma_line_end_prefix(s, pos, upto);
                lemma_scan_head_prefix(s, end, n as nat, upto);
            },
            Ok(None) => {
                lemma_scan_head_closed(s, end, declared);
                lemma_line_end_prefix(s, pos, upto);
                lemma_scan_head_prefix(s, end, declared, upto);
            },
        }
    }
}

} // verus!
