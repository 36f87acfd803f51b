//! A framed message taken apart: the start line, the header lines and
//! the body.
//!
//! Nothing is decoded. The parts, put together again, are the bytes that
//! were framed; a header line yields its name and its value where it is
//! parted at its first colon and space.

use vstd::prelude::*;
use vstd::slice::{slice_subrange, slice_to_vec};
use crate::framing::{
    find_line_end, find_separator, frame_message, is_blank_line, lemma_line_end_found,
    spec_blank_line, spec_content_length_of, spec_frame, spec_head, spec_header_name,
    spec_header_value, spec_line_end, spec_scan_head, FramingError, HeadScan,
};

verus! {

/// One message, in its parts.
#[derive(Debug)]
pub struct HttpMessage {
    /// The request line or status line, with its line end.
    pub start_line: Vec<u8>,
    /// The header lines in their order, each with its line end. The
    /// blank line that closes them is not among them.
    pub header_lines: Vec<Vec<u8>>,
    /// The body.
    pub body: Vec<u8>,
}

/// What an `HttpMessage` stands for in contracts.
pub struct MessageView {
    pub start_line: Seq<u8>,
    pub header_lines: Seq<Seq<u8>>,
    pub body: Seq<u8>,
}

impl View for HttpMessage {
    type V = MessageView;

    open spec fn view(&self) -> MessageView {
        MessageView {
            start_line: self.start_line@,
            header_lines: Seq::new(self.header_lines@.len(), |i: int| self.header_lines@[i]@),
            body: self.body@,
        }
    }
}

/// These lines, one after the other.
pub open spec fn spec_concat(lines: Seq<Seq<u8>>) -> Seq<u8>
    decreases lines.len(),
{
    if lines.len() == 0 {
        Seq::empty()
    } else {
        spec_concat(lines.drop_last()) + lines.last()
    }
}

impl MessageView {
    /// The message as it goes over the wire: the start line, the header
    /// lines, the blank line, the body.
    pub open spec fn wire(self) -> Seq<u8> {
        self.start_line + spec_concat(self.header_lines) + spec_blank_line() + self.body
    }
}

/// The lines of `s` from index `pos` up to the blank line, or up to the
/// last complete line when there is no blank line.
pub open spec fn spec_header_lines(s: Seq<u8>, pos: int) -> Seq<Seq<u8>>
    decreases s.len() - pos,
{
    match spec_line_end(s, pos) {
        None => Seq::empty(),
        Some(end) => {
            proof {
                lemma_line_end_found(s, pos);
            }
            if s.subrange(pos, end) == spec_blank_line() {
                Seq::empty()
            } else {
                seq![s.subrange(pos, end)] + spec_header_lines(s, end)
            }
        },
    }
}

/// The parts of the message that `s` starts with, for an `s` that
/// `spec_frame` frames.
pub open spec fn spec_message(s: Seq<u8>) -> MessageView {
    MessageView {
        start_line: s.subrange(0, spec_line_end(s, 0)->0),
        header_lines: spec_header_lines(s, spec_line_end(s, 0)->0),
        body: s.subrange(spec_head(s)->end, spec_frame(s)->Ok_0),
    }
}

/// Adding a line at the end adds its bytes at the end.
proof fn lemma_concat_push(lines: Seq<Seq<u8>>, line: Seq<u8>)
    ensures
        spec_concat(lines.push(line)) == spec_concat(lines) + line,
{
    assert(lines.push(line).drop_last() =~= lines);
}

impl HttpMessage {
    /// Puts the message together again.
    pub fn to_bytes(&self) -> (bytes: Vec<u8>)
        ensures
            bytes@ == self@.wire(),
    {
        let mut bytes: Vec<u8> = Vec::new();
        bytes.extend_from_slice(self.start_line.as_slice());
        let ghost lines = self@.header_lines;
        let mut i: usize = 0;
        proof {
            assert(bytes@ =~= self.start_line@);
            assert(lines.take(0) =~= Seq::<Seq<u8>>::empty());
            assert(bytes@ =~= self.start_line@ + spec_concat(lines.take(0)));
        }
        while i < self.header_lines.len()
            invariant
                i <= self.header_lines@.len(),
                lines == self@.header_lines,
                bytes@ == self.start_line@ + spec_concat(lines.take(i as int)),
            decreases self.header_lines@.len() - i,
        {
            let ghost before = bytes@;
            bytes.extend_from_slice(self.header_lines[i].as_slice());
            proof {
                assert(lines.take(i + 1) =~= lines.take(i as int).push(lines[i as int]));
                lemma_concat_push(lines.take(i as int), lines[i as int]);
                assert(bytes@ =~= before + lines[i as int]);
            }
            i += 1;
        }
        let ghost headed = bytes@;
        bytes.push(13);
        bytes.push(10);
        let ghost closed = bytes@;
        bytes.extend_from_slice(self.body.as_slice());
        proof {
            assert(lines.take(i as int) =~= lines);
            assert(closed =~= headed + spec_blank_line());
            assert(bytes@ =~= closed + self.body@);
        }
        bytes
    }
}

/// Parts a header line into its name and its value: what stands before
/// its first colon and space, and what follows them. A line that has
/// none is all name.
pub fn split_header(line: &[u8]) -> (parts: (&[u8], &[u8]))
    ensures
        parts.0@ == spec_header_name(line@),
        parts.1@ == spec_header_value(line@),
{
    match find_separator(line) {
        Some(at) => (slice_subrange(line, 0, at), slice_subrange(line, at + 2, line.len())),
        None => {
            proof {
                assert(line@.subrange(0, line@.len() as int) =~= line@);
            }
            (slice_subrange(line, 0, line.len()), slice_subrange(line, 0, 0))
        },
    }
}

/// Frames the first message in `input`, taking `input` for the whole
/// stream, and takes it apart. What follows the message is left out.
pub fn split_message(input: &[u8]) -> (split: Result<HttpMessage, FramingError>)
    ensures
        match split {
            Ok(message) => spec_frame(input@) is Ok && message@ == spec_message(input@)
                && message@.wire() == input@.take(spec_frame(input@)->Ok_0),
            Err(e) => spec_frame(input@) == Err::<int, FramingError>(e),
        },
{
    let length: usize = match frame_message(input) {
        Ok(n) => n,
        Err(e) => {
            return Err(e);
        },
    };
    let ghost s = input@;
    let first: usize = match find_line_end(input, 0) {
        Some(e) => e,
        None => {
            return Err(FramingError::UnterminatedHead);
        },
    };
    proof {
        lemma_line_end_found(s, 0);
    }
    let mut header_lines: Vec<Vec<u8>> = Vec::new();
    let mut pos: usize = first;
    let ghost mut declared: nat = 0;
    let ghost mut lines: Seq<Seq<u8>> = Seq::empty();
    proof {
        assert(s.subrange(first as int, first as int) =~= spec_concat(lines));
    }
    loop
        invariant
            s == input@,
            spec_frame(s) == Ok::<int, FramingError>(length as int),
            spec_line_end(s, 0) == Some(first as int),
            first <= pos <= s.len(),
            spec_scan_head(s, pos as int, declared) == spec_head(s),
            lines == Seq::new(header_lines@.len(), |i: int| header_lines@[i]@),
            lines + spec_header_lines(s, pos as int) == spec_header_lines(s, first as int),
            spec_concat(lines) == s.subrange(first as int, pos as int),
        decreases s.len() - pos,
    {
        let end: usize = match find_line_end(input, pos) {
            Some(e) => e,
            None => {
                return Err(FramingError::UnterminatedHead);
            },
        };
        proof {
            lemma_line_end_found(s, pos as int);
        }
        let line: &[u8] = slice_subrange(input, pos, end);
        if is_blank_line(line) {
            let message = HttpMessage {
                start_line: slice_to_vec(slice_subrange(input, 0, first)),
                header_lines,
                body: slice_to_vec(slice_subrange(input, end, length)),
            };
            proof {
                assert(lines + Seq::<Seq<u8>>::empty() =~= lines);
                assert(message@.header_lines =~= lines);
                assert(message@.wire() =~= s.take(length as int));
            }
            return Ok(message);
        }
        proof {
            declared =
            match spec_content_length_of(line@) {
                Ok(Some(n)) => n as nat,
                _ => declared,
            };
            lemma_concat_push(lines, line@);
            assert(spec_concat(lines.push(line@)) =~= s.subrange(first as int, end as int));
            assert(lines.push(line@) + spec_header_lines(s, end as int) =~= lines + (seq![line@]
                + spec_header_lines(s, end as int)));
            lines = lines.push(line@);
        }
        header_lines.push(slice_to_vec(line));
        proof {
            assert(lines =~= Seq::new(header_lines@.len(), |i: int| header_lines@[i]@));
        }
        pos = end;
    }
}

} // verus!
