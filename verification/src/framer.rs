//! Framing a message as its bytes arrive.
//!
//! A `Framer` is fed what was read from a stream, in pieces of any size.
//! It takes the bytes of one message and nothing more: from each piece
//! it takes bytes until the message is complete or is found to be
//! invalid, and says how many it took. What it holds is a prefix of the
//! stream, byte for byte.

use vstd::prelude::*;
use crate::framing::{
    content_length_of, is_blank_line, lemma_head_extend, lemma_line_end_extend,
    lemma_line_end_found, lemma_line_end_is, lemma_line_end_missing, lemma_scan_head_extend,
    spec_blank_line, spec_content_length_of, spec_frame, spec_head, spec_line_end,
    spec_scan_head, FramingError, HeadScan, LF,
};

verus! {

/// How far the framing of a message has come.
#[derive(Clone, Copy, Debug, PartialEq, Eq, Structural)]
pub enum Progress {
    /// The message is not complete: more bytes are needed.
    Reading,
    /// The message is complete.
    Complete,
    /// There is no message to be had.
    Failed(FramingError),
}

/// What is known of a message of which the bytes `s` have arrived.
/// While the stream is open, a head that is not closed and a body that
/// is not full mean that more is to come; once it has ended, they are
/// errors. A `Content-Length` that cannot be read is an error at once.
pub open spec fn spec_progress(s: Seq<u8>, ended: bool) -> Progress {
    match spec_frame(s) {
        Ok(_) => Progress::Complete,
        Err(FramingError::InvalidContentLength) => Progress::Failed(
            FramingError::InvalidContentLength,
        ),
        Err(e) => if ended {
            Progress::Failed(e)
        } else {
            Progress::Reading
        },
    }
}

/// Without a line end, a byte that is no line feed adds none.
proof fn lemma_line_goes_on(s: Seq<u8>, from: int, x: u8)
    requires
        0 <= from,
        spec_line_end(s, from) is None,
        x != LF,
    ensures
        spec_line_end(s.push(x), from) is None,
{
    lemma_line_end_missing(s, from);
    if spec_line_end(s.push(x), from) is Some {
        lemma_line_end_found(s.push(x), from);
        let end = spec_line_end(s.push(x), from)->0;
        if end - 1 < s.len() {
            assert(s.push(x)[end - 1] == s[end - 1]);
        }
    }
}

/// A line feed ends the line that was open, and opens an empty one.
proof fn lemma_line_is_closed(s: Seq<u8>, from: int)
    requires
        0 <= from <= s.len(),
        spec_line_end(s, from) is None,
    ensures
        spec_line_end(s.push(LF), from) == Some((s.len() + 1) as int),
        spec_line_end(s.push(LF), (s.len() + 1) as int) is None,
{
    lemma_line_end_missing(s, from);
    assert forall|j: int| from <= j < s.len() implies s.push(LF)[j] != LF by {
        assert(s.push(LF)[j] == s[j]);
    }
    lemma_line_end_is(s.push(LF), from, s.len() as int);
}

/// Where an open head is to be resumed.
proof fn lemma_open_head(s: Seq<u8>)
    requires
        spec_head(s) is Open,
    ensures
        0 <= spec_head(s)->resume <= s.len(),
        spec_line_end(s, spec_head(s)->resume) is None,
        spec_line_end(s, 0) is None ==> spec_head(s) == (HeadScan::Open { resume: 0, declared: 0 }),
        spec_line_end(s, 0) is Some ==> spec_line_end(s, 0)->0 <= spec_head(s)->resume,
{
    if spec_line_end(s, 0) is Some {
        let first = spec_line_end(s, 0)->0;
        lemma_line_end_found(s, 0);
        lemma_scan_head_extend(s, Seq::empty(), first, 0);
        let resume = spec_head(s)->resume;
        if resume > s.len() {
            lemma_open_resume(s, first, 0);
        }
    }
}

/// The line at which reading stopped starts within the input.
proof fn lemma_open_resume(s: Seq<u8>, pos: int, declared: nat)
    requires
        0 <= pos <= s.len(),
        spec_scan_head(s, pos, declared) is Open,
    ensures
        spec_scan_head(s, pos, declared)->resume <= s.len(),
    decreases s.len() - pos,
{
    match spec_line_end(s, pos) {
        None => {},
        Some(end) => {
            lemma_line_end_found(s, pos);
            let line = s.subrange(pos, end);
            if line != spec_blank_line() {
                match spec_content_length_of(line) {
                    Err(_) => {},
                    Ok(Some(n)) => {
                        lemma_open_resume(s, end, n as nat);
                    },
                    Ok(None) => {
                        lemma_open_resume(s, end, declared);
                    },
                }
            }
        },
    }
}

/// What one more byte does to an open head.
proof fn lemma_head_step(s: Seq<u8>, x: u8)
    requires
        spec_head(s) is Open,
    ensures
        ({
            let resume = spec_head(s)->resume;
            let declared = spec_head(s)->Open_declared;
            let t = s.push(x);
            let line = t.subrange(resume, t.len() as int);
            &&& 0 <= resume <= s.len()
            &&& if x != LF {
                spec_head(t) == spec_head(s) && (spec_line_end(t, 0) is Some) == (spec_line_end(
                    s,
                    0,
                ) is Some)
            } else if spec_line_end(s, 0) is None {
                spec_head(t) == (HeadScan::Open { resume: t.len() as int, declared: 0 })
                    && spec_line_end(t, 0) is Some
            } else if line == spec_blank_line() {
                spec_head(t) == (HeadScan::Closed { end: t.len() as int, declared })
            } else {
                spec_line_end(t, 0) is Some && match spec_content_length_of(line) {
                    Err(_) => spec_head(t) == HeadScan::Invalid,
                    Ok(Some(n)) => spec_head(t) == (HeadScan::Open {
                        resume: t.len() as int,
                        declared: n as nat,
                    }),
                    Ok(None) => spec_head(t) == (HeadScan::Open {
                        resume: t.len() as int,
                        declared,
                    }),
                }
            }
        }),
{
    let resume = spec_head(s)->resume;
    let declared = spec_head(s)->Open_declared;
    let t = s.push(x);
    let more = seq![x];
    assert(t =~= s + more);
    lemma_open_head(s);
    let end = t.len() as int;
    if spec_line_end(s, 0) is None {
        if x != LF {
            lemma_line_goes_on(s, 0, x);
        } else {
            lemma_line_is_closed(s, 0);
            assert(spec_scan_head(t, end, 0) == (HeadScan::Open { resume: end, declared: 0 }));
        }
    } else {
        let first = spec_line_end(s, 0)->0;
        lemma_line_end_found(s, 0);
        lemma_line_end_extend(s, more, 0);
        lemma_scan_head_extend(s, more, first, 0);
        assert(spec_head(t) == spec_scan_head(t, resume, declared));
        if x != LF {
            lemma_line_goes_on(s, resume, x);
        } else {
            lemma_line_is_closed(s, resume);
            let line = t.subrange(resume, end);
            if line != spec_blank_line() {
                match spec_content_length_of(line) {
                    Err(_) => {},
                    Ok(Some(n)) => {
                        assert(spec_scan_head(t, end, n as nat) == (HeadScan::Open {
                            resume: end,
                            declared: n as nat,
                        }));
                    },
                    Ok(None) => {
                        assert(spec_scan_head(t, end, declared) == (HeadScan::Open {
                            resume: end,
                            declared,
                        }));
                    },
                }
            }
        }
    }
}

/// The stage that a framer is in.
#[derive(Clone, Copy, PartialEq, Eq, Structural)]
enum Stage {
    Head,
    Body,
    Complete,
    Failed(FramingError),
}

/// The state of a framer: the bytes taken so far and what was read out
/// of them.
struct Scan {
    /// The bytes of the message, as far as they were taken.
    bytes: Vec<u8>,
    stage: Stage,
    /// Whether the start line is complete.
    started: bool,
    /// In the head, where the line that is being read starts; after it,
    /// where the head ends.
    mark: usize,
    /// The body length that the header lines read so far declare.
    declared: usize,
    /// Whether the end of the stream was signalled.
    ended: bool,
}

impl Scan {
    spec fn wf(self) -> bool {
        let b = self.bytes@;
        match self.stage {
            Stage::Head => {
                &&& !self.ended
                &&& spec_head(b) == (HeadScan::Open {
                    resume: self.mark as int,
                    declared: self.declared as nat,
                })
                &&& self.started == (spec_line_end(b, 0) is Some)
            },
            Stage::Body => {
                &&& !self.ended
                &&& spec_head(b) == (HeadScan::Closed {
                    end: self.mark as int,
                    declared: self.declared as nat,
                })
                &&& self.mark <= b.len() < self.mark + self.declared
            },
            Stage::Complete => spec_frame(b) == Ok::<int, FramingError>(b.len() as int),
            Stage::Failed(e) => {
                &&& spec_frame(b) == Err::<int, FramingError>(e)
                &&& e != FramingError::InvalidContentLength ==> self.ended
            },
        }
    }

    spec fn progress(self) -> Progress {
        match self.stage {
            Stage::Head => Progress::Reading,
            Stage::Body => Progress::Reading,
            Stage::Complete => Progress::Complete,
            Stage::Failed(e) => Progress::Failed(e),
        }
    }

    proof fn lemma_progress(self)
        requires
            self.wf(),
        ensures
            self.progress() == spec_progress(self.bytes@, self.ended),
            self.stage is Complete ==> spec_frame(self.bytes@) == Ok::<int, FramingError>(
                self.bytes@.len() as int,
            ),
    {
    }

    fn fresh() -> (scan: Scan)
        ensures
            scan.wf(),
            scan.bytes@ == Seq::<u8>::empty(),
            !scan.ended,
            scan.stage is Head,
    {
        Scan {
            bytes: Vec::new(),
            stage: Stage::Head,
            started: false,
            mark: 0,
            declared: 0,
            ended: false,
        }
    }

    /// Takes one byte of the head.
    fn take_head_byte(&mut self, byte: u8)
        requires
            old(self).wf(),
            old(self).stage is Head,
        ensures
            final(self).wf(),
            final(self).bytes@ == old(self).bytes@.push(byte),
            final(self).ended == old(self).ended,
    {
        proof {
            lemma_head_step(self.bytes@, byte);
        }
        self.bytes.push(byte);
        if byte != LF {
            return ;
        }
        let end: usize = self.bytes.len();
        if !self.started {
            self.started = true;
            self.mark = end;
            return ;
        }
        let line: &[u8] = vstd::slice::slice_subrange(self.bytes.as_slice(), self.mark, end);
        if is_blank_line(line) {
            self.mark = end;
            self.stage = if self.declared == 0 {
                Stage::Complete
            } else {
                Stage::Body
            };
            return ;
        }
        match content_length_of(line) {
            Err(e) => {
                self.stage = Stage::Failed(e);
            },
            Ok(Some(n)) => {
                self.declared = n;
                self.mark = end;
            },
            Ok(None) => {
                self.mark = end;
            },
        }
    }

    /// Takes bytes of the body from `chunk`, from index `from` on, as
    /// far as the body still needs them.
    fn take_body(&mut self, chunk: &[u8], from: usize) -> (taken: usize)
        requires
            old(self).wf(),
            old(self).stage is Body,
            from < chunk@.len(),
        ensures
            final(self).wf(),
            0 < taken <= chunk@.len() - from,
            final(self).bytes@ == old(self).bytes@ + chunk@.subrange(from as int, from + taken),
            final(self).ended == old(self).ended,
            final(self).stage is Body || final(self).stage is Complete,
            final(self).stage is Body ==> from + taken == chunk@.len(),
            forall|k: int|
                0 <= k < taken ==> spec_progress(
                    #[trigger] (old(self).bytes@ + chunk@.subrange(from as int, from + k)),
                    false,
                ) == Progress::Reading,
    {
        let have: usize = self.bytes.len() - self.mark;
        let missing: usize = self.declared - have;
        let offered: usize = chunk.len() - from;
        let taken: usize = if missing < offered {
            missing
        } else {
            offered
        };
        let ghost before = self.bytes@;
        let piece: &[u8] = vstd::slice::slice_subrange(chunk, from, from + taken);
        self.bytes.extend_from_slice(piece);
        proof {
            assert(self.bytes@ =~= before + chunk@.subrange(from as int, from + taken));
            lemma_head_extend(before, chunk@.subrange(from as int, from + taken));
            assert forall|k: int| 0 <= k < taken implies spec_progress(
                #[trigger] (before + chunk@.subrange(from as int, from + k)),
                false,
            ) == Progress::Reading by {
                lemma_head_extend(before, chunk@.subrange(from as int, from + k));
            }
        }
        if taken == missing {
            self.stage = Stage::Complete;
        }
        taken
    }

    /// Takes bytes from `chunk` until the message is complete or found
    /// invalid.
    fn take(&mut self, chunk: &[u8]) -> (taken: usize)
        requires
            old(self).wf(),
        ensures
            final(self).wf(),
            taken <= chunk@.len(),
            final(self).bytes@ == old(self).bytes@ + chunk@.take(taken as int),
            final(self).ended == old(self).ended,
            old(self).progress() != Progress::Reading ==> taken == 0,
            taken < chunk@.len() ==> final(self).progress() != Progress::Reading,
            forall|k: int|
                0 <= k < taken ==> spec_progress(
                    #[trigger] (old(self).bytes@ + chunk@.take(k)),
                    false,
                ) == Progress::Reading,
    {
        let ghost start = self.bytes@;
        let mut taken: usize = 0;
        proof {
            assert(start + chunk@.take(0) =~= start);
        }
        while taken < chunk.len() && (matches!(self.stage, Stage::Head) || matches!(
            self.stage,
            Stage::Body
        ))
            invariant
                self.wf(),
                taken <= chunk@.len(),
                start == old(self).bytes@,
                self.bytes@ == start + chunk@.take(taken as int),
                self.ended == old(self).ended,
                taken == 0 ==> self.stage == old(self).stage,
                taken > 0 ==> old(self).progress() == Progress::Reading,
                forall|k: int|
                    0 <= k < taken ==> spec_progress(
                        #[trigger] (start + chunk@.take(k)),
                        false,
                    ) == Progress::Reading,
            decreases chunk@.len() - taken,
        {
            proof {
                self.lemma_progress();
            }
            let ghost so_far = self.bytes@;
            match self.stage {
                Stage::Head => {
                    self.take_head_byte(chunk[taken]);
                    proof {
                        assert(chunk@.take(taken + 1) =~= chunk@.take(taken as int).push(
                            chunk@[taken as int],
                        ));
                        assert(start + chunk@.take(taken + 1) =~= so_far.push(chunk@[taken as int]));
                    }
                    taken += 1;
                },
                _ => {
                    let more: usize = self.take_body(chunk, taken);
                    proof {
                        assert(start + chunk@.take(taken + more) =~= so_far + chunk@.subrange(
                            taken as int,
                            taken + more,
                        ));
                        assert forall|k: int| 0 <= k < taken + more implies spec_progress(
                            #[trigger] (start + chunk@.take(k)),
                            false,
                        ) == Progress::Reading by {
                            if k >= taken {
                                assert(start + chunk@.take(k) =~= so_far + chunk@.subrange(
                                    taken as int,
                                    taken + (k - taken),
                                ));
                            }
                        }
                    }
                    taken += more;
                },
            }
        }
        taken
    }

    /// Notes that the stream has ended.
    fn end(&mut self)
        requires
            old(self).wf(),
        ensures
            final(self).wf(),
            final(self).bytes@ == old(self).bytes@,
            final(self).ended,
    {
        match self.stage {
            Stage::Head => {
                self.stage = Stage::Failed(FramingError::UnterminatedHead);
            },
            Stage::Body => {
                self.stage = Stage::Failed(FramingError::TruncatedBody);
            },
            _ => {},
        }
        self.ended = true;
    }
}

/// Frames one message out of a stream that arrives in pieces.
pub struct Framer {
    scan: Scan,
}

impl View for Framer {
    type V = Seq<u8>;

    /// The bytes taken so far.
    closed spec fn view(&self) -> Seq<u8> {
        self.scan.bytes@
    }
}

impl Framer {
    #[verifier::type_invariant]
    spec fn scan_matches_bytes(self) -> bool {
        self.scan.wf()
    }

    /// Whether the end of the stream was signalled.
    pub closed spec fn spec_ended(&self) -> bool {
        self.scan.ended
    }

    /// How far the framing has come.
    pub open spec fn spec_status(&self) -> Progress {
        spec_progress(self@, self.spec_ended())
    }

    /// A framer that has taken nothing yet.
    pub fn new() -> (framer: Framer)
        ensures
            framer@ == Seq::<u8>::empty(),
            !framer.spec_ended(),
            framer.spec_status() == Progress::Reading,
    {
        Framer { scan: Scan::fresh() }
    }

    /// Takes from `chunk`, which is what the stream holds next, the
    /// bytes that belong to the message, and returns how many those
    /// are. It takes all of `chunk` while the message needs more, and
    /// stops with the byte that completes the message or that shows it
    /// to be invalid. It takes nothing once the framing has ended.
    pub fn feed(&mut self, chunk: &[u8]) -> (taken: usize)
        ensures
            taken <= chunk@.len(),
            final(self)@ == old(self)@ + chunk@.take(taken as int),
            final(self).spec_ended() == old(self).spec_ended(),
            old(self).spec_status() != Progress::Reading ==> taken == 0,
            taken < chunk@.len() ==> final(self).spec_status() != Progress::Reading,
            forall|k: int|
                0 <= k < taken ==> spec_progress(#[trigger] (old(self)@ + chunk@.take(k)), false)
                    == Progress::Reading,
            final(self).spec_status() == Progress::Complete ==> spec_frame(final(self)@) == Ok::<
                int,
                FramingError,
            >(final(self)@.len() as int),
    {
        proof {
            use_type_invariant(&*self);
            self.scan.lemma_progress();
        }
        let mut scan: Scan = Scan::fresh();
        core::mem::swap(&mut self.scan, &mut scan);
        let taken: usize = scan.take(chunk);
        proof {
            scan.lemma_progress();
        }
        self.scan = scan;
        taken
    }

    /// Signals that the stream has ended. A message that is not complete
    /// by now has failed: with `UnterminatedHead` inside the head, with
    /// `TruncatedBody` inside the body.
    pub fn finish(&mut self)
        ensures
            final(self)@ == old(self)@,
            final(self).spec_ended(),
    {
        proof {
            use_type_invariant(&*self);
        }
        let mut scan: Scan = Scan::fresh();
        core::mem::swap(&mut self.scan, &mut scan);
        scan.end();
        self.scan = scan;
    }

    /// How far the framing has come.
    pub fn status(&self) -> (status: Progress)
        ensures
            status == self.spec_status(),
            status == Progress::Complete ==> spec_frame(self@) == Ok::<int, FramingError>(
                self@.len() as int,
            ),
    {
        proof {
            use_type_invariant(self);
            self.scan.lemma_progress();
        }
        match self.scan.stage {
            Stage::Head => Progress::Reading,
            Stage::Body => Progress::Reading,
            Stage::Complete => Progress::Complete,
            Stage::Failed(e) => Progress::Failed(e),
        }
    }

    /// The bytes taken so far.
    pub fn bytes(&self) -> (bytes: &[u8])
        ensures
            bytes@ == self@,
    {
        self.scan.bytes.as_slice()
    }

    /// Gives up the framer for the bytes that it took.
    pub fn into_bytes(self) -> (bytes: Vec<u8>)
        ensures
            bytes@ == self@,
    {
        self.scan.bytes
    }
}

} // verus!
