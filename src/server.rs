use vstd::prelude::*;
use vstd::slice::{slice_subrange, slice_to_vec};
use vstd::utf8::{valid_utf8, decode_utf8};
use crate::error::{Fail, FailKind};
use crate::utils::{first_match, is_first_match, lemma_first_match_unique, occurs_at, scan};
use crate::fields::chars_equal;
use crate::text::{
    char_index, chars_of, find_char, lemma_char_index, lines, lines_of, lower, lower_of,
    parse_usize, parse_usize_chars, trim, trim_chars, utf8_string, views_of,
};

verus! {

pub const DEFAULT_MAX_HEADER_SIZE: usize = 8192;

pub const DEFAULT_MAX_BODY_SIZE: usize = 8192 * 1024;

pub const DEFAULT_BUFFER_SIZE: usize = 8192;

pub const DEFAULT_READ_ATTEMPTS: usize = 3;

/// Limits and read sizes shared by every connection.
#[derive(Clone, Copy, Debug)]
pub struct HttpSettings {
    /// Largest accepted header block, in bytes.
    pub max_header_size: usize,
    /// Largest accepted body, in bytes.
    pub max_body_size: usize,
    /// Size of each read while framing the header block.
    pub header_buffer: usize,
    /// Largest size of each read of the body.
    pub body_buffer: usize,
    /// Short header reads tolerated before giving up.
    pub header_read_attempts: usize,
    /// Short body reads tolerated before giving up.
    pub body_read_attempts: usize,
}

impl HttpSettings {
    /// Every limit and buffer size is positive.
    pub open spec fn wf(&self) -> bool {
        &&& self.max_header_size > 0
        &&& self.max_body_size > 0
        &&& self.header_buffer > 0
        &&& self.body_buffer > 0
        &&& self.header_read_attempts > 0
        &&& self.body_read_attempts > 0
    }

    /// The default settings: 8 KiB of header, 8 MiB of body, 8 KiB reads and
    /// three attempts each.
    pub fn new() -> (r: Self)
        ensures
            r.wf(),
            r.max_header_size == 8192,
            r.max_body_size == 8192 * 1024,
            r.header_buffer == 8192,
            r.body_buffer == 8192,
            r.header_read_attempts == 3,
            r.body_read_attempts == 3,
    {
        HttpSettings {
            max_header_size: DEFAULT_MAX_HEADER_SIZE,
            max_body_size: DEFAULT_MAX_BODY_SIZE,
            header_buffer: DEFAULT_BUFFER_SIZE,
            body_buffer: DEFAULT_BUFFER_SIZE,
            header_read_attempts: DEFAULT_READ_ATTEMPTS,
            body_read_attempts: DEFAULT_READ_ATTEMPTS,
        }
    }
}

/// The four bytes `\r\n\r\n` that close a header block.
pub open spec fn terminator() -> Seq<u8> {
    seq![13u8, 10u8, 13u8, 10u8]
}

/// `s` holds no `\r\n\r\n`.
pub open spec fn no_terminator(s: Seq<u8>) -> bool {
    forall|j: int| !occurs_at(s, terminator(), j)
}

/// Where the search for the terminator resumes in a header of length `n`: a
/// terminator that a new chunk completes starts in the last three bytes.
pub open spec fn resume_at(n: int) -> int {
    if n >= 3 {
        n - 3
    } else {
        0
    }
}

/// What the caller must do next while the header block is framed.
#[derive(Debug)]
pub enum HeadStep {
    /// Read up to this many bytes and hand them to `on_chunk`.
    ReadChunk(usize),
    /// The header block is complete: call `finish`.
    Complete,
    /// Framing failed.
    Failed(Fail),
}

#[derive(Clone, Copy, Debug, PartialEq, Eq, Structural)]
pub enum HeadPhase {
    AwaitChunk,
    Done,
    Stopped,
}

/// Finds where a connection's header block ends, across reads of any size.
pub struct HeadReader {
    settings: HttpSettings,
    header: Vec<u8>,
    body: Vec<u8>,
    read_fails: usize,
    phase: HeadPhase,
    received: Ghost<Seq<u8>>,
}

impl HeadReader {
    pub closed spec fn settings(&self) -> HttpSettings {
        self.settings
    }

    /// The header bytes accumulated so far.
    pub closed spec fn header_bytes(&self) -> Seq<u8> {
        self.header@
    }

    /// Bytes read past the terminator.
    pub closed spec fn leftover(&self) -> Seq<u8> {
        self.body@
    }

    pub closed spec fn read_failures(&self) -> int {
        self.read_fails as int
    }

    pub closed spec fn phase(&self) -> HeadPhase {
        self.phase
    }

    /// Every byte handed to the reader, in order.
    pub closed spec fn received(&self) -> Seq<u8> {
        self.received@
    }

    pub closed spec fn wf(&self) -> bool {
        &&& self.settings.wf()
        &&& self.read_fails <= self.settings.header_read_attempts
        &&& self.header@.len() <= self.settings.max_header_size
        &&& (self.phase == HeadPhase::AwaitChunk ==> {
            &&& self.received@ == self.header@
            &&& self.body@.len() == 0
            &&& no_terminator(self.header@)
        })
        &&& (self.phase == HeadPhase::Done ==> {
            &&& self.received@ == self.header@ + self.body@
            &&& self.header@.len() >= 4
            &&& is_first_match(self.received@, terminator(), self.header@.len() - 4)
        })
    }

    pub open spec fn is_complete(&self) -> bool {
        self.phase() == HeadPhase::Done
    }

    /// The step after a read of `length` bytes that did not end the header block:
    /// a short read counts against the attempts.
    pub open spec fn next_after(&self, length: int) -> (HeadStep, int) {
        if length < self.settings().header_buffer {
            if self.read_failures() >= self.settings().header_read_attempts {
                (HeadStep::Failed(Fail { kind: FailKind::HeaderReadFailed }), self.read_failures())
            } else {
                (HeadStep::ReadChunk(self.settings().header_buffer), self.read_failures() + 1)
            }
        } else {
            (HeadStep::ReadChunk(self.settings().header_buffer), self.read_failures())
        }
    }

    /// A fresh reader, and its first step: read a chunk.
    pub fn new(settings: HttpSettings) -> (r: (HeadReader, HeadStep))
        requires
            settings.wf(),
        ensures
            r.0.wf(),
            r.0.settings() == settings,
            r.0.phase() == HeadPhase::AwaitChunk,
            r.0.received() == Seq::<u8>::empty(),
            r.0.header_bytes() == Seq::<u8>::empty(),
            r.0.read_failures() == 0,
            r.1 == HeadStep::ReadChunk(settings.header_buffer),
    {
        let reader = HeadReader {
            settings,
            header: Vec::new(),
            body: Vec::new(),
            read_fails: 0,
            phase: HeadPhase::AwaitChunk,
            received: Ghost(Seq::empty()),
        };
        assert(reader.received@ =~= reader.header@);
        (reader, HeadStep::ReadChunk(settings.header_buffer))
    }

    /// Takes in the bytes of one read. The header block ends exactly at the
    /// first `\r\n\r\n` of all bytes received, wherever the reads split them.
    pub fn on_chunk(&mut self, chunk: &[u8]) -> (r: HeadStep)
        requires
            old(self).wf(),
            old(self).phase() == HeadPhase::AwaitChunk,
            chunk@.len() <= old(self).settings().header_buffer,
        ensures
            final(self).wf(),
            final(self).settings() == old(self).settings(),
            final(self).received() == old(self).received() + chunk@,
            old(self).header_bytes().len() + chunk@.len() > old(self).settings().max_header_size
                ==> r == HeadStep::Failed(Fail { kind: FailKind::HeaderTooLarge })
                && final(self).phase() == HeadPhase::Stopped,
            old(self).header_bytes().len() + chunk@.len() <= old(self).settings().max_header_size
                ==> {
                let all = old(self).header_bytes() + chunk@;
                match first_match(all, terminator()) {
                    Some(p) => {
                        &&& r == HeadStep::Complete
                        &&& final(self).is_complete()
                        &&& final(self).header_bytes() == all.take(p + 4)
                        &&& final(self).leftover() == all.skip(p + 4)
                    },
                    None => {
                        &&& final(self).header_bytes() == all
                        &&& (r, final(self).read_failures()) == old(self).next_after(
                            chunk@.len() as int,
                        )
                        &&& final(self).phase() == if r is Failed {
                            HeadPhase::Stopped
                        } else {
                            HeadPhase::AwaitChunk
                        }
                    },
                }
            },
    {
        let ghost h = self.header@;
        self.received = Ghost(self.received@ + chunk@);
        let length = chunk.len();
        let max = self.settings.max_header_size;
        if self.header.len() > max || length > max - self.header.len() {
            self.phase = HeadPhase::Stopped;
            return HeadStep::Failed(Fail::new(FailKind::HeaderTooLarge));
        }
        let n = self.header.len();
        let start: usize = if n >= 3 {
            n - 3
        } else {
            0
        };
        let mut window = slice_to_vec(slice_subrange(self.header.as_slice(), start, n));
        append_bytes(&mut window, chunk);
        let term: [u8; 4] = [13u8, 10u8, 13u8, 10u8];
        assert(term@ =~= terminator());
        let found = scan(window.as_slice(), &term);
        proof {
            assert(window@ =~= h.skip(start as int) + chunk@);
            lemma_resume(h, chunk@);
        }
        match found {
            Some(q) => {
                let p = start + q;
                let k = p + 4 - n;
                proof {
                    lemma_first_match_unique(h + chunk@, terminator(), p as int);
                }
                let head = slice_subrange(chunk, 0, k);
                let rest = slice_subrange(chunk, k, length);
                append_bytes(&mut self.header, head);
                append_bytes(&mut self.body, rest);
                self.phase = HeadPhase::Done;
                proof {
                    let all = h + chunk@;
                    assert(self.header@ =~= all.take(p + 4));
                    assert(self.body@ =~= all.skip(p + 4));
                    assert(self.received@ =~= self.header@ + self.body@);
                }
                HeadStep::Complete
            },
            None => {
                append_bytes(&mut self.header, chunk);
                if length < self.settings.header_buffer {
                    if self.read_fails >= self.settings.header_read_attempts {
                        self.phase = HeadPhase::Stopped;
                        return HeadStep::Failed(Fail::new(FailKind::HeaderReadFailed));
                    }
                    self.read_fails = self.read_fails + 1;
                }
                HeadStep::ReadChunk(self.settings.header_buffer)
            },
        }
    }

    /// Decodes the complete header block as text and hands it over with the
    /// bytes read past it.
    pub fn finish(self) -> (r: Result<(String, Vec<u8>), Fail>)
        requires
            self.wf(),
            self.is_complete(),
        ensures
            r is Ok <==> valid_utf8(self.header_bytes()),
            r matches Ok((text, body)) ==> text@ == decode_utf8(self.header_bytes())
                && body@ == self.leftover(),
            r matches Err(e) ==> e.kind == FailKind::InvalidHeaderEncoding,
    {
        let HeadReader { header, body, .. } = self;
        match utf8_string(header) {
            Some(text) => Ok((text, body)),
            None => Err(Fail::new(FailKind::InvalidHeaderEncoding)),
        }
    }
}

/// A header without a terminator followed by a chunk holds a terminator
/// exactly where the header's last three bytes followed by the chunk do, and
/// every such terminator ends inside the chunk.
proof fn lemma_resume(h: Seq<u8>, c: Seq<u8>)
    requires
        no_terminator(h),
    ensures
        forall|j: int|
            occurs_at(h + c, terminator(), j) <==> (j >= resume_at(h.len() as int) && occurs_at(
                h.skip(resume_at(h.len() as int)) + c,
                terminator(),
                j - resume_at(h.len() as int),
            )),
        forall|j: int| occurs_at(h + c, terminator(), j) ==> j + 4 > h.len(),
{
    let start = resume_at(h.len() as int);
    let w = h.skip(start) + c;
    let all = h + c;
    assert forall|j: int|
        occurs_at(all, terminator(), j) <==> (j >= start && occurs_at(
            w,
            terminator(),
            j - start,
        )) by {
        if 0 <= j && j + 4 <= all.len() {
            if j >= start {
                assert(all.subrange(j, j + 4) =~= w.subrange(j - start, j - start + 4));
            } else if occurs_at(all, terminator(), j) {
                assert(all.subrange(j, j + 4) =~= h.subrange(j, j + 4));
                assert(occurs_at(h, terminator(), j));
            }
        }
        if j >= start && 0 <= j - start && j - start + 4 <= w.len() {
            assert(all.subrange(j, j + 4) =~= w.subrange(j - start, j - start + 4));
        }
    }
    assert forall|j: int| occurs_at(all, terminator(), j) implies j + 4 > h.len() by {
        if j + 4 <= h.len() {
            assert(all.subrange(j, j + 4) =~= h.subrange(j, j + 4));
            assert(occurs_at(h, terminator(), j));
        }
    }
}

/// The declared body length: the value of the last header line whose trimmed,
/// lower-cased name is `content-length`, read as a decimal number after
/// trimming; 0 where there is none or it cannot be read.
pub open spec fn content_length_in(ls: Seq<Seq<char>>) -> usize
    decreases ls.len(),
{
    if ls.len() == 0 {
        0
    } else {
        let l = ls.last();
        let k = char_index(l, ':');
        if k < l.len() && lower_of(trim(l.take(k as int))) == "content-length"@ {
            match parse_usize(trim(l.skip(k + 1 as int))) {
                Some(n) => n,
                None => 0,
            }
        } else {
            content_length_in(ls.drop_last())
        }
    }
}

/// Finds the declared body length in a header block.
pub fn get_content_length(head: &str) -> (r: usize)
    ensures
        r == content_length_in(lines(head@)),
{
    let text = chars_of(head);
    let ls = lines_of(text.as_slice());
    let ghost all = views_of(ls@);
    let name = chars_of("content-length");
    let mut size: usize = 0;
    let mut i: usize = 0;
    assert(all.take(0) =~= Seq::<Seq<char>>::empty());
    while i < ls.len()
        invariant
            all == views_of(ls@),
            all == lines(head@),
            name@ == "content-length"@,
            i <= ls@.len(),
            size == content_length_in(all.take(i as int)),
        decreases ls@.len() - i,
    {
        let line = ls[i].as_slice();
        assert(all.take(i + 1).drop_last() =~= all.take(i as int));
        assert(all.take(i + 1).last() == line@);
        let k = find_char(line, ':');
        proof {
            lemma_char_index(line@, ':');
        }
        if k < line.len() {
            let key_part = slice_subrange(line, 0, k);
            assert(key_part@ =~= line@.take(k as int));
            let key = lower(trim_chars(key_part).as_slice());
            if chars_equal(key.as_slice(), name.as_slice()) {
                let value_part = slice_subrange(line, k + 1, line.len());
                assert(value_part@ =~= line@.skip(k + 1 as int));
                let value = trim_chars(value_part);
                size = match parse_usize_chars(value.as_slice()) {
                    Some(n) => n,
                    None => 0,
                };
            }
        }
        i += 1;
    }
    assert(all.take(ls@.len() as int) =~= all);
    size
}

/// What the caller must do next while the body is read.
#[derive(Debug)]
pub enum BodyStep {
    /// Read up to this many bytes and hand them to `on_read`.
    Read(usize),
    /// The body holds the declared length.
    Complete,
    /// Reading failed.
    Failed(Fail),
}

/// The size of the next body read: what is missing, at most one buffer.
pub open spec fn next_request(settings: HttpSettings, content_len: int, body_len: int) -> int {
    if content_len - body_len > settings.body_buffer {
        settings.body_buffer as int
    } else {
        content_len - body_len
    }
}

/// Reads a body of a declared length, starting from the bytes the header
/// framer read past the terminator.
pub struct BodyReader {
    settings: HttpSettings,
    content_len: usize,
    body: Vec<u8>,
    requested: usize,
    read_fails: usize,
    start: Ghost<Seq<u8>>,
    received: Ghost<Seq<u8>>,
}

impl BodyReader {
    pub closed spec fn settings(&self) -> HttpSettings {
        self.settings
    }

    pub closed spec fn content_length(&self) -> int {
        self.content_len as int
    }

    pub closed spec fn body_bytes(&self) -> Seq<u8> {
        self.body@
    }

    /// The bytes the reader started from.
    pub closed spec fn leftover(&self) -> Seq<u8> {
        self.start@
    }

    /// Every byte handed to `on_read`, in order.
    pub closed spec fn received(&self) -> Seq<u8> {
        self.received@
    }

    /// The size of the read last asked for.
    pub closed spec fn requested(&self) -> int {
        self.requested as int
    }

    pub closed spec fn read_failures(&self) -> int {
        self.read_fails as int
    }

    pub closed spec fn wf(&self) -> bool {
        &&& self.settings.wf()
        &&& self.content_len <= self.settings.max_body_size
        &&& self.body@ == self.start@ + self.received@
        &&& self.read_fails <= self.settings.body_read_attempts
        &&& (self.start@.len() <= self.content_len ==> self.body@.len() <= self.content_len)
        &&& (self.body@.len() < self.content_len ==> self.requested == next_request(
            self.settings,
            self.content_len as int,
            self.body@.len() as int,
        ))
    }

    pub open spec fn is_complete(&self) -> bool {
        self.body_bytes().len() >= self.content_length()
    }

    /// Checks the declared length against the limit before anything is read.
    pub fn start(settings: HttpSettings, content_len: usize, leftover: Vec<u8>) -> (r: Result<
        (BodyReader, BodyStep),
        Fail,
    >)
        requires
            settings.wf(),
        ensures
            r is Err <==> content_len > settings.max_body_size,
            r matches Err(e) ==> e.kind == FailKind::BodyTooLarge,
            r matches Ok((reader, step)) ==> {
                &&& reader.wf()
                &&& reader.settings() == settings
                &&& reader.content_length() == content_len
                &&& reader.body_bytes() == leftover@
                &&& reader.leftover() == leftover@
                &&& reader.received() == Seq::<u8>::empty()
                &&& reader.read_failures() == 0
                &&& step == if leftover@.len() >= content_len {
                    BodyStep::Complete
                } else {
                    BodyStep::Read(next_request(settings, content_len as int, leftover@.len() as int) as usize)
                }
            },
    {
        if content_len > settings.max_body_size {
            return Err(Fail::new(FailKind::BodyTooLarge));
        }
        let have = leftover.len();
        let requested = if have < content_len {
            if content_len - have > settings.body_buffer {
                settings.body_buffer
            } else {
                content_len - have
            }
        } else {
            0
        };
        let reader = BodyReader {
            settings,
            content_len,
            body: leftover,
            requested,
            read_fails: 0,
            start: Ghost(leftover@),
            received: Ghost(Seq::empty()),
        };
        assert(reader.body@ =~= reader.start@ + reader.received@);
        let step = if have >= content_len {
            BodyStep::Complete
        } else {
            BodyStep::Read(requested)
        };
        Ok((reader, step))
    }

    /// Takes in the bytes of one read.
    pub fn on_read(&mut self, chunk: &[u8]) -> (r: BodyStep)
        requires
            old(self).wf(),
            !old(self).is_complete(),
            chunk@.len() <= old(self).requested(),
        ensures
            final(self).wf(),
            final(self).settings() == old(self).settings(),
            final(self).content_length() == old(self).content_length(),
            final(self).leftover() == old(self).leftover(),
            final(self).received() == old(self).received() + chunk@,
            final(self).body_bytes() == old(self).body_bytes() + chunk@,
            ({
                let short = chunk@.len() < old(self).requested();
                if short && old(self).read_failures() >= old(self).settings().body_read_attempts {
                    r == BodyStep::Failed(Fail { kind: FailKind::BodyReadFailed })
                } else {
                    &&& final(self).read_failures() == if short {
                        old(self).read_failures() + 1
                    } else {
                        old(self).read_failures()
                    }
                    &&& r == if final(self).is_complete() {
                        BodyStep::Complete
                    } else {
                        BodyStep::Read(
                            next_request(
                                final(self).settings(),
                                final(self).content_length(),
                                final(self).body_bytes().len() as int,
                            ) as usize,
                        )
                    }
                }
            }),
    {
        let length = chunk.len();
        append_bytes(&mut self.body, chunk);
        self.received = Ghost(self.received@ + chunk@);
        assert(self.body@ =~= self.start@ + self.received@);
        let have = self.body.len();
        let content_len = self.content_len;
        let requested = if have < content_len {
            if content_len - have > self.settings.body_buffer {
                self.settings.body_buffer
            } else {
                content_len - have
            }
        } else {
            0
        };
        let short = length < self.requested;
        self.requested = requested;
        if short {
            if self.read_fails >= self.settings.body_read_attempts {
                return BodyStep::Failed(Fail::new(FailKind::BodyReadFailed));
            }
            self.read_fails = self.read_fails + 1;
        }
        if have >= content_len {
            BodyStep::Complete
        } else {
            BodyStep::Read(requested)
        }
    }

    pub fn into_body(self) -> (r: Vec<u8>)
        ensures
            r@ == self.body_bytes(),
    {
        self.body
    }
}

/// However the bytes of a connection were split into reads, the header block
/// ends exactly at the first `\r\n\r\n` of the bytes received: while a reader
/// still awaits a chunk, nothing it received holds the terminator; once
/// complete, the header block is everything up to and including the first
/// terminator, and the leftover is everything after it.
pub proof fn lemma_framing_exact(head: HeadReader)
    requires
        head.wf(),
    ensures
        head.phase() == HeadPhase::AwaitChunk ==> first_match(head.received(), terminator())
            is None,
        head.is_complete() ==> ({
            let p = head.header_bytes().len() - 4;
            &&& first_match(head.received(), terminator()) == Some(p)
            &&& head.header_bytes() == head.received().take(p + 4)
            &&& head.leftover() == head.received().skip(p + 4)
        }),
{
    if head.is_complete() {
        let p = head.header_bytes().len() - 4;
        lemma_first_match_unique(head.received(), terminator(), p);
        assert(head.header_bytes() =~= head.received().take(p + 4));
        assert(head.leftover() =~= head.received().skip(p + 4));
    }
    if head.phase() == HeadPhase::AwaitChunk {
        if first_match(head.received(), terminator()) is Some {
            let i = choose|i: int| is_first_match(head.received(), terminator(), i);
            assert(occurs_at(head.header_bytes(), terminator(), i));
        }
    }
}

/// Header and body together: once both are complete and the leftover is no
/// longer than the declared length, the header block ends at the first
/// `\r\n\r\n`, the body holds exactly the declared number of bytes, and header
/// and body are exactly the bytes received, in order.
pub proof fn lemma_request_exact(head: HeadReader, body: BodyReader)
    requires
        head.wf(),
        head.is_complete(),
        body.wf(),
        body.is_complete(),
        body.leftover() == head.leftover(),
        head.leftover().len() <= body.content_length(),
    ensures
        first_match(head.received(), terminator()) == Some(head.header_bytes().len() - 4),
        body.body_bytes().len() == body.content_length(),
        head.header_bytes() + body.body_bytes() == head.received() + body.received(),
{
    lemma_framing_exact(head);
    assert(head.header_bytes() + body.body_bytes() =~= head.received() + body.received());
}

/// Resource limits hold in every reachable state: the header block never
/// exceeds the header limit, and a body reader exists only for a declared length within the body
/// limit, its body never growing past that length.
pub proof fn lemma_limits(head: HeadReader, body: BodyReader)
    requires
        head.wf(),
        body.wf(),
    ensures
        head.header_bytes().len() <= head.settings().max_header_size,
        body.content_length() <= body.settings().max_body_size,
        body.leftover().len() <= body.content_length() ==> body.body_bytes().len()
            <= body.content_length(),
{
}

/// However the body arrives in reads: once a reader that started from at most
/// the declared length is complete, its body is exactly the declared length,
/// the leftover followed by the bytes the reads delivered.
pub proof fn lemma_body_exact(body: BodyReader)
    requires
        body.wf(),
        body.is_complete(),
        body.leftover().len() <= body.content_length(),
    ensures
        body.body_bytes().len() == body.content_length(),
        body.body_bytes() == body.leftover() + body.received(),
        body.received().len() == body.content_length() - body.leftover().len(),
{
}

/// Appends the bytes of `s` to `v`.
pub fn append_bytes(v: &mut Vec<u8>, s: &[u8])
    ensures
        final(v)@ == old(v)@ + s@,
{
    let mut k: usize = 0;
    while k < s.len()
        invariant
            k <= s@.len(),
            v@ == old(v)@ + s@.take(k as int),
        decreases s@.len() - k,
    {
        v.push(s[k]);
        assert(s@.take(k + 1) =~= s@.take(k as int).push(s@[k as int]));
        k += 1;
    }
    assert(s@.take(s@.len() as int) =~= s@);
}

} // verus!
