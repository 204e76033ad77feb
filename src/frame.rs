//! Length-prefixed frames: `Content-Length: <N>` line, separator line, `N` body bytes.

use vstd::prelude::*;

verus! {

/// Byte value of the line feed that ends every line.
pub const LF: u8 = 10;

/// Byte value of a carriage return.
pub const CR: u8 = 13;

/// The bytes of `Content-Length: ` (name, colon and one space).
pub open spec fn header_prefix() -> Seq<u8> {
    seq![67u8, 111u8, 110u8, 116u8, 101u8, 110u8, 116u8, 45u8, 76u8, 101u8, 110u8, 103u8, 116u8, 104u8, 58u8, 32u8]
}

pub open spec fn is_digit(b: u8) -> bool {
    48 <= b <= 57
}

pub open spec fn all_digits(s: Seq<u8>) -> bool {
    forall|i: int| 0 <= i < s.len() ==> is_digit(#[trigger] s[i])
}

/// Value of a string of ASCII decimal digits, most significant first.
pub open spec fn digits_value(s: Seq<u8>) -> nat
    decreases s.len(),
{
    if s.len() == 0 {
        0
    } else {
        digits_value(s.drop_last()) * 10 + (s.last() - 48) as nat
    }
}

/// Index of the first line feed at or after `i`.
pub open spec fn newline_from(s: Seq<u8>, i: int) -> Option<int>
    decreases s.len() - i,
{
    if i < 0 || i >= s.len() {
        None
    } else if s[i] == LF {
        Some(i)
    } else {
        newline_from(s, i + 1)
    }
}

/// The digits of a header line: what stands between the prefix and the
/// terminator (`\r\n` or `\n`).
pub open spec fn header_digits(line: Seq<u8>) -> Seq<u8> {
    if line.len() >= 2 && line[line.len() - 2] == CR {
        line.subrange(16, line.len() - 2)
    } else {
        line.subrange(16, line.len() - 1)
    }
}

/// A header line, terminator included, that announces a body length which
/// fits in a `usize`.
pub open spec fn valid_header(line: Seq<u8>) -> bool {
    &&& line.len() >= 18
    &&& line.subrange(0, 16) == header_prefix()
    &&& line.last() == LF
    &&& header_digits(line).len() > 0
    &&& all_digits(header_digits(line))
    &&& digits_value(header_digits(line)) <= usize::MAX
}

/// The body length announced by a header line.
pub open spec fn content_length(line: Seq<u8>) -> nat {
    digits_value(header_digits(line))
}

/// The buffer starts with a complete first line that is not a valid header.
pub open spec fn bad_header(s: Seq<u8>) -> bool {
    match newline_from(s, 0) {
        Some(h) => !valid_header(s.take(h + 1)),
        None => false,
    }
}

/// Where the body of the frame at the start of `s` begins and where the frame
/// ends, once all of it is in `s`.
pub open spec fn frame_extent(s: Seq<u8>) -> Option<(int, int)> {
    match newline_from(s, 0) {
        Some(h) => if !valid_header(s.take(h + 1)) {
            None
        } else {
            match newline_from(s, h + 1) {
                Some(p) => {
                    let end = p + 1 + content_length(s.take(h + 1));
                    if end <= s.len() {
                        Some((p + 1, end))
                    } else {
                        None
                    }
                },
                None => None,
            }
        },
        None => None,
    }
}

/// One frame as read from a stream: its raw bytes (header line, separator
/// line and body, exactly as read) and its body alone.
pub struct Frame {
    pub raw: Vec<u8>,
    pub body: Vec<u8>,
}

/// Why a stream of frames cannot be read on.
#[derive(Debug, Clone, Copy, PartialEq, Eq, Structural)]
pub enum FrameError {
    /// The first line of a frame is not `Content-Length: <N>`.
    BadHeader,
    /// The stream ended in the middle of a frame.
    Truncated,
    /// The body is not valid UTF-8.
    InvalidEncoding,
}

/// Finds the first line feed at or after `start`.
fn find_newline(s: &[u8], start: usize) -> (r: Option<usize>)
    ensures
        match r {
            Some(i) => newline_from(s@, start as int) == Some(i as int),
            None => newline_from(s@, start as int) is None,
        },
{
    let mut i: usize = start;
    while i < s.len()
        invariant
            start <= i,
            newline_from(s@, start as int) == newline_from(s@, i as int),
        decreases s.len() - i,
    {
        if s[i] == LF {
            return Some(i);
        }
        i = i + 1;
    }
    None
}


/// The bytes of `Content-Length: `.
fn header_prefix_bytes() -> (r: Vec<u8>)
    ensures
        r@ == header_prefix(),
{
    let r: Vec<u8> = vec![67u8, 111u8, 110u8, 116u8, 101u8, 110u8, 116u8, 45u8, 76u8, 101u8, 110u8, 103u8, 116u8, 104u8, 58u8, 32u8];
    assert(r@ =~= header_prefix());
    r
}

proof fn lemma_digits_prefix_le(s: Seq<u8>, k: int)
    requires
        0 <= k <= s.len(),
        all_digits(s),
    ensures
        digits_value(s.take(k)) <= digits_value(s),
    decreases s.len() - k,
{
    if k < s.len() {
        lemma_digits_prefix_le(s, k + 1);
        assert(s.take(k + 1).drop_last() =~= s.take(k));
    } else {
        assert(s.take(k) =~= s);
    }
}

/// Reads the body length from the header line `s[0..=h]`, whose last byte is
/// the line feed at `h`.
fn parse_content_length(s: &[u8], h: usize) -> (r: Option<usize>)
    requires
        h < s@.len(),
        s@[h as int] == LF,
    ensures
        match r {
            Some(n) => valid_header(s@.take(h + 1)) && n as nat == content_length(s@.take(h + 1)),
            None => !valid_header(s@.take(h + 1)),
        },
{
    let ghost line = s@.take(h + 1);
    if h < 17 {
        return None;
    }
    let prefix = header_prefix_bytes();
    let mut i: usize = 0;
    while i < 16
        invariant
            i <= 16,
            16 < h < s@.len(),
            prefix@ == header_prefix(),
            line == s@.take(h + 1),
            forall|j: int| 0 <= j < i ==> s@[j] == header_prefix()[j],
        decreases 16 - i,
    {
        if s[i] != prefix[i] {
            assert(line.subrange(0, 16)[i as int] == s@[i as int]);
            assert(line.subrange(0, 16) != header_prefix());
            return None;
        }
        i = i + 1;
    }
    assert(line.subrange(0, 16) =~= header_prefix());
    let end: usize = if s[h - 1] == CR { h - 1 } else { h };
    let ghost digits = s@.subrange(16, end as int);
    assert(line.len() == h + 1);
    assert(line[h - 1] == s@[h - 1]);
    assert(line.last() == LF);
    assert(header_digits(line) =~= digits);
    if end <= 16 {
        return None;
    }
    let mut value: usize = 0;
    let mut k: usize = 16;
    while k < end
        invariant
            16 <= k <= end <= h < s@.len(),
            digits == s@.subrange(16, end as int),
            line == s@.take(h + 1),
            line.len() >= 18,
            line.subrange(0, 16) == header_prefix(),
            line.last() == LF,
            header_digits(line) == digits,
            all_digits(digits.take(k - 16)),
            value as nat == digits_value(digits.take(k - 16)),
        decreases end - k,
    {
        let b = s[k];
        if b < 48 || b > 57 {
            assert(digits[k - 16] == b);
            return None;
        }
        let d: usize = (b - 48) as usize;
        assert(digits.take(k - 16 + 1).drop_last() =~= digits.take(k - 16));
        if value > (usize::MAX - d) / 10 {
            proof {
                assert(digits_value(digits.take(k - 16 + 1)) > usize::MAX) by (nonlinear_arith)
                    requires
                        value > (usize::MAX - d) / 10,
                        digits_value(digits.take(k - 16 + 1)) == value * 10 + d,
                ;
                if all_digits(digits) {
                    lemma_digits_prefix_le(digits, k - 16 + 1);
                }
            }
            return None;
        }
        assert(value * 10 + d <= usize::MAX) by (nonlinear_arith)
            requires
                value <= (usize::MAX - d) / 10,
                d <= 9,
        ;
        value = value * 10 + d;
        k = k + 1;
    }
    assert(digits.take(k - 16) =~= digits);
    Some(value)
}


/// Where the body of a frame starts, for a buffer that starts with a whole frame.
pub open spec fn body_start(s: Seq<u8>) -> int {
    frame_extent(s)->Some_0.0
}

/// Where the frame at the start of a buffer ends.
pub open spec fn frame_end(s: Seq<u8>) -> int {
    frame_extent(s)->Some_0.1
}

/// The body of a frame, given its raw bytes.
pub open spec fn frame_body(raw: Seq<u8>) -> Seq<u8> {
    raw.subrange(body_start(raw), raw.len() as int)
}

/// The raw bytes are exactly one frame.
pub open spec fn well_formed_frame(raw: Seq<u8>) -> bool {
    frame_extent(raw) is Some && frame_end(raw) == raw.len()
}

/// Cuts a buffer into the whole frames at its start: the frames' raw bytes in
/// order, what is left after them, and whether what is left starts with a
/// line that is not a valid header.
pub open spec fn split_stream(s: Seq<u8>) -> (Seq<Seq<u8>>, Seq<u8>, bool)
    decreases s.len(),
{
    if bad_header(s) {
        (seq![], s, true)
    } else {
        match frame_extent(s) {
            Some(x) => if 0 < x.1 <= s.len() {
                let t = split_stream(s.skip(x.1));
                (seq![s.take(x.1)] + t.0, t.1, t.2)
            } else {
                (seq![], s, false)
            },
            None => (seq![], s, false),
        }
    }
}

/// The byte sequences one after the other.
pub open spec fn flatten(fs: Seq<Seq<u8>>) -> Seq<u8>
    decreases fs.len(),
{
    if fs.len() == 0 {
        seq![]
    } else {
        fs[0] + flatten(fs.skip(1))
    }
}

proof fn lemma_newline_prefix(s: Seq<u8>, u: Seq<u8>, i: int, k: int)
    requires
        0 <= i,
        newline_from(s, i) == Some(k),
        k < u.len(),
        u.take(k + 1) == s.take(k + 1),
    ensures
        newline_from(u, i) == Some(k),
    decreases k - i,
{
    lemma_newline_bounds(s, i);
    if i < k {
        assert(s[i] != LF);
        assert(u[i] == u.take(k + 1)[i]);
        assert(s[i] == s.take(k + 1)[i]);
        lemma_newline_prefix(s, u, i + 1, k);
    } else {
        assert(u[k] == u.take(k + 1)[k]);
        assert(s[k] == s.take(k + 1)[k]);
    }
}

proof fn lemma_newline_bounds(s: Seq<u8>, i: int)
    requires
        0 <= i,
        newline_from(s, i) is Some,
    ensures
        i <= newline_from(s, i)->Some_0 < s.len(),
        s[newline_from(s, i)->Some_0] == LF,
    decreases s.len() - i,
{
    if s[i] != LF {
        lemma_newline_bounds(s, i + 1);
    }
}

/// The frame at the start of a buffer is found the same way in any buffer
/// that agrees with it up to the frame's end.
proof fn lemma_extent_prefix(s: Seq<u8>, u: Seq<u8>)
    requires
        frame_extent(s) is Some,
        frame_end(s) <= u.len(),
        u.take(frame_end(s)) == s.take(frame_end(s)),
    ensures
        frame_extent(u) == frame_extent(s),
        !bad_header(u),
        !bad_header(s),
        0 < body_start(s) <= frame_end(s) <= s.len(),
{
    let h = newline_from(s, 0)->Some_0;
    lemma_newline_bounds(s, 0);
    let p = newline_from(s, h + 1)->Some_0;
    lemma_newline_bounds(s, h + 1);
    let e = frame_end(s);
    assert(u.take(h + 1) =~= u.take(e).take(h + 1));
    assert(s.take(h + 1) =~= s.take(e).take(h + 1));
    lemma_newline_prefix(s, u, 0, h);
    assert(u.take(p + 1) =~= u.take(e).take(p + 1));
    assert(s.take(p + 1) =~= s.take(e).take(p + 1));
    lemma_newline_prefix(s, u, h + 1, p);
}

/// What is forwarded is what was read: the frames cut from a buffer, followed
/// by what is left, give back the buffer byte for byte.
pub proof fn lemma_split_restores(s: Seq<u8>)
    ensures
        flatten(split_stream(s).0) + split_stream(s).1 == s,
    decreases s.len(),
{
    if !bad_header(s) {
        match frame_extent(s) {
            Some(x) => if 0 < x.1 <= s.len() {
                let t = split_stream(s.skip(x.1));
                lemma_split_restores(s.skip(x.1));
                let fs = seq![s.take(x.1)] + t.0;
                assert(fs.skip(1) =~= t.0);
                assert(s.take(x.1) + s.skip(x.1) =~= s);
                assert(flatten(fs) + t.1 =~= s.take(x.1) + (flatten(t.0) + t.1));
            },
            None => {},
        }
    }
}

/// Byte-exact passthrough: a stream made of well-formed frames is cut into
/// exactly those frames, in order, with nothing left over and no error.
pub proof fn lemma_frames_round_trip(fs: Seq<Seq<u8>>)
    requires
        forall|i: int| 0 <= i < fs.len() ==> well_formed_frame(#[trigger] fs[i]),
    ensures
        split_stream(flatten(fs)) == (fs, Seq::<u8>::empty(), false),
    decreases fs.len(),
{
    let s = flatten(fs);
    if fs.len() == 0 {
        assert(newline_from(s, 0) is None);
        assert(frame_extent(s) is None);
    } else {
        let f = fs[0];
        let tail = flatten(fs.skip(1));
        assert(s == f + tail);
        let e = frame_end(f);
        assert(s.take(e) =~= f.take(e));
        lemma_extent_prefix(f, s);
        assert(forall|i: int| 0 <= i < fs.skip(1).len() ==> fs.skip(1)[i] == fs[i + 1]);
        lemma_frames_round_trip(fs.skip(1));
        assert(s.skip(e) =~= tail);
        assert(s.take(e) =~= f);
        assert(seq![f] + fs.skip(1) =~= fs);
    }
}


/// Frames do not depend on how the bytes arrive: cutting `s`, then cutting
/// what was left followed by `t`, gives the same frames, remainder and error
/// as cutting `s + t` at once (as long as `s` held no bad header).
pub proof fn lemma_split_append(s: Seq<u8>, t: Seq<u8>)
    requires
        !split_stream(s).2,
    ensures
        split_stream(s + t) == (
            split_stream(s).0 + split_stream(split_stream(s).1 + t).0,
            split_stream(split_stream(s).1 + t).1,
            split_stream(split_stream(s).1 + t).2,
        ),
    decreases s.len(),
{
    match frame_extent(s) {
        Some(x) => {
            let e = x.1;
            lemma_extent_prefix(s, s);
            assert((s + t).take(e) =~= s.take(e));
            lemma_extent_prefix(s, s + t);
            assert((s + t).skip(e) =~= s.skip(e) + t);
            lemma_split_append(s.skip(e), t);
            let a = split_stream(s.skip(e));
            let b = split_stream(a.1 + t);
            assert(seq![s.take(e)] + (a.0 + b.0) =~= (seq![s.take(e)] + a.0) + b.0);
        },
        None => {
            assert(Seq::<Seq<u8>>::empty() + split_stream(s + t).0 =~= split_stream(s + t).0);
        },
    }
}

/// A prefix of a stream of well-formed frames never shows a bad header.
proof fn lemma_prefix_no_bad(fs: Seq<Seq<u8>>, k: int)
    requires
        forall|i: int| 0 <= i < fs.len() ==> well_formed_frame(#[trigger] fs[i]),
        0 <= k <= flatten(fs).len(),
    ensures
        !split_stream(flatten(fs).take(k)).2,
    decreases fs.len(),
{
    let s = flatten(fs);
    let u = s.take(k);
    if fs.len() == 0 {
        assert(newline_from(u, 0) is None);
    } else {
        let f = fs[0];
        let tail = flatten(fs.skip(1));
        assert(s == f + tail);
        let e = f.len() as int;
        lemma_extent_prefix(f, f);
        if k >= e {
            assert(u.take(e) =~= f.take(e));
            lemma_extent_prefix(f, u);
            assert(forall|i: int| 0 <= i < fs.skip(1).len() ==> fs.skip(1)[i] == fs[i + 1]);
            lemma_prefix_no_bad(fs.skip(1), k - e);
            assert(u.skip(e) =~= tail.take(k - e));
        } else {
            assert(u =~= f.take(k));
            match newline_from(u, 0) {
                Some(h) => {
                    lemma_newline_bounds(u, 0);
                    assert(f.take(h + 1) =~= u.take(h + 1));
                    lemma_newline_prefix(u, f, 0, h);
                    match frame_extent(u) {
                        Some(x) => {
                            lemma_extent_prefix(u, u);
                            assert(f.take(x.1) =~= u.take(x.1));
                            lemma_extent_prefix(u, f);
                        },
                        None => {},
                    }
                },
                None => {},
            }
        }
    }
}

/// Byte-exact passthrough however the bytes arrive: when a stream of
/// well-formed frames is read in two pieces, cut at any point, the frames
/// handed out after the first piece and then after the second are exactly
/// the frames of the stream, in order, with nothing left over and no error.
pub proof fn lemma_frames_any_chunking(fs: Seq<Seq<u8>>, k: int)
    requires
        forall|i: int| 0 <= i < fs.len() ==> well_formed_frame(#[trigger] fs[i]),
        0 <= k <= flatten(fs).len(),
    ensures
        ({
            let s = flatten(fs);
            let first = split_stream(s.take(k));
            let second = split_stream(first.1 + s.skip(k));
            &&& !first.2
            &&& first.0 + second.0 == fs
            &&& second.1 == Seq::<u8>::empty()
            &&& !second.2
        }),
{
    let s = flatten(fs);
    lemma_prefix_no_bad(fs, k);
    lemma_split_append(s.take(k), s.skip(k));
    assert(s.take(k) + s.skip(k) =~= s);
    lemma_frames_round_trip(fs);
}

/// Copies `s[from..to]`.
fn copy_range(s: &[u8], from: usize, to: usize) -> (r: Vec<u8>)
    requires
        from <= to <= s@.len(),
    ensures
        r@ == s@.subrange(from as int, to as int),
{
    let mut r: Vec<u8> = Vec::new();
    let mut i: usize = from;
    while i < to
        invariant
            from <= i <= to <= s@.len(),
            r@ == s@.subrange(from as int, i as int),
        decreases to - i,
    {
        r.push(s[i]);
        i = i + 1;
        assert(r@ =~= s@.subrange(from as int, i as int));
    }
    r
}

/// Reads the frame at the start of `s`: `Ok(Some(frame))` once all of it is
/// there, `Ok(None)` while more bytes are needed, and `Err(BadHeader)` as soon
/// as the first line is complete and is not a valid header.
pub fn scan_frame(s: &[u8]) -> (r: Result<Option<Frame>, FrameError>)
    ensures
        match r {
            Err(e) => e == FrameError::BadHeader && bad_header(s@),
            Ok(None) => !bad_header(s@) && frame_extent(s@) is None,
            Ok(Some(f)) => {
                &&& frame_extent(s@) is Some
                &&& 0 < frame_end(s@)
                &&& f.raw@ == s@.take(frame_end(s@))
                &&& f.body@ == s@.subrange(body_start(s@), frame_end(s@))
            },
        },
{
    let len = s.len();
    let h = match find_newline(s, 0) {
        Some(h) => h,
        None => return Ok(None),
    };
    proof {
        lemma_newline_bounds(s@, 0);
    }
    let n = match parse_content_length(s, h) {
        Some(n) => n,
        None => return Err(FrameError::BadHeader),
    };
    let p = match find_newline(s, h + 1) {
        Some(p) => p,
        None => return Ok(None),
    };
    proof {
        lemma_newline_bounds(s@, h + 1);
    }
    if n > s.len() - (p + 1) {
        return Ok(None);
    }
    let end: usize = p + 1 + n;
    let raw = copy_range(s, 0, end);
    let body = copy_range(s, p + 1, end);
    Ok(Some(Frame { raw, body }))
}

/// The bytes that one direction has read and not yet handed on as frames.
pub struct FramePump {
    pending: Vec<u8>,
}

/// What one call of [`FramePump::feed`] yields: the whole frames, in the
/// order they were read, and the error that stops the direction, if any.
pub struct PumpOutput {
    pub frames: Vec<Frame>,
    pub error: Option<FrameError>,
}

/// The raw bytes of each frame.
pub open spec fn raws_of(frames: Seq<Frame>) -> Seq<Seq<u8>> {
    frames.map_values(|f: Frame| f.raw@)
}

impl View for FramePump {
    type V = Seq<u8>;

    closed spec fn view(&self) -> Seq<u8> {
        self.pending@
    }
}

impl FramePump {
    /// A pump that has read nothing yet.
    pub fn new() -> (r: FramePump)
        ensures
            r@ == Seq::<u8>::empty(),
    {
        FramePump { pending: Vec::new() }
    }

    /// Takes the next bytes read from the source and hands out every frame
    /// that is now whole. The frames' raw bytes, then the bytes kept, are the
    /// bytes held before followed by `chunk`.
    pub fn feed(&mut self, chunk: &[u8]) -> (out: PumpOutput)
        ensures
            raws_of(out.frames@) == split_stream(old(self)@ + chunk@).0,
            final(self)@ == split_stream(old(self)@ + chunk@).1,
            flatten(raws_of(out.frames@)) + final(self)@ == old(self)@ + chunk@,
            out.error == (if split_stream(old(self)@ + chunk@).2 {
                Some(FrameError::BadHeader)
            } else {
                None
            }),
            forall|i: int|
                0 <= i < out.frames@.len() ==> #[trigger] out.frames@[i].body@ == frame_body(
                    out.frames@[i].raw@,
                ),
    {
        let ghost input = self.pending@ + chunk@;
        proof {
            lemma_split_restores(input);
        }
        let mut buf: Vec<u8> = Vec::new();
        std::mem::swap(&mut buf, &mut self.pending);
        let mut i: usize = 0;
        while i < chunk.len()
            invariant
                i <= chunk@.len(),
                input == old(self)@ + chunk@,
                buf@ == old(self)@ + chunk@.take(i as int),
            decreases chunk@.len() - i,
        {
            buf.push(chunk[i]);
            i = i + 1;
            assert(buf@ =~= old(self)@ + chunk@.take(i as int));
        }
        assert(chunk@.take(i as int) =~= chunk@);
        let mut frames: Vec<Frame> = Vec::new();
        assert(raws_of(frames@) + split_stream(buf@).0 =~= split_stream(buf@).0);
        loop
            invariant
                input == old(self)@ + chunk@,
                flatten(split_stream(input).0) + split_stream(input).1 == input,
                split_stream(input).0 == raws_of(frames@) + split_stream(buf@).0,
                split_stream(input).1 == split_stream(buf@).1,
                split_stream(input).2 == split_stream(buf@).2,
                forall|i: int|
                    0 <= i < frames@.len() ==> #[trigger] frames@[i].body@ == frame_body(
                        frames@[i].raw@,
                    ),
            decreases buf@.len(),
        {
            match scan_frame(buf.as_slice()) {
                Err(e) => {
                    assert(split_stream(buf@).0 =~= Seq::<Seq<u8>>::empty());
                    assert(raws_of(frames@) + Seq::<Seq<u8>>::empty() =~= raws_of(frames@));
                    self.pending = buf;
                    return PumpOutput { frames, error: Some(e) };
                },
                Ok(None) => {
                    assert(raws_of(frames@) + Seq::<Seq<u8>>::empty() =~= raws_of(frames@));
                    self.pending = buf;
                    return PumpOutput { frames, error: None };
                },
                Ok(Some(f)) => {
                    let ghost old_buf = buf@;
                    let ghost old_frames = frames@;
                    let e = f.raw.len();
                    proof {
                        assert(e as int == frame_end(old_buf));
                        assert(old_buf.take(e as int).take(e as int) =~= old_buf.take(e as int));
                        lemma_extent_prefix(old_buf, old_buf.take(e as int));
                        assert(f.body@ =~= frame_body(f.raw@));
                        assert(old_buf.take(e as int).take(e as int) =~= old_buf.take(e as int));
                    }
                    let rest = copy_range(buf.as_slice(), e, buf.len());
                    frames.push(f);
                    buf = rest;
                    proof {
                        assert(forall|i: int| 0 <= i < old_frames.len() ==> frames@[i] == old_frames[i]);
                        assert(buf@ =~= old_buf.skip(e as int));
                        assert(raws_of(frames@) =~= raws_of(old_frames) + seq![old_buf.take(e as int)]);
                        assert(raws_of(frames@) + split_stream(buf@).0 =~= raws_of(old_frames) + (
                        seq![old_buf.take(e as int)] + split_stream(buf@).0));
                    }
                },
            }
        }
    }

    /// The source has closed: `Some(Truncated)` when it closed in the middle
    /// of a frame, `None` when it closed between frames.
    pub fn finish(&self) -> (r: Option<FrameError>)
        ensures
            r == (if self@.len() == 0 {
                None
            } else {
                Some(FrameError::Truncated)
            }),
    {
        if self.pending.len() == 0 {
            None
        } else {
            Some(FrameError::Truncated)
        }
    }
}

} // verus!
