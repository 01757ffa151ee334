use crate::decimal::{int_text, number_line, push_digits, push_int, read_number};
use bytes::BytesMut;
use vstd::prelude::*;
use vstd::slice::{slice_subrange, slice_to_vec};
use vstd::utf8::{decode_utf8, encode_utf8, valid_utf8};

verus! {

/// The deepest nesting of arrays that the decoder accepts: an array whose
/// nesting level reaches this bound is rejected as invalid, which keeps the
/// decoder's recursion bounded on adversarial input.
pub const MAX_DEPTH: usize = 64;

/// One value of the wire format.
#[derive(Debug, PartialEq)]
pub enum Frame {
    Simple(String),
    Error(String),
    Integer(i64),
    Bulk(Option<Vec<u8>>),
    Array(Option<Vec<Frame>>),
}

/// Why a buffer could not be decoded.
#[derive(Debug, Clone, Copy, PartialEq, Eq)]
pub enum Error {
    Incomplete,
    Invalid,
}

impl Error {
    /// The human-readable text of the error.
    pub fn message(&self) -> (r: String)
        ensures
            r@ == error_text(*self),
    {
        match self {
            Error::Incomplete => String::from_str("incomplete frame"),
            Error::Invalid => String::from_str("invalid frame format"),
        }
    }
}

pub open spec fn error_text(e: Error) -> Seq<char> {
    match e {
        Error::Incomplete => "incomplete frame"@,
        Error::Invalid => "invalid frame format"@,
    }
}

/// The line terminator.
pub open spec fn crlf() -> Seq<u8> {
    seq![13u8, 10u8]
}

/// The bytes of a frame on the wire.
pub open spec fn encoding(f: Frame) -> Seq<u8>
    decreases f,
{
    match f {
        Frame::Simple(s) => seq![43u8] + encode_utf8(s@) + crlf(),
        Frame::Error(s) => seq![45u8] + encode_utf8(s@) + crlf(),
        Frame::Integer(n) => seq![58u8] + int_text(n as int) + crlf(),
        Frame::Bulk(None) => seq![36u8, 45u8, 49u8] + crlf(),
        Frame::Bulk(Some(d)) => seq![36u8] + int_text(d.len() as int) + crlf() + d@ + crlf(),
        Frame::Array(None) => seq![42u8, 45u8, 49u8] + crlf(),
        Frame::Array(Some(items)) => seq![42u8] + int_text(items.len() as int) + crlf()
            + encoding_all(items@),
    }
}

/// The encodings of `items`, one after another.
pub open spec fn encoding_all(items: Seq<Frame>) -> Seq<u8>
    decreases items,
{
    if items.len() == 0 {
        Seq::empty()
    } else {
        encoding_all(items.subrange(0, items.len() - 1)) + encoding(items[items.len() - 1])
    }
}

/// Whether a terminator starts at index `i` of `s`.
pub open spec fn crlf_at(s: Seq<u8>, i: int) -> bool {
    0 <= i && i + 1 < s.len() && s[i] == 13 && s[i + 1] == 10
}

/// `i` is the first terminator in `s` at or after `from`.
pub open spec fn is_line_end(s: Seq<u8>, from: int, i: int) -> bool {
    from <= i && crlf_at(s, i) && forall|j: int| from <= j < i ==> !crlf_at(s, j)
}

/// The index of the first terminator in `s` at or after `from`, if any.
pub open spec fn line_end(s: Seq<u8>, from: int) -> Option<int> {
    if exists|i: int| is_line_end(s, from, i) {
        Some(choose|i: int| is_line_end(s, from, i))
    } else {
        None
    }
}

/// Names the result of `String::from_utf8_lossy` on bytes that are not UTF-8.
pub uninterp spec fn lossy_text(b: Seq<u8>) -> Seq<char>;

/// The text that a line of bytes is read as: the characters it encodes
/// when it is UTF-8, else its lossy reading.
pub open spec fn text_of(b: Seq<u8>) -> Seq<char> {
    if valid_utf8(b) {
        decode_utf8(b)
    } else {
        lossy_text(b)
    }
}

/// Relies on `String::from_utf8_lossy`: UTF-8 input is decoded as it is;
/// other input is read with replacement characters.
#[verifier::external_body]
pub(crate) fn text_from(b: &[u8]) -> (r: String)
    ensures
        valid_utf8(b@) ==> r@ == decode_utf8(b@),
        !valid_utf8(b@) ==> r@ == lossy_text(b@),
{
    String::from_utf8_lossy(b).into_owned()
}

/// What scanning a buffer from a position finds.
pub enum Scan {
    /// The bytes so far are the start of a frame, not all of it.
    Need,
    /// The bytes cannot start a frame.
    Bad,
    /// A whole frame ends just before this index.
    Done(int),
}

/// Whether `t` is one of the five leading bytes.
pub open spec fn is_kind_byte(t: u8) -> bool {
    t == 43 || t == 45 || t == 58 || t == 36 || t == 42
}

/// Scans one frame of `s` starting at `pos`, at nesting level `depth`.
pub open spec fn scan(s: Seq<u8>, pos: int, depth: int) -> Scan
    decreases s.len() - pos, 0int, 0int,
{
    if pos < 0 || pos >= s.len() {
        Scan::Need
    } else if !is_kind_byte(s[pos]) {
        Scan::Bad
    } else {
        match line_end(s, pos + 1) {
            None => Scan::Need,
            Some(i) => {
                let t = s[pos];
                let body = i + 2;
                if t == 43 || t == 45 {
                    Scan::Done(body)
                } else {
                    match number_line(s.subrange(pos + 1, i)) {
                        None => Scan::Bad,
                        Some(n) => {
                            if t == 58 || n < 0 {
                                Scan::Done(body)
                            } else if t == 36 {
                                if body + n + 2 <= s.len() {
                                    Scan::Done(body + n + 2)
                                } else {
                                    Scan::Need
                                }
                            } else if depth >= MAX_DEPTH {
                                Scan::Bad
                            } else {
                                scan_items(s, body, n as int, depth + 1)
                            }
                        },
                    }
                }
            },
        }
    }
}

/// Scans `count` frames of `s` one after another, from `pos`.
pub open spec fn scan_items(s: Seq<u8>, pos: int, count: int, depth: int) -> Scan
    decreases s.len() - pos, 1int, count,
{
    if count <= 0 {
        Scan::Done(pos)
    } else {
        match scan(s, pos, depth) {
            Scan::Done(e) => {
                if pos < e <= s.len() {
                    scan_items(s, e, count - 1, depth)
                } else {
                    Scan::Bad
                }
            },
            other => other,
        }
    }
}

/// `f` is the frame read from `s` at `pos` (given that a whole frame is there).
pub open spec fn decodes_to(s: Seq<u8>, pos: int, depth: int, f: Frame) -> bool
    decreases f,
{
    match line_end(s, pos + 1) {
        None => false,
        Some(i) => {
            let line = s.subrange(pos + 1, i);
            let body = i + 2;
            let num = number_line(line);
            0 <= pos < s.len() && match f {
                Frame::Simple(t) => s[pos] == 43 && t@ == text_of(line),
                Frame::Error(t) => s[pos] == 45 && t@ == text_of(line),
                Frame::Integer(n) => s[pos] == 58 && number_line(line) == Some(n),
                Frame::Bulk(None) => s[pos] == 36 && num is Some && num->0 < 0,
                Frame::Bulk(Some(d)) => s[pos] == 36 && num is Some && num->0 >= 0 && d@
                    == s.subrange(body, body + num->0),
                Frame::Array(None) => s[pos] == 42 && num is Some && num->0 < 0,
                Frame::Array(Some(items)) => s[pos] == 42 && num is Some && num->0 >= 0
                    && items.len() == num->0 && run_end(s, body, depth + 1, items@) is Some,
            }
        },
    }
}

/// Where the frames `items`, read one after another from `pos`, end; `None`
/// if they are not what `s` holds there.
pub open spec fn run_end(s: Seq<u8>, pos: int, depth: int, items: Seq<Frame>) -> Option<int>
    decreases items,
{
    if items.len() == 0 {
        Some(pos)
    } else {
        match run_end(s, pos, depth, items.subrange(0, items.len() - 1)) {
            Some(p) => {
                if decodes_to(s, p, depth, items[items.len() - 1]) {
                    match scan(s, p, depth) {
                        Scan::Done(e) => Some(e),
                        _ => None,
                    }
                } else {
                    None
                }
            },
            None => None,
        }
    }
}

/// Names what a `BytesMut` buffer holds.
pub uninterp spec fn buffer_bytes(b: BytesMut) -> Seq<u8>;

#[verifier::external_type_specification]
#[verifier::external_body]
pub struct ExBytesMut(BytesMut);

/// Relies on `BytesMut`'s `Deref<Target = [u8]>`: the slice is the buffer's bytes.
#[verifier::external_body]
pub(crate) fn buffer_slice(b: &BytesMut) -> (r: &[u8])
    ensures
        r@ == buffer_bytes(*b),
{
    &b[..]
}

/// Relies on `bytes::Buf::advance` for `BytesMut`: drops the first `n`
/// bytes (it panics past the end, which `requires` rules out).
#[verifier::external_body]
pub(crate) fn buffer_advance(b: &mut BytesMut, n: usize)
    requires
        n <= buffer_bytes(*old(b)).len(),
    ensures
        buffer_bytes(*final(b)) == buffer_bytes(*old(b)).subrange(n as int, buffer_bytes(*old(b)).len() as int),
{
    bytes::Buf::advance(b, n)
}

pub proof fn lemma_line_end_is(s: Seq<u8>, from: int, i: int)
    requires
        is_line_end(s, from, i),
    ensures
        line_end(s, from) == Some(i),
{
    let c = choose|k: int| is_line_end(s, from, k);
    assert(is_line_end(s, from, c));
    if c < i {
        assert(!crlf_at(s, c));
    }
    if i < c {
        assert(!crlf_at(s, i));
    }
}

/// Finds the first terminator at or after `from`.
pub(crate) fn find_line_end(s: &[u8], from: usize) -> (r: Option<usize>)
    requires
        from <= s@.len(),
    ensures
        match r {
            Some(i) => line_end(s@, from as int) == Some(i as int),
            None => line_end(s@, from as int) is None,
        },
{
    let mut j: usize = from;
    while j < s.len() && j + 1 < s.len()
        invariant
            from <= j <= s@.len(),
            forall|k: int| from <= k < j ==> !crlf_at(s@, k),
        decreases s@.len() - j,
    {
        if s[j] == 13 && s[j + 1] == 10 {
            proof {
                assert(is_line_end(s@, from as int, j as int));
                lemma_line_end_is(s@, from as int, j as int);
            }
            return Some(j);
        }
        j = j + 1;
    }
    proof {
        assert forall|k: int| !is_line_end(s@, from as int, k) by {
            if is_line_end(s@, from as int, k) {
                assert(crlf_at(s@, k));
            }
        }
    }
    None
}

/// Appends the terminator to `out`.
fn push_crlf(out: &mut Vec<u8>)
    ensures
        final(out)@ == old(out)@ + crlf(),
{
    out.push(13u8);
    out.push(10u8);
    assert(final(out)@ =~= old(out)@ + crlf());
}

/// Appends a copy of `b` to `out`.
fn push_bytes(out: &mut Vec<u8>, b: &[u8])
    ensures
        final(out)@ == old(out)@ + b@,
{
    let mut v = slice_to_vec(b);
    out.append(&mut v);
}

impl Frame {
    /// The bytes of this frame on the wire.
    pub fn encode(&self) -> (r: Vec<u8>)
        ensures
            r@ == encoding(*self),
        decreases self,
    {
        let mut out: Vec<u8> = Vec::new();
        match self {
            Frame::Simple(s) => {
                out.push(43u8);
                push_bytes(&mut out, s.as_str().as_bytes());
                push_crlf(&mut out);
            },
            Frame::Error(s) => {
                out.push(45u8);
                push_bytes(&mut out, s.as_str().as_bytes());
                push_crlf(&mut out);
            },
            Frame::Integer(n) => {
                out.push(58u8);
                push_int(&mut out, *n);
                push_crlf(&mut out);
            },
            Frame::Bulk(None) => {
                out.push(36u8);
                out.push(45u8);
                out.push(49u8);
                push_crlf(&mut out);
            },
            Frame::Bulk(Some(d)) => {
                out.push(36u8);
                push_digits(&mut out, d.len() as u128);
                push_crlf(&mut out);
                push_bytes(&mut out, d.as_slice());
                push_crlf(&mut out);
            },
            Frame::Array(None) => {
                out.push(42u8);
                out.push(45u8);
                out.push(49u8);
                push_crlf(&mut out);
            },
            Frame::Array(Some(items)) => {
                out.push(42u8);
                push_digits(&mut out, items.len() as u128);
                push_crlf(&mut out);
                let ghost head = out@;
                let mut k: usize = 0;
                while k < items.len()
                    invariant
                        k <= items@.len(),
                        *self == Frame::Array(Some(*items)),
                        out@ == head + encoding_all(items@.subrange(0, k as int)),
                    decreases items@.len() - k,
                {
                    proof {
                        vstd::std_specs::vec::axiom_vec_index_decreases(*items, k as int);
                        assert(decreases_to!(*self => self->Array_0));
                        assert(decreases_to!(self->Array_0 => self->Array_0->Some_0));
                    }
                    let mut e = items[k].encode();
                    out.append(&mut e);
                    proof {
                        let next = items@.subrange(0, k + 1);
                        assert(next.subrange(0, k as int) =~= items@.subrange(0, k as int));
                        assert(next[k as int] == items@[k as int]);
                    }
                    k = k + 1;
                }
                assert(items@.subrange(0, items@.len() as int) =~= items@);
            },
        }
        assert(out@ =~= encoding(*self));
        out
    }
}

/// Reads one frame of `s` at `pos`, at nesting level `depth`, without
/// consuming anything: the frame and the index just past it.
fn read_frame(s: &[u8], pos: usize, depth: usize) -> (r: Result<Option<(Frame, usize)>, Error>)
    requires
        pos <= s@.len(),
        depth <= MAX_DEPTH,
    ensures
        match scan(s@, pos as int, depth as int) {
            Scan::Need => r == Ok::<Option<(Frame, usize)>, Error>(None),
            Scan::Bad => r == Err::<Option<(Frame, usize)>, Error>(Error::Invalid),
            Scan::Done(e) => r is Ok && r->Ok_0 is Some && r->Ok_0->Some_0.1 == e && pos < e
                <= s@.len() && decodes_to(s@, pos as int, depth as int, r->Ok_0->Some_0.0),
        },
    decreases s@.len() - pos, 0int, 0int,
{
    if pos >= s.len() {
        return Ok(None);
    }
    let t = s[pos];
    if !(t == 43 || t == 45 || t == 58 || t == 36 || t == 42) {
        return Err(Error::Invalid);
    }
    let i = match find_line_end(s, pos + 1) {
        Some(i) => i,
        None => return Ok(None),
    };
    proof {
        assert(is_line_end(s@, pos + 1, i as int));
    }
    let line = slice_subrange(s, pos + 1, i);
    let body = i + 2;
    if t == 43 {
        return Ok(Some((Frame::Simple(text_from(line)), body)));
    }
    if t == 45 {
        return Ok(Some((Frame::Error(text_from(line)), body)));
    }
    let n = match read_number(line) {
        Some(n) => n,
        None => return Err(Error::Invalid),
    };
    if t == 58 {
        return Ok(Some((Frame::Integer(n), body)));
    }
    if t == 36 {
        if n < 0 {
            return Ok(Some((Frame::Bulk(None), body)));
        }
        let avail = s.len() - body;
        if (n as i128) + 2 > (avail as i128) {
            return Ok(None);
        }
        let len = n as usize;
        let data = slice_to_vec(slice_subrange(s, body, body + len));
        return Ok(Some((Frame::Bulk(Some(data)), body + len + 2)));
    }
    if n < 0 {
        return Ok(Some((Frame::Array(None), body)));
    }
    if depth >= MAX_DEPTH {
        return Err(Error::Invalid);
    }
    match read_items(s, body, n as u64, depth + 1) {
        Ok(Some((items, e))) => Ok(Some((Frame::Array(Some(items)), e))),
        Ok(None) => Ok(None),
        Err(x) => Err(x),
    }
}

/// Reads `count` frames of `s` one after another, from `pos`.
fn read_items(s: &[u8], pos: usize, count: u64, depth: usize) -> (r: Result<
    Option<(Vec<Frame>, usize)>,
    Error,
>)
    requires
        pos <= s@.len(),
        depth <= MAX_DEPTH,
    ensures
        match scan_items(s@, pos as int, count as int, depth as int) {
            Scan::Need => r == Ok::<Option<(Vec<Frame>, usize)>, Error>(None),
            Scan::Bad => r == Err::<Option<(Vec<Frame>, usize)>, Error>(Error::Invalid),
            Scan::Done(e) => r is Ok && r->Ok_0 is Some && r->Ok_0->Some_0.1 == e && pos <= e
                <= s@.len() && r->Ok_0->Some_0.0@.len() == count && run_end(
                s@,
                pos as int,
                depth as int,
                r->Ok_0->Some_0.0@,
            ) == Some(e),
        },
    decreases s@.len() - pos, 1int, 0int,
{
    let mut items: Vec<Frame> = Vec::new();
    let mut p: usize = pos;
    let mut k: u64 = 0;
    assert(items@ =~= Seq::<Frame>::empty());
    while k < count
        invariant
            pos <= p <= s@.len(),
            k <= count,
            depth <= MAX_DEPTH,
            items@.len() == k,
            run_end(s@, pos as int, depth as int, items@) == Some(p as int),
            scan_items(s@, pos as int, count as int, depth as int) == scan_items(
                s@,
                p as int,
                count - k,
                depth as int,
            ),
        decreases count - k,
    {
        match read_frame(s, p, depth) {
            Ok(Some((f, e))) => {
                let ghost before = items@;
                items.push(f);
                proof {
                    assert(items@.subrange(0, items@.len() - 1) =~= before);
                }
                p = e;
                k = k + 1;
            },
            Ok(None) => return Ok(None),
            Err(x) => return Err(x),
        }
    }
    Ok(Some((items, p)))
}

impl Frame {
    /// Reads the frame at the start of `s` without consuming anything: the
    /// frame and how many bytes it takes, `None` when the bytes so far are
    /// only the start of a frame, or `Invalid`.
    pub fn peek(s: &[u8]) -> (r: Result<Option<(Frame, usize)>, Error>)
        ensures
            match scan(s@, 0, 0) {
                Scan::Need => r == Ok::<Option<(Frame, usize)>, Error>(None),
                Scan::Bad => r == Err::<Option<(Frame, usize)>, Error>(Error::Invalid),
                Scan::Done(e) => r is Ok && r->Ok_0 is Some && r->Ok_0->Some_0.1 == e && 0 < e
                    <= s@.len() && decodes_to(s@, 0, 0, r->Ok_0->Some_0.0),
            },
    {
        read_frame(s, 0, 0)
    }

    /// Decodes the frame at the start of `src`. On success the frame's bytes
    /// are consumed; when more bytes are needed, or the bytes are invalid,
    /// `src` is left as it was.
    pub fn parse(src: &mut BytesMut) -> (r: Result<Option<Frame>, Error>)
        ensures
            match scan(buffer_bytes(*old(src)), 0, 0) {
                Scan::Need => r == Ok::<Option<Frame>, Error>(None) && buffer_bytes(*final(src))
                    == buffer_bytes(*old(src)),
                Scan::Bad => r == Err::<Option<Frame>, Error>(Error::Invalid) && buffer_bytes(
                    *final(src),
                ) == buffer_bytes(*old(src)),
                Scan::Done(e) => r is Ok && r->Ok_0 is Some && decodes_to(
                    buffer_bytes(*old(src)),
                    0,
                    0,
                    r->Ok_0->Some_0,
                ) && buffer_bytes(*final(src)) == buffer_bytes(*old(src)).subrange(
                    e,
                    buffer_bytes(*old(src)).len() as int,
                ),
            },
    {
        let bytes = buffer_slice(src);
        match Frame::peek(bytes) {
            Ok(Some((f, n))) => {
                buffer_advance(src, n);
                Ok(Some(f))
            },
            Ok(None) => Ok(None),
            Err(x) => Err(x),
        }
    }
}

impl Clone for Frame {
    /// A deep copy of the frame.
    fn clone(&self) -> (r: Frame)
        ensures
            encoding(r) == encoding(*self),
        decreases self,
    {
        match self {
            Frame::Simple(s) => Frame::Simple(s.clone()),
            Frame::Error(s) => Frame::Error(s.clone()),
            Frame::Integer(n) => Frame::Integer(*n),
            Frame::Bulk(None) => Frame::Bulk(None),
            Frame::Bulk(Some(d)) => Frame::Bulk(Some(slice_to_vec(d.as_slice()))),
            Frame::Array(None) => Frame::Array(None),
            Frame::Array(Some(items)) => {
                let mut out: Vec<Frame> = Vec::new();
                let mut k: usize = 0;
                while k < items.len()
                    invariant
                        k <= items@.len(),
                        out@.len() == k,
                        *self == Frame::Array(Some(*items)),
                        encoding_all(out@) == encoding_all(items@.subrange(0, k as int)),
                    decreases items@.len() - k,
                {
                    proof {
                        vstd::std_specs::vec::axiom_vec_index_decreases(*items, k as int);
                        assert(decreases_to!(*self => self->Array_0));
                        assert(decreases_to!(self->Array_0 => self->Array_0->Some_0));
                    }
                    let c = items[k].clone();
                    let ghost before = out@;
                    out.push(c);
                    proof {
                        assert(out@.subrange(0, k as int) =~= before);
                        assert(items@.subrange(0, k + 1).subrange(0, k as int) =~= items@.subrange(
                            0,
                            k as int,
                        ));
                    }
                    k = k + 1;
                }
                assert(items@.subrange(0, items@.len() as int) =~= items@);
                Frame::Array(Some(out))
            },
        }
    }
}

} // verus!
