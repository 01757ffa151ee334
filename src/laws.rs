use crate::decimal::{digits_of, int_text, is_digit, lemma_digits_of, lemma_read_int_text};
use crate::frame::{
    crlf, crlf_at, decodes_to, encoding, encoding_all, is_line_end, lemma_line_end_is, line_end,
    run_end, scan, scan_items, text_of, Frame, Scan, MAX_DEPTH,
};
use vstd::prelude::*;
use vstd::utf8::{encode_utf8, encode_utf8_decode_utf8, encode_utf8_valid_utf8};

verus! {

/// `b` holds no terminator.
pub open spec fn no_crlf(b: Seq<u8>) -> bool {
    forall|j: int| 0 <= j && j + 1 < b.len() ==> !(b[j] == 13 && #[trigger] b[j + 1] == 10)
}

/// The frames that the codec carries unchanged at nesting level `depth`:
/// simple and error text holds no terminator, every length fits in an `i64`,
/// and arrays nest less than `MAX_DEPTH` deep.
pub open spec fn well_formed(f: Frame, depth: int) -> bool
    decreases f,
{
    match f {
        Frame::Simple(t) => no_crlf(encode_utf8(t@)),
        Frame::Error(t) => no_crlf(encode_utf8(t@)),
        Frame::Bulk(Some(d)) => d.len() <= i64::MAX,
        Frame::Array(Some(items)) => depth < MAX_DEPTH && items.len() <= i64::MAX
            && all_well_formed(items@, depth + 1),
        _ => true,
    }
}

/// Every frame of `items` is well formed at level `depth`.
pub open spec fn all_well_formed(items: Seq<Frame>, depth: int) -> bool
    decreases items,
{
    if items.len() == 0 {
        true
    } else {
        all_well_formed(items.subrange(0, items.len() - 1), depth) && well_formed(
            items[items.len() - 1],
            depth,
        )
    }
}

/// `e` stands in `s` at `pos`.
pub open spec fn holds_at(s: Seq<u8>, pos: int, e: Seq<u8>) -> bool {
    0 <= pos && pos + e.len() <= s.len() && s.subrange(pos, pos + e.len()) == e
}

proof fn lemma_holds_part(s: Seq<u8>, pos: int, e: Seq<u8>, a: int, b: int)
    requires
        holds_at(s, pos, e),
        0 <= a <= b <= e.len(),
    ensures
        holds_at(s, pos + a, e.subrange(a, b)),
        forall|k: int| a <= k < b ==> s[pos + k] == e[k],
{
    assert forall|k: int| a <= k < b implies s[pos + k] == e[k] by {
        assert(s.subrange(pos, pos + e.len())[k] == e[k]);
    }
    assert(s.subrange(pos + a, pos + b) =~= e.subrange(a, b));
}

proof fn lemma_int_text_plain(n: int)
    ensures
        int_text(n).len() >= 1,
        forall|k: int| 0 <= k < int_text(n).len() ==> int_text(n)[k] != 13,
        no_crlf(int_text(n)),
{
    let m: nat = if n < 0 { (-n) as nat } else { n as nat };
    lemma_digits_of(m);
    assert forall|k: int| 0 <= k < int_text(n).len() implies int_text(n)[k] != 13 by {
        if n < 0 {
            if k > 0 {
                assert(int_text(n)[k] == digits_of(m)[k - 1]);
                assert(is_digit(digits_of(m)[k - 1]));
            }
        } else {
            assert(is_digit(digits_of(m)[k]));
        }
    }
}

/// The header line `line`, with no terminator in it, stands in `s` after
/// the leading byte at `pos`, followed by a terminator.
proof fn lemma_header(s: Seq<u8>, pos: int, line: Seq<u8>)
    requires
        holds_at(s, pos + 1, line + crlf()),
        no_crlf(line),
        pos >= 0,
    ensures
        line_end(s, pos + 1) == Some(pos + 1 + line.len()),
        s.subrange(pos + 1, pos + 1 + line.len()) == line,
{
    let e = line + crlf();
    let i = pos + 1 + line.len();
    lemma_holds_part(s, pos + 1, e, 0, e.len() as int);
    lemma_holds_part(s, pos + 1, e, 0, line.len() as int);
    assert(e.subrange(0, line.len() as int) =~= line);
    assert(s[i] == e[line.len() as int]);
    assert(s[i + 1] == e[line.len() + 1int]);
    assert forall|j: int| pos + 1 <= j < i implies !crlf_at(s, j) by {
        if crlf_at(s, j) {
            let k = j - (pos + 1);
            if j + 1 < i {
                assert(s[j] == line[k]);
                assert(s[j + 1] == line[k + 1]);
            } else {
                assert(s[j + 1] == e[line.len() as int]);
            }
        }
    }
    assert(is_line_end(s, pos + 1, i));
    lemma_line_end_is(s, pos + 1, i);
}

proof fn lemma_items_snoc(s: Seq<u8>, pos: int, a: int, depth: int, q: int)
    requires
        a >= 0,
        scan_items(s, pos, a, depth) == Scan::Done(q),
    ensures
        scan_items(s, pos, a + 1, depth) == scan_items(s, q, 1, depth),
    decreases a,
{
    if a > 0 {
        match scan(s, pos, depth) {
            Scan::Done(e) => {
                if pos < e <= s.len() {
                    lemma_items_snoc(s, e, a - 1, depth, q);
                }
            },
            _ => {},
        }
    }
}

proof fn lemma_minus_one()
    ensures
        int_text(-1) == seq![45u8, 49u8],
{
    assert(digits_of(1) =~= seq![49u8]);
    assert(int_text(-1) =~= seq![45u8, 49u8]);
}

/// The header of `f`'s encoding: its line, between the leading byte and the
/// first terminator.
pub open spec fn header_line(f: Frame) -> Seq<u8> {
    match f {
        Frame::Simple(t) => encode_utf8(t@),
        Frame::Error(t) => encode_utf8(t@),
        Frame::Integer(n) => int_text(n as int),
        Frame::Bulk(Some(d)) => int_text(d.len() as int),
        Frame::Array(Some(items)) => int_text(items.len() as int),
        _ => seq![45u8, 49u8],
    }
}

proof fn lemma_encoding_header(s: Seq<u8>, pos: int, f: Frame)
    requires
        holds_at(s, pos, encoding(f)),
        well_formed(f, 0) || !(f is Simple || f is Error),
    ensures
        encoding(f).len() >= header_line(f).len() + 3,
        encoding(f).subrange(1, header_line(f).len() + 3int) == header_line(f) + crlf(),
        no_crlf(header_line(f)),
        line_end(s, pos + 1) == Some(pos + 1 + header_line(f).len()),
        s.subrange(pos + 1, pos + 1 + header_line(f).len()) == header_line(f),
        s[pos] == encoding(f)[0],
{
    let e = encoding(f);
    let line = header_line(f);
    match f {
        Frame::Integer(n) => lemma_int_text_plain(n as int),
        Frame::Bulk(Some(d)) => lemma_int_text_plain(d.len() as int),
        Frame::Array(Some(items)) => lemma_int_text_plain(items.len() as int),
        _ => {},
    }
    assert(e.subrange(1, line.len() + 3int) =~= line + crlf());
    lemma_holds_part(s, pos, e, 1, line.len() + 3int);
    lemma_holds_part(s, pos, e, 0, 1);
    lemma_header(s, pos, line);
}

/// Reading the encoding of a well-formed frame, wherever it stands in a
/// buffer, takes exactly that encoding and gives back the frame.
pub proof fn lemma_decode_encoded(s: Seq<u8>, pos: int, depth: int, f: Frame)
    requires
        holds_at(s, pos, encoding(f)),
        0 <= depth,
        well_formed(f, depth),
    ensures
        scan(s, pos, depth) == Scan::Done(pos + encoding(f).len()),
        decodes_to(s, pos, depth, f),
    decreases f,
{
    let e = encoding(f);
    let line = header_line(f);
    lemma_encoding_header(s, pos, f);
    let body = pos + 1 + line.len() + 2;
    assert(s.subrange(pos + 1, pos + 1 + line.len()) == line);
    match f {
        Frame::Simple(t) => {
            encode_utf8_valid_utf8(t@);
            encode_utf8_decode_utf8(t@);
        },
        Frame::Error(t) => {
            encode_utf8_valid_utf8(t@);
            encode_utf8_decode_utf8(t@);
        },
        Frame::Integer(n) => {
            lemma_read_int_text(n);
            assert(line + Seq::<u8>::empty() =~= line);
        },
        Frame::Bulk(None) => {
            lemma_minus_one();
            lemma_read_int_text(-1i64);
            assert(line + Seq::<u8>::empty() =~= line);
        },
        Frame::Array(None) => {
            lemma_minus_one();
            lemma_read_int_text(-1i64);
            assert(line + Seq::<u8>::empty() =~= line);
        },
        Frame::Bulk(Some(d)) => {
            lemma_read_int_text(d.len() as i64);
            assert(line + Seq::<u8>::empty() =~= line);
            let h: int = line.len() + 3int;
            assert(e.subrange(h, h + d.len()) =~= d@);
            lemma_holds_part(s, pos, e, h, h + d.len());
        },
        Frame::Array(Some(items)) => {
            lemma_read_int_text(items.len() as i64);
            assert(line + Seq::<u8>::empty() =~= line);
            let h: int = line.len() + 3int;
            assert(e.subrange(h, e.len() as int) =~= encoding_all(items@));
            lemma_holds_part(s, pos, e, h, e.len() as int);
            assert(decreases_to!(f => f->Array_0));
            assert(decreases_to!(f->Array_0 => items));
            assert(decreases_to!(items => items@));
            lemma_decode_all(s, body, depth + 1, items@);
        },
    }
}

/// Reading the encodings of well-formed frames, one after another, gives
/// back those frames.
pub proof fn lemma_decode_all(s: Seq<u8>, pos: int, depth: int, items: Seq<Frame>)
    requires
        holds_at(s, pos, encoding_all(items)),
        0 <= depth,
        all_well_formed(items, depth),
    ensures
        scan_items(s, pos, items.len() as int, depth) == Scan::Done(
            pos + encoding_all(items).len(),
        ),
        run_end(s, pos, depth, items) == Some(pos + encoding_all(items).len()),
    decreases items,
{
    if items.len() > 0 {
        let n = items.len() - 1;
        let init = items.subrange(0, n);
        let last = items[n];
        let a = encoding_all(init);
        let b = encoding(last);
        assert(encoding_all(items) == a + b);
        assert((a + b).subrange(0, a.len() as int) =~= a);
        assert((a + b).subrange(a.len() as int, (a.len() + b.len()) as int) =~= b);
        lemma_holds_part(s, pos, a + b, 0, a.len() as int);
        lemma_holds_part(s, pos, a + b, a.len() as int, (a.len() + b.len()) as int);
        lemma_decode_all(s, pos, depth, init);
        let q = pos + a.len();
        lemma_decode_encoded(s, q, depth, last);
        lemma_items_snoc(s, pos, n, depth, q);
        assert(scan_items(s, q + b.len(), 0, depth) == Scan::Done(q + b.len()));
    }
}

/// Round trip: decoding the encoding of a well-formed frame, followed by
/// any bytes, reads back exactly that frame and consumes exactly its
/// encoding.
pub proof fn lemma_round_trip(f: Frame, rest: Seq<u8>)
    requires
        well_formed(f, 0),
    ensures
        scan(encoding(f) + rest, 0, 0) == Scan::Done(encoding(f).len() as int),
        decodes_to(encoding(f) + rest, 0, 0, f),
{
    let s = encoding(f) + rest;
    assert(s.subrange(0, encoding(f).len() as int) =~= encoding(f));
    lemma_decode_encoded(s, 0, 0, f);
}

proof fn lemma_items_need_grows(s: Seq<u8>, pos: int, a: int, depth: int)
    requires
        a >= 0,
        scan_items(s, pos, a, depth) == Scan::Need,
    ensures
        scan_items(s, pos, a + 1, depth) == Scan::Need,
    decreases a,
{
    if a > 0 {
        match scan(s, pos, depth) {
            Scan::Done(e) => {
                if pos < e <= s.len() {
                    lemma_items_need_grows(s, e, a - 1, depth);
                }
            },
            _ => {},
        }
    }
}

/// `s` ends inside `e`, which starts at `pos`: what `s` holds from `pos` on
/// is a proper beginning of `e`.
pub open spec fn cut_at(s: Seq<u8>, pos: int, e: Seq<u8>) -> bool {
    0 <= pos <= s.len() < pos + e.len() && s.subrange(pos, s.len() as int) == e.subrange(
        0,
        s.len() - pos,
    )
}

/// A buffer that ends inside the encoding of a well-formed frame needs more
/// bytes.
pub proof fn lemma_cut_needs_more(s: Seq<u8>, pos: int, depth: int, f: Frame)
    requires
        cut_at(s, pos, encoding(f)),
        0 <= depth,
        well_formed(f, depth),
    ensures
        scan(s, pos, depth) == Scan::Need,
    decreases f,
{
    let e = encoding(f);
    let line = header_line(f);
    let h: int = line.len() + 3int;
    if pos < s.len() {
        let c = s.len() - pos;
        let ghost full = s + e.subrange(c, e.len() as int);
        assert(full.subrange(pos, pos + e.len()) =~= e) by {
            assert forall|k: int| 0 <= k < e.len() implies full[pos + k] == e[k] by {
                if k < c {
                    assert(s.subrange(pos, s.len() as int)[k] == e.subrange(0, c)[k]);
                }
            }
        }
        lemma_encoding_header(full, pos, f);
        assert(s[pos] == full[pos]);
        if s.len() < pos + h {
            assert forall|i: int| !#[trigger] is_line_end(s, pos + 1, i) by {
                if is_line_end(s, pos + 1, i) {
                    assert(s[i] == full[i] && s[i + 1] == full[i + 1]);
                    assert(is_line_end(full, pos + 1, i)) by {
                        assert forall|j: int| pos + 1 <= j < i implies !crlf_at(full, j) by {
                            assert(s[j] == full[j] && s[j + 1] == full[j + 1]);
                        }
                    }
                    lemma_line_end_is(full, pos + 1, i);
                }
            }
        } else {
            assert(is_line_end(full, pos + 1, pos + 1 + line.len()));
            assert(is_line_end(s, pos + 1, pos + 1 + line.len())) by {
                assert forall|j: int| pos + 1 <= j < pos + 1 + line.len() implies !crlf_at(s, j) by {
                    assert(!crlf_at(full, j));
                    assert(s[j] == full[j] && s[j + 1] == full[j + 1]);
                }
                assert(s[pos + 1 + line.len()] == full[pos + 1 + line.len()]);
                assert(s[pos + 2 + line.len()] == full[pos + 2 + line.len()]);
            }
            lemma_line_end_is(s, pos + 1, pos + 1 + line.len());
            assert(s.subrange(pos + 1, pos + 1 + line.len()) =~= full.subrange(
                pos + 1,
                pos + 1 + line.len(),
            ));
            let body = pos + h;
            match f {
                Frame::Bulk(Some(d)) => {
                    lemma_read_int_text(d.len() as i64);
                    assert(line + Seq::<u8>::empty() =~= line);
                },
                Frame::Array(Some(items)) => {
                    lemma_read_int_text(items.len() as i64);
                    assert(line + Seq::<u8>::empty() =~= line);
                    assert(e.subrange(h, e.len() as int) =~= encoding_all(items@));
                    assert(s.subrange(body, s.len() as int) =~= encoding_all(items@).subrange(
                        0,
                        s.len() - body,
                    )) by {
                        assert forall|k: int| 0 <= k < s.len() - body implies s[body + k]
                            == encoding_all(items@)[k] by {
                            assert(s.subrange(pos, s.len() as int)[h + k] == e.subrange(0, c)[h
                                + k]);
                        }
                    }
                    assert(decreases_to!(f => f->Array_0));
                    assert(decreases_to!(f->Array_0 => items));
                    assert(decreases_to!(items => items@));
                    lemma_cut_items_need_more(s, body, depth + 1, items@);
                },
                _ => {
                    assert(e.len() == h);
                },
            }
        }
    }
}

/// A buffer that ends inside the encodings of well-formed frames, one after
/// another, needs more bytes.
pub proof fn lemma_cut_items_need_more(s: Seq<u8>, pos: int, depth: int, items: Seq<Frame>)
    requires
        cut_at(s, pos, encoding_all(items)),
        0 <= depth,
        all_well_formed(items, depth),
    ensures
        scan_items(s, pos, items.len() as int, depth) == Scan::Need,
    decreases items,
{
    let n = items.len() - 1;
    let init = items.subrange(0, n);
    let last = items[n];
    let a = encoding_all(init);
    let b = encoding(last);
    assert(encoding_all(items) == a + b);
    let c = s.len() - pos;
    assert forall|k: int| 0 <= k < c implies s[pos + k] == (a + b)[k] by {
        assert(s.subrange(pos, s.len() as int)[k] == (a + b).subrange(0, c)[k]);
    }
    if s.len() < pos + a.len() {
        assert(s.subrange(pos, s.len() as int) =~= a.subrange(0, c));
        lemma_cut_items_need_more(s, pos, depth, init);
        lemma_items_need_grows(s, pos, n, depth);
    } else {
        assert(s.subrange(pos, pos + a.len()) =~= a);
        lemma_decode_all(s, pos, depth, init);
        let q = pos + a.len();
        assert forall|k: int| 0 <= k < s.len() - q implies s.subrange(q, s.len() as int)[k]
            == b.subrange(0, s.len() - q)[k] by {
            assert(s[pos + (a.len() + k)] == (a + b)[a.len() + k]);
        }
        assert(s.subrange(q, s.len() as int) =~= b.subrange(0, s.len() - q));
        lemma_cut_needs_more(s, q, depth, last);
        lemma_items_snoc(s, pos, n, depth, q);
    }
}

/// Incremental decoding: any proper beginning of the encoding of a
/// well-formed frame needs more bytes, while the whole encoding reads back
/// the frame with nothing left over.
pub proof fn lemma_split_frame(f: Frame, k: int)
    requires
        well_formed(f, 0),
        0 <= k < encoding(f).len(),
    ensures
        scan(encoding(f).subrange(0, k), 0, 0) == Scan::Need,
        scan(encoding(f), 0, 0) == Scan::Done(encoding(f).len() as int),
        decodes_to(encoding(f), 0, 0, f),
{
    let e = encoding(f);
    let s = e.subrange(0, k);
    assert(s.subrange(0, k) =~= e.subrange(0, k));
    lemma_cut_needs_more(s, 0, 0, f);
    lemma_round_trip(f, Seq::empty());
    assert(e + Seq::<u8>::empty() =~= e);
}

/// Negative lengths: a bulk or array header holding a negative number (by
/// convention `-1`) reads as the null bulk string or the null array and
/// takes only its own line, whatever follows it.
pub proof fn lemma_negative_headers(n: i64, rest: Seq<u8>)
    requires
        n < 0,
    ensures
        scan(seq![36u8] + int_text(n as int) + crlf() + rest, 0, 0) == Scan::Done(
            int_text(n as int).len() + 3int,
        ),
        decodes_to(seq![36u8] + int_text(n as int) + crlf() + rest, 0, 0, Frame::Bulk(None)),
        scan(seq![42u8] + int_text(n as int) + crlf() + rest, 0, 0) == Scan::Done(
            int_text(n as int).len() + 3int,
        ),
        decodes_to(seq![42u8] + int_text(n as int) + crlf() + rest, 0, 0, Frame::Array(None)),
{
    let line = int_text(n as int);
    lemma_int_text_plain(n as int);
    lemma_read_int_text(n);
    assert(line + Seq::<u8>::empty() =~= line);
    let b = seq![36u8] + line + crlf() + rest;
    let a = seq![42u8] + line + crlf() + rest;
    assert(b.subrange(1, line.len() + 3int) =~= line + crlf());
    assert(a.subrange(1, line.len() + 3int) =~= line + crlf());
    lemma_header(b, 0, line);
    lemma_header(a, 0, line);
}

/// The null headers themselves: `$-1` and `*-1` read as the null bulk
/// string and the null array and take five bytes.
pub proof fn lemma_null_headers(rest: Seq<u8>)
    ensures
        scan(seq![36u8, 45u8, 49u8, 13u8, 10u8] + rest, 0, 0) == Scan::Done(5),
        decodes_to(seq![36u8, 45u8, 49u8, 13u8, 10u8] + rest, 0, 0, Frame::Bulk(None)),
        scan(seq![42u8, 45u8, 49u8, 13u8, 10u8] + rest, 0, 0) == Scan::Done(5),
        decodes_to(seq![42u8, 45u8, 49u8, 13u8, 10u8] + rest, 0, 0, Frame::Array(None)),
{
    lemma_minus_one();
    assert(seq![36u8] + int_text(-1) + crlf() + rest =~= seq![36u8, 45u8, 49u8, 13u8, 10u8] + rest);
    assert(seq![42u8] + int_text(-1) + crlf() + rest =~= seq![42u8, 45u8, 49u8, 13u8, 10u8] + rest);
    lemma_negative_headers(-1i64, rest);
}

/// `f` and `g` are the same frame: the same shape, with the same text,
/// numbers, bytes and items.
pub open spec fn same_frame(f: Frame, g: Frame) -> bool
    decreases f,
{
    match f {
        Frame::Simple(t) => g is Simple && g->Simple_0@ == t@,
        Frame::Error(t) => g is Error && g->Error_0@ == t@,
        Frame::Integer(n) => g == Frame::Integer(n),
        Frame::Bulk(None) => g == Frame::Bulk(None),
        Frame::Bulk(Some(d)) => g is Bulk && g->Bulk_0 is Some && g->Bulk_0->Some_0@ == d@,
        Frame::Array(None) => g == Frame::Array(None),
        Frame::Array(Some(a)) => g is Array && g->Array_0 is Some && same_frames(
            a@,
            g->Array_0->Some_0@,
        ),
    }
}

/// `a` and `b` hold the same frames in the same order.
pub open spec fn same_frames(a: Seq<Frame>, b: Seq<Frame>) -> bool
    decreases a,
{
    a.len() == b.len() && (a.len() == 0 || (same_frames(
        a.subrange(0, a.len() - 1),
        b.subrange(0, b.len() - 1),
    ) && same_frame(a[a.len() - 1], b[b.len() - 1])))
}

/// Decoding fixes the frame: two frames that both read from the same bytes
/// are the same frame.
pub proof fn lemma_decoded_frame_unique(s: Seq<u8>, pos: int, depth: int, f: Frame, g: Frame)
    requires
        decodes_to(s, pos, depth, f),
        decodes_to(s, pos, depth, g),
    ensures
        same_frame(f, g),
    decreases f,
{
    match f {
        Frame::Array(Some(a)) => {
            match g {
                Frame::Array(Some(b)) => {
                    assert(decreases_to!(f => f->Array_0));
                    assert(decreases_to!(f->Array_0 => a));
                    assert(decreases_to!(a => a@));
                    let i = line_end(s, pos + 1)->Some_0;
                    lemma_decoded_runs_unique(s, i + 2, depth + 1, a@, b@);
                },
                _ => {},
            }
        },
        _ => {},
    }
}

/// Two runs of frames of the same length that both read from the same bytes
/// hold the same frames and end at the same place.
pub proof fn lemma_decoded_runs_unique(
    s: Seq<u8>,
    pos: int,
    depth: int,
    a: Seq<Frame>,
    b: Seq<Frame>,
)
    requires
        a.len() == b.len(),
        run_end(s, pos, depth, a) is Some,
        run_end(s, pos, depth, b) is Some,
    ensures
        same_frames(a, b),
        run_end(s, pos, depth, a) == run_end(s, pos, depth, b),
    decreases a,
{
    if a.len() > 0 {
        let n = a.len() - 1;
        lemma_decoded_runs_unique(s, pos, depth, a.subrange(0, n), b.subrange(0, n));
        let p = run_end(s, pos, depth, a.subrange(0, n))->Some_0;
        lemma_decoded_frame_unique(s, p, depth, a[n], b[n]);
    }
}

/// Round trip, exactly: whatever frame decoding reads from the encoding of
/// a well-formed frame `f` is `f` itself, and encodes to the same bytes.
pub proof fn lemma_round_trip_exact(f: Frame, rest: Seq<u8>, g: Frame)
    requires
        well_formed(f, 0),
        decodes_to(encoding(f) + rest, 0, 0, g),
    ensures
        same_frame(f, g),
        encoding(g) == encoding(f),
{
    lemma_round_trip(f, rest);
    lemma_decoded_frame_unique(encoding(f) + rest, 0, 0, f, g);
    lemma_same_frame_encoding(f, g);
}

/// The same frame has the same encoding.
pub proof fn lemma_same_frame_encoding(f: Frame, g: Frame)
    requires
        same_frame(f, g),
    ensures
        encoding(f) == encoding(g),
    decreases f,
{
    match f {
        Frame::Array(Some(a)) => {
            assert(decreases_to!(f => f->Array_0));
            assert(decreases_to!(f->Array_0 => a));
            assert(decreases_to!(a => a@));
            lemma_same_frames_encoding(a@, g->Array_0->Some_0@);
        },
        _ => {},
    }
}

/// The same frames have the same encodings, one after another.
pub proof fn lemma_same_frames_encoding(a: Seq<Frame>, b: Seq<Frame>)
    requires
        same_frames(a, b),
    ensures
        encoding_all(a) == encoding_all(b),
    decreases a,
{
    if a.len() > 0 {
        let n = a.len() - 1;
        lemma_same_frames_encoding(a.subrange(0, n), b.subrange(0, n));
        lemma_same_frame_encoding(a[n], b[n]);
    }
}

} // verus!
