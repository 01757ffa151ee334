use crate::command::{translate, Command, Op};
use crate::frame::{
    buffer_advance, buffer_bytes, buffer_slice, crlf, decodes_to, encoding, error_text,
    find_line_end, is_line_end, line_end, scan, Error, Frame, Scan,
};
use crate::store::Db;
use bytes::BytesMut;
use std::sync::Arc;
use vstd::prelude::*;
use vstd::utf8::encode_utf8;

verus! {

/// The bytes of an error reply carrying `m`.
pub open spec fn error_reply(m: Seq<char>) -> Seq<u8> {
    seq![45u8] + encode_utf8(m) + crlf()
}

/// How many bytes of an invalid buffer `s` are dropped: through its first
/// terminator, or all of it when it holds none.
pub open spec fn invalid_skip(s: Seq<u8>) -> int {
    match line_end(s, 0) {
        Some(i) => i + 2,
        None => s.len() as int,
    }
}

/// `r` is a reply that the request `f` can get: an error reply when `f` is
/// no command, else a bulk string for GET, `OK` for SET, 1 or 0 for DEL.
pub open spec fn reply_fits(f: Frame, r: Seq<u8>) -> bool {
    match translate(f) {
        Err(m) => r == error_reply(m),
        Ok(Op::Get(_)) => exists|x: Option<Vec<u8>>| r == encoding(Frame::Bulk(x)),
        Ok(Op::Put(_, _)) => r == seq![43u8] + encode_utf8("OK"@) + crlf(),
        Ok(Op::Del(_)) => r == encoding(Frame::Integer(1)) || r == encoding(Frame::Integer(0)),
    }
}

/// Handles the bytes received so far on one connection: decodes the first
/// frame, runs it as a command against the store and gives the reply to
/// send. `None` when the bytes are not a whole frame yet; then nothing is
/// consumed. Invalid bytes get an error reply and are dropped through the
/// first terminator (all of them when there is none), so that the
/// connection goes on with the bytes after them.
pub fn respond(src: &mut BytesMut, db: &Arc<Db>) -> (r: Option<Vec<u8>>)
    ensures
        match scan(buffer_bytes(*old(src)), 0, 0) {
            Scan::Need => r is None && buffer_bytes(*final(src)) == buffer_bytes(*old(src)),
            Scan::Bad => r is Some && r->Some_0@ == error_reply(error_text(Error::Invalid))
                && buffer_bytes(*final(src)) == buffer_bytes(*old(src)).subrange(
                invalid_skip(buffer_bytes(*old(src))),
                buffer_bytes(*old(src)).len() as int,
            ),
            Scan::Done(e) => r is Some && buffer_bytes(*final(src)) == buffer_bytes(
                *old(src),
            ).subrange(e, buffer_bytes(*old(src)).len() as int) && exists|f: Frame|
                #[trigger] decodes_to(buffer_bytes(*old(src)), 0, 0, f) && reply_fits(
                    f,
                    r->Some_0@,
                ),
        },
{
    match Frame::parse(src) {
        Ok(Some(frame)) => {
            let ghost g = frame;
            let out = match Command::from_frame(frame) {
                Ok(cmd) => {
                    let reply = cmd.execute(db);
                    let bytes = reply.encode();
                    proof {
                        if reply is Bulk {
                            assert(reply == Frame::Bulk(reply->Bulk_0));
                        }
                    }
                    bytes
                },
                Err(m) => Frame::Error(m).encode(),
            };
            assert(decodes_to(buffer_bytes(*old(src)), 0, 0, g) && reply_fits(g, out@));
            Some(out)
        },
        Ok(None) => None,
        Err(e) => {
            let bytes = buffer_slice(src);
            let n = bytes.len();
            let skip = match find_line_end(bytes, 0) {
                Some(i) => {
                    proof {
                        assert(is_line_end(bytes@, 0, i as int));
                        assert(i + 1 < n);
                    }
                    i + 2
                },
                None => n,
            };
            buffer_advance(src, skip);
            Some(Frame::Error(e.message()).encode())
        },
    }
}

} // verus!
