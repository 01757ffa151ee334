use crate::frame::{text_from, text_of, Frame};
use crate::store::Db;
use std::sync::Arc;
use vstd::prelude::*;
use vstd::string::StringExecFns;
use vstd::slice::slice_to_vec;

verus! {

/// A request, read from a frame.
#[derive(Debug)]
pub enum Command {
    Get { key: String },
    Put { key: String, value: Vec<u8> },
    Del { key: String },
}

/// The mathematical form of a command.
pub enum Op {
    Get(Seq<char>),
    Put(Seq<char>, Seq<u8>),
    Del(Seq<char>),
}

impl Command {
    pub open spec fn view(&self) -> Op {
        match self {
            Command::Get { key } => Op::Get(key@),
            Command::Put { key, value } => Op::Put(key@, value@),
            Command::Del { key } => Op::Del(key@),
        }
    }
}

/// Names the result of `str::to_uppercase`.
pub uninterp spec fn upper_of(s: Seq<char>) -> Seq<char>;

/// Relies on `str::to_uppercase`: the upper-case form of `s`.
#[verifier::external_body]
fn uppercase(s: &str) -> (r: String)
    ensures
        r@ == upper_of(s@),
{
    s.to_uppercase()
}

/// The bytes of the `i`-th item when it is a non-null bulk string.
pub open spec fn bulk_arg(items: Seq<Frame>, i: int) -> Option<Seq<u8>> {
    if 0 <= i < items.len() {
        match items[i] {
            Frame::Bulk(Some(d)) => Some(d@),
            _ => None,
        }
    } else {
        None
    }
}

/// The wrong-arity error for the command `name`.
pub open spec fn arity_error(name: Seq<char>) -> Seq<char> {
    "wrong number of arguments for '"@ + name + "'"@
}

/// What the items of a request ask for, given the upper-cased command
/// name: the command's arguments must be non-null bulk strings, and there
/// must be exactly as many items as the name and its arguments (GET and DEL
/// take one, SET two).
pub open spec fn command_for(cmd: Seq<char>, items: Seq<Frame>) -> Result<Op, Seq<char>> {
    if cmd == "GET"@ {
        match bulk_arg(items, 1) {
            None => Err("GET expects key"@),
            Some(k) => if items.len() == 2 {
                Ok(Op::Get(text_of(k)))
            } else {
                Err(arity_error("GET"@))
            },
        }
    } else if cmd == "SET"@ {
        match bulk_arg(items, 1) {
            None => Err("SET expects key"@),
            Some(k) => match bulk_arg(items, 2) {
                None => Err("SET expects value"@),
                Some(v) => if items.len() == 3 {
                    Ok(Op::Put(text_of(k), v))
                } else {
                    Err(arity_error("SET"@))
                },
            },
        }
    } else if cmd == "DEL"@ {
        match bulk_arg(items, 1) {
            None => Err("DEL expects key"@),
            Some(k) => if items.len() == 2 {
                Ok(Op::Del(text_of(k)))
            } else {
                Err(arity_error("DEL"@))
            },
        }
    } else {
        Err("unknown command '"@ + cmd + "'"@)
    }
}

/// What a frame asks for: a non-null array whose first item is a bulk
/// string naming the command (in any case), then the command's arguments.
pub open spec fn translate(f: Frame) -> Result<Op, Seq<char>> {
    match f {
        Frame::Array(Some(items)) => match bulk_arg(items@, 0) {
            None => Err("expected bulk string"@),
            Some(name) => command_for(upper_of(text_of(name)), items@),
        },
        _ => Err("expected array"@),
    }
}

/// The `i`-th item of `items` when it is a non-null bulk string.
fn bulk_at(items: &Vec<Frame>, i: usize) -> (r: Option<&Vec<u8>>)
    ensures
        match r {
            Some(d) => bulk_arg(items@, i as int) == Some(d@),
            None => bulk_arg(items@, i as int) is None,
        },
{
    if i < items.len() {
        match &items[i] {
            Frame::Bulk(Some(d)) => Some(d),
            _ => None,
        }
    } else {
        None
    }
}

/// The wrong-arity error for the command `name`.
fn arity_message(name: &String) -> (r: String)
    ensures
        r@ == arity_error(name@),
{
    let mut m = String::from_str("wrong number of arguments for '");
    m.append(name.as_str());
    m.append("'");
    m
}

/// The reply to a GET, given what the store held.
pub fn found_reply(found: Option<Vec<u8>>) -> (r: Frame)
    ensures
        r == Frame::Bulk(found),
{
    Frame::Bulk(found)
}

/// The reply to a DEL, given whether an entry was removed.
pub fn deleted_reply(removed: bool) -> (r: Frame)
    ensures
        r == Frame::Integer(if removed { 1 } else { 0 }),
{
    Frame::Integer(if removed { 1 } else { 0 })
}

impl Command {
    /// Reads a command from the items of a request, given its upper-cased
    /// command name.
    pub fn dispatch(cmd: &String, items: &Vec<Frame>) -> (r: Result<Command, String>)
        ensures
            match r {
                Ok(c) => command_for(cmd@, items@) == Ok::<Op, Seq<char>>(c@),
                Err(m) => command_for(cmd@, items@) == Err::<Op, Seq<char>>(m@),
            },
    {
        proof {
            reveal_strlit("GET");
            reveal_strlit("SET");
            reveal_strlit("DEL");
            assert("DEL"@[0] != "GET"@[0]);
            assert("DEL"@[0] != "SET"@[0]);
            assert("SET"@[0] != "GET"@[0]);
        }
        let get = String::from_str("GET");
        let set = String::from_str("SET");
        let del = String::from_str("DEL");
        if *cmd == get || *cmd == del {
            let key = match bulk_at(items, 1) {
                Some(k) => text_from(k.as_slice()),
                None => {
                    if *cmd == get {
                        return Err(String::from_str("GET expects key"));
                    } else {
                        return Err(String::from_str("DEL expects key"));
                    }
                },
            };
            if items.len() != 2 {
                return Err(arity_message(cmd));
            }
            if *cmd == get {
                Ok(Command::Get { key })
            } else {
                Ok(Command::Del { key })
            }
        } else if *cmd == set {
            let key = match bulk_at(items, 1) {
                Some(k) => text_from(k.as_slice()),
                None => return Err(String::from_str("SET expects key")),
            };
            let value = match bulk_at(items, 2) {
                Some(v) => slice_to_vec(v.as_slice()),
                None => return Err(String::from_str("SET expects value")),
            };
            if items.len() != 3 {
                return Err(arity_message(cmd));
            }
            Ok(Command::Put { key, value })
        } else {
            let mut m = String::from_str("unknown command '");
            m.append(cmd.as_str());
            m.append("'");
            Err(m)
        }
    }

    /// Reads a command from a frame, or says why the frame is no command.
    pub fn from_frame(frame: Frame) -> (r: Result<Command, String>)
        ensures
            match r {
                Ok(c) => translate(frame) == Ok::<Op, Seq<char>>(c@),
                Err(m) => translate(frame) == Err::<Op, Seq<char>>(m@),
            },
    {
        match frame {
            Frame::Array(Some(items)) => {
                let name = match bulk_at(&items, 0) {
                    Some(b) => b,
                    None => return Err(String::from_str("expected bulk string")),
                };
                let text = text_from(name.as_slice());
                let cmd = uppercase(text.as_str());
                Command::dispatch(&cmd, &items)
            },
            _ => Err(String::from_str("expected array")),
        }
    }

    /// Runs the command against the store. A GET replies with what the store
    /// held, a SET with `OK`, a DEL with 1 or 0 as an entry was removed or not.
    pub fn execute(self, db: &Arc<Db>) -> (r: Frame)
        ensures
            match self@ {
                Op::Get(_) => r is Bulk,
                Op::Put(_, _) => r is Simple && r->Simple_0@ == "OK"@,
                Op::Del(_) => r == Frame::Integer(1) || r == Frame::Integer(0),
            },
    {
        match self {
            Command::Get { key } => found_reply(db.get(key.as_str())),
            Command::Put { key, value } => {
                db.set(key, value);
                Frame::Simple(String::from_str("OK"))
            },
            Command::Del { key } => deleted_reply(db.delete(key.as_str())),
        }
    }
}

} // verus!
