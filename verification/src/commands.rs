//! The command dispatcher: from a decoded request value to a typed
//! command, and from a command or a dispatch error to a reply value.
//!
//! A valid request is a non-empty array of bulk strings whose first
//! element names the command.  Names are matched case-sensitively, as the
//! wire protocol of this server defines them; every dispatch failure is a
//! reply value, never a crash, and the connection stays open.

use vstd::prelude::*;
use vstd::string::StrSliceExecFns;
use vstd::string::StringExecFns;

use crate::resp::{line_ok, supported, value_view_seq, wf, GValue, RESPValues};

verus! {

/// A request of the command set this server understands.
#[derive(PartialEq, Debug)]
pub enum RedisCommand {
    /// `PING`, with the optional payload to echo.
    Ping(Option<String>),
    /// `ECHO` with its payload.
    Echo(String),
    /// `COMMAND DOCS`, with the optional command name asked about.
    CommandDocs(Option<String>),
}

/// The mathematical form of a command: payloads as character sequences.
pub ghost enum GCommand {
    Ping(Option<Seq<char>>),
    Echo(Seq<char>),
    CommandDocs(Option<Seq<char>>),
}

/// The view of a command: each payload replaced by its characters.
pub open spec fn command_view(c: RedisCommand) -> GCommand {
    match c {
        RedisCommand::Ping(None) => GCommand::Ping(None),
        RedisCommand::Ping(Some(s)) => GCommand::Ping(Some(s@)),
        RedisCommand::Echo(s) => GCommand::Echo(s@),
        RedisCommand::CommandDocs(None) => GCommand::CommandDocs(None),
        RedisCommand::CommandDocs(Some(s)) => GCommand::CommandDocs(Some(s@)),
    }
}

impl View for RedisCommand {
    type V = GCommand;

    open spec fn view(&self) -> GCommand {
        command_view(*self)
    }
}

/// Why a syntactically valid value is no command invocation.  Each carries
/// the command name it concerns; the reply message is built from it.
#[derive(PartialEq, Debug)]
pub enum RedisCommandError {
    /// The request is not a non-empty array of bulk strings.
    ProtocolError,
    /// The named command was called with the wrong number of arguments.
    ArityError(String),
    /// The first element names no command this server knows.
    UnknownCommand(String),
    /// The name is recognized but no handler stands behind this form.
    NotImplemented(String),
}

/// The mathematical form of a dispatch error.
pub ghost enum GCommandError {
    ProtocolError,
    ArityError(Seq<char>),
    UnknownCommand(Seq<char>),
    NotImplemented(Seq<char>),
}

/// The view of a dispatch error.
pub open spec fn command_error_view(e: RedisCommandError) -> GCommandError {
    match e {
        RedisCommandError::ProtocolError => GCommandError::ProtocolError,
        RedisCommandError::ArityError(s) => GCommandError::ArityError(s@),
        RedisCommandError::UnknownCommand(s) => GCommandError::UnknownCommand(s@),
        RedisCommandError::NotImplemented(s) => GCommandError::NotImplemented(s@),
    }
}

impl View for RedisCommandError {
    type V = GCommandError;

    open spec fn view(&self) -> GCommandError {
        command_error_view(*self)
    }
}

/// A request shape the dispatcher accepts: a non-empty array whose
/// elements are all bulk strings.
pub open spec fn is_bulk_array(g: GValue) -> bool {
    &&& g is Array
    &&& g->Array_0.len() >= 1
    &&& forall|i: int| 0 <= i < g->Array_0.len() ==> (#[trigger] g->Array_0[i]) is BulkString
}

/// The characters of the request's `i`-th bulk string.
pub open spec fn arg_chars(g: GValue, i: int) -> Seq<char> {
    g->Array_0[i]->BulkString_0
}

/// The command read from a request value, or the error that stands for it.
///
/// Command names match case-sensitively: `PING`, `ECHO` and
/// `COMMAND DOCS` exactly, as the handlers of this server register them.
pub open spec fn spec_parse_command(g: GValue) -> Result<GCommand, GCommandError> {
    if !is_bulk_array(g) {
        Err(GCommandError::ProtocolError)
    } else {
        let n = g->Array_0.len();
        let name = arg_chars(g, 0);
        if name == "COMMAND"@ {
            if n >= 2 && arg_chars(g, 1) == "DOCS"@ {
                if n == 2 {
                    Ok(GCommand::CommandDocs(None))
                } else if n == 3 {
                    Ok(GCommand::CommandDocs(Some(arg_chars(g, 2))))
                } else {
                    Err(GCommandError::ArityError(name))
                }
            } else {
                Err(GCommandError::NotImplemented(name))
            }
        } else if name == "PING"@ {
            if n == 1 {
                Ok(GCommand::Ping(None))
            } else if n == 2 {
                Ok(GCommand::Ping(Some(arg_chars(g, 1))))
            } else {
                Err(GCommandError::ArityError(name))
            }
        } else if name == "ECHO"@ {
            if n == 2 {
                Ok(GCommand::Echo(arg_chars(g, 1)))
            } else {
                Err(GCommandError::ArityError(name))
            }
        } else {
            Err(GCommandError::UnknownCommand(name))
        }
    }
}

/// In an accepted request shape, every element is a bulk string.
proof fn lemma_bulk_array_index(g: GValue, i: int)
    requires
        is_bulk_array(g),
        0 <= i < g->Array_0.len(),
    ensures
        g->Array_0[i] is BulkString,
{
}

impl RedisCommand {
    /// Reads a decoded request value as a command, or says exactly why it
    /// is none: a bad shape, an unknown name, or a wrong argument count.
    #[verifier::loop_isolation(false)]
    pub fn try_from(value: RESPValues) -> (r: Result<RedisCommand, RedisCommandError>)
        ensures
            r matches Ok(c) ==> spec_parse_command(value@) == Ok::<GCommand, GCommandError>(c@),
            r matches Err(e) ==> spec_parse_command(value@) == Err::<GCommand, GCommandError>(e@),
    {
        let ghost g = value@;
        let elems = match value {
            RESPValues::Array(v) => v,
            _ => {
                return Err(RedisCommandError::ProtocolError);
            },
        };
        let ghost views = value_view_seq(elems@);
        proof {
            crate::resp::lemma_value_view_seq(elems@);
            assert(g == GValue::Array(views));
        }
        if elems.len() == 0 {
            return Err(RedisCommandError::ProtocolError);
        }
        let mut i: usize = 0;
        while i < elems.len()
            invariant
                i <= elems@.len(),
                forall|j: int| 0 <= j < i ==> (#[trigger] views[j]) is BulkString,
            decreases elems@.len() - i,
        {
            match &elems[i] {
                RESPValues::BulkString(_) => {},
                _ => {
                    proof {
                        if is_bulk_array(g) {
                            lemma_bulk_array_index(g, i as int);
                            assert(false);
                        }
                    }
                    return Err(RedisCommandError::ProtocolError);
                },
            }
            i += 1;
        }
        proof {
            assert(is_bulk_array(g));
        }
        let name: &String = match &elems[0] {
            RESPValues::BulkString(s) => s,
            _ => {
                proof {
                    assert(false);
                }
                return Err(RedisCommandError::ProtocolError);
            },
        };
        proof {
            assert(arg_chars(g, 0) == name@);
        }
        let lit_command = String::from_str("COMMAND");
        let lit_docs = String::from_str("DOCS");
        let lit_ping = String::from_str("PING");
        let lit_echo = String::from_str("ECHO");
        if name.eq(&lit_command) {
            let has_docs = if elems.len() >= 2 {
                match &elems[1] {
                    RESPValues::BulkString(s) => s.eq(&lit_docs),
                    _ => false,
                }
            } else {
                false
            };
            if has_docs {
                if elems.len() == 2 {
                    Ok(RedisCommand::CommandDocs(None))
                } else if elems.len() == 3 {
                    match &elems[2] {
                        RESPValues::BulkString(s) => Ok(
                            RedisCommand::CommandDocs(Some(s.clone())),
                        ),
                        _ => {
                            proof {
                                assert(false);
                            }
                            Err(RedisCommandError::ProtocolError)
                        },
                    }
                } else {
                    Err(RedisCommandError::ArityError(name.clone()))
                }
            } else {
                Err(RedisCommandError::NotImplemented(name.clone()))
            }
        } else if name.eq(&lit_ping) {
            if elems.len() == 1 {
                Ok(RedisCommand::Ping(None))
            } else if elems.len() == 2 {
                match &elems[1] {
                    RESPValues::BulkString(s) => Ok(RedisCommand::Ping(Some(s.clone()))),
                    _ => {
                        proof {
                            assert(false);
                        }
                        Err(RedisCommandError::ProtocolError)
                    },
                }
            } else {
                Err(RedisCommandError::ArityError(name.clone()))
            }
        } else if name.eq(&lit_echo) {
            if elems.len() == 2 {
                match &elems[1] {
                    RESPValues::BulkString(s) => Ok(RedisCommand::Echo(s.clone())),
                    _ => {
                        proof {
                            assert(false);
                        }
                        Err(RedisCommandError::ProtocolError)
                    },
                }
            } else {
                Err(RedisCommandError::ArityError(name.clone()))
            }
        } else {
            Err(RedisCommandError::UnknownCommand(name.clone()))
        }
    }
}


/// The reply owed to each successfully parsed command.
///
/// An echoed payload comes back as a bulk string, never quoted into a
/// simple string: the payload may hold any characters, including CR and
/// LF, and only a length-prefixed frame can carry them safely.
pub open spec fn reply_view(c: GCommand) -> GValue {
    match c {
        GCommand::Ping(None) => GValue::SimpleString("PONG"@),
        GCommand::Ping(Some(p)) => GValue::BulkString(p),
        GCommand::Echo(p) => GValue::BulkString(p),
        GCommand::CommandDocs(_) => GValue::Array(Seq::empty()),
    }
}

/// The single-line message reported for each dispatch error.  A command
/// name that cannot stand on one line (it holds CR or LF) is left out of
/// the message, so an error reply always frames correctly.
pub open spec fn error_message(e: GCommandError) -> Seq<char> {
    match e {
        GCommandError::ProtocolError => "ERR expected a non-empty array of bulk strings"@,
        GCommandError::ArityError(name) => if line_ok(name) {
            "ERR wrong number of arguments for '"@ + name + "'"@
        } else {
            "ERR wrong number of arguments"@
        },
        GCommandError::UnknownCommand(name) => if line_ok(name) {
            "ERR unknown command '"@ + name + "'"@
        } else {
            "ERR unknown command"@
        },
        GCommandError::NotImplemented(name) => if line_ok(name) {
            "ERR not implemented: '"@ + name + "'"@
        } else {
            "ERR not implemented"@
        },
    }
}

/// The reply owed to any request value: the command's reply where the
/// request parses, the error message as a simple error where it does not.
pub open spec fn dispatch_view(g: GValue) -> GValue {
    match spec_parse_command(g) {
        Ok(c) => reply_view(c),
        Err(e) => GValue::SimpleError(error_message(e)),
    }
}

/// Whether every character of `s` may stand on a single protocol line.
#[verifier::loop_isolation(false)]
fn string_line_ok(s: &String) -> (r: bool)
    ensures
        r == line_ok(s@),
{
    let n = s.as_str().unicode_len();
    let mut i: usize = 0;
    while i < n
        invariant
            i <= n,
            n == s@.len(),
            forall|j: int| 0 <= j < i ==> s@[j] != '\r' && s@[j] != '\n',
        decreases n - i,
    {
        let c = s.as_str().get_char(i);
        if c == '\r' || c == '\n' {
            proof {
                if line_ok(s@) {
                    assert(s@[i as int] != '\r' && s@[i as int] != '\n');
                    assert(false);
                }
            }
            return false;
        }
        i += 1;
    }
    true
}

/// Builds the reply value for a parsed command.
pub fn reply_for(c: RedisCommand) -> (r: RESPValues)
    ensures
        r@ == reply_view(c@),
{
    match c {
        RedisCommand::Ping(None) => RESPValues::SimpleString(String::from_str("PONG")),
        RedisCommand::Ping(Some(p)) => RESPValues::BulkString(p),
        RedisCommand::Echo(p) => RESPValues::BulkString(p),
        RedisCommand::CommandDocs(_) => {
            let elems: Vec<RESPValues> = Vec::new();
            proof {
                assert(value_view_seq(elems@) =~= Seq::<GValue>::empty());
            }
            RESPValues::Array(elems)
        },
    }
}

/// Builds the error reply for a dispatch error.
pub fn error_reply(e: &RedisCommandError) -> (r: RESPValues)
    ensures
        r matches RESPValues::SimpleError(m) && m@ == error_message(e@),
{
    match e {
        RedisCommandError::ProtocolError => RESPValues::SimpleError(
            String::from_str("ERR expected a non-empty array of bulk strings"),
        ),
        RedisCommandError::ArityError(name) => {
            if string_line_ok(name) {
                let mut msg = String::from_str("ERR wrong number of arguments for '");
                msg.append(name.as_str());
                msg.append("'");
                proof {
                    assert(msg@ =~= "ERR wrong number of arguments for '"@ + name@ + "'"@);
                }
                RESPValues::SimpleError(msg)
            } else {
                RESPValues::SimpleError(String::from_str("ERR wrong number of arguments"))
            }
        },
        RedisCommandError::UnknownCommand(name) => {
            if string_line_ok(name) {
                let mut msg = String::from_str("ERR unknown command '");
                msg.append(name.as_str());
                msg.append("'");
                proof {
                    assert(msg@ =~= "ERR unknown command '"@ + name@ + "'"@);
                }
                RESPValues::SimpleError(msg)
            } else {
                RESPValues::SimpleError(String::from_str("ERR unknown command"))
            }
        },
        RedisCommandError::NotImplemented(name) => {
            if string_line_ok(name) {
                let mut msg = String::from_str("ERR not implemented: '");
                msg.append(name.as_str());
                msg.append("'");
                proof {
                    assert(msg@ =~= "ERR not implemented: '"@ + name@ + "'"@);
                }
                RESPValues::SimpleError(msg)
            } else {
                RESPValues::SimpleError(String::from_str("ERR not implemented"))
            }
        },
    }
}

/// The dispatcher: a reply value for every request value, never a crash.
/// Parse failures come back as simple-error replies and leave the
/// connection open.
pub fn dispatch(request: RESPValues) -> (reply: RESPValues)
    ensures
        reply@ == dispatch_view(request@),
        supported(reply@),
{
    proof {
        lemma_dispatch_reply_wf(request@);
    }
    match RedisCommand::try_from(request) {
        Ok(c) => reply_for(c),
        Err(e) => error_reply(&e),
    }
}

/// Single-line texts stay single-line under concatenation.
proof fn lemma_line_ok_concat(a: Seq<char>, b: Seq<char>)
    requires
        line_ok(a),
        line_ok(b),
    ensures
        line_ok(a + b),
{
    assert forall|i: int| 0 <= i < (a + b).len() implies (a + b)[i] != '\r' && (a + b)[i]
        != '\n' by {
        if i < a.len() {
            assert((a + b)[i] == a[i]);
        } else {
            assert((a + b)[i] == b[i - a.len()]);
        }
    }
}

/// Every error message stands on a single line.
proof fn lemma_error_message_line_ok(e: GCommandError)
    ensures
        line_ok(error_message(e)),
{
    reveal_strlit("ERR expected a non-empty array of bulk strings");
    reveal_strlit("ERR wrong number of arguments for '");
    reveal_strlit("ERR wrong number of arguments");
    reveal_strlit("ERR unknown command '");
    reveal_strlit("ERR unknown command");
    reveal_strlit("ERR not implemented: '");
    reveal_strlit("ERR not implemented");
    reveal_strlit("'");
    match e {
        GCommandError::ProtocolError => {},
        GCommandError::ArityError(name) => {
            if line_ok(name) {
                lemma_line_ok_concat("ERR wrong number of arguments for '"@, name);
                lemma_line_ok_concat("ERR wrong number of arguments for '"@ + name, "'"@);
            }
        },
        GCommandError::UnknownCommand(name) => {
            if line_ok(name) {
                lemma_line_ok_concat("ERR unknown command '"@, name);
                lemma_line_ok_concat("ERR unknown command '"@ + name, "'"@);
            }
        },
        GCommandError::NotImplemented(name) => {
            if line_ok(name) {
                lemma_line_ok_concat("ERR not implemented: '"@, name);
                lemma_line_ok_concat("ERR not implemented: '"@ + name, "'"@);
            }
        },
    }
}

/// Every reply the dispatcher builds is a supported value, and for every
/// well-formed request it is itself well formed: a reply always encodes,
/// and it round-trips through the codec.
pub proof fn lemma_dispatch_reply_wf(g: GValue)
    ensures
        supported(dispatch_view(g)),
        wf(g) ==> wf(dispatch_view(g)),
{
    reveal_strlit("PONG");
    match spec_parse_command(g) {
        Ok(c) => {
            match c {
                GCommand::Ping(None) => {
                    assert(line_ok("PONG"@));
                },
                GCommand::Ping(Some(p)) => {
                    if wf(g) {
                        assert(wf(g->Array_0[1]));
                        assert(vstd::utf8::encode_utf8(p).len() <= usize::MAX);
                    }
                },
                GCommand::Echo(p) => {
                    if wf(g) {
                        assert(wf(g->Array_0[1]));
                        assert(vstd::utf8::encode_utf8(p).len() <= usize::MAX);
                    }
                },
                GCommand::CommandDocs(_) => {
                    assert(supported(GValue::Array(Seq::empty())));
                    assert(wf(GValue::Array(Seq::empty())));
                },
            }
        },
        Err(e) => {
            lemma_error_message_line_ok(e);
        },
    }
}
} // verus!
