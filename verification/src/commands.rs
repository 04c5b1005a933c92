//! The supported commands, read out of RESP frames and written back as
//! frames.

use vstd::prelude::*;

use crate::resp::{
    spec_to_string, tokens_of, lemma_token_step, TceV, Type, TypeConsumer, TypeConsumerError,
    TypeV,
};
use crate::text::str_eq_exec;
use self::get::Get;
use self::list::Push;
use self::set::SetCommand;
use self::watch::Watch;

pub mod get;
pub mod list;
pub mod set;
pub mod watch;

verus! {

/// All the supported commands.
#[derive(Debug)]
pub enum Command {
    /// Reads a key's value.
    Get(Get),
    /// Sets a key to a string value.
    SetCmd(SetCommand),
    /// Appends values to a list, creating it when absent.
    Push(Push),
    /// Subscribes to changes of a key.
    Watch(Watch),
}

/// The mathematical value of a command.
#[verifier::ext_equal]
pub ghost enum CommandV {
    Get(Seq<char>),
    SetCmd(Seq<char>, Seq<char>),
    Push(Seq<char>, Seq<Seq<char>>),
    Watch(Seq<char>, crate::database::Operation),
}

impl View for Command {
    type V = CommandV;

    open spec fn view(&self) -> CommandV {
        match self {
            Command::Get(g) => CommandV::Get(g.key@),
            Command::SetCmd(s) => CommandV::SetCmd(s.key@, s.value@),
            Command::Push(p) => CommandV::Push(p.list_name@, p.values.deep_view()),
            Command::Watch(w) => CommandV::Watch(w.key@, w.operation),
        }
    }
}

impl PartialEq for Command {
    /// Structural equality of commands.
    fn eq(&self, other: &Command) -> (r: bool) {
        match (self, other) {
            (Command::Get(a), Command::Get(b)) => {
                let r = a == b;
                proof {
                    assert(self@ == CommandV::Get(a.key@) && other@ == CommandV::Get(b.key@));
                }
                return r;
            },
            (Command::SetCmd(a), Command::SetCmd(b)) => {
                let r = a == b;
                proof {
                    assert(self@ == CommandV::SetCmd(a.key@, a.value@) && other@
                        == CommandV::SetCmd(b.key@, b.value@));
                }
                return r;
            },
            (Command::Push(a), Command::Push(b)) => {
                let r = a == b;
                proof {
                    assert(self@ == CommandV::Push(a.list_name@, a.values.deep_view())
                        && other@ == CommandV::Push(b.list_name@, b.values.deep_view()));
                }
                return r;
            },
            (Command::Watch(a), Command::Watch(b)) => {
                let r = a == b;
                proof {
                    assert(self@ == CommandV::Watch(a.key@, a.operation) && other@
                        == CommandV::Watch(b.key@, b.operation));
                }
                return r;
            },
            _ => {
                proof {
                    assert(self@ != other@);
                }
                return false;
            },
        }
    }
}

impl vstd::std_specs::cmp::PartialEqSpecImpl for Command {
    open spec fn obeys_eq_spec() -> bool {
        true
    }

    open spec fn eq_spec(&self, other: &Command) -> bool {
        self@ == other@
    }
}

/// The ways turning a frame into a command can fail.
#[derive(Debug)]
pub enum CommandCreationError {
    /// A field would not convert from the frame at hand; holds the
    /// conversion error and the field's name.
    InvalidFrame(TypeConsumerError, &'static str),
    /// A required field was missing altogether.
    MissingField(String),
    /// The command name is none of the supported ones.
    UnSupportedCommand,
}

/// The mathematical value of a command-creation error.
#[verifier::ext_equal]
pub ghost enum CceV {
    InvalidFrame(TceV, Seq<char>),
    MissingField(Seq<char>),
    UnSupportedCommand,
}

impl View for CommandCreationError {
    type V = CceV;

    open spec fn view(&self) -> CceV {
        match self {
            CommandCreationError::InvalidFrame(e, f) => CceV::InvalidFrame(e@, f@),
            CommandCreationError::MissingField(f) => CceV::MissingField(f@),
            CommandCreationError::UnSupportedCommand => CceV::UnSupportedCommand,
        }
    }
}

impl PartialEq for CommandCreationError {
    /// Structural equality of command-creation errors.
    fn eq(&self, other: &CommandCreationError) -> (r: bool) {
        match (self, other) {
            (
                CommandCreationError::InvalidFrame(e1, f1),
                CommandCreationError::InvalidFrame(e2, f2),
            ) => {
                let r = e1 == e2 && str_eq_exec(f1, f2);
                proof {
                    assert(self@ == CceV::InvalidFrame(e1@, f1@));
                    assert(other@ == CceV::InvalidFrame(e2@, f2@));
                }
                return r;
            },
            (
                CommandCreationError::MissingField(f1),
                CommandCreationError::MissingField(f2),
            ) => {
                let r = *f1 == *f2;
                proof {
                    assert(self@ == CceV::MissingField(f1@));
                    assert(other@ == CceV::MissingField(f2@));
                }
                return r;
            },
            (
                CommandCreationError::UnSupportedCommand,
                CommandCreationError::UnSupportedCommand,
            ) => {
                proof {
                    assert(self@ == CceV::UnSupportedCommand && other@ == CceV::UnSupportedCommand);
                }
                return true;
            },
            _ => {
                proof {
                    assert(self@ != other@);
                }
                return false;
            },
        }
    }
}

impl vstd::std_specs::cmp::PartialEqSpecImpl for CommandCreationError {
    open spec fn obeys_eq_spec() -> bool {
        true
    }

    open spec fn eq_spec(&self, other: &CommandCreationError) -> bool {
        self@ == other@
    }
}

/// Unwraps an extracted field, naming the field in the error when the
/// consumer had nothing left or the value would not convert.
pub fn extract_or_err<T>(input: Result<T, TypeConsumerError>, field: &'static str) -> (r: Result<
    T,
    CommandCreationError,
>)
    ensures
        match input {
            Ok(v) => r matches Ok(rv) && rv == v,
            Err(e) => r matches Err(x) && x@ == (if e@ is Empty {
                CceV::MissingField(field@)
            } else {
                CceV::InvalidFrame(e@, field@)
            }),
        },
{
    match input {
        Ok(v) => Ok(v),
        Err(e) => match e {
            TypeConsumerError::Empty => Err(CommandCreationError::MissingField(field.to_owned())),
            other => Err(CommandCreationError::InvalidFrame(other, field)),
        },
    }
}

/// What a run of tokens decodes to: the first token names the command and
/// the rest carry its fields.
pub open spec fn spec_command_from_tokens(toks: Seq<TypeV>) -> Result<CommandV, CceV> {
    if toks.len() == 0 {
        Err(CceV::MissingField("Command"@))
    } else {
        match spec_to_string(toks[0]) {
            Err(ev) => Err(CceV::InvalidFrame(ev, "Command"@)),
            Ok(name) => if name == "GET"@ {
                match get::spec_get_fields(toks.drop_first()) {
                    Ok(k) => Ok(CommandV::Get(k)),
                    Err(e) => Err(e),
                }
            } else if name == "SET"@ {
                match set::spec_set_fields(toks.drop_first()) {
                    Ok((k, v)) => Ok(CommandV::SetCmd(k, v)),
                    Err(e) => Err(e),
                }
            } else if name == "PUSH"@ {
                match list::spec_push_fields(toks.drop_first()) {
                    Ok((n, vs)) => Ok(CommandV::Push(n, vs)),
                    Err(e) => Err(e),
                }
            } else if name == "WATCH"@ {
                match watch::spec_watch_fields(toks.drop_first()) {
                    Ok((k, op)) => Ok(CommandV::Watch(k, op)),
                    Err(e) => Err(e),
                }
            } else {
                Err(CceV::UnSupportedCommand)
            },
        }
    }
}

impl Command {
    /// Reads a command out of a consumer: the first field is the command's
    /// name, the rest are its fields. The consumer is left wherever reading
    /// stopped.
    pub fn new(type_consumer: &mut TypeConsumer) -> (r: Result<Command, CommandCreationError>)
        ensures
            ({
                let toks = tokens_of(old(type_consumer)@);
                match r {
                    Ok(c) => spec_command_from_tokens(toks) == Ok::<CommandV, CceV>(c@),
                    Err(e) => spec_command_from_tokens(toks) == Err::<CommandV, CceV>(e@),
                }
            }),
    {
        let ghost toks = tokens_of(old(type_consumer)@);
        proof {
            lemma_token_step(old(type_consumer)@);
        }
        let command = match extract_or_err(type_consumer.next_string(), "Command") {
            Ok(c) => c,
            Err(e) => {
                return Err(e);
            },
        };
        if str_eq_exec(command.as_str(), "GET") {
            match Get::from(type_consumer) {
                Ok(g) => Ok(Command::Get(g)),
                Err(e) => Err(e),
            }
        } else if str_eq_exec(command.as_str(), "SET") {
            match SetCommand::from(type_consumer) {
                Ok(s) => Ok(Command::SetCmd(s)),
                Err(e) => Err(e),
            }
        } else if str_eq_exec(command.as_str(), "PUSH") {
            match Push::from(type_consumer) {
                Ok(p) => Ok(Command::Push(p)),
                Err(e) => Err(e),
            }
        } else if str_eq_exec(command.as_str(), "WATCH") {
            match Watch::from(type_consumer) {
                Ok(w) => Ok(Command::Watch(w)),
                Err(e) => Err(e),
            }
        } else {
            Err(CommandCreationError::UnSupportedCommand)
        }
    }

    /// Writes this command as the RESP array that requests it on the wire.
    pub fn into_type(self) -> (t: Type)
        ensures
            t@ == spec_command_type(self@),
    {
        match self {
            Command::Get(g) => g.into_type(),
            Command::SetCmd(s) => s.into_type(),
            Command::Push(p) => p.into_type(),
            Command::Watch(w) => w.into_type(),
        }
    }
}

/// The RESP array a command travels as: bulk strings led by the command's
/// uppercase name, with a watch's operation as an integer.
pub open spec fn spec_command_type(c: CommandV) -> TypeV {
    match c {
        CommandV::Get(k) => TypeV::Array(
            seq![
                TypeV::BulkString(vstd::utf8::encode_utf8("GET"@)),
                TypeV::BulkString(vstd::utf8::encode_utf8(k)),
            ],
        ),
        CommandV::SetCmd(k, v) => TypeV::Array(
            seq![
                TypeV::BulkString(vstd::utf8::encode_utf8("SET"@)),
                TypeV::BulkString(vstd::utf8::encode_utf8(k)),
                TypeV::BulkString(vstd::utf8::encode_utf8(v)),
            ],
        ),
        CommandV::Push(n, vs) => TypeV::Array(
            seq![
                TypeV::BulkString(vstd::utf8::encode_utf8("PUSH"@)),
                TypeV::BulkString(vstd::utf8::encode_utf8(n)),
            ] + vs.map_values(|v: Seq<char>| TypeV::BulkString(vstd::utf8::encode_utf8(v))),
        ),
        CommandV::Watch(k, op) => TypeV::Array(
            seq![
                TypeV::BulkString(vstd::utf8::encode_utf8("WATCH"@)),
                TypeV::BulkString(vstd::utf8::encode_utf8(k)),
                TypeV::Integer(crate::database::op_code(op)),
            ],
        ),
    }
}

/// The report text of a consumer error, as the server sends it back.
pub open spec fn spec_render_tce(e: TceV) -> Seq<char> {
    match e {
        TceV::Empty => "Empty"@,
        TceV::Conv(from, to) => "ConversionFailed(ConversionFailed { from: \""@ + from
            + "\", to: \""@ + to + "\" })"@,
    }
}

/// The report text of a command-creation error, as the server sends it back.
pub open spec fn spec_render_cce(e: CceV) -> Seq<char> {
    match e {
        CceV::UnSupportedCommand => "UnSupportedCommand"@,
        CceV::MissingField(f) => "MissingField(\""@ + f + "\")"@,
        CceV::InvalidFrame(t, f) => "InvalidFrame("@ + spec_render_tce(t) + ", \""@ + f + "\")"@,
    }
}

/// Appends the UTF-8 bytes of a consumer error's report text.
fn push_tce_bytes(e: &TypeConsumerError, out: &mut Vec<u8>)
    ensures
        final(out)@ == old(out)@ + vstd::utf8::encode_utf8(spec_render_tce(e@)),
{
    match e {
        TypeConsumerError::Empty => {
            out.extend_from_slice("Empty".as_bytes());
            assert(out@ =~= old(out)@ + vstd::utf8::encode_utf8(spec_render_tce(e@)));
        },
        TypeConsumerError::ConversionFailed(c) => {
            out.extend_from_slice("ConversionFailed(ConversionFailed { from: \"".as_bytes());
            out.extend_from_slice(c.from.as_str().as_bytes());
            out.extend_from_slice("\", to: \"".as_bytes());
            out.extend_from_slice(c.to.as_bytes());
            out.extend_from_slice("\" })".as_bytes());
            proof {
                let p1 = "ConversionFailed(ConversionFailed { from: \""@;
                let p2 = "\", to: \""@;
                let p3 = "\" })"@;
                crate::text::lemma_encode_utf8_concat(p1, c.from@);
                crate::text::lemma_encode_utf8_concat(p1 + c.from@, p2);
                crate::text::lemma_encode_utf8_concat(p1 + c.from@ + p2, c.to@);
                crate::text::lemma_encode_utf8_concat(p1 + c.from@ + p2 + c.to@, p3);
                assert(out@ =~= old(out)@ + vstd::utf8::encode_utf8(spec_render_tce(e@)));
            }
        },
    }
}

impl CommandCreationError {
    /// This error's report text, as the server sends it back.
    pub fn render(&self) -> (r: String)
        ensures
            r@ == spec_render_cce(self@),
    {
        let mut out: Vec<u8> = Vec::new();
        match self {
            CommandCreationError::UnSupportedCommand => {
                out.extend_from_slice("UnSupportedCommand".as_bytes());
                assert(out@ =~= vstd::utf8::encode_utf8(spec_render_cce(self@)));
            },
            CommandCreationError::MissingField(f) => {
                out.extend_from_slice("MissingField(\"".as_bytes());
                out.extend_from_slice(f.as_str().as_bytes());
                out.extend_from_slice("\")".as_bytes());
                proof {
                    crate::text::lemma_encode_utf8_concat("MissingField(\""@, f@);
                    crate::text::lemma_encode_utf8_concat("MissingField(\""@ + f@, "\")"@);
                    assert(out@ =~= vstd::utf8::encode_utf8(spec_render_cce(self@)));
                }
            },
            CommandCreationError::InvalidFrame(t, f) => {
                out.extend_from_slice("InvalidFrame(".as_bytes());
                push_tce_bytes(t, &mut out);
                out.extend_from_slice(", \"".as_bytes());
                out.extend_from_slice(f.as_bytes());
                out.extend_from_slice("\")".as_bytes());
                proof {
                    let p1 = "InvalidFrame("@;
                    let p2 = ", \""@;
                    let p3 = "\")"@;
                    crate::text::lemma_encode_utf8_concat(p1, spec_render_tce(t@));
                    crate::text::lemma_encode_utf8_concat(p1 + spec_render_tce(t@), p2);
                    crate::text::lemma_encode_utf8_concat(p1 + spec_render_tce(t@) + p2, f@);
                    crate::text::lemma_encode_utf8_concat(
                        p1 + spec_render_tce(t@) + p2 + f@,
                        p3,
                    );
                    assert(out@ =~= vstd::utf8::encode_utf8(spec_render_cce(self@)));
                }
            },
        }
        proof {
            vstd::utf8::encode_utf8_valid_utf8(spec_render_cce(self@));
        }
        match crate::text::bytes_to_string(out) {
            Some(s) => {
                proof {
                    vstd::utf8::encode_utf8_decode_utf8(s@);
                    vstd::utf8::encode_utf8_decode_utf8(spec_render_cce(self@));
                }
                s
            },
            None => vstd::pervasive::unreached(),
        }
    }
}

/// The four command names are pairwise distinct text.
proof fn lemma_command_names_distinct()
    ensures
        "GET"@ != "SET"@,
        "GET"@ != "PUSH"@,
        "GET"@ != "WATCH"@,
        "SET"@ != "PUSH"@,
        "SET"@ != "WATCH"@,
        "PUSH"@ != "WATCH"@,
{
    reveal_strlit("GET");
    reveal_strlit("SET");
    reveal_strlit("PUSH");
    reveal_strlit("WATCH");
    assert("GET"@[0] != "SET"@[0]);
    assert("GET"@.len() != "PUSH"@.len());
    assert("GET"@.len() != "WATCH"@.len());
    assert("SET"@.len() != "PUSH"@.len());
    assert("SET"@.len() != "WATCH"@.len());
    assert("PUSH"@.len() != "WATCH"@.len());
}

/// A text token reads back as the text it encodes.
proof fn lemma_text_token(s: Seq<char>)
    ensures
        spec_to_string(TypeV::BulkString(vstd::utf8::encode_utf8(s))) == Ok::<Seq<char>, TceV>(s),
{
    vstd::utf8::encode_utf8_valid_utf8(s);
    vstd::utf8::encode_utf8_decode_utf8(s);
}

/// A run of text tokens reads back as the texts they encode.
proof fn lemma_push_values_round(toks: Seq<TypeV>, i: int, vs: Seq<Seq<char>>)
    requires
        0 <= i <= toks.len(),
        toks.len() - i == vs.len(),
        forall|j: int|
            0 <= j < vs.len() ==> toks[i + j] == TypeV::BulkString(
                vstd::utf8::encode_utf8(#[trigger] vs[j]),
            ),
    ensures
        list::spec_push_values(toks, i) == Ok::<Seq<Seq<char>>, CceV>(vs),
    decreases toks.len() - i,
{
    if i < toks.len() {
        lemma_text_token(vs[0]);
        assert(toks[i + 0] == TypeV::BulkString(vstd::utf8::encode_utf8(vs[0])));
        assert forall|j: int|
            0 <= j < vs.drop_first().len() implies toks[i + 1 + j] == TypeV::BulkString(
            vstd::utf8::encode_utf8(#[trigger] vs.drop_first()[j]),
        ) by {
            assert(vs.drop_first()[j] == vs[j + 1]);
        }
        lemma_push_values_round(toks, i + 1, vs.drop_first());
        assert(seq![vs[0]] + vs.drop_first() =~= vs);
    } else {
        assert(vs =~= Seq::<Seq<char>>::empty());
    }
}

/// Command round trip: reading a command's own request frame back yields
/// the command.
pub proof fn lemma_command_round_trip(c: CommandV)
    ensures
        spec_command_from_tokens(tokens_of(Some(spec_command_type(c)))) == Ok::<CommandV, CceV>(
            c,
        ),
{
    lemma_command_names_distinct();
    let toks = tokens_of(Some(spec_command_type(c)));
    match c {
        CommandV::Get(k) => {
            lemma_text_token("GET"@);
            lemma_text_token(k);
            assert(toks.drop_first() =~= seq![
                TypeV::BulkString(vstd::utf8::encode_utf8(k)),
            ]);
            assert(get::spec_get_fields(toks.drop_first()) == Ok::<Seq<char>, CceV>(k));
        },
        CommandV::SetCmd(k, v) => {
            lemma_text_token("SET"@);
            lemma_text_token(k);
            lemma_text_token(v);
            assert(toks.drop_first() =~= seq![
                TypeV::BulkString(vstd::utf8::encode_utf8(k)),
                TypeV::BulkString(vstd::utf8::encode_utf8(v)),
            ]);
            assert(set::spec_set_fields(toks.drop_first()) == Ok::<(Seq<char>, Seq<char>), CceV>(
                (k, v),
            ));
        },
        CommandV::Push(n, vs) => {
            lemma_text_token("PUSH"@);
            lemma_text_token(n);
            let rest = toks.drop_first();
            assert(rest.len() == 1 + vs.len());
            assert(rest[0] == TypeV::BulkString(vstd::utf8::encode_utf8(n)));
            assert forall|j: int|
                0 <= j < vs.len() implies rest[1 + j] == TypeV::BulkString(
                vstd::utf8::encode_utf8(#[trigger] vs[j]),
            ) by {
                assert(vs.map_values(|v: Seq<char>| TypeV::BulkString(
                    vstd::utf8::encode_utf8(v)))[j] == TypeV::BulkString(
                    vstd::utf8::encode_utf8(vs[j]),
                ));
            }
            lemma_push_values_round(rest, 1, vs);
            assert(list::spec_push_fields(rest) == Ok::<(Seq<char>, Seq<Seq<char>>), CceV>(
                (n, vs),
            ));
        },
        CommandV::Watch(k, op) => {
            lemma_text_token("WATCH"@);
            lemma_text_token(k);
            let code = crate::database::op_code(op);
            assert(toks.drop_first() =~= seq![
                TypeV::BulkString(vstd::utf8::encode_utf8(k)),
                TypeV::Integer(code),
            ]);
            assert(crate::resp::spec_to_integer(TypeV::Integer(code)) == Ok::<int, TceV>(code));
            assert(1 <= code <= 4);
            let c64 = code as i64;
            assert(c64 & 0xff == c64) by (bit_vector)
                requires
                    1 <= c64 <= 4,
            ;
            assert(watch::spec_op_of_int(code) == op);
            assert(watch::spec_watch_fields(toks.drop_first()) == Ok::<
                (Seq<char>, crate::database::Operation),
                CceV,
            >((k, op)));
        },
    }
}

} // verus!
