//! The WATCH command and the change events a watcher receives.

use vstd::prelude::*;

use super::{extract_or_err, CceV, CommandCreationError};
use crate::database::{op_code, spec_op_from, Operation};
use crate::resp::{lemma_token_step, spec_to_integer, spec_to_string, tokens_of, TceV, Type,
    TypeConsumer, TypeV};
use crate::text::str_eq_exec;

verus! {

/// Holds the key a WATCH subscribes to and the kind of change asked about.
#[derive(Debug)]
pub struct Watch {
    /// The key to watch.
    pub key: String,
    /// The kind of change to watch for.
    pub operation: Operation,
}

/// The operation named by an integer field: its low byte, read permissively.
pub open spec fn spec_op_of_int(v: int) -> Operation {
    spec_op_from(((v as i64) & 0xff) as u8)
}

/// The key and operation a WATCH's field tokens carry, or why they do not.
pub open spec fn spec_watch_fields(toks: Seq<TypeV>) -> Result<(Seq<char>, Operation), CceV> {
    if toks.len() == 0 {
        Err(CceV::MissingField("key"@))
    } else {
        match spec_to_string(toks[0]) {
            Err(ev) => Err(CceV::InvalidFrame(ev, "key"@)),
            Ok(k) => if toks.len() == 1 {
                Err(CceV::MissingField("operation"@))
            } else {
                match spec_to_integer(toks[1]) {
                    Err(ev) => Err(CceV::InvalidFrame(ev, "operation"@)),
                    Ok(v) => Ok((k, spec_op_of_int(v))),
                }
            },
        }
    }
}

impl Watch {
    /// Reads the key and operation fields from a consumer.
    pub fn from(type_consumer: &mut TypeConsumer) -> (r: Result<Self, CommandCreationError>)
        ensures
            ({
                let toks = tokens_of(old(type_consumer)@);
                match r {
                    Ok(w) => spec_watch_fields(toks) == Ok::<(Seq<char>, Operation), CceV>(
                        (w.key@, w.operation),
                    ),
                    Err(e) => spec_watch_fields(toks) == Err::<(Seq<char>, Operation), CceV>(e@),
                }
            }),
    {
        proof {
            lemma_token_step(old(type_consumer)@);
        }
        let key = match extract_or_err(type_consumer.next_string(), "key") {
            Ok(k) => k,
            Err(e) => {
                return Err(e);
            },
        };
        proof {
            lemma_token_step(type_consumer@);
        }
        let operation = match extract_or_err(type_consumer.next_integer(), "operation") {
            Ok(v) => v,
            Err(e) => {
                return Err(e);
            },
        };
        let low_word = operation & 0xff;
        proof {
            assert(0 <= (operation & 0xff) < 256) by (bit_vector);
        }
        let operation: Operation = Operation::from(low_word as u8);
        Ok(Watch { key, operation })
    }

    /// Writes this command as the RESP array that requests it.
    pub fn into_type(self) -> (t: Type)
        ensures
            t@ == super::spec_command_type(super::CommandV::Watch(self.key@, self.operation)),
    {
        let mut ll: Vec<Type> = Vec::new();
        ll.push(Type::BulkString("WATCH".as_bytes_vec()));
        ll.push(Type::BulkString(self.key.as_str().as_bytes_vec()));
        ll.push(Type::Integer(self.operation.code()));
        proof {
            crate::resp::lemma_views_of(ll@);
            assert(crate::resp::views_of(ll@) =~= seq![
                TypeV::BulkString(vstd::utf8::encode_utf8("WATCH"@)),
                TypeV::BulkString(vstd::utf8::encode_utf8(self.key@)),
                TypeV::Integer(op_code(self.operation)),
            ]);
        }
        Type::Array(ll)
    }
}

impl PartialEq for Watch {
    /// Equality by key and operation.
    fn eq(&self, other: &Watch) -> (r: bool) {
        str_eq_exec(self.key.as_str(), other.key.as_str()) && self.operation == other.operation
    }
}

impl vstd::std_specs::cmp::PartialEqSpecImpl for Watch {
    open spec fn obeys_eq_spec() -> bool {
        true
    }

    open spec fn eq_spec(&self, other: &Watch) -> bool {
        self.key@ == other.key@ && self.operation == other.operation
    }
}

/// A change event: the key, the kind of change, and the value before and
/// after it.
#[derive(Debug)]
pub struct WatchResult {
    /// The key that changed.
    pub key: String,
    /// The kind of change.
    pub operation: Operation,
    /// The value before the change, when the key already had one.
    pub before: Option<Type>,
    /// The value after the change.
    pub after: Type,
}

/// The mathematical value of a change event.
#[verifier::ext_equal]
pub ghost struct WatchResultV {
    pub key: Seq<char>,
    pub operation: Operation,
    pub before: Option<TypeV>,
    pub after: TypeV,
}

impl View for WatchResult {
    type V = WatchResultV;

    open spec fn view(&self) -> WatchResultV {
        WatchResultV {
            key: self.key@,
            operation: self.operation,
            before: match self.before {
                Some(b) => Some(b@),
                None => None,
            },
            after: self.after@,
        }
    }
}

/// The four-element RESP array a change event travels as: key, operation
/// code, the value before (or null), and the value after.
pub open spec fn spec_watch_result_type(w: WatchResultV) -> TypeV {
    TypeV::Array(
        seq![
            TypeV::SimpleString(w.key),
            TypeV::Integer(op_code(w.operation)),
            match w.before {
                Some(b) => b,
                None => TypeV::Null,
            },
            w.after,
        ],
    )
}

/// The change event a frame's tokens carry, or why they do not; a null
/// before-value reads back as the absence of one.
pub open spec fn spec_watch_result_from(toks: Seq<TypeV>) -> Result<WatchResultV, CceV> {
    if toks.len() == 0 {
        Err(CceV::MissingField("key"@))
    } else {
        match spec_to_string(toks[0]) {
            Err(ev) => Err(CceV::InvalidFrame(ev, "key"@)),
            Ok(k) => if toks.len() == 1 {
                Err(CceV::MissingField("operation"@))
            } else {
                match spec_to_integer(toks[1]) {
                    Err(ev) => Err(CceV::InvalidFrame(ev, "operation"@)),
                    Ok(v) => if toks.len() == 2 {
                        Err(CceV::InvalidFrame(TceV::Empty, "before"@))
                    } else if toks.len() == 3 {
                        Err(CceV::MissingField("after"@))
                    } else {
                        Ok(
                            WatchResultV {
                                key: k,
                                operation: spec_op_of_int(v),
                                before: if toks[2] is Null {
                                    None
                                } else {
                                    Some(toks[2])
                                },
                                after: toks[3],
                            },
                        )
                    },
                }
            },
        }
    }
}

impl WatchResult {
    /// Writes this event as the RESP array that carries it.
    pub fn into_type(self) -> (t: Type)
        ensures
            t@ == spec_watch_result_type(self@),
    {
        let ghost gw = self@;
        let mut message: Vec<Type> = Vec::new();
        message.push(Type::SimpleString(self.key));
        message.push(Type::Integer(self.operation.code()));
        match self.before {
            Some(b) => message.push(b),
            None => message.push(Type::Null),
        }
        message.push(self.after);
        proof {
            crate::resp::lemma_views_of(message@);
            assert(crate::resp::views_of(message@) =~= seq![
                TypeV::SimpleString(gw.key),
                TypeV::Integer(op_code(gw.operation)),
                match gw.before {
                    Some(b) => b,
                    None => TypeV::Null,
                },
                gw.after,
            ]);
        }
        Type::Array(message)
    }

    /// Reads a change event back out of a frame.
    pub fn from_type(w: Type) -> (r: Result<WatchResult, CommandCreationError>)
        ensures
            ({
                let toks = tokens_of(Some(w@));
                match r {
                    Ok(wr) => spec_watch_result_from(toks) == Ok::<WatchResultV, CceV>(wr@),
                    Err(e) => spec_watch_result_from(toks) == Err::<WatchResultV, CceV>(e@),
                }
            }),
    {
        let ghost toks = tokens_of(Some(w@));
        let mut type_consumer = TypeConsumer::new(w);
        proof {
            lemma_token_step(type_consumer@);
        }
        let key = match extract_or_err(type_consumer.next_string(), "key") {
            Ok(k) => k,
            Err(e) => {
                return Err(e);
            },
        };
        proof {
            lemma_token_step(type_consumer@);
        }
        let operation = match extract_or_err(type_consumer.next_integer(), "operation") {
            Ok(v) => v,
            Err(e) => {
                return Err(e);
            },
        };
        let low_word = operation & 0xff;
        proof {
            assert(0 <= (operation & 0xff) < 256) by (bit_vector);
        }
        let operation: Operation = Operation::from(low_word as u8);
        proof {
            lemma_token_step(type_consumer@);
        }
        let before = match type_consumer.next_type() {
            Ok(t) => {
                match t {
                    Type::Null => None,
                    other => Some(other),
                }
            },
            Err(e) => {
                return Err(CommandCreationError::InvalidFrame(e, "before"));
            },
        };
        proof {
            lemma_token_step(type_consumer@);
        }
        let after = match extract_or_err(type_consumer.next_type(), "after") {
            Ok(t) => t,
            Err(e) => {
                return Err(e);
            },
        };
        Ok(WatchResult { key, operation, before, after })
    }
}

} // verus!
