//! The SET command: give a key a string value.

use vstd::prelude::*;

use super::{extract_or_err, CceV, CommandCreationError};
use crate::resp::{lemma_token_step, spec_to_string, tokens_of, Type, TypeConsumer, TypeV};
use crate::text::str_eq_exec;

verus! {

/// Holds the key and value a SET stores.
#[derive(Debug)]
pub struct SetCommand {
    /// The key to write.
    pub key: String,
    /// The value to store under it.
    pub value: String,
}

/// The key and value a SET's field tokens carry, or why they do not; a
/// missing or unconvertible value is reported under the key's field name.
pub open spec fn spec_set_fields(toks: Seq<TypeV>) -> Result<(Seq<char>, Seq<char>), CceV> {
    if toks.len() == 0 {
        Err(CceV::MissingField("key"@))
    } else {
        match spec_to_string(toks[0]) {
            Err(ev) => Err(CceV::InvalidFrame(ev, "key"@)),
            Ok(k) => if toks.len() == 1 {
                Err(CceV::MissingField("key"@))
            } else {
                match spec_to_string(toks[1]) {
                    Err(ev) => Err(CceV::InvalidFrame(ev, "key"@)),
                    Ok(v) => Ok((k, v)),
                }
            },
        }
    }
}

impl SetCommand {
    /// Reads the key and value fields from a consumer.
    pub fn from(type_consumer: &mut TypeConsumer) -> (r: Result<Self, CommandCreationError>)
        ensures
            ({
                let toks = tokens_of(old(type_consumer)@);
                match r {
                    Ok(s) => spec_set_fields(toks) == Ok::<(Seq<char>, Seq<char>), CceV>(
                        (s.key@, s.value@),
                    ),
                    Err(e) => spec_set_fields(toks) == Err::<(Seq<char>, Seq<char>), CceV>(e@),
                }
            }),
    {
        let ghost c0 = old(type_consumer)@;
        proof {
            lemma_token_step(c0);
        }
        let key = match extract_or_err(type_consumer.next_string(), "key") {
            Ok(k) => k,
            Err(e) => {
                return Err(e);
            },
        };
        proof {
            lemma_token_step(type_consumer@);
        }
        let value = match extract_or_err(type_consumer.next_string(), "key") {
            Ok(v) => v,
            Err(e) => {
                return Err(e);
            },
        };
        Ok(SetCommand { key, value })
    }

    /// Writes this command as the RESP array that requests it.
    pub fn into_type(self) -> (t: Type)
        ensures
            t@ == super::spec_command_type(super::CommandV::SetCmd(self.key@, self.value@)),
    {
        let mut ll: Vec<Type> = Vec::new();
        ll.push(Type::BulkString("SET".as_bytes_vec()));
        ll.push(Type::BulkString(self.key.as_str().as_bytes_vec()));
        ll.push(Type::BulkString(self.value.as_str().as_bytes_vec()));
        proof {
            crate::resp::lemma_views_of(ll@);
            assert(crate::resp::views_of(ll@) =~= seq![
                TypeV::BulkString(vstd::utf8::encode_utf8("SET"@)),
                TypeV::BulkString(vstd::utf8::encode_utf8(self.key@)),
                TypeV::BulkString(vstd::utf8::encode_utf8(self.value@)),
            ]);
        }
        Type::Array(ll)
    }
}

impl PartialEq for SetCommand {
    /// Equality by key and value.
    fn eq(&self, other: &SetCommand) -> (r: bool) {
        str_eq_exec(self.key.as_str(), other.key.as_str()) && str_eq_exec(
            self.value.as_str(),
            other.value.as_str(),
        )
    }
}

impl vstd::std_specs::cmp::PartialEqSpecImpl for SetCommand {
    open spec fn obeys_eq_spec() -> bool {
        true
    }

    open spec fn eq_spec(&self, other: &SetCommand) -> bool {
        self.key@ == other.key@ && self.value@ == other.value@
    }
}

} // verus!
