//! The GET command: look a key up.

use vstd::prelude::*;

use super::{extract_or_err, CceV, CommandCreationError};
use crate::resp::{lemma_token_step, spec_to_string, tokens_of, Type, TypeConsumer, TypeV};
use crate::text::str_eq_exec;

verus! {

/// Holds the key a GET looks up.
#[derive(Debug)]
pub struct Get {
    /// The key to read.
    pub key: String,
}

/// The key a GET's field tokens carry, or why they do not.
pub open spec fn spec_get_fields(toks: Seq<TypeV>) -> Result<Seq<char>, CceV> {
    if toks.len() == 0 {
        Err(CceV::MissingField("key"@))
    } else {
        match spec_to_string(toks[0]) {
            Ok(k) => Ok(k),
            Err(ev) => Err(CceV::InvalidFrame(ev, "key"@)),
        }
    }
}

impl Get {
    /// Reads the key field from a consumer.
    pub fn from(type_consumer: &mut TypeConsumer) -> (r: Result<Self, CommandCreationError>)
        ensures
            ({
                let toks = tokens_of(old(type_consumer)@);
                match r {
                    Ok(g) => spec_get_fields(toks) == Ok::<Seq<char>, CceV>(g.key@),
                    Err(e) => spec_get_fields(toks) == Err::<Seq<char>, CceV>(e@),
                }
            }),
    {
        proof {
            lemma_token_step(old(type_consumer)@);
        }
        let key = match extract_or_err(type_consumer.next_string(), "key") {
            Ok(k) => k,
            Err(e) => {
                return Err(e);
            },
        };
        Ok(Get { key })
    }

    /// Writes this command as the RESP array that requests it.
    pub fn into_type(self) -> (t: Type)
        ensures
            t@ == super::spec_command_type(super::CommandV::Get(self.key@)),
    {
        let mut ll: Vec<Type> = Vec::new();
        ll.push(Type::BulkString("GET".as_bytes_vec()));
        ll.push(Type::BulkString(self.key.as_str().as_bytes_vec()));
        proof {
            crate::resp::lemma_views_of(ll@);
            assert(crate::resp::views_of(ll@) =~= seq![
                TypeV::BulkString(vstd::utf8::encode_utf8("GET"@)),
                TypeV::BulkString(vstd::utf8::encode_utf8(self.key@)),
            ]);
        }
        Type::Array(ll)
    }
}

impl PartialEq for Get {
    /// Equality by the key.
    fn eq(&self, other: &Get) -> (r: bool) {
        str_eq_exec(self.key.as_str(), other.key.as_str())
    }
}

impl vstd::std_specs::cmp::PartialEqSpecImpl for Get {
    open spec fn obeys_eq_spec() -> bool {
        true
    }

    open spec fn eq_spec(&self, other: &Get) -> bool {
        self.key@ == other.key@
    }
}

} // verus!
