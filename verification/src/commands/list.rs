//! The list commands: PUSH appends values to a named list.

use vstd::prelude::*;

use super::{CceV, CommandCreationError};
use crate::resp::{lemma_token_step, spec_to_string, tokens_of, Type, TypeConsumer,
    TypeConsumerError, TypeV};
use crate::text::str_eq_exec;

verus! {

/// Holds the list name and the values a PUSH appends.
#[derive(Debug)]
pub struct Push {
    /// The name of the list.
    pub list_name: String,
    /// The values to push into the list.
    pub values: Vec<String>,
}

/// The POP command, not yet wired to the store.
#[derive(Debug)]
pub struct Pop {
    list_name: String,
}

/// The values after a PUSH's list name: every remaining token read as text,
/// with the first unconvertible one failing the whole read.
pub open spec fn spec_push_values(toks: Seq<TypeV>, i: int) -> Result<Seq<Seq<char>>, CceV>
    decreases (if 0 <= i < toks.len() {
        toks.len() - i
    } else {
        0
    }),
{
    if i < 0 || i >= toks.len() {
        Ok(Seq::empty())
    } else {
        match spec_to_string(toks[i]) {
            Ok(s) => match spec_push_values(toks, i + 1) {
                Ok(rest) => Ok(seq![s] + rest),
                Err(e) => Err(e),
            },
            Err(ev) => Err(CceV::InvalidFrame(ev, "Not a String"@)),
        }
    }
}

/// The list name and values a PUSH's field tokens carry, or why they do not.
pub open spec fn spec_push_fields(toks: Seq<TypeV>) -> Result<(Seq<char>, Seq<Seq<char>>), CceV> {
    if toks.len() == 0 {
        Err(CceV::MissingField("list name"@))
    } else {
        match spec_to_string(toks[0]) {
            Err(ev) => Err(CceV::InvalidFrame(ev, "Not a String"@)),
            Ok(n) => match spec_push_values(toks, 1) {
                Ok(vs) => Ok((n, vs)),
                Err(e) => Err(e),
            },
        }
    }
}

impl Push {
    /// Reads the list name and then every remaining value from a consumer.
    pub fn from(type_consumer: &mut TypeConsumer) -> (r: Result<Self, CommandCreationError>)
        ensures
            ({
                let toks = tokens_of(old(type_consumer)@);
                match r {
                    Ok(p) => spec_push_fields(toks) == Ok::<(Seq<char>, Seq<Seq<char>>), CceV>(
                        (p.list_name@, p.values.deep_view()),
                    ),
                    Err(e) => spec_push_fields(toks) == Err::<(Seq<char>, Seq<Seq<char>>), CceV>(
                        e@,
                    ),
                }
            }),
    {
        let ghost toks = tokens_of(old(type_consumer)@);
        proof {
            lemma_token_step(old(type_consumer)@);
        }
        let list_name = match type_consumer.next_string() {
            Ok(n) => n,
            Err(e) => {
                match e {
                    TypeConsumerError::Empty => {
                        return Err(
                            CommandCreationError::MissingField("list name".to_owned()),
                        );
                    },
                    other => {
                        return Err(CommandCreationError::InvalidFrame(other, "Not a String"));
                    },
                }
            },
        };
        let mut values: Vec<String> = Vec::new();
        proof {
            assert(values.deep_view() =~= Seq::<Seq<char>>::empty());
            assert(tokens_of(type_consumer@) =~= toks.skip(1));
        }
        loop
            invariant
                toks == tokens_of(old(type_consumer)@),
                spec_push_fields(toks) == (match spec_push_values(toks, 1) {
                    Ok(vs) => Ok::<(Seq<char>, Seq<Seq<char>>), CceV>((list_name@, vs)),
                    Err(e) => Err::<(Seq<char>, Seq<Seq<char>>), CceV>(e),
                }),
                1 <= 1 + values@.len() <= toks.len(),
                tokens_of(type_consumer@) =~= toks.skip(1 + values@.len() as int),
                spec_to_string(toks[0]) is Ok,
                toks.len() >= 1,
                ({
                    let i = 1 + values@.len() as int;
                    match spec_push_values(toks, i) {
                        Ok(rest) => spec_push_values(toks, 1) == Ok::<Seq<Seq<char>>, CceV>(
                            values.deep_view() + rest,
                        ),
                        Err(e) => spec_push_values(toks, 1) == Err::<Seq<Seq<char>>, CceV>(e),
                    }
                }),
            ensures
                spec_push_values(toks, 1) == Ok::<Seq<Seq<char>>, CceV>(values.deep_view()),
            decreases toks.len() - values@.len(),
        {
            let ghost i = 1 + values@.len() as int;
            let ghost cur = type_consumer@;
            proof {
                lemma_token_step(cur);
            }
            match type_consumer.next_string() {
                Ok(item) => {
                    let ghost gitem = item@;
                    let ghost dv0 = values.deep_view();
                    proof {
                        assert(tokens_of(cur).len() > 0);
                        assert(tokens_of(cur) == toks.skip(i));
                        assert(i < toks.len()) by {
                            if i == toks.len() {
                                assert(toks.skip(i) =~= Seq::<TypeV>::empty());
                            }
                        }
                        assert(toks.skip(i).len() == toks.len() - i);
                        assert(toks.skip(i)[0] == toks[i]);
                        assert(tokens_of(cur)[0] == toks[i]);
                        assert(spec_push_values(toks, i) == (match spec_push_values(
                            toks,
                            i + 1,
                        ) {
                            Ok(rest) => Ok::<Seq<Seq<char>>, CceV>(seq![gitem] + rest),
                            Err(e) => Err::<Seq<Seq<char>>, CceV>(e),
                        }));
                    }
                    values.push(item);
                    proof {
                        assert(values.deep_view() =~= dv0 + seq![gitem]);
                        assert(tokens_of(type_consumer@) =~= toks.skip(1 + values@.len() as int));
                        if spec_push_values(toks, i + 1) is Ok {
                            assert(dv0 + (seq![gitem] + spec_push_values(toks, i + 1)->Ok_0)
                                =~= (dv0 + seq![gitem]) + spec_push_values(toks, i + 1)->Ok_0);
                        }
                    }
                },
                Err(e) => {
                    match e {
                        TypeConsumerError::Empty => {
                            proof {
                                assert(tokens_of(cur).len() == 0);
                                assert(tokens_of(cur) == toks.skip(i));
                                assert(i >= toks.len()) by {
                                    if i < toks.len() {
                                        assert(toks.skip(i).len() == toks.len() - i);
                                    }
                                }
                                assert(spec_push_values(toks, i) == Ok::<Seq<Seq<char>>, CceV>(
                                    Seq::empty(),
                                ));
                                assert(values.deep_view() + Seq::<Seq<char>>::empty()
                                    =~= values.deep_view());
                            }
                            break;
                        },
                        other => {
                            proof {
                                assert(tokens_of(cur).len() > 0);
                                assert(tokens_of(cur) == toks.skip(i));
                                assert(i < toks.len()) by {
                                    if i == toks.len() {
                                        assert(toks.skip(i) =~= Seq::<TypeV>::empty());
                                    }
                                }
                                assert(toks.skip(i)[0] == toks[i]);
                                assert(spec_push_values(toks, i) == Err::<Seq<Seq<char>>, CceV>(
                                    CceV::InvalidFrame(other@, "Not a String"@),
                                ));
                                assert(spec_push_values(toks, 1) == Err::<Seq<Seq<char>>, CceV>(
                                    CceV::InvalidFrame(other@, "Not a String"@),
                                ));
                                assert(spec_push_fields(toks) == Err::<
                                    (Seq<char>, Seq<Seq<char>>),
                                    CceV,
                                >(CceV::InvalidFrame(other@, "Not a String"@)));
                            }
                            return Err(
                                CommandCreationError::InvalidFrame(other, "Not a String"),
                            );
                        },
                    }
                },
            }
        }
        Ok(Push { list_name, values })
    }

    /// Writes this command as the RESP array that requests it.
    pub fn into_type(self) -> (t: Type)
        ensures
            t@ == super::spec_command_type(
                super::CommandV::Push(self.list_name@, self.values.deep_view()),
            ),
    {
        let mut ll: Vec<Type> = Vec::new();
        ll.push(Type::BulkString("PUSH".as_bytes_vec()));
        ll.push(Type::BulkString(self.list_name.as_str().as_bytes_vec()));
        let mut idx: usize = 0;
        while idx < self.values.len()
            invariant
                idx <= self.values@.len(),
                ll@.len() == 2 + idx,
                ll@[0]@ == TypeV::BulkString(vstd::utf8::encode_utf8("PUSH"@)),
                ll@[1]@ == TypeV::BulkString(vstd::utf8::encode_utf8(self.list_name@)),
                forall|j: int|
                    0 <= j < idx ==> ll@[2 + j]@ == TypeV::BulkString(
                        vstd::utf8::encode_utf8(#[trigger] self.values@[j]@),
                    ),
            decreases self.values@.len() - idx,
        {
            ll.push(Type::BulkString(self.values[idx].as_str().as_bytes_vec()));
            idx += 1;
        }
        proof {
            crate::resp::lemma_views_of(ll@);
            let target = seq![
                TypeV::BulkString(vstd::utf8::encode_utf8("PUSH"@)),
                TypeV::BulkString(vstd::utf8::encode_utf8(self.list_name@)),
            ] + self.values.deep_view().map_values(
                |v: Seq<char>| TypeV::BulkString(vstd::utf8::encode_utf8(v)),
            );
            assert(crate::resp::views_of(ll@) =~= target);
        }
        Type::Array(ll)
    }
}

/// Whether two string lists hold the same text, element by element.
pub fn string_vec_eq(a: &Vec<String>, b: &Vec<String>) -> (r: bool)
    ensures
        r == (a.deep_view() == b.deep_view()),
{
    if a.len() != b.len() {
        proof {
            assert(a.deep_view().len() != b.deep_view().len());
        }
        return false;
    }
    let n = a.len();
    let mut i: usize = 0;
    loop
        invariant
            0 <= i <= n,
            n == a@.len() == b@.len(),
            forall|j: int| 0 <= j < i ==> a.deep_view()[j] == b.deep_view()[j],
        ensures
            (i == n && forall|j: int| 0 <= j < n ==> a.deep_view()[j] == b.deep_view()[j]) || (i
                < n && a.deep_view()[i as int] != b.deep_view()[i as int]),
        decreases n - i,
    {
        if i >= n {
            break;
        }
        if !str_eq_exec(a[i].as_str(), b[i].as_str()) {
            break;
        }
        i = i + 1;
    }
    if i == n {
        proof {
            assert(a.deep_view() =~= b.deep_view());
        }
        true
    } else {
        false
    }
}

impl PartialEq for Push {
    /// Equality by list name and values.
    fn eq(&self, other: &Push) -> (r: bool) {
        str_eq_exec(self.list_name.as_str(), other.list_name.as_str()) && string_vec_eq(
            &self.values,
            &other.values,
        )
    }
}

impl vstd::std_specs::cmp::PartialEqSpecImpl for Push {
    open spec fn obeys_eq_spec() -> bool {
        true
    }

    open spec fn eq_spec(&self, other: &Push) -> bool {
        self.list_name@ == other.list_name@ && self.values.deep_view() == other.values.deep_view()
    }
}

} // verus!
