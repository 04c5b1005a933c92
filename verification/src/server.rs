//! The server's decision core: one request frame in, one reply frame and
//! the change events to deliver out. The surrounding process reads frames
//! from sockets, calls [`respond`], writes the reply back, and sends each
//! delivery to the queue its handle names.

use vstd::prelude::*;
use vstd::utf8::encode_utf8;

use crate::commands::{
    spec_command_from_tokens, spec_render_cce, CceV, Command, CommandCreationError, CommandV,
};
use crate::database::{
    pushed_items, spec_change_event, spec_get_result, spec_value_type, subs_for, Database,
    Delivery, OperationSubscription, ValueV,
};
use crate::resp::{tokens_of, Type, TypeConsumer, TypeV};
use crate::text::{bytes_to_string, lemma_encode_utf8_concat};

verus! {

/// A server instance; the listening loop around it lives with the process.
#[derive(Debug)]
pub struct RedisServer {}

impl RedisServer {
    /// Makes a server instance.
    pub fn new() -> (r: Self) {
        RedisServer {  }
    }
}

/// The error frame a failed decode answers with.
pub fn error(e: CommandCreationError) -> (t: Type)
    ensures
        t@ == TypeV::Error("Error: "@ + spec_render_cce(e@)),
{
    let rendered = e.render();
    let mut out = "Error: ".as_bytes_vec();
    let mut tail = rendered.as_str().as_bytes_vec();
    out.append(&mut tail);
    proof {
        lemma_encode_utf8_concat("Error: "@, rendered@);
        assert(out@ =~= encode_utf8("Error: "@ + spec_render_cce(e@)));
        vstd::utf8::encode_utf8_valid_utf8("Error: "@ + spec_render_cce(e@));
    }
    match bytes_to_string(out) {
        Some(s) => {
            proof {
                vstd::utf8::encode_utf8_decode_utf8(s@);
                vstd::utf8::encode_utf8_decode_utf8("Error: "@ + spec_render_cce(e@));
            }
            Type::Error(s)
        },
        None => vstd::pervasive::unreached(),
    }
}

/// The store's data after a command runs against it.
pub open spec fn spec_next_data(m: Map<Seq<u8>, ValueV>, c: CommandV) -> Map<Seq<u8>, ValueV> {
    match c {
        CommandV::Get(_) => m,
        CommandV::SetCmd(k, v) => m.insert(encode_utf8(k), ValueV::Str(encode_utf8(v))),
        CommandV::Push(n, vs) => {
            let kb = encode_utf8(n);
            let items = pushed_items(vs);
            if !m.contains_key(kb) {
                m.insert(kb, ValueV::List(items))
            } else {
                match m[kb] {
                    ValueV::Str(_) => m,
                    ValueV::List(old) => m.insert(kb, ValueV::List(old + items)),
                }
            }
        },
        CommandV::Watch(_, _) => m,
    }
}

/// The subscriptions after a command runs: only WATCH adds one.
pub open spec fn spec_next_subs(
    s: Map<Seq<u8>, Seq<OperationSubscription>>,
    c: CommandV,
    subscriber: u64,
) -> Map<Seq<u8>, Seq<OperationSubscription>> {
    match c {
        CommandV::Watch(k, op) => s.insert(
            encode_utf8(k),
            subs_for(s, encode_utf8(k)) + seq![
                OperationSubscription { operation: op, subscriber },
            ],
        ),
        _ => s,
    }
}

/// The reply a command earns over a store.
pub open spec fn spec_reply(m: Map<Seq<u8>, ValueV>, c: CommandV) -> TypeV {
    match c {
        CommandV::Get(k) => spec_get_result(m, k),
        CommandV::SetCmd(_, _) => TypeV::SimpleString("Ok"@),
        CommandV::Push(n, vs) => {
            let kb = encode_utf8(n);
            if !m.contains_key(kb) {
                TypeV::Integer(vs.len() as int)
            } else {
                match m[kb] {
                    ValueV::Str(_) => TypeV::Error(
                        "key `"@ + n + "` exists and it is not a list"@,
                    ),
                    ValueV::List(old) => TypeV::Integer(old.len() + vs.len() as int),
                }
            }
        },
        CommandV::Watch(_, _) => TypeV::SimpleString("Ok"@),
    }
}

/// Whether the reply's number fits a signed 64-bit integer; only a PUSH
/// reply carries one.
pub open spec fn spec_reply_fits(m: Map<Seq<u8>, ValueV>, c: CommandV) -> bool {
    match c {
        CommandV::Push(n, vs) => {
            let kb = encode_utf8(n);
            if m.contains_key(kb) && m[kb] is List {
                m[kb]->List_0.len() + vs.len() <= i64::MAX
            } else {
                vs.len() <= i64::MAX
            }
        },
        _ => true,
    }
}

/// Decodes one request frame, runs it against the store, and hands back the
/// reply and the change events to deliver; a frame that decodes to no
/// command earns an error reply and changes nothing.
pub fn respond(db: &mut Database, frame: Type, subscriber: u64) -> (r: (Type, Vec<Delivery>))
    requires
        old(db).wf(),
    ensures
        final(db).wf(),
        ({
            let decoded = spec_command_from_tokens(tokens_of(Some(frame@)));
            match decoded {
                Ok(c) => {
                    &&& final(db).data_view() == spec_next_data(old(db).data_view(), c)
                    &&& final(db).subs_view() == spec_next_subs(
                        old(db).subs_view(),
                        c,
                        subscriber,
                    )
                    &&& (spec_reply_fits(old(db).data_view(), c) ==> r.0@ == spec_reply(
                        old(db).data_view(),
                        c,
                    ))
                    &&& match c {
                        CommandV::SetCmd(k, v) => {
                            let subs = subs_for(old(db).subs_view(), encode_utf8(k));
                            let before = if old(db).data_view().contains_key(encode_utf8(k)) {
                                Some(spec_value_type(old(db).data_view()[encode_utf8(k)]))
                            } else {
                                None
                            };
                            let event = spec_change_event(k, before, TypeV::SimpleString(v));
                            r.1@.len() == subs.len() && forall|i: int|
                                0 <= i < subs.len() ==> (#[trigger] r.1@[i]).subscriber
                                    == subs[i].subscriber && r.1@[i].payload@ == event
                        },
                        _ => r.1@.len() == 0,
                    }
                },
                Err(e) => {
                    &&& final(db).data_view() == old(db).data_view()
                    &&& final(db).subs_view() == old(db).subs_view()
                    &&& r.0@ == TypeV::Error("Error: "@ + spec_render_cce(e))
                    &&& r.1@.len() == 0
                },
            }
        }),
{
    let mut type_consumer = TypeConsumer::new(frame);
    match Command::new(&mut type_consumer) {
        Ok(command) => {
            match command {
                Command::Get(g) => {
                    let t = db.get(g);
                    (t, Vec::new())
                },
                Command::SetCmd(s) => db.set(s),
                Command::Push(p) => {
                    let t = db.push(p);
                    (t, Vec::new())
                },
                Command::Watch(w) => {
                    let t = db.watch(w, subscriber);
                    (t, Vec::new())
                },
            }
        },
        Err(e) => (error(e), Vec::new()),
    }
}

} // verus!
