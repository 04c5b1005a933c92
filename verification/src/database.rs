//! The in-memory store: string and list values under binary-safe keys, and
//! the change subscriptions that watch them.

use vstd::prelude::*;
use vstd::utf8::{decode_utf8, encode_utf8, valid_utf8, encode_utf8_decode_utf8,
    encode_utf8_valid_utf8};

use crate::commands::get::Get;
use crate::commands::list::Push;
use crate::commands::set::SetCommand;
use crate::commands::watch::{spec_watch_result_type, Watch, WatchResult, WatchResultV};
use crate::resp::{type_clone, Type, TypeV};
use crate::text::{bytes_to_string, lemma_encode_utf8_concat};

verus! {

/// The kind of change a subscription asks about or an event reports.
#[derive(Debug, PartialEq, Eq, Structural, Clone, Copy)]
pub enum Operation {
    /// A key was given its first value.
    Addition,
    /// A key's value was replaced.
    Update,
    /// A key was removed.
    Removal,
    /// Any of the above.
    All,
}

/// The numeric code an operation travels as.
pub open spec fn op_code(op: Operation) -> int {
    match op {
        Operation::Addition => 1,
        Operation::Update => 2,
        Operation::Removal => 3,
        Operation::All => 4,
    }
}

/// The operation a numeric code names; unknown codes read as `All`.
pub open spec fn spec_op_from(id: u8) -> Operation {
    if id == 1 {
        Operation::Addition
    } else if id == 2 {
        Operation::Update
    } else if id == 3 {
        Operation::Removal
    } else {
        Operation::All
    }
}

impl Operation {
    /// The numeric code of this operation.
    pub fn code(&self) -> (r: i64)
        ensures
            r as int == op_code(*self),
    {
        match self {
            Operation::Addition => 1,
            Operation::Update => 2,
            Operation::Removal => 3,
            Operation::All => 4,
        }
    }
}

impl From<u8> for Operation {
    /// Reads an operation from its numeric code, permissively.
    fn from(id: u8) -> (r: Self) {
        if id == 1 {
            Operation::Addition
        } else if id == 2 {
            Operation::Update
        } else if id == 3 {
            Operation::Removal
        } else {
            Operation::All
        }
    }
}

impl vstd::std_specs::convert::FromSpecImpl<u8> for Operation {
    open spec fn obeys_from_spec() -> bool {
        true
    }

    open spec fn from_spec(v: u8) -> Operation {
        spec_op_from(v)
    }
}

/// A key or stored text as raw bytes; equality is by the bytes.
#[derive(Debug)]
pub struct RedisString {
    bytes: Vec<u8>,
}

impl View for RedisString {
    type V = Seq<u8>;

    closed spec fn view(&self) -> Seq<u8> {
        self.bytes@
    }
}

impl RedisString {
    /// Wraps a string's UTF-8 bytes.
    pub fn from_string(s: &String) -> (r: Self)
        ensures
            r@ == encode_utf8(s@),
    {
        RedisString { bytes: s.as_str().as_bytes_vec() }
    }

    /// Whether this key holds the same bytes as another.
    pub fn key_eq(&self, other: &RedisString) -> (r: bool)
        ensures
            r == (self@ == other@),
    {
        let r = self.bytes == other.bytes;
        proof {
            if r {
                assert(self.bytes@ =~= other.bytes@);
            }
            if self.bytes@ == other.bytes@ {
                assert(self.bytes@.len() == other.bytes@.len());
                assert(r);
            }
        }
        r
    }
}

/// A stored value: a byte string, or a list of values.
#[derive(Debug)]
pub enum Value {
    /// A byte string.
    String(RedisString),
    /// An ordered list.
    List(Vec<Value>),
}

/// The mathematical value of a stored value.
#[verifier::ext_equal]
pub ghost enum ValueV {
    Str(Seq<u8>),
    List(Seq<ValueV>),
}

/// The values of a sequence of stored values.
pub open spec fn value_views_of(vs: Seq<Value>) -> Seq<ValueV>
    decreases vs,
{
    if vs.len() == 0 {
        Seq::empty()
    } else {
        seq![vs[0]@] + value_views_of(vs.drop_first())
    }
}

impl View for Value {
    type V = ValueV;

    open spec fn view(&self) -> ValueV
        decreases self,
    {
        match self {
            Value::String(s) => ValueV::Str(s@),
            Value::List(l) => ValueV::List(value_views_of(l@)),
        }
    }
}

/// `value_views_of` maps the sequence element by element.
pub proof fn lemma_value_views_of(vs: Seq<Value>)
    ensures
        value_views_of(vs).len() == vs.len(),
        forall|i: int| 0 <= i < vs.len() ==> value_views_of(vs)[i] == vs[i]@,
    decreases vs,
{
    if vs.len() > 0 {
        lemma_value_views_of(vs.drop_first());
        assert(value_views_of(vs) == seq![vs[0]@] + value_views_of(vs.drop_first()));
        assert forall|i: int| 0 <= i < vs.len() implies value_views_of(vs)[i] == vs[i]@ by {
            if i >= 1 {
                assert(vs.drop_first()[i - 1] == vs[i]);
                assert(value_views_of(vs)[i] == value_views_of(vs.drop_first())[i - 1]);
            }
        }
    }
}

/// A well-formed stored value: every byte string in it is valid UTF-8.
pub open spec fn wf_value(v: ValueV) -> bool
    decreases v,
{
    match v {
        ValueV::Str(b) => valid_utf8(b),
        ValueV::List(vs) => forall|i: int| 0 <= i < vs.len() ==> wf_value(#[trigger] vs[i]),
    }
}

/// How a list's children answer a read: string children decode to simple
/// strings, and children that are not UTF-8 strings are left out.
pub open spec fn spec_list_items(vs: Seq<ValueV>) -> Seq<TypeV>
    decreases vs.len(),
{
    if vs.len() == 0 {
        Seq::empty()
    } else {
        spec_list_items(vs.drop_last()) + (match vs.last() {
            ValueV::Str(b) => if valid_utf8(b) {
                seq![TypeV::SimpleString(decode_utf8(b))]
            } else {
                Seq::empty()
            },
            ValueV::List(_) => Seq::empty(),
        })
    }
}

/// How a stored value answers a read: text decodes to a simple string and a
/// list becomes an array of its string children.
pub open spec fn spec_value_type(v: ValueV) -> TypeV {
    match v {
        ValueV::Str(b) => TypeV::SimpleString(decode_utf8(b)),
        ValueV::List(vs) => TypeV::Array(spec_list_items(vs)),
    }
}

/// Converts a stored value to the frame that reports it.
fn value_to_type(v: &Value) -> (t: Type)
    requires
        wf_value(v@),
    ensures
        t@ == spec_value_type(v@),
{
    match v {
        Value::String(s) => {
            let bytes = vstd::slice::slice_to_vec(s.bytes.as_slice());
            match bytes_to_string(bytes) {
                Some(text) => {
                    proof {
                        encode_utf8_valid_utf8(text@);
                        encode_utf8_decode_utf8(text@);
                    }
                    Type::SimpleString(text)
                },
                None => vstd::pervasive::unreached(),
            }
        },
        Value::List(l) => {
            proof {
                lemma_value_views_of(l@);
            }
            let ghost children = value_views_of(l@);
            let mut out: Vec<Type> = Vec::new();
            let mut i: usize = 0;
            while i < l.len()
                invariant
                    i <= l@.len(),
                    *v == Value::List(*l),
                    children == value_views_of(l@),
                    children.len() == l@.len(),
                    forall|j: int| 0 <= j < l@.len() ==> children[j] == l@[j]@,
                    crate::resp::views_of(out@) == spec_list_items(children.take(i as int)),
                decreases l@.len() - i,
            {
                let ghost done = spec_list_items(children.take(i as int));
                proof {
                    assert(children.take(i as int + 1).drop_last() =~= children.take(i as int));
                    assert(children.take(i as int + 1).last() == children[i as int]);
                    crate::resp::lemma_views_of(out@);
                }
                match &l[i] {
                    Value::String(s) => {
                        let bytes = vstd::slice::slice_to_vec(s.bytes.as_slice());
                        let ghost gb = bytes@;
                        match bytes_to_string(bytes) {
                            Some(text) => {
                                proof {
                                    encode_utf8_valid_utf8(text@);
                                    encode_utf8_decode_utf8(text@);
                                }
                                out.push(Type::SimpleString(text));
                                proof {
                                    crate::resp::lemma_views_of(out@);
                                    assert(crate::resp::views_of(out@) =~= spec_list_items(
                                        children.take(i as int + 1),
                                    ));
                                }
                            },
                            None => {
                                proof {
                                    assert(crate::resp::views_of(out@) =~= spec_list_items(
                                        children.take(i as int + 1),
                                    ));
                                }
                            },
                        }
                    },
                    Value::List(inner) => {
                        proof {
                            assert(l@[i as int]@ is List);
                            assert(crate::resp::views_of(out@) =~= spec_list_items(
                                children.take(i as int + 1),
                            ));
                        }
                    },
                }
                i += 1;
            }
            proof {
                assert(children.take(l@.len() as int) =~= children);
            }
            Type::Array(out)
        },
    }
}

/// One registered watcher: the change filter it asked for and the handle of
/// the queue its events go to.
#[derive(Debug, PartialEq, Eq, Structural, Clone, Copy)]
pub struct OperationSubscription {
    /// The kind of change asked about.
    pub operation: Operation,
    /// The handle of the subscriber's event queue.
    pub subscriber: u64,
}

impl OperationSubscription {
    /// Makes a subscription for the given filter and queue handle.
    pub fn new(operation: Operation, subscriber: u64) -> (r: Self)
        ensures
            r == (OperationSubscription { operation, subscriber }),
    {
        OperationSubscription { operation, subscriber }
    }
}

/// One event to hand to one subscriber's queue.
#[derive(Debug)]
pub struct Delivery {
    /// The handle of the queue to send on.
    pub subscriber: u64,
    /// The event frame to send.
    pub payload: Type,
}

struct Entry {
    key: RedisString,
    value: Value,
}

struct SubEntry {
    key: RedisString,
    subs: Vec<OperationSubscription>,
}

/// The data half of the store as a map from key bytes to values.
spec fn entries_map(es: Seq<Entry>) -> Map<Seq<u8>, ValueV>
    decreases es.len(),
{
    if es.len() == 0 {
        Map::empty()
    } else {
        entries_map(es.drop_last()).insert(es.last().key@, es.last().value@)
    }
}

/// The subscription half of the store as a map from key bytes to the
/// subscriptions under them, in registration order.
spec fn subs_map(es: Seq<SubEntry>) -> Map<Seq<u8>, Seq<OperationSubscription>>
    decreases es.len(),
{
    if es.len() == 0 {
        Map::empty()
    } else {
        subs_map(es.drop_last()).insert(es.last().key@, es.last().subs@)
    }
}

/// The in-memory store and its change subscriptions.
pub struct Database {
    entries: Vec<Entry>,
    subs: Vec<SubEntry>,
}

impl Database {
    /// What the store holds: key bytes to values.
    pub closed spec fn data_view(&self) -> Map<Seq<u8>, ValueV> {
        entries_map(self.entries@)
    }

    /// Who watches what: key bytes to subscriptions in registration order.
    pub closed spec fn subs_view(&self) -> Map<Seq<u8>, Seq<OperationSubscription>> {
        subs_map(self.subs@)
    }

    /// A sound store: keys are unique on both halves and every stored value
    /// is well formed.
    pub closed spec fn wf(&self) -> bool {
        &&& forall|i: int, j: int|
            0 <= i < j < self.entries@.len() ==> self.entries@[i].key@ != self.entries@[j].key@
        &&& forall|i: int|
            0 <= i < self.entries@.len() ==> wf_value(#[trigger] self.entries@[i].value@)
        &&& forall|i: int, j: int|
            0 <= i < j < self.subs@.len() ==> self.subs@[i].key@ != self.subs@[j].key@
    }
}

/// The subscriptions under a key, or none.
pub open spec fn subs_for(m: Map<Seq<u8>, Seq<OperationSubscription>>, k: Seq<u8>) -> Seq<
    OperationSubscription,
> {
    if m.contains_key(k) {
        m[k]
    } else {
        Seq::empty()
    }
}

/// What an assoc-list half of the store says about membership and lookup,
/// given unique keys.
proof fn lemma_entries_map(es: Seq<Entry>)
    requires
        forall|i: int, j: int| 0 <= i < j < es.len() ==> es[i].key@ != es[j].key@,
    ensures
        forall|k: Seq<u8>|
            #[trigger] entries_map(es).contains_key(k) <==> exists|i: int|
                0 <= i < es.len() && es[i].key@ == k,
        forall|i: int|
            0 <= i < es.len() ==> entries_map(es)[#[trigger] es[i].key@] == es[i].value@,
    decreases es.len(),
{
    if es.len() > 0 {
        let head = es.drop_last();
        assert(forall|i: int, j: int| 0 <= i < j < head.len() ==> head[i].key@ != head[j].key@);
        lemma_entries_map(head);
        assert forall|k: Seq<u8>|
            #[trigger] entries_map(es).contains_key(k) <==> exists|i: int|
                0 <= i < es.len() && es[i].key@ == k by {
            if entries_map(es).contains_key(k) {
                if k == es.last().key@ {
                    assert(es[es.len() - 1].key@ == k);
                } else {
                    assert(entries_map(head).contains_key(k));
                    let i = choose|i: int| 0 <= i < head.len() && head[i].key@ == k;
                    assert(head[i] == es[i]);
                    assert(es[i].key@ == k);
                }
            }
            if exists|i: int| 0 <= i < es.len() && es[i].key@ == k {
                let i = choose|i: int| 0 <= i < es.len() && es[i].key@ == k;
                if i < es.len() - 1 {
                    assert(head[i] == es[i]);
                    assert(head[i].key@ == k);
                    assert(entries_map(head).contains_key(k));
                }
                assert(entries_map(es).contains_key(k));
            }
        }
        assert forall|i: int|
            0 <= i < es.len() implies entries_map(es)[#[trigger] es[i].key@] == es[i].value@ by {
            if i < es.len() - 1 {
                assert(head[i] == es[i]);
                assert(head[i].key@ == es[i].key@ && head[i].value@ == es[i].value@);
                assert(es[i].key@ != es.last().key@);
            }
        }
    }
}

/// Finds the entry holding the given key, if any.
fn find_entry(entries: &Vec<Entry>, key: &RedisString) -> (r: Option<usize>)
    ensures
        match r {
            Some(i) => i < entries@.len() && entries@[i as int].key@ == key@,
            None => forall|i: int| 0 <= i < entries@.len() ==> entries@[i].key@ != key@,
        },
{
    let mut i: usize = 0;
    while i < entries.len()
        invariant
            i <= entries@.len(),
            forall|j: int| 0 <= j < i ==> entries@[j].key@ != key@,
        decreases entries@.len() - i,
    {
        if entries[i].key.key_eq(key) {
            return Some(i);
        }
        i += 1;
    }
    None
}

/// Finds the subscription list under the given key, if any.
fn find_sub(subs: &Vec<SubEntry>, key: &RedisString) -> (r: Option<usize>)
    ensures
        match r {
            Some(i) => i < subs@.len() && subs@[i as int].key@ == key@,
            None => forall|i: int| 0 <= i < subs@.len() ==> subs@[i].key@ != key@,
        },
{
    let mut i: usize = 0;
    while i < subs.len()
        invariant
            i <= subs@.len(),
            forall|j: int| 0 <= j < i ==> subs@[j].key@ != key@,
        decreases subs@.len() - i,
    {
        if subs[i].key.key_eq(key) {
            return Some(i);
        }
        i += 1;
    }
    None
}

/// What a GET answers over a store: the key's value as a frame, or null.
pub open spec fn spec_get_result(m: Map<Seq<u8>, ValueV>, key: Seq<char>) -> TypeV {
    let kb = encode_utf8(key);
    if m.contains_key(kb) {
        spec_value_type(m[kb])
    } else {
        TypeV::Null
    }
}

impl Database {
    /// Makes an empty store with no subscriptions.
    pub fn new() -> (r: Self)
        ensures
            r.wf(),
            r.data_view() == Map::<Seq<u8>, ValueV>::empty(),
            r.subs_view() == Map::<Seq<u8>, Seq<OperationSubscription>>::empty(),
    {
        Database { entries: Vec::new(), subs: Vec::new() }
    }

    /// Answers a GET: the stored value converted to a frame, or null when
    /// the key is absent.
    pub fn get(&self, get: Get) -> (t: Type)
        requires
            self.wf(),
        ensures
            t@ == spec_get_result(self.data_view(), get.key@),
    {
        let rs = RedisString::from_string(&get.key);
        proof {
            lemma_entries_map(self.entries@);
        }
        match find_entry(&self.entries, &rs) {
            Some(i) => value_to_type(&self.entries[i].value),
            None => Type::Null,
        }
    }
}

/// The event frame a change produces: the key, the operation (an update
/// when the key already had a value, an addition otherwise), and the value
/// before and after.
pub open spec fn spec_change_event(
    key: Seq<char>,
    before: Option<TypeV>,
    after: TypeV,
) -> TypeV {
    spec_watch_result_type(
        WatchResultV {
            key,
            operation: if before is Some {
                Operation::Update
            } else {
                Operation::Addition
            },
            before,
            after,
        },
    )
}

impl Database {
    /// Builds one delivery per subscription under the key, each carrying the
    /// same change event; every subscriber receives every event for its key,
    /// whatever filter it registered.
    pub fn invoke_subscribers(&self, key: &String, before: Option<Type>, after: Type) -> (r: Vec<
        Delivery,
    >)
        requires
            self.wf(),
        ensures
            ({
                let subs = subs_for(self.subs_view(), encode_utf8(key@));
                let event = spec_change_event(
                    key@,
                    match before {
                        Some(b) => Some(b@),
                        None => None,
                    },
                    after@,
                );
                r@.len() == subs.len() && forall|i: int|
                    0 <= i < subs.len() ==> (#[trigger] r@[i]).subscriber == subs[i].subscriber
                        && r@[i].payload@ == event
            }),
    {
        let rs = RedisString::from_string(key);
        proof {
            lemma_subs_map(self.subs@);
        }
        let operation = match &before {
            Some(_) => Operation::Update,
            None => Operation::Addition,
        };
        let ghost event = spec_change_event(
            key@,
            match &before {
                Some(b) => Some(b@),
                None => None,
            },
            after@,
        );
        let mut out: Vec<Delivery> = Vec::new();
        match find_sub(&self.subs, &rs) {
            Some(idx) => {
                let ghost subs = subs_for(self.subs_view(), encode_utf8(key@));
                proof {
                    assert(self.subs_view().contains_key(rs@));
                    assert(subs == self.subs@[idx as int].subs@);
                }
                let n = self.subs[idx].subs.len();
                let mut i: usize = 0;
                while i < n
                    invariant
                        i <= n,
                        self.wf(),
                        idx < self.subs@.len(),
                        n == self.subs@[idx as int].subs@.len(),
                        subs == self.subs@[idx as int].subs@,
                        event == spec_change_event(
                            key@,
                            match &before {
                                Some(b) => Some(b@),
                                None => None,
                            },
                            after@,
                        ),
                        operation == (if before is Some {
                            Operation::Update
                        } else {
                            Operation::Addition
                        }),
                        out@.len() == i,
                        forall|j: int|
                            0 <= j < i ==> (#[trigger] out@[j]).subscriber == subs[j].subscriber
                                && out@[j].payload@ == event,
                    decreases n - i,
                {
                    let cloned_before = match &before {
                        Some(b) => Some(type_clone(b)),
                        None => None,
                    };
                    let payload = (WatchResult {
                        key: key.clone(),
                        operation,
                        before: cloned_before,
                        after: type_clone(&after),
                    }).into_type();
                    out.push(
                        Delivery { subscriber: self.subs[idx].subs[i].subscriber, payload },
                    );
                    i += 1;
                }
                out
            },
            None => {
                proof {
                    assert(!self.subs_view().contains_key(rs@)) by {
                        if self.subs_view().contains_key(rs@) {
                            let i = choose|i: int|
                                0 <= i < self.subs@.len() && self.subs@[i].key@ == rs@;
                        }
                    }
                }
                out
            },
        }
    }

    /// Answers a SET: stores the value under the key, replies `Ok`, and
    /// hands back one change event per subscription under that key, with
    /// `after` the new value and `before` the replaced one, if any.
    pub fn set(&mut self, set: SetCommand) -> (r: (Type, Vec<Delivery>))
        requires
            old(self).wf(),
        ensures
            final(self).wf(),
            final(self).data_view() == old(self).data_view().insert(
                encode_utf8(set.key@),
                ValueV::Str(encode_utf8(set.value@)),
            ),
            final(self).subs_view() == old(self).subs_view(),
            r.0@ == TypeV::SimpleString("Ok"@),
            ({
                let kb = encode_utf8(set.key@);
                let subs = subs_for(old(self).subs_view(), kb);
                let before = if old(self).data_view().contains_key(kb) {
                    Some(spec_value_type(old(self).data_view()[kb]))
                } else {
                    None
                };
                let event = spec_change_event(set.key@, before, TypeV::SimpleString(set.value@));
                r.1@.len() == subs.len() && forall|i: int|
                    0 <= i < subs.len() ==> (#[trigger] r.1@[i]).subscriber == subs[i].subscriber
                        && r.1@[i].payload@ == event
            }),
    {
        let ghost es0 = self.entries@;
        let ghost kb = encode_utf8(set.key@);
        let rs = RedisString::from_string(&set.key);
        proof {
            lemma_entries_map(es0);
        }
        let new_value = Value::String(RedisString::from_string(&set.value));
        let after_t = Type::SimpleString(set.value.clone());
        proof {
            encode_utf8_valid_utf8(set.value@);
            encode_utf8_decode_utf8(set.value@);
            assert(wf_value(new_value@));
            assert(after_t@ == spec_value_type(new_value@));
        }
        let before_t: Option<Type> = match find_entry(&self.entries, &rs) {
            Some(i) => {
                let bt = value_to_type(&self.entries[i].value);
                self.entries[i] = Entry { key: rs, value: new_value };
                proof {
                    let es1 = self.entries@;
                    assert(es1 == es0.update(i as int, es1[i as int]));
                    assert forall|a: int, b: int|
                        0 <= a < b < es1.len() implies es1[a].key@ != es1[b].key@ by {
                        assert(es1[a].key@ == es0[a].key@ && es1[b].key@ == es0[b].key@);
                    }
                    lemma_entries_map(es1);
                    assert(entries_map(es1) =~= entries_map(es0).insert(
                        kb,
                        ValueV::Str(encode_utf8(set.value@)),
                    )) by {
                        assert forall|k: Seq<u8>|
                            #[trigger] entries_map(es1).contains_key(k) implies entries_map(
                            es0,
                        ).insert(kb, ValueV::Str(encode_utf8(set.value@))).contains_key(k) by {
                            let j = choose|j: int|
                                0 <= j < es1.len() && es1[j].key@ == k;
                            assert(es0[j].key@ == k);
                        }
                        assert forall|k: Seq<u8>|
                            #[trigger] entries_map(es0).insert(
                                kb,
                                ValueV::Str(encode_utf8(set.value@)),
                            ).contains_key(k) implies entries_map(es1).contains_key(k) by {
                            if k == kb {
                                assert(es1[i as int].key@ == k);
                            } else {
                                let j = choose|j: int|
                                    0 <= j < es0.len() && es0[j].key@ == k;
                                assert(es1[j].key@ == k);
                            }
                        }
                        assert forall|k: Seq<u8>|
                            #[trigger] entries_map(es1).contains_key(k) implies entries_map(
                            es1,
                        )[k] == entries_map(es0).insert(
                            kb,
                            ValueV::Str(encode_utf8(set.value@)),
                        )[k] by {
                            let j = choose|j: int|
                                0 <= j < es1.len() && es1[j].key@ == k;
                            assert(entries_map(es1)[k] == es1[j].value@);
                            if k == kb {
                                assert(j == i as int) by {
                                    if j != i as int {
                                        assert(es0[j].key@ != es0[i as int].key@);
                                    }
                                }
                            } else {
                                assert(j != i as int);
                                assert(es0[j].key@ == k && es0[j].value@ == es1[j].value@);
                                assert(entries_map(es0)[k] == es0[j].value@);
                            }
                        }
                    }
                }
                Some(bt)
            },
            None => {
                self.entries.push(Entry { key: rs, value: new_value });
                proof {
                    let es1 = self.entries@;
                    assert(es1.drop_last() =~= es0);
                    assert(entries_map(es1) == entries_map(es0).insert(
                        kb,
                        ValueV::Str(encode_utf8(set.value@)),
                    ));
                    assert forall|a: int, b: int|
                        0 <= a < b < es1.len() implies es1[a].key@ != es1[b].key@ by {
                        if b < es1.len() - 1 {
                            assert(es1[a] == es0[a] && es1[b] == es0[b]);
                        } else {
                            assert(es1[a] == es0[a]);
                            assert(es1[b].key@ == kb);
                        }
                    }
                }
                None
            },
        };
        let deliveries = self.invoke_subscribers(&set.key, before_t, after_t);
        proof {
            assert(self.subs_view() == old(self).subs_view());
        }
        (Type::SimpleString("Ok".to_owned()), deliveries)
    }
}

/// Replacing one entry's value in place updates the store's map at that
/// entry's key and keeps the keys unique.
proof fn lemma_entries_update(es0: Seq<Entry>, es1: Seq<Entry>, i: int)
    requires
        forall|a: int, b: int| 0 <= a < b < es0.len() ==> es0[a].key@ != es0[b].key@,
        0 <= i < es0.len(),
        es1.len() == es0.len(),
        es1 == es0.update(i, es1[i]),
        es1[i].key@ == es0[i].key@,
    ensures
        forall|a: int, b: int| 0 <= a < b < es1.len() ==> es1[a].key@ != es1[b].key@,
        entries_map(es1) == entries_map(es0).insert(es0[i].key@, es1[i].value@),
{
    let kb = es0[i].key@;
    lemma_entries_map(es0);
    assert forall|a: int, b: int|
        0 <= a < b < es1.len() implies es1[a].key@ != es1[b].key@ by {
        assert(es1[a].key@ == es0[a].key@ && es1[b].key@ == es0[b].key@);
    }
    lemma_entries_map(es1);
    assert(entries_map(es1) =~= entries_map(es0).insert(kb, es1[i].value@)) by {
        assert forall|k: Seq<u8>|
            #[trigger] entries_map(es1).contains_key(k) implies entries_map(es0).insert(
            kb,
            es1[i].value@,
        ).contains_key(k) by {
            let j = choose|j: int| 0 <= j < es1.len() && es1[j].key@ == k;
            assert(es0[j].key@ == k);
        }
        assert forall|k: Seq<u8>|
            #[trigger] entries_map(es0).insert(kb, es1[i].value@).contains_key(k)
            implies entries_map(es1).contains_key(k) by {
            if k == kb {
                assert(es1[i].key@ == k);
            } else {
                let j = choose|j: int| 0 <= j < es0.len() && es0[j].key@ == k;
                assert(es1[j].key@ == k);
            }
        }
        assert forall|k: Seq<u8>|
            #[trigger] entries_map(es1).contains_key(k) implies entries_map(es1)[k]
            == entries_map(es0).insert(kb, es1[i].value@)[k] by {
            let j = choose|j: int| 0 <= j < es1.len() && es1[j].key@ == k;
            assert(entries_map(es1)[k] == es1[j].value@);
            if k == kb {
                assert(j == i) by {
                    if j != i {
                        assert(es0[j].key@ != es0[i].key@);
                    }
                }
            } else {
                assert(j != i);
                assert(es0[j].key@ == k && es0[j].value@ == es1[j].value@);
                assert(entries_map(es0)[k] == es0[j].value@);
            }
        }
    }
}

/// Replacing one subscription list in place updates the subscription map at
/// that key and keeps the keys unique.
proof fn lemma_subs_update(es0: Seq<SubEntry>, es1: Seq<SubEntry>, i: int)
    requires
        forall|a: int, b: int| 0 <= a < b < es0.len() ==> es0[a].key@ != es0[b].key@,
        0 <= i < es0.len(),
        es1.len() == es0.len(),
        es1 == es0.update(i, es1[i]),
        es1[i].key@ == es0[i].key@,
    ensures
        forall|a: int, b: int| 0 <= a < b < es1.len() ==> es1[a].key@ != es1[b].key@,
        subs_map(es1) == subs_map(es0).insert(es0[i].key@, es1[i].subs@),
{
    let kb = es0[i].key@;
    lemma_subs_map(es0);
    assert forall|a: int, b: int|
        0 <= a < b < es1.len() implies es1[a].key@ != es1[b].key@ by {
        assert(es1[a].key@ == es0[a].key@ && es1[b].key@ == es0[b].key@);
    }
    lemma_subs_map(es1);
    assert(subs_map(es1) =~= subs_map(es0).insert(kb, es1[i].subs@)) by {
        assert forall|k: Seq<u8>|
            #[trigger] subs_map(es1).contains_key(k) implies subs_map(es0).insert(
            kb,
            es1[i].subs@,
        ).contains_key(k) by {
            let j = choose|j: int| 0 <= j < es1.len() && es1[j].key@ == k;
            assert(es0[j].key@ == k);
        }
        assert forall|k: Seq<u8>|
            #[trigger] subs_map(es0).insert(kb, es1[i].subs@).contains_key(k) implies subs_map(
            es1,
        ).contains_key(k) by {
            if k == kb {
                assert(es1[i].key@ == k);
            } else {
                let j = choose|j: int| 0 <= j < es0.len() && es0[j].key@ == k;
                assert(es1[j].key@ == k);
            }
        }
        assert forall|k: Seq<u8>|
            #[trigger] subs_map(es1).contains_key(k) implies subs_map(es1)[k] == subs_map(
            es0,
        ).insert(kb, es1[i].subs@)[k] by {
            let j = choose|j: int| 0 <= j < es1.len() && es1[j].key@ == k;
            assert(subs_map(es1)[k] == es1[j].subs@);
            if k == kb {
                assert(j == i) by {
                    if j != i {
                        assert(es0[j].key@ != es0[i].key@);
                    }
                }
            } else {
                assert(j != i);
                assert(es0[j].key@ == k && es0[j].subs@ == es1[j].subs@);
                assert(subs_map(es0)[k] == es0[j].subs@);
            }
        }
    }
}

/// What a run of pushed strings stores: each as a byte-string value.
pub open spec fn pushed_items(values: Seq<Seq<char>>) -> Seq<ValueV> {
    values.map_values(|v: Seq<char>| ValueV::Str(encode_utf8(v)))
}

/// Builds the stored list elements for a run of pushed strings, appending
/// them to a list.
fn append_values(list: &mut Vec<Value>, values: &Vec<String>)
    ensures
        value_views_of(final(list)@) == value_views_of(old(list)@) + pushed_items(
            values.deep_view(),
        ),
        final(list)@.len() == old(list)@.len() + values@.len(),
        forall|k: int|
            0 <= k < final(list)@.len() ==> wf_value(#[trigger] final(list)@[k]@) || (k
                < old(list)@.len() && final(list)@[k] == old(list)@[k]),
{
    let ghost vs0 = value_views_of(old(list)@);
    proof {
        lemma_value_views_of(list@);
        assert(pushed_items(values.deep_view().take(0)) =~= Seq::<ValueV>::empty());
        assert(value_views_of(list@) =~= vs0 + pushed_items(values.deep_view().take(0)));
    }
    let mut j: usize = 0;
    while j < values.len()
        invariant
            j <= values@.len(),
            list@.len() == old(list)@.len() + j,
            value_views_of(list@) == value_views_of(old(list)@) + pushed_items(
                values.deep_view().take(j as int),
            ),
            forall|k: int|
                0 <= k < list@.len() ==> wf_value(#[trigger] list@[k]@) || (k < old(
                    list,
                )@.len() && list@[k] == old(list)@[k]),
        decreases values@.len() - j,
    {
        let ghost l0 = list@;
        let v = Value::String(RedisString::from_string(&values[j]));
        proof {
            encode_utf8_valid_utf8(values@[j as int]@);
            assert(wf_value(v@));
        }
        list.push(v);
        proof {
            lemma_value_views_of(l0);
            lemma_value_views_of(list@);
            assert(value_views_of(list@) =~= value_views_of(l0) + seq![
                ValueV::Str(encode_utf8(values@[j as int]@)),
            ]);
            assert(values.deep_view().take(j as int + 1) =~= values.deep_view().take(
                j as int,
            ).push(values.deep_view()[j as int]));
            assert(pushed_items(values.deep_view().take(j as int + 1)) =~= pushed_items(
                values.deep_view().take(j as int),
            ) + seq![ValueV::Str(encode_utf8(values@[j as int]@))]);
            assert(value_views_of(list@) =~= value_views_of(old(list)@) + pushed_items(
                values.deep_view().take(j as int + 1),
            ));
        }
        j += 1;
    }
    proof {
        assert(values.deep_view().take(values@.len() as int) =~= values.deep_view());
    }
}

/// Pushed strings store as well-formed values.
proof fn lemma_wf_pushed(values: Seq<Seq<char>>)
    ensures
        forall|k: int| 0 <= k < values.len() ==> wf_value(#[trigger] pushed_items(values)[k]),
{
    assert forall|k: int|
        0 <= k < values.len() implies wf_value(#[trigger] pushed_items(values)[k]) by {
        assert(pushed_items(values)[k] == ValueV::Str(encode_utf8(values[k])));
        encode_utf8_valid_utf8(values[k]);
    }
}

/// A list of well-formed values extended by well-formed values is well
/// formed.
proof fn lemma_wf_list_concat(vs: Seq<ValueV>, items: Seq<ValueV>)
    requires
        wf_value(ValueV::List(vs)),
        forall|k: int| 0 <= k < items.len() ==> wf_value(#[trigger] items[k]),
    ensures
        wf_value(ValueV::List(vs + items)),
{
    assert forall|k: int|
        0 <= k < (ValueV::List(vs + items)->List_0).len() implies wf_value(
        #[trigger] (ValueV::List(vs + items)->List_0)[k],
    ) by {
        assert((ValueV::List(vs + items)->List_0)[k] == (vs + items)[k]);
        if k < vs.len() {
            assert((ValueV::List(vs)->List_0)[k] == vs[k]);
            assert((vs + items)[k] == vs[k]);
        } else {
            assert((vs + items)[k] == items[k - vs.len()]);
        }
    }
}

/// The reply when `Ok` fits: a length as an integer frame, when it fits.
fn integer_reply(n: usize) -> (t: Type)
    ensures
        n <= i64::MAX ==> t@ == TypeV::Integer(n as int),
        t@ is Integer,
{
    let n64 = n as u64;
    if n64 <= 0x7fff_ffff_ffff_ffffu64 {
        Type::Integer(n64 as i64)
    } else {
        Type::Integer(i64::MAX)
    }
}

impl Database {
    /// Answers a PUSH: appends the values to the named list, creating it
    /// when the key is absent, and replies with the list's new length; a
    /// key holding a string is refused with an error naming it.
    pub fn push(&mut self, p: Push) -> (t: Type)
        requires
            old(self).wf(),
        ensures
            final(self).wf(),
            final(self).subs_view() == old(self).subs_view(),
            ({
                let kb = encode_utf8(p.list_name@);
                let items = pushed_items(p.values.deep_view());
                if !old(self).data_view().contains_key(kb) {
                    &&& final(self).data_view() == old(self).data_view().insert(
                        kb,
                        ValueV::List(items),
                    )
                    &&& (p.values@.len() <= i64::MAX ==> t@ == TypeV::Integer(
                        p.values@.len() as int,
                    ))
                    &&& t@ is Integer
                } else {
                    match old(self).data_view()[kb] {
                        ValueV::Str(_) => {
                            &&& final(self).data_view() == old(self).data_view()
                            &&& t@ == TypeV::Error(
                                "key `"@ + p.list_name@ + "` exists and it is not a list"@,
                            )
                        },
                        ValueV::List(vs) => {
                            &&& final(self).data_view() == old(self).data_view().insert(
                                kb,
                                ValueV::List(vs + items),
                            )
                            &&& (vs.len() + p.values@.len() <= i64::MAX ==> t@ == TypeV::Integer(
                                vs.len() + p.values@.len() as int,
                            ))
                            &&& t@ is Integer
                        },
                    }
                }
            }),
    {
        let ghost es0 = self.entries@;
        let ghost kb = encode_utf8(p.list_name@);
        let rs = RedisString::from_string(&p.list_name);
        proof {
            lemma_entries_map(es0);
        }
        match find_entry(&self.entries, &rs) {
            Some(i) => {
                let entry = self.entries.remove(i);
                match entry.value {
                    Value::List(mut list) => {
                        let ghost vs = value_views_of(list@);
                        proof {
                            lemma_value_views_of(list@);
                            assert(entries_map(es0).contains_key(kb)) by {
                                assert(es0[i as int].key@ == kb);
                            }
                            assert(entries_map(es0)[kb] == es0[i as int].value@);
                        }
                        let ghost len0 = list@.len();
                        append_values(&mut list, &p.values);
                        let n = list.len();
                        self.entries.insert(
                            i,
                            Entry { key: entry.key, value: Value::List(list) },
                        );
                        proof {
                            let es1 = self.entries@;
                            assert(es1 =~= es0.update(i as int, es1[i as int]));
                            assert(es1[i as int].key@ == es0[i as int].key@);
                            lemma_entries_update(es0, es1, i as int);
                            assert(es1[i as int].value@ == ValueV::List(
                                vs + pushed_items(p.values.deep_view()),
                            ));
                            assert(es0[i as int].value@ == ValueV::List(vs));
                            assert(wf_value(es1[i as int].value@)) by {
                                assert(wf_value(es0[i as int].value@));
                                assert(wf_value(ValueV::List(vs)));
                                lemma_wf_pushed(p.values.deep_view());
                                lemma_wf_list_concat(vs, pushed_items(p.values.deep_view()));
                            }
                            assert forall|x: int|
                                0 <= x < es1.len() implies wf_value(
                                #[trigger] es1[x].value@,
                            ) by {
                                if x != i as int {
                                    assert(es1[x] == es0[x]);
                                }
                            }
                            assert(vs.len() == len0);
                            assert(n as int == vs.len() + p.values@.len());
                        }
                        integer_reply(n)
                    },
                    Value::String(s) => {
                        self.entries.insert(
                            i,
                            Entry { key: entry.key, value: Value::String(s) },
                        );
                        proof {
                            let es1 = self.entries@;
                            assert(es1 =~= es0);
                            assert(entries_map(es0).contains_key(kb)) by {
                                assert(es0[i as int].key@ == kb);
                            }
                            assert(entries_map(es0)[kb] == es0[i as int].value@);
                            assert(entries_map(es0)[kb] is Str);
                        }
                        let mut msg_bytes = "key `".as_bytes_vec();
                        let mut mid = p.list_name.as_str().as_bytes_vec();
                        let mut tail = "` exists and it is not a list".as_bytes_vec();
                        msg_bytes.append(&mut mid);
                        msg_bytes.append(&mut tail);
                        proof {
                            lemma_encode_utf8_concat("key `"@, p.list_name@);
                            lemma_encode_utf8_concat(
                                "key `"@ + p.list_name@,
                                "` exists and it is not a list"@,
                            );
                            assert(msg_bytes@ =~= encode_utf8(
                                "key `"@ + p.list_name@ + "` exists and it is not a list"@,
                            ));
                            encode_utf8_valid_utf8(
                                "key `"@ + p.list_name@ + "` exists and it is not a list"@,
                            );
                        }
                        match bytes_to_string(msg_bytes) {
                            Some(m) => {
                                proof {
                                    encode_utf8_decode_utf8(m@);
                                    encode_utf8_decode_utf8(
                                        "key `"@ + p.list_name@
                                            + "` exists and it is not a list"@,
                                    );
                                }
                                Type::Error(m)
                            },
                            None => vstd::pervasive::unreached(),
                        }
                    },
                }
            },
            None => {
                let mut list: Vec<Value> = Vec::new();
                proof {
                    assert(value_views_of(list@) =~= Seq::<ValueV>::empty());
                    assert(!entries_map(es0).contains_key(kb)) by {
                        if entries_map(es0).contains_key(kb) {
                            let j = choose|j: int| 0 <= j < es0.len() && es0[j].key@ == kb;
                            assert(es0[j].key@ != kb);
                        }
                    }
                }
                append_values(&mut list, &p.values);
                let n = list.len();
                self.entries.push(Entry { key: rs, value: Value::List(list) });
                proof {
                    let es1 = self.entries@;
                    assert(es1.drop_last() =~= es0);
                    assert(Seq::<ValueV>::empty() + pushed_items(p.values.deep_view())
                        =~= pushed_items(p.values.deep_view()));
                    assert(entries_map(es1) == entries_map(es0).insert(
                        kb,
                        ValueV::List(pushed_items(p.values.deep_view())),
                    ));
                    assert(wf_value(es1.last().value@)) by {
                        lemma_wf_pushed(p.values.deep_view());
                        assert(wf_value(ValueV::List(Seq::<ValueV>::empty())));
                        lemma_wf_list_concat(
                            Seq::<ValueV>::empty(),
                            pushed_items(p.values.deep_view()),
                        );
                        assert(Seq::<ValueV>::empty() + pushed_items(p.values.deep_view())
                            =~= pushed_items(p.values.deep_view()));
                    }
                    assert forall|x: int|
                        0 <= x < es1.len() implies wf_value(#[trigger] es1[x].value@) by {
                        if x < es1.len() - 1 {
                            assert(es1[x] == es0[x]);
                        }
                    }
                    assert forall|a: int, b: int|
                        0 <= a < b < es1.len() implies es1[a].key@ != es1[b].key@ by {
                        if b < es1.len() - 1 {
                            assert(es1[a] == es0[a] && es1[b] == es0[b]);
                        } else {
                            assert(es1[a] == es0[a]);
                            assert(es1[b].key@ == kb);
                        }
                    }
                }
                integer_reply(n)
            },
        }
    }

    /// Registers a subscription under a key.
    fn subscribe_for_changes(
        &mut self,
        key: RedisString,
        operation_subscription: OperationSubscription,
    )
        requires
            old(self).wf(),
        ensures
            final(self).wf(),
            final(self).data_view() == old(self).data_view(),
            final(self).subs_view() == old(self).subs_view().insert(
                key@,
                subs_for(old(self).subs_view(), key@) + seq![operation_subscription],
            ),
    {
        let ghost ss0 = self.subs@;
        proof {
            lemma_subs_map(ss0);
        }
        match find_sub(&self.subs, &key) {
            Some(i) => {
                let mut se = self.subs.remove(i);
                let ghost subs0 = se.subs@;
                se.subs.push(operation_subscription);
                self.subs.insert(i, se);
                proof {
                    let ss1 = self.subs@;
                    assert(ss1 =~= ss0.update(i as int, ss1[i as int]));
                    assert(ss1[i as int].key@ == ss0[i as int].key@);
                    lemma_subs_update(ss0, ss1, i as int);
                    assert(ss1[i as int].subs@ =~= subs_for(subs_map(ss0), key@) + seq![
                        operation_subscription,
                    ]);
                }
            },
            None => {
                let mut v: Vec<OperationSubscription> = Vec::new();
                v.push(operation_subscription);
                self.subs.push(SubEntry { key, subs: v });
                proof {
                    let ss1 = self.subs@;
                    assert(ss1.drop_last() =~= ss0);
                    assert(!subs_map(ss0).contains_key(ss1.last().key@)) by {
                        if subs_map(ss0).contains_key(ss1.last().key@) {
                            let j = choose|j: int|
                                0 <= j < ss0.len() && ss0[j].key@ == ss1.last().key@;
                        }
                    }
                    assert(ss1.last().subs@ =~= subs_for(subs_map(ss0), ss1.last().key@) + seq![
                        operation_subscription,
                    ]);
                    assert(subs_map(ss1) == subs_map(ss0).insert(
                        ss1.last().key@,
                        ss1.last().subs@,
                    ));
                    assert forall|a: int, b: int|
                        0 <= a < b < ss1.len() implies ss1[a].key@ != ss1[b].key@ by {
                        if b < ss1.len() - 1 {
                            assert(ss1[a] == ss0[a] && ss1[b] == ss0[b]);
                        } else {
                            assert(ss1[a] == ss0[a]);
                        }
                    }
                }
            },
        }
    }

    /// Answers a WATCH: registers the caller's queue handle under the key
    /// and replies `Ok`.
    pub fn watch(&mut self, watch: Watch, subscriber_sink: u64) -> (t: Type)
        requires
            old(self).wf(),
        ensures
            final(self).wf(),
            final(self).data_view() == old(self).data_view(),
            final(self).subs_view() == old(self).subs_view().insert(
                encode_utf8(watch.key@),
                subs_for(old(self).subs_view(), encode_utf8(watch.key@)) + seq![
                    OperationSubscription {
                        operation: watch.operation,
                        subscriber: subscriber_sink,
                    },
                ],
            ),
            t@ == TypeV::SimpleString("Ok"@),
    {
        let rs = RedisString::from_string(&watch.key);
        self.subscribe_for_changes(
            rs,
            OperationSubscription::new(watch.operation, subscriber_sink),
        );
        Type::SimpleString("Ok".to_owned())
    }
}

/// Store consistency: reading a key straight after setting it yields the
/// value just stored. Reads do not change the store, so with no mutation in
/// between, a key reads as null or as its last-set value by `spec_get_result`
/// alone.
pub proof fn lemma_store_consistency(m: Map<Seq<u8>, ValueV>, k: Seq<char>, v: Seq<char>)
    ensures
        spec_get_result(m.insert(encode_utf8(k), ValueV::Str(encode_utf8(v))), k)
            == TypeV::SimpleString(v),
{
    encode_utf8_decode_utf8(v);
}

/// The subscription half answers membership and lookup the same way.
proof fn lemma_subs_map(es: Seq<SubEntry>)
    requires
        forall|i: int, j: int| 0 <= i < j < es.len() ==> es[i].key@ != es[j].key@,
    ensures
        forall|k: Seq<u8>|
            #[trigger] subs_map(es).contains_key(k) <==> exists|i: int|
                0 <= i < es.len() && es[i].key@ == k,
        forall|i: int| 0 <= i < es.len() ==> subs_map(es)[#[trigger] es[i].key@] == es[i].subs@,
    decreases es.len(),
{
    if es.len() > 0 {
        let head = es.drop_last();
        assert(forall|i: int, j: int| 0 <= i < j < head.len() ==> head[i].key@ != head[j].key@);
        lemma_subs_map(head);
        assert forall|k: Seq<u8>|
            #[trigger] subs_map(es).contains_key(k) <==> exists|i: int|
                0 <= i < es.len() && es[i].key@ == k by {
            if subs_map(es).contains_key(k) {
                if k == es.last().key@ {
                    assert(es[es.len() - 1].key@ == k);
                } else {
                    assert(subs_map(head).contains_key(k));
                    let i = choose|i: int| 0 <= i < head.len() && head[i].key@ == k;
                    assert(head[i] == es[i]);
                    assert(es[i].key@ == k);
                }
            }
            if exists|i: int| 0 <= i < es.len() && es[i].key@ == k {
                let i = choose|i: int| 0 <= i < es.len() && es[i].key@ == k;
                if i < es.len() - 1 {
                    assert(head[i] == es[i]);
                    assert(head[i].key@ == k);
                    assert(subs_map(head).contains_key(k));
                }
                assert(subs_map(es).contains_key(k));
            }
        }
        assert forall|i: int|
            0 <= i < es.len() implies subs_map(es)[#[trigger] es[i].key@] == es[i].subs@ by {
            if i < es.len() - 1 {
                assert(head[i] == es[i]);
                assert(head[i].key@ == es[i].key@ && head[i].subs@ == es[i].subs@);
                assert(es[i].key@ != es.last().key@);
            }
        }
    }
}

} // verus!
