//! The RESP data model: the `Type` frame, its wire encoding, and the
//! `TypeConsumer` that reads typed fields out of one frame.

use vstd::prelude::*;
use vstd::utf8::{decode_utf8, encode_utf8, valid_utf8, encode_utf8_decode_utf8,
    encode_utf8_valid_utf8};

use crate::text::{
    ascii_chars_of, bytes_to_string, lemma_ascii_bytes, lemma_encode_utf8_concat,
    lemma_idec_bytes, lemma_udec_digits, no_crlf, spec_atoi_i64, spec_idec, spec_udec, atoi_i64,
    push_idec, push_udec, str_eq_exec,
};

verus! {

/// One RESP frame.
#[derive(Debug)]
pub enum Type {
    /// A line of text without CR or LF, sent as `+<text>\r\n`.
    SimpleString(String),
    /// An error line, shaped like a simple string but sent with a `-` marker.
    Error(String),
    /// A signed 64-bit integer, sent as `:<decimal>\r\n`.
    Integer(i64),
    /// The null bulk string, sent as `$-1\r\n`.
    Null,
    /// A binary-safe byte string, sent as `$<len>\r\n<bytes>\r\n`.
    BulkString(Vec<u8>),
    /// An ordered, possibly nested sequence of frames, sent as `*<count>\r\n`
    /// followed by each element's encoding.
    Array(Vec<Type>),
}

/// The mathematical value of a RESP frame.
#[verifier::ext_equal]
pub ghost enum TypeV {
    SimpleString(Seq<char>),
    Error(Seq<char>),
    Integer(int),
    Null,
    BulkString(Seq<u8>),
    Array(Seq<TypeV>),
}

/// The values of a sequence of frames.
pub open spec fn views_of(ts: Seq<Type>) -> Seq<TypeV>
    decreases ts,
{
    if ts.len() == 0 {
        Seq::empty()
    } else {
        seq![ts[0]@] + views_of(ts.drop_first())
    }
}

impl View for Type {
    type V = TypeV;

    open spec fn view(&self) -> TypeV
        decreases self,
    {
        match self {
            Type::SimpleString(s) => TypeV::SimpleString(s@),
            Type::Error(s) => TypeV::Error(s@),
            Type::Integer(i) => TypeV::Integer(*i as int),
            Type::Null => TypeV::Null,
            Type::BulkString(b) => TypeV::BulkString(b@),
            Type::Array(a) => TypeV::Array(views_of(a@)),
        }
    }
}

/// `views_of` maps the sequence element by element.
pub proof fn lemma_views_of(ts: Seq<Type>)
    ensures
        views_of(ts).len() == ts.len(),
        forall|i: int| 0 <= i < ts.len() ==> views_of(ts)[i] == ts[i]@,
    decreases ts,
{
    if ts.len() == 0 {
        assert(views_of(ts).len() == 0);
    } else {
        lemma_views_of(ts.drop_first());
        assert(views_of(ts) == seq![ts[0]@] + views_of(ts.drop_first()));
        assert forall|i: int| 0 <= i < ts.len() implies views_of(ts)[i] == ts[i]@ by {
            if i >= 1 {
                assert(ts.drop_first()[i - 1] == ts[i]);
                assert(views_of(ts)[i] == views_of(ts.drop_first())[i - 1]);
            }
        }
    }
}

/// A well-formed frame: simple strings and errors hold no CR or LF, a bulk
/// string holds at most 512 MiB, and an array's length fits the count that
/// its encoding carries.
pub open spec fn wf_type(t: TypeV) -> bool
    decreases t,
{
    match t {
        TypeV::SimpleString(s) => no_crlf(s),
        TypeV::Error(s) => no_crlf(s),
        TypeV::Integer(i) => i64::MIN <= i <= i64::MAX,
        TypeV::Null => true,
        TypeV::BulkString(b) => b.len() <= 0x2000_0000,
        TypeV::Array(ts) => ts.len() <= i64::MAX && forall|i: int|
            0 <= i < ts.len() ==> wf_type(#[trigger] ts[i]),
    }
}

/// The terminator of every RESP line.
pub open spec fn spec_crlf() -> Seq<u8> {
    seq![0x0du8, 0x0au8]
}

/// The wire encoding of one frame.
pub open spec fn spec_encode(t: TypeV) -> Seq<u8>
    decreases t,
{
    match t {
        TypeV::SimpleString(s) => seq![0x2bu8] + encode_utf8(s) + spec_crlf(),
        TypeV::Error(s) => seq![0x2du8] + encode_utf8(s) + spec_crlf(),
        TypeV::Integer(i) => seq![0x3au8] + spec_idec(i) + spec_crlf(),
        TypeV::Null => seq![0x24u8, 0x2du8, 0x31u8, 0x0du8, 0x0au8],
        TypeV::BulkString(b) => seq![0x24u8] + spec_udec(b.len()) + spec_crlf() + b + spec_crlf(),
        TypeV::Array(ts) => seq![0x2au8] + spec_udec(ts.len()) + spec_crlf() + spec_encode_seq(ts),
    }
}

/// The concatenated wire encodings of a sequence of frames.
pub open spec fn spec_encode_seq(ts: Seq<TypeV>) -> Seq<u8>
    decreases ts,
{
    if ts.len() == 0 {
        Seq::empty()
    } else {
        spec_encode(ts[0]) + spec_encode_seq(ts.drop_first())
    }
}

/// Extending an encoded prefix by one frame appends that frame's encoding.
pub proof fn lemma_encode_seq_snoc(ts: Seq<TypeV>, k: int)
    requires
        0 <= k < ts.len(),
    ensures
        spec_encode_seq(ts.take(k + 1)) == spec_encode_seq(ts.take(k)) + spec_encode(ts[k]),
    decreases k,
{
    if k == 0 {
        assert(ts.take(0) =~= Seq::<TypeV>::empty());
        assert(ts.take(1) =~= seq![ts[0]]);
        assert(seq![ts[0]].drop_first() =~= Seq::<TypeV>::empty());
        assert(spec_encode_seq(Seq::<TypeV>::empty()) == Seq::<u8>::empty());
        assert(spec_encode_seq(seq![ts[0]]) == spec_encode(seq![ts[0]][0]) + spec_encode_seq(
            seq![ts[0]].drop_first(),
        ));
        assert(seq![ts[0]][0] == ts[0]);
        assert(spec_encode(ts[0]) + Seq::<u8>::empty() =~= Seq::<u8>::empty() + spec_encode(
            ts[0],
        ));
    } else {
        let rest = ts.drop_first();
        lemma_encode_seq_snoc(rest, k - 1);
        assert(ts.take(k + 1).drop_first() =~= rest.take(k));
        assert(ts.take(k).drop_first() =~= rest.take(k - 1));
        assert(ts.take(k + 1)[0] == ts[0]);
        assert(ts.take(k)[0] == ts[0]);
        assert(rest[k - 1] == ts[k]);
        assert(spec_encode_seq(ts.take(k + 1)) == spec_encode(ts[0]) + spec_encode_seq(
            rest.take(k),
        ));
        assert(spec_encode_seq(ts.take(k)) == spec_encode(ts[0]) + spec_encode_seq(
            rest.take(k - 1),
        ));
        assert(spec_encode(ts[0]) + (spec_encode_seq(rest.take(k - 1)) + spec_encode(ts[k]))
            =~= (spec_encode(ts[0]) + spec_encode_seq(rest.take(k - 1))) + spec_encode(ts[k]));
    }
}

/// Appends `\r\n` to a byte buffer.
pub fn cr_lf(result: &mut Vec<u8>)
    ensures
        final(result)@ == old(result)@ + spec_crlf(),
{
    result.push(0x0d);
    result.push(0x0a);
    assert(result@ =~= old(result)@ + spec_crlf());
}

/// Appends the wire encoding of a frame to a byte buffer.
fn encode_into(t: &Type, out: &mut Vec<u8>)
    ensures
        final(out)@ == old(out)@ + spec_encode(t@),
    decreases t,
{
    match t {
        Type::SimpleString(s) => {
            out.push(0x2b);
            out.extend_from_slice(s.as_str().as_bytes());
            cr_lf(out);
            assert(out@ =~= old(out)@ + spec_encode(t@));
        },
        Type::Error(s) => {
            out.push(0x2d);
            out.extend_from_slice(s.as_str().as_bytes());
            cr_lf(out);
            assert(out@ =~= old(out)@ + spec_encode(t@));
        },
        Type::Integer(i) => {
            out.push(0x3a);
            push_idec(*i, out);
            cr_lf(out);
            assert(out@ =~= old(out)@ + spec_encode(t@));
        },
        Type::Null => {
            out.push(0x24);
            out.push(0x2d);
            out.push(0x31);
            cr_lf(out);
            assert(out@ =~= old(out)@ + spec_encode(t@));
        },
        Type::BulkString(b) => {
            out.push(0x24);
            push_udec(b.len() as u64, out);
            cr_lf(out);
            out.extend_from_slice(b.as_slice());
            cr_lf(out);
            assert(out@ =~= old(out)@ + spec_encode(t@));
        },
        Type::Array(a) => {
            out.push(0x2a);
            push_udec(a.len() as u64, out);
            cr_lf(out);
            let ghost header = out@;
            let ghost elems = views_of(a@);
            proof {
                lemma_views_of(a@);
            }
            let mut idx: usize = 0;
            while idx < a.len()
                invariant
                    idx <= a.len(),
                    *t == Type::Array(*a),
                    elems == views_of(a@),
                    elems.len() == a@.len(),
                    forall|i: int| 0 <= i < a@.len() ==> elems[i] == a@[i]@,
                    out@ == header + spec_encode_seq(elems.take(idx as int)),
                decreases a@.len() - idx,
            {
                proof {
                    assert(*t == Type::Array(*a));
                    assert(t->Array_0 == *a);
                    assert(decreases_to!(*t => t->Array_0));
                    assert(decreases_to!(*t => *a));
                    assert(decreases_to!(*a => a@));
                    assert(decreases_to!(a@ => a@[idx as int]));
                    assert(decreases_to!(*t => a@[idx as int]));
                }
                encode_into(&a[idx], out);
                proof {
                    lemma_encode_seq_snoc(elems, idx as int);
                    assert(out@ =~= header + spec_encode_seq(elems.take(idx as int + 1)));
                }
                idx += 1;
            }
            proof {
                assert(elems.take(a@.len() as int) =~= elems);
                assert(header =~= old(out)@ + seq![0x2au8] + spec_udec(a@.len() as nat)
                    + spec_crlf());
                assert(out@ =~= old(out)@ + spec_encode(t@));
            }
        },
    }
}

impl Type {
    /// The wire bytes of this frame.
    pub fn into_bytes(self) -> (r: Vec<u8>)
        ensures
            r@ == spec_encode(self@),
    {
        let mut out: Vec<u8> = Vec::new();
        encode_into(&self, &mut out);
        out
    }
}

/// The rendering of a frame for error reports: the variant's name around its
/// value, with quoted text, decimal integers, and bracketed lists.
pub open spec fn spec_describe(t: TypeV) -> Seq<char>
    decreases t,
{
    match t {
        TypeV::SimpleString(s) => "SimpleString(\""@ + s + "\")"@,
        TypeV::Error(s) => "Error(\""@ + s + "\")"@,
        TypeV::Integer(i) => "Integer("@ + ascii_chars_of(spec_idec(i)) + ")"@,
        TypeV::Null => "Null"@,
        TypeV::BulkString(b) => "BulkString(["@ + spec_byte_list(b) + "])"@,
        TypeV::Array(ts) => "Array(["@ + spec_describe_list(ts) + "])"@,
    }
}

/// Bytes rendered as a comma-separated decimal list.
pub open spec fn spec_byte_list(b: Seq<u8>) -> Seq<char>
    decreases b.len(),
{
    if b.len() == 0 {
        Seq::empty()
    } else if b.len() == 1 {
        ascii_chars_of(spec_udec(b[0] as nat))
    } else {
        spec_byte_list(b.drop_last()) + ", "@ + ascii_chars_of(spec_udec(b.last() as nat))
    }
}

/// Frames rendered as a comma-separated list.
pub open spec fn spec_describe_list(ts: Seq<TypeV>) -> Seq<char>
    decreases ts, 0nat,
{
    if ts.len() == 0 {
        Seq::empty()
    } else if ts.len() == 1 {
        spec_describe(ts[0])
    } else {
        spec_describe_list(ts.drop_last()) + ", "@ + spec_describe(ts.last())
    }
}

/// Appends the UTF-8 bytes of a frame's rendering to a byte buffer.
fn describe_into(t: &Type, out: &mut Vec<u8>)
    ensures
        final(out)@ == old(out)@ + encode_utf8(spec_describe(t@)),
    decreases t,
{
    match t {
        Type::SimpleString(s) => {
            out.extend_from_slice("SimpleString(\"".as_bytes());
            out.extend_from_slice(s.as_str().as_bytes());
            out.extend_from_slice("\")".as_bytes());
            proof {
                lemma_encode_utf8_concat("SimpleString(\""@, s@);
                lemma_encode_utf8_concat("SimpleString(\""@ + s@, "\")"@);
                assert(out@ =~= old(out)@ + encode_utf8(spec_describe(t@)));
            }
        },
        Type::Error(s) => {
            out.extend_from_slice("Error(\"".as_bytes());
            out.extend_from_slice(s.as_str().as_bytes());
            out.extend_from_slice("\")".as_bytes());
            proof {
                lemma_encode_utf8_concat("Error(\""@, s@);
                lemma_encode_utf8_concat("Error(\""@ + s@, "\")"@);
                assert(out@ =~= old(out)@ + encode_utf8(spec_describe(t@)));
            }
        },
        Type::Integer(i) => {
            out.extend_from_slice("Integer(".as_bytes());
            push_idec(*i, out);
            out.extend_from_slice(")".as_bytes());
            proof {
                lemma_idec_bytes(*i as int);
                lemma_ascii_bytes(spec_idec(*i as int));
                lemma_encode_utf8_concat("Integer("@, ascii_chars_of(spec_idec(*i as int)));
                lemma_encode_utf8_concat(
                    "Integer("@ + ascii_chars_of(spec_idec(*i as int)),
                    ")"@,
                );
                assert(out@ =~= old(out)@ + encode_utf8(spec_describe(t@)));
            }
        },
        Type::Null => {
            out.extend_from_slice("Null".as_bytes());
            assert(out@ =~= old(out)@ + encode_utf8(spec_describe(t@)));
        },
        Type::BulkString(b) => {
            out.extend_from_slice("BulkString([".as_bytes());
            let ghost mid = out@;
            let mut idx: usize = 0;
            while idx < b.len()
                invariant
                    idx <= b.len(),
                    *t == Type::BulkString(*b),
                    mid == out@.take(mid.len() as int) && mid.len() <= out@.len(),
                    out@ == mid + encode_utf8(spec_byte_list(b@.take(idx as int))),
                decreases b@.len() - idx,
            {
                let ghost before = spec_byte_list(b@.take(idx as int));
                if idx > 0 {
                    out.extend_from_slice(", ".as_bytes());
                }
                push_udec(b[idx] as u64, out);
                proof {
                    lemma_udec_digits(b@[idx as int] as nat);
                    lemma_ascii_bytes(spec_udec(b@[idx as int] as nat));
                    let dc = ascii_chars_of(spec_udec(b@[idx as int] as nat));
                    assert(b@.take(idx as int + 1).drop_last() =~= b@.take(idx as int));
                    assert(b@.take(idx as int + 1).last() == b@[idx as int]);
                    if idx == 0 {
                        assert(spec_byte_list(b@.take(1)) == dc);
                        assert(encode_utf8(Seq::<char>::empty()) =~= Seq::<u8>::empty());
                        assert(out@ =~= mid + encode_utf8(spec_byte_list(b@.take(1))));
                    } else {
                        assert(spec_byte_list(b@.take(idx as int + 1)) == before + ", "@ + dc);
                        lemma_encode_utf8_concat(before, ", "@);
                        lemma_encode_utf8_concat(before + ", "@, dc);
                        assert(out@ =~= mid + encode_utf8(
                            spec_byte_list(b@.take(idx as int + 1)),
                        ));
                    }
                }
                idx += 1;
            }
            out.extend_from_slice("])".as_bytes());
            proof {
                assert(b@.take(b@.len() as int) =~= b@);
                lemma_encode_utf8_concat("BulkString(["@, spec_byte_list(b@));
                lemma_encode_utf8_concat("BulkString(["@ + spec_byte_list(b@), "])"@);
                assert(out@ =~= old(out)@ + encode_utf8(spec_describe(t@)));
            }
        },
        Type::Array(a) => {
            out.extend_from_slice("Array([".as_bytes());
            let ghost mid = out@;
            let ghost elems = views_of(a@);
            proof {
                lemma_views_of(a@);
            }
            let mut idx: usize = 0;
            while idx < a.len()
                invariant
                    idx <= a.len(),
                    *t == Type::Array(*a),
                    elems == views_of(a@),
                    elems.len() == a@.len(),
                    forall|i: int| 0 <= i < a@.len() ==> elems[i] == a@[i]@,
                    mid == out@.take(mid.len() as int) && mid.len() <= out@.len(),
                    out@ == mid + encode_utf8(spec_describe_list(elems.take(idx as int))),
                decreases a@.len() - idx,
            {
                let ghost before = spec_describe_list(elems.take(idx as int));
                if idx > 0 {
                    out.extend_from_slice(", ".as_bytes());
                }
                proof {
                    assert(*t == Type::Array(*a));
                    assert(decreases_to!(*t => t->Array_0));
                    assert(decreases_to!(*a => a@));
                    assert(decreases_to!(a@ => a@[idx as int]));
                }
                describe_into(&a[idx], out);
                proof {
                    let dc = spec_describe(elems[idx as int]);
                    assert(elems.take(idx as int + 1).drop_last() =~= elems.take(idx as int));
                    assert(elems.take(idx as int + 1).last() == elems[idx as int]);
                    if idx == 0 {
                        assert(spec_describe_list(elems.take(1)) == dc);
                        assert(encode_utf8(Seq::<char>::empty()) =~= Seq::<u8>::empty());
                        assert(out@ =~= mid + encode_utf8(spec_describe_list(elems.take(1))));
                    } else {
                        assert(spec_describe_list(elems.take(idx as int + 1)) == before + ", "@
                            + dc);
                        lemma_encode_utf8_concat(before, ", "@);
                        lemma_encode_utf8_concat(before + ", "@, dc);
                        assert(out@ =~= mid + encode_utf8(
                            spec_describe_list(elems.take(idx as int + 1)),
                        ));
                    }
                }
                idx += 1;
            }
            out.extend_from_slice("])".as_bytes());
            proof {
                assert(elems.take(a@.len() as int) =~= elems);
                lemma_encode_utf8_concat("Array(["@, spec_describe_list(elems));
                lemma_encode_utf8_concat("Array(["@ + spec_describe_list(elems), "])"@);
                assert(out@ =~= old(out)@ + encode_utf8(spec_describe(t@)));
            }
        },
    }
}

impl Type {
    /// This frame's rendering for error reports.
    pub fn describe(&self) -> (r: String)
        ensures
            r@ == spec_describe(self@),
    {
        let mut out: Vec<u8> = Vec::new();
        describe_into(self, &mut out);
        proof {
            encode_utf8_valid_utf8(spec_describe(self@));
        }
        let ghost gout = out@;
        match bytes_to_string(out) {
            Some(s) => {
                proof {
                    encode_utf8_decode_utf8(s@);
                    encode_utf8_decode_utf8(spec_describe(self@));
                }
                s
            },
            None => vstd::pervasive::unreached(),
        }
    }
}

/// Copies a frame, field by field.
pub fn type_clone(t: &Type) -> (r: Type)
    ensures
        r@ == t@,
    decreases t, 1nat,
{
    match t {
        Type::SimpleString(s) => Type::SimpleString(s.clone()),
        Type::Error(s) => Type::Error(s.clone()),
        Type::Integer(i) => Type::Integer(*i),
        Type::Null => Type::Null,
        Type::BulkString(b) => Type::BulkString(vstd::slice::slice_to_vec(b.as_slice())),
        Type::Array(a) => {
            proof {
                lemma_views_of(a@);
            }
            let mut out: Vec<Type> = Vec::new();
            let mut i: usize = 0;
            while i < a.len()
                invariant
                    i <= a.len(),
                    *t == Type::Array(*a),
                    out@.len() == i,
                    forall|j: int| 0 <= j < i ==> #[trigger] out@[j]@ == a@[j]@,
                decreases a@.len() - i,
            {
                proof {
                    assert(*t == Type::Array(*a));
                    assert(decreases_to!(*t => t->Array_0));
                    assert(decreases_to!(*a => a@));
                    assert(decreases_to!(a@ => a@[i as int]));
                }
                let c = type_clone(&a[i]);
                out.push(c);
                i += 1;
            }
            proof {
                lemma_views_of(a@);
                lemma_views_of(out@);
                assert(views_of(out@) =~= views_of(a@));
            }
            Type::Array(out)
        },
    }
}

/// Compares two frames structurally.
pub fn type_eq(a: &Type, b: &Type) -> (r: bool)
    ensures
        r == (a@ == b@),
    decreases a, 1nat,
{
    match (a, b) {
        (Type::SimpleString(x), Type::SimpleString(y)) => {
            let r = str_eq_exec(x.as_str(), y.as_str());
            proof {
                assert(a@ == TypeV::SimpleString(x@) && b@ == TypeV::SimpleString(y@));
            }
            return r;
        },
        (Type::Error(x), Type::Error(y)) => {
            let r = str_eq_exec(x.as_str(), y.as_str());
            proof {
                assert(a@ == TypeV::Error(x@) && b@ == TypeV::Error(y@));
            }
            return r;
        },
        (Type::Integer(x), Type::Integer(y)) => {
            let r = *x == *y;
            proof {
                assert(a@ == TypeV::Integer(*x as int) && b@ == TypeV::Integer(*y as int));
            }
            return r;
        },
        (Type::Null, Type::Null) => {
            proof {
                assert(a@ == TypeV::Null && b@ == TypeV::Null);
            }
            return true;
        },
        (Type::BulkString(x), Type::BulkString(y)) => {
            let r = x == y;
            proof {
                assert(a@ == TypeV::BulkString(x@) && b@ == TypeV::BulkString(y@));
                if r {
                    assert(x@ =~= y@);
                }
                if x@ == y@ {
                    assert(x@.len() == y@.len());
                    assert(r);
                }
            }
            return r;
        },
        (Type::Array(x), Type::Array(y)) => {
            let r = vec_type_eq(a, x, y);
            proof {
                lemma_views_of(x@);
                lemma_views_of(y@);
                assert(a@ == TypeV::Array(views_of(x@)) && b@ == TypeV::Array(views_of(y@)));
            }
            return r;
        },
        _ => {
            proof {
                assert(a@ != b@);
            }
            return false;
        },
    }
}

/// Compares two frame lists element by element; `owner` is the array frame
/// that `x` belongs to, carried for the termination argument.
fn vec_type_eq(owner: &Type, x: &Vec<Type>, y: &Vec<Type>) -> (r: bool)
    requires
        *owner == Type::Array(*x),
    ensures
        r == (views_of(x@) == views_of(y@)),
    decreases owner, 0nat,
{
    proof {
        lemma_views_of(x@);
        lemma_views_of(y@);
    }
    if x.len() != y.len() {
        proof {
            assert(views_of(x@).len() != views_of(y@).len());
        }
        return false;
    }
    let n = x.len();
    let mut i: usize = 0;
    loop
        invariant
            0 <= i <= n,
            *owner == Type::Array(*x),
            n == x@.len() == y@.len(),
            forall|j: int| 0 <= j < i ==> views_of(x@)[j] == views_of(y@)[j],
        ensures
            (i == n as usize && forall|j: int|
                0 <= j < n ==> views_of(x@)[j] == views_of(y@)[j]) || (i < n as usize
                && views_of(x@)[i as int] != views_of(y@)[i as int]),
        decreases n - i,
    {
        if i >= n {
            break;
        }
        proof {
            lemma_views_of(x@);
            lemma_views_of(y@);
            assert(decreases_to!(*owner => owner->Array_0));
            assert(decreases_to!(*x => x@));
            assert(decreases_to!(x@ => x@[i as int]));
        }
        if !type_eq(&x[i], &y[i]) {
            break;
        }
        i = i + 1;
    }
    proof {
        lemma_views_of(x@);
        lemma_views_of(y@);
    }
    if i == n {
        proof {
            assert(views_of(x@) =~= views_of(y@));
        }
        true
    } else {
        proof {
            assert(views_of(x@) != views_of(y@));
        }
        false
    }
}

impl PartialEq for Type {
    /// Structural equality of frames.
    fn eq(&self, other: &Type) -> (r: bool) {
        type_eq(self, other)
    }
}

impl vstd::std_specs::cmp::PartialEqSpecImpl for Type {
    open spec fn obeys_eq_spec() -> bool {
        true
    }

    open spec fn eq_spec(&self, other: &Type) -> bool {
        self@ == other@
    }
}

/// Holds the `from` and `to` of a failed conversion inside a consumer.
#[derive(Debug)]
pub struct ConversionFailed {
    /// The rendering of the value that would not convert.
    pub from: String,
    /// The name of the type it would not convert to.
    pub to: &'static str,
}

/// The ways a consumer's read can fail.
#[derive(Debug)]
pub enum TypeConsumerError {
    /// The value at hand does not convert to the requested type.
    ConversionFailed(ConversionFailed),
    /// The consumer has no value left to read.
    Empty,
}

/// The mathematical value of a consumer error.
#[verifier::ext_equal]
pub ghost enum TceV {
    Conv(Seq<char>, Seq<char>),
    Empty,
}

impl View for TypeConsumerError {
    type V = TceV;

    open spec fn view(&self) -> TceV {
        match self {
            TypeConsumerError::ConversionFailed(c) => TceV::Conv(c.from@, c.to@),
            TypeConsumerError::Empty => TceV::Empty,
        }
    }
}

impl PartialEq for ConversionFailed {
    /// Field-by-field equality.
    fn eq(&self, other: &ConversionFailed) -> (r: bool) {
        str_eq_exec(self.from.as_str(), other.from.as_str()) && str_eq_exec(self.to, other.to)
    }
}

impl vstd::std_specs::cmp::PartialEqSpecImpl for ConversionFailed {
    open spec fn obeys_eq_spec() -> bool {
        true
    }

    open spec fn eq_spec(&self, other: &ConversionFailed) -> bool {
        self.from@ == other.from@ && self.to@ == other.to@
    }
}

impl PartialEq for TypeConsumerError {
    /// Structural equality of consumer errors.
    fn eq(&self, other: &TypeConsumerError) -> (r: bool) {
        match (self, other) {
            (
                TypeConsumerError::ConversionFailed(a),
                TypeConsumerError::ConversionFailed(b),
            ) => a == b,
            (TypeConsumerError::Empty, TypeConsumerError::Empty) => true,
            _ => false,
        }
    }
}

impl vstd::std_specs::cmp::PartialEqSpecImpl for TypeConsumerError {
    open spec fn obeys_eq_spec() -> bool {
        true
    }

    open spec fn eq_spec(&self, other: &TypeConsumerError) -> bool {
        self@ == other@
    }
}

/// Makes the error for a value that would not convert.
pub fn cannot_convert_err(from: String, to: &'static str) -> (r: TypeConsumerError)
    ensures
        r@ == TceV::Conv(from@, to@),
{
    TypeConsumerError::ConversionFailed(ConversionFailed { from, to })
}

/// What a frame converts to when text is requested: text stays, an integer
/// renders in decimal, and a bulk string decodes as UTF-8.
pub open spec fn spec_to_string(t: TypeV) -> Result<Seq<char>, TceV> {
    match t {
        TypeV::SimpleString(s) => Ok(s),
        TypeV::Integer(i) => Ok(ascii_chars_of(spec_idec(i))),
        TypeV::BulkString(b) => if valid_utf8(b) {
            Ok(decode_utf8(b))
        } else {
            Err(TceV::Conv(spec_describe(t), "String"@))
        },
        _ => Err(TceV::Conv(spec_describe(t), "String"@)),
    }
}

/// What a frame converts to when an integer is requested: an integer stays,
/// and text of either kind is read as decimal.
pub open spec fn spec_to_integer(t: TypeV) -> Result<int, TceV> {
    match t {
        TypeV::SimpleString(s) => match spec_atoi_i64(encode_utf8(s)) {
            Some(v) => Ok(v),
            None => Err(TceV::Conv(spec_describe(t), "Integer"@)),
        },
        TypeV::BulkString(b) => match spec_atoi_i64(b) {
            Some(v) => Ok(v),
            None => Err(TceV::Conv(spec_describe(t), "Integer"@)),
        },
        TypeV::Integer(i) => Ok(i),
        _ => Err(TceV::Conv(spec_describe(t), "Integer"@)),
    }
}

/// What a frame converts to when bytes are requested: a bulk string's bytes,
/// or a simple string's UTF-8 bytes.
pub open spec fn spec_to_bytes(t: TypeV) -> Result<Seq<u8>, TceV> {
    match t {
        TypeV::SimpleString(s) => Ok(encode_utf8(s)),
        TypeV::BulkString(b) => Ok(b),
        _ => Err(TceV::Conv(spec_describe(t), "Bytes"@)),
    }
}

/// Converts one frame to text, as `spec_to_string` says.
pub fn next_string(value: Type) -> (r: Result<String, TypeConsumerError>)
    ensures
        match spec_to_string(value@) {
            Ok(cs) => r matches Ok(s) && s@ == cs,
            Err(ev) => r matches Err(e) && e@ == ev,
        },
{
    let rendered = value.describe();
    match value {
        Type::SimpleString(s) => Ok(s),
        Type::Integer(i) => Ok(crate::text::i64_to_string(i)),
        Type::BulkString(b) => {
            let ghost gb = b@;
            match bytes_to_string(b) {
                Some(s) => {
                    proof {
                        encode_utf8_valid_utf8(s@);
                        encode_utf8_decode_utf8(s@);
                    }
                    Ok(s)
                },
                None => Err(cannot_convert_err(rendered, "String")),
            }
        },
        other => Err(cannot_convert_err(rendered, "String")),
    }
}

/// Converts one frame to an integer, as `spec_to_integer` says.
pub fn next_integer(value: Type) -> (r: Result<i64, TypeConsumerError>)
    ensures
        match spec_to_integer(value@) {
            Ok(v) => r matches Ok(i) && i as int == v,
            Err(ev) => r matches Err(e) && e@ == ev,
        },
{
    let rendered = value.describe();
    match value {
        Type::SimpleString(s) => {
            match atoi_i64(s.as_str().as_bytes()) {
                Some(v) => Ok(v),
                None => Err(cannot_convert_err(rendered, "Integer")),
            }
        },
        Type::BulkString(b) => {
            match atoi_i64(b.as_slice()) {
                Some(v) => Ok(v),
                None => Err(cannot_convert_err(rendered, "Integer")),
            }
        },
        Type::Integer(i) => Ok(i),
        other => Err(cannot_convert_err(rendered, "Integer")),
    }
}

/// Converts one frame to bytes, as `spec_to_bytes` says.
pub fn next_bytes(value: Type) -> (r: Result<Vec<u8>, TypeConsumerError>)
    ensures
        match spec_to_bytes(value@) {
            Ok(bs) => r matches Ok(b) && b@ == bs,
            Err(ev) => r matches Err(e) && e@ == ev,
        },
{
    let rendered = value.describe();
    match value {
        Type::SimpleString(s) => Ok(s.as_str().as_bytes_vec()),
        Type::BulkString(b) => Ok(b),
        other => Err(cannot_convert_err(rendered, "Bytes")),
    }
}

/// A single-consumption reader over one frame: a scalar hands out one value,
/// an array hands out its elements one by one.
#[derive(Debug)]
pub struct TypeConsumer {
    inner: Option<Type>,
}

impl View for TypeConsumer {
    type V = Option<TypeV>;

    closed spec fn view(&self) -> Option<TypeV> {
        match self.inner {
            Some(t) => Some(t@),
            None => None,
        }
    }
}

/// The next token a consumer hands out, with the consumer's state after it:
/// the head of an array, or a scalar taken whole.
pub open spec fn spec_token(c: Option<TypeV>) -> Option<(TypeV, Option<TypeV>)> {
    match c {
        None => None,
        Some(TypeV::Array(vs)) => if vs.len() == 0 {
            None
        } else {
            Some((vs[0], Some(TypeV::Array(vs.drop_first()))))
        },
        Some(t) => Some((t, None)),
    }
}

/// The run of tokens a consumer will hand out: an array's elements, or a
/// scalar by itself.
pub open spec fn tokens_of(c: Option<TypeV>) -> Seq<TypeV> {
    match c {
        None => Seq::empty(),
        Some(TypeV::Array(vs)) => vs,
        Some(t) => seq![t],
    }
}

/// One token step, read off the token run: the consumer hands out the head
/// of its run and keeps the tail.
pub proof fn lemma_token_step(c: Option<TypeV>)
    ensures
        match spec_token(c) {
            None => tokens_of(c).len() == 0,
            Some((tok, st)) => tokens_of(c).len() > 0 && tok == tokens_of(c)[0] && tokens_of(st)
                == tokens_of(c).drop_first(),
        },
{
    match c {
        None => {},
        Some(TypeV::Array(vs)) => {},
        Some(t) => {
            assert(tokens_of(c) == seq![t]);
            assert(seq![t][0] == t);
            assert(seq![t].drop_first() =~= Seq::<TypeV>::empty());
        },
    }
}

impl TypeConsumer {
    /// Wraps a frame for field-by-field reading.
    pub fn new(t: Type) -> (r: Self)
        ensures
            r@ == Some(t@),
    {
        TypeConsumer { inner: Some(t) }
    }

    /// Hands out the next token, or reports the consumer empty.
    pub fn next_token(&mut self) -> (r: Result<Type, TypeConsumerError>)
        ensures
            match spec_token(old(self)@) {
                None => (r matches Err(e) && e@ == TceV::Empty) && final(self)@ == old(self)@,
                Some((tok, st)) => (r matches Ok(t) && t@ == tok) && final(self)@ == st,
            },
    {
        match &mut self.inner {
            Some(t) => match t {
                Type::Array(values) => {
                    if values.len() == 0 {
                        proof {
                            assert(self@ =~= old(self)@);
                        }
                        Err(TypeConsumerError::Empty)
                    } else {
                        let ghost vs = values@;
                        let tok = values.remove(0);
                        proof {
                            lemma_views_of(vs);
                            lemma_views_of(values@);
                            assert(views_of(values@) =~= views_of(vs).drop_first());
                        }
                        Ok(tok)
                    }
                },
                _ => {
                    let tok = self.inner.take();
                    match tok {
                        Some(t) => Ok(t),
                        None => vstd::pervasive::unreached(),
                    }
                },
            },
            None => Err(TypeConsumerError::Empty),
        }
    }

    /// Reads the next token as text, if it has any.
    pub fn next_string(&mut self) -> (r: Result<String, TypeConsumerError>)
        ensures
            match spec_token(old(self)@) {
                None => (r matches Err(e) && e@ == TceV::Empty) && final(self)@ == old(self)@,
                Some((tok, st)) => final(self)@ == st && (match spec_to_string(tok) {
                    Ok(cs) => r matches Ok(s) && s@ == cs,
                    Err(ev) => r matches Err(e) && e@ == ev,
                }),
            },
    {
        match self.next_token() {
            Ok(t) => next_string(t),
            Err(e) => Err(e),
        }
    }

    /// Reads the next token as a signed 64-bit integer, if it is one.
    pub fn next_integer(&mut self) -> (r: Result<i64, TypeConsumerError>)
        ensures
            match spec_token(old(self)@) {
                None => (r matches Err(e) && e@ == TceV::Empty) && final(self)@ == old(self)@,
                Some((tok, st)) => final(self)@ == st && (match spec_to_integer(tok) {
                    Ok(v) => r matches Ok(i) && i as int == v,
                    Err(ev) => r matches Err(e) && e@ == ev,
                }),
            },
    {
        match self.next_token() {
            Ok(t) => next_integer(t),
            Err(e) => Err(e),
        }
    }

    /// Reads the next token as bytes, if it carries any.
    pub fn next_bytes(&mut self) -> (r: Result<Vec<u8>, TypeConsumerError>)
        ensures
            match spec_token(old(self)@) {
                None => (r matches Err(e) && e@ == TceV::Empty) && final(self)@ == old(self)@,
                Some((tok, st)) => final(self)@ == st && (match spec_to_bytes(tok) {
                    Ok(bs) => r matches Ok(b) && b@ == bs,
                    Err(ev) => r matches Err(e) && e@ == ev,
                }),
            },
    {
        match self.next_token() {
            Ok(t) => next_bytes(t),
            Err(e) => Err(e),
        }
    }

    /// Reads the next token as a whole frame.
    pub fn next_type(&mut self) -> (r: Result<Type, TypeConsumerError>)
        ensures
            match spec_token(old(self)@) {
                None => (r matches Err(e) && e@ == TceV::Empty) && final(self)@ == old(self)@,
                Some((tok, st)) => (r matches Ok(t) && t@ == tok) && final(self)@ == st,
            },
    {
        self.next_token()
    }
}

} // verus!
