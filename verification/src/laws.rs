//! Global properties of the RESP codec: parsing is a pure function of the
//! buffer and cursor, and parsing inverts serialization.

use vstd::prelude::*;
use vstd::utf8::{encode_utf8, encode_utf8_decode_utf8, encode_utf8_valid_utf8};

use crate::parse::{
    collapse, lemma_find_crlf, lemma_parse_advances, spec_find_crlf, spec_get_bytes,
    spec_get_line, spec_parse, spec_parse_elems, ElemsStep, ParseErrV, ParseStep, past,
};
use crate::resp::{spec_crlf, spec_encode, spec_encode_seq, wf_type, TypeV};
use crate::text::{
    lemma_atoi_idec, lemma_encode_no_crlf, lemma_idec_bytes, lemma_udec_digits, spec_atoi_i64,
    spec_atoi_loop, spec_digit, spec_idec, spec_udec,
};

verus! {

/// Parse determinism: the parser is a function of the buffer and the cursor,
/// so equal inputs give equal outcomes. The executable reader's contract
/// ties every call to this function, so repeated calls agree as well.
pub proof fn lemma_parse_deterministic(s1: Seq<u8>, s2: Seq<u8>, pos: int)
    requires
        s1 =~= s2,
    ensures
        spec_parse(s1, pos) == spec_parse(s2, pos),
{
}

/// The first CRLF at or after `from` is at `i` when `i` starts a CRLF and no
/// carriage return stands before it.
proof fn lemma_find_crlf_at(s: Seq<u8>, from: int, i: int)
    requires
        0 <= from <= i,
        i + 1 < s.len(),
        s[i] == 0x0d,
        s[i + 1] == 0x0a,
        forall|j: int| from <= j < i ==> s[j] != 0x0d,
    ensures
        spec_find_crlf(s, from) == Some(i),
    decreases i - from,
{
    if from < i {
        lemma_find_crlf_at(s, from + 1, i);
    }
}

/// Reading back the two-byte line `-1` gives the number -1.
proof fn lemma_atoi_minus_one()
    ensures
        spec_atoi_i64(seq![0x2du8, 0x31u8]) == Some(-1int),
{
    let line = seq![0x2du8, 0x31u8];
    assert(spec_digit(line[1]) == Some(1int));
    assert(spec_atoi_loop(line, 2, Some(-1int), false) == Some(-1int));
    assert(spec_atoi_loop(line, 1, Some(0), false) == Some(-1int));
}

/// Parsing at `pos` in a buffer that carries the encoding of a well-formed
/// frame there yields that frame and stops right after its encoding.
#[verifier::rlimit(80)]
pub proof fn lemma_parse_serialized(s: Seq<u8>, pos: int, t: TypeV)
    requires
        wf_type(t),
        0 <= pos,
        pos + spec_encode(t).len() <= s.len(),
        s.subrange(pos, pos + spec_encode(t).len()) == spec_encode(t),
    ensures
        spec_parse(s, pos) == ParseStep::Found(t, pos + spec_encode(t).len()),
    decreases t,
{
    let enc = spec_encode(t);
    let n = enc.len() as int;
    assert forall|j: int| 0 <= j < n implies s[pos + j] == enc[j] by {
        assert(enc[j] == s.subrange(pos, pos + n)[j]);
    }
    match t {
        TypeV::SimpleString(cs) => {
            let eb = encode_utf8(cs);
            assert(enc == seq![0x2bu8] + eb + spec_crlf());
            assert(enc[0] == 0x2b);
            assert(s[pos + 0] == enc[0]);
            assert(s[pos] == 0x2b);
            assert(n == 3 + eb.len());
            let icr = pos + 1 + eb.len();
            lemma_encode_no_crlf(cs);
            assert forall|j: int| pos + 1 <= j < icr implies s[j] != 0x0d by {
                assert(s[j] == enc[j - pos]);
                assert(enc[j - pos] == eb[j - pos - 1]);
            }
            assert(s[icr] == enc[1 + eb.len() as int]);
            assert(s[icr + 1] == enc[2 + eb.len() as int]);
            lemma_find_crlf_at(s, pos + 1, icr);
            assert(s.subrange(pos + 1, icr) =~= eb) by {
                assert forall|j: int|
                    0 <= j < eb.len() implies s.subrange(pos + 1, icr)[j] == eb[j] by {
                    assert(s[pos + 1 + j] == enc[1 + j]);
                    assert(enc[1 + j] == eb[j]);
                }
            }
            encode_utf8_valid_utf8(cs);
            encode_utf8_decode_utf8(cs);
            assert(spec_get_line(s, pos + 1) == Some((eb, icr + 2)));
            assert(spec_parse(s, pos) == ParseStep::Found(TypeV::SimpleString(cs), pos + n));
        },
        TypeV::Error(cs) => {
            let eb = encode_utf8(cs);
            assert(enc == seq![0x2du8] + eb + spec_crlf());
            assert(enc[0] == 0x2d);
            assert(s[pos + 0] == enc[0]);
            assert(s[pos] == 0x2d);
            assert(n == 3 + eb.len());
            let icr = pos + 1 + eb.len();
            lemma_encode_no_crlf(cs);
            assert forall|j: int| pos + 1 <= j < icr implies s[j] != 0x0d by {
                assert(s[j] == enc[j - pos]);
                assert(enc[j - pos] == eb[j - pos - 1]);
            }
            assert(s[icr] == enc[1 + eb.len() as int]);
            assert(s[icr + 1] == enc[2 + eb.len() as int]);
            lemma_find_crlf_at(s, pos + 1, icr);
            assert(s.subrange(pos + 1, icr) =~= eb) by {
                assert forall|j: int|
                    0 <= j < eb.len() implies s.subrange(pos + 1, icr)[j] == eb[j] by {
                    assert(s[pos + 1 + j] == enc[1 + j]);
                    assert(enc[1 + j] == eb[j]);
                }
            }
            encode_utf8_valid_utf8(cs);
            encode_utf8_decode_utf8(cs);
            assert(spec_get_line(s, pos + 1) == Some((eb, icr + 2)));
            assert(spec_parse(s, pos) == ParseStep::Found(TypeV::Error(cs), pos + n));
        },
        TypeV::Integer(v) => {
            let eb = spec_idec(v);
            assert(enc == seq![0x3au8] + eb + spec_crlf());
            assert(enc[0] == 0x3a);
            assert(s[pos + 0] == enc[0]);
            assert(s[pos] == 0x3a);
            assert(n == 3 + eb.len());
            let icr = pos + 1 + eb.len();
            lemma_idec_bytes(v);
            assert forall|j: int| pos + 1 <= j < icr implies s[j] != 0x0d by {
                assert(s[j] == enc[j - pos]);
                assert(enc[j - pos] == eb[j - pos - 1]);
            }
            assert(s[icr] == enc[1 + eb.len() as int]);
            assert(s[icr + 1] == enc[2 + eb.len() as int]);
            lemma_find_crlf_at(s, pos + 1, icr);
            assert(s.subrange(pos + 1, icr) =~= eb) by {
                assert forall|j: int|
                    0 <= j < eb.len() implies s.subrange(pos + 1, icr)[j] == eb[j] by {
                    assert(s[pos + 1 + j] == enc[1 + j]);
                    assert(enc[1 + j] == eb[j]);
                }
            }
            lemma_atoi_idec(v);
            assert(spec_get_line(s, pos + 1) == Some((eb, icr + 2)));
            assert(spec_parse(s, pos) == ParseStep::Found(TypeV::Integer(v), pos + n));
        },
        TypeV::Null => {
            assert(enc == seq![0x24u8, 0x2du8, 0x31u8, 0x0du8, 0x0au8]);
            let icr = pos + 3;
            assert(s[pos + 1] == 0x2d && s[pos + 2] == 0x31);
            assert(s[icr] == 0x0d && s[icr + 1] == 0x0a);
            assert forall|j: int| pos + 1 <= j < icr implies s[j] != 0x0d by {
                assert(s[j] == enc[j - pos]);
            }
            lemma_find_crlf_at(s, pos + 1, icr);
            assert(s.subrange(pos + 1, icr) =~= seq![0x2du8, 0x31u8]) by {
                assert(s.subrange(pos + 1, icr)[0] == s[pos + 1]);
                assert(s.subrange(pos + 1, icr)[1] == s[pos + 2]);
            }
            lemma_atoi_minus_one();
            assert(enc[0] == 0x24);
            assert(s[pos + 0] == enc[0]);
            assert(s[pos] == 0x24);
            assert(n == 5);
            assert(spec_get_line(s, pos + 1) == Some((seq![0x2du8, 0x31u8], icr + 2)));
            assert(spec_parse(s, pos) == ParseStep::Found(TypeV::Null, pos + n));
        },
        TypeV::BulkString(b) => {
            let eb = spec_udec(b.len());
            assert(enc == seq![0x24u8] + eb + spec_crlf() + b + spec_crlf());
            assert(enc[0] == 0x24);
            assert(s[pos + 0] == enc[0]);
            assert(s[pos] == 0x24);
            assert(n == 5 + eb.len() + b.len());
            let icr = pos + 1 + eb.len();
            lemma_udec_digits(b.len());
            assert forall|j: int| pos + 1 <= j < icr implies s[j] != 0x0d by {
                assert(s[j] == enc[j - pos]);
                assert(enc[j - pos] == eb[j - pos - 1]);
            }
            assert(s[icr] == enc[1 + eb.len() as int]);
            assert(s[icr + 1] == enc[2 + eb.len() as int]);
            lemma_find_crlf_at(s, pos + 1, icr);
            assert(s.subrange(pos + 1, icr) =~= eb) by {
                assert forall|j: int|
                    0 <= j < eb.len() implies s.subrange(pos + 1, icr)[j] == eb[j] by {
                    assert(s[pos + 1 + j] == enc[1 + j]);
                    assert(enc[1 + j] == eb[j]);
                }
            }
            assert(spec_idec(b.len() as int) == eb);
            lemma_atoi_idec(b.len() as int);
            let np = icr + 2;
            let blen = b.len() as int;
            assert(s.len() - np >= blen + 2);
            assert(s.subrange(np, np + blen) =~= b) by {
                assert forall|j: int| 0 <= j < blen implies s.subrange(np, np + blen)[j] == b[j]
                    by {
                    assert(s[np + j] == enc[np + j - pos]);
                    assert(enc[np + j - pos] == b[j]);
                }
            }
            assert(spec_get_bytes(s, np, blen) == Some((b, np + blen + 2)));
            assert(np + blen + 2 == pos + n);
            assert(spec_get_line(s, pos + 1) == Some((eb, np)));
            assert(spec_parse(s, pos) == ParseStep::Found(TypeV::BulkString(b), pos + n));
        },
        TypeV::Array(ts) => {
            let eb = spec_udec(ts.len());
            let body = spec_encode_seq(ts);
            assert(enc == seq![0x2au8] + eb + spec_crlf() + body);
            assert(enc[0] == 0x2a);
            assert(s[pos + 0] == enc[0]);
            assert(s[pos] == 0x2a);
            assert(n == 3 + eb.len() + body.len());
            let icr = pos + 1 + eb.len();
            lemma_udec_digits(ts.len());
            assert forall|j: int| pos + 1 <= j < icr implies s[j] != 0x0d by {
                assert(s[j] == enc[j - pos]);
                assert(enc[j - pos] == eb[j - pos - 1]);
            }
            assert(s[icr] == enc[1 + eb.len() as int]);
            assert(s[icr + 1] == enc[2 + eb.len() as int]);
            lemma_find_crlf_at(s, pos + 1, icr);
            assert(s.subrange(pos + 1, icr) =~= eb) by {
                assert forall|j: int|
                    0 <= j < eb.len() implies s.subrange(pos + 1, icr)[j] == eb[j] by {
                    assert(s[pos + 1 + j] == enc[1 + j]);
                    assert(enc[1 + j] == eb[j]);
                }
            }
            assert(spec_idec(ts.len() as int) == eb);
            lemma_atoi_idec(ts.len() as int);
            let np = icr + 2;
            let m = ts.len() as int;
            if m == 0 {
                assert(ts =~= Seq::<TypeV>::empty());
                assert(body.len() == 0);
                assert(np == pos + n);
            } else {
                assert(s.subrange(np, np + body.len()) =~= body) by {
                    assert forall|j: int|
                        0 <= j < body.len() implies s.subrange(np, np + body.len())[j] == body[j]
                        by {
                        assert(s[np + j] == enc[np + j - pos]);
                        assert(enc[np + j - pos] == body[j]);
                    }
                }
                lemma_parse_serialized_seq(s, np, ts);
                assert(past(np, pos) == np);
                assert(np + body.len() == pos + n);
            }
            assert(spec_get_line(s, pos + 1) == Some((eb, np)));
            assert(spec_parse(s, pos) == ParseStep::Found(TypeV::Array(ts), pos + n));
        },
    }
}

/// Parsing a run of frames over their concatenated encodings yields exactly
/// those frames.
proof fn lemma_parse_serialized_seq(s: Seq<u8>, pos: int, ts: Seq<TypeV>)
    requires
        forall|i: int| 0 <= i < ts.len() ==> wf_type(#[trigger] ts[i]),
        0 <= pos,
        pos + spec_encode_seq(ts).len() <= s.len(),
        s.subrange(pos, pos + spec_encode_seq(ts).len()) == spec_encode_seq(ts),
    ensures
        spec_parse_elems(s, pos, ts.len()) == ElemsStep::Done(
            ts,
            pos + spec_encode_seq(ts).len(),
        ),
    decreases ts,
{
    if ts.len() == 0 {
        assert(spec_encode_seq(ts).len() == 0);
    } else {
        let whole = spec_encode_seq(ts);
        let head = spec_encode(ts[0]);
        let rest = spec_encode_seq(ts.drop_first());
        assert(whole == head + rest);
        assert forall|j: int| 0 <= j < whole.len() implies s[pos + j] == whole[j] by {
            assert(whole[j] == s.subrange(pos, pos + whole.len())[j]);
        }
        assert(s.subrange(pos, pos + head.len()) =~= head) by {
            assert forall|j: int|
                0 <= j < head.len() implies s.subrange(pos, pos + head.len())[j] == head[j] by {
                assert(s[pos + j] == whole[j]);
                assert(whole[j] == head[j]);
            }
        }
        lemma_parse_serialized(s, pos, ts[0]);
        let np = pos + head.len();
        assert(s.subrange(np, np + rest.len()) =~= rest) by {
            assert forall|j: int|
                0 <= j < rest.len() implies s.subrange(np, np + rest.len())[j] == rest[j] by {
                assert(s[np + j] == whole[head.len() + j]);
                assert(whole[head.len() + j] == rest[j]);
            }
        }
        assert forall|i: int| 0 <= i < ts.drop_first().len() implies wf_type(
            #[trigger] ts.drop_first()[i],
        ) by {
            assert(ts.drop_first()[i] == ts[i + 1]);
        }
        lemma_parse_serialized_seq(s, np, ts.drop_first());
        crate::parse::lemma_parse_advances(s, pos);
        assert(past(np, pos) == np);
        assert(seq![ts[0]] + ts.drop_first() =~= ts);
        assert(np + rest.len() == pos + whole.len());
    }
}

/// A buffer cut at or before a line's terminating LF holds no complete
/// CRLF pair after the marker: the line's body has no carriage return, and
/// the one carriage return that may be present has its line feed cut off.
proof fn lemma_truncated_no_crlf(s: Seq<u8>, pos: int, body: Seq<u8>)
    requires
        0 <= pos < s.len(),
        s.len() - pos <= 2 + body.len(),
        forall|j: int| 0 <= j < body.len() ==> body[j] != 0x0d,
        forall|j: int|
            pos + 1 <= j < s.len() && j - pos - 1 < body.len() ==> s[j] == body[j - pos - 1],
        forall|j: int|
            pos + 1 <= j < s.len() && j - pos - 1 == body.len() ==> s[j] == 0x0d,
    ensures
        spec_find_crlf(s, pos + 1) is None,
{
    lemma_find_crlf(s, pos + 1);
    if spec_find_crlf(s, pos + 1) is Some {
        let i = spec_find_crlf(s, pos + 1)->Some_0;
        assert(s[i] == 0x0d && i + 1 < s.len());
        if i - pos - 1 < body.len() {
            assert(s[i] == body[i - pos - 1]);
            assert(false);
        } else {
            assert(i - pos - 1 >= body.len());
            assert(i + 1 - pos - 1 <= body.len());
            assert(false);
        }
    }
}

/// Whether every bulk string in a frame holds at least two bytes. The
/// reader skips a bulk payload's trailing CRLF only when two bytes remain
/// after the payload starts, so a shorter bulk cut right after its payload
/// leaves the cursor inside the terminator; prefix parsing is monotonic
/// away from that corner.
pub open spec fn no_short_bulk(t: TypeV) -> bool
    decreases t,
{
    match t {
        TypeV::BulkString(b) => b.len() >= 2,
        TypeV::Array(ts) => forall|i: int| 0 <= i < ts.len() ==> no_short_bulk(#[trigger] ts[i]),
        _ => true,
    }
}

/// Parsing at a position where the buffer holds only a proper prefix of a
/// well-formed frame's encoding either finds a frame, standing at or past
/// the buffer's end, or fails with an incomplete read.
pub proof fn lemma_parse_prefix(s: Seq<u8>, pos: int, t: TypeV)
    requires
        wf_type(t),
        no_short_bulk(t),
        0 <= pos <= s.len(),
        s.len() - pos < spec_encode(t).len(),
        s.subrange(pos, s.len() as int) == spec_encode(t).take(s.len() - pos),
    ensures
        match spec_parse(s, pos) {
            ParseStep::Found(_, np) => np >= s.len() || np == pos + spec_encode(t).len(),
            ParseStep::Fail(e, _) => e is Incomplete || (e is EndOfBytes && pos >= s.len()),
        },
    decreases t,
{
    let enc = spec_encode(t);
    let avail = s.len() - pos;
    assert forall|j: int| 0 <= j < avail implies s[pos + j] == enc[j] by {
        assert(s.subrange(pos, s.len() as int)[j] == s[pos + j]);
        assert(spec_encode(t).take(avail)[j] == enc[j]);
    }
    if avail == 0 {
    } else {
        match t {
            TypeV::SimpleString(cs) => {
                let eb = encode_utf8(cs);
                assert(enc == seq![0x2bu8] + eb + spec_crlf());
                lemma_encode_no_crlf(cs);
                assert forall|j: int|
                    pos + 1 <= j < s.len() && j - pos - 1 < eb.len() implies s[j] == eb[j
                    - pos - 1] by {
                    assert(s[j] == enc[j - pos]);
                    assert(enc[j - pos] == eb[j - pos - 1]);
                }
                assert forall|j: int|
                    pos + 1 <= j < s.len() && j - pos - 1 == eb.len() implies s[j] == 0x0d by {
                    assert(s[j] == enc[j - pos]);
                    assert(enc[j - pos] == 0x0d);
                }
                lemma_truncated_no_crlf(s, pos, eb);
                assert(s[pos + 0] == enc[0] && enc[0] == 0x2b);
                assert(spec_parse(s, pos) == ParseStep::Fail(ParseErrV::Incomplete, pos + 1));
            },
            TypeV::Error(cs) => {
                let eb = encode_utf8(cs);
                assert(enc == seq![0x2du8] + eb + spec_crlf());
                lemma_encode_no_crlf(cs);
                assert forall|j: int|
                    pos + 1 <= j < s.len() && j - pos - 1 < eb.len() implies s[j] == eb[j
                    - pos - 1] by {
                    assert(s[j] == enc[j - pos]);
                    assert(enc[j - pos] == eb[j - pos - 1]);
                }
                assert forall|j: int|
                    pos + 1 <= j < s.len() && j - pos - 1 == eb.len() implies s[j] == 0x0d by {
                    assert(s[j] == enc[j - pos]);
                    assert(enc[j - pos] == 0x0d);
                }
                lemma_truncated_no_crlf(s, pos, eb);
                assert(s[pos + 0] == enc[0] && enc[0] == 0x2d);
                assert(spec_parse(s, pos) == ParseStep::Fail(ParseErrV::Incomplete, pos + 1));
            },
            TypeV::Integer(v) => {
                let eb = spec_idec(v);
                assert(enc == seq![0x3au8] + eb + spec_crlf());
                lemma_idec_bytes(v);
                assert forall|j: int|
                    pos + 1 <= j < s.len() && j - pos - 1 < eb.len() implies s[j] == eb[j
                    - pos - 1] by {
                    assert(s[j] == enc[j - pos]);
                    assert(enc[j - pos] == eb[j - pos - 1]);
                }
                assert forall|j: int|
                    pos + 1 <= j < s.len() && j - pos - 1 == eb.len() implies s[j] == 0x0d by {
                    assert(s[j] == enc[j - pos]);
                    assert(enc[j - pos] == 0x0d);
                }
                lemma_truncated_no_crlf(s, pos, eb);
                assert(s[pos + 0] == enc[0] && enc[0] == 0x3a);
                assert(spec_parse(s, pos) == ParseStep::Fail(ParseErrV::Incomplete, pos + 1));
            },
            TypeV::Null => {
                assert(enc == seq![0x24u8, 0x2du8, 0x31u8, 0x0du8, 0x0au8]);
                let nb = seq![0x2du8, 0x31u8];
                assert forall|j: int|
                    pos + 1 <= j < s.len() && j - pos - 1 < nb.len() implies s[j] == nb[j
                    - pos - 1] by {
                    assert(s[j] == enc[j - pos]);
                    assert(enc[j - pos] == nb[j - pos - 1]);
                }
                assert forall|j: int|
                    pos + 1 <= j < s.len() && j - pos - 1 == nb.len() implies s[j] == 0x0d by {
                    assert(s[j] == enc[j - pos]);
                    assert(enc[j - pos] == 0x0d);
                }
                lemma_truncated_no_crlf(s, pos, nb);
                assert(s[pos + 0] == enc[0] && enc[0] == 0x24);
                assert(spec_parse(s, pos) == ParseStep::Fail(ParseErrV::Incomplete, pos + 1));
            },
            TypeV::BulkString(b) => {
                let eb = spec_udec(b.len());
                assert(enc == seq![0x24u8] + eb + spec_crlf() + b + spec_crlf());
                assert(s[pos + 0] == enc[0] && enc[0] == 0x24);
                lemma_udec_digits(b.len());
                if avail <= 2 + eb.len() {
                    assert forall|j: int|
                        pos + 1 <= j < s.len() && j - pos - 1 < eb.len() implies s[j] == eb[j
                        - pos - 1] by {
                        assert(s[j] == enc[j - pos]);
                        assert(enc[j - pos] == eb[j - pos - 1]);
                    }
                    assert forall|j: int|
                        pos + 1 <= j < s.len() && j - pos - 1 == eb.len() implies s[j] == 0x0d by {
                        assert(s[j] == enc[j - pos]);
                        assert(enc[j - pos] == 0x0d);
                    }
                    lemma_truncated_no_crlf(s, pos, eb);
                    assert(spec_parse(s, pos) == ParseStep::Fail(ParseErrV::Incomplete, pos + 1));
                } else {
                    let icr = pos + 1 + eb.len();
                    assert forall|j: int| pos + 1 <= j < icr implies s[j] != 0x0d by {
                        assert(s[j] == enc[j - pos]);
                        assert(enc[j - pos] == eb[j - pos - 1]);
                    }
                    assert(s[icr] == enc[1 + eb.len() as int]);
                    assert(s[icr + 1] == enc[2 + eb.len() as int]);
                    lemma_find_crlf_at(s, pos + 1, icr);
                    assert(s.subrange(pos + 1, icr) =~= eb) by {
                        assert forall|j: int|
                            0 <= j < eb.len() implies s.subrange(pos + 1, icr)[j] == eb[j] by {
                            assert(s[pos + 1 + j] == enc[1 + j]);
                            assert(enc[1 + j] == eb[j]);
                        }
                    }
                    assert(spec_idec(b.len() as int) == eb);
                    lemma_atoi_idec(b.len() as int);
                    let np = icr + 2;
                    let blen = b.len() as int;
                    let payload_avail = s.len() - np;
                    assert(payload_avail < blen + 2);
                    if payload_avail < blen {
                        assert(spec_get_bytes(s, np, blen) is None);
                        assert(spec_parse(s, pos) == ParseStep::Fail(
                            ParseErrV::Incomplete,
                            np,
                        ));
                    } else {
                        assert(s.subrange(np, np + blen) =~= b) by {
                            assert forall|j: int|
                                0 <= j < blen implies s.subrange(np, np + blen)[j] == b[j] by {
                                assert(s[np + j] == enc[np + j - pos]);
                                assert(enc[np + j - pos] == b[j]);
                            }
                        }
                        assert(blen >= 2);
                        assert(payload_avail >= 2);
                        assert(spec_get_bytes(s, np, blen) == Some((b, np + blen + 2)));
                        assert(np + blen + 2 == pos + enc.len());
                        assert(np + blen + 2 > s.len());
                    }
                }
            },
            TypeV::Array(ts) => {
                let eb = spec_udec(ts.len());
                let body = spec_encode_seq(ts);
                assert(enc == seq![0x2au8] + eb + spec_crlf() + body);
                assert(s[pos + 0] == enc[0] && enc[0] == 0x2a);
                lemma_udec_digits(ts.len());
                if avail <= 2 + eb.len() {
                    assert forall|j: int|
                        pos + 1 <= j < s.len() && j - pos - 1 < eb.len() implies s[j] == eb[j
                        - pos - 1] by {
                        assert(s[j] == enc[j - pos]);
                        assert(enc[j - pos] == eb[j - pos - 1]);
                    }
                    assert forall|j: int|
                        pos + 1 <= j < s.len() && j - pos - 1 == eb.len() implies s[j] == 0x0d by {
                        assert(s[j] == enc[j - pos]);
                        assert(enc[j - pos] == 0x0d);
                    }
                    lemma_truncated_no_crlf(s, pos, eb);
                    assert(spec_parse(s, pos) == ParseStep::Fail(ParseErrV::Incomplete, pos + 1));
                } else {
                    let icr = pos + 1 + eb.len();
                    assert forall|j: int| pos + 1 <= j < icr implies s[j] != 0x0d by {
                        assert(s[j] == enc[j - pos]);
                        assert(enc[j - pos] == eb[j - pos - 1]);
                    }
                    assert(s[icr] == enc[1 + eb.len() as int]);
                    assert(s[icr + 1] == enc[2 + eb.len() as int]);
                    lemma_find_crlf_at(s, pos + 1, icr);
                    assert(s.subrange(pos + 1, icr) =~= eb) by {
                        assert forall|j: int|
                            0 <= j < eb.len() implies s.subrange(pos + 1, icr)[j] == eb[j] by {
                            assert(s[pos + 1 + j] == enc[1 + j]);
                            assert(enc[1 + j] == eb[j]);
                        }
                    }
                    assert(spec_idec(ts.len() as int) == eb);
                    lemma_atoi_idec(ts.len() as int);
                    assert forall|k: int| 0 <= k < ts.len() implies no_short_bulk(
                        #[trigger] ts[k],
                    ) by {
                        assert((TypeV::Array(ts)->Array_0)[k] == ts[k]);
                    }
                    let np = icr + 2;
                    let m = ts.len() as int;
                    assert(m > 0) by {
                        if m == 0 {
                            assert(body.len() == 0);
                            assert(enc.len() == 3 + eb.len());
                        }
                    }
                    assert(np <= s.len());
                    assert(s.len() - np < body.len());
                    assert(s.subrange(np, s.len() as int) =~= body.take(s.len() - np)) by {
                        assert forall|j: int|
                            0 <= j < s.len() - np implies s.subrange(np, s.len() as int)[j]
                            == body.take(s.len() - np)[j] by {
                            assert(s[np + j] == enc[np + j - pos]);
                            assert(enc[np + j - pos] == body[j]);
                        }
                    }
                    lemma_parse_prefix_seq(s, np, ts);
                    assert(past(np, pos) == np);
                    match spec_parse_elems(s, np, ts.len()) {
                        ElemsStep::Done(elems, ep) => {
                            assert(ep >= s.len() || ep == np + body.len());
                        },
                        ElemsStep::Fail(e, ep) => {
                            assert(collapse(e) is Incomplete);
                        },
                    }
                }
            },
        }
    }
}

/// Reading a run of frames over a buffer that ends inside their
/// concatenated encodings either completes, standing at or past the
/// buffer's end, or fails with an incomplete or exhausted read.
proof fn lemma_parse_prefix_seq(s: Seq<u8>, pos: int, ts: Seq<TypeV>)
    requires
        forall|i: int| 0 <= i < ts.len() ==> wf_type(#[trigger] ts[i]),
        forall|i: int| 0 <= i < ts.len() ==> no_short_bulk(#[trigger] ts[i]),
        0 <= pos <= s.len(),
        s.len() - pos < spec_encode_seq(ts).len(),
        s.subrange(pos, s.len() as int) == spec_encode_seq(ts).take(s.len() - pos),
    ensures
        match spec_parse_elems(s, pos, ts.len()) {
            ElemsStep::Done(_, ep) => ep >= s.len() || ep == pos + spec_encode_seq(ts).len(),
            ElemsStep::Fail(e, _) => e is Incomplete || e is EndOfBytes,
        },
    decreases ts,
{
    let whole = spec_encode_seq(ts);
    let avail = s.len() - pos;
    assert(ts.len() > 0) by {
        if ts.len() == 0 {
            assert(whole.len() == 0);
        }
    }
    let head = spec_encode(ts[0]);
    let rest = spec_encode_seq(ts.drop_first());
    assert(whole == head + rest);
    assert forall|j: int| 0 <= j < avail implies s[pos + j] == whole[j] by {
        assert(s.subrange(pos, s.len() as int)[j] == s[pos + j]);
        assert(whole.take(avail)[j] == whole[j]);
    }
    lemma_parse_advances(s, pos);
    if avail < head.len() {
        assert(s.subrange(pos, s.len() as int) =~= head.take(avail)) by {
            assert forall|j: int|
                0 <= j < avail implies s.subrange(pos, s.len() as int)[j] == head.take(
                avail,
            )[j] by {
                assert(s[pos + j] == whole[j]);
                assert(whole[j] == head[j]);
            }
        }
        lemma_parse_prefix(s, pos, ts[0]);
        match spec_parse(s, pos) {
            ParseStep::Found(tv, np) => {
                assert(np >= s.len()) by {
                    if np == pos + head.len() {
                        assert(pos + head.len() > s.len());
                    }
                }
                if ts.len() == 1 {
                    assert(spec_parse_elems(s, past(np, pos), 0) == ElemsStep::Done(
                        Seq::<TypeV>::empty(),
                        past(np, pos),
                    ));
                    assert(past(np, pos) == np);
                } else {
                    let cp = past(np, pos);
                    assert(cp >= s.len());
                    assert(spec_parse(s, cp) == ParseStep::Fail(ParseErrV::EndOfBytes, cp));
                    assert((ts.drop_first().len() as int) >= 1);
                    assert(spec_parse_elems(s, cp, (ts.len() - 1) as nat) == ElemsStep::Fail(
                        ParseErrV::EndOfBytes,
                        cp,
                    ));
                }
            },
            ParseStep::Fail(e, ep) => {},
        }
    } else {
        assert(s.subrange(pos, pos + head.len()) =~= head) by {
            assert forall|j: int|
                0 <= j < head.len() implies s.subrange(pos, pos + head.len())[j] == head[j] by {
                assert(s[pos + j] == whole[j]);
                assert(whole[j] == head[j]);
            }
        }
        lemma_parse_serialized(s, pos, ts[0]);
        let np = pos + head.len();
        assert(rest.len() > 0) by {
            assert(avail < whole.len());
        }
        assert(s.len() - np < rest.len());
        assert forall|i: int| 0 <= i < ts.drop_first().len() implies wf_type(
            #[trigger] ts.drop_first()[i],
        ) && no_short_bulk(ts.drop_first()[i]) by {
            assert(ts.drop_first()[i] == ts[i + 1]);
        }
        assert(s.subrange(np, s.len() as int) =~= rest.take(s.len() - np)) by {
            assert forall|j: int|
                0 <= j < s.len() - np implies s.subrange(np, s.len() as int)[j] == rest.take(
                s.len() - np,
            )[j] by {
                assert(s[np + j] == whole[head.len() + j]);
                assert(whole[head.len() + j] == rest[j]);
            }
        }
        lemma_parse_prefix_seq(s, np, ts.drop_first());
        assert(past(np, pos) == np);
        match spec_parse_elems(s, np, (ts.len() - 1) as nat) {
            ElemsStep::Done(_, ep) => {
                assert(ep >= s.len() || ep == np + rest.len());
                assert(np + rest.len() == pos + whole.len());
            },
            ElemsStep::Fail(..) => {},
        }
    }
}

/// Incomplete monotonicity: over the bytes of a well-formed frame followed
/// by anything, if some prefix parses as an incomplete read, every longer
/// prefix parses as an incomplete read or as a fully parsed frame — never
/// as a different error.
pub proof fn lemma_incomplete_monotonic(t: TypeV, rest: Seq<u8>, k1: int, k2: int)
    requires
        wf_type(t),
        no_short_bulk(t),
        0 <= k1 <= k2 <= spec_encode(t).len() + rest.len(),
        (spec_parse((spec_encode(t) + rest).take(k1), 0) matches ParseStep::Fail(e, p) && e
            is Incomplete),
    ensures
        ({
            let r = spec_parse((spec_encode(t) + rest).take(k2), 0);
            r is Found || (r matches ParseStep::Fail(e2, p2) && e2 is Incomplete)
        }),
{
    let enc = spec_encode(t);
    let full = enc + rest;
    let s2 = full.take(k2);
    assert(k1 >= 1) by {
        if k1 == 0 {
            assert(full.take(0).len() == 0);
            assert(spec_parse(full.take(0), 0) == ParseStep::Fail(ParseErrV::EndOfBytes, 0));
        }
    }
    if k2 < enc.len() {
        assert(s2.subrange(0, s2.len() as int) =~= enc.take(k2)) by {
            assert forall|j: int|
                0 <= j < k2 implies s2.subrange(0, s2.len() as int)[j] == enc.take(k2)[j] by {
                assert(s2[j] == full[j]);
                assert(full[j] == enc[j]);
            }
        }
        lemma_parse_prefix(s2, 0, t);
    } else {
        assert(s2.subrange(0, enc.len() as int) =~= enc) by {
            assert forall|j: int|
                0 <= j < enc.len() implies s2.subrange(0, enc.len() as int)[j] == enc[j] by {
                assert(s2[j] == full[j]);
            }
        }
        lemma_parse_serialized(s2, 0, t);
    }
}

/// Codec round trip: parsing the serialized bytes of a well-formed frame
/// yields that frame back and consumes exactly its encoding.
pub proof fn lemma_codec_round_trip(t: TypeV)
    requires
        wf_type(t),
    ensures
        spec_parse(spec_encode(t), 0) == ParseStep::Found(t, spec_encode(t).len() as int),
{
    let s = spec_encode(t);
    assert(s.subrange(0, s.len() as int) =~= s);
    lemma_parse_serialized(s, 0, t);
}

} // verus!
