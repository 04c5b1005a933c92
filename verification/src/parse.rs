//! The resumable RESP parser: it reads one frame from a byte buffer and a
//! cursor position, or says why it cannot.

use vstd::prelude::*;
use vstd::utf8::{decode_utf8, valid_utf8, encode_utf8_valid_utf8, encode_utf8_decode_utf8};

use crate::resp::{Type, TypeV};
use crate::text::{bytes_to_string, spec_atoi_i64, atoi_i64};

verus! {

/// The ways reading a frame can fail.
#[derive(Debug)]
pub enum ParseError {
    /// The buffer ends before the frame does: read more bytes and retry.
    Incomplete,
    /// The first byte of a frame is none of `+ - : $ *`.
    InvalidMarker(u8),
    /// Bytes are present but malformed: text that is not UTF-8, or letters
    /// where a number is required.
    InvalidEncoding(String),
    /// The cursor held no byte at all.
    EndOfBytes,
    /// A bulk string declared a length below `-1`.
    InvalidByteLength(i64),
}

/// The mathematical value of a parse error.
#[verifier::ext_equal]
pub ghost enum ParseErrV {
    Incomplete,
    InvalidMarker(u8),
    InvalidEncoding(Seq<char>),
    EndOfBytes,
    InvalidByteLength(int),
}

impl View for ParseError {
    type V = ParseErrV;

    open spec fn view(&self) -> ParseErrV {
        match self {
            ParseError::Incomplete => ParseErrV::Incomplete,
            ParseError::InvalidMarker(b) => ParseErrV::InvalidMarker(*b),
            ParseError::InvalidEncoding(m) => ParseErrV::InvalidEncoding(m@),
            ParseError::EndOfBytes => ParseErrV::EndOfBytes,
            ParseError::InvalidByteLength(n) => ParseErrV::InvalidByteLength(*n as int),
        }
    }
}

/// Whether two parse errors are of the same kind, payloads aside.
pub open spec fn same_error_kind(a: ParseErrV, b: ParseErrV) -> bool {
    match (a, b) {
        (ParseErrV::Incomplete, ParseErrV::Incomplete) => true,
        (ParseErrV::InvalidMarker(_), ParseErrV::InvalidMarker(_)) => true,
        (ParseErrV::InvalidEncoding(_), ParseErrV::InvalidEncoding(_)) => true,
        (ParseErrV::EndOfBytes, ParseErrV::EndOfBytes) => true,
        (ParseErrV::InvalidByteLength(_), ParseErrV::InvalidByteLength(_)) => true,
        _ => false,
    }
}

impl PartialEq for ParseError {
    /// Two parse errors are equal when they are of the same kind; the
    /// payloads carry detail for reporting only.
    fn eq(&self, other: &ParseError) -> (r: bool) {
        match (self, other) {
            (ParseError::Incomplete, ParseError::Incomplete) => true,
            (ParseError::InvalidMarker(_), ParseError::InvalidMarker(_)) => true,
            (ParseError::InvalidEncoding(_), ParseError::InvalidEncoding(_)) => true,
            (ParseError::EndOfBytes, ParseError::EndOfBytes) => true,
            (ParseError::InvalidByteLength(_), ParseError::InvalidByteLength(_)) => true,
            _ => false,
        }
    }
}

impl vstd::std_specs::cmp::PartialEqSpecImpl for ParseError {
    open spec fn obeys_eq_spec() -> bool {
        true
    }

    open spec fn eq_spec(&self, other: &ParseError) -> bool {
        same_error_kind(self@, other@)
    }
}

/// The position of the first CRLF pair at or after `from`, if the scan up to
/// the end of the buffer finds one.
pub open spec fn spec_find_crlf(s: Seq<u8>, from: int) -> Option<int>
    decreases (if from < s.len() {
        s.len() - from
    } else {
        0
    }),
{
    if from < 0 || from + 1 >= s.len() {
        None
    } else if s[from] == 0x0d && s[from + 1] == 0x0a {
        Some(from)
    } else {
        spec_find_crlf(s, from + 1)
    }
}

/// What `spec_find_crlf` returns: the first CRLF pair, or the absence of any.
pub proof fn lemma_find_crlf(s: Seq<u8>, from: int)
    requires
        0 <= from,
    ensures
        match spec_find_crlf(s, from) {
            Some(i) => from <= i && i + 1 < s.len() && s[i] == 0x0d && s[i + 1] == 0x0a
                && forall|j: int| from <= j < i ==> !(#[trigger] s[j] == 0x0d && s[j + 1] == 0x0a),
            None => forall|j: int|
                from <= j && j + 1 < s.len() ==> !(#[trigger] s[j] == 0x0d && s[j + 1] == 0x0a),
        },
    decreases (if from < s.len() {
        s.len() - from
    } else {
        0
    }),
{
    if from + 1 >= s.len() {
    } else if s[from] == 0x0d && s[from + 1] == 0x0a {
    } else {
        lemma_find_crlf(s, from + 1);
    }
}

/// A line read: the bytes before the first CRLF, and the position after it.
pub open spec fn spec_get_line(s: Seq<u8>, pos: int) -> Option<(Seq<u8>, int)> {
    match spec_find_crlf(s, pos) {
        Some(i) => Some((s.subrange(pos, i), i + 2)),
        None => None,
    }
}

/// Reads the bytes up to the next CRLF and moves the cursor past it; with no
/// CRLF before the end of the buffer the cursor stays and the read is
/// incomplete.
pub fn get_line(bytes: &[u8], pos: &mut usize) -> (r: Result<Vec<u8>, ParseError>)
    requires
        *old(pos) <= bytes@.len(),
        bytes@.len() + 2 <= usize::MAX,
    ensures
        match spec_get_line(bytes@, *old(pos) as int) {
            Some((line, np)) => r matches Ok(l) && l@ == line && *final(pos) == np && np
                <= bytes@.len(),
            None => r matches Err(e) && e@ == ParseErrV::Incomplete && *final(pos) == *old(pos),
        },
{
    let len = bytes.len();
    let start = *pos;
    let mut i = start;
    loop
        invariant
            start <= i <= bytes@.len(),
            len == bytes@.len(),
            bytes@.len() + 2 <= usize::MAX,
            forall|j: int| start <= j < i ==> !(#[trigger] bytes@[j] == 0x0d && bytes@[j + 1] == 0x0a),
        ensures
            (i as int + 1 < bytes@.len() && bytes@[i as int] == 0x0d && bytes@[i as int + 1]
                == 0x0a && forall|j: int|
                start <= j < i ==> !(#[trigger] bytes@[j] == 0x0d && bytes@[j + 1] == 0x0a)) || (i as int + 1
                >= bytes@.len() && forall|j: int|
                start <= j && j + 1 < bytes@.len() ==> !(#[trigger] bytes@[j] == 0x0d && bytes@[j + 1]
                    == 0x0a)),
        decreases bytes@.len() - i as int,
    {
        if i + 1 >= len {
            proof {
                assert forall|j: int|
                    start <= j && j + 1 < bytes@.len() implies !(#[trigger] bytes@[j] == 0x0d && bytes@[j
                    + 1] == 0x0a) by {
                    assert(start <= j < i);
                }
            }
            break;
        }
        if bytes[i] == 0x0d && bytes[i + 1] == 0x0a {
            break;
        }
        i = i + 1;
    }
    proof {
        lemma_find_crlf(bytes@, start as int);
    }
    if i + 1 < len {
        let line = vstd::slice::slice_to_vec(vstd::slice::slice_subrange(bytes, start, i));
        *pos = i + 2;
        assert(spec_find_crlf(bytes@, start as int) == Some(i as int));
        Ok(line)
    } else {
        assert(spec_find_crlf(bytes@, start as int) is None);
        Err(ParseError::Incomplete)
    }
}

/// A counted read: the next `n` bytes, with the cursor moved past them and a
/// trailing CRLF whenever at least two bytes stand after the payload start.
pub open spec fn spec_get_bytes(s: Seq<u8>, pos: int, n: int) -> Option<(Seq<u8>, int)> {
    let remaining = s.len() - pos;
    if remaining < n {
        None
    } else {
        let np = if remaining >= 2 {
            pos + n + 2
        } else {
            pos
        };
        Some((s.subrange(pos, pos + n), np))
    }
}

/// Reads `count` bytes at the cursor; mirrors `spec_get_bytes`, reporting an
/// incomplete read when fewer than `count` bytes remain.
pub fn get_bytes(bytes: &[u8], pos: &mut usize, count: usize) -> (r: Result<Vec<u8>, ParseError>)
    requires
        *old(pos) <= bytes@.len(),
        bytes@.len() + 2 <= usize::MAX,
    ensures
        match spec_get_bytes(bytes@, *old(pos) as int, count as int) {
            Some((payload, np)) => r matches Ok(p) && p@ == payload && *final(pos) == np,
            None => r matches Err(e) && e@ == ParseErrV::Incomplete && *final(pos) == *old(pos),
        },
{
    let len = bytes.len();
    let start = *pos;
    if len - start < count {
        Err(ParseError::Incomplete)
    } else {
        let payload = vstd::slice::slice_to_vec(
            vstd::slice::slice_subrange(bytes, start, start + count),
        );
        if len - start >= 2 {
            *pos = start + count + 2;
        }
        Ok(payload)
    }
}

/// Turns line bytes into a simple-string frame; text that is not UTF-8 is an
/// encoding error.
pub fn parse_string(bytes: Vec<u8>) -> (r: Result<Type, ParseError>)
    ensures
        valid_utf8(bytes@) ==> (r matches Ok(t) && t@ == TypeV::SimpleString(
            decode_utf8(bytes@),
        )),
        !valid_utf8(bytes@) ==> (r matches Err(e) && e@ == ParseErrV::InvalidEncoding(
            "text must be valid utf-8"@,
        )),
{
    let ghost gbytes = bytes@;
    match bytes_to_string(bytes) {
        Some(s) => {
            proof {
                encode_utf8_valid_utf8(s@);
                encode_utf8_decode_utf8(s@);
            }
            Ok(Type::SimpleString(s))
        },
        None => Err(ParseError::InvalidEncoding("text must be valid utf-8".to_owned())),
    }
}

/// Turns line bytes into an error frame; text that is not UTF-8 is an
/// encoding error.
pub fn parse_error(bytes: Vec<u8>) -> (r: Result<Type, ParseError>)
    ensures
        valid_utf8(bytes@) ==> (r matches Ok(t) && t@ == TypeV::Error(decode_utf8(bytes@))),
        !valid_utf8(bytes@) ==> (r matches Err(e) && e@ == ParseErrV::InvalidEncoding(
            "text must be valid utf-8"@,
        )),
{
    let ghost gbytes = bytes@;
    match bytes_to_string(bytes) {
        Some(s) => {
            proof {
                encode_utf8_valid_utf8(s@);
                encode_utf8_decode_utf8(s@);
            }
            Ok(Type::Error(s))
        },
        None => Err(ParseError::InvalidEncoding("text must be valid utf-8".to_owned())),
    }
}

/// Turns line bytes into an integer frame by decimal reading.
pub fn parse_integer(bytes: Vec<u8>) -> (r: Result<Type, ParseError>)
    ensures
        match spec_atoi_i64(bytes@) {
            Some(v) => r matches Ok(t) && t@ == TypeV::Integer(v),
            None => r matches Err(e) && e@ == ParseErrV::InvalidEncoding("expected an integer"@),
        },
{
    match atoi_i64(bytes.as_slice()) {
        Some(v) => Ok(Type::Integer(v)),
        None => Err(ParseError::InvalidEncoding("expected an integer".to_owned())),
    }
}

/// Wraps payload bytes as a bulk-string frame.
pub fn parse_bulk_string(bytes: Vec<u8>) -> (r: Result<Type, ParseError>)
    ensures
        r matches Ok(t) && t@ == TypeV::BulkString(bytes@),
{
    Ok(Type::BulkString(bytes))
}

/// Wraps parsed elements as an array frame.
pub fn parse_array(types: Vec<Type>) -> (r: Result<Type, ParseError>)
    ensures
        r matches Ok(t) && t@ == TypeV::Array(crate::resp::views_of(types@)),
{
    Ok(Type::Array(types))
}

/// How many bytes stand between the cursor and the end of the buffer.
pub open spec fn rem(s: Seq<u8>, pos: int) -> int {
    if pos < 0 {
        s.len() as int
    } else if pos < s.len() {
        s.len() - pos
    } else {
        0
    }
}

/// The outcome of reading one frame: the frame and the cursor after it, or
/// an error and the cursor where reading stopped.
#[verifier::ext_equal]
pub ghost enum ParseStep {
    Found(TypeV, int),
    Fail(ParseErrV, int),
}

/// The outcome of reading a run of array elements.
#[verifier::ext_equal]
pub ghost enum ElemsStep {
    Done(Seq<TypeV>, int),
    Fail(ParseErrV, int),
}

/// A strictly advanced cursor; reading a frame always advances the cursor,
/// so this is the identity wherever it is applied.
pub open spec fn past(np: int, pos: int) -> int {
    if np > pos {
        np
    } else {
        pos + 1
    }
}

/// How an element's error propagates out of an array: an incomplete element
/// and a missing element both mean the array is incomplete.
pub open spec fn collapse(e: ParseErrV) -> ParseErrV {
    match e {
        ParseErrV::Incomplete => ParseErrV::Incomplete,
        ParseErrV::EndOfBytes => ParseErrV::Incomplete,
        _ => e,
    }
}

/// Reading one frame at `pos`: the marker byte picks the rule, a missing
/// CRLF is an incomplete read, and each rule mirrors its reader's movement
/// of the cursor.
pub open spec fn spec_parse(s: Seq<u8>, pos: int) -> ParseStep
    decreases rem(s, pos), 0int, 0nat,
{
    if pos < 0 || pos >= s.len() {
        ParseStep::Fail(ParseErrV::EndOfBytes, pos)
    } else {
        let marker = s[pos];
        let p1 = pos + 1;
        if marker == 0x2b {
            match spec_get_line(s, p1) {
                Some((line, np)) => if valid_utf8(line) {
                    ParseStep::Found(TypeV::SimpleString(decode_utf8(line)), np)
                } else {
                    ParseStep::Fail(ParseErrV::InvalidEncoding("text must be valid utf-8"@), np)
                },
                None => ParseStep::Fail(ParseErrV::Incomplete, p1),
            }
        } else if marker == 0x2d {
            match spec_get_line(s, p1) {
                Some((line, np)) => if valid_utf8(line) {
                    ParseStep::Found(TypeV::Error(decode_utf8(line)), np)
                } else {
                    ParseStep::Fail(ParseErrV::InvalidEncoding("text must be valid utf-8"@), np)
                },
                None => ParseStep::Fail(ParseErrV::Incomplete, p1),
            }
        } else if marker == 0x3a {
            match spec_get_line(s, p1) {
                Some((line, np)) => match spec_atoi_i64(line) {
                    Some(v) => ParseStep::Found(TypeV::Integer(v), np),
                    None => ParseStep::Fail(
                        ParseErrV::InvalidEncoding("expected an integer"@),
                        np,
                    ),
                },
                None => ParseStep::Fail(ParseErrV::Incomplete, p1),
            }
        } else if marker == 0x24 {
            match spec_get_line(s, p1) {
                Some((line, np)) => match spec_atoi_i64(line) {
                    Some(n) => if n == -1 {
                        ParseStep::Found(TypeV::Null, np)
                    } else if n < -1 {
                        ParseStep::Fail(ParseErrV::InvalidByteLength(n), np)
                    } else {
                        match spec_get_bytes(s, np, n) {
                            Some((payload, np2)) => ParseStep::Found(
                                TypeV::BulkString(payload),
                                np2,
                            ),
                            None => ParseStep::Fail(ParseErrV::Incomplete, np),
                        }
                    },
                    None => ParseStep::Fail(
                        ParseErrV::InvalidEncoding("bulk string length must be a number"@),
                        np,
                    ),
                },
                None => ParseStep::Fail(ParseErrV::Incomplete, p1),
            }
        } else if marker == 0x2a {
            match spec_get_line(s, p1) {
                Some((line, np)) => match spec_atoi_i64(line) {
                    Some(m) => if m <= 0 {
                        ParseStep::Found(TypeV::Array(Seq::empty()), np)
                    } else {
                        match spec_parse_elems(s, past(np, pos), m as nat) {
                            ElemsStep::Done(elems, ep) => ParseStep::Found(
                                TypeV::Array(elems),
                                ep,
                            ),
                            ElemsStep::Fail(e, ep) => ParseStep::Fail(collapse(e), ep),
                        }
                    },
                    None => ParseStep::Fail(
                        ParseErrV::InvalidEncoding("array length must be a number"@),
                        np,
                    ),
                },
                None => ParseStep::Fail(ParseErrV::Incomplete, p1),
            }
        } else {
            ParseStep::Fail(ParseErrV::InvalidMarker(marker), p1)
        }
    }
}

/// Reading `m` frames in a row, each where the one before it stopped.
pub open spec fn spec_parse_elems(s: Seq<u8>, pos: int, m: nat) -> ElemsStep
    decreases rem(s, pos), 1int, m,
{
    if m == 0 {
        ElemsStep::Done(Seq::empty(), pos)
    } else {
        match spec_parse(s, pos) {
            ParseStep::Found(tv, np) => match spec_parse_elems(
                s,
                past(np, pos),
                (m - 1) as nat,
            ) {
                ElemsStep::Done(elems, ep) => ElemsStep::Done(seq![tv] + elems, ep),
                ElemsStep::Fail(e, ep) => ElemsStep::Fail(e, ep),
            },
            ParseStep::Fail(e, ep) => ElemsStep::Fail(e, ep),
        }
    }
}

/// Reading a frame moves the cursor forward: past the whole frame on
/// success, and never backward on failure.
pub proof fn lemma_parse_advances(s: Seq<u8>, pos: int)
    requires
        0 <= pos,
    ensures
        match spec_parse(s, pos) {
            ParseStep::Found(_, np) => pos + 3 <= np,
            ParseStep::Fail(_, np) => pos <= np,
        },
    decreases rem(s, pos), 0int, 0nat,
{
    if rem(s, pos) >= 1 {
        let p1 = pos + 1;
        lemma_find_crlf(s, p1);
        let marker = s[pos];
        if marker == 0x2a {
            match spec_get_line(s, p1) {
                Some((line, np)) => match spec_atoi_i64(line) {
                    Some(m) => if m > 0 {
                        lemma_elems_advance(s, past(np, pos), m as nat);
                    },
                    None => {},
                },
                None => {},
            }
        }
    }
}

/// Reading a run of frames never moves the cursor backward.
pub proof fn lemma_elems_advance(s: Seq<u8>, pos: int, m: nat)
    requires
        0 <= pos,
    ensures
        match spec_parse_elems(s, pos, m) {
            ElemsStep::Done(_, ep) => pos <= ep,
            ElemsStep::Fail(_, ep) => pos <= ep,
        },
    decreases rem(s, pos), 1int, m,
{
    if m > 0 {
        lemma_parse_advances(s, pos);
        match spec_parse(s, pos) {
            ParseStep::Found(tv, np) => {
                lemma_elems_advance(s, past(np, pos), (m - 1) as nat);
            },
            ParseStep::Fail(..) => {},
        }
    }
}

/// The stateless frame reader.
#[derive(Debug)]
pub struct Parse {}

impl Parse {
    /// Makes a frame reader.
    pub fn new() -> (r: Self) {
        Parse {  }
    }

    /// Reads one frame at the cursor, or says why it cannot: see
    /// [`ParseError`] for how each error is to be handled.
    pub fn parse_next(&self, bytes: &[u8], pos: &mut usize) -> (r: Result<Type, ParseError>)
        requires
            bytes@.len() + 2 <= usize::MAX,
            *old(pos) <= bytes@.len() + 2,
        ensures
            match r {
                Ok(t) => spec_parse(bytes@, *old(pos) as int) == ParseStep::Found(
                    t@,
                    *final(pos) as int,
                ),
                Err(e) => spec_parse(bytes@, *old(pos) as int) == ParseStep::Fail(
                    e@,
                    *final(pos) as int,
                ),
            },
            *final(pos) <= bytes@.len() + 2,
        decreases rem(bytes@, *old(pos) as int), 0int,
    {
        let len = bytes.len();
        let start = *pos;
        if start >= len {
            return Err(ParseError::EndOfBytes);
        }
        let marker = bytes[start];
        *pos = start + 1;
        proof {
            lemma_find_crlf(bytes@, start as int + 1);
        }
        match marker {
            0x2b => {
                match get_line(bytes, pos) {
                    Ok(line) => parse_string(line),
                    Err(e) => Err(e),
                }
            },
            0x2d => {
                match get_line(bytes, pos) {
                    Ok(line) => parse_error(line),
                    Err(e) => Err(e),
                }
            },
            0x3a => {
                match get_line(bytes, pos) {
                    Ok(line) => parse_integer(line),
                    Err(e) => Err(e),
                }
            },
            0x24 => {
                match get_line(bytes, pos) {
                    Ok(line) => {
                        match atoi_i64(line.as_slice()) {
                            Some(n) => {
                                if n == -1 {
                                    Ok(Type::Null)
                                } else if n < -1 {
                                    Err(ParseError::InvalidByteLength(n))
                                } else {
                                    let remaining = len - *pos;
                                    if (n as u64) > (remaining as u64) {
                                        assert(spec_get_bytes(bytes@, *pos as int, n as int)
                                            is None);
                                        Err(ParseError::Incomplete)
                                    } else {
                                        match get_bytes(bytes, pos, n as usize) {
                                            Ok(payload) => parse_bulk_string(payload),
                                            Err(e) => Err(e),
                                        }
                                    }
                                }
                            },
                            None => Err(
                                ParseError::InvalidEncoding(
                                    "bulk string length must be a number".to_owned(),
                                ),
                            ),
                        }
                    },
                    Err(e) => Err(e),
                }
            },
            0x2a => {
                match get_line(bytes, pos) {
                    Ok(line) => {
                        match atoi_i64(line.as_slice()) {
                            Some(m) => {
                                if m <= 0 {
                                    let elems: Vec<Type> = Vec::new();
                                    proof {
                                        assert(crate::resp::views_of(elems@)
                                            =~= Seq::<TypeV>::empty());
                                    }
                                    parse_array(elems)
                                } else {
                                    self.parse_elements(bytes, pos, m as u64, Ghost(start as int))
                                }
                            },
                            None => Err(
                                ParseError::InvalidEncoding(
                                    "array length must be a number".to_owned(),
                                ),
                            ),
                        }
                    },
                    Err(e) => Err(e),
                }
            },
            _ => Err(ParseError::InvalidMarker(marker)),
        }
    }

    /// Reads `m` frames in a row for an array whose count line ended at the
    /// cursor; an element that is incomplete or missing makes the whole
    /// array incomplete.
    fn parse_elements(&self, bytes: &[u8], pos: &mut usize, m: u64, start: Ghost<int>) -> (r:
        Result<Type, ParseError>)
        requires
            bytes@.len() + 2 <= usize::MAX,
            0 <= start@ < *old(pos),
            *old(pos) <= bytes@.len(),
            m >= 1,
        ensures
            match r {
                Ok(t) => t@ is Array && spec_parse_elems(bytes@, *old(pos) as int, m as nat)
                    == ElemsStep::Done(t@->Array_0, *final(pos) as int),
                Err(e) => (spec_parse_elems(bytes@, *old(pos) as int, m as nat) matches
                    ElemsStep::Fail(e0, ep) && e@ == collapse(e0) && *final(pos) as int == ep),
            },
            *final(pos) <= bytes@.len() + 2,
        decreases rem(bytes@, *old(pos) as int), 1int,
    {
        let ghost p0 = *old(pos) as int;
        let mut elems: Vec<Type> = Vec::new();
        let mut k: u64 = 0;
        proof {
            assert(crate::resp::views_of(elems@) =~= Seq::<TypeV>::empty());
        }
        loop
            invariant
                k <= m,
                bytes@.len() + 2 <= usize::MAX,
                p0 == *old(pos) as int,
                0 <= p0 <= *pos as int,
                *pos as int <= bytes@.len() + 2,
                k > 0 ==> p0 < *pos as int,
                elems@.len() == k as int,
                ({
                    let tail = spec_parse_elems(bytes@, *pos as int, (m - k) as nat);
                    let whole = spec_parse_elems(bytes@, p0, m as nat);
                    match tail {
                        ElemsStep::Done(rest, ep) => whole == ElemsStep::Done(
                            crate::resp::views_of(elems@) + rest,
                            ep,
                        ),
                        ElemsStep::Fail(e, ep) => whole == ElemsStep::Fail(e, ep),
                    }
                }),
            ensures
                k == m,
                elems@.len() == m as int,
                spec_parse_elems(bytes@, p0, m as nat) == ElemsStep::Done(
                    crate::resp::views_of(elems@),
                    *pos as int,
                ),
            decreases m - k,
        {
            if k >= m {
                proof {
                    assert(spec_parse_elems(bytes@, *pos as int, 0) == ElemsStep::Done(
                        Seq::<TypeV>::empty(),
                        *pos as int,
                    ));
                    assert(crate::resp::views_of(elems@) + Seq::<TypeV>::empty()
                        =~= crate::resp::views_of(elems@));
                }
                break;
            }
            let ghost cur = *pos as int;
            proof {
                lemma_parse_advances(bytes@, cur);
            }
            match self.parse_next(bytes, pos) {
                Ok(t) => {
                    proof {
                        crate::resp::lemma_views_of(elems@);
                        crate::resp::lemma_views_of(elems@.push(t));
                        assert(crate::resp::views_of(elems@.push(t)) =~= crate::resp::views_of(
                            elems@,
                        ) + seq![t@]);
                        lemma_elems_advance(bytes@, *pos as int, (m - k - 1) as nat);
                        let tail2 = spec_parse_elems(bytes@, *pos as int, (m - k - 1) as nat);
                        assert(spec_parse_elems(bytes@, cur, (m - k) as nat) == match tail2 {
                            ElemsStep::Done(rest2, ep2) => ElemsStep::Done(
                                seq![t@] + rest2,
                                ep2,
                            ),
                            ElemsStep::Fail(e2, ep2) => ElemsStep::Fail(e2, ep2),
                        });
                        if tail2 is Done {
                            assert((crate::resp::views_of(elems@) + (seq![t@]
                                + tail2->Done_0)) =~= (crate::resp::views_of(elems@) + seq![
                                t@,
                            ]) + tail2->Done_0);
                        }
                    }
                    elems.push(t);
                    k = k + 1;
                },
                Err(e) => {
                    proof {
                        assert(spec_parse_elems(bytes@, cur, (m - k) as nat) == ElemsStep::Fail(
                            e@,
                            *pos as int,
                        ));
                    }
                    let mapped = match e {
                        ParseError::Incomplete => ParseError::Incomplete,
                        ParseError::EndOfBytes => ParseError::Incomplete,
                        other => other,
                    };
                    return Err(mapped);
                },
            }
        }
        Ok(Type::Array(elems))
    }
}

} // verus!
