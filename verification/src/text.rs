//! Byte-level text helpers shared by the codec: decimal rendering and
//! parsing of integers, and the bridge between byte sequences and strings.

use vstd::prelude::*;
use vstd::utf8::{
    decode_utf8, encode_scalar, encode_utf8, is_ascii_chars, valid_utf8,
    encode_utf8_decode_utf8, encode_utf8_valid_utf8, is_ascii_chars_encode_utf8,
};

verus! {

/// Decimal digit value of an ASCII byte, when it has one.
pub open spec fn spec_digit(b: u8) -> Option<int> {
    if 0x30 <= b <= 0x39 {
        Some((b - 0x30) as int)
    } else {
        None
    }
}

/// The ASCII decimal digits of a nonnegative number, most significant first.
pub open spec fn spec_udec(n: nat) -> Seq<u8>
    decreases n,
{
    if n < 10 {
        seq![(n + 0x30) as u8]
    } else {
        spec_udec(n / 10) + seq![((n % 10) + 0x30) as u8]
    }
}

/// The ASCII decimal rendering of an integer: a minus sign for negative
/// numbers, then the digits of its magnitude.
pub open spec fn spec_idec(i: int) -> Seq<u8> {
    if i < 0 {
        seq![0x2du8] + spec_udec((-i) as nat)
    } else {
        spec_udec(i as nat)
    }
}

/// Every byte of `spec_udec` is an ASCII digit.
pub proof fn lemma_udec_digits(n: nat)
    ensures
        spec_udec(n).len() >= 1,
        forall|j: int|
            0 <= j < spec_udec(n).len() ==> 0x30 <= #[trigger] spec_udec(n)[j] <= 0x39,
    decreases n,
{
    if n >= 10 {
        lemma_udec_digits(n / 10);
    }
}

/// Every byte of `spec_idec` is an ASCII digit or the minus sign; in
/// particular none is CR, LF, or outside the ASCII range.
pub proof fn lemma_idec_bytes(i: int)
    ensures
        spec_idec(i).len() >= 1,
        forall|j: int|
            0 <= j < spec_idec(i).len() ==> (0x30 <= #[trigger] spec_idec(i)[j] <= 0x39
                || spec_idec(i)[j] == 0x2d),
{
    if i < 0 {
        lemma_udec_digits((-i) as nat);
    } else {
        lemma_udec_digits(i as nat);
    }
}

/// Appends the decimal digits of `n` to `out`.
pub fn push_udec(n: u64, out: &mut Vec<u8>)
    ensures
        final(out)@ == old(out)@ + spec_udec(n as nat),
    decreases n,
{
    if n < 10 {
        out.push((n as u8) + 0x30);
        assert(out@ =~= old(out)@ + spec_udec(n as nat));
    } else {
        push_udec(n / 10, out);
        out.push(((n % 10) as u8) + 0x30);
        assert(out@ =~= old(out)@ + spec_udec(n as nat));
    }
}

/// Appends the decimal rendering of `i` to `out`.
pub fn push_idec(i: i64, out: &mut Vec<u8>)
    ensures
        final(out)@ == old(out)@ + spec_idec(i as int),
{
    if i < 0 {
        out.push(0x2d);
        let mag: u64 = if i == i64::MIN {
            9223372036854775808u64
        } else {
            (-i) as u64
        };
        assert(mag as nat == (-(i as int)) as nat);
        push_udec(mag, out);
        assert(out@ =~= old(out)@ + spec_idec(i as int));
    } else {
        push_udec(i as u64, out);
    }
}

/// One accumulation step of decimal parsing, checked against the `i64` range.
pub open spec fn spec_atoi_step(acc: Option<int>, d: int, positive: bool) -> Option<int> {
    match acc {
        Some(a) => {
            let v = if positive {
                10 * a + d
            } else {
                10 * a - d
            };
            if i64::MIN <= v <= i64::MAX {
                Some(v)
            } else {
                None
            }
        },
        None => None,
    }
}

/// Folds decimal digits starting at position `i` into an accumulator,
/// stopping at the first byte that is not a digit.
pub open spec fn spec_atoi_loop(s: Seq<u8>, i: int, acc: Option<int>, positive: bool) -> Option<
    int,
>
    decreases (if 0 <= i < s.len() {
        s.len() - i
    } else {
        0
    }),
{
    if i < 0 || i >= s.len() {
        acc
    } else {
        match spec_digit(s[i]) {
            Some(d) => spec_atoi_loop(s, i + 1, spec_atoi_step(acc, d, positive), positive),
            None => acc,
        }
    }
}

/// Reading a decimal integer from the front of a byte sequence: an optional
/// sign, then the longest run of digits, with the empty run and any value
/// outside the `i64` range rejected.
pub open spec fn spec_atoi_i64(s: Seq<u8>) -> Option<int> {
    if s.len() == 0 {
        None
    } else {
        let start: int = if s[0] == 0x2d || s[0] == 0x2b {
            1
        } else {
            0
        };
        let positive = s[0] != 0x2d;
        if start >= s.len() || spec_digit(s[start]) is None {
            None
        } else {
            spec_atoi_loop(s, start, Some(0), positive)
        }
    }
}

/// A failed accumulator never recovers.
pub proof fn lemma_atoi_loop_none(s: Seq<u8>, i: int, positive: bool)
    ensures
        spec_atoi_loop(s, i, None, positive) is None,
    decreases (if 0 <= i < s.len() {
        s.len() - i
    } else {
        0
    }),
{
    if 0 <= i < s.len() {
        if spec_digit(s[i]) is Some {
            lemma_atoi_loop_none(s, i + 1, positive);
        }
    }
}

/// Reads a decimal integer from the front of the given bytes: an optional
/// sign, then the longest run of digits; the empty run and any overflow of
/// the `i64` range give `None`.
pub fn atoi_i64(s: &[u8]) -> (r: Option<i64>)
    ensures
        ({
            let expect = spec_atoi_i64(s@);
            match r {
                Some(x) => expect == Some(x as int),
                None => expect is None,
            }
        }),
{
    let len = s.len();
    if len == 0 {
        return None;
    }
    let first = s[0];
    let positive = first != 0x2d;
    let mut i: usize = if first == 0x2d || first == 0x2b {
        1
    } else {
        0
    };
    if i >= len || !(0x30 <= s[i] && s[i] <= 0x39) {
        return None;
    }
    let ghost start = i as int;
    let mut acc: i64 = 0;
    loop
        invariant
            start <= i as int <= s@.len(),
            len == s@.len(),
            s@.len() >= 1,
            start == (if s@[0] == 0x2d || s@[0] == 0x2b {
                1int
            } else {
                0int
            }),
            spec_digit(s@[start]) is Some,
            positive == (s@[0] != 0x2d),
            positive ==> acc >= 0,
            !positive ==> acc <= 0,
            spec_atoi_loop(s@, start, Some(0), positive) == spec_atoi_loop(
                s@,
                i as int,
                Some(acc as int),
                positive,
            ),
        ensures
            start <= i as int <= s@.len(),
            spec_atoi_loop(s@, start, Some(0), positive) == Some(acc as int),
            spec_digit(s@[start]) is Some,
            start == (if s@[0] == 0x2d || s@[0] == 0x2b {
                1int
            } else {
                0int
            }),
        decreases s@.len() - i as int,
    {
        if i >= len {
            break;
        }
        let b = s[i];
        if !(0x30 <= b && b <= 0x39) {
            break;
        }
        let d = (b - 0x30) as i64;
        let next = if positive {
            match acc.checked_mul(10) {
                Some(m) => m.checked_add(d),
                None => None,
            }
        } else {
            match acc.checked_mul(10) {
                Some(m) => m.checked_sub(d),
                None => None,
            }
        };
        match next {
            Some(v) => {
                assert(spec_atoi_step(Some(acc as int), d as int, positive) == Some(v as int));
                acc = v;
                i = i + 1;
            },
            None => {
                proof {
                    assert(spec_atoi_step(Some(acc as int), d as int, positive) is None);
                    assert(spec_atoi_loop(s@, i as int, Some(acc as int), positive)
                        == spec_atoi_loop(
                        s@,
                        i as int + 1,
                        spec_atoi_step(Some(acc as int), d as int, positive),
                        positive,
                    ));
                    lemma_atoi_loop_none(s@, i as int + 1, positive);
                }
                return None;
            },
        }
    }
    Some(acc)
}

/// The characters with the same code points as the given bytes.
pub open spec fn ascii_chars_of(b: Seq<u8>) -> Seq<char> {
    Seq::new(b.len(), |i: int| b[i] as char)
}

/// Whether every byte is in the ASCII range.
pub open spec fn all_ascii(b: Seq<u8>) -> bool {
    forall|i: int| 0 <= i < b.len() ==> b[i] < 0x80
}

/// A sequence of ASCII bytes is its own UTF-8 encoding: it is valid UTF-8
/// and decodes to the characters with the same code points.
pub proof fn lemma_ascii_bytes(b: Seq<u8>)
    requires
        all_ascii(b),
    ensures
        is_ascii_chars(ascii_chars_of(b)),
        encode_utf8(ascii_chars_of(b)) == b,
        valid_utf8(b),
        decode_utf8(b) == ascii_chars_of(b),
{
    let cs = ascii_chars_of(b);
    assert forall|i: int| 0 <= i < cs.len() implies '\0' <= #[trigger] cs[i] <= '\u{7f}' by {
        assert(b[i] < 0x80);
    }
    is_ascii_chars_encode_utf8(cs);
    assert(encode_utf8(cs) =~= b);
    encode_utf8_valid_utf8(cs);
    encode_utf8_decode_utf8(cs);
}

/// Relies on `String::from_utf8`: it returns the string holding exactly the
/// given bytes when they are valid UTF-8, and fails otherwise.
#[verifier::external_body]
pub fn bytes_to_string(bytes: Vec<u8>) -> (r: Option<String>)
    ensures
        match r {
            Some(s) => encode_utf8(s@) == bytes@,
            None => !valid_utf8(bytes@),
        },
{
    match String::from_utf8(bytes) {
        Ok(s) => Some(s),
        Err(_) => None,
    }
}

/// Builds the string whose characters have the same code points as the
/// given ASCII bytes.
pub fn ascii_to_string(bytes: Vec<u8>) -> (r: String)
    requires
        all_ascii(bytes@),
    ensures
        r@ == ascii_chars_of(bytes@),
        encode_utf8(r@) == bytes@,
{
    proof {
        lemma_ascii_bytes(bytes@);
    }
    let ghost gbytes = bytes@;
    match bytes_to_string(bytes) {
        Some(s) => {
            proof {
                encode_utf8_decode_utf8(s@);
                encode_utf8_decode_utf8(ascii_chars_of(gbytes));
            }
            s
        },
        None => {
            proof {
                lemma_ascii_bytes(gbytes);
            }
            vstd::pervasive::unreached()
        },
    }
}

/// The decimal rendering of an integer as a string.
pub fn i64_to_string(i: i64) -> (r: String)
    ensures
        r@ == ascii_chars_of(spec_idec(i as int)),
{
    let mut out: Vec<u8> = Vec::new();
    push_idec(i, &mut out);
    proof {
        lemma_idec_bytes(i as int);
        assert(all_ascii(out@));
    }
    ascii_to_string(out)
}

/// UTF-8 encoding distributes over concatenation.
pub proof fn lemma_encode_utf8_concat(a: Seq<char>, b: Seq<char>)
    ensures
        encode_utf8(a + b) == encode_utf8(a) + encode_utf8(b),
    decreases a.len(),
{
    if a.len() == 0 {
        assert(a + b =~= b);
        assert(encode_utf8(a) =~= Seq::<u8>::empty());
        assert(encode_utf8(a) + encode_utf8(b) =~= encode_utf8(b));
    } else {
        lemma_encode_utf8_concat(a.drop_first(), b);
        assert((a + b).drop_first() =~= a.drop_first() + b);
        assert((a + b)[0] == a[0]);
        assert(encode_scalar(a[0] as u32) + (encode_utf8(a.drop_first()) + encode_utf8(b))
            =~= (encode_scalar(a[0] as u32) + encode_utf8(a.drop_first())) + encode_utf8(b));
    }
}

/// Whether two text slices hold the same characters, decided byte by byte
/// over their UTF-8 encodings.
pub fn str_eq_exec(a: &str, b: &str) -> (r: bool)
    ensures
        r == (a@ == b@),
{
    let ab = a.as_bytes();
    let bb = b.as_bytes();
    if ab.len() != bb.len() {
        proof {
            if a@ == b@ {
                assert(encode_utf8(a@) == encode_utf8(b@));
            }
        }
        return false;
    }
    let n = ab.len();
    let mut i: usize = 0;
    loop
        invariant
            0 <= i <= n,
            n == ab@.len() == bb@.len(),
            ab@ == encode_utf8(a@),
            bb@ == encode_utf8(b@),
            forall|j: int| 0 <= j < i ==> ab@[j] == bb@[j],
        ensures
            (i == n && forall|j: int| 0 <= j < n ==> ab@[j] == bb@[j]) || (i < n && ab@[i as int]
                != bb@[i as int]),
        decreases n - i,
    {
        if i >= n {
            break;
        }
        if ab[i] != bb[i] {
            break;
        }
        i = i + 1;
    }
    if i == n {
        proof {
            assert(ab@ =~= bb@);
            encode_utf8_decode_utf8(a@);
            encode_utf8_decode_utf8(b@);
        }
        true
    } else {
        proof {
            if a@ == b@ {
                assert(encode_utf8(a@) == encode_utf8(b@));
            }
        }
        false
    }
}

/// Text without carriage returns or line feeds.
pub open spec fn no_crlf(cs: Seq<char>) -> bool {
    forall|i: int| 0 <= i < cs.len() ==> cs[i] != '\r' && cs[i] != '\n'
}

/// The UTF-8 encoding of text without CR or LF contains neither byte 0x0d
/// nor byte 0x0a: a one-byte encoding keeps the character's code point, and
/// every byte of a longer encoding is at least 0x80.
pub proof fn lemma_encode_no_crlf(cs: Seq<char>)
    requires
        no_crlf(cs),
    ensures
        forall|j: int|
            0 <= j < encode_utf8(cs).len() ==> #[trigger] encode_utf8(cs)[j] != 0x0d
                && encode_utf8(cs)[j] != 0x0a,
    decreases cs.len(),
{
    if cs.len() > 0 {
        let c = cs[0] as u32;
        vstd::utf8::char_is_scalar(cs[0]);
        assert(forall|k: int|
            0 <= k < encode_scalar(c).len() ==> #[trigger] encode_scalar(c)[k] != 0x0d
                && encode_scalar(c)[k] != 0x0a) by {
            assert((0xC0u8 | ((c >> 6) & 0x1F) as u8) >= 0x80) by (bit_vector);
            assert((0xE0u8 | ((c >> 12) & 0x0F) as u8) >= 0x80) by (bit_vector);
            assert((0xF0u8 | ((c >> 18) & 0x7) as u8) >= 0x80) by (bit_vector);
            assert((0x80u8 | (c & 0x3F) as u8) >= 0x80) by (bit_vector);
            assert((0x80u8 | ((c >> 6) & 0x3F) as u8) >= 0x80) by (bit_vector);
            assert((0x80u8 | ((c >> 12) & 0x3F) as u8) >= 0x80) by (bit_vector);
            assert(c <= 0x7f ==> ((c & 0x7F) as u8) == c) by (bit_vector);
            assert(cs[0] != '\r' && cs[0] != '\n');
            vstd::utf8::char_u32_cast(cs[0], c);
            assert(c != 0x0d && c != 0x0a) by {
                if c == 0x0d {
                    assert(cs[0] == (0x0du32 as char));
                    assert((0x0du32 as char) == '\r');
                }
                if c == 0x0a {
                    assert(cs[0] == (0x0au32 as char));
                    assert((0x0au32 as char) == '\n');
                }
            }
        }
        lemma_encode_no_crlf(cs.drop_first());
        assert forall|j: int|
            0 <= j < encode_utf8(cs).len() implies #[trigger] encode_utf8(cs)[j] != 0x0d
            && encode_utf8(cs)[j] != 0x0a by {
            assert(encode_utf8(cs) == encode_scalar(c) + encode_utf8(cs.drop_first()));
            if j < encode_scalar(c).len() {
                assert(encode_utf8(cs)[j] == encode_scalar(c)[j]);
            } else {
                assert(encode_utf8(cs)[j] == encode_utf8(cs.drop_first())[j - encode_scalar(
                    c,
                ).len()]);
            }
        }
    }
}

/// Ten to any power is positive.
pub proof fn lemma_pow10_pos(k: nat)
    ensures
        pow10(k) >= 1,
    decreases k,
{
    if k > 0 {
        lemma_pow10_pos((k - 1) as nat);
    }
}

/// Ten to the given power.
pub open spec fn pow10(k: nat) -> nat
    decreases k,
{
    if k == 0 {
        1
    } else {
        10 * pow10((k - 1) as nat)
    }
}

/// Folding the digits of `n`, starting from accumulator `a`, lands on
/// `a * pow10 + n` (or its mirror image under a negative sign), with every
/// intermediate value inside the `i64` range.
pub proof fn lemma_atoi_run(s: Seq<u8>, i: int, a: int, n: nat, positive: bool)
    requires
        0 <= i,
        i + spec_udec(n).len() <= s.len(),
        s.subrange(i, i + spec_udec(n).len()) == spec_udec(n),
        positive ==> 0 <= a && a * pow10(spec_udec(n).len() as nat) + n <= i64::MAX,
        !positive ==> a <= 0 && a * pow10(spec_udec(n).len() as nat) - n >= i64::MIN,
    ensures
        spec_atoi_loop(s, i, Some(a), positive) == spec_atoi_loop(
            s,
            i + spec_udec(n).len(),
            Some(
                if positive {
                    a * pow10(spec_udec(n).len() as nat) + n
                } else {
                    a * pow10(spec_udec(n).len() as nat) - n
                },
            ),
            positive,
        ),
    decreases n,
{
    lemma_udec_digits(n);
    lemma_pow10_pos(spec_udec(n).len() as nat);
    if n < 10 {
        assert(spec_udec(n) == seq![(n + 0x30) as u8]);
        assert(s.subrange(i, i + 1)[0] == s[i]);
        assert(s[i] == (n + 0x30) as u8);
        assert(spec_digit(s[i]) == Some(n as int));
        assert(pow10(0) == 1);
        assert(pow10(1) == 10 * pow10(0));
        let p = pow10(spec_udec(n).len() as nat);
        assert(p == 10);
        assert(a * p == 10 * a) by (nonlinear_arith)
            requires
                p == 10,
        ;
        assert(spec_atoi_step(Some(a), n as int, positive) == Some(
            if positive {
                10 * a + n
            } else {
                10 * a - n
            },
        ));
    } else {
        let head = spec_udec(n / 10);
        let digit = ((n % 10) + 0x30) as u8;
        let k = head.len();
        assert(spec_udec(n) == head + seq![digit]);
        assert(s.subrange(i, i + k) == head) by {
            assert(s.subrange(i, i + k) =~= spec_udec(n).subrange(0, k as int));
            assert(spec_udec(n).subrange(0, k as int) =~= head);
        }
        assert(pow10((k + 1) as nat) == 10 * pow10(k as nat));
        lemma_pow10_pos(k as nat);
        assert(spec_udec(n)[k as int] == digit);
        assert(s[i + k] == s.subrange(i, i + spec_udec(n).len() as int)[k as int]);
        assert(s[i + k] == digit);
        assert(spec_digit(s[i + k]) == Some((n % 10) as int));
        if positive {
            assert(a * pow10((k + 1) as nat) + n == (a * pow10(k as nat) + n / 10) * 10 + n % 10)
                by (nonlinear_arith)
                requires
                    pow10((k + 1) as nat) == 10 * pow10(k as nat),
                    n >= 10,
            ;
            assert(a * pow10(k as nat) + n / 10 >= 0) by (nonlinear_arith)
                requires
                    a >= 0,
                    pow10(k as nat) >= 0,
            ;
            assert(a * pow10(k as nat) + n / 10 <= a * pow10((k + 1) as nat) + n)
                by (nonlinear_arith)
                requires
                    a >= 0,
                    n >= 10,
                    pow10((k + 1) as nat) == 10 * pow10(k as nat),
                    pow10(k as nat) >= 1,
            ;
            lemma_atoi_run(s, i, a, n / 10, positive);
            let mid = a * pow10(k as nat) + n / 10;
            assert(spec_digit(s[i + k]) == Some((n % 10) as int));
            assert(spec_atoi_step(Some(mid), (n % 10) as int, positive) == Some(
                10 * mid + n % 10,
            ));
            assert(10 * mid + n % 10 == a * pow10((k + 1) as nat) + n) by (nonlinear_arith)
                requires
                    mid == a * pow10(k as nat) + n / 10,
                    pow10((k + 1) as nat) == 10 * pow10(k as nat),
                    n >= 0,
            ;
        } else {
            assert(a * pow10((k + 1) as nat) - n == (a * pow10(k as nat) - n / 10) * 10 - n % 10)
                by (nonlinear_arith)
                requires
                    pow10((k + 1) as nat) == 10 * pow10(k as nat),
                    n >= 10,
            ;
            assert(a * pow10(k as nat) - n / 10 <= 0) by (nonlinear_arith)
                requires
                    a <= 0,
                    pow10(k as nat) >= 0,
            ;
            assert(a * pow10(k as nat) - n / 10 >= a * pow10((k + 1) as nat) - n)
                by (nonlinear_arith)
                requires
                    a <= 0,
                    n >= 10,
                    pow10((k + 1) as nat) == 10 * pow10(k as nat),
                    pow10(k as nat) >= 1,
            ;
            lemma_atoi_run(s, i, a, n / 10, positive);
            let mid = a * pow10(k as nat) - n / 10;
            assert(spec_digit(s[i + k]) == Some((n % 10) as int));
            assert(spec_atoi_step(Some(mid), (n % 10) as int, positive) == Some(
                10 * mid - n % 10,
            ));
            assert(10 * mid - n % 10 == a * pow10((k + 1) as nat) - n) by (nonlinear_arith)
                requires
                    mid == a * pow10(k as nat) - n / 10,
                    pow10((k + 1) as nat) == 10 * pow10(k as nat),
                    n >= 0,
            ;
        }
    }
}

/// Reading back the decimal rendering of an `i64` recovers the number.
pub proof fn lemma_atoi_idec(v: int)
    requires
        i64::MIN <= v <= i64::MAX,
    ensures
        spec_atoi_i64(spec_idec(v)) == Some(v),
{
    if v < 0 {
        let mag = (-v) as nat;
        let s = spec_idec(v);
        lemma_udec_digits(mag);
        assert(s == seq![0x2du8] + spec_udec(mag));
        assert(s[0] == 0x2d);
        assert(s.subrange(1, 1 + spec_udec(mag).len() as int) =~= spec_udec(mag));
        assert(0 * pow10(spec_udec(mag).len() as nat) - mag == v);
        lemma_atoi_run(s, 1, 0, mag, false);
        assert(spec_digit(s[1]) is Some);
        assert(spec_atoi_loop(s, 1 + spec_udec(mag).len() as int, Some(v), false) == Some(v));
    } else {
        let s = spec_idec(v);
        lemma_udec_digits(v as nat);
        assert(s == spec_udec(v as nat));
        assert(s.subrange(0, spec_udec(v as nat).len() as int) =~= spec_udec(v as nat));
        assert(s[0] != 0x2d && s[0] != 0x2b);
        assert(0 * pow10(spec_udec(v as nat).len() as nat) + v as nat == v);
        lemma_atoi_run(s, 0, 0, v as nat, true);
        assert(spec_atoi_loop(s, spec_udec(v as nat).len() as int, Some(v), true) == Some(v));
    }
}

} // verus!
