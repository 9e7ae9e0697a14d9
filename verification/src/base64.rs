//! Base64, the standard alphabet with padding.

use vstd::prelude::*;

use crate::dates;
use crate::text;

verus! {

/// The character of a six-bit value.
pub open spec fn symbol(v: int) -> char {
    if v < 26 {
        (('A' as int) + v) as char
    } else if v < 52 {
        (('a' as int) + v - 26) as char
    } else if v < 62 {
        (('0' as int) + v - 52) as char
    } else if v == 62 {
        '+'
    } else {
        '/'
    }
}

/// The six-bit value of a byte. Padding counts as zero; other bytes have none.
pub open spec fn sextet(b: u8) -> Option<int> {
    if 65 <= b <= 90 {
        Some(b - 65)
    } else if 97 <= b <= 122 {
        Some(b - 97 + 26)
    } else if 48 <= b <= 57 {
        Some(b - 48 + 52)
    } else if b == 43 {
        Some(62)
    } else if b == 47 {
        Some(63)
    } else if b == 61 {
        Some(0)
    } else {
        None
    }
}

/// What is wrong with a Base64 text.
#[derive(Clone, Copy, Debug, PartialEq, Eq, Structural)]
pub enum Base64Error {
    /// The number of bytes, which is not a multiple of four.
    Length(usize),
    /// A byte outside the alphabet.
    Character(u8),
}

/// A character between single quotes, with the escapes of a Rust character literal.
pub uninterp spec fn quoted_char(c: char) -> Seq<char>;

/// Calls the `Debug` formatting of a `char`: the character between single quotes, escaped. It depends
/// on the character alone.
#[verifier::external_body]
fn quote_char(c: char) -> (r: String)
    ensures
        r@ == quoted_char(c),
{
    format!("{:?}", c)
}

/// The message of an error, as the tools tell it.
pub open spec fn error_message(e: Base64Error) -> Seq<char> {
    match e {
        Base64Error::Length(n) => "length "@ + dates::decimal_spec(n as nat)
            + " not a multiple of 4"@,
        Base64Error::Character(b) => "invalid character: "@ + quoted_char(b as char),
    }
}

/// The message of an error, as the webhook tells it.
pub open spec fn webhook_error_message(e: Base64Error) -> Seq<char> {
    match e {
        Base64Error::Length(n) => "base64 length "@ + dates::decimal_spec(n as nat)
            + " not a multiple of 4"@,
        Base64Error::Character(b) => "invalid base64 character: "@ + quoted_char(b as char),
    }
}

impl Base64Error {
    /// The message of the error, as the tools tell it.
    pub fn message(&self) -> (r: String)
        ensures
            r@ == error_message(*self),
    {
        match self {
            Base64Error::Length(n) => {
                let a = text::concat("length ", dates::decimal(*n as u64).as_str());
                text::concat(a.as_str(), " not a multiple of 4")
            },
            Base64Error::Character(b) => {
                let q = quote_char(*b as char);
                text::concat("invalid character: ", q.as_str())
            },
        }
    }

    /// The message of the error, as the webhook tells it.
    pub fn webhook_message(&self) -> (r: String)
        ensures
            r@ == webhook_error_message(*self),
    {
        match self {
            Base64Error::Length(n) => {
                let a = text::concat("base64 length ", dates::decimal(*n as u64).as_str());
                text::concat(a.as_str(), " not a multiple of 4")
            },
            Base64Error::Character(b) => {
                let q = quote_char(*b as char);
                text::concat("invalid base64 character: ", q.as_str())
            },
        }
    }
}

/// The bytes that four Base64 bytes stand for. Padding in the third or fourth place drops a byte.
pub open spec fn quad_bytes(a: u8, b: u8, c: u8, d: u8) -> Seq<u8> {
    let v0 = sextet(a)->0;
    let v1 = sextet(b)->0;
    let v2 = sextet(c)->0;
    let v3 = sextet(d)->0;
    let first = seq![(v0 * 4 + v1 / 16) as u8];
    let second = if c != 61 {
        seq![((v1 % 16) * 16 + v2 / 4) as u8]
    } else {
        Seq::empty()
    };
    let third = if d != 61 {
        seq![((v2 % 4) * 64 + v3) as u8]
    } else {
        Seq::empty()
    };
    first + second + third
}

/// The position of the first byte outside the alphabet, from `i` on.
pub open spec fn first_invalid(s: Seq<u8>, i: int) -> Option<int>
    decreases s.len() - i,
{
    if i < 0 || i >= s.len() {
        None
    } else if sextet(s[i]) is None {
        Some(i)
    } else {
        first_invalid(s, i + 1)
    }
}

/// The bytes that Base64 bytes stand for, from position `i` on, four at a time.
pub open spec fn decode_from(s: Seq<u8>, i: int) -> Seq<u8>
    decreases s.len() - i,
{
    if i < 0 || i + 4 > s.len() {
        Seq::empty()
    } else {
        quad_bytes(s[i], s[i + 1], s[i + 2], s[i + 3]) + decode_from(s, i + 4)
    }
}

/// The bytes that a Base64 byte string stands for, or what is wrong with it.
pub open spec fn decode_bytes_spec(s: Seq<u8>) -> Result<Seq<u8>, Base64Error> {
    if s.len() % 4 != 0 {
        Err(Base64Error::Length(s.len() as usize))
    } else {
        match first_invalid(s, 0) {
            Some(i) => Err(Base64Error::Character(s[i])),
            None => Ok(decode_from(s, 0)),
        }
    }
}

/// The bytes that a Base64 text stands for. White space around it does not count.
pub open spec fn decode_spec(t: Seq<char>) -> Result<Seq<u8>, Base64Error> {
    decode_bytes_spec(vstd::utf8::encode_utf8(text::trim_spec(t)))
}

/// The result of decoding, with bytes taken as a sequence.
pub open spec fn decoded(r: Result<Vec<u8>, Base64Error>) -> Result<Seq<u8>, Base64Error> {
    match r {
        Ok(v) => Ok(v@),
        Err(e) => Err(e),
    }
}

/// The six-bit value of a byte.
fn sextet_of(b: u8) -> (r: Option<u8>)
    ensures
        match r {
            Some(v) => sextet(b) == Some(v as int) && v < 64,
            None => sextet(b) is None,
        },
{
    if 65 <= b && b <= 90 {
        Some(b - 65)
    } else if 97 <= b && b <= 122 {
        Some(b - 97 + 26)
    } else if 48 <= b && b <= 57 {
        Some(b - 48 + 52)
    } else if b == 43 {
        Some(62)
    } else if b == 47 {
        Some(63)
    } else if b == 61 {
        Some(0)
    } else {
        None
    }
}

/// Decode a Base64 text.
pub fn base64_decode(s: &str) -> (r: Result<Vec<u8>, Base64Error>)
    ensures
        decoded(r) == decode_spec(s@),
{
    let trimmed = text::trim_str(s);
    let bytes = trimmed.as_str().as_bytes();
    let ghost b = bytes@;
    assert(b == vstd::utf8::encode_utf8(text::trim_spec(s@)));
    let n: usize = bytes.len();
    if n % 4 != 0 {
        return Err(Base64Error::Length(n));
    }
    let mut values: Vec<u8> = Vec::new();
    let mut k: usize = 0;
    while k < n
        invariant
            k <= n,
            n == b.len(),
            n % 4 == 0,
            b == bytes@,
            b == vstd::utf8::encode_utf8(text::trim_spec(s@)),
            values@.len() == k,
            forall|j: int| 0 <= j < k ==> sextet(b[j]) == Some(#[trigger] values@[j] as int),
            forall|j: int| 0 <= j < k ==> #[trigger] values@[j] < 64,
            first_invalid(b, 0) == first_invalid(b, k as int),
        decreases n - k,
    {
        match sextet_of(bytes[k]) {
            Some(v) => {
                values.push(v);
            },
            None => {
                return Err(Base64Error::Character(bytes[k]));
            },
        }
        k += 1;
    }
    let mut out: Vec<u8> = Vec::new();
    let mut i: usize = 0;
    proof {
        assert(out@ + decode_from(b, 0) =~= decode_from(b, 0));
    }
    while i < n
        invariant
            i <= n,
            n == b.len(),
            n % 4 == 0,
            i % 4 == 0,
            b == bytes@,
            values@.len() == n,
            forall|j: int| 0 <= j < n ==> sextet(b[j]) == Some(#[trigger] values@[j] as int),
            forall|j: int| 0 <= j < n ==> #[trigger] values@[j] < 64,
            out@ + decode_from(b, i as int) == decode_from(b, 0),
        decreases n - i,
    {
        let ghost before = out@;
        let v0 = values[i];
        let v1 = values[i + 1];
        let v2 = values[i + 2];
        let v3 = values[i + 3];
        out.push(v0 * 4 + v1 / 16);
        if bytes[i + 2] != 61 {
            out.push((v1 % 16) * 16 + v2 / 4);
        }
        if bytes[i + 3] != 61 {
            out.push((v2 % 4) * 64 + v3);
        }
        proof {
            assert(out@ =~= before + quad_bytes(
                b[i as int],
                b[i + 1],
                b[i + 2],
                b[i + 3],
            ));
            assert(out@ + decode_from(b, i + 4) =~= before + decode_from(b, i as int));
        }
        i += 4;
    }
    proof {
        assert(out@ + decode_from(b, i as int) =~= out@);
    }
    Ok(out)
}

/// The characters of up to three bytes.
pub open spec fn triple_symbols(s: Seq<u8>, i: int) -> Seq<char> {
    let b0 = s[i] as int;
    let b1 = if i + 1 < s.len() {
        s[i + 1] as int
    } else {
        0
    };
    let b2 = if i + 2 < s.len() {
        s[i + 2] as int
    } else {
        0
    };
    seq![
        symbol(b0 / 4),
        symbol((b0 % 4) * 16 + b1 / 16),
        if i + 1 < s.len() {
            symbol((b1 % 16) * 4 + b2 / 64)
        } else {
            '='
        },
        if i + 2 < s.len() {
            symbol(b2 % 64)
        } else {
            '='
        },
    ]
}

/// The Base64 characters of bytes, from position `i` on, three bytes at a time.
pub open spec fn encode_from(s: Seq<u8>, i: int) -> Seq<char>
    decreases s.len() + 3 - i,
{
    if i < 0 || i >= s.len() {
        Seq::empty()
    } else {
        triple_symbols(s, i) + encode_from(s, i + 3)
    }
}

/// The Base64 text of bytes.
pub open spec fn encode_spec(s: Seq<u8>) -> Seq<char> {
    encode_from(s, 0)
}

/// The character of a six-bit value.
fn symbol_of(v: u8) -> (r: char)
    requires
        v < 64,
    ensures
        r == symbol(v as int),
{
    if v < 26 {
        (65 + v) as char
    } else if v < 52 {
        (97 + (v - 26)) as char
    } else if v < 62 {
        (48 + (v - 52)) as char
    } else if v == 62 {
        '+'
    } else {
        '/'
    }
}

/// Encode bytes as Base64.
pub fn base64_encode(bytes: &[u8]) -> (r: String)
    ensures
        r@ == encode_spec(bytes@),
{
    let n: usize = bytes.len();
    let mut out = String::new();
    let mut i: usize = 0;
    proof {
        assert(out@ + encode_from(bytes@, 0) =~= encode_from(bytes@, 0));
    }
    while i < n
        invariant
            n == bytes@.len(),
            out@ + encode_from(bytes@, i as int) == encode_spec(bytes@),
        decreases n - i,
    {
        let ghost before = out@;
        let b0 = bytes[i];
        let left: usize = n - i;
        let b1: u8 = if left > 1 {
            bytes[i + 1]
        } else {
            0
        };
        let b2: u8 = if left > 2 {
            bytes[i + 2]
        } else {
            0
        };
        out.push(symbol_of(b0 / 4));
        out.push(symbol_of((b0 % 4) * 16 + b1 / 16));
        if left > 1 {
            out.push(symbol_of((b1 % 16) * 4 + b2 / 64));
        } else {
            out.push('=');
        }
        if left > 2 {
            out.push(symbol_of(b2 % 64));
        } else {
            out.push('=');
        }
        proof {
            assert(out@ =~= before + triple_symbols(bytes@, i as int));
            assert(out@ + encode_from(bytes@, i + 3) =~= before + encode_from(bytes@, i as int));
        }
        if left > 3 {
            i += 3;
        } else {
            proof {
                assert(encode_from(bytes@, i + 3) =~= encode_from(bytes@, n as int));
            }
            i = n;
        }
    }
    proof {
        assert(out@ + encode_from(bytes@, i as int) =~= out@);
    }
    out
}

// ── Laws ────────────────────────────────────────────────────────────────────

proof fn lemma_symbol(v: int)
    requires
        0 <= v < 64,
    ensures
        sextet(symbol(v) as u8) == Some(v),
        symbol(v) as u8 != 61,
        '\0' <= symbol(v) <= '\x7f',
        !text::is_white_space(symbol(v)),
{
}

/// The bytes of an ASCII text are its characters.
proof fn lemma_ascii_bytes(t: Seq<char>)
    requires
        forall|i: int| 0 <= i < t.len() ==> '\0' <= #[trigger] t[i] <= '\x7f',
    ensures
        vstd::utf8::encode_utf8(t) == Seq::new(t.len(), |i: int| t[i] as u8),
{
    assert(vstd::utf8::is_ascii_chars(t));
    vstd::utf8::is_ascii_chars_encode_utf8(t);
}

/// The shape of an encoding: four characters for each three bytes begun, all of them of the
/// alphabet or padding.
proof fn lemma_encode_shape(s: Seq<u8>, i: int)
    requires
        0 <= i,
    ensures
        encode_from(s, i).len() % 4 == 0,
        encode_from(s, i).len() == 0 <==> i >= s.len(),
        forall|k: int|
            0 <= k < encode_from(s, i).len() ==> '\0' <= #[trigger] encode_from(s, i)[k] <= '\x7f'
                && !text::is_white_space(encode_from(s, i)[k]) && sextet(
                encode_from(s, i)[k] as u8,
            ) is Some,
    decreases s.len() + 3 - i,
{
    if i < s.len() {
        lemma_encode_shape(s, i + 3);
        lemma_triple(s, i);
    }
}

/// Four characters of an encoding give back the bytes they stand for.
proof fn lemma_triple(s: Seq<u8>, i: int)
    requires
        0 <= i < s.len(),
    ensures
        ({
            let q = triple_symbols(s, i);
            &&& quad_bytes(q[0] as u8, q[1] as u8, q[2] as u8, q[3] as u8) == s.subrange(
                i,
                if i + 3 < s.len() {
                    i + 3
                } else {
                    s.len() as int
                },
            )
            &&& forall|k: int|
                0 <= k < 4 ==> '\0' <= #[trigger] q[k] <= '\x7f' && !text::is_white_space(q[k])
                    && sextet(q[k] as u8) is Some
        }),
{
    let b0 = s[i] as int;
    let b1 = if i + 1 < s.len() {
        s[i + 1] as int
    } else {
        0
    };
    let b2 = if i + 2 < s.len() {
        s[i + 2] as int
    } else {
        0
    };
    lemma_symbol(b0 / 4);
    lemma_symbol((b0 % 4) * 16 + b1 / 16);
    lemma_symbol((b1 % 16) * 4 + b2 / 64);
    lemma_symbol(b2 % 64);
    let q = triple_symbols(s, i);
    let end = if i + 3 < s.len() {
        i + 3
    } else {
        s.len() as int
    };
    assert(quad_bytes(q[0] as u8, q[1] as u8, q[2] as u8, q[3] as u8) =~= s.subrange(i, end));
}

proof fn lemma_round_trip(s: Seq<u8>, i: int, bytes: Seq<u8>, p: int)
    requires
        0 <= i,
        0 <= p,
        bytes.len() == p + encode_from(s, i).len(),
        forall|k: int|
            0 <= k < encode_from(s, i).len() ==> bytes[p + k] == #[trigger] encode_from(s, i)[k] as u8,
    ensures
        decode_from(bytes, p) == s.subrange(
            if i < s.len() {
                i
            } else {
                s.len() as int
            },
            s.len() as int,
        ),
    decreases s.len() + 3 - i,
{
    lemma_encode_shape(s, i);
    if i < s.len() {
        let q = triple_symbols(s, i);
        let rest = encode_from(s, i + 3);
        assert(encode_from(s, i) == q + rest);
        assert(encode_from(s, i)[0] == q[0]);
        assert(encode_from(s, i)[1] == q[1]);
        assert(encode_from(s, i)[2] == q[2]);
        assert(encode_from(s, i)[3] == q[3]);
        assert(bytes[p + 0] == q[0] as u8);
        assert forall|k: int| 0 <= k < rest.len() implies bytes[p + 4 + k]
            == #[trigger] rest[k] as u8 by {
            assert(encode_from(s, i)[4 + k] == rest[k]);
            assert(bytes[p + (4 + k)] == encode_from(s, i)[4 + k] as u8);
        }
        lemma_triple(s, i);
        lemma_round_trip(s, i + 3, bytes, p + 4);
        let mid = if i + 3 < s.len() {
            i + 3
        } else {
            s.len() as int
        };
        assert(s.subrange(i, mid) + s.subrange(mid, s.len() as int) =~= s.subrange(
            i,
            s.len() as int,
        ));
    } else {
        assert(decode_from(bytes, p) =~= s.subrange(s.len() as int, s.len() as int));
    }
}

proof fn lemma_no_invalid(s: Seq<u8>, i: int)
    requires
        0 <= i <= s.len(),
        forall|k: int| 0 <= k < s.len() ==> sextet(#[trigger] s[k]) is Some,
    ensures
        first_invalid(s, i) is None,
    decreases s.len() - i,
{
    if i < s.len() {
        lemma_no_invalid(s, i + 1);
    }
}

/// Decoding gives back what was encoded.
pub proof fn law_base64_round_trip(s: Seq<u8>)
    ensures
        decode_spec(encode_spec(s)) == Ok::<Seq<u8>, Base64Error>(s),
{
    let t = encode_spec(s);
    lemma_encode_shape(s, 0);
    assert(text::trim_spec(t) == t) by {
        if t.len() > 0 {
            assert(!text::is_white_space(t[0]));
            assert(!text::is_white_space(t[t.len() - 1]));
        }
    }
    lemma_ascii_bytes(t);
    let b = vstd::utf8::encode_utf8(t);
    assert forall|k: int| 0 <= k < b.len() implies sextet(#[trigger] b[k]) is Some by {
        assert(b[k] == t[k] as u8);
    }
    lemma_no_invalid(b, 0);
    lemma_round_trip(s, 0, b, 0);
    assert(s.subrange(0, s.len() as int) =~= s);
}

} // verus!
