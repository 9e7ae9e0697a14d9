//! Content hashes and their hexadecimal form.

use vstd::prelude::*;

verus! {

/// The 32-byte BLAKE3 digest of a text of bytes.
pub uninterp spec fn blake3_digest(data: Seq<u8>) -> Seq<u8>;

/// Calls `blake3::hash`, which hands back the digest as 32 bytes. The digest depends on the data
/// alone.
#[verifier::external_body]
pub(crate) fn blake3_of(data: &[u8]) -> (r: [u8; 32])
    ensures
        r@ == blake3_digest(data@),
{
    *blake3::hash(data).as_bytes()
}

/// Whether two digests are the same.
pub fn same_hash(a: &[u8; 32], b: &[u8; 32]) -> (r: bool)
    ensures
        r == (a@ == b@),
{
    let mut i: usize = 0;
    while i < 32
        invariant
            i <= 32,
            forall|j: int| 0 <= j < i ==> #[trigger] a@[j] == b@[j],
        decreases 32 - i,
    {
        if a[i] != b[i] {
            assert(a@[i as int] != b@[i as int]);
            return false;
        }
        i += 1;
    }
    assert(a@ =~= b@);
    true
}

/// The hexadecimal digit of a number below sixteen.
pub open spec fn hex_digit_spec(n: u8) -> char {
    if n < 10 {
        ('0' as u8 + n) as char
    } else {
        ('a' as u8 + (n - 10)) as char
    }
}

fn hex_digit(n: u8) -> (r: char)
    requires
        n < 16,
    ensures
        r == hex_digit_spec(n),
{
    if n < 10 {
        (48u8 + n) as char
    } else {
        (97u8 + (n - 10)) as char
    }
}

/// Bytes as lower-case hexadecimal digits, two for each.
pub open spec fn hex_spec(bytes: Seq<u8>) -> Seq<char>
    decreases bytes.len(),
{
    if bytes.len() == 0 {
        Seq::empty()
    } else {
        hex_spec(bytes.drop_last()) + seq![
            hex_digit_spec(bytes.last() / 16),
            hex_digit_spec(bytes.last() % 16),
        ]
    }
}

/// Bytes as lower-case hexadecimal digits, two for each.
pub fn to_hex(bytes: &[u8]) -> (r: String)
    ensures
        r@ == hex_spec(bytes@),
{
    let mut out = String::new();
    let mut i: usize = 0;
    while i < bytes.len()
        invariant
            i <= bytes@.len(),
            out@ == hex_spec(bytes@.take(i as int)),
        decreases bytes@.len() - i,
    {
        let b = bytes[i];
        out.push(hex_digit(b / 16));
        out.push(hex_digit(b % 16));
        proof {
            let t = bytes@.take(i + 1);
            assert(t.drop_last() =~= bytes@.take(i as int));
            assert(t.last() == b);
            assert(out@ =~= hex_spec(t));
        }
        i += 1;
    }
    assert(bytes@.take(i as int) =~= bytes@);
    out
}

/// Whether a character is a lower-case hexadecimal digit.
pub open spec fn is_hex_digit(c: char) -> bool {
    '0' <= c <= '9' || 'a' <= c <= 'f'
}

/// The hexadecimal form of bytes consists of lower-case hexadecimal digits.
pub proof fn law_hex_digits(bytes: Seq<u8>)
    ensures
        forall|i: int| 0 <= i < hex_spec(bytes).len() ==> is_hex_digit(#[trigger] hex_spec(bytes)[i]),
    decreases bytes.len(),
{
    if bytes.len() > 0 {
        law_hex_digits(bytes.drop_last());
        let front = hex_spec(bytes.drop_last());
        assert forall|i: int| 0 <= i < hex_spec(bytes).len() implies is_hex_digit(
            #[trigger] hex_spec(bytes)[i],
        ) by {
            if i < front.len() {
                assert(hex_spec(bytes)[i] == front[i]);
            }
        }
    }
}

/// Different bytes have different hexadecimal forms.
pub proof fn law_hex_injective(a: Seq<u8>, b: Seq<u8>)
    ensures
        hex_spec(a).len() == 2 * a.len(),
        hex_spec(a) == hex_spec(b) ==> a == b,
    decreases a.len(),
{
    lemma_hex_len(a);
    lemma_hex_len(b);
    if hex_spec(a) == hex_spec(b) {
        if a.len() > 0 {
            let x = hex_spec(a);
            let y = hex_spec(b);
            let n = x.len();
            assert(x.take(n - 2) =~= hex_spec(a.drop_last()));
            assert(y.take(n - 2) =~= hex_spec(b.drop_last()));
            law_hex_injective(a.drop_last(), b.drop_last());
            assert(x[n - 2] == hex_digit_spec(a.last() / 16) && y[n - 2] == hex_digit_spec(
                b.last() / 16,
            ));
            assert(x[n - 1] == hex_digit_spec(a.last() % 16) && y[n - 1] == hex_digit_spec(
                b.last() % 16,
            ));
            lemma_hex_digit(a.last() / 16, b.last() / 16);
            lemma_hex_digit(a.last() % 16, b.last() % 16);
            assert(a =~= a.drop_last().push(a.last()));
            assert(b =~= b.drop_last().push(b.last()));
        }
        assert(a =~= b);
    }
}

proof fn lemma_hex_digit(a: u8, b: u8)
    requires
        a < 16,
        b < 16,
        hex_digit_spec(a) == hex_digit_spec(b),
    ensures
        a == b,
{
    assert(hex_digit_spec(a) as u8 == hex_digit_spec(b) as u8);
}

proof fn lemma_hex_len(a: Seq<u8>)
    ensures
        hex_spec(a).len() == 2 * a.len(),
    decreases a.len(),
{
    if a.len() > 0 {
        lemma_hex_len(a.drop_last());
    }
}

} // verus!
