//! What holds of texts: white space, trimming and words.

use vstd::prelude::*;
use vstd::utf8::*;

use crate::text;

verus! {

/// Blanks, tabs and line ends are white space, and what is printed of ASCII is not.
pub proof fn law_white_space(c: char)
    ensures
        c == ' ' || c == '\t' || c == '\n' || c == '\r' ==> text::is_white_space(c),
        '!' <= c <= '~' ==> !text::is_white_space(c),
{
}

/// Whether a text is blank throughout.
pub open spec fn is_blank(s: Seq<char>) -> bool {
    forall|i: int| 0 <= i < s.len() ==> text::is_white_space(#[trigger] s[i])
}

/// Whether a text has something at both ends that is not white space, or nothing at all.
pub open spec fn is_trimmed(s: Seq<char>) -> bool {
    s.len() > 0 ==> !text::is_white_space(s[0]) && !text::is_white_space(s.last())
}

/// Trimming drops the white space on either side of a text, and nothing else.
pub proof fn law_trim(a: Seq<char>, m: Seq<char>, b: Seq<char>)
    requires
        is_blank(a),
        is_trimmed(m),
        is_blank(b),
    ensures
        text::trim_spec(a + m + b) == m,
{
    lemma_trim_start_of(a, m + b);
    assert(a + (m + b) =~= a + m + b);
    if m.len() == 0 {
        lemma_trim_start_of(b, Seq::empty());
        assert(m + b =~= b);
        assert(b + Seq::<char>::empty() =~= b);
        assert(text::trim_start_spec(m + b) =~= m);
    } else {
        assert((m + b)[0] == m[0]);
        lemma_trim_end_of(m, b);
    }
}

proof fn lemma_trim_start_of(a: Seq<char>, s: Seq<char>)
    requires
        is_blank(a),
    ensures
        text::trim_start_spec(a + s) == text::trim_start_spec(s),
    decreases a.len(),
{
    if a.len() > 0 {
        let r = a.subrange(1, a.len() as int);
        assert((a + s)[0] == a[0]);
        assert((a + s).subrange(1, (a + s).len() as int) =~= r + s);
        lemma_trim_start_of(r, s);
    } else {
        assert(a + s =~= s);
    }
}

proof fn lemma_trim_end_of(s: Seq<char>, b: Seq<char>)
    requires
        is_blank(b),
        s.len() > 0,
        !text::is_white_space(s.last()),
    ensures
        text::trim_end_spec(s + b) == s,
    decreases b.len(),
{
    if b.len() > 0 {
        assert((s + b).last() == b.last());
        assert((s + b).drop_last() =~= s + b.drop_last());
        lemma_trim_end_of(s, b.drop_last());
    } else {
        assert(s + b =~= s);
    }
}

/// A text that is trimmed stays as it is.
pub proof fn lemma_trimmed(s: Seq<char>)
    requires
        is_trimmed(s),
    ensures
        text::trim_spec(s) == s,
{
    law_trim(Seq::empty(), s, Seq::empty());
    assert(Seq::<char>::empty() + s + Seq::<char>::empty() =~= s);
}

/// A text begins with another exactly where it is that text with something behind.
pub proof fn law_starts_with(a: Seq<char>, b: Seq<char>)
    ensures
        text::starts_with_spec(a + b, a),
        text::ends_with_spec(a + b, b),
        text::contains_spec(a + b, a),
        text::contains_spec(a + b, b),
{
    let s = a + b;
    assert(s.subrange(0, a.len() as int) =~= a);
    assert(s.subrange(a.len() as int, s.len() as int) =~= b);
    text::lemma_find(s, a, 0);
    text::lemma_find(s, b, 0);
    assert(text::occurs_at(s, a, 0));
    assert(text::occurs_at(s, b, a.len() as int));
}

// ── Bytes ───────────────────────────────────────────────────────────────────

proof fn lemma_high_bits(x: u8)
    by (bit_vector)
    ensures
        0x80 | x >= 0x80,
        0xC0 | x >= 0x80,
        0xE0 | x >= 0x80,
        0xF0 | x >= 0x80,
{
}

proof fn lemma_low_bits(c: u32)
    by (bit_vector)
    requires
        c <= 0x7f,
    ensures
        (c & 0x7F) == c,
{
}

proof fn lemma_scalar_bytes(c: char)
    ensures
        (c as u32) <= 0x7f ==> encode_scalar(c as u32) == seq![c as u32 as u8],
        (c as u32) > 0x7f ==> forall|k: int|
            0 <= k < encode_scalar(c as u32).len() ==> #[trigger] encode_scalar(c as u32)[k] >= 0x80,
{
    let u = c as u32;
    if u <= 0x7f {
        lemma_low_bits(u);
    } else {
        lemma_high_bits(((u >> 6) & 0x1F) as u8);
        lemma_high_bits(((u >> 12) & 0x0F) as u8);
        lemma_high_bits(((u >> 18) & 0x7) as u8);
        lemma_high_bits((u & 0x3F) as u8);
        lemma_high_bits(((u >> 6) & 0x3F) as u8);
        lemma_high_bits(((u >> 12) & 0x3F) as u8);
    }
}

/// An ASCII byte of an encoded text is one of its characters.
pub proof fn law_ascii_bytes(s: Seq<char>, k: int)
    requires
        0 <= k < encode_utf8(s).len(),
        encode_utf8(s)[k] <= 0x7f,
    ensures
        exists|i: int| 0 <= i < s.len() && (#[trigger] s[i]) as u32 == encode_utf8(s)[k],
    decreases s.len(),
{
    let head = encode_scalar(s[0] as u32);
    let rest = encode_utf8(s.drop_first());
    assert(encode_utf8(s) == head + rest);
    lemma_scalar_bytes(s[0]);
    if k < head.len() {
        assert(encode_utf8(s)[k] == head[k]);
        assert(s[0] as u32 == encode_utf8(s)[k]);
    } else {
        law_ascii_bytes(s.drop_first(), k - head.len());
        let i = choose|i: int|
            0 <= i < s.drop_first().len() && (#[trigger] s.drop_first()[i]) as u32
                == rest[k - head.len()];
        assert(s[i + 1] == s.drop_first()[i]);
    }
}

/// A text that lacks an ASCII character lacks its byte.
pub proof fn lemma_lacks_byte(s: Seq<char>, c: char)
    requires
        (c as u32) <= 0x7f,
        !s.contains(c),
    ensures
        forall|k: int| 0 <= k < encode_utf8(s).len() ==> #[trigger] encode_utf8(s)[k] != c as u32,
{
    assert forall|k: int| 0 <= k < encode_utf8(s).len() implies #[trigger] encode_utf8(s)[k] != c as u32 by {
        if encode_utf8(s)[k] == c as u32 {
            law_ascii_bytes(s, k);
            let i = choose|i: int| 0 <= i < s.len() && (#[trigger] s[i]) as u32 == encode_utf8(s)[k];
            char_u32_cast(s[i], c as u32);
            char_u32_cast(c, c as u32);
            assert(s[i] == c);
        }
    }
}

/// The bytes of a character of ASCII.
pub proof fn lemma_ascii_char(c: char)
    requires
        (c as u32) <= 0x7f,
    ensures
        encode_utf8(seq![c]) == seq![c as u32 as u8],
{
    lemma_scalar_bytes(c);
    reveal_with_fuel(encode_utf8, 2);
    assert(seq![c].drop_first() =~= Seq::<char>::empty());
    assert(encode_utf8(seq![c]) =~= seq![c as u32 as u8]);
}

// ── Words ───────────────────────────────────────────────────────────────────

/// Whether a text is a line of words with one blank in between.
pub open spec fn is_spaced(s: Seq<char>) -> bool {
    &&& is_trimmed(s)
    &&& forall|i: int|
        #![trigger s[i]]
        0 <= i < s.len() && text::is_white_space(s[i]) ==> s[i] == ' ' && i + 1 < s.len()
            && !is_white_at(s, i + 1)
}

/// Whether white space stands at a position.
pub open spec fn is_white_at(s: Seq<char>, i: int) -> bool {
    text::is_white_space(s[i])
}

proof fn lemma_join_front(parts: Seq<Seq<char>>, sep: Seq<char>)
    requires
        parts.len() >= 2,
    ensures
        text::join_spec(parts, sep) == parts[0] + sep + text::join_spec(parts.skip(1), sep),
    decreases parts.len(),
{
    let rest = parts.skip(1);
    if parts.len() == 2 {
        assert(parts.drop_last().len() == 1);
        assert(rest.len() == 1);
        assert(text::join_spec(parts.drop_last(), sep) == parts[0]);
    } else {
        lemma_join_front(parts.drop_last(), sep);
        assert(parts.drop_last().skip(1) =~= rest.drop_last());
        assert(rest.last() == parts.last());
        assert(text::join_spec(parts, sep) =~= parts[0] + sep + text::join_spec(rest, sep));
    }
}

proof fn lemma_word_end(s: Seq<char>, i: int)
    requires
        0 <= i <= s.len(),
    ensures
        i <= text::word_end(s, i) <= s.len(),
        forall|k: int| i <= k < text::word_end(s, i) ==> !text::is_white_space(#[trigger] s[k]),
        text::word_end(s, i) < s.len() ==> text::is_white_space(s[text::word_end(s, i)]),
    decreases s.len() - i,
{
    if i < s.len() && !text::is_white_space(s[i]) {
        lemma_word_end(s, i + 1);
    }
}

proof fn lemma_words_joined(s: Seq<char>, i: int)
    requires
        is_spaced(s),
        0 <= i < s.len(),
        !text::is_white_space(s[i]),
    ensures
        text::words_from(s, i).len() >= 1,
        text::join_spec(text::words_from(s, i), seq![' ']) == s.skip(i),
    decreases s.len() - i,
{
    lemma_word_end(s, i);
    let e = text::word_end(s, i);
    let w = s.subrange(i, e);
    let words = text::words_from(s, i);
    assert(text::word_end(s, i) == text::word_end(s, i + 1));
    lemma_word_end(s, i + 1);
    if e == s.len() {
        assert(text::words_from(s, e).len() == 0);
        assert(words =~= seq![w]);
        assert(w =~= s.skip(i));
    } else {
        assert(s[e] == ' ' && !is_white_at(s, e + 1));
        let rest = text::words_from(s, e);
        assert(rest == text::words_from(s, e + 1));
        lemma_words_joined(s, e + 1);
        assert(words == seq![w] + rest);
        lemma_join_front(words, seq![' ']);
        assert(words.skip(1) =~= rest);
        assert(w + seq![' '] + s.skip(e + 1) =~= s.skip(i));
    }
}

/// Words that are joined with blanks are the words that stand in the text.
pub proof fn law_words_joined(s: Seq<char>)
    requires
        is_spaced(s),
    ensures
        text::join_spec(text::words_spec(s), " "@) == s,
{
    reveal_strlit(" ");
    assert(" "@ =~= seq![' ']);
    if s.len() > 0 {
        lemma_words_joined(s, 0);
        assert(s.skip(0) =~= s);
    } else {
        assert(text::words_spec(s).len() == 0);
        assert(s =~= Seq::<char>::empty());
    }
}

/// A text without white space is one word.
pub proof fn lemma_one_word(s: Seq<char>)
    requires
        s.len() > 0,
        forall|i: int| 0 <= i < s.len() ==> !text::is_white_space(#[trigger] s[i]),
    ensures
        text::words_spec(s) == seq![s],
{
    lemma_word_end(s, 0);
    let e = text::word_end(s, 0);
    assert(e == s.len());
    assert(s.subrange(0, e) =~= s);
    assert(text::words_from(s, e).len() == 0);
    assert(text::words_spec(s) =~= seq![s]);
}

} // verus!
