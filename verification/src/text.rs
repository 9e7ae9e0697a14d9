//! Text primitives.
//!
//! A text is modelled as the sequence of its characters. Byte offsets, which the index stores,
//! are lengths of UTF-8 encodings of character prefixes.

use vstd::prelude::*;
use vstd::utf8::*;

verus! {

// ── Outside functions ───────────────────────────────────────────────────────

/// `String::push` appends one character to the end of the string.
pub assume_specification[ String::push ](s: &mut String, ch: char)
    ensures
        final(s)@ == old(s)@.push(ch),
;

/// `std::str::from_utf8` succeeds exactly on valid UTF-8, and then yields the text that the
/// bytes encode.
#[verifier::external_body]
pub(crate) fn utf8_str(bytes: &[u8]) -> (r: Option<&str>)
    ensures
        match r {
            Some(s) => valid_utf8(bytes@) && encode_utf8(s@) == bytes@,
            None => !valid_utf8(bytes@),
        },
{
    std::str::from_utf8(bytes).ok()
}

/// The text that `str::to_lowercase` gives, by the Unicode tables of the standard library.
pub uninterp spec fn lowercase(s: Seq<char>) -> Seq<char>;

/// An ASCII character in lower case.
pub open spec fn ascii_lower(c: char) -> char {
    if 'A' <= c <= 'Z' {
        (c as u32 + 32) as char
    } else {
        c
    }
}

/// `str::to_lowercase` maps a text to lower case. Of an ASCII text it maps the capital letters, and
/// leaves the rest as it is.
pub assume_specification[ str::to_lowercase ](s: &str) -> (r: String)
    ensures
        r@ == lowercase(s@),
        vstd::utf8::is_ascii_chars(s@) ==> r@ == s@.map_values(|c: char| ascii_lower(c)),
;

/// Whether `char::is_alphanumeric` holds of a character, by the Unicode tables of the standard
/// library.
pub uninterp spec fn alphanumeric(c: char) -> bool;

/// `char::is_alphanumeric` tells letters and numbers.
pub assume_specification[ char::is_alphanumeric ](c: char) -> (r: bool)
    ensures
        r == alphanumeric(c),
;

/// Whether `char::is_uppercase` holds of a character, by the Unicode tables of the standard
/// library.
pub uninterp spec fn uppercase(c: char) -> bool;

/// `char::is_uppercase` tells upper-case characters.
pub assume_specification[ char::is_uppercase ](c: char) -> (r: bool)
    ensures
        r == uppercase(c),
;

// ── Characters and strings ──────────────────────────────────────────────────

/// The characters of a string.
pub fn chars_of(s: &str) -> (r: Vec<char>)
    ensures
        r@ == s@,
{
    let mut v: Vec<char> = Vec::new();
    for c in it: s.chars()
        invariant
            v@ == it.seq().take(it.index() as int),
            it.seq() == s@,
    {
        v.push(c);
    }
    v
}

/// The string made of the given characters.
pub fn string_of(v: &[char]) -> (r: String)
    ensures
        r@ == v@,
{
    let mut s = String::new();
    let mut i: usize = 0;
    while i < v.len()
        invariant
            i <= v@.len(),
            s@ == v@.take(i as int),
        decreases v@.len() - i,
    {
        s.push(v[i]);
        i += 1;
        proof {
            assert(v@.take(i as int) =~= v@.take(i - 1).push(v@[i - 1]));
        }
    }
    proof {
        assert(v@.take(v@.len() as int) =~= v@);
    }
    s
}

/// The characters at positions `from..to`.
pub fn slice_of(v: &[char], from: usize, to: usize) -> (r: Vec<char>)
    requires
        from <= to <= v@.len(),
    ensures
        r@ == v@.subrange(from as int, to as int),
{
    let mut out: Vec<char> = Vec::new();
    let mut i: usize = from;
    while i < to
        invariant
            from <= i <= to <= v@.len(),
            out@ == v@.subrange(from as int, i as int),
        decreases to - i,
    {
        out.push(v[i]);
        i += 1;
        proof {
            assert(v@.subrange(from as int, i as int) =~= v@.subrange(from as int, i - 1).push(
                v@[i - 1],
            ));
        }
    }
    out
}

/// The string made of the characters at positions `from..to`.
pub fn substring(v: &[char], from: usize, to: usize) -> (r: String)
    requires
        from <= to <= v@.len(),
    ensures
        r@ == v@.subrange(from as int, to as int),
{
    let part = slice_of(v, from, to);
    string_of(&part)
}

/// Whether two strings hold the same characters.
pub fn str_eq(a: &str, b: &str) -> (r: bool)
    ensures
        r == (a@ == b@),
{
    a.to_owned() == b.to_owned()
}

/// The two strings one after the other.
pub fn concat(a: &str, b: &str) -> (r: String)
    ensures
        r@ == a@ + b@,
{
    let mut s = a.to_owned();
    s.append(b);
    s
}

/// Whether two character slices hold the same characters.
pub fn chars_eq(a: &[char], b: &[char]) -> (r: bool)
    ensures
        r == (a@ == b@),
{
    if a.len() != b.len() {
        return false;
    }
    let mut i: usize = 0;
    while i < a.len()
        invariant
            i <= a@.len(),
            a@.len() == b@.len(),
            a@.take(i as int) == b@.take(i as int),
        decreases a@.len() - i,
    {
        if a[i] != b[i] {
            proof {
                assert(a@[i as int] != b@[i as int]);
            }
            return false;
        }
        i += 1;
        proof {
            assert(a@.take(i as int) =~= a@.take(i - 1).push(a@[i - 1]));
            assert(b@.take(i as int) =~= b@.take(i - 1).push(b@[i - 1]));
        }
    }
    proof {
        assert(a@.take(i as int) =~= a@);
        assert(b@.take(i as int) =~= b@);
    }
    true
}

/// Whether the vector holds a string with these characters.
pub fn contains_string(v: &Vec<String>, s: &str) -> (r: bool)
    ensures
        r == v.deep_view().contains(s@),
{
    let mut i: usize = 0;
    while i < v.len()
        invariant
            i <= v@.len(),
            forall|j: int| 0 <= j < i ==> v@[j]@ != s@,
        decreases v@.len() - i,
    {
        if str_eq(v[i].as_str(), s) {
            proof {
                assert(v.deep_view()[i as int] == s@);
            }
            return true;
        }
        i += 1;
    }
    proof {
        assert forall|j: int| 0 <= j < v.deep_view().len() implies v.deep_view()[j] != s@ by {
            assert(v.deep_view()[j] == v@[j]@);
        }
    }
    false
}

/// A list of texts with one added, unless it is there.
pub open spec fn add_once(acc: Seq<Seq<char>>, x: Seq<char>) -> Seq<Seq<char>> {
    if acc.contains(x) {
        acc
    } else {
        acc.push(x)
    }
}

/// Adding a text once keeps a list free of duplicates, and the text is then there.
pub proof fn lemma_add_once(acc: Seq<Seq<char>>, x: Seq<char>)
    ensures
        acc.no_duplicates() ==> add_once(acc, x).no_duplicates(),
        add_once(acc, x).contains(x),
        forall|y: Seq<char>| #[trigger] acc.contains(y) ==> add_once(acc, x).contains(y),
        forall|y: Seq<char>| #[trigger] add_once(acc, x).contains(y) ==> acc.contains(y) || y == x,
{
    let r = add_once(acc, x);
    if !acc.contains(x) {
        assert(r[acc.len() as int] == x);
        assert forall|y: Seq<char>| #[trigger] acc.contains(y) implies r.contains(y) by {
            let i = acc.index_of(y);
            assert(r[i] == y);
        }
        assert forall|y: Seq<char>| #[trigger] r.contains(y) implies acc.contains(y) || y == x by {
            let i = r.index_of(y);
            assert(r[i] == y);
            if i < acc.len() {
                assert(acc[i] == y);
            }
        }
        if acc.no_duplicates() {
            assert forall|i: int, j: int|
                0 <= i < r.len() && 0 <= j < r.len() && i != j implies r[i] != r[j] by {
                if i < acc.len() && j < acc.len() {
                    assert(acc[i] != acc[j]);
                } else if i < acc.len() {
                    assert(acc.contains(acc[i]));
                } else if j < acc.len() {
                    assert(acc.contains(acc[j]));
                }
            }
        }
    }
}

/// Adds a string to a list, unless one with its characters is there.
pub fn push_once(list: &mut Vec<String>, s: String)
    ensures
        final(list).deep_view() == add_once(old(list).deep_view(), s@),
{
    if !contains_string(list, s.as_str()) {
        let ghost before = list.deep_view();
        let ghost x = s@;
        list.push(s);
        proof {
            assert(list.deep_view() =~= before.push(x));
        }
    }
}

// ── White space ─────────────────────────────────────────────────────────────

/// The Unicode `White_Space` property.
pub open spec fn is_white_space(c: char) -> bool {
    let u = c as u32;
    ||| 0x9 <= u <= 0xd
    ||| u == 0x20
    ||| u == 0x85
    ||| u == 0xa0
    ||| u == 0x1680
    ||| 0x2000 <= u <= 0x200a
    ||| u == 0x2028
    ||| u == 0x2029
    ||| u == 0x202f
    ||| u == 0x205f
    ||| u == 0x3000
}

/// Whether a character has the Unicode `White_Space` property.
pub fn white_space(c: char) -> (r: bool)
    ensures
        r == is_white_space(c),
{
    let u: u32 = c as u32;
    (0x9 <= u && u <= 0xd) || u == 0x20 || u == 0x85 || u == 0xa0 || u == 0x1680 || (0x2000 <= u
        && u <= 0x200a) || u == 0x2028 || u == 0x2029 || u == 0x202f || u == 0x205f || u == 0x3000
}

/// The text without its leading white space.
pub open spec fn trim_start_spec(s: Seq<char>) -> Seq<char>
    decreases s.len(),
{
    if s.len() > 0 && is_white_space(s[0]) {
        trim_start_spec(s.subrange(1, s.len() as int))
    } else {
        s
    }
}

/// The text without its trailing white space.
pub open spec fn trim_end_spec(s: Seq<char>) -> Seq<char>
    decreases s.len(),
{
    if s.len() > 0 && is_white_space(s.last()) {
        trim_end_spec(s.drop_last())
    } else {
        s
    }
}

/// The text without white space on either side.
pub open spec fn trim_spec(s: Seq<char>) -> Seq<char> {
    trim_end_spec(trim_start_spec(s))
}

/// The position of the first character that is not white space, or the length.
pub open spec fn leading_space(s: Seq<char>) -> int {
    s.len() - trim_start_spec(s).len()
}

pub proof fn lemma_trim_start(s: Seq<char>)
    ensures
        0 <= leading_space(s) <= s.len(),
        trim_start_spec(s) == s.subrange(leading_space(s), s.len() as int),
    decreases s.len(),
{
    if s.len() > 0 && is_white_space(s[0]) {
        let t = s.subrange(1, s.len() as int);
        lemma_trim_start(t);
        assert(t.subrange(leading_space(t), t.len() as int) =~= s.subrange(
            leading_space(s),
            s.len() as int,
        ));
    } else {
        assert(s.subrange(0, s.len() as int) =~= s);
    }
}

/// The number of leading white space characters.
pub fn count_leading_space(v: &[char]) -> (r: usize)
    ensures
        r == leading_space(v@),
        r <= v@.len(),
        trim_start_spec(v@) == v@.subrange(r as int, v@.len() as int),
{
    let mut i: usize = 0;
    proof {
        assert(v@.subrange(0, v@.len() as int) =~= v@);
    }
    while i < v.len() && white_space(v[i])
        invariant
            i <= v@.len(),
            trim_start_spec(v@) == trim_start_spec(v@.subrange(i as int, v@.len() as int)),
        decreases v@.len() - i,
    {
        proof {
            let t = v@.subrange(i as int, v@.len() as int);
            assert(t.subrange(1, t.len() as int) =~= v@.subrange(i + 1, v@.len() as int));
        }
        i += 1;
    }
    i
}

/// The text without its leading white space.
pub fn trim_start(v: &[char]) -> (r: Vec<char>)
    ensures
        r@ == trim_start_spec(v@),
{
    let i = count_leading_space(v);
    slice_of(v, i, v.len())
}

/// The text without its trailing white space.
pub fn trim_end(v: &[char]) -> (r: Vec<char>)
    ensures
        r@ == trim_end_spec(v@),
{
    let mut n: usize = v.len();
    proof {
        assert(v@.take(v@.len() as int) =~= v@);
    }
    while n > 0 && white_space(v[n - 1])
        invariant
            n <= v@.len(),
            trim_end_spec(v@) == trim_end_spec(v@.take(n as int)),
        decreases n,
    {
        proof {
            assert(v@.take(n as int).drop_last() =~= v@.take(n - 1));
        }
        n -= 1;
    }
    slice_of(v, 0, n)
}

/// The text without white space on either side.
pub fn trim(v: &[char]) -> (r: Vec<char>)
    ensures
        r@ == trim_spec(v@),
{
    let t = trim_start(v);
    trim_end(&t)
}

/// The string without white space on either side.
pub fn trim_str(s: &str) -> (r: String)
    ensures
        r@ == trim_spec(s@),
{
    let v = chars_of(s);
    let t = trim(&v);
    string_of(&t)
}

pub proof fn lemma_trim_end_len(s: Seq<char>)
    ensures
        trim_end_spec(s).len() <= s.len(),
        trim_end_spec(s) == s.take(trim_end_spec(s).len() as int),
    decreases s.len(),
{
    if s.len() > 0 && is_white_space(s.last()) {
        lemma_trim_end_len(s.drop_last());
        let n = trim_end_spec(s).len() as int;
        assert(s.drop_last().take(n) =~= s.take(n));
    } else {
        assert(s.take(s.len() as int) =~= s);
    }
}

// ── Words ───────────────────────────────────────────────────────────────────

/// The first position at or after `i` that holds white space, or the length.
pub open spec fn word_end(s: Seq<char>, i: int) -> int
    decreases s.len() - i,
{
    if i < 0 || i >= s.len() {
        s.len() as int
    } else if is_white_space(s[i]) {
        i
    } else {
        word_end(s, i + 1)
    }
}

/// The words from position `i` on: the longest runs without white space.
pub open spec fn words_from(s: Seq<char>, i: int) -> Seq<Seq<char>>
    decreases s.len() - i,
{
    if i < 0 || i >= s.len() {
        Seq::empty()
    } else if is_white_space(s[i]) {
        words_from(s, i + 1)
    } else {
        let e = word_end(s, i);
        if i < e <= s.len() {
            seq![s.subrange(i, e)] + words_from(s, e)
        } else {
            Seq::empty()
        }
    }
}

/// The words of a text.
pub open spec fn words_spec(s: Seq<char>) -> Seq<Seq<char>> {
    words_from(s, 0)
}

/// The words of a text.
pub fn words(v: &[char]) -> (r: Vec<String>)
    ensures
        r.deep_view() == words_spec(v@),
{
    let mut out: Vec<String> = Vec::new();
    let mut i: usize = 0;
    proof {
        assert(out.deep_view() + words_spec(v@) =~= words_spec(v@));
    }
    while i < v.len()
        invariant
            i <= v@.len(),
            out.deep_view() + words_from(v@, i as int) == words_spec(v@),
        decreases v@.len() - i,
    {
        if white_space(v[i]) {
            i += 1;
        } else {
            let mut e: usize = i + 1;
            while e < v.len() && !white_space(v[e])
                invariant
                    i < e <= v@.len(),
                    word_end(v@, e as int) == word_end(v@, i as int),
                decreases v@.len() - e,
            {
                e += 1;
            }
            assert(e == word_end(v@, i as int));
            let ghost before = out.deep_view();
            out.push(substring(v, i, e));
            proof {
                assert(out.deep_view() =~= before.push(v@.subrange(i as int, e as int)));
                assert(out.deep_view() + words_from(v@, e as int) =~= before + words_from(
                    v@,
                    i as int,
                ));
            }
            i = e;
        }
    }
    proof {
        assert(out.deep_view() + words_from(v@, i as int) =~= out.deep_view());
    }
    out
}

/// Texts one after the other with a separator in between.
pub open spec fn join_spec(parts: Seq<Seq<char>>, sep: Seq<char>) -> Seq<char>
    decreases parts.len(),
{
    if parts.len() == 0 {
        Seq::empty()
    } else if parts.len() == 1 {
        parts[0]
    } else {
        join_spec(parts.drop_last(), sep) + sep + parts.last()
    }
}

/// Strings one after the other with a separator in between.
pub fn join(parts: &Vec<String>, sep: &str) -> (r: String)
    ensures
        r@ == join_spec(parts.deep_view(), sep@),
{
    let ghost all = parts.deep_view();
    let mut s = String::new();
    let mut i: usize = 0;
    proof {
        assert(all.take(0) =~= Seq::<Seq<char>>::empty());
    }
    while i < parts.len()
        invariant
            i <= parts@.len(),
            all == parts.deep_view(),
            s@ == join_spec(all.take(i as int), sep@),
        decreases parts@.len() - i,
    {
        let ghost t = all.take(i + 1);
        proof {
            assert(t.drop_last() =~= all.take(i as int));
            assert(t.last() == parts@[i as int]@);
        }
        if i > 0 {
            s.append(sep);
        }
        s.append(parts[i].as_str());
        proof {
            if i == 0 {
                assert(s@ =~= t[0]);
            }
        }
        i += 1;
    }
    proof {
        assert(all.take(i as int) =~= all);
    }
    s
}

// ── Searching ───────────────────────────────────────────────────────────────

/// Whether `pat` stands in `s` at position `i`.
pub open spec fn occurs_at(s: Seq<char>, pat: Seq<char>, i: int) -> bool {
    0 <= i && i + pat.len() <= s.len() && s.subrange(i, i + pat.len()) == pat
}

/// Whether `s` begins with `pat`.
pub open spec fn starts_with_spec(s: Seq<char>, pat: Seq<char>) -> bool {
    occurs_at(s, pat, 0)
}

/// Whether `s` ends with `pat`.
pub open spec fn ends_with_spec(s: Seq<char>, pat: Seq<char>) -> bool {
    occurs_at(s, pat, s.len() - pat.len())
}

/// The first position at or after `from` at which `pat` stands.
pub open spec fn find_spec(s: Seq<char>, pat: Seq<char>, from: int) -> Option<int>
    decreases s.len() + 1 - from,
{
    if from < 0 || from + pat.len() > s.len() {
        None
    } else if occurs_at(s, pat, from) {
        Some(from)
    } else {
        find_spec(s, pat, from + 1)
    }
}

/// Whether `pat` stands anywhere in `s`.
pub open spec fn contains_spec(s: Seq<char>, pat: Seq<char>) -> bool {
    find_spec(s, pat, 0) is Some
}

/// `find_spec` finds an occurrence, the first one, and misses none.
pub proof fn lemma_find(s: Seq<char>, pat: Seq<char>, from: int)
    requires
        0 <= from,
    ensures
        match find_spec(s, pat, from) {
            Some(p) => from <= p && occurs_at(s, pat, p) && forall|j: int|
                from <= j < p ==> !occurs_at(s, pat, j),
            None => forall|j: int| from <= j ==> !occurs_at(s, pat, j),
        },
    decreases s.len() + 1 - from,
{
    if from + pat.len() <= s.len() && !occurs_at(s, pat, from) {
        lemma_find(s, pat, from + 1);
    }
}

/// Whether `pat` stands in `v` at position `i`.
pub fn stands_at(v: &[char], pat: &[char], i: usize) -> (r: bool)
    ensures
        r == occurs_at(v@, pat@, i as int),
{
    if i > v.len() || pat.len() > v.len() - i {
        return false;
    }
    let part = slice_of(v, i, i + pat.len());
    chars_eq(&part, pat)
}

/// Whether `v` begins with `pat`.
pub fn starts_with(v: &[char], pat: &str) -> (r: bool)
    ensures
        r == starts_with_spec(v@, pat@),
{
    let p = chars_of(pat);
    stands_at(v, &p, 0)
}

/// Whether `v` ends with `pat`.
pub fn ends_with(v: &[char], pat: &str) -> (r: bool)
    ensures
        r == ends_with_spec(v@, pat@),
{
    let p = chars_of(pat);
    if p.len() > v.len() {
        return false;
    }
    stands_at(v, &p, v.len() - p.len())
}

/// The first position at or after `from` at which `pat` stands.
pub fn find(v: &[char], pat: &str, from: usize) -> (r: Option<usize>)
    ensures
        match r {
            Some(p) => find_spec(v@, pat@, from as int) == Some(p as int) && p + pat@.len()
                <= v@.len() <= usize::MAX && from <= p,
            None => find_spec(v@, pat@, from as int) is None,
        },
{
    let p = chars_of(pat);
    let mut i: usize = from;
    if p.len() > v.len() {
        return None;
    }
    let last: usize = v.len() - p.len();
    while i <= last
        invariant
            from <= i,
            v@.len() <= usize::MAX,
            last + p@.len() == v@.len(),
            p@ == pat@,
            find_spec(v@, pat@, from as int) == find_spec(v@, pat@, i as int),
        decreases last + 1 - i,
    {
        if stands_at(v, &p, i) {
            return Some(i);
        }
        if i == last {
            proof {
                assert(find_spec(v@, pat@, i + 1) is None);
            }
            return None;
        }
        i += 1;
    }
    None
}

/// Whether `pat` stands anywhere in `v`.
pub fn contains(v: &[char], pat: &str) -> (r: bool)
    ensures
        r == contains_spec(v@, pat@),
{
    find(v, pat, 0).is_some()
}

/// The number of occurrences of `pat` at or after `from`, counted left to right without overlap.
pub open spec fn count_matches_spec(s: Seq<char>, pat: Seq<char>, from: int) -> nat
    decreases s.len() - from,
{
    if from < 0 || pat.len() == 0 {
        0
    } else {
        match find_spec(s, pat, from) {
            Some(p) => if from <= p && p + pat.len() <= s.len() {
                1 + count_matches_spec(s, pat, p + pat.len())
            } else {
                0
            },
            None => 0,
        }
    }
}

/// The number of occurrences of `pat` in `v`, counted left to right without overlap.
pub fn count_matches(v: &[char], pat: &str) -> (r: usize)
    requires
        pat@.len() > 0,
    ensures
        r == count_matches_spec(v@, pat@, 0),
        r <= v@.len(),
{
    let width: usize = chars_of(pat).len();
    let total: usize = v.len();
    let mut n: usize = 0;
    let mut i: usize = 0;
    loop
        invariant
            width == pat@.len(),
            width > 0,
            n <= i <= total == v@.len(),
            n + count_matches_spec(v@, pat@, i as int) == count_matches_spec(v@, pat@, 0),
        decreases v@.len() - i,
    {
        match find(v, pat, i) {
            Some(p) => {
                n += 1;
                i = p + width;
            },
            None => {
                return n;
            },
        }
    }
}

// ── Splitting ───────────────────────────────────────────────────────────────

/// The first position at or after `i` that holds `sep`, or the length.
pub open spec fn next_sep(s: Seq<char>, sep: char, i: int) -> int
    decreases s.len() - i,
{
    if i < 0 || i >= s.len() {
        s.len() as int
    } else if s[i] == sep {
        i
    } else {
        next_sep(s, sep, i + 1)
    }
}

pub proof fn lemma_next_sep(s: Seq<char>, sep: char, i: int)
    requires
        0 <= i <= s.len(),
    ensures
        i <= next_sep(s, sep, i) <= s.len(),
        next_sep(s, sep, i) < s.len() ==> s[next_sep(s, sep, i)] == sep,
        forall|j: int| i <= j < next_sep(s, sep, i) ==> s[j] != sep,
    decreases s.len() - i,
{
    if i < s.len() && s[i] != sep {
        lemma_next_sep(s, sep, i + 1);
    }
}

/// The ranges of the pieces between separators, from position `i` on. There is always one piece;
/// it is empty where the text is.
pub open spec fn pieces_from(s: Seq<char>, sep: char, i: int) -> Seq<(int, int)>
    decreases s.len() - i,
{
    if i < 0 || i > s.len() {
        Seq::empty()
    } else {
        let e = next_sep(s, sep, i);
        if i <= e < s.len() {
            seq![(i, e)] + pieces_from(s, sep, e + 1)
        } else {
            seq![(i, s.len() as int)]
        }
    }
}

/// The ranges of the pieces between separators.
pub open spec fn pieces(s: Seq<char>, sep: char) -> Seq<(int, int)> {
    pieces_from(s, sep, 0)
}

/// Every piece is a range of the text, starts where the one before ended plus one, and the
/// last ends with the text.
pub proof fn lemma_pieces_from(s: Seq<char>, sep: char, i: int)
    requires
        0 <= i <= s.len(),
    ensures
        pieces_from(s, sep, i).len() > 0,
        pieces_from(s, sep, i)[0].0 == i,
        pieces_from(s, sep, i).last().1 == s.len(),
        pieces_from(s, sep, i).len() <= s.len() - i + 1,
        forall|k: int|
            0 <= k < pieces_from(s, sep, i).len() ==> i <= (#[trigger] pieces_from(s, sep, i)[k]).0
                <= pieces_from(s, sep, i)[k].1 <= s.len(),
        forall|k: int|
            0 <= k < pieces_from(s, sep, i).len() - 1 ==> (#[trigger] pieces_from(s, sep, i)[k]).1
                < s.len() && s[pieces_from(s, sep, i)[k].1] == sep && pieces_from(
                s,
                sep,
                i,
            )[k + 1].0 == pieces_from(s, sep, i)[k].1 + 1,
    decreases s.len() - i,
{
    lemma_next_sep(s, sep, i);
    let e = next_sep(s, sep, i);
    if e < s.len() {
        lemma_pieces_from(s, sep, e + 1);
    }
}

/// The ranges of the pieces between separators.
pub fn split_ranges(v: &[char], sep: char) -> (r: Vec<(usize, usize)>)
    ensures
        ranges_view(r@) == pieces(v@, sep),
        forall|k: int| 0 <= k < r@.len() ==> (#[trigger] r@[k]).0 <= r@[k].1 <= v@.len(),
{
    split_ranges_from(v, sep, 0)
}

/// Ranges of positions as pairs of integers.
pub open spec fn ranges_view(r: Seq<(usize, usize)>) -> Seq<(int, int)> {
    Seq::new(r.len(), |k: int| (r[k].0 as int, r[k].1 as int))
}

/// The ranges of the pieces between separators, from position `from` on.
pub fn split_ranges_from(v: &[char], sep: char, from: usize) -> (r: Vec<(usize, usize)>)
    requires
        from <= v@.len(),
    ensures
        ranges_view(r@) == pieces_from(v@, sep, from as int),
        forall|k: int| 0 <= k < r@.len() ==> (#[trigger] r@[k]).0 <= r@[k].1 <= v@.len(),
{
    let mut out: Vec<(usize, usize)> = Vec::new();
    let ghost all = pieces_from(v@, sep, from as int);
    let mut i: usize = from;
    proof {
        assert(ranges_view(out@) + all =~= all);
    }
    loop
        invariant
            i <= v@.len(),
            all == pieces_from(v@, sep, from as int),
            ranges_view(out@) + pieces_from(v@, sep, i as int) == all,
            forall|k: int| 0 <= k < out@.len() ==> (#[trigger] out@[k]).0 <= out@[k].1 <= v@.len(),
        decreases v@.len() + 1 - i,
    {
        let mut e: usize = i;
        while e < v.len() && v[e] != sep
            invariant
                i <= e <= v@.len(),
                next_sep(v@, sep, e as int) == next_sep(v@, sep, i as int),
            decreases v@.len() - e,
        {
            e += 1;
        }
        assert(e == next_sep(v@, sep, i as int));
        let ghost before = out@;
        out.push((i, e));
        proof {
            assert(ranges_view(out@) =~= ranges_view(before).push((i as int, e as int)));
        }
        if e < v.len() {
            proof {
                assert(ranges_view(out@) + pieces_from(v@, sep, e + 1) =~= ranges_view(before)
                    + pieces_from(v@, sep, i as int));
            }
            i = e + 1;
        } else {
            proof {
                assert(ranges_view(out@) =~= ranges_view(before) + pieces_from(v@, sep, i as int));
            }
            return out;
        }
    }
}

// ── Byte offsets ────────────────────────────────────────────────────────────

/// The number of bytes of the UTF-8 encoding of a text.
pub open spec fn byte_len(s: Seq<char>) -> nat {
    encode_utf8(s).len()
}

/// The byte offset of the character at position `i`.
pub open spec fn byte_offset(s: Seq<char>, i: int) -> nat {
    byte_len(s.take(i))
}

/// The number of bytes of the UTF-8 encoding of a character.
pub open spec fn char_width(c: char) -> nat {
    let u = c as u32;
    if u <= 0x7f {
        1
    } else if u <= 0x7ff {
        2
    } else if u <= 0xffff {
        3
    } else {
        4
    }
}

pub proof fn lemma_encode_push(s: Seq<char>, c: char)
    ensures
        encode_utf8(s.push(c)) == encode_utf8(s) + encode_scalar(c as u32),
        byte_len(s.push(c)) == byte_len(s) + char_width(c),
    decreases s.len(),
{
    if s.len() == 0 {
        reveal_with_fuel(encode_utf8, 2);
        assert(s.push(c).drop_first() =~= Seq::<char>::empty());
        assert(encode_utf8(s.push(c)) =~= encode_scalar(c as u32));
        assert(encode_utf8(s) + encode_scalar(c as u32) =~= encode_scalar(c as u32));
    } else {
        lemma_encode_push(s.drop_first(), c);
        assert(s.push(c).drop_first() =~= s.drop_first().push(c));
        assert(encode_utf8(s.push(c)) =~= encode_utf8(s) + encode_scalar(c as u32));
    }
}

/// Encoding distributes over concatenation.
pub proof fn lemma_encode_concat(a: Seq<char>, b: Seq<char>)
    ensures
        encode_utf8(a + b) == encode_utf8(a) + encode_utf8(b),
        byte_len(a + b) == byte_len(a) + byte_len(b),
    decreases b.len(),
{
    if b.len() == 0 {
        assert(a + b =~= a);
        assert(encode_utf8(a) + encode_utf8(b) =~= encode_utf8(a));
    } else {
        let c = b.drop_last();
        lemma_encode_concat(a, c);
        lemma_encode_push(c, b.last());
        lemma_encode_push(a + c, b.last());
        assert(c.push(b.last()) =~= b);
        assert((a + c).push(b.last()) =~= a + b);
        assert(encode_utf8(a + b) =~= encode_utf8(a) + encode_utf8(b));
    }
}

/// A prefix takes no more bytes than a longer one, and every character takes at least one.
pub proof fn lemma_byte_offset_monotone(s: Seq<char>, i: int, j: int)
    requires
        0 <= i <= j <= s.len(),
    ensures
        byte_offset(s, i) + (j - i) <= byte_offset(s, j) <= byte_len(s),
        byte_offset(s, j) + (s.len() - j) <= byte_len(s),
    decreases s.len() - i,
{
    assert(s.take(s.len() as int) =~= s);
    if i < j {
        lemma_encode_push(s.take(i), s[i]);
        assert(s.take(i).push(s[i]) =~= s.take(i + 1));
        lemma_byte_offset_monotone(s, i + 1, j);
    } else if j < s.len() {
        lemma_encode_push(s.take(j), s[j]);
        assert(s.take(j).push(s[j]) =~= s.take(j + 1));
        lemma_byte_offset_monotone(s, j + 1, j + 1);
    }
}

/// The number of bytes of the UTF-8 encoding of a character.
pub fn width_of(c: char) -> (r: usize)
    ensures
        r == char_width(c),
        1 <= r <= 4,
{
    let u: u32 = c as u32;
    if u <= 0x7f {
        1
    } else if u <= 0x7ff {
        2
    } else if u <= 0xffff {
        3
    } else {
        4
    }
}

/// The byte offset of every position of the text, its end included.
pub fn byte_offsets(v: &[char]) -> (r: Vec<usize>)
    requires
        byte_len(v@) <= usize::MAX,
    ensures
        r@.len() == v@.len() + 1,
        forall|i: int| 0 <= i <= v@.len() ==> #[trigger] r@[i] == byte_offset(v@, i),
{
    let mut out: Vec<usize> = Vec::new();
    let mut pos: usize = 0;
    out.push(0);
    proof {
        assert(v@.take(0) =~= Seq::<char>::empty());
    }
    let mut i: usize = 0;
    while i < v.len()
        invariant
            i <= v@.len(),
            byte_len(v@) <= usize::MAX,
            pos == byte_offset(v@, i as int),
            out@.len() == i + 1,
            forall|j: int| 0 <= j <= i ==> #[trigger] out@[j] == byte_offset(v@, j),
        decreases v@.len() - i,
    {
        proof {
            lemma_encode_push(v@.take(i as int), v@[i as int]);
            assert(v@.take(i as int).push(v@[i as int]) =~= v@.take(i + 1));
            lemma_byte_offset_monotone(v@, i as int, i + 1);
        }
        pos += width_of(v[i]);
        out.push(pos);
        i += 1;
    }
    out
}

/// A string that exists takes no more bytes than an address can count.
pub fn checked_byte_len(s: &str) -> (r: usize)
    ensures
        r == byte_len(s@),
{
    s.as_bytes().len()
}

} // verus!
