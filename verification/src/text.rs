//! Text as sequences of characters: case, white space, splitting, joining.

use vstd::prelude::*;

verus! {

/// The lower-case form of a text, as the standard library computes it.
pub uninterp spec fn lowercase(s: Seq<char>) -> Seq<char>;

/// Whether the standard library counts a character as white space.
pub uninterp spec fn whitespace(c: char) -> bool;

/// `str::to_lowercase`: the lower-case form of the text. Every character
/// has a lower-case form of one or more characters, so the form is no
/// shorter than the text, and that of an empty text is empty.
#[verifier::external_body]
pub(crate) fn to_lowercase(s: &str) -> (r: String)
    ensures
        r@ == lowercase(s@),
        r@.len() >= s@.len(),
        s@.len() == 0 ==> r@.len() == 0,
{
    s.to_lowercase()
}

/// `char::is_whitespace`: whether the character has the Unicode property
/// White_Space.
#[verifier::external_body]
pub(crate) fn is_whitespace(c: char) -> (r: bool)
    ensures
        r == whitespace(c),
{
    c.is_whitespace()
}

/// `String::push`: appends one character.
#[verifier::external_body]
pub(crate) fn push_char(s: &mut String, c: char)
    ensures
        final(s)@ == old(s)@.push(c),
{
    s.push(c)
}

/// The lower-case form of an ASCII capital; any other character unchanged.
pub open spec fn ascii_lower(c: char) -> char {
    if 'A' <= c && c <= 'Z' {
        ((c as u8) + 32) as char
    } else {
        c
    }
}

/// The lower-case form of an ASCII capital; any other character unchanged.
pub fn to_ascii_lower(c: char) -> (r: char)
    ensures
        r == ascii_lower(c),
{
    if 'A' <= c && c <= 'Z' {
        let b: u8 = c as u8;
        (b + 32) as char
    } else {
        c
    }
}

/// The characters of a text.
pub fn to_chars(s: &str) -> (v: Vec<char>)
    ensures
        v@ == s@,
{
    let mut v: Vec<char> = Vec::new();
    for c in it: s.chars()
        invariant
            v@ == it.seq().take(it.index() as int),
            it.seq() == s@,
    {
        v.push(c);
    }
    v
}

/// The text made of the characters `v[from..to]`.
pub fn from_chars(v: &Vec<char>, from: usize, to: usize) -> (s: String)
    requires
        from <= to <= v.len(),
    ensures
        s@ == v@.subrange(from as int, to as int),
{
    let mut s = String::new();
    let mut i: usize = from;
    while i < to
        invariant
            from <= i <= to <= v.len(),
            s@ == v@.subrange(from as int, i as int),
        decreases to - i,
    {
        push_char(&mut s, v[i]);
        i += 1;
    }
    s
}

/// The position of the first `c` in `s`, or the length of `s` without one.
pub open spec fn first_index(s: Seq<char>, c: char) -> int
    decreases s.len(),
{
    if s.len() == 0 {
        0
    } else if s[0] == c {
        0
    } else {
        1 + first_index(s.skip(1), c)
    }
}

/// What `first_index` gives: a position within the text or its length, no
/// `c` before it, and `c` at it.
pub proof fn lemma_first_index(s: Seq<char>, c: char)
    ensures
        0 <= first_index(s, c) <= s.len(),
        forall|j: int| 0 <= j < first_index(s, c) ==> s[j] != c,
        first_index(s, c) < s.len() ==> s[first_index(s, c)] == c,
    decreases s.len(),
{
    if s.len() > 0 && s[0] != c {
        lemma_first_index(s.skip(1), c);
        assert forall|j: int| 0 <= j < first_index(s, c) implies s[j] != c by {
            if j > 0 {
                assert(s.skip(1)[j - 1] == s[j]);
            }
        }
    }
}

/// `first_index` is the only position with no `c` before it and `c` at it.
pub proof fn lemma_first_index_is(s: Seq<char>, c: char, k: int)
    requires
        0 <= k <= s.len(),
        forall|j: int| 0 <= j < k ==> s[j] != c,
        k < s.len() ==> s[k] == c,
    ensures
        first_index(s, c) == k,
{
    lemma_first_index(s, c);
}

/// The position of the first `c` in `v[from..]`, counted from the start of
/// `v`; the length of `v` without one.
pub fn find_from(v: &Vec<char>, c: char, from: usize) -> (k: usize)
    requires
        from <= v.len(),
    ensures
        from <= k <= v.len(),
        k - from == first_index(v@.skip(from as int), c),
{
    let mut k: usize = from;
    while k < v.len() && v[k] != c
        invariant
            from <= k <= v.len(),
            forall|j: int| from <= j < k ==> v@[j] != c,
        decreases v.len() - k,
    {
        k += 1;
    }
    proof {
        lemma_first_index_is(v@.skip(from as int), c, k - from);
    }
    k
}

/// The pieces of `s` between the occurrences of `sep`: one more piece than
/// there are separators, empty pieces included.
pub open spec fn split_on(s: Seq<char>, sep: char) -> Seq<Seq<char>>
    decreases s.len(),
{
    let k = first_index(s, sep);
    if 0 <= k < s.len() {
        seq![s.take(k)] + split_on(s.skip(k + 1), sep)
    } else {
        seq![s]
    }
}

/// The views of a vector of texts.
pub open spec fn views(v: Seq<String>) -> Seq<Seq<char>> {
    Seq::new(v.len(), |i: int| v[i]@)
}

/// The pieces of a text between the occurrences of `sep`.
pub fn split(v: &Vec<char>, sep: char) -> (parts: Vec<String>)
    ensures
        views(parts@) == split_on(v@, sep),
{
    let mut parts: Vec<String> = Vec::new();
    let mut start: usize = 0;
    proof {
        assert(v@.skip(0) == v@);
        assert(views(parts@) + split_on(v@, sep) == split_on(v@, sep));
    }
    loop
        invariant_except_break
            start <= v.len(),
            views(parts@) + split_on(v@.skip(start as int), sep) == split_on(v@, sep),
        ensures
            views(parts@) == split_on(v@, sep),
        decreases v.len() - start,
    {
        let k = find_from(v, sep, start);
        let piece = from_chars(v, start, k);
        let ghost rest = v@.skip(start as int);
        let ghost before = views(parts@);
        proof {
            lemma_first_index(rest, sep);
            assert(piece@ == rest.take(k - start));
        }
        parts.push(piece);
        assert(views(parts@) == before.push(rest.take(k - start)));
        if k >= v.len() {
            proof {
                assert(rest.take(k - start) == rest);
                assert(split_on(rest, sep) == seq![rest]);
                assert(before.push(rest) == before + seq![rest]);
            }
            break;
        }
        proof {
            assert(rest.skip(k - start + 1) == v@.skip(k + 1));
            assert(before.push(rest.take(k - start)) + split_on(v@.skip(k + 1), sep) == before + (
            seq![rest.take(k - start)] + split_on(rest.skip(k - start + 1), sep)));
        }
        start = k + 1;
    }
    parts
}

/// The length of the longest prefix of `s` without white space.
pub open spec fn word_end(s: Seq<char>) -> int
    decreases s.len(),
{
    if s.len() == 0 || whitespace(s[0]) {
        0
    } else {
        1 + word_end(s.skip(1))
    }
}

/// What `word_end` gives: a position within the text or its length, no
/// white space before it, and white space at it.
pub proof fn lemma_word_end(s: Seq<char>)
    ensures
        0 <= word_end(s) <= s.len(),
        forall|j: int| 0 <= j < word_end(s) ==> !whitespace(#[trigger] s[j]),
        word_end(s) < s.len() ==> whitespace(s[word_end(s)]),
    decreases s.len(),
{
    if s.len() > 0 && !whitespace(s[0]) {
        lemma_word_end(s.skip(1));
        assert forall|j: int| 0 <= j < word_end(s) implies !whitespace(#[trigger] s[j]) by {
            if j > 0 {
                assert(s.skip(1)[j - 1] == s[j]);
            }
        }
    }
}

/// `word_end` is the only position with no white space before it and white
/// space at it.
pub proof fn lemma_word_end_is(s: Seq<char>, k: int)
    requires
        0 <= k <= s.len(),
        forall|j: int| 0 <= j < k ==> !whitespace(#[trigger] s[j]),
        k < s.len() ==> whitespace(s[k]),
    ensures
        word_end(s) == k,
{
    lemma_word_end(s);
    let w = word_end(s);
    if w < k {
        assert(!whitespace(s[w]));
    } else if k < w {
        assert(!whitespace(s[k]));
    }
}

/// The words of `s`: the longest runs of characters that are not white
/// space, in order.
pub open spec fn words_of(s: Seq<char>) -> Seq<Seq<char>>
    decreases s.len(),
{
    if s.len() == 0 {
        Seq::empty()
    } else if whitespace(s[0]) {
        words_of(s.skip(1))
    } else {
        let k = word_end(s);
        if 0 < k <= s.len() {
            seq![s.take(k)] + words_of(s.skip(k))
        } else {
            Seq::empty()
        }
    }
}

/// The words of a text: its longest runs of characters that are not white
/// space.
pub fn words(v: &Vec<char>) -> (parts: Vec<String>)
    ensures
        views(parts@) == words_of(v@),
{
    let mut parts: Vec<String> = Vec::new();
    let mut start: usize = 0;
    proof {
        assert(v@.skip(0) == v@);
        assert(views(parts@) + words_of(v@) == words_of(v@));
    }
    while start < v.len()
        invariant
            start <= v.len(),
            views(parts@) + words_of(v@.skip(start as int)) == words_of(v@),
        decreases v.len() - start,
    {
        let ghost rest = v@.skip(start as int);
        let ghost before = views(parts@);
        if is_whitespace(v[start]) {
            proof {
                assert(rest.skip(1) == v@.skip(start + 1));
            }
            start += 1;
        } else {
            let mut k: usize = start + 1;
            while k < v.len() && !is_whitespace(v[k])
                invariant
                    start < k <= v.len(),
                    forall|j: int| start <= j < k ==> !whitespace(#[trigger] v@[j]),
                decreases v.len() - k,
            {
                k += 1;
            }
            let piece = from_chars(v, start, k);
            proof {
                assert forall|j: int| 0 <= j < k - start implies !whitespace(#[trigger] rest[j]) by {
                    assert(rest[j] == v@[start + j]);
                }
                lemma_word_end_is(rest, k - start);
                assert(piece@ == rest.take(k - start));
                assert(rest.skip(k - start) == v@.skip(k as int));
            }
            parts.push(piece);
            proof {
                assert(views(parts@) == before.push(rest.take(k - start)));
                assert(before.push(rest.take(k - start)) + words_of(v@.skip(k as int)) == before + (
                seq![rest.take(k - start)] + words_of(rest.skip(k - start))));
            }
            start = k;
        }
    }
    proof {
        assert(v@.skip(start as int).len() == 0);
        assert(views(parts@) + Seq::<Seq<char>>::empty() == views(parts@));
    }
    parts
}

/// The texts of `parts` one after another, `sep` between each two.
pub open spec fn joined(parts: Seq<Seq<char>>, sep: char) -> Seq<char>
    decreases parts.len(),
{
    if parts.len() == 0 {
        Seq::empty()
    } else if parts.len() == 1 {
        parts[0]
    } else {
        joined(parts.drop_last(), sep).push(sep) + parts.last()
    }
}

/// Whether two texts hold the same characters.
pub fn same_text(a: &str, b: &str) -> (r: bool)
    ensures
        r == (a@ == b@),
{
    a.to_owned() == b.to_owned()
}

/// Appends the characters of `t` to the characters `v`.
pub fn extend_chars(v: &mut Vec<char>, t: &str)
    ensures
        final(v)@ == old(v)@ + t@,
{
    let chars = to_chars(t);
    let mut i: usize = 0;
    while i < chars.len()
        invariant
            i <= chars.len(),
            chars@ == t@,
            v@ == old(v)@ + chars@.take(i as int),
        decreases chars.len() - i,
    {
        v.push(chars[i]);
        proof {
            assert(chars@.take(i + 1) == chars@.take(i as int).push(chars@[i as int]));
        }
        i += 1;
    }
    proof {
        assert(chars@.take(chars.len() as int) == chars@);
    }
}

/// Appends the characters of `t` to `s`.
pub fn push_text(s: &mut String, t: &str)
    ensures
        final(s)@ == old(s)@ + t@,
{
    let chars = to_chars(t);
    let mut i: usize = 0;
    while i < chars.len()
        invariant
            i <= chars.len(),
            chars@ == t@,
            s@ == old(s)@ + chars@.take(i as int),
        decreases chars.len() - i,
    {
        push_char(s, chars[i]);
        proof {
            assert(chars@.take(i + 1) == chars@.take(i as int).push(chars@[i as int]));
        }
        i += 1;
    }
    proof {
        assert(chars@.take(chars.len() as int) == chars@);
    }
}

} // verus!
