//! Characters, words and substrings: normalization, tokenizing and the
//! first-occurrence search the concordance is built on.

use vstd::prelude::*;

verus! {

/// What `str::to_lowercase` makes of a string: Unicode lower-case mapping,
/// which is context dependent (final sigma) and may change the length.
pub uninterp spec fn lower_of(s: Seq<char>) -> Seq<char>;

/// Whether a character has the Unicode `Alphabetic` property.
pub uninterp spec fn alphabetic(c: char) -> bool;

/// The Unicode `White_Space` property.
pub open spec fn white_space(c: char) -> bool {
    ('\u{9}' <= c && c <= '\u{d}') || c == ' ' || c == '\u{85}' || c == '\u{a0}'
        || c == '\u{1680}' || ('\u{2000}' <= c && c <= '\u{200a}') || c == '\u{2028}'
        || c == '\u{2029}' || c == '\u{202f}' || c == '\u{205f}' || c == '\u{3000}'
}

/// Relies on `str::to_lowercase`: the lower-case mapping of the whole string,
/// which depends on its characters alone.
#[verifier::external_body]
pub(crate) fn lowercase(s: &str) -> (r: String)
    ensures
        r@ == lower_of(s@),
{
    s.to_lowercase()
}

/// Relies on `char::is_alphabetic`: true exactly for characters with the
/// `Alphabetic` property.
#[verifier::external_body]
fn is_letter(c: char) -> (r: bool)
    ensures
        r == alphabetic(c),
{
    c.is_alphabetic()
}

/// Relies on `char::is_whitespace`: true exactly for the `White_Space` code
/// points.
#[verifier::external_body]
pub(crate) fn is_blank(c: char) -> (r: bool)
    ensures
        r == white_space(c),
{
    c.is_whitespace()
}

/// The letters of `s`, in order.
pub open spec fn letters_of(s: Seq<char>) -> Seq<char>
    decreases s.len(),
{
    if s.len() == 0 {
        s
    } else if alphabetic(s.last()) {
        letters_of(s.drop_last()).push(s.last())
    } else {
        letters_of(s.drop_last())
    }
}

/// The index key of a raw token: lower-cased, then every character that is
/// not a letter dropped.
pub open spec fn normal_form(s: Seq<char>) -> Seq<char> {
    letters_of(lower_of(s))
}

/// The characters of `s`, in order.
pub fn chars_of(s: &str) -> (r: Vec<char>)
    ensures
        r@ == s@,
{
    let mut r: Vec<char> = Vec::new();
    for c in it: s.chars()
        invariant
            r@ == it.seq().take(it.index() as int),
    {
        r.push(c);
    }
    r
}

/// Relies on `String::push`: the character is appended at the end.
#[verifier::external_body]
fn push_char(s: &mut String, c: char)
    ensures
        final(s)@ == old(s)@.push(c),
{
    s.push(c)
}

/// Keeping only the letters of a string that holds only letters changes
/// nothing: dropping the non-letters twice is dropping them once.
pub proof fn lemma_letters_of_idempotent(s: Seq<char>)
    ensures
        letters_of(letters_of(s)) == letters_of(s),
    decreases s.len(),
{
    if s.len() > 0 {
        lemma_letters_of_idempotent(s.drop_last());
        let prev = letters_of(s.drop_last());
        if alphabetic(s.last()) {
            assert(prev.push(s.last()).drop_last() == prev);
        }
    }
}

/// Normalizing a word twice gives its normal form, for every word whose
/// normal form the lower-case mapping leaves as it is.
pub proof fn lemma_normalize_idempotent_when_lowercase_stable(s: Seq<char>)
    requires
        lower_of(normal_form(s)) == normal_form(s),
    ensures
        normal_form(normal_form(s)) == normal_form(s),
{
    lemma_letters_of_idempotent(lower_of(s));
}

/// The normal form of a raw token.
pub fn normalize_word(word: &str) -> (r: String)
    ensures
        r@ == normal_form(word@),
{
    let lower = lowercase(word);
    let cs = chars_of(lower.as_str());
    let mut r = String::new();
    let mut i: usize = 0;
    while i < cs.len()
        invariant
            i <= cs.len(),
            cs@ == lower_of(word@),
            r@ == letters_of(cs@.take(i as int)),
        decreases cs.len() - i,
    {
        assert(cs@.take(i + 1).drop_last() == cs@.take(i as int));
        if is_letter(cs[i]) {
            push_char(&mut r, cs[i]);
        }
        i = i + 1;
    }
    assert(cs@.take(cs.len() as int) == cs@);
    r
}

/// Scanning `s` left to right: the words completed so far and the word in
/// progress (empty between words).
pub open spec fn scan_words(s: Seq<char>) -> (Seq<Seq<char>>, Seq<char>)
    decreases s.len(),
{
    if s.len() == 0 {
        (Seq::empty(), Seq::empty())
    } else {
        let (done, cur) = scan_words(s.drop_last());
        if white_space(s.last()) {
            if cur.len() > 0 {
                (done.push(cur), Seq::empty())
            } else {
                (done, cur)
            }
        } else {
            (done, cur.push(s.last()))
        }
    }
}

/// The maximal runs of non-whitespace characters of `s`, in order.
pub open spec fn words_of(s: Seq<char>) -> Seq<Seq<char>> {
    let (done, cur) = scan_words(s);
    if cur.len() > 0 {
        done.push(cur)
    } else {
        done
    }
}

/// The views of a sequence of strings.
pub open spec fn views(v: Seq<String>) -> Seq<Seq<char>> {
    v.map_values(|t: String| t@)
}

/// Splits `s` at whitespace into its words, in order.
pub fn split_words(s: &str) -> (r: Vec<String>)
    ensures
        views(r@) == words_of(s@),
{
    let cs = chars_of(s);
    let mut r: Vec<String> = Vec::new();
    let mut start: usize = 0;
    let mut i: usize = 0;
    while i < cs.len()
        invariant
            i <= cs.len(),
            start <= i,
            cs@ == s@,
            scan_words(cs@.take(i as int)) == (views(r@), cs@.subrange(start as int, i as int)),
        decreases cs.len() - i,
    {
        assert(cs@.take(i + 1).drop_last() == cs@.take(i as int));
        if is_blank(cs[i]) {
            if start < i {
                let w = s.substring_char(start, i).to_string();
                proof {
                    assert(views(r@.push(w)) == views(r@).push(w@));
                }
                r.push(w);
            }
            start = i + 1;
        } else {
            assert(cs@.subrange(start as int, i + 1) == cs@.subrange(start as int, i as int).push(cs[i as int]));
        }
        i = i + 1;
    }
    assert(cs@.take(cs.len() as int) == cs@);
    if start < cs.len() {
        let w = s.substring_char(start, cs.len()).to_string();
        proof {
            assert(views(r@.push(w)) == views(r@).push(w@));
        }
        r.push(w);
    }
    r
}

/// `needle` occurs in `hay` starting at position `p`.
pub open spec fn occurs_at(hay: Seq<char>, needle: Seq<char>, p: int) -> bool {
    0 <= p && p + needle.len() <= hay.len() && hay.subrange(p, p + needle.len()) == needle
}

/// The first position at or after `p` where `needle` occurs in `hay`.
pub open spec fn first_from(hay: Seq<char>, needle: Seq<char>, p: int) -> Option<int>
    decreases hay.len() + 1 - p,
{
    if p < 0 || p + needle.len() > hay.len() {
        None
    } else if occurs_at(hay, needle, p) {
        Some(p)
    } else {
        first_from(hay, needle, p + 1)
    }
}

/// The first position where `needle` occurs in `hay`; an empty needle occurs
/// at 0.
pub open spec fn first_match(hay: Seq<char>, needle: Seq<char>) -> Option<int> {
    first_from(hay, needle, 0)
}

/// The position `first_from` gives is one where the needle occurs.
pub proof fn lemma_first_from_occurs(hay: Seq<char>, needle: Seq<char>, p: int)
    ensures
        match first_from(hay, needle, p) {
            Some(k) => occurs_at(hay, needle, k),
            None => true,
        },
    decreases hay.len() + 1 - p,
{
    if !(p < 0 || p + needle.len() > hay.len()) && !occurs_at(hay, needle, p) {
        lemma_first_from_occurs(hay, needle, p + 1);
    }
}

/// Whether `needle` occurs in `hay` at position `p`.
fn match_at(hay: &Vec<char>, needle: &Vec<char>, p: usize) -> (r: bool)
    requires
        p + needle.len() <= hay.len(),
    ensures
        r == occurs_at(hay@, needle@, p as int),
{
    let mut j: usize = 0;
    while j < needle.len()
        invariant
            j <= needle.len(),
            p + needle.len() <= hay.len(),
            hay@.subrange(p as int, p + j) == needle@.take(j as int),
        decreases needle.len() - j,
    {
        if hay[p + j] != needle[j] {
            assert(hay@.subrange(p as int, p + needle.len())[j as int] != needle@[j as int]);
            return false;
        }
        assert(hay@.subrange(p as int, p + j + 1) == hay@.subrange(p as int, p + j).push(hay@[p + j]));
        assert(needle@.take(j + 1) == needle@.take(j as int).push(needle@[j as int]));
        j = j + 1;
    }
    assert(needle@.take(needle.len() as int) == needle@);
    true
}

/// The first position where `needle` occurs in `hay`.
pub fn find_first(hay: &Vec<char>, needle: &Vec<char>) -> (r: Option<usize>)
    ensures
        match r {
            Some(p) => first_match(hay@, needle@) == Some(p as int),
            None => first_match(hay@, needle@) is None,
        },
{
    if needle.len() > hay.len() {
        return None;
    }
    let last = hay.len() - needle.len();
    let mut p: usize = 0;
    loop
        invariant
            last + needle.len() == hay.len(),
            p <= last,
            first_match(hay@, needle@) == first_from(hay@, needle@, p as int),
        decreases last - p,
    {
        if match_at(hay, needle, p) {
            return Some(p);
        }
        if p == last {
            return None;
        }
        p = p + 1;
    }
}

} // verus!
