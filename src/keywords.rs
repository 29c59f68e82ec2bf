//! Choosing the words to search: tokens that are not stopwords, and the
//! stopword list itself.

use vstd::prelude::*;

use crate::text::{chars_of, is_blank, lower_of, lowercase, split_words, views, white_space, words_of};

verus! {

/// The tokens of `tokens` that are not in `stops`, in order, duplicates kept.
pub open spec fn keywords(tokens: Seq<Seq<char>>, stops: Seq<Seq<char>>) -> Seq<Seq<char>>
    decreases tokens.len(),
{
    if tokens.len() == 0 {
        Seq::empty()
    } else if stops.contains(tokens.last()) {
        keywords(tokens.drop_last(), stops)
    } else {
        keywords(tokens.drop_last(), stops).push(tokens.last())
    }
}

/// Whether `word` is one of `set`.
fn is_listed(set: &[String], word: &String) -> (r: bool)
    ensures
        r == views(set@).contains(word@),
{
    let mut i: usize = 0;
    while i < set.len()
        invariant
            i <= set.len(),
            forall|k: int| 0 <= k < i ==> set@[k]@ != word@,
        decreases set.len() - i,
    {
        if set[i] == *word {
            assert(views(set@)[i as int] == word@);
            return true;
        }
        i = i + 1;
    }
    assert forall|k: int| 0 <= k < views(set@).len() implies views(set@)[k] != word@ by {
        assert(views(set@)[k] == set@[k]@);
    }
    false
}

/// The tokens of `linha` that are not stopwords, in order and with
/// duplicates kept. Tokens are compared with the stopwords exactly.
#[allow(non_snake_case)]
pub fn find_keyWords(linha: &[String], stopwords_set: &[String]) -> (r: Vec<String>)
    ensures
        views(r@) == keywords(views(linha@), views(stopwords_set@)),
{
    let ghost stops = views(stopwords_set@);
    let ghost toks = views(linha@);
    let mut keyWords = Vec::<String>::new();
    let mut i: usize = 0;
    while i < linha.len()
        invariant
            i <= linha.len(),
            stops == views(stopwords_set@),
            toks == views(linha@),
            views(keyWords@) == keywords(toks.take(i as int), stops),
        decreases linha.len() - i,
    {
        assert(toks.take(i + 1).drop_last() == toks.take(i as int));
        assert(toks[i as int] == linha@[i as int]@);
        if !is_listed(stopwords_set, &linha[i]) {
            let palavra = linha[i].clone();
            assert(views(keyWords@.push(palavra)) == views(keyWords@).push(palavra@));
            keyWords.push(palavra);
        }
        i = i + 1;
    }
    assert(toks.take(linha.len() as int) == toks);
    keyWords
}

/// The words of a line to search for: the line lower-cased, split at
/// whitespace, stopwords left out.
pub fn line_keywords(line: &str, stopwords_set: &[String]) -> (r: Vec<String>)
    ensures
        views(r@) == keywords(words_of(lower_of(line@)), views(stopwords_set@)),
{
    let lower = lowercase(line);
    let palavras = split_words(lower.as_str());
    find_keyWords(palavras.as_slice(), stopwords_set)
}

/// The characters that separate entries of a stopword list.
pub open spec fn separator(c: char) -> bool {
    c == ',' || c == '\n' || c == '\r'
}

fn is_separator(c: char) -> (r: bool)
    ensures
        r == separator(c),
{
    c == ',' || c == '\n' || c == '\r'
}

/// Scanning `s` left to right: the pieces ended by a separator so far and
/// the piece in progress.
pub open spec fn scan_pieces(s: Seq<char>) -> (Seq<Seq<char>>, Seq<char>)
    decreases s.len(),
{
    if s.len() == 0 {
        (Seq::empty(), Seq::empty())
    } else {
        let (done, cur) = scan_pieces(s.drop_last());
        if separator(s.last()) {
            (done.push(cur), Seq::empty())
        } else {
            (done, cur.push(s.last()))
        }
    }
}

/// `s` cut at every separator, empty pieces included.
pub open spec fn pieces_of(s: Seq<char>) -> Seq<Seq<char>> {
    let (done, cur) = scan_pieces(s);
    done.push(cur)
}

/// `s` without its leading whitespace.
pub open spec fn trim_start(s: Seq<char>) -> Seq<char>
    decreases s.len(),
{
    if s.len() > 0 && white_space(s[0]) {
        trim_start(s.drop_first())
    } else {
        s
    }
}

/// `s` without its trailing whitespace.
pub open spec fn trim_end(s: Seq<char>) -> Seq<char>
    decreases s.len(),
{
    if s.len() > 0 && white_space(s.last()) {
        trim_end(s.drop_last())
    } else {
        s
    }
}

/// `s` without leading and trailing whitespace.
pub open spec fn trimmed(s: Seq<char>) -> Seq<char> {
    trim_end(trim_start(s))
}

/// The stopwords of a list whose pieces are `pieces`: each trimmed and
/// lower-cased, empty ones dropped, each word kept once where it first
/// appears.
pub open spec fn stopword_list(pieces: Seq<Seq<char>>) -> Seq<Seq<char>>
    decreases pieces.len(),
{
    if pieces.len() == 0 {
        Seq::empty()
    } else {
        let prev = stopword_list(pieces.drop_last());
        let w = lower_of(trimmed(pieces.last()));
        if w.len() > 0 && !prev.contains(w) {
            prev.push(w)
        } else {
            prev
        }
    }
}

/// `s` without leading and trailing whitespace.
fn trim(s: &str) -> (r: String)
    ensures
        r@ == trimmed(s@),
{
    let cs = chars_of(s);
    let mut start: usize = 0;
    assert(cs@.subrange(0, cs.len() as int) == cs@);
    while start < cs.len() && is_blank(cs[start])
        invariant
            start <= cs.len(),
            cs@ == s@,
            trim_start(s@) == trim_start(cs@.subrange(start as int, cs.len() as int)),
        decreases cs.len() - start,
    {
        assert(cs@.subrange(start as int, cs.len() as int).drop_first() == cs@.subrange(
            start + 1,
            cs.len() as int,
        ));
        start = start + 1;
    }
    let ghost rest = cs@.subrange(start as int, cs.len() as int);
    assert(trim_start(s@) == rest);
    let mut end: usize = cs.len();
    while end > start && is_blank(cs[end - 1])
        invariant
            start <= end <= cs.len(),
            cs@ == s@,
            rest == cs@.subrange(start as int, cs.len() as int),
            trim_end(rest) == trim_end(cs@.subrange(start as int, end as int)),
        decreases end,
    {
        assert(cs@.subrange(start as int, end as int).drop_last() == cs@.subrange(
            start as int,
            end - 1,
        ));
        end = end - 1;
    }
    s.substring_char(start, end).to_string()
}

/// Adds the entry `piece` of a stopword list to the words `r` read so far.
fn add_stopword(r: &mut Vec<String>, piece: &str)
    ensures
        views(final(r)@) == {
            let w = lower_of(trimmed(piece@));
            if w.len() > 0 && !views(old(r)@).contains(w) {
                views(old(r)@).push(w)
            } else {
                views(old(r)@)
            }
        },
{
    let w = lowercase(trim(piece).as_str());
    if w.unicode_len() > 0 && !is_listed(r.as_slice(), &w) {
        assert(views(r@.push(w)) == views(r@).push(w@));
        r.push(w);
    }
}

/// Reads a stopword list: entries separated by commas or line breaks,
/// trimmed and lower-cased; empty entries are dropped and each word is kept
/// once.
pub fn parse_stopwords(content: &str) -> (r: Vec<String>)
    ensures
        views(r@) == stopword_list(pieces_of(content@)),
{
    let cs = chars_of(content);
    let mut r: Vec<String> = Vec::new();
    let mut start: usize = 0;
    let mut i: usize = 0;
    let ghost mut done: Seq<Seq<char>> = Seq::empty();
    while i < cs.len()
        invariant
            start <= i <= cs.len(),
            cs@ == content@,
            scan_pieces(cs@.take(i as int)) == (done, cs@.subrange(start as int, i as int)),
            views(r@) == stopword_list(done),
        decreases cs.len() - i,
    {
        assert(cs@.take(i + 1).drop_last() == cs@.take(i as int));
        if is_separator(cs[i]) {
            let piece = content.substring_char(start, i);
            add_stopword(&mut r, piece);
            proof {
                assert(done.push(piece@).drop_last() == done);
                done = done.push(piece@);
            }
            start = i + 1;
        } else {
            assert(cs@.subrange(start as int, i + 1) == cs@.subrange(start as int, i as int).push(
                cs[i as int],
            ));
        }
        i = i + 1;
    }
    assert(cs@.take(cs.len() as int) == cs@);
    let piece = content.substring_char(start, cs.len());
    add_stopword(&mut r, piece);
    assert(done.push(piece@).drop_last() == done);
    r
}

} // verus!
