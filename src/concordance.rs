//! The line store, its inverted index and the keyword-in-context search.

use vstd::prelude::*;
use vstd::string::StringExecFns;

use crate::index::WordIndex;
use crate::text::{
    chars_of, find_first, first_match, lemma_first_from_occurs, lower_of, lowercase, normal_form,
    normalize_word, split_words, views, words_of,
};

verus! {

/// The line number `n`, once for each of `toks` whose normal form is `w`.
pub open spec fn line_hits(toks: Seq<Seq<char>>, w: Seq<char>, n: usize) -> Seq<usize>
    decreases toks.len(),
{
    if toks.len() == 0 {
        Seq::empty()
    } else if normal_form(toks.last()) == w {
        line_hits(toks.drop_last(), w, n).push(n)
    } else {
        line_hits(toks.drop_last(), w, n)
    }
}

/// The line numbers the index holds for `w` after `lines` were added: line
/// by line, once for each word of the line whose normal form is `w`.
pub open spec fn postings(lines: Seq<Seq<char>>, w: Seq<char>) -> Seq<usize>
    decreases lines.len(),
{
    if lines.len() == 0 {
        Seq::empty()
    } else {
        postings(lines.drop_last(), w) + line_hits(
            words_of(lines.last()),
            w,
            (lines.len() - 1) as usize,
        )
    }
}

/// The index over `lines`, with the words `toks` of line `n` recorded on top.
pub open spec fn partial_index(lines: Seq<Seq<char>>, toks: Seq<Seq<char>>, n: usize) -> Map<
    Seq<char>,
    Seq<usize>,
> {
    Map::new(
        |w: Seq<char>| (postings(lines, w) + line_hits(toks, w, n)).len() > 0,
        |w: Seq<char>| postings(lines, w) + line_hits(toks, w, n),
    )
}

/// The inverted index of `lines`: every word that occurs, normalized, to the
/// line numbers it occurs on.
pub open spec fn index_of(lines: Seq<Seq<char>>) -> Map<Seq<char>, Seq<usize>> {
    partial_index(lines, Seq::empty(), 0)
}

proof fn lemma_line_hits_values(toks: Seq<Seq<char>>, w: Seq<char>, n: usize)
    ensures
        forall|i: int| 0 <= i < line_hits(toks, w, n).len() ==> line_hits(toks, w, n)[i] == n,
    decreases toks.len(),
{
    if toks.len() > 0 {
        let prev = line_hits(toks.drop_last(), w, n);
        lemma_line_hits_values(toks.drop_last(), w, n);
        assert forall|i: int| 0 <= i < line_hits(toks, w, n).len() implies line_hits(
            toks,
            w,
            n,
        )[i] == n by {
            if i < prev.len() {
                assert(line_hits(toks, w, n)[i] == prev[i]);
            }
        }
    }
}

/// Every line number that the index holds is a line of the store.
pub proof fn lemma_postings_in_range(lines: Seq<Seq<char>>, w: Seq<char>)
    requires
        lines.len() <= usize::MAX,
    ensures
        forall|i: int|
            0 <= i < postings(lines, w).len() ==> postings(lines, w)[i] < lines.len(),
    decreases lines.len(),
{
    if lines.len() > 0 {
        let prev = postings(lines.drop_last(), w);
        let hits = line_hits(words_of(lines.last()), w, (lines.len() - 1) as usize);
        lemma_postings_in_range(lines.drop_last(), w);
        lemma_line_hits_values(words_of(lines.last()), w, (lines.len() - 1) as usize);
        assert forall|i: int| 0 <= i < postings(lines, w).len() implies postings(lines, w)[i]
            < lines.len() by {
            if i < prev.len() {
                assert(postings(lines, w)[i] == prev[i]);
            } else {
                assert(postings(lines, w)[i] == hits[i - prev.len()]);
            }
        }
    }
}

/// Adding texts one by one to an empty store: after `n` additions the store
/// holds `n` lines, and line `i` is the `i`-th text added, unchanged.
/// `stores[k]` is the store after `k` additions, `texts[k]` the text added
/// next.
pub proof fn lemma_lines_record_additions(stores: Seq<KwicSystem>, texts: Seq<String>)
    requires
        stores.len() == texts.len() + 1,
        stores[0].lines@.len() == 0,
        forall|k: int|
            0 <= k < texts.len() ==> #[trigger] views(stores[k + 1].lines@) == views(
                stores[k].lines@,
            ).push(texts[k]@),
    ensures
        stores.last().lines@.len() == texts.len(),
        forall|i: int| 0 <= i < texts.len() ==> stores.last().lines@[i]@ == texts[i]@,
{
    assert forall|k: int| 0 <= k <= texts.len() implies #[trigger] views(stores[k].lines@)
        == views(texts.take(k)) by {
        lemma_lines_prefix(stores, texts, k);
    }
    let last = stores.last().lines@;
    assert(views(last) == views(texts.take(texts.len() as int)));
    assert(texts.take(texts.len() as int) == texts);
    assert(views(last).len() == last.len());
    assert forall|i: int| 0 <= i < texts.len() implies stores.last().lines@[i]@ == texts[i]@ by {
        assert(views(last)[i] == views(texts)[i]);
        assert(views(last)[i] == last[i]@);
        assert(views(texts)[i] == texts[i]@);
    }
}

proof fn lemma_lines_prefix(stores: Seq<KwicSystem>, texts: Seq<String>, k: int)
    requires
        stores.len() == texts.len() + 1,
        stores[0].lines@.len() == 0,
        forall|k: int|
            0 <= k < texts.len() ==> #[trigger] views(stores[k + 1].lines@) == views(
                stores[k].lines@,
            ).push(texts[k]@),
        0 <= k <= texts.len(),
    ensures
        views(stores[k].lines@) == views(texts.take(k)),
    decreases k,
{
    if k == 0 {
        assert(views(stores[0].lines@) =~= views(texts.take(0)));
    } else {
        lemma_lines_prefix(stores, texts, k - 1);
        assert(views(stores[k].lines@) == views(stores[k - 1].lines@).push(texts[k - 1]@));
        assert(views(texts.take(k)) =~= views(texts.take(k - 1)).push(texts[k - 1]@));
    }
}

proof fn lemma_line_hits_absent(toks: Seq<Seq<char>>, w: Seq<char>, n: usize)
    requires
        forall|j: int| 0 <= j < toks.len() ==> normal_form(#[trigger] toks[j]) != w,
    ensures
        line_hits(toks, w, n).len() == 0,
    decreases toks.len(),
{
    if toks.len() > 0 {
        assert(normal_form(toks[toks.len() - 1]) != w);
        lemma_line_hits_absent(toks.drop_last(), w, n);
    }
}

/// A keyword whose normal form is the normal form of no word of any line
/// is found nowhere: the search gives no results.
pub proof fn lemma_absent_keyword_not_found(lines: Seq<Seq<char>>, key: Seq<char>)
    requires
        forall|i: int, j: int|
            0 <= i < lines.len() && 0 <= j < words_of(lines[i]).len() ==> normal_form(
                #[trigger] words_of(lines[i])[j],
            ) != normal_form(key),
    ensures
        search_results(lines, key) == Seq::<KwicModel>::empty(),
{
    let q = normal_form(key);
    lemma_postings_absent(lines, q);
}

proof fn lemma_postings_absent(lines: Seq<Seq<char>>, q: Seq<char>)
    requires
        forall|i: int, j: int|
            0 <= i < lines.len() && 0 <= j < words_of(lines[i]).len() ==> normal_form(
                #[trigger] words_of(lines[i])[j],
            ) != q,
    ensures
        postings(lines, q).len() == 0,
    decreases lines.len(),
{
    if lines.len() > 0 {
        let last = lines.len() - 1;
        assert forall|j: int| 0 <= j < words_of(lines.last()).len() implies normal_form(
            #[trigger] words_of(lines.last())[j],
        ) != q by {
            assert(words_of(lines[last])[j] == words_of(lines.last())[j]);
        }
        lemma_line_hits_absent(words_of(lines.last()), q, last as usize);
        assert forall|i: int, j: int|
            0 <= i < lines.drop_last().len() && 0 <= j < words_of(lines.drop_last()[i]).len()
                implies normal_form(#[trigger] words_of(lines.drop_last()[i])[j]) != q by {
            assert(lines.drop_last()[i] == lines[i]);
        }
        lemma_postings_absent(lines.drop_last(), q);
    }
}

/// What a search result holds.
pub struct KwicModel {
    pub n_line: usize,
    pub key_word: Seq<char>,
    pub right_context: Seq<char>,
    pub left_context: Seq<char>,
    pub line: Seq<char>,
}

/// The matches of `key`, normalized to `q`, on the lines `ns`, in that order:
/// each line is lower-cased and cut at the first occurrence of `q`; a line
/// where `q` does not occur gives nothing.
pub open spec fn excerpts(lines: Seq<Seq<char>>, ns: Seq<usize>, key: Seq<char>, q: Seq<char>) -> Seq<
    KwicModel,
>
    decreases ns.len(),
{
    if ns.len() == 0 {
        Seq::empty()
    } else {
        let prev = excerpts(lines, ns.drop_last(), key, q);
        let n = ns.last();
        let low = lower_of(lines[n as int]);
        match first_match(low, q) {
            Some(p) => prev.push(
                KwicModel {
                    n_line: n,
                    key_word: key,
                    right_context: low.subrange(p + q.len(), low.len() as int),
                    left_context: low.take(p),
                    line: lines[n as int],
                },
            ),
            None => prev,
        }
    }
}

/// The results of searching `key` among `lines`.
pub open spec fn search_results(lines: Seq<Seq<char>>, key: Seq<char>) -> Seq<KwicModel> {
    excerpts(lines, postings(lines, normal_form(key)), key, normal_form(key))
}

/// One keyword found on one line, with the lower-cased text around it.
#[derive(Debug, PartialEq)]
pub struct KwicResult {
    pub n_line: usize,
    pub key_word: String,
    pub right_context: String,
    pub left_context: String,
    pub line: String,
}

impl View for KwicResult {
    type V = KwicModel;

    open spec fn view(&self) -> KwicModel {
        KwicModel {
            n_line: self.n_line,
            key_word: self.key_word@,
            right_context: self.right_context@,
            left_context: self.left_context@,
            line: self.line@,
        }
    }
}

impl KwicResult {
    /// The concordance line of this result:
    /// `"<keyword>: <keyword> **<right context>** <left context>"`.
    pub fn to_display_string(&self) -> (r: String)
        ensures
            r@ == self.key_word@ + ": "@ + self.key_word@ + " **"@ + self.right_context@
                + "** "@ + self.left_context@,
    {
        let mut r = self.key_word.clone();
        r.append(": ");
        r.append(self.key_word.as_str());
        r.append(" **");
        r.append(self.right_context.as_str());
        r.append("** ");
        r.append(self.left_context.as_str());
        r
    }
}

/// The views of a sequence of results.
pub open spec fn result_views(v: Seq<KwicResult>) -> Seq<KwicModel> {
    v.map_values(|r: KwicResult| r@)
}

/// The lines of text and the inverted index of their words.
pub struct KwicSystem {
    pub lines: Vec<String>,
    pub pos_index: WordIndex,
}

impl KwicSystem {
    /// The index is the inverted index of the lines.
    pub open spec fn wf(&self) -> bool {
        &&& self.pos_index.wf()
        &&& self.pos_index@ == index_of(views(self.lines@))
    }

    /// An empty store.
    pub fn new() -> (r: KwicSystem)
        ensures
            r.wf(),
            r.lines@.len() == 0,
            r.pos_index@ == Map::<Seq<char>, Seq<usize>>::empty(),
    {
        let r = KwicSystem { lines: Vec::new(), pos_index: WordIndex::new() };
        assert(r.pos_index@ =~= index_of(views(r.lines@)));
        r
    }

    /// Adds a line at the next line number and indexes its words. The line
    /// must not be empty.
    pub fn add_line(&mut self, linha: String)
        requires
            old(self).wf(),
            linha@.len() > 0,
        ensures
            final(self).wf(),
            views(final(self).lines@) == views(old(self).lines@).push(linha@),
            final(self).lines@ == old(self).lines@.push(linha),
    {
        let index = self.lines.len();
        let ghost before = views(self.lines@);
        self.lines.push(linha.clone());
        assert(views(self.lines@) == before.push(linha@));
        assert(views(self.lines@).drop_last() == before);
        self.index_line_words(&linha, index);
    }

    /// Records each word of `linha`, the last line of the store, in the
    /// index under its normal form.
    fn index_line_words(&mut self, linha: &str, indice: usize)
        requires
            old(self).pos_index.wf(),
            indice + 1 == old(self).lines.len(),
            views(old(self).lines@).last() == linha@,
            old(self).pos_index@ == index_of(views(old(self).lines@).drop_last()),
        ensures
            final(self).wf(),
            final(self).lines == old(self).lines,
    {
        let ghost all = views(self.lines@);
        let ghost prior = all.drop_last();
        let ghost toks = words_of(linha@);
        let parsed_line = split_words(linha);
        assert(self.pos_index@ =~= partial_index(prior, toks.take(0), indice)) by {
            assert forall|w: Seq<char>| #[trigger] postings(prior, w) + line_hits(toks.take(0), w, indice)
                == postings(prior, w) + line_hits(Seq::empty(), w, 0) by {
                assert(toks.take(0) =~= Seq::<Seq<char>>::empty());
            }
        }
        let mut k: usize = 0;
        while k < parsed_line.len()
            invariant
                k <= parsed_line.len(),
                views(parsed_line@) == toks,
                self.lines == old(self).lines,
                self.pos_index.wf(),
                self.pos_index@ == partial_index(prior, toks.take(k as int), indice),
            decreases parsed_line.len() - k,
        {
            let lower = normalize_word(parsed_line[k].as_str());
            assert(parsed_line@[k as int]@ == toks[k as int]);
            let ghost key = lower@;
            let ghost before = self.pos_index@;
            self.pos_index.record(lower, indice);
            assert(toks.take(k + 1).drop_last() == toks.take(k as int));
            assert forall|w: Seq<char>| #[trigger]
                line_hits(toks.take(k + 1), w, indice) == if w == key {
                    line_hits(toks.take(k as int), w, indice).push(indice)
                } else {
                    line_hits(toks.take(k as int), w, indice)
                } by {}
            assert(postings(prior, key) + line_hits(toks.take(k as int), key, indice).push(indice)
                =~= (postings(prior, key) + line_hits(toks.take(k as int), key, indice)).push(
                indice,
            ));
            proof {
                if !before.contains_key(key) {
                    assert((postings(prior, key) + line_hits(toks.take(k as int), key, indice)).push(
                        indice,
                    ) =~= seq![indice]);
                }
            }
            assert(self.pos_index@ =~= partial_index(prior, toks.take(k + 1), indice));
            k = k + 1;
        }
        assert(toks.take(toks.len() as int) == toks);
        assert(all == prior.push(linha@));
        assert forall|w: Seq<char>| #[trigger] postings(all, w) == postings(prior, w) + line_hits(
            toks,
            w,
            indice,
        ) by {
            assert(all.drop_last() == prior);
        }
        assert(self.pos_index@ =~= index_of(all));
    }

    /// The normal form of a word: lower-cased, letters only.
    pub fn normalize(&self, palavra: &str) -> (r: String)
        ensures
            r@ == normal_form(palavra@),
    {
        normalize_word(palavra)
    }

    /// Every line that the index records for the normal form of `palavra`,
    /// in index order, cut at the first occurrence of that form in the
    /// lower-cased line. The query must not be empty.
    pub fn search_keyword(&mut self, palavra: &str) -> (r: Vec<KwicResult>)
        requires
            old(self).wf(),
            palavra@.len() > 0,
        ensures
            *final(self) == *old(self),
            result_views(r@) == search_results(views(old(self).lines@), palavra@),
    {
        let ghost lines = views(self.lines@);
        let ghost q = normal_form(palavra@);
        let normalized = self.normalize(palavra);
        let index_lines = match self.pos_index.lookup(&normalized) {
            Some(indices) => indices,
            None => {
                assert(postings(lines, q).len() == 0);
                assert(result_views(Seq::empty()) =~= Seq::<KwicModel>::empty());
                return Vec::new();
            },
        };
        let count = self.lines.len();
        proof {
            assert(lines.len() == count);
            lemma_postings_in_range(lines, q);
        }
        let needle = chars_of(normalized.as_str());
        let mut resultado = Vec::<KwicResult>::new();
        let mut i: usize = 0;
        while i < index_lines.len()
            invariant
                i <= index_lines.len(),
                index_lines@ == postings(lines, q),
                lines == views(self.lines@),
                needle@ == q,
                normalized@ == q,
                forall|j: int| 0 <= j < index_lines.len() ==> index_lines@[j] < lines.len(),
                result_views(resultado@) == excerpts(
                    lines,
                    index_lines@.take(i as int),
                    palavra@,
                    q,
                ),
            decreases index_lines.len() - i,
        {
            let index = index_lines[i];
            assert(index_lines@.take(i + 1).drop_last() == index_lines@.take(i as int));
            let line = &self.lines[index];
            assert(line@ == lines[index as int]);
            let line_lower = lowercase(line.as_str());
            let hay = chars_of(line_lower.as_str());
            let hay_len = hay.len();
            if let Some(pos) = find_first(&hay, &needle) {
                proof {
                    lemma_first_from_occurs(hay@, q, 0);
                }
                let left_context = line_lower.as_str().substring_char(0, pos);
                let right_context = line_lower.as_str().substring_char(
                    pos + needle.len(),
                    hay_len,
                );
                let individual_kwic = KwicResult {
                    n_line: index,
                    key_word: palavra.to_string(),
                    right_context: right_context.to_string(),
                    left_context: left_context.to_string(),
                    line: line.clone(),
                };
                proof {
                    assert(result_views(resultado@.push(individual_kwic)) =~= result_views(
                        resultado@,
                    ).push(individual_kwic@));
                    assert(hay@.subrange(0, pos as int) =~= hay@.take(pos as int));
                }
                resultado.push(individual_kwic);
            }
            i = i + 1;
        }
        assert(index_lines@.take(index_lines.len() as int) == index_lines@);
        resultado
    }

    /// How many lines the store holds.
    pub fn line_count(&self) -> (r: usize)
        ensures
            r == self.lines@.len(),
    {
        self.lines.len()
    }

    /// The text of line `n`, as it was added.
    pub fn line_at(&self, n: usize) -> (r: &String)
        requires
            n < self.lines@.len(),
        ensures
            *r == self.lines@[n as int],
    {
        &self.lines[n]
    }
}

} // verus!
