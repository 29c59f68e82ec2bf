//! The inverted index: each normalized word to the line numbers it was seen
//! on, in the order the words were recorded.

use vstd::prelude::*;

verus! {

/// One word of the index and the line numbers recorded for it.
struct Posting {
    word: String,
    lines: Vec<usize>,
}

/// A map from words to sequences of line numbers. A word is present once it
/// has been recorded at least once.
pub struct WordIndex {
    entries: Vec<Posting>,
    model: Ghost<Map<Seq<char>, Seq<usize>>>,
}

impl View for WordIndex {
    type V = Map<Seq<char>, Seq<usize>>;

    closed spec fn view(&self) -> Map<Seq<char>, Seq<usize>> {
        self.model@
    }
}

impl WordIndex {
    /// Each word has one entry, and the entries are exactly the model.
    pub closed spec fn wf(&self) -> bool {
        &&& forall|i: int, j: int|
            0 <= i < j < self.entries.len() ==> self.entries@[i].word@ != self.entries@[j].word@
        &&& forall|i: int|
            0 <= i < self.entries.len() ==> #[trigger] self.model@.contains_key(
                self.entries@[i].word@,
            ) && self.model@[self.entries@[i].word@] == self.entries@[i].lines@
        &&& forall|w: Seq<char>| #[trigger]
            self.model@.contains_key(w) ==> exists|i: int|
                0 <= i < self.entries.len() && self.entries@[i].word@ == w
    }

    /// An index with no words.
    pub fn new() -> (r: WordIndex)
        ensures
            r.wf(),
            r@ == Map::<Seq<char>, Seq<usize>>::empty(),
    {
        WordIndex { entries: Vec::new(), model: Ghost(Map::empty()) }
    }

    /// The position of `word` among the entries, if it has one.
    fn position(&self, word: &String) -> (r: Option<usize>)
        requires
            self.wf(),
        ensures
            match r {
                Some(i) => i < self.entries.len() && self.entries@[i as int].word@ == word@,
                None => !self@.contains_key(word@),
            },
    {
        let mut i: usize = 0;
        while i < self.entries.len()
            invariant
                i <= self.entries.len(),
                forall|k: int| 0 <= k < i ==> self.entries@[k].word@ != word@,
            decreases self.entries.len() - i,
        {
            if self.entries[i].word == *word {
                return Some(i);
            }
            i = i + 1;
        }
        None
    }

    /// The line numbers recorded for `word`, or `None` if it was never
    /// recorded.
    pub fn lookup(&self, word: &String) -> (r: Option<&Vec<usize>>)
        requires
            self.wf(),
        ensures
            match r {
                Some(v) => self@.contains_key(word@) && v@ == self@[word@],
                None => !self@.contains_key(word@),
            },
    {
        match self.position(word) {
            Some(i) => {
                assert(self.model@.contains_key(self.entries@[i as int].word@));
                Some(&self.entries[i].lines)
            },
            None => None,
        }
    }

    /// The line numbers recorded for `word`, or `None` if it was never
    /// recorded.
    pub fn get(&self, word: &str) -> (r: Option<&Vec<usize>>)
        requires
            self.wf(),
        ensures
            match r {
                Some(v) => self@.contains_key(word@) && v@ == self@[word@],
                None => !self@.contains_key(word@),
            },
    {
        let key = word.to_string();
        self.lookup(&key)
    }

    /// Records that `word` was seen on line `n`: `n` goes at the end of the
    /// word's sequence, which is created if the word is new.
    pub fn record(&mut self, word: String, n: usize)
        requires
            old(self).wf(),
        ensures
            final(self).wf(),
            final(self)@ == old(self)@.insert(
                word@,
                if old(self)@.contains_key(word@) {
                    old(self)@[word@].push(n)
                } else {
                    seq![n]
                },
            ),
    {
        let ghost w = word@;
        match self.position(&word) {
            Some(i) => {
                let ghost old_lines = self.entries@[i as int].lines@;
                let mut entry = self.entries.remove(i);
                entry.lines.push(n);
                self.entries.insert(i, entry);
                self.model = Ghost(self.model@.insert(w, old_lines.push(n)));
                assert forall|k: int| 0 <= k < self.entries.len() implies #[trigger] self.model@.contains_key(
                    self.entries@[k].word@) && self.model@[self.entries@[k].word@] == self.entries@[k].lines@ by {
                    assert(old(self).model@.contains_key(old(self).entries@[k].word@));
                }
                assert forall|w2: Seq<char>| #[trigger]
                    self.model@.contains_key(w2) implies exists|k: int|
                        0 <= k < self.entries.len() && self.entries@[k].word@ == w2 by {
                    if w2 != w {
                        let k = choose|k: int|
                            0 <= k < old(self).entries.len() && old(self).entries@[k].word@ == w2;
                        assert(self.entries@[k].word@ == w2);
                    } else {
                        assert(self.entries@[i as int].word@ == w2);
                    }
                }
            },
            None => {
                let mut lines: Vec<usize> = Vec::new();
                lines.push(n);
                let len = self.entries.len();
                self.entries.push(Posting { word, lines });
                self.model = Ghost(self.model@.insert(w, seq![n]));
                assert forall|k: int| 0 <= k < self.entries.len() implies #[trigger] self.model@.contains_key(
                    self.entries@[k].word@) && self.model@[self.entries@[k].word@] == self.entries@[k].lines@ by {
                    if k < len {
                        assert(old(self).model@.contains_key(old(self).entries@[k].word@));
                    }
                }
                assert forall|w2: Seq<char>| #[trigger]
                    self.model@.contains_key(w2) implies exists|k: int|
                        0 <= k < self.entries.len() && self.entries@[k].word@ == w2 by {
                    if w2 != w {
                        let k = choose|k: int|
                            0 <= k < old(self).entries.len() && old(self).entries@[k].word@ == w2;
                        assert(self.entries@[k].word@ == w2);
                    } else {
                        assert(self.entries@[len as int].word@ == w2);
                    }
                }
            },
        }
    }
}

} // verus!
