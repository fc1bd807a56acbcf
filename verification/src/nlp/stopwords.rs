use vstd::prelude::*;
use crate::data::table::Table;
use crate::lang::text::{lines, lines_of, seqs, skip_leading, string_of_range, to_chars, trim_by, trim_start, trimmed, CharClass};

verus! {

/// A set of stop words: the keys of a table.
#[derive(Debug)]
pub struct StopWords {
    pub words: Table<()>,
}

/// The word that a line of a stop-word file holds: the line without white
/// space at its ends and without byte-order marks at its start.
pub open spec fn stop_word_of_line(l: Seq<char>) -> Seq<char> {
    trim_start(trimmed(l, CharClass::Space), CharClass::Exactly('\u{FEFF}'))
}

/// The words of the given lines; a line that holds none gives none.
pub open spec fn stop_words_of(ls: Seq<Seq<char>>) -> Set<Seq<char>>
    decreases ls.len(),
{
    if ls.len() == 0 {
        Set::empty()
    } else {
        let rest = stop_words_of(ls.drop_last());
        let w = stop_word_of_line(ls.last());
        if w.len() > 0 {
            rest.insert(w)
        } else {
            rest
        }
    }
}

/// The given words without those of the stop set, in order.
pub open spec fn without_stop_words(words: Seq<&str>, stop: Set<Seq<char>>) -> Seq<&str>
    decreases words.len(),
{
    if words.len() == 0 {
        Seq::empty()
    } else {
        let rest = without_stop_words(words.drop_last(), stop);
        if stop.contains(words.last()@) {
            rest
        } else {
            rest.push(words.last())
        }
    }
}

impl View for StopWords {
    type V = Set<Seq<char>>;

    open spec fn view(&self) -> Set<Seq<char>> {
        self.words.key_seq().to_set()
    }
}

impl StopWords {
    pub open spec fn wf(&self) -> bool {
        self.words.wf()
    }

    /// The empty set of stop words.
    pub fn new() -> (r: StopWords)
        ensures
            r.wf(),
            r@ == Set::<Seq<char>>::empty(),
    {
        let r = StopWords { words: Table::new() };
        assert(r@ =~= Set::<Seq<char>>::empty());
        r
    }

    /// Parse from string content (one word per line).
    pub fn from_str(content: &str) -> (r: StopWords)
        ensures
            r.wf(),
            r@ == stop_words_of(lines_of(content@)),
    {
        let chars = to_chars(content);
        let ls = lines(&chars);
        let mut words: Table<()> = Table::new();
        let mut i: usize = 0;
        assert(seqs(ls@).take(0) =~= Seq::<Seq<char>>::empty());
        assert(words.key_seq().to_set() =~= Set::<Seq<char>>::empty());
        while i < ls.len()
            invariant
                i <= ls.len(),
                words.wf(),
                words.key_seq().to_set() == stop_words_of(seqs(ls@).take(i as int)),
            decreases ls.len() - i,
        {
            proof {
                assert(seqs(ls@).take(i + 1).drop_last() =~= seqs(ls@).take(i as int));
                assert(seqs(ls@).take(i + 1).last() == ls@[i as int]@);
            }
            let t = trim_by(&ls[i], CharClass::Space);
            let lo = skip_leading(&t, CharClass::Exactly('\u{FEFF}'));
            let w = string_of_range(&t, lo, t.len());
            assert(t@.subrange(lo as int, t.len() as int) =~= t@.skip(lo as int));
            if lo < t.len() {
                if words.position(&w).is_none() {
                    let ghost before = words.key_seq();
                    let ghost key = w@;
                    words.push_entry(w, ());
                    proof {
                        before.lemma_push_to_set_commute(key);
                    }
                } else {
                    assert(words.key_seq().to_set().insert(w@) =~= words.key_seq().to_set());
                }
            }
            i += 1;
        }
        assert(seqs(ls@).take(ls.len() as int) =~= seqs(ls@));
        StopWords { words }
    }

    /// Check if a word is a stop word.
    pub fn contains(&self, word: &str) -> (b: bool)
        requires
            self.wf(),
        ensures
            b == self@.contains(word@),
    {
        let w = word.to_owned();
        self.words.position(&w).is_some()
    }

    /// Filter stop words from a list of words.
    pub fn filter<'a>(&self, words: &[&'a str]) -> (r: Vec<&'a str>)
        requires
            self.wf(),
        ensures
            r@ == without_stop_words(words@, self@),
    {
        let mut r: Vec<&'a str> = Vec::new();
        let mut i: usize = 0;
        assert(words@.take(0) =~= Seq::<&str>::empty());
        while i < words.len()
            invariant
                i <= words.len(),
                self.wf(),
                r@ == without_stop_words(words@.take(i as int), self@),
            decreases words.len() - i,
        {
            assert(words@.take(i + 1).drop_last() =~= words@.take(i as int));
            if !self.contains(words[i]) {
                r.push(words[i]);
            }
            i += 1;
        }
        assert(words@.take(words.len() as int) =~= words@);
        r
    }

    /// Number of stop words loaded.
    pub fn len(&self) -> (n: usize)
        requires
            self.wf(),
        ensures
            n == self@.len(),
    {
        proof {
            self.words.key_seq().unique_seq_to_set();
        }
        self.words.len()
    }

    pub fn is_empty(&self) -> (b: bool)
        ensures
            b == (self@ == Set::<Seq<char>>::empty()),
    {
        let b = self.words.len() == 0;
        proof {
            if b {
                assert(self@ =~= Set::<Seq<char>>::empty());
            } else {
                assert(self.words.key_seq()[0] == self.words.keys@[0]@);
                assert(self@.contains(self.words.keys@[0]@));
            }
        }
        b
    }
}

} // verus!
