use vstd::prelude::*;
use crate::data::quran::{QuranText, VerseModel};
use crate::lang::arabic::{normalize_chars, normalized};
use crate::data::table::Table;
use crate::lang::text::{from_chars, seqs, split_whitespace, to_chars, words};

verus! {

/// Statistics about the corpus.
#[derive(Debug)]
pub struct CorpusStats {
    pub total_verses: usize,
    pub total_suras: u16,
    pub total_words: usize,
    pub total_chars: usize,
    pub unique_words: usize,
}

/// The greatest sura number of the verses; 0 where there is no verse.
pub open spec fn greatest_sura(vs: Seq<VerseModel>) -> u16
    decreases vs.len(),
{
    if vs.len() == 0 {
        0
    } else {
        let rest = greatest_sura(vs.drop_last());
        if vs.last().sura > rest {
            vs.last().sura
        } else {
            rest
        }
    }
}

/// The number of words of the verses.
pub open spec fn word_total(vs: Seq<VerseModel>) -> nat
    decreases vs.len(),
{
    if vs.len() == 0 {
        0
    } else {
        word_total(vs.drop_last()) + words(vs.last().text).len()
    }
}

/// The number of characters of the verses.
pub open spec fn char_total(vs: Seq<VerseModel>) -> nat
    decreases vs.len(),
{
    if vs.len() == 0 {
        0
    } else {
        char_total(vs.drop_last()) + vs.last().text.len()
    }
}

/// The normal forms of the given words.
pub open spec fn normal_forms(toks: Seq<Seq<char>>) -> Set<Seq<char>> {
    toks.map_values(|t: Seq<char>| normalized(t)).to_set()
}

/// The normal forms of the words of the verses.
pub open spec fn distinct_words(vs: Seq<VerseModel>) -> Set<Seq<char>>
    decreases vs.len(),
{
    if vs.len() == 0 {
        Set::empty()
    } else {
        distinct_words(vs.drop_last()).union(normal_forms(words(vs.last().text)))
    }
}

/// A count that the machine can hold: the number itself, or the greatest
/// number that fits.
pub open spec fn capped(n: nat) -> usize {
    if n <= usize::MAX {
        n as usize
    } else {
        usize::MAX
    }
}

/// Adds where the sum fits, else gives the greatest number.
fn add_capped(a: usize, b: usize, Ghost(total): Ghost<nat>) -> (r: usize)
    requires
        a == capped(total),
    ensures
        r == capped((total + b) as nat),
{
    if b <= usize::MAX - a {
        a + b
    } else {
        usize::MAX
    }
}

/// Compute corpus statistics.
pub fn corpus_stats(quran: &QuranText) -> (r: CorpusStats)
    ensures
        r.total_verses == quran@.len(),
        r.total_suras == greatest_sura(quran@),
        r.total_words == capped(word_total(quran@)),
        r.total_chars == capped(char_total(quran@)),
        r.unique_words == distinct_words(quran@).len(),
{
    let mut total_words: usize = 0;
    let mut total_chars: usize = 0;
    let mut max_sura: u16 = 0;
    let mut unique: Table<()> = Table::new();
    let mut i: usize = 0;
    assert(quran@.take(0) =~= Seq::<VerseModel>::empty());
    assert(unique.key_seq().to_set() =~= Set::<Seq<char>>::empty());
    while i < quran.verses.len()
        invariant
            i <= quran.verses.len(),
            max_sura == greatest_sura(quran@.take(i as int)),
            total_words == capped(word_total(quran@.take(i as int))),
            total_chars == capped(char_total(quran@.take(i as int))),
            unique.wf(),
            unique.key_seq().to_set() == distinct_words(quran@.take(i as int)),
        decreases quran.verses.len() - i,
    {
        let verse = &quran.verses[i];
        let ghost vm = verse@;
        let ghost done = quran@.take(i as int);
        proof {
            assert(quran@.take(i + 1).drop_last() =~= done);
            assert(quran@.take(i + 1).last() == vm);
        }
        let text = to_chars(verse.text.as_str());
        let toks = split_whitespace(&text);
        let ghost wt = words(vm.text);
        assert(seqs(toks@).len() == toks.len());
        total_words = add_capped(total_words, toks.len(), Ghost(word_total(done)));
        total_chars = add_capped(total_chars, text.len(), Ghost(char_total(done)));
        if verse.sura > max_sura {
            max_sura = verse.sura;
        }
        let ghost base = unique.key_seq().to_set();
        let ghost nf = wt.map_values(|t: Seq<char>| normalized(t));
        let mut j: usize = 0;
        assert(base.union(nf.take(0).to_set()) =~= base);
        while j < toks.len()
            invariant
                j <= toks.len(),
                seqs(toks@) == wt,
                nf == wt.map_values(|t: Seq<char>| normalized(t)),
                unique.wf(),
                unique.key_seq().to_set() == base.union(nf.take(j as int).to_set()),
            decreases toks.len() - j,
        {
            let n = normalize_chars(&toks[j]);
            let w = from_chars(&n);
            proof {
                assert(wt[j as int] == toks@[j as int]@);
                assert(nf.take(j + 1) =~= nf.take(j as int).push(w@));
                nf.take(j as int).lemma_push_to_set_commute(w@);
            }
            if unique.position(&w).is_none() {
                let ghost before = unique.key_seq();
                let ghost key = w@;
                unique.push_entry(w, ());
                proof {
                    before.lemma_push_to_set_commute(key);
                    assert(unique.key_seq().to_set() =~= base.union(nf.take(j + 1).to_set()));
                }
            } else {
                assert(unique.key_seq().to_set() =~= base.union(nf.take(j + 1).to_set()));
            }
            j += 1;
        }
        assert(nf.take(toks.len() as int) =~= nf);
        i += 1;
    }
    assert(quran@.take(quran.verses.len() as int) =~= quran@);
    proof {
        unique.key_seq().unique_seq_to_set();
    }
    CorpusStats {
        total_verses: quran.verses.len(),
        total_suras: max_sura,
        total_words,
        total_chars,
        unique_words: unique.len(),
    }
}

} // verus!
