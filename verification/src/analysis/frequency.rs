use vstd::prelude::*;
use crate::data::quran::{QuranText, VerseModel};
use crate::lang::arabic::{normalize_arabic, normalize_chars, normalized};
use crate::lang::text::{same_chars, seqs, split_whitespace, strs, to_chars, words};
use crate::nlp::stopwords::StopWords;
use crate::search::index::{contains_pair, corpus_postings, documents_of, InvertedIndex};
use crate::search::scoring::count_documents;

verus! {

/// How often a word occurs, and in how many verses.
#[derive(Debug, Clone)]
pub struct WordFrequency {
    pub word: String,
    pub count: usize,
    pub verse_count: usize,
}

/// The verse of each token of the verse whose normal form is the target.
pub open spec fn verse_occurrences(v: VerseModel, toks: Seq<Seq<char>>, target: Seq<char>) -> Seq<
    (u16, u16),
>
    decreases toks.len(),
{
    if toks.len() == 0 {
        Seq::empty()
    } else if normalized(toks.last()) == target {
        verse_occurrences(v, toks.drop_last(), target).push((v.sura, v.aya))
    } else {
        verse_occurrences(v, toks.drop_last(), target)
    }
}

/// The verse of each token of the corpus whose normal form is the target.
pub open spec fn occurrences(vs: Seq<VerseModel>, target: Seq<char>) -> Seq<(u16, u16)>
    decreases vs.len(),
{
    if vs.len() == 0 {
        Seq::empty()
    } else {
        occurrences(vs.drop_last(), target) + verse_occurrences(
            vs.last(),
            words(vs.last().text),
            target,
        )
    }
}

/// Whether the entry counts the occurrences of its word in the corpus.
pub open spec fn counts_word(f: WordFrequency, vs: Seq<VerseModel>) -> bool {
    let p = corpus_postings(vs, Set::empty(), true, f.word@);
    f.count == p.len() && f.verse_count == documents_of(p).len()
}

/// Whether the counts fall or stay from entry to entry.
pub open spec fn falling(s: Seq<WordFrequency>) -> bool {
    forall|i: int, j: int| 0 <= i < j < s.len() ==> s[i].count >= s[j].count
}

/// The words of the entries.
pub open spec fn counted_words(s: Seq<WordFrequency>) -> Seq<Seq<char>> {
    s.map_values(|f: WordFrequency| f.word@)
}

/// Puts an entry into a falling list, behind the entries that count as much.
fn insert_frequency(list: &mut Vec<WordFrequency>, f: WordFrequency, Ghost(vs): Ghost<Seq<VerseModel>>)
    requires
        falling(old(list)@),
        counted_words(old(list)@).no_duplicates(),
        !counted_words(old(list)@).contains(f.word@),
        forall|k: int| 0 <= k < old(list)@.len() ==> counts_word(#[trigger] old(list)@[k], vs),
        counts_word(f, vs),
    ensures
        falling(final(list)@),
        counted_words(final(list)@).no_duplicates(),
        counted_words(final(list)@).to_set() == counted_words(old(list)@).to_set().insert(f.word@),
        forall|k: int| 0 <= k < final(list)@.len() ==> counts_word(#[trigger] final(list)@[k], vs),
{
    let mut i: usize = 0;
    while i < list.len() && list[i].count >= f.count
        invariant
            i <= list.len(),
            list@ == old(list)@,
            forall|k: int| 0 <= k < i ==> list@[k].count >= f.count,
        decreases list.len() - i,
    {
        i += 1;
    }
    let ghost before = list@;
    let ghost bw = counted_words(before);
    list.insert(i, f);
    proof {
        let after = list@;
        let aw = counted_words(after);
        assert(after == before.insert(i as int, f));
        assert forall|k: int| 0 <= k < after.len() implies #[trigger] after[k] == (if k < i {
            before[k]
        } else if k == i {
            f
        } else {
            before[k - 1]
        }) by {}
        assert forall|a: int, b: int| 0 <= a < b < after.len() implies after[a].count
            >= after[b].count by {
            let a0 = if a < i { a } else { a - 1 };
            let b0 = if b < i { b } else { b - 1 };
            if a != i && b != i {
                assert(after[a] == before[a0]);
                assert(after[b] == before[b0]);
            } else if a == i {
                assert(after[b] == before[b0]);
            } else {
                assert(after[a] == before[a0]);
            }
        }
        assert forall|a: int, b: int| 0 <= a < b < aw.len() implies aw[a] != aw[b] by {
            let a0 = if a < i { a } else { a - 1 };
            let b0 = if b < i { b } else { b - 1 };
            if a != i && b != i {
                assert(aw[a] == bw[a0]);
                assert(aw[b] == bw[b0]);
            } else if a == i {
                assert(aw[b] == bw[b0]);
                assert(bw.contains(bw[b0]));
            } else {
                assert(aw[a] == bw[a0]);
                assert(bw.contains(bw[a0]));
            }
        }
        assert(aw.to_set() =~= bw.to_set().insert(f.word@)) by {
            assert forall|x: Seq<char>| aw.to_set().contains(x) <==> bw.to_set().insert(
                f.word@,
            ).contains(x) by {
                if aw.contains(x) {
                    let k = choose|k: int| 0 <= k < aw.len() && aw[k] == x;
                    if k < i {
                        assert(bw[k] == x);
                    } else if k > i {
                        assert(bw[k - 1] == x);
                    }
                }
                if bw.contains(x) {
                    let k = choose|k: int| 0 <= k < bw.len() && bw[k] == x;
                    if k < i {
                        assert(aw[k] == x);
                    } else {
                        assert(aw[k + 1] == x);
                    }
                }
                if x == f.word@ {
                    assert(aw[i as int] == x);
                }
            }
        }
    }
}

/// Compute word frequencies across the entire text: one entry for each
/// normal form that occurs, with the number of its occurrences and of the
/// verses that hold it; the most frequent first.
pub fn word_frequencies(quran: &QuranText) -> (r: Vec<WordFrequency>)
    ensures
        falling(r@),
        counted_words(r@).no_duplicates(),
        forall|k: int| 0 <= k < r@.len() ==> counts_word(#[trigger] r@[k], quran@),
        forall|t: Seq<char>|
            counted_words(r@).contains(t) <==> (#[trigger] corpus_postings(
                quran@,
                Set::empty(),
                true,
                t,
            )).len() > 0,
{
    let none = StopWords::new();
    let index = InvertedIndex::build(quran, &none);
    let terms = index.terms_ref();
    let ghost tm = index.terms();
    let mut out: Vec<WordFrequency> = Vec::new();
    let mut i: usize = 0;
    assert(counted_words(out@).to_set() =~= tm.take(0).to_set());
    while i < terms.len()
        invariant
            i <= terms.len(),
            index.wf(),
            index.indexes(quran@, Set::empty(), true),
            strs(terms@) == tm,
            tm == index.terms(),
            falling(out@),
            counted_words(out@).no_duplicates(),
            counted_words(out@).to_set() == tm.take(i as int).to_set(),
            forall|k: int| 0 <= k < out@.len() ==> counts_word(#[trigger] out@[k], quran@),
        decreases terms.len() - i,
    {
        let t = &terms[i];
        proof {
            assert(tm[i as int] == t@);
            assert(tm.take(i + 1) =~= tm.take(i as int).push(t@));
            tm.take(i as int).lemma_push_to_set_commute(t@);
            if counted_words(out@).contains(t@) {
                assert(tm.take(i as int).to_set().contains(t@));
                let k = choose|k: int| 0 <= k < i && tm.take(i as int)[k] == t@;
                assert(tm[k] == tm[i as int]);
            }
            assert(index.table.list(t@) == corpus_postings(quran@, Set::empty(), true, t@));
        }
        let entries = index.lookup(t.as_str());
        let f = WordFrequency {
            word: t.clone(),
            count: entries.len(),
            verse_count: count_documents(entries),
        };
        insert_frequency(&mut out, f, Ghost(quran@));
        i += 1;
    }
    proof {
        assert(tm.take(terms.len() as int) =~= tm);
        assert forall|t: Seq<char>|
            counted_words(out@).contains(t) <==> (#[trigger] corpus_postings(
                quran@,
                Set::empty(),
                true,
                t,
            )).len() > 0 by {
            assert(index.table.list(t) == corpus_postings(quran@, Set::empty(), true, t));
            assert(counted_words(out@).to_set().contains(t) == tm.to_set().contains(t));
        }
    }
    out
}

/// Get the frequency of a specific word: how many tokens of the text have
/// the normal form of the word, and in how many verses; `None` if none has.
pub fn get_word_frequency(quran: &QuranText, word: &str) -> (r: Option<WordFrequency>)
    ensures
        match r {
            Some(f) => {
                &&& f.word@ == normalized(word@)
                &&& f.count == occurrences(quran@, normalized(word@)).len()
                &&& f.count > 0
                &&& f.verse_count == occurrences(quran@, normalized(word@)).to_set().len()
            },
            None => occurrences(quran@, normalized(word@)).len() == 0,
        },
{
    let target = normalize_arabic(word);
    let target_chars = to_chars(target.as_str());
    let mut occ: Vec<(u16, u16)> = Vec::new();
    let mut seen: Vec<(u16, u16)> = Vec::new();
    let mut i: usize = 0;
    assert(quran@.take(0) =~= Seq::<VerseModel>::empty());
    assert(seen@.to_set() =~= occ@.to_set());
    while i < quran.verses.len()
        invariant
            i <= quran.verses.len(),
            target_chars@ == normalized(word@),
            occ@ == occurrences(quran@.take(i as int), target_chars@),
            seen@.no_duplicates(),
            seen@.to_set() == occ@.to_set(),
        decreases quran.verses.len() - i,
    {
        let verse = &quran.verses[i];
        let ghost vm = verse@;
        let ghost done = occ@;
        let text = to_chars(verse.text.as_str());
        let toks = split_whitespace(&text);
        let ghost wt = words(vm.text);
        proof {
            assert(quran@.take(i + 1).drop_last() =~= quran@.take(i as int));
            assert(quran@.take(i + 1).last() == vm);
            assert(wt.take(0) =~= Seq::<Seq<char>>::empty());
            assert(done + Seq::<(u16, u16)>::empty() =~= done);
        }
        let mut j: usize = 0;
        while j < toks.len()
            invariant
                j <= toks.len(),
                seqs(toks@) == wt,
                vm.sura == verse.sura,
                vm.aya == verse.aya,
                occ@ == done + verse_occurrences(vm, wt.take(j as int), target_chars@),
                seen@.no_duplicates(),
                seen@.to_set() == occ@.to_set(),
            decreases toks.len() - j,
        {
            proof {
                assert(wt.take(j + 1).drop_last() =~= wt.take(j as int));
                assert(wt.take(j + 1).last() == toks@[j as int]@);
            }
            let n = normalize_chars(&toks[j]);
            if same_chars(&n, &target_chars) {
                let p = (verse.sura, verse.aya);
                let ghost before = occ@;
                let ghost part = verse_occurrences(vm, wt.take(j as int), target_chars@);
                occ.push(p);
                proof {
                    assert(occ@ =~= done + part.push(p));
                    before.lemma_push_to_set_commute(p);
                }
                if !contains_pair(&seen, p) {
                    let ghost sb = seen@;
                    seen.push(p);
                    proof {
                        sb.lemma_push_to_set_commute(p);
                    }
                } else {
                    assert(seen@.to_set().insert(p) =~= seen@.to_set());
                }
            }
            j += 1;
        }
        assert(wt.take(toks.len() as int) =~= wt);
        i += 1;
    }
    assert(quran@.take(quran.verses.len() as int) =~= quran@);
    if occ.len() > 0 {
        proof {
            seen@.unique_seq_to_set();
        }
        Some(WordFrequency { word: target, count: occ.len(), verse_count: seen.len() })
    } else {
        None
    }
}

} // verus!
