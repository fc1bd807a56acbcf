use vstd::prelude::*;
use crate::data::quran::{find_verse, QuranText, VerseModel};
use crate::lang::text::{clone_words, strs};
use crate::search::scoring::ScoredDocument;

verus! {

/// A search result with verse text and highlights. `position` is the place
/// of its document in the list that the results were made from.
#[derive(Debug)]
pub struct SearchResult {
    pub sura: u16,
    pub aya: u16,
    pub text: String,
    pub position: usize,
    pub highlights: Vec<String>,
}

/// A search result as plain values.
pub ghost struct ResultModel {
    pub sura: u16,
    pub aya: u16,
    pub text: Seq<char>,
    pub position: nat,
    pub highlights: Seq<Seq<char>>,
}

impl View for SearchResult {
    type V = ResultModel;

    open spec fn view(&self) -> ResultModel {
        ResultModel {
            sura: self.sura,
            aya: self.aya,
            text: self.text@,
            position: self.position as nat,
            highlights: strs(self.highlights@),
        }
    }
}

/// The results for the first `n` documents: one for each document whose
/// verse the text holds, with the text of the verse and the matched words.
pub open spec fn results_of(docs: Seq<ScoredDocument>, q: Seq<VerseModel>, n: nat) -> Seq<
    ResultModel,
>
    decreases n,
{
    if n == 0 || n > docs.len() {
        Seq::empty()
    } else {
        let rest = results_of(docs, q, (n - 1) as nat);
        let d = docs[n - 1];
        match find_verse(q, d.sura, d.aya) {
            Some(i) => rest.push(
                ResultModel {
                    sura: d.sura,
                    aya: d.aya,
                    text: q[i].text,
                    position: (n - 1) as nat,
                    highlights: strs(d.matched_words@),
                },
            ),
            None => rest,
        }
    }
}

/// The lesser of the limit and the number of documents.
pub open spec fn taken(len: nat, limit: nat) -> nat {
    if limit < len {
        limit
    } else {
        len
    }
}

/// Format the first `limit` documents, in the order given, into search
/// results with verse text.
pub fn format_results(scored: &Vec<ScoredDocument>, quran: &QuranText, limit: usize) -> (r: Vec<
    SearchResult,
>)
    requires
        quran.wf(),
    ensures
        r@.map_values(|x: SearchResult| x@) == results_of(
            scored@,
            quran@,
            taken(scored@.len(), limit as nat),
        ),
{
    let n = if limit < scored.len() {
        limit
    } else {
        scored.len()
    };
    let mut out: Vec<SearchResult> = Vec::new();
    let mut i: usize = 0;
    assert(out@.map_values(|x: SearchResult| x@) =~= Seq::<ResultModel>::empty());
    while i < n
        invariant
            i <= n <= scored.len(),
            quran.wf(),
            out@.map_values(|x: SearchResult| x@) == results_of(scored@, quran@, i as nat),
        decreases n - i,
    {
        let doc = &scored[i];
        match quran.get(doc.sura, doc.aya) {
            Some(verse) => {
                let highlights = clone_words(&doc.matched_words);
                let ghost before = out@;
                let res = SearchResult {
                    sura: doc.sura,
                    aya: doc.aya,
                    text: verse.text.clone(),
                    position: i,
                    highlights,
                };
                out.push(res);
                assert(out@.map_values(|x: SearchResult| x@) =~= before.map_values(
                    |x: SearchResult| x@,
                ).push(res@));
            },
            None => {},
        }
        i += 1;
    }
    out
}

} // verus!
