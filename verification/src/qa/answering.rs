use vstd::prelude::*;
use crate::data::qac::{MorphModel, QacMorphology};
use crate::data::quran::{find_verse, QuranText, VerseModel};
use crate::lang::arabic::{has_arabic, is_arabic_chars, normalize_chars, normalized};
use crate::lang::text::{copy_range, from_chars, lowercase, lowercased, seqs, split_whitespace, starts_with, strs, to_chars, trim_by, trimmed, words, CharClass};
use crate::search::index::InvertedIndex;
use crate::search::query::{expand_by_roots, is_arabic_tag, roots_expansion, ROOT_WEIGHT};
use crate::search::scoring::{is_scoring, score_search_weighted, term_models, unit_terms, ScoredDocument, WeightedTerm, FULL_WEIGHT};

verus! {

/// Detected question type.
#[derive(Debug, Clone, Copy, PartialEq, Eq, Structural)]
pub enum QuestionType {
    Person,
    General,
    Quantity,
    Time,
}

/// An interrogative marker and the question type that it announces.
#[derive(Debug, Clone)]
pub struct QuestionPattern {
    pub marker: String,
    pub kind: QuestionType,
}

impl View for QuestionPattern {
    type V = (Seq<char>, QuestionType);

    open spec fn view(&self) -> (Seq<char>, QuestionType) {
        (self.marker@, self.kind)
    }
}

/// An answer to a question: a verse that the content words touch, with its
/// text and what its score is computed from.
#[derive(Debug)]
pub struct Answer {
    pub sura: u16,
    pub aya: u16,
    pub text: String,
    pub scored: ScoredDocument,
    pub question_type: QuestionType,
}

/// The Arabic interrogative markers, longer ones before their beginnings.
pub open spec fn arabic_markers() -> Seq<(Seq<char>, QuestionType)> {
    seq![
        ("\u{0645}\u{0646} \u{0647}\u{0648}"@, QuestionType::Person),
        ("\u{0645}\u{0646} \u{0647}\u{064A}"@, QuestionType::Person),
        ("\u{0645}\u{0646} \u{0647}\u{0645}"@, QuestionType::Person),
        ("\u{0645}\u{0646}"@, QuestionType::Person),
        ("\u{0645}\u{0627} \u{0647}\u{0648}"@, QuestionType::General),
        ("\u{0645}\u{0627} \u{0647}\u{064A}"@, QuestionType::General),
        ("\u{0645}\u{0627}\u{0630}\u{0627}"@, QuestionType::General),
        ("\u{0645}\u{0627}"@, QuestionType::General),
        ("\u{0643}\u{0645}"@, QuestionType::Quantity),
        ("\u{0645}\u{062A}\u{0649}"@, QuestionType::Time),
        ("\u{0623}\u{064A}\u{0646}"@, QuestionType::General),
        ("\u{0643}\u{064A}\u{0641}"@, QuestionType::General),
        ("\u{0644}\u{0645}\u{0627}\u{0630}\u{0627}"@, QuestionType::General),
        ("\u{0647}\u{0644}"@, QuestionType::General),
    ]
}

/// The English interrogative markers, in the order in which they are tried.
pub open spec fn english_markers() -> Seq<(Seq<char>, QuestionType)> {
    seq![
        ("who"@, QuestionType::Person),
        ("whom"@, QuestionType::Person),
        ("what"@, QuestionType::General),
        ("which"@, QuestionType::General),
        ("how many"@, QuestionType::Quantity),
        ("how much"@, QuestionType::Quantity),
        ("how long"@, QuestionType::Time),
        ("when"@, QuestionType::Time),
        ("where"@, QuestionType::General),
        ("how"@, QuestionType::General),
        ("why"@, QuestionType::General),
        ("does"@, QuestionType::General),
        ("is"@, QuestionType::General),
    ]
}

pub fn arabic_patterns() -> (r: Vec<QuestionPattern>)
    ensures
        r@.map_values(|p: QuestionPattern| p@) == arabic_markers(),
{
    let mut r: Vec<QuestionPattern> = Vec::new();
    r.push(QuestionPattern { marker: "\u{0645}\u{0646} \u{0647}\u{0648}".to_owned(), kind: QuestionType::Person });
    r.push(QuestionPattern { marker: "\u{0645}\u{0646} \u{0647}\u{064A}".to_owned(), kind: QuestionType::Person });
    r.push(QuestionPattern { marker: "\u{0645}\u{0646} \u{0647}\u{0645}".to_owned(), kind: QuestionType::Person });
    r.push(QuestionPattern { marker: "\u{0645}\u{0646}".to_owned(), kind: QuestionType::Person });
    r.push(QuestionPattern { marker: "\u{0645}\u{0627} \u{0647}\u{0648}".to_owned(), kind: QuestionType::General });
    r.push(QuestionPattern { marker: "\u{0645}\u{0627} \u{0647}\u{064A}".to_owned(), kind: QuestionType::General });
    r.push(QuestionPattern { marker: "\u{0645}\u{0627}\u{0630}\u{0627}".to_owned(), kind: QuestionType::General });
    r.push(QuestionPattern { marker: "\u{0645}\u{0627}".to_owned(), kind: QuestionType::General });
    r.push(QuestionPattern { marker: "\u{0643}\u{0645}".to_owned(), kind: QuestionType::Quantity });
    r.push(QuestionPattern { marker: "\u{0645}\u{062A}\u{0649}".to_owned(), kind: QuestionType::Time });
    r.push(QuestionPattern { marker: "\u{0623}\u{064A}\u{0646}".to_owned(), kind: QuestionType::General });
    r.push(QuestionPattern { marker: "\u{0643}\u{064A}\u{0641}".to_owned(), kind: QuestionType::General });
    r.push(QuestionPattern { marker: "\u{0644}\u{0645}\u{0627}\u{0630}\u{0627}".to_owned(), kind: QuestionType::General });
    r.push(QuestionPattern { marker: "\u{0647}\u{0644}".to_owned(), kind: QuestionType::General });
    assert(r@.map_values(|p: QuestionPattern| p@) =~= arabic_markers());
    r
}

pub fn english_patterns() -> (r: Vec<QuestionPattern>)
    ensures
        r@.map_values(|p: QuestionPattern| p@) == english_markers(),
{
    let mut r: Vec<QuestionPattern> = Vec::new();
    r.push(QuestionPattern { marker: "who".to_owned(), kind: QuestionType::Person });
    r.push(QuestionPattern { marker: "whom".to_owned(), kind: QuestionType::Person });
    r.push(QuestionPattern { marker: "what".to_owned(), kind: QuestionType::General });
    r.push(QuestionPattern { marker: "which".to_owned(), kind: QuestionType::General });
    r.push(QuestionPattern { marker: "how many".to_owned(), kind: QuestionType::Quantity });
    r.push(QuestionPattern { marker: "how much".to_owned(), kind: QuestionType::Quantity });
    r.push(QuestionPattern { marker: "how long".to_owned(), kind: QuestionType::Time });
    r.push(QuestionPattern { marker: "when".to_owned(), kind: QuestionType::Time });
    r.push(QuestionPattern { marker: "where".to_owned(), kind: QuestionType::General });
    r.push(QuestionPattern { marker: "how".to_owned(), kind: QuestionType::General });
    r.push(QuestionPattern { marker: "why".to_owned(), kind: QuestionType::General });
    r.push(QuestionPattern { marker: "does".to_owned(), kind: QuestionType::General });
    r.push(QuestionPattern { marker: "is".to_owned(), kind: QuestionType::General });
    assert(r@.map_values(|p: QuestionPattern| p@) =~= english_markers());
    r
}

/// The place of the first marker, at or after `from`, with which `a` or `b` begins.
pub open spec fn marker_from(
    ps: Seq<(Seq<char>, QuestionType)>,
    a: Seq<char>,
    b: Seq<char>,
    from: int,
) -> Option<int>
    decreases ps.len() - from,
{
    if from >= ps.len() || from < 0 {
        None
    } else if ps[from].0.is_prefix_of(a) || ps[from].0.is_prefix_of(b) {
        Some(from)
    } else {
        marker_from(ps, a, b, from + 1)
    }
}

/// Finds the first marker with which one of two texts begins.
pub fn find_marker(ps: &Vec<QuestionPattern>, a: &Vec<char>, b: &Vec<char>) -> (r: Option<usize>)
    ensures
        match r {
            Some(i) => i < ps.len() && marker_from(
                ps@.map_values(|p: QuestionPattern| p@),
                a@,
                b@,
                0,
            ) == Some(i as int),
            None => marker_from(ps@.map_values(|p: QuestionPattern| p@), a@, b@, 0) is None,
        },
{
    let ghost pm = ps@.map_values(|p: QuestionPattern| p@);
    let mut i: usize = 0;
    while i < ps.len()
        invariant
            i <= ps.len(),
            pm == ps@.map_values(|p: QuestionPattern| p@),
            marker_from(pm, a@, b@, 0) == marker_from(pm, a@, b@, i as int),
        decreases ps.len() - i,
    {
        let m = to_chars(ps[i].marker.as_str());
        assert(pm[i as int].0 == m@);
        if starts_with(a, &m) || starts_with(b, &m) {
            return Some(i);
        }
        i += 1;
    }
    None
}

/// The type of a question: that of the first Arabic marker with which the
/// trimmed question begins, if the question holds Arabic script; else that
/// of the first English marker with which the question begins in lower case.
pub open spec fn question_type_of(q: Seq<char>) -> Option<QuestionType> {
    let t = trimmed(q, CharClass::Space);
    let ar = marker_from(arabic_markers(), t, t, 0);
    let l = lowercased(q);
    let en = marker_from(english_markers(), l, l, 0);
    if has_arabic(q) && ar is Some {
        Some(arabic_markers()[ar.unwrap()].1)
    } else if en is Some {
        Some(english_markers()[en.unwrap()].1)
    } else {
        None
    }
}

/// Detect the question type from a query string.
pub fn detect_question_type(query: &str) -> (r: Option<QuestionType>)
    ensures
        r == question_type_of(query@),
{
    let q = to_chars(query);
    if is_arabic_chars(&q) {
        let t = trim_by(&q, CharClass::Space);
        let ar = arabic_patterns();
        match find_marker(&ar, &t, &t) {
            Some(i) => {
                assert(ar@.map_values(|p: QuestionPattern| p@)[i as int] == ar@[i as int]@);
                return Some(ar[i].kind);
            },
            None => {},
        }
    }
    let l = lowercase(&q);
    let en = english_patterns();
    match find_marker(&en, &l, &l) {
        Some(i) => {
            assert(en@.map_values(|p: QuestionPattern| p@)[i as int] == en@[i as int]@);
            Some(en[i].kind)
        },
        None => None,
    }
}

/// The question without its interrogative marker: what follows the first
/// marker with which the question begins, as written or in lower case,
/// without white space at its ends.
pub open spec fn without_marker(q: Seq<char>, ps: Seq<(Seq<char>, QuestionType)>) -> Seq<char> {
    match marker_from(ps, q, lowercased(q), 0) {
        Some(i) => {
            let n = if ps[i].0.len() <= q.len() {
                ps[i].0.len() as int
            } else {
                q.len() as int
            };
            trimmed(q.skip(n), CharClass::Space)
        },
        None => q,
    }
}

/// The text without question marks of either script.
pub open spec fn without_question_marks(s: Seq<char>) -> Seq<char>
    decreases s.len(),
{
    if s.len() == 0 {
        Seq::empty()
    } else if s.last() == '?' || s.last() == '\u{061F}' {
        without_question_marks(s.drop_last())
    } else {
        without_question_marks(s.drop_last()).push(s.last())
    }
}

/// The content word that a token gives.
pub open spec fn content_word(tok: Seq<char>) -> Seq<char> {
    if has_arabic(tok) {
        normalized(tok)
    } else {
        lowercased(tok)
    }
}

/// The content words of the tokens, without the empty ones.
pub open spec fn content_words(toks: Seq<Seq<char>>) -> Seq<Seq<char>>
    decreases toks.len(),
{
    if toks.len() == 0 {
        Seq::empty()
    } else {
        let rest = content_words(toks.drop_last());
        let w = content_word(toks.last());
        if w.len() > 0 {
            rest.push(w)
        } else {
            rest
        }
    }
}

/// The content words of a question.
pub open spec fn content_of(q: Seq<char>, lang: Seq<char>) -> Seq<Seq<char>> {
    let ps = if lang == "ar"@ || has_arabic(q) {
        arabic_markers()
    } else {
        english_markers()
    };
    content_words(words(without_question_marks(without_marker(q, ps))))
}

/// Remove question clue words from the query, returning content words.
pub fn extract_content_words(query: &str, lang: &str) -> (r: Vec<String>)
    ensures
        strs(r@) == content_of(query@, lang@),
{
    let q = to_chars(query);
    let arabic = is_arabic_tag(lang) || is_arabic_chars(&q);
    let ps = if arabic {
        arabic_patterns()
    } else {
        english_patterns()
    };
    let l = lowercase(&q);
    let cleaned = match find_marker(&ps, &q, &l) {
        Some(i) => {
            assert(ps@.map_values(|p: QuestionPattern| p@)[i as int] == ps@[i as int]@);
            let m = ps[i].marker.as_str().unicode_len();
            let n = if m <= q.len() {
                m
            } else {
                q.len()
            };
            let rest = copy_range(&q, n, q.len());
            assert(q@.subrange(n as int, q.len() as int) =~= q@.skip(n as int));
            trim_by(&rest, CharClass::Space)
        },
        None => q,
    };
    let mut plain: Vec<char> = Vec::new();
    let mut i: usize = 0;
    assert(cleaned@.take(0) =~= Seq::<char>::empty());
    while i < cleaned.len()
        invariant
            i <= cleaned.len(),
            plain@ == without_question_marks(cleaned@.take(i as int)),
        decreases cleaned.len() - i,
    {
        assert(cleaned@.take(i + 1).drop_last() =~= cleaned@.take(i as int));
        let c = cleaned[i];
        if c != '?' && c != '\u{061F}' {
            plain.push(c);
        }
        i += 1;
    }
    assert(cleaned@.take(cleaned.len() as int) =~= cleaned@);
    let toks = split_whitespace(&plain);
    let ghost wt = words(plain@);
    let mut r: Vec<String> = Vec::new();
    let mut j: usize = 0;
    assert(wt.take(0) =~= Seq::<Seq<char>>::empty());
    assert(strs(r@) =~= Seq::<Seq<char>>::empty());
    while j < toks.len()
        invariant
            j <= toks.len(),
            seqs(toks@) == wt,
            strs(r@) == content_words(wt.take(j as int)),
        decreases toks.len() - j,
    {
        let tok = &toks[j];
        proof {
            assert(wt.take(j + 1).drop_last() =~= wt.take(j as int));
            assert(wt.take(j + 1).last() == tok@);
        }
        let w = if is_arabic_chars(tok) {
            normalize_chars(tok)
        } else {
            lowercase(tok)
        };
        if w.len() > 0 {
            let ghost before = r@;
            r.push(from_chars(&w));
            assert(strs(r@) =~= strs(before).push(w@));
        }
        j += 1;
    }
    assert(wt.take(toks.len() as int) =~= wt);
    r
}

/// The terms that a question is answered with: for an Arabic question with
/// a morphology table, the content words with full weight and then the new
/// forms of their root families with root weight; else the content words.
pub open spec fn answer_terms(content: Seq<Seq<char>>, arabic: bool, qac: Option<Seq<MorphModel>>) -> Seq<
    (Seq<char>, u32),
> {
    if arabic && qac is Some {
        let exp = roots_expansion(content, qac.unwrap());
        Seq::new(
            exp.len(),
            |i: int|
                (
                    exp[i],
                    if i < content.len() {
                        FULL_WEIGHT
                    } else {
                        ROOT_WEIGHT
                    },
                ),
        )
    } else {
        unit_terms(content)
    }
}

/// The answers that the scored documents give: one for each document whose
/// verse the text holds, in order, as pairs of document and verse text.
pub open spec fn answers_of(docs: Seq<ScoredDocument>, q: Seq<VerseModel>) -> Seq<
    (ScoredDocument, Seq<char>),
>
    decreases docs.len(),
{
    if docs.len() == 0 {
        Seq::empty()
    } else {
        let rest = answers_of(docs.drop_last(), q);
        let d = docs.last();
        match find_verse(q, d.sura, d.aya) {
            Some(i) => rest.push((d, q[i].text)),
            None => rest,
        }
    }
}

/// The answers as pairs of document and verse text.
pub open spec fn answer_pairs(answers: Seq<Answer>) -> Seq<(ScoredDocument, Seq<char>)> {
    answers.map_values(|a: Answer| (a.scored, a.text@))
}

/// Whether the answers are those to the question: none where the question
/// has no content word; else those that some scoring of the answer terms gives,
/// each with the verse of its document and the type of the question.
pub open spec fn answers_question(
    answers: Seq<Answer>,
    q: Seq<char>,
    idx: InvertedIndex,
    quran: Seq<VerseModel>,
    qac: Option<Seq<MorphModel>>,
) -> bool {
    let lang = if has_arabic(q) {
        "ar"@
    } else {
        "en"@
    };
    let content = content_of(q, lang);
    let kind = match question_type_of(q) {
        Some(t) => t,
        None => QuestionType::General,
    };
    &&& content.len() == 0 ==> answers.len() == 0
    &&& forall|i: int|
        0 <= i < answers.len() ==> {
            &&& (#[trigger] answers[i]).question_type == kind
            &&& answers[i].sura == answers[i].scored.sura
            &&& answers[i].aya == answers[i].scored.aya
        }
    &&& content.len() > 0 ==> exists|docs: Seq<ScoredDocument>|
        #![trigger answers_of(docs, quran)]
        is_scoring(docs, idx, answer_terms(content, has_arabic(q), qac), quran.len())
            && answer_pairs(answers) == answers_of(docs, quran)
}

/// Answer a question with optional root expansion.
pub fn answer_question_with_qac(
    q: &str,
    index: &InvertedIndex,
    quran: &QuranText,
    qac: Option<&QacMorphology>,
) -> (r: Vec<Answer>)
    requires
        index.wf(),
        quran.wf(),
        qac is Some ==> qac.unwrap().wf(),
    ensures
        answers_question(
            r@,
            q@,
            *index,
            quran@,
            match qac {
                Some(m) => Some(m@),
                None => None,
            },
        ),
{
    let kind = match detect_question_type(q) {
        Some(t) => t,
        None => QuestionType::General,
    };
    let q_chars = to_chars(q);
    let arabic = is_arabic_chars(&q_chars);
    let content = if arabic {
        extract_content_words(q, "ar")
    } else {
        extract_content_words(q, "en")
    };
    if content.len() == 0 {
        return Vec::new();
    }
    let ghost cm = strs(content@);
    let ghost qm: Option<Seq<MorphModel>> = match qac {
        Some(m) => Some(m@),
        None => None,
    };
    let mut terms: Vec<WeightedTerm> = Vec::new();
    let n: usize = content.len();
    let expanded = match qac {
        Some(m) => {
            if arabic {
                expand_by_roots(&content, m)
            } else {
                content
            }
        },
        None => content,
    };
    let use_roots = arabic && qac.is_some();
    let mut i: usize = 0;
    while i < expanded.len()
        invariant
            i <= expanded.len(),
            terms.len() == i,
            n == cm.len(),
            forall|k: int|
                0 <= k < i ==> (#[trigger] terms@[k])@ == (
                    expanded@[k]@,
                    if k < n || !use_roots {
                        FULL_WEIGHT
                    } else {
                        ROOT_WEIGHT
                    },
                ),
        decreases expanded.len() - i,
    {
        let weight = if i < n || !use_roots {
            FULL_WEIGHT
        } else {
            ROOT_WEIGHT
        };
        terms.push(WeightedTerm { word: expanded[i].clone(), weight });
        i += 1;
    }
    assert(term_models(terms@) =~= answer_terms(cm, arabic, qm));
    let scored = score_search_weighted(index, &terms, quran);
    let ghost docs = scored@;
    let mut answers: Vec<Answer> = Vec::new();
    assert(docs.take(0) =~= Seq::<ScoredDocument>::empty());
    assert(answer_pairs(answers@) =~= Seq::<(ScoredDocument, Seq<char>)>::empty());
    for doc in it: scored.into_iter()
        invariant
            it.seq() == docs,
            quran.wf(),
            answer_pairs(answers@) == answers_of(docs.take(it.index() as int), quran@),
            forall|k: int|
                0 <= k < answers.len() ==> {
                    &&& (#[trigger] answers@[k]).question_type == kind
                    &&& answers@[k].sura == answers@[k].scored.sura
                    &&& answers@[k].aya == answers@[k].scored.aya
                },
    {
        proof {
            assert(docs.take(it.index() + 1).drop_last() =~= docs.take(it.index() as int));
            assert(docs.take(it.index() + 1).last() == doc);
        }
        match quran.get(doc.sura, doc.aya) {
            Some(verse) => {
                let ghost before = answers@;
                let a = Answer {
                    sura: doc.sura,
                    aya: doc.aya,
                    text: verse.text.clone(),
                    scored: doc,
                    question_type: kind,
                };
                answers.push(a);
                assert(answer_pairs(answers@) =~= answer_pairs(before).push((doc, verse.text@)));
            },
            None => {},
        }
    }
    assert(docs.take(docs.len() as int) =~= docs);
    answers
}

/// Answer a question by scoring the verses that its content words touch.
pub fn answer_question(q: &str, index: &InvertedIndex, quran: &QuranText) -> (r: Vec<Answer>)
    requires
        index.wf(),
        quran.wf(),
    ensures
        answers_question(r@, q@, *index, quran@, None),
{
    answer_question_with_qac(q, index, quran, None)
}

} // verus!
