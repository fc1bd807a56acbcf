use vstd::prelude::*;
use crate::data::table::{place, Table};
use crate::lang::text::{contains_str, ends_with, from_chars, lines, lines_of, lowercase, lowercased, seqs, split_whitespace, strs, to_chars, trim_by, trimmed, words, CharClass};

verus! {

/// A POS-tagged word.
#[derive(Debug, Clone)]
pub struct TaggedWord {
    pub word: String,
    pub tag: String,
}

impl View for TaggedWord {
    type V = (Seq<char>, Seq<char>);

    open spec fn view(&self) -> (Seq<char>, Seq<char>) {
        (self.word@, self.tag@)
    }
}

/// A line of the lexicon: a word in lower case and its tags.
#[derive(Debug, Clone)]
pub struct LexiconEntry {
    pub word: String,
    pub tags: Vec<String>,
}

impl View for LexiconEntry {
    type V = (Seq<char>, Seq<Seq<char>>);

    open spec fn view(&self) -> (Seq<char>, Seq<Seq<char>>) {
        (self.word@, strs(self.tags@))
    }
}

/// English POS tagger: a lexicon, in file order, a table from each word to
/// its line, and suffix heuristics. Where a word has several lines, the last
/// one counts.
#[derive(Debug)]
pub struct PosTagger {
    pub lexicon: Vec<LexiconEntry>,
    pub words: Table<usize>,
}

/// The place of the last entry for the word.
pub open spec fn entry_place(lex: Seq<(Seq<char>, Seq<Seq<char>>)>, w: Seq<char>) -> Option<int>
    decreases lex.len(),
{
    if lex.len() == 0 {
        None
    } else if lex.last().0 == w {
        Some(lex.len() - 1)
    } else {
        entry_place(lex.drop_last(), w)
    }
}

/// The tags of a word are those of the last entry for it.
pub proof fn lemma_tags_at_place(lex: Seq<(Seq<char>, Seq<Seq<char>>)>, w: Seq<char>)
    ensures
        match entry_place(lex, w) {
            Some(i) => 0 <= i < lex.len() && tags_of(lex, w) == Some(lex[i].1),
            None => tags_of(lex, w) is None,
        },
    decreases lex.len(),
{
    if lex.len() > 0 && lex.last().0 != w {
        lemma_tags_at_place(lex.drop_last(), w);
    }
}

/// Whether the table leads from each word to the last entry for it.
pub open spec fn maps_entries(t: Table<usize>, lex: Seq<(Seq<char>, Seq<Seq<char>>)>) -> bool {
    forall|k: Seq<char>| place(#[trigger] t.find(k)) == entry_place(lex, k)
}

/// The lexicon entries that the lines write: a line of two and more fields
/// gives its first field in lower case and the other fields as tags.
pub open spec fn lexicon_of(ls: Seq<Seq<char>>) -> Seq<(Seq<char>, Seq<Seq<char>>)>
    decreases ls.len(),
{
    if ls.len() == 0 {
        Seq::empty()
    } else {
        let rest = lexicon_of(ls.drop_last());
        let parts = words(ls.last());
        if parts.len() >= 2 {
            rest.push((lowercased(parts[0]), parts.skip(1)))
        } else {
            rest
        }
    }
}

/// The tags of the last entry for the word.
pub open spec fn tags_of(lex: Seq<(Seq<char>, Seq<Seq<char>>)>, w: Seq<char>) -> Option<
    Seq<Seq<char>>,
>
    decreases lex.len(),
{
    if lex.len() == 0 {
        None
    } else if lex.last().0 == w {
        Some(lex.last().1)
    } else {
        tags_of(lex.drop_last(), w)
    }
}

/// The tag that the ending of a word suggests.
pub open spec fn tag_by_suffix(w: Seq<char>) -> Seq<char> {
    if "ly"@.is_suffix_of(w) {
        "RB"@
    } else if "ing"@.is_suffix_of(w) {
        "VBG"@
    } else if "ed"@.is_suffix_of(w) {
        "VBN"@
    } else if "tion"@.is_suffix_of(w) || "sion"@.is_suffix_of(w) || "ness"@.is_suffix_of(w) {
        "NN"@
    } else if "al"@.is_suffix_of(w) || "ous"@.is_suffix_of(w) || "ive"@.is_suffix_of(w) {
        "JJ"@
    } else if "es"@.is_suffix_of(w) || "s"@.is_suffix_of(w) {
        "NNS"@
    } else {
        "NN"@
    }
}

/// The tag of a word: the first tag of its lexicon entry, else the tag that
/// its ending suggests.
pub open spec fn tag_of(lex: Seq<(Seq<char>, Seq<Seq<char>>)>, w: Seq<char>) -> Seq<char> {
    match tags_of(lex, w) {
        Some(tags) => if tags.len() > 0 {
            tags[0]
        } else {
            tag_by_suffix(w)
        },
        None => tag_by_suffix(w),
    }
}

/// The tagged words of the tokens: each token without the non-alphanumeric
/// characters at its ends, in lower case, with its tag; empty ones left out.
pub open spec fn tagged_of(lex: Seq<(Seq<char>, Seq<Seq<char>>)>, toks: Seq<Seq<char>>) -> Seq<
    (Seq<char>, Seq<char>),
>
    decreases toks.len(),
{
    if toks.len() == 0 {
        Seq::empty()
    } else {
        let rest = tagged_of(lex, toks.drop_last());
        let w = lowercased(trimmed(toks.last(), CharClass::NotAlphanumeric));
        if w.len() > 0 {
            rest.push((w, tag_of(lex, w)))
        } else {
            rest
        }
    }
}

/// Whether the word ends with the given letters.
pub fn has_suffix(w: &Vec<char>, suffix: &str) -> (b: bool)
    ensures
        b == suffix@.is_suffix_of(w@),
{
    let s = to_chars(suffix);
    ends_with(w, &s)
}

impl PosTagger {
    pub open spec fn model(&self) -> Seq<(Seq<char>, Seq<Seq<char>>)> {
        self.lexicon@.map_values(|e: LexiconEntry| e@)
    }

    pub open spec fn wf(&self) -> bool {
        self.words.wf() && maps_entries(self.words, self.model())
    }

    /// Parse lexicon from string content (`word TAG1 TAG2 ...` per line).
    pub fn from_str(content: &str) -> (r: PosTagger)
        ensures
            r.wf(),
            r.model() == lexicon_of(lines_of(content@)),
    {
        let chars = to_chars(content);
        let ls = lines(&chars);
        let ghost lm = seqs(ls@);
        let mut lexicon: Vec<LexiconEntry> = Vec::new();
        let mut words: Table<usize> = Table::new();
        let mut i: usize = 0;
        assert(lm.take(0) =~= Seq::<Seq<char>>::empty());
        assert(lexicon@.map_values(|e: LexiconEntry| e@) =~= Seq::<
            (Seq<char>, Seq<Seq<char>>),
        >::empty());
        while i < ls.len()
            invariant
                i <= ls.len(),
                lm == seqs(ls@),
                lexicon@.map_values(|e: LexiconEntry| e@) == lexicon_of(lm.take(i as int)),
                words.wf(),
                maps_entries(words, lexicon@.map_values(|e: LexiconEntry| e@)),
            decreases ls.len() - i,
        {
            proof {
                assert(lm.take(i + 1).drop_last() =~= lm.take(i as int));
                assert(lm.take(i + 1).last() == ls@[i as int]@);
            }
            let parts = split_whitespace(&ls[i]);
            if parts.len() >= 2 {
                let ghost pm = seqs(parts@);
                let word = lowercase(&parts[0]);
                assert(pm[0] == parts@[0]@);
                let mut tags: Vec<String> = Vec::new();
                let mut j: usize = 1;
                assert(strs(tags@) =~= pm.subrange(1, 1));
                while j < parts.len()
                    invariant
                        1 <= j <= parts.len(),
                        pm == seqs(parts@),
                        strs(tags@) == pm.subrange(1, j as int),
                    decreases parts.len() - j,
                {
                    let ghost before = tags@;
                    tags.push(from_chars(&parts[j]));
                    assert(strs(tags@) =~= strs(before).push(parts@[j as int]@));
                    assert(strs(tags@) =~= pm.subrange(1, j + 1));
                    j += 1;
                }
                assert(pm.subrange(1, parts.len() as int) =~= pm.skip(1));
                let ghost before = lexicon@;
                let ghost table = words;
                let e = LexiconEntry { word: from_chars(&word), tags };
                words.put(e.word.clone(), lexicon.len());
                lexicon.push(e);
                assert(lexicon@.map_values(|e: LexiconEntry| e@) =~= before.map_values(
                    |e: LexiconEntry| e@,
                ).push(e@));
                assert forall|k: Seq<char>| place(#[trigger] words.find(k)) == entry_place(
                    lexicon@.map_values(|e: LexiconEntry| e@),
                    k,
                ) by {
                    let now = lexicon@.map_values(|e: LexiconEntry| e@);
                    assert(now.drop_last() =~= before.map_values(|e: LexiconEntry| e@));
                    assert(now.last() == e@);
                    if k != e.word@ {
                        assert(words.find(k) == table.find(k));
                    }
                }
            }
            i += 1;
        }
        assert(lm.take(ls.len() as int) =~= lm);
        PosTagger { lexicon, words }
    }

    /// Tag a single word using lexicon lookup and suffix heuristics.
    pub fn tag_word(&self, word: &String) -> (r: String)
        requires
            self.wf(),
        ensures
            r@ == tag_of(self.model(), word@),
    {
        let ghost lex = self.model();
        proof {
            lemma_tags_at_place(lex, word@);
            assert(place(self.words.find(word@)) == entry_place(lex, word@));
        }
        let found: Option<usize> = match self.words.get(word) {
            Some(i) => Some(*i),
            None => None,
        };
        match found {
            Some(k) => {
                let tags = &self.lexicon[k].tags;
                assert(lex[k as int].1 == strs(tags@));
                if tags.len() > 0 {
                    assert(strs(tags@)[0] == tags@[0]@);
                    return tags[0].clone();
                }
            },
            None => {},
        }
        let w = to_chars(word.as_str());
        if has_suffix(&w, "ly") {
            "RB".to_owned()
        } else if has_suffix(&w, "ing") {
            "VBG".to_owned()
        } else if has_suffix(&w, "ed") {
            "VBN".to_owned()
        } else if has_suffix(&w, "tion") || has_suffix(&w, "sion") || has_suffix(&w, "ness") {
            "NN".to_owned()
        } else if has_suffix(&w, "al") || has_suffix(&w, "ous") || has_suffix(&w, "ive") {
            "JJ".to_owned()
        } else if has_suffix(&w, "es") || has_suffix(&w, "s") {
            "NNS".to_owned()
        } else {
            "NN".to_owned()
        }
    }

    /// Tag a sequence of words.
    pub fn tag(&self, text: &str) -> (r: Vec<TaggedWord>)
        requires
            self.wf(),
        ensures
            r@.map_values(|t: TaggedWord| t@) == tagged_of(self.model(), words(text@)),
    {
        let chars = to_chars(text);
        let toks = split_whitespace(&chars);
        let ghost wt = words(text@);
        let mut r: Vec<TaggedWord> = Vec::new();
        let mut i: usize = 0;
        assert(wt.take(0) =~= Seq::<Seq<char>>::empty());
        assert(r@.map_values(|t: TaggedWord| t@) =~= Seq::<(Seq<char>, Seq<char>)>::empty());
        while i < toks.len()
            invariant
                i <= toks.len(),
                self.wf(),
                seqs(toks@) == wt,
                r@.map_values(|t: TaggedWord| t@) == tagged_of(self.model(), wt.take(i as int)),
            decreases toks.len() - i,
        {
            proof {
                assert(wt.take(i + 1).drop_last() =~= wt.take(i as int));
                assert(wt.take(i + 1).last() == toks@[i as int]@);
            }
            let t = trim_by(&toks[i], CharClass::NotAlphanumeric);
            let clean = lowercase(&t);
            if clean.len() > 0 {
                let word = from_chars(&clean);
                let tag = self.tag_word(&word);
                let ghost before = r@;
                let tw = TaggedWord { word, tag };
                r.push(tw);
                assert(r@.map_values(|t: TaggedWord| t@) =~= before.map_values(
                    |t: TaggedWord| t@,
                ).push(tw@));
            }
            i += 1;
        }
        assert(wt.take(toks.len() as int) =~= wt);
        r
    }

    /// Number of words in the lexicon.
    pub fn lexicon_size(&self) -> (n: usize)
        ensures
            n == self.model().map_values(|e: (Seq<char>, Seq<Seq<char>>)| e.0).to_set().len(),
    {
        let ghost ws = self.model().map_values(|e: (Seq<char>, Seq<Seq<char>>)| e.0);
        let mut seen: Vec<String> = Vec::new();
        let mut i: usize = 0;
        assert(strs(seen@).to_set() =~= ws.take(0).to_set());
        while i < self.lexicon.len()
            invariant
                i <= self.lexicon.len(),
                ws == self.model().map_values(|e: (Seq<char>, Seq<Seq<char>>)| e.0),
                strs(seen@).no_duplicates(),
                strs(seen@).to_set() == ws.take(i as int).to_set(),
            decreases self.lexicon.len() - i,
        {
            let w = &self.lexicon[i].word;
            proof {
                assert(ws.take(i + 1) =~= ws.take(i as int).push(w@));
                ws.take(i as int).lemma_push_to_set_commute(w@);
            }
            if !contains_str(&seen, w) {
                let ghost before = strs(seen@);
                seen.push(w.clone());
                proof {
                    assert(strs(seen@) =~= before.push(w@));
                    before.lemma_push_to_set_commute(w@);
                }
            } else {
                assert(strs(seen@).to_set().insert(w@) =~= strs(seen@).to_set());
            }
            i += 1;
        }
        proof {
            assert(ws.take(self.lexicon.len() as int) =~= ws);
            strs(seen@).unique_seq_to_set();
        }
        seen.len()
    }
}

} // verus!
