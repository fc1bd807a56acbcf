use std::collections::HashMap;
use vstd::prelude::*;
use crate::lang::number::{parse_radix, parsed};
use crate::lang::text::{copy_range, find_from, index_from, lines, lines_of, seqs, string_of_range, to_chars, trim_by, trimmed, CharClass};

verus! {

broadcast use vstd::std_specs::hash::group_hash_axioms;

/// A single verse.
#[derive(Debug, Clone)]
pub struct Verse {
    pub sura: u16,
    pub aya: u16,
    pub text: String,
}

/// What a verse holds, as plain values.
pub ghost struct VerseModel {
    pub sura: u16,
    pub aya: u16,
    pub text: Seq<char>,
}

impl View for Verse {
    type V = VerseModel;

    open spec fn view(&self) -> VerseModel {
        VerseModel { sura: self.sura, aya: self.aya, text: self.text@ }
    }
}

/// Why a line of a verse file was rejected.
#[derive(Debug, Clone, Copy, PartialEq, Eq, Structural)]
pub enum LineFault {
    Format,
    Sura,
    Aya,
}

/// A rejected verse file: the fault and the 1-based number of its line.
#[derive(Debug, Clone, Copy, PartialEq, Eq, Structural)]
pub struct QuranParseError {
    pub fault: LineFault,
    pub line: usize,
}

/// The verses of a text, in file order, and an index from the numbers of a
/// verse to its place.
#[derive(Debug)]
pub struct QuranText {
    pub verses: Vec<Verse>,
    pub index: HashMap<u32, usize>,
}

/// The numbers of a verse as one number.
pub open spec fn verse_code(sura: u16, aya: u16) -> u32 {
    (sura as u32 * 65536 + aya as u32) as u32
}

pub fn verse_code_of(sura: u16, aya: u16) -> (c: u32)
    ensures
        c == verse_code(sura, aya),
{
    (sura as u32) * 65536 + (aya as u32)
}

/// What the index gives for the numbers of a verse.
pub open spec fn indexed(index: Map<u32, usize>, sura: u16, aya: u16) -> Option<int> {
    if index.contains_key(verse_code(sura, aya)) {
        Some(index[verse_code(sura, aya)] as int)
    } else {
        None
    }
}

/// Whether the index leads from the numbers of each verse to the last verse
/// that carries them.
pub open spec fn indexes_verses(index: Map<u32, usize>, vs: Seq<VerseModel>) -> bool {
    forall|s: u16, a: u16| #[trigger] find_verse(vs, s, a) == indexed(index, s, a)
}

/// The verse that is found is one of the verses and carries the numbers.
pub proof fn lemma_found_verse(vs: Seq<VerseModel>, sura: u16, aya: u16)
    ensures
        find_verse(vs, sura, aya) is Some ==> 0 <= find_verse(vs, sura, aya).unwrap() < vs.len(),
    decreases vs.len(),
{
    if vs.len() > 0 && !(vs.last().sura == sura && vs.last().aya == aya) {
        lemma_found_verse(vs.drop_last(), sura, aya);
    }
}

/// The verse that a trimmed line `sura|aya|text` writes.
pub open spec fn verse_of_line(l: Seq<char>) -> Result<VerseModel, LineFault> {
    let a = index_from(l, '|', 0);
    let b = index_from(l, '|', a + 1);
    if a >= l.len() || b >= l.len() {
        Err(LineFault::Format)
    } else {
        match parsed(l.subrange(0, a), 10, 65535) {
            None => Err(LineFault::Sura),
            Some(s) => match parsed(l.subrange(a + 1, b), 10, 65535) {
                None => Err(LineFault::Aya),
                Some(y) => Ok(
                    VerseModel { sura: s as u16, aya: y as u16, text: l.skip(b + 1) },
                ),
            },
        }
    }
}

/// Whether a trimmed line is blank or a comment.
pub open spec fn is_skipped(l: Seq<char>) -> bool {
    l.len() == 0 || l[0] == '#'
}

/// The verses of the given lines, or the first fault with its line number.
pub open spec fn verses_of_lines(ls: Seq<Seq<char>>) -> Result<Seq<VerseModel>, (LineFault, nat)>
    decreases ls.len(),
{
    if ls.len() == 0 {
        Ok(Seq::empty())
    } else {
        match verses_of_lines(ls.drop_last()) {
            Err(e) => Err(e),
            Ok(vs) => {
                let l = trimmed(ls.last(), CharClass::Space);
                if is_skipped(l) {
                    Ok(vs)
                } else {
                    match verse_of_line(l) {
                        Err(f) => Err((f, ls.len())),
                        Ok(v) => Ok(vs.push(v)),
                    }
                }
            },
        }
    }
}

/// The index of the last verse with the given numbers.
pub open spec fn find_verse(vs: Seq<VerseModel>, sura: u16, aya: u16) -> Option<int>
    decreases vs.len(),
{
    if vs.len() == 0 {
        None
    } else if vs.last().sura == sura && vs.last().aya == aya {
        Some(vs.len() - 1)
    } else {
        find_verse(vs.drop_last(), sura, aya)
    }
}

/// Reads one trimmed line that is neither blank nor a comment.
pub fn parse_verse_line(l: &Vec<char>) -> (r: Result<Verse, LineFault>)
    ensures
        match r {
            Ok(v) => verse_of_line(l@) == Ok::<VerseModel, LineFault>(v@),
            Err(f) => verse_of_line(l@) == Err::<VerseModel, LineFault>(f),
        },
{
    let a = find_from(l, '|', 0);
    if a >= l.len() {
        return Err(LineFault::Format);
    }
    let b = find_from(l, '|', a + 1);
    if b >= l.len() {
        return Err(LineFault::Format);
    }
    let first = copy_range(l, 0, a);
    let second = copy_range(l, a + 1, b);
    match parse_radix(&first, 10, 65535) {
        None => Err(LineFault::Sura),
        Some(s) => match parse_radix(&second, 10, 65535) {
            None => Err(LineFault::Aya),
            Some(y) => {
                let text = string_of_range(l, b + 1, l.len());
                assert(l@.subrange(b + 1, l.len() as int) =~= l@.skip(b + 1));
                Ok(Verse { sura: s as u16, aya: y as u16, text })
            },
        },
    }
}

impl View for QuranText {
    type V = Seq<VerseModel>;

    open spec fn view(&self) -> Seq<VerseModel> {
        self.verses@.map_values(|v: Verse| v@)
    }
}

impl QuranText {
    pub open spec fn wf(&self) -> bool {
        indexes_verses(self.index@, self@)
    }

    /// Parse from string content (`sura|aya|text` per line). Blank lines and
    /// lines that begin with `#` are skipped; the first faulty line ends the
    /// parse with its fault and line number.
    pub fn from_str(content: &str) -> (r: Result<QuranText, QuranParseError>)
        ensures
            match r {
                Ok(q) => q.wf() && verses_of_lines(lines_of(content@)) == Ok::<
                    Seq<VerseModel>,
                    (LineFault, nat),
                >(q@),
                Err(e) => verses_of_lines(lines_of(content@)) == Err::<
                    Seq<VerseModel>,
                    (LineFault, nat),
                >((e.fault, e.line as nat)),
            },
    {
        let chars = to_chars(content);
        let ls = lines(&chars);
        let mut verses: Vec<Verse> = Vec::new();
        let mut index: HashMap<u32, usize> = HashMap::new();
        let mut i: usize = 0;
        assert(seqs(ls@).take(0) =~= Seq::<Seq<char>>::empty());
        assert(verses@.map_values(|v: Verse| v@) =~= Seq::<VerseModel>::empty());
        while i < ls.len()
            invariant
                i <= ls.len(),
                verses_of_lines(seqs(ls@).take(i as int)) == Ok::<Seq<VerseModel>, (LineFault, nat)>(
                    verses@.map_values(|v: Verse| v@),
                ),
                seqs(ls@) == lines_of(content@),
                indexes_verses(index@, verses@.map_values(|v: Verse| v@)),
            decreases ls.len() - i,
        {
            proof {
                assert(seqs(ls@).take(i + 1).drop_last() =~= seqs(ls@).take(i as int));
                assert(seqs(ls@).take(i + 1).last() == ls@[i as int]@);
            }
            let l = trim_by(&ls[i], CharClass::Space);
            if l.len() > 0 && l[0] != '#' {
                match parse_verse_line(&l) {
                    Err(f) => {
                        proof {
                            lemma_fault_stays(seqs(ls@), i + 1);
                        }
                        return Err(QuranParseError { fault: f, line: i + 1 });
                    },
                    Ok(v) => {
                        let ghost before = verses@;
                        let ghost old_index = index@;
                        let code = verse_code_of(v.sura, v.aya);
                        index.insert(code, verses.len());
                        verses.push(v);
                        assert(verses@.map_values(|v: Verse| v@) =~= before.map_values(
                            |v: Verse| v@,
                        ).push(v@));
                        let ghost now = verses@.map_values(|v: Verse| v@);
                        assert forall|s: u16, a: u16| #[trigger]
                            find_verse(now, s, a) == indexed(index@, s, a) by {
                            assert(now.drop_last() =~= before.map_values(|v: Verse| v@));
                            assert(now.last() == v@);
                            assert(find_verse(now.drop_last(), s, a) == indexed(old_index, s, a));
                            if !(s == v.sura && a == v.aya) {
                                assert(verse_code(s, a) != verse_code(v.sura, v.aya));
                            }
                        }
                    },
                }
            }
            i += 1;
        }
        assert(seqs(ls@).take(ls.len() as int) =~= seqs(ls@));
        Ok(QuranText { verses, index })
    }

    /// Get a verse by sura and aya number: the last one that carries them.
    pub fn get(&self, sura: u16, aya: u16) -> (r: Option<&Verse>)
        requires
            self.wf(),
        ensures
            match r {
                Some(v) => find_verse(self@, sura, aya) is Some && v@ == self@[find_verse(
                    self@,
                    sura,
                    aya,
                ).unwrap()],
                None => find_verse(self@, sura, aya) is None,
            },
    {
        proof {
            lemma_found_verse(self@, sura, aya);
            assert(find_verse(self@, sura, aya) == indexed(self.index@, sura, aya));
        }
        let code = verse_code_of(sura, aya);
        match self.index.get(&code) {
            Some(i) => Some(&self.verses[*i]),
            None => None,
        }
    }

    /// Total number of verses.
    pub fn len(&self) -> (n: usize)
        ensures
            n == self@.len(),
    {
        self.verses.len()
    }

    /// Check if empty.
    pub fn is_empty(&self) -> (b: bool)
        ensures
            b == (self@.len() == 0),
    {
        self.verses.len() == 0
    }
}

/// Once a prefix of the lines holds a fault, the whole text reports that fault.
pub proof fn lemma_fault_stays(ls: Seq<Seq<char>>, k: int)
    requires
        0 <= k <= ls.len(),
        verses_of_lines(ls.take(k)) is Err,
    ensures
        verses_of_lines(ls) == verses_of_lines(ls.take(k)),
    decreases ls.len(),
{
    if k < ls.len() {
        assert(ls.drop_last().take(k) =~= ls.take(k));
        lemma_fault_stays(ls.drop_last(), k);
    } else {
        assert(ls.take(k) =~= ls);
    }
}

} // verus!
