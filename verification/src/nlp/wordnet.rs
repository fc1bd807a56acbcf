use std::collections::HashMap;
use vstd::prelude::*;
use crate::lang::number::{parse_radix, parsed};
use crate::data::table::Table;
use crate::lang::text::{contains_str, copy_range, find_from, from_chars, index_from, lines, lines_of, lowercase, lowercased, seqs, split_whitespace, strs, to_chars, to_lowercase, trim_by, trimmed, words, CharClass};

verus! {

broadcast use vstd::std_specs::hash::group_hash_axioms;

/// A line of a WordNet index: a word, its part of speech and its synsets.
#[derive(Debug, Clone)]
pub struct WordEntry {
    pub word: String,
    pub pos: String,
    pub synset_offsets: Vec<u64>,
}

/// A synset (synonym set) with gloss and words.
#[derive(Debug, Clone)]
pub struct SynSet {
    pub offset: u64,
    pub pos: String,
    pub words: Vec<String>,
    pub gloss: String,
}

/// What a word entry holds, as plain values.
pub ghost struct WordEntryModel {
    pub word: Seq<char>,
    pub pos: Seq<char>,
    pub offsets: Seq<u64>,
}

/// What a synset holds, as plain values.
pub ghost struct SynSetModel {
    pub offset: u64,
    pub pos: Seq<char>,
    pub words: Seq<Seq<char>>,
    pub gloss: Seq<char>,
}

impl View for WordEntry {
    type V = WordEntryModel;

    open spec fn view(&self) -> WordEntryModel {
        WordEntryModel { word: self.word@, pos: self.pos@, offsets: self.synset_offsets@ }
    }
}

impl View for SynSet {
    type V = SynSetModel;

    open spec fn view(&self) -> SynSetModel {
        SynSetModel {
            offset: self.offset,
            pos: self.pos@,
            words: strs(self.words@),
            gloss: self.gloss@,
        }
    }
}

/// WordNet dictionary for synonym lookup: the index entries in file order,
/// the synsets in file order, a table from each word to the places of its
/// entries, and a map from each offset to the places of its synsets. Where
/// two synsets share offset and part of speech, the last one counts.
#[derive(Debug)]
pub struct WordNet {
    pub index: Vec<WordEntry>,
    pub data: Vec<SynSet>,
    pub words: Table<Vec<usize>>,
    pub synsets: HashMap<u64, Vec<usize>>,
}

/// The one-letter code of a part of speech.
pub open spec fn pos_code(pos: Seq<char>) -> Seq<char> {
    if pos == "noun"@ {
        "n"@
    } else if pos == "verb"@ {
        "v"@
    } else if pos == "adj"@ {
        "a"@
    } else if pos == "adv"@ {
        "r"@
    } else {
        pos
    }
}

pub fn pos_code_of(pos: &str) -> (r: String)
    ensures
        r@ == pos_code(pos@),
{
    let p = pos.to_owned();
    if p == "noun".to_owned() {
        "n".to_owned()
    } else if p == "verb".to_owned() {
        "v".to_owned()
    } else if p == "adj".to_owned() {
        "a".to_owned()
    } else if p == "adv".to_owned() {
        "r".to_owned()
    } else {
        p
    }
}

/// Whether a line is passed over: it begins with a blank or a `#`.
pub open spec fn is_comment(l: Seq<char>) -> bool {
    l.len() > 0 && (l[0] == ' ' || l[0] == '#')
}

/// The count that a field writes, or 0 where it writes none.
pub open spec fn count_or_zero(s: Seq<char>) -> nat {
    match parsed(s, 10, 0xffff_ffff_ffff_ffff) {
        Some(n) => n,
        None => 0,
    }
}

/// The numbers that the fields `from`, `from + 1`, ..., `from + n - 1` write;
/// a field that writes none gives none.
pub open spec fn offsets_in(parts: Seq<Seq<char>>, from: int, n: int) -> Seq<u64>
    decreases n,
{
    if n <= 0 {
        Seq::empty()
    } else {
        let rest = offsets_in(parts, from, n - 1);
        match parsed(parts[from + n - 1], 10, 0xffff_ffff_ffff_ffff) {
            Some(v) => rest.push(v as u64),
            None => rest,
        }
    }
}

/// How many of `wanted` fields exist when they start at `from` and come at
/// every `step`-th place.
pub open spec fn available(len: nat, from: int, step: int, wanted: nat) -> int {
    if from >= len {
        0
    } else {
        let room = (len - from + step - 1) / step;
        if wanted <= room {
            wanted as int
        } else {
            room
        }
    }
}

/// The entry that a line of an index file writes, if it writes one. After
/// the word, the part of speech and two counts come as many pointer symbols
/// as the second count says, two more counts, and then the synset offsets.
pub open spec fn index_entry_of(l: Seq<char>, pos: Seq<char>) -> Option<WordEntryModel> {
    let parts = words(l);
    if is_comment(l) || parts.len() < 6 {
        None
    } else {
        let from: int = 6 + count_or_zero(parts[3]) as int;
        Some(
            WordEntryModel {
                word: lowercased(parts[0]),
                pos: pos_code(pos),
                offsets: offsets_in(
                    parts,
                    from,
                    available(parts.len(), from, 1, count_or_zero(parts[2])),
                ),
            },
        )
    }
}

/// The index entries that the lines write, after those of `acc`.
pub open spec fn index_of_lines(acc: Seq<WordEntryModel>, ls: Seq<Seq<char>>, pos: Seq<char>) -> Seq<
    WordEntryModel,
>
    decreases ls.len(),
{
    if ls.len() == 0 {
        acc
    } else {
        let rest = index_of_lines(acc, ls.drop_last(), pos);
        match index_entry_of(ls.last(), pos) {
            Some(e) => rest.push(e),
            None => rest,
        }
    }
}

/// The fields `4`, `6`, ... of a synset header: its first `n` words.
pub open spec fn words_at(header: Seq<Seq<char>>, n: int) -> Seq<Seq<char>>
    decreases n,
{
    if n <= 0 {
        Seq::empty()
    } else {
        words_at(header, n - 1).push(header[4 + 2 * (n - 1)])
    }
}

/// The synset that a line of a data file writes, if it writes one: before
/// the first `|` the offset, two fields, the number of words in hexadecimal,
/// and the words, each followed by one field; after it the gloss.
pub open spec fn synset_of(l: Seq<char>, pos: Seq<char>) -> Option<SynSetModel> {
    let bar = index_from(l, '|', 0);
    let header = words(l.take(bar));
    let gloss = if bar < l.len() {
        trimmed(l.skip(bar + 1), CharClass::Space)
    } else {
        Seq::empty()
    };
    if is_comment(l) || header.len() < 6 {
        None
    } else {
        match (parsed(header[0], 10, 0xffff_ffff_ffff_ffff), parsed(header[3], 16, 0xffff_ffff)) {
            (Some(offset), Some(count)) => Some(
                SynSetModel {
                    offset: offset as u64,
                    pos: pos_code(pos),
                    words: words_at(header, available(header.len(), 4, 2, count)),
                    gloss,
                },
            ),
            _ => None,
        }
    }
}

/// The synsets that the lines write, after those of `acc`.
pub open spec fn data_of_lines(acc: Seq<SynSetModel>, ls: Seq<Seq<char>>, pos: Seq<char>) -> Seq<
    SynSetModel,
>
    decreases ls.len(),
{
    if ls.len() == 0 {
        acc
    } else {
        let rest = data_of_lines(acc, ls.drop_last(), pos);
        match synset_of(ls.last(), pos) {
            Some(e) => rest.push(e),
            None => rest,
        }
    }
}

pub fn parse_count(v: &Vec<char>) -> (n: u64)
    ensures
        n == count_or_zero(v@),
{
    match parse_radix(v, 10, 0xffff_ffff_ffff_ffff) {
        Some(n) => n,
        None => 0,
    }
}

/// Reads one line of an index file.
pub fn parse_index_line(l: &Vec<char>, pos: &str) -> (r: Option<WordEntry>)
    ensures
        match r {
            Some(e) => index_entry_of(l@, pos@) == Some(e@),
            None => index_entry_of(l@, pos@) is None,
        },
{
    if l.len() > 0 && (l[0] == ' ' || l[0] == '#') {
        return None;
    }
    let parts = split_whitespace(l);
    if parts.len() < 6 {
        return None;
    }
    let ghost pm = seqs(parts@);
    assert(pm[0] == parts@[0]@ && pm[2] == parts@[2]@ && pm[3] == parts@[3]@);
    let word = lowercase(&parts[0]);
    let wanted = parse_count(&parts[2]);
    let skipped = parse_count(&parts[3]);
    let ghost from: int = 6 + skipped;
    let ghost n = available(pm.len(), from, 1, wanted as nat);
    let mut offsets: Vec<u64> = Vec::new();
    let len = parts.len();
    if skipped < (len - 6) as u64 {
        let start: usize = 6 + skipped as usize;
        let mut i: usize = 0;
        while start + i < len && (i as u64) < wanted
            invariant
                start == from,
                start < len,
                len == parts.len(),
                pm == seqs(parts@),
                start + i <= len,
                i <= wanted,
                offsets@ == offsets_in(pm, from, i as int),
            decreases len - start - i,
        {
            assert(pm[from + i] == parts@[start + i]@);
            match parse_radix(&parts[start + i], 10, 0xffff_ffff_ffff_ffff) {
                Some(v) => {
                    offsets.push(v);
                },
                None => {},
            }
            i += 1;
        }
        assert(i == n);
    } else {
        assert(n == 0);
    }
    Some(WordEntry { word: from_chars(&word), pos: pos_code_of(pos), synset_offsets: offsets })
}

/// Parse a WordNet index file, adding its entries to `index`.
pub fn parse_index(content: &str, pos: &str, index: &mut Vec<WordEntry>)
    ensures
        final(index)@.map_values(|e: WordEntry| e@) == index_of_lines(
            old(index)@.map_values(|e: WordEntry| e@),
            lines_of(content@),
            pos@,
        ),
{
    let chars = to_chars(content);
    let ls = lines(&chars);
    let ghost lm = seqs(ls@);
    let ghost start = index@.map_values(|e: WordEntry| e@);
    let mut i: usize = 0;
    assert(lm.take(0) =~= Seq::<Seq<char>>::empty());
    while i < ls.len()
        invariant
            i <= ls.len(),
            lm == seqs(ls@),
            index@.map_values(|e: WordEntry| e@) == index_of_lines(start, lm.take(i as int), pos@),
        decreases ls.len() - i,
    {
        proof {
            assert(lm.take(i + 1).drop_last() =~= lm.take(i as int));
            assert(lm.take(i + 1).last() == ls@[i as int]@);
        }
        match parse_index_line(&ls[i], pos) {
            Some(e) => {
                let ghost before = index@;
                index.push(e);
                assert(index@.map_values(|e: WordEntry| e@) =~= before.map_values(
                    |e: WordEntry| e@,
                ).push(e@));
            },
            None => {},
        }
        i += 1;
    }
    assert(lm.take(ls.len() as int) =~= lm);
}

/// Reads one line of a data file.
pub fn parse_data_line(l: &Vec<char>, pos: &str) -> (r: Option<SynSet>)
    ensures
        match r {
            Some(e) => synset_of(l@, pos@) == Some(e@),
            None => synset_of(l@, pos@) is None,
        },
{
    if l.len() > 0 && (l[0] == ' ' || l[0] == '#') {
        return None;
    }
    let bar = find_from(l, '|', 0);
    let head = copy_range(l, 0, bar);
    assert(l@.subrange(0, bar as int) =~= l@.take(bar as int));
    let header = split_whitespace(&head);
    if header.len() < 6 {
        return None;
    }
    let ghost hm = seqs(header@);
    assert(hm[0] == header@[0]@ && hm[3] == header@[3]@);
    let offset = match parse_radix(&header[0], 10, 0xffff_ffff_ffff_ffff) {
        Some(v) => v,
        None => {
            return None;
        },
    };
    let count = match parse_radix(&header[3], 16, 0xffff_ffff) {
        Some(v) => v,
        None => {
            return None;
        },
    };
    let gloss = if bar < l.len() {
        let rest = copy_range(l, bar + 1, l.len());
        assert(l@.subrange(bar + 1, l.len() as int) =~= l@.skip(bar + 1));
        trim_by(&rest, CharClass::Space)
    } else {
        Vec::new()
    };
    let len = header.len();
    let ghost n = available(hm.len(), 4, 2, count as nat);
    let mut ws: Vec<String> = Vec::new();
    let mut i: usize = 0;
    assert(strs(ws@) =~= words_at(hm, 0));
    while (i as u64) < count && i < (len - 4 + 1) / 2
        invariant
            len == header.len(),
            len >= 6,
            hm == seqs(header@),
            i <= count,
            i <= (len - 4 + 1) / 2,
            strs(ws@) == words_at(hm, i as int),
        decreases (len - 4 + 1) / 2 - i,
    {
        let ghost before = ws@;
        assert(4 + 2 * i < len);
        ws.push(from_chars(&header[4 + 2 * i]));
        assert(strs(ws@) =~= strs(before).push(header@[4 + 2 * i]@));
        i += 1;
    }
    assert(i == n);
    Some(SynSet { offset, pos: pos_code_of(pos), words: ws, gloss: from_chars(&gloss) })
}

/// Parse a WordNet data file, adding its synsets to `data`.
pub fn parse_data(content: &str, pos: &str, data: &mut Vec<SynSet>)
    ensures
        final(data)@.map_values(|e: SynSet| e@) == data_of_lines(
            old(data)@.map_values(|e: SynSet| e@),
            lines_of(content@),
            pos@,
        ),
{
    let chars = to_chars(content);
    let ls = lines(&chars);
    let ghost lm = seqs(ls@);
    let ghost start = data@.map_values(|e: SynSet| e@);
    let mut i: usize = 0;
    assert(lm.take(0) =~= Seq::<Seq<char>>::empty());
    while i < ls.len()
        invariant
            i <= ls.len(),
            lm == seqs(ls@),
            data@.map_values(|e: SynSet| e@) == data_of_lines(start, lm.take(i as int), pos@),
        decreases ls.len() - i,
    {
        proof {
            assert(lm.take(i + 1).drop_last() =~= lm.take(i as int));
            assert(lm.take(i + 1).last() == ls@[i as int]@);
        }
        match parse_data_line(&ls[i], pos) {
            Some(e) => {
                let ghost before = data@;
                data.push(e);
                assert(data@.map_values(|e: SynSet| e@) =~= before.map_values(|e: SynSet| e@).push(
                    e@,
                ));
            },
            None => {},
        }
        i += 1;
    }
    assert(lm.take(ls.len() as int) =~= lm);
}

/// The last synset with the offset and the part of speech.
pub open spec fn synset_at(data: Seq<SynSetModel>, offset: u64, pos: Seq<char>) -> Option<
    SynSetModel,
>
    decreases data.len(),
{
    if data.len() == 0 {
        None
    } else if data.last().offset == offset && data.last().pos == pos {
        Some(data.last())
    } else {
        synset_at(data.drop_last(), offset, pos)
    }
}

/// A word of a synset as a synonym: blanks for underscores, in lower case.
pub open spec fn clean_word(w: Seq<char>) -> Seq<char> {
    lowercased(
        w.map_values(
            |c: char|
                if c == '_' {
                    ' '
                } else {
                    c
                },
        ),
    )
}

/// `acc`, then the clean words that are neither the word asked for nor in it.
pub open spec fn add_synonyms(acc: Seq<Seq<char>>, ws: Seq<Seq<char>>, word: Seq<char>) -> Seq<
    Seq<char>,
>
    decreases ws.len(),
{
    if ws.len() == 0 {
        acc
    } else {
        let r = add_synonyms(acc, ws.drop_last(), word);
        let c = clean_word(ws.last());
        if c != word && !r.contains(c) {
            r.push(c)
        } else {
            r
        }
    }
}

/// `acc`, then the synonyms from the synsets at the offsets.
pub open spec fn synonyms_at(
    acc: Seq<Seq<char>>,
    data: Seq<SynSetModel>,
    offsets: Seq<u64>,
    pos: Seq<char>,
    word: Seq<char>,
) -> Seq<Seq<char>>
    decreases offsets.len(),
{
    if offsets.len() == 0 {
        acc
    } else {
        let r = synonyms_at(acc, data, offsets.drop_last(), pos, word);
        match synset_at(data, offsets.last(), pos) {
            Some(s) => add_synonyms(r, s.words, word),
            None => r,
        }
    }
}

/// The synonyms of a word in lower case: from the entries of the word, in
/// order, and from their synsets, in order.
pub open spec fn synonyms_of(index: Seq<WordEntryModel>, data: Seq<SynSetModel>, word: Seq<char>) -> Seq<
    Seq<char>,
>
    decreases index.len(),
{
    if index.len() == 0 {
        Seq::empty()
    } else {
        let r = synonyms_of(index.drop_last(), data, word);
        let e = index.last();
        if e.word == word {
            synonyms_at(r, data, e.offsets, e.pos, word)
        } else {
            r
        }
    }
}

/// The entries of a word, in order.
pub open spec fn entries_of_word(index: Seq<WordEntryModel>, word: Seq<char>) -> Seq<WordEntryModel>
    decreases index.len(),
{
    if index.len() == 0 {
        Seq::empty()
    } else if index.last().word == word {
        entries_of_word(index.drop_last(), word).push(index.last())
    } else {
        entries_of_word(index.drop_last(), word)
    }
}

/// `acc`, then the synonyms from the synsets of each of the entries.
pub open spec fn synonyms_through(
    acc: Seq<Seq<char>>,
    entries: Seq<WordEntryModel>,
    data: Seq<SynSetModel>,
    word: Seq<char>,
) -> Seq<Seq<char>>
    decreases entries.len(),
{
    if entries.len() == 0 {
        acc
    } else {
        synonyms_at(
            synonyms_through(acc, entries.drop_last(), data, word),
            data,
            entries.last().offsets,
            entries.last().pos,
            word,
        )
    }
}

/// The synonyms of a word come from the entries of the word alone.
pub proof fn lemma_synonyms_through(
    index: Seq<WordEntryModel>,
    data: Seq<SynSetModel>,
    word: Seq<char>,
)
    ensures
        synonyms_of(index, data, word) == synonyms_through(
            Seq::empty(),
            entries_of_word(index, word),
            data,
            word,
        ),
    decreases index.len(),
{
    if index.len() > 0 {
        lemma_synonyms_through(index.drop_last(), data, word);
        if index.last().word == word {
            let es = entries_of_word(index, word);
            assert(es.drop_last() =~= entries_of_word(index.drop_last(), word));
            assert(es.last() == index.last());
        }
    }
}

/// The synsets with an offset, in order.
pub open spec fn synsets_of_offset(data: Seq<SynSetModel>, offset: u64) -> Seq<SynSetModel>
    decreases data.len(),
{
    if data.len() == 0 {
        Seq::empty()
    } else if data.last().offset == offset {
        synsets_of_offset(data.drop_last(), offset).push(data.last())
    } else {
        synsets_of_offset(data.drop_last(), offset)
    }
}

/// The last of the synsets with the part of speech.
pub open spec fn last_with_pos(sets: Seq<SynSetModel>, pos: Seq<char>) -> Option<SynSetModel>
    decreases sets.len(),
{
    if sets.len() == 0 {
        None
    } else if sets.last().pos == pos {
        Some(sets.last())
    } else {
        last_with_pos(sets.drop_last(), pos)
    }
}

/// The synset at an offset and a part of speech is the last with that part
/// of speech among the synsets with the offset.
pub proof fn lemma_synset_in_bucket(data: Seq<SynSetModel>, offset: u64, pos: Seq<char>)
    ensures
        synset_at(data, offset, pos) == last_with_pos(synsets_of_offset(data, offset), pos),
    decreases data.len(),
{
    if data.len() > 0 {
        lemma_synset_in_bucket(data.drop_last(), offset, pos);
        if data.last().offset == offset {
            let b = synsets_of_offset(data, offset);
            assert(b.drop_last() =~= synsets_of_offset(data.drop_last(), offset));
            assert(b.last() == data.last());
        }
    }
}

/// The entries at the places.
pub open spec fn entries_at(index: Seq<WordEntryModel>, ps: Seq<usize>) -> Seq<WordEntryModel> {
    Seq::new(ps.len(), |j: int| index[ps[j] as int])
}

/// The synsets at the places.
pub open spec fn synsets_at(data: Seq<SynSetModel>, ps: Seq<usize>) -> Seq<SynSetModel> {
    Seq::new(ps.len(), |j: int| data[ps[j] as int])
}

/// The places that the map gives for an offset.
pub open spec fn offset_places(m: Map<u64, Vec<usize>>, offset: u64) -> Seq<usize> {
    if m.contains_key(offset) {
        m[offset]@
    } else {
        Seq::empty()
    }
}

/// Whether the table leads from each word to the places of its entries
/// among the first `n` entries.
pub open spec fn holds_words(t: Table<Vec<usize>>, index: Seq<WordEntryModel>, n: int) -> bool {
    &&& forall|k: Seq<char>| entries_at(index, #[trigger] t.list(k)) == entries_of_word(index.take(n), k)
    &&& forall|k: Seq<char>, j: int| 0 <= j < t.list(k).len() ==> (#[trigger] t.list(k)[j]) < n
    &&& forall|k: Seq<char>| t.has(k) ==> (#[trigger] t.list(k)).len() > 0
}

/// Whether the map leads from each offset to the places of its synsets
/// among the first `n` synsets.
pub open spec fn holds_synsets(m: Map<u64, Vec<usize>>, data: Seq<SynSetModel>, n: int) -> bool {
    &&& forall|o: u64| synsets_at(data, #[trigger] offset_places(m, o)) == synsets_of_offset(data.take(n), o)
    &&& forall|o: u64, j: int| 0 <= j < offset_places(m, o).len() ==> (#[trigger] offset_places(m, o)[j]) < n
}

/// The table from words to the places of their entries.
fn index_words(index: &Vec<WordEntry>) -> (t: Table<Vec<usize>>)
    ensures
        t.wf(),
        holds_words(t, index@.map_values(|e: WordEntry| e@), index@.len() as int),
{
    let ghost im = index@.map_values(|e: WordEntry| e@);
    let mut t: Table<Vec<usize>> = Table::new();
    let mut i: usize = 0;
    assert(im.take(0) =~= Seq::<WordEntryModel>::empty());
    assert forall|k: Seq<char>| entries_at(im, #[trigger] t.list(k)) == entries_of_word(
        im.take(0),
        k,
    ) by {
        assert(entries_at(im, t.list(k)) =~= Seq::<WordEntryModel>::empty());
    }
    while i < index.len()
        invariant
            i <= index.len(),
            im == index@.map_values(|e: WordEntry| e@),
            t.wf(),
            holds_words(t, im, i as int),
        decreases index.len() - i,
    {
        let e = &index[i];
        proof {
            assert(im.take(i + 1).drop_last() =~= im.take(i as int));
            assert(im.take(i + 1).last() == e@);
        }
        let ghost before = t;
        t.append(e.word.clone(), i);
        assert forall|k: Seq<char>| entries_at(im, #[trigger] t.list(k)) == entries_of_word(
            im.take(i + 1),
            k,
        ) by {
            assert(entries_at(im, before.list(k)) == entries_of_word(im.take(i as int), k));
            if k == e.word@ {
                assert(entries_at(im, t.list(k)) =~= entries_at(im, before.list(k)).push(e@));
            }
        }
        assert forall|k: Seq<char>, j: int| 0 <= j < t.list(k).len() implies (#[trigger] t.list(
            k,
        )[j]) < i + 1 by {
            if k == e.word@ {
                if j < before.list(k).len() {
                    assert(before.list(k)[j] < i);
                }
            } else {
                assert(before.list(k)[j] < i);
            }
        }
        assert forall|k: Seq<char>| t.has(k) implies (#[trigger] t.list(k)).len() > 0 by {
            if k != e.word@ {
                assert(before.has(k));
                assert(before.list(k).len() > 0);
            }
        }
        i += 1;
    }
    t
}

/// The map from offsets to the places of their synsets.
fn index_synsets(data: &Vec<SynSet>) -> (m: HashMap<u64, Vec<usize>>)
    ensures
        holds_synsets(m@, data@.map_values(|e: SynSet| e@), data@.len() as int),
{
    let ghost dm = data@.map_values(|e: SynSet| e@);
    let mut m: HashMap<u64, Vec<usize>> = HashMap::new();
    let mut i: usize = 0;
    assert(dm.take(0) =~= Seq::<SynSetModel>::empty());
    assert forall|o: u64| synsets_at(dm, #[trigger] offset_places(m@, o)) == synsets_of_offset(
        dm.take(0),
        o,
    ) by {
        assert(synsets_at(dm, offset_places(m@, o)) =~= Seq::<SynSetModel>::empty());
    }
    while i < data.len()
        invariant
            i <= data.len(),
            dm == data@.map_values(|e: SynSet| e@),
            holds_synsets(m@, dm, i as int),
        decreases data.len() - i,
    {
        let d = &data[i];
        proof {
            assert(dm.take(i + 1).drop_last() =~= dm.take(i as int));
            assert(dm.take(i + 1).last() == d@);
        }
        let ghost before = m@;
        let mut b = match m.remove(&d.offset) {
            Some(b) => b,
            None => Vec::new(),
        };
        assert(b@ == offset_places(before, d.offset));
        b.push(i);
        m.insert(d.offset, b);
        assert forall|o: u64| synsets_at(dm, #[trigger] offset_places(m@, o)) == synsets_of_offset(
            dm.take(i + 1),
            o,
        ) by {
            assert(synsets_at(dm, offset_places(before, o)) == synsets_of_offset(
                dm.take(i as int),
                o,
            ));
            if o == d.offset {
                assert(synsets_at(dm, offset_places(m@, o)) =~= synsets_at(
                    dm,
                    offset_places(before, o),
                ).push(d@));
            } else {
                assert(offset_places(m@, o) == offset_places(before, o));
            }
        }
        assert forall|o: u64, j: int| 0 <= j < offset_places(m@, o).len() implies (
        #[trigger] offset_places(m@, o)[j]) < i + 1 by {
            if o == d.offset {
                if j < offset_places(before, o).len() {
                    assert(offset_places(before, o)[j] < i);
                }
            } else {
                assert(offset_places(before, o)[j] < i);
            }
        }
        i += 1;
    }
    m
}

impl WordNet {
    pub open spec fn index_model(&self) -> Seq<WordEntryModel> {
        self.index@.map_values(|e: WordEntry| e@)
    }

    pub open spec fn data_model(&self) -> Seq<SynSetModel> {
        self.data@.map_values(|e: SynSet| e@)
    }

    /// Whether the table and the map lead to what the lists hold.
    pub open spec fn wf(&self) -> bool {
        &&& self.words.wf()
        &&& holds_words(self.words, self.index_model(), self.index@.len() as int)
        &&& holds_synsets(self.synsets@, self.data_model(), self.data@.len() as int)
    }

    /// An empty WordNet, for when no dictionary is available.
    pub fn default() -> (r: WordNet)
        ensures
            r.wf(),
            r.index@.len() == 0,
            r.data@.len() == 0,
    {
        Self::from_lists(Vec::new(), Vec::new())
    }

    /// A WordNet of the given index entries and synsets.
    pub fn from_lists(index: Vec<WordEntry>, data: Vec<SynSet>) -> (r: WordNet)
        ensures
            r.wf(),
            r.index@ == index@,
            r.data@ == data@,
    {
        let words = index_words(&index);
        let synsets = index_synsets(&data);
        WordNet { index, data, words, synsets }
    }

    /// The last synset with the offset and the part of speech.
    pub fn find_synset(&self, offset: u64, pos: &String) -> (r: Option<&SynSet>)
        requires
            self.wf(),
        ensures
            match r {
                Some(s) => synset_at(self.data_model(), offset, pos@) == Some(s@),
                None => synset_at(self.data_model(), offset, pos@) is None,
            },
    {
        let ghost dm = self.data_model();
        let ghost sets = synsets_of_offset(dm, offset);
        proof {
            lemma_synset_in_bucket(dm, offset, pos@);
            assert(dm.take(self.data@.len() as int) =~= dm);
            assert(synsets_at(dm, offset_places(self.synsets@, offset)) == sets);
        }
        match self.synsets.get(&offset) {
            None => None,
            Some(b) => {
                let mut t: usize = b.len();
                assert(sets.take(t as int) =~= sets);
                while t > 0
                    invariant
                        t <= b.len(),
                        dm == self.data_model(),
                        b@ == offset_places(self.synsets@, offset),
                        synsets_at(dm, b@) == sets,
                        forall|j: int| 0 <= j < b@.len() ==> (#[trigger] b@[j]) < self.data@.len(),
                        synset_at(dm, offset, pos@) == last_with_pos(sets, pos@),
                        last_with_pos(sets, pos@) == last_with_pos(sets.take(t as int), pos@),
                    decreases t,
                {
                    assert(b@[t - 1] < self.data@.len());
                    let s = &self.data[b[t - 1]];
                    assert(sets[t - 1] == s@);
                    assert(sets.take(t as int).last() == s@);
                    if s.pos == *pos {
                        return Some(s);
                    }
                    assert(sets.take(t as int).drop_last() =~= sets.take(t - 1));
                    t -= 1;
                }
                None
            },
        }
    }

    /// Get synonyms of a word.
    pub fn get_synonyms(&self, word: &str) -> (r: Vec<String>)
        requires
            self.wf(),
        ensures
            strs(r@) == synonyms_of(self.index_model(), self.data_model(), lowercased(word@)),
    {
        let key = to_lowercase(word);
        let ghost im = self.index_model();
        let ghost dm = self.data_model();
        let mut out: Vec<String> = Vec::new();
        let ghost mine = entries_of_word(im, key@);
        proof {
            lemma_synonyms_through(im, dm, key@);
            assert(im.take(self.index@.len() as int) =~= im);
            assert(entries_at(im, self.words.list(key@)) == mine);
        }
        let none: Vec<usize> = Vec::new();
        let places = match self.words.get(&key) {
            Some(l) => l,
            None => &none,
        };
        assert(places@ == self.words.list(key@));
        let mut i: usize = 0;
        assert(mine.take(0) =~= Seq::<WordEntryModel>::empty());
        assert(strs(out@) =~= Seq::<Seq<char>>::empty());
        while i < places.len()
            invariant
                i <= places.len(),
                self.wf(),
                im == self.index_model(),
                dm == self.data_model(),
                key@ == lowercased(word@),
                places@ == self.words.list(key@),
                entries_at(im, places@) == mine,
                strs(out@) == synonyms_through(Seq::empty(), mine.take(i as int), dm, key@),
            decreases places.len() - i,
        {
            assert(self.words.list(key@)[i as int] < self.index@.len());
            let e = &self.index[places[i]];
            proof {
                assert(mine[i as int] == e@);
                assert(mine.take(i + 1).drop_last() =~= mine.take(i as int));
                assert(mine.take(i + 1).last() == e@);
            }
            {
                let ghost base = strs(out@);
                let ghost offs = e.synset_offsets@;
                let mut j: usize = 0;
                assert(offs.take(0) =~= Seq::<u64>::empty());
                while j < e.synset_offsets.len()
                    invariant
                        j <= e.synset_offsets.len(),
                        self.wf(),
                        offs == e.synset_offsets@,
                        dm == self.data_model(),
                        strs(out@) == synonyms_at(base, dm, offs.take(j as int), e.pos@, key@),
                    decreases e.synset_offsets.len() - j,
                {
                    proof {
                        assert(offs.take(j + 1).drop_last() =~= offs.take(j as int));
                        assert(offs.take(j + 1).last() == offs[j as int]);
                    }
                    match self.find_synset(e.synset_offsets[j], &e.pos) {
                        Some(s) => {
                            let ghost inner = strs(out@);
                            let ghost sw = strs(s.words@);
                            let mut k: usize = 0;
                            assert(sw.take(0) =~= Seq::<Seq<char>>::empty());
                            while k < s.words.len()
                                invariant
                                    k <= s.words.len(),
                                    sw == strs(s.words@),
                                    strs(out@) == add_synonyms(inner, sw.take(k as int), key@),
                                decreases s.words.len() - k,
                            {
                                proof {
                                    assert(sw.take(k + 1).drop_last() =~= sw.take(k as int));
                                    assert(sw.take(k + 1).last() == s.words@[k as int]@);
                                }
                                let clean = clean_synonym(&s.words[k]);
                                if clean != key && !contains_str(&out, &clean) {
                                    let ghost before = out@;
                                    out.push(clean);
                                    assert(strs(out@) =~= strs(before).push(clean@));
                                }
                                k += 1;
                            }
                            assert(sw.take(s.words.len() as int) =~= sw);
                        },
                        None => {},
                    }
                    j += 1;
                }
                assert(offs.take(e.synset_offsets.len() as int) =~= offs);
            }
            i += 1;
        }
        assert(mine.take(places.len() as int) =~= mine);
        out
    }

    /// Check if a word exists in the dictionary: whether the index holds an
    /// entry for the word in lower case.
    pub fn contains(&self, word: &str) -> (b: bool)
        requires
            self.wf(),
        ensures
            b == (entries_of_word(self.index_model(), lowercased(word@)).len() > 0),
    {
        let key = to_lowercase(word);
        proof {
            let im = self.index_model();
            assert(im.take(self.index@.len() as int) =~= im);
            assert(entries_at(im, self.words.list(key@)) == entries_of_word(im, key@));
            if self.words.has(key@) {
                assert(self.words.list(key@).len() > 0);
            }
        }
        self.words.position(&key).is_some()
    }

    /// Number of words indexed.
    pub fn len(&self) -> (n: usize)
        ensures
            n == self.index_model().map_values(|e: WordEntryModel| e.word).to_set().len(),
    {
        let ghost ws = self.index_model().map_values(|e: WordEntryModel| e.word);
        let mut seen: Vec<String> = Vec::new();
        let mut i: usize = 0;
        assert(strs(seen@).to_set() =~= ws.take(0).to_set());
        while i < self.index.len()
            invariant
                i <= self.index.len(),
                ws == self.index_model().map_values(|e: WordEntryModel| e.word),
                strs(seen@).no_duplicates(),
                strs(seen@).to_set() == ws.take(i as int).to_set(),
            decreases self.index.len() - i,
        {
            let w = &self.index[i].word;
            proof {
                assert(ws.take(i + 1) =~= ws.take(i as int).push(w@));
                ws.take(i as int).lemma_push_to_set_commute(w@);
            }
            if !contains_str(&seen, w) {
                let ghost before = strs(seen@);
                seen.push(w.clone());
                proof {
                    assert(strs(seen@) =~= before.push(w@));
                    before.lemma_push_to_set_commute(w@);
                }
            } else {
                assert(strs(seen@).to_set().insert(w@) =~= strs(seen@).to_set());
            }
            i += 1;
        }
        proof {
            assert(ws.take(self.index.len() as int) =~= ws);
            strs(seen@).unique_seq_to_set();
        }
        seen.len()
    }

    pub fn is_empty(&self) -> (b: bool)
        ensures
            b == (self.index_model().len() == 0),
    {
        self.index.len() == 0
    }
}

/// A word of a synset as a synonym.
pub fn clean_synonym(w: &String) -> (r: String)
    ensures
        r@ == clean_word(w@),
{
    let v = to_chars(w.as_str());
    let mut spaced: Vec<char> = Vec::new();
    let mut i: usize = 0;
    while i < v.len()
        invariant
            i <= v.len(),
            spaced.len() == i,
            forall|k: int|
                0 <= k < i ==> spaced@[k] == if v@[k] == '_' {
                    ' '
                } else {
                    v@[k]
                },
        decreases v.len() - i,
    {
        if v[i] == '_' {
            spaced.push(' ');
        } else {
            spaced.push(v[i]);
        }
        i += 1;
    }
    assert(spaced@ =~= w@.map_values(
        |c: char|
            if c == '_' {
                ' '
            } else {
                c
            },
    ));
    let l = lowercase(&spaced);
    from_chars(&l)
}

} // verus!
