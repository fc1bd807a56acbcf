use std::collections::HashMap;
use vstd::prelude::*;
use crate::lang::arabic::{normalize_arabic, normalize_chars, normalized};
use crate::lang::number::{parse_radix, parsed};
use crate::data::table::Table;
use crate::lang::text::{clone_words, contains_str, from_chars, lines, lines_of, seqs, skip_leading, skip_trailing, split_char, starts_with, strs, to_chars, trim_by, trim_end, trim_start, trimmed, pieces, copy_range, CharClass};
use crate::lang::transliteration::{buckwalter_to_arabic_chars, from_buckwalter};

verus! {

broadcast use vstd::std_specs::hash::group_hash_axioms;

/// A single morphology entry: one segment of one word of the corpus.
#[derive(Debug, Clone)]
pub struct MorphEntry {
    pub sura: u16,
    pub aya: u16,
    pub word: u16,
    pub segment: u16,
    pub form_bw: String,
    pub form_ar: String,
    pub tag: String,
    pub features: String,
    pub root: String,
    pub lemma: String,
}

/// What a morphology entry holds, as plain values.
pub ghost struct MorphModel {
    pub sura: u16,
    pub aya: u16,
    pub word: u16,
    pub segment: u16,
    pub form_bw: Seq<char>,
    pub form_ar: Seq<char>,
    pub tag: Seq<char>,
    pub features: Seq<char>,
    pub root: Seq<char>,
    pub lemma: Seq<char>,
}

impl View for MorphEntry {
    type V = MorphModel;

    open spec fn view(&self) -> MorphModel {
        MorphModel {
            sura: self.sura,
            aya: self.aya,
            word: self.word,
            segment: self.segment,
            form_bw: self.form_bw@,
            form_ar: self.form_ar@,
            tag: self.tag@,
            features: self.features@,
            root: self.root@,
            lemma: self.lemma@,
        }
    }
}

/// The normal forms under which an entry is found.
#[derive(Debug, Clone)]
pub struct NormalForms {
    pub form: String,
    pub root: String,
    pub lemma: String,
}

/// The morphology table: its entries in file order, beside each entry the
/// normal forms of its surface form, root and lemma, and the indexes that
/// are derived from them.
#[derive(Debug)]
pub struct QacMorphology {
    pub entries: Vec<MorphEntry>,
    pub forms: Vec<NormalForms>,
    /// Word location to the places of its entries.
    pub places: HashMap<u64, Vec<usize>>,
    /// Root lookup: root to the word locations that carry it, rising.
    pub roots: Table<Vec<(u16, u16, u16)>>,
    /// Reverse index: normal form to its roots.
    pub form_to_roots: Table<Vec<String>>,
    /// Forward index: root to its normal surface forms.
    pub root_to_forms: Table<Vec<String>>,
    /// Forward index: lemma to its normal surface forms.
    pub lemma_to_forms: Table<Vec<String>>,
    /// Reverse index: normal form to its lemmas.
    pub form_to_lemmas: Table<Vec<String>>,
}

/// The value of the first part that begins with `prefix`: what follows the
/// prefix in it. Empty where no part begins with it.
pub open spec fn feature_in(parts: Seq<Seq<char>>, prefix: Seq<char>) -> Seq<char>
    decreases parts.len(),
{
    if parts.len() == 0 {
        Seq::empty()
    } else if prefix.is_prefix_of(parts[0]) {
        parts[0].skip(prefix.len() as int)
    } else {
        feature_in(parts.drop_first(), prefix)
    }
}

/// The value of a feature in a feature string whose parts are parted by `|`.
pub open spec fn feature_of(features: Seq<char>, prefix: Seq<char>) -> Seq<char> {
    feature_in(pieces(features, '|'), prefix)
}

/// Extract a value from the features string by prefix.
pub fn extract_feature(features: &Vec<char>, prefix: &Vec<char>) -> (r: Vec<char>)
    ensures
        r@ == feature_of(features@, prefix@),
{
    let parts = split_char(features, '|');
    let ghost ps = seqs(parts@);
    let mut i: usize = 0;
    assert(ps.skip(0) =~= ps);
    while i < parts.len()
        invariant
            i <= parts.len(),
            ps == seqs(parts@),
            ps == pieces(features@, '|'),
            feature_in(ps, prefix@) == feature_in(ps.skip(i as int), prefix@),
        decreases parts.len() - i,
    {
        let part = &parts[i];
        assert(ps.skip(i as int)[0] == part@);
        if starts_with(part, prefix) {
            let r = copy_range(part, prefix.len(), part.len());
            assert(part@.subrange(prefix.len() as int, part.len() as int) =~= part@.skip(
                prefix.len() as int,
            ));
            return r;
        }
        assert(ps.skip(i as int).drop_first() =~= ps.skip(i + 1));
        i += 1;
    }
    Vec::new()
}

/// The number that a field writes, or 0 where it writes none.
pub open spec fn number_or_zero(s: Seq<char>) -> u16 {
    match parsed(s, 10, 65535) {
        Some(n) => n as u16,
        None => 0,
    }
}

pub fn parse_or_zero(v: &Vec<char>) -> (n: u16)
    ensures
        n == number_or_zero(v@),
{
    match parse_radix(v, 10, 65535) {
        Some(n) => n as u16,
        None => 0,
    }
}

/// Whether a trimmed line holds no entry: blank, a comment, or the header.
pub open spec fn is_passed_over(l: Seq<char>) -> bool {
    l.len() == 0 || l[0] == '#' || "LOCATION"@.is_prefix_of(l)
}

/// The location field without its brackets.
pub open spec fn bare_location(field: Seq<char>) -> Seq<char> {
    trim_end(trim_start(field, CharClass::Exactly('(')), CharClass::Exactly(')'))
}

/// The entry that a line of the morphology file writes, if it writes one.
pub open spec fn entry_of_line(raw: Seq<char>) -> Option<MorphModel> {
    let l = trimmed(raw, CharClass::Space);
    let parts = pieces(l, '\t');
    let loc = pieces(bare_location(parts[0]), ':');
    if is_passed_over(l) || parts.len() < 4 || loc.len() < 4 {
        None
    } else {
        let sura = number_or_zero(loc[0]);
        let aya = number_or_zero(loc[1]);
        let word = number_or_zero(loc[2]);
        if sura == 0 || aya == 0 || word == 0 {
            None
        } else {
            Some(
                MorphModel {
                    sura,
                    aya,
                    word,
                    segment: number_or_zero(loc[3]),
                    form_bw: parts[1],
                    form_ar: from_buckwalter(parts[1]),
                    tag: parts[2],
                    features: parts[3],
                    root: from_buckwalter(feature_of(parts[3], "ROOT:"@)),
                    lemma: feature_of(parts[3], "LEM:"@),
                },
            )
        }
    }
}

/// The entries that the given lines write, in order.
pub open spec fn entries_of_lines(ls: Seq<Seq<char>>) -> Seq<MorphModel>
    decreases ls.len(),
{
    if ls.len() == 0 {
        Seq::empty()
    } else {
        let rest = entries_of_lines(ls.drop_last());
        match entry_of_line(ls.last()) {
            Some(e) => rest.push(e),
            None => rest,
        }
    }
}

/// Reads one line of the morphology file.
pub fn parse_morph_line(raw: &Vec<char>) -> (r: Option<MorphEntry>)
    ensures
        match r {
            Some(e) => entry_of_line(raw@) == Some(e@),
            None => entry_of_line(raw@) is None,
        },
{
    let l = trim_by(raw, CharClass::Space);
    let header = to_chars("LOCATION");
    if l.len() == 0 || l[0] == '#' || starts_with(&l, &header) {
        return None;
    }
    let parts = split_char(&l, '\t');
    if parts.len() < 4 {
        return None;
    }
    let ghost ps = seqs(parts@);
    assert(ps[0] == parts@[0]@ && ps[1] == parts@[1]@ && ps[2] == parts@[2]@ && ps[3]
        == parts@[3]@);
    let field = &parts[0];
    let lo = skip_leading(field, CharClass::Exactly('('));
    let hi = skip_trailing(field, lo, CharClass::Exactly(')'));
    let bare = copy_range(field, lo, hi);
    let loc = split_char(&bare, ':');
    if loc.len() < 4 {
        return None;
    }
    let ghost lp = seqs(loc@);
    assert(lp[0] == loc@[0]@ && lp[1] == loc@[1]@ && lp[2] == loc@[2]@ && lp[3] == loc@[3]@);
    let sura = parse_or_zero(&loc[0]);
    let aya = parse_or_zero(&loc[1]);
    let word = parse_or_zero(&loc[2]);
    let segment = parse_or_zero(&loc[3]);
    if sura == 0 || aya == 0 || word == 0 {
        return None;
    }
    let form_ar = buckwalter_to_arabic_chars(&parts[1]);
    let root_key = to_chars("ROOT:");
    let lemma_key = to_chars("LEM:");
    let root_bw = extract_feature(&parts[3], &root_key);
    let lemma_bw = extract_feature(&parts[3], &lemma_key);
    let root = buckwalter_to_arabic_chars(&root_bw);
    Some(
        MorphEntry {
            sura,
            aya,
            word,
            segment,
            form_bw: from_chars(&parts[1]),
            form_ar: from_chars(&form_ar),
            tag: from_chars(&parts[2]),
            features: from_chars(&parts[3]),
            root: from_chars(&root),
            lemma: from_chars(&lemma_bw),
        },
    )
}

/// The location of an entry as one number that orders as the triple does.
pub open spec fn location_rank(l: (u16, u16, u16)) -> int {
    l.0 as int * 0x1_0000_0000 + l.1 as int * 0x1_0000 + l.2 as int
}

/// Whether the locations stand in strictly rising order.
pub open spec fn rising(s: Seq<(u16, u16, u16)>) -> bool {
    forall|i: int, j: int| 0 <= i < j < s.len() ==> location_rank(s[i]) < location_rank(s[j])
}

pub fn rank_of(l: (u16, u16, u16)) -> (r: u64)
    ensures
        r == location_rank(l),
{
    (l.0 as u64) * 0x1_0000_0000 + (l.1 as u64) * 0x1_0000 + (l.2 as u64)
}

/// Puts a location in its place in a rising list, unless the list has it.
pub fn insert_location(list: &mut Vec<(u16, u16, u16)>, loc: (u16, u16, u16))
    requires
        rising(old(list)@),
    ensures
        rising(final(list)@),
        final(list)@.to_set() == old(list)@.to_set().insert(loc),
{
    let r = rank_of(loc);
    let mut i: usize = 0;
    while i < list.len() && rank_of(list[i]) < r
        invariant
            i <= list.len(),
            list@ == old(list)@,
            rising(list@),
            r == location_rank(loc),
            forall|k: int| 0 <= k < i ==> location_rank(list@[k]) < r,
        decreases list.len() - i,
    {
        i += 1;
    }
    if i < list.len() && rank_of(list[i]) == r {
        let ghost cur = list@[i as int];
        assert(cur == loc) by {
            assert(location_rank(cur) == location_rank(loc));
        }
        assert(list@.to_set().insert(loc) =~= list@.to_set());
    } else {
        let ghost before = list@;
        list.insert(i, loc);
        assert(list@ == before.insert(i as int, loc));
        assert(rising(list@)) by {
            assert forall|a: int, b: int| 0 <= a < b < list@.len() implies location_rank(list@[a])
                < location_rank(list@[b]) by {
                let a0 = if a < i { a } else { a - 1 };
                let b0 = if b < i { b } else { b - 1 };
                if a != i && b != i {
                    assert(list@[a] == before[a0]);
                    assert(list@[b] == before[b0]);
                } else if a == i {
                    assert(list@[b] == before[b0]);
                } else {
                    assert(list@[a] == before[a0]);
                }
            }
        }
        assert(list@.to_set() =~= before.to_set().insert(loc)) by {
            assert forall|x: (u16, u16, u16)| list@.to_set().contains(x) <==> before.to_set().insert(
                loc,
            ).contains(x) by {
                if list@.contains(x) {
                    let k = choose|k: int| 0 <= k < list@.len() && list@[k] == x;
                    if k < i {
                        assert(before[k] == x);
                    } else if k > i {
                        assert(before[k - 1] == x);
                    }
                }
                if before.contains(x) {
                    let k = choose|k: int| 0 <= k < before.len() && before[k] == x;
                    if k < i {
                        assert(list@[k] == x);
                    } else {
                        assert(list@[k + 1] == x);
                    }
                }
                if x == loc {
                    assert(list@[i as int] == x);
                }
            }
        }
    }
}

/// The normal form of a lemma given in Buckwalter transliteration.
pub fn normal_lemma_of(lemma_bw: &String) -> (r: String)
    ensures
        r@ == normalized(from_buckwalter(lemma_bw@)),
{
    let bw = to_chars(lemma_bw.as_str());
    let ar = buckwalter_to_arabic_chars(&bw);
    let n = normalize_chars(&ar);
    from_chars(&n)
}

/// Which two normal forms of an entry a lookup relates.
#[derive(Clone, Copy)]
pub enum Link {
    RootToForm,
    FormToRoot,
    LemmaToForm,
    FormToLemma,
}

/// The normal form by which a lookup of the kind finds an entry.
pub open spec fn link_key(e: MorphModel, kind: Link) -> Seq<char> {
    match kind {
        Link::RootToForm => normalized(e.root),
        Link::FormToRoot => normalized(e.form_ar),
        Link::LemmaToForm => normal_lemma(e),
        Link::FormToLemma => normalized(e.form_ar),
    }
}

/// The normal form of the lemma of an entry, which the entry holds in
/// Buckwalter transliteration.
pub open spec fn normal_lemma(e: MorphModel) -> Seq<char> {
    normalized(from_buckwalter(e.lemma))
}

/// The normal form that a lookup of the kind hands out for an entry.
pub open spec fn link_value(e: MorphModel, kind: Link) -> Seq<char> {
    match kind {
        Link::RootToForm => normalized(e.form_ar),
        Link::FormToRoot => normalized(e.root),
        Link::LemmaToForm => normalized(e.form_ar),
        Link::FormToLemma => normal_lemma(e),
    }
}

/// Whether a lookup of the kind for `key` finds the entry: the entry names a
/// root where the lookup goes by roots, the normal forms of its surface form
/// and (where the lookup goes by lemmas) of its lemma are not empty, and its
/// key is the one asked for.
pub open spec fn is_linked(e: MorphModel, kind: Link, key: Seq<char>) -> bool {
    match kind {
        Link::RootToForm | Link::FormToRoot => e.root.len() > 0 && normalized(e.form_ar).len() > 0
            && link_key(e, kind) == key,
        Link::LemmaToForm | Link::FormToLemma => normalized(e.form_ar).len() > 0 && normal_lemma(
            e,
        ).len() > 0 && link_key(e, kind) == key,
    }
}

/// The values that a lookup of the kind for `key` finds among the entries:
/// each once, in the order of its first entry.
pub open spec fn linked(es: Seq<MorphModel>, kind: Link, key: Seq<char>) -> Seq<Seq<char>>
    decreases es.len(),
{
    if es.len() == 0 {
        Seq::empty()
    } else {
        let rest = linked(es.drop_last(), kind, key);
        let v = link_value(es.last(), kind);
        if is_linked(es.last(), kind, key) && !rest.contains(v) {
            rest.push(v)
        } else {
            rest
        }
    }
}

/// The entries at a word location, in file order.
pub open spec fn located(es: Seq<MorphModel>, sura: u16, aya: u16, word: u16) -> Seq<MorphModel>
    decreases es.len(),
{
    if es.len() == 0 {
        Seq::empty()
    } else {
        let rest = located(es.drop_last(), sura, aya, word);
        let e = es.last();
        if e.sura == sura && e.aya == aya && e.word == word {
            rest.push(e)
        } else {
            rest
        }
    }
}

/// The word locations whose entries carry the root.
pub open spec fn root_locations(es: Seq<MorphModel>, root: Seq<char>) -> Set<(u16, u16, u16)>
    decreases es.len(),
{
    if es.len() == 0 {
        Set::empty()
    } else {
        let rest = root_locations(es.drop_last(), root);
        let e = es.last();
        if is_linked(e, Link::RootToForm, root) {
            rest.insert((e.sura, e.aya, e.word))
        } else {
            rest
        }
    }
}

/// The roots, as the entries write them, of the entries whose surface form
/// has the given normal form; each once, in file order.
pub open spec fn written_roots(es: Seq<MorphModel>, form: Seq<char>) -> Seq<Seq<char>>
    decreases es.len(),
{
    if es.len() == 0 {
        Seq::empty()
    } else {
        let rest = written_roots(es.drop_last(), form);
        let e = es.last();
        if normalized(e.form_ar) == form && e.root.len() > 0 && !rest.contains(e.root) {
            rest.push(e.root)
        } else {
            rest
        }
    }
}

/// The places of the entries at a word location, in file order.
pub open spec fn places_of(es: Seq<MorphModel>, sura: u16, aya: u16, word: u16) -> Seq<usize>
    decreases es.len(),
{
    if es.len() == 0 {
        Seq::empty()
    } else {
        let rest = places_of(es.drop_last(), sura, aya, word);
        let e = es.last();
        if e.sura == sura && e.aya == aya && e.word == word {
            rest.push((es.len() - 1) as usize)
        } else {
            rest
        }
    }
}

/// The entries at a word location are the entries at its places.
pub proof fn lemma_places(es: Seq<MorphModel>, sura: u16, aya: u16, word: u16)
    requires
        es.len() <= usize::MAX,
    ensures
        places_of(es, sura, aya, word).len() == located(es, sura, aya, word).len(),
        forall|j: int|
            0 <= j < places_of(es, sura, aya, word).len() ==> 0 <= (#[trigger] places_of(
                es,
                sura,
                aya,
                word,
            )[j]) < es.len() && located(es, sura, aya, word)[j] == es[places_of(
                es,
                sura,
                aya,
                word,
            )[j] as int],
    decreases es.len(),
{
    if es.len() > 0 {
        lemma_places(es.drop_last(), sura, aya, word);
    }
}

/// What the index gives for a word location.
pub open spec fn places_at(m: Map<u64, Vec<usize>>, sura: u16, aya: u16, word: u16) -> Seq<usize> {
    let code = location_rank((sura, aya, word)) as u64;
    if m.contains_key(code) {
        m[code]@
    } else {
        Seq::empty()
    }
}

/// Whether the index leads from each word location to the places of its
/// entries.
pub open spec fn holds_places(m: Map<u64, Vec<usize>>, es: Seq<MorphModel>) -> bool {
    forall|s: u16, a: u16, w: u16| #[trigger] places_of(es, s, a, w) == places_at(m, s, a, w)
}

/// The index from word locations to entries.
fn build_places(entries: &Vec<MorphEntry>) -> (m: HashMap<u64, Vec<usize>>)
    ensures
        holds_places(m@, entries@.map_values(|e: MorphEntry| e@)),
{
    let ghost es = entries@.map_values(|e: MorphEntry| e@);
    let mut m: HashMap<u64, Vec<usize>> = HashMap::new();
    let mut i: usize = 0;
    assert(es.take(0) =~= Seq::<MorphModel>::empty());
    while i < entries.len()
        invariant
            i <= entries.len(),
            es == entries@.map_values(|e: MorphEntry| e@),
            holds_places(m@, es.take(i as int)),
        decreases entries.len() - i,
    {
        let e = &entries[i];
        let ghost done = es.take(i as int);
        let ghost next = es.take(i + 1);
        proof {
            assert(next.drop_last() =~= done);
            assert(next.last() == e@);
        }
        let code = rank_of((e.sura, e.aya, e.word));
        let ghost before = m@;
        let mut b = match m.remove(&code) {
            Some(b) => b,
            None => Vec::new(),
        };
        assert(b@ == places_at(before, e.sura, e.aya, e.word));
        b.push(i);
        m.insert(code, b);
        assert forall|s: u16, a: u16, w: u16| #[trigger]
            places_of(next, s, a, w) == places_at(m@, s, a, w) by {
            assert(places_of(done, s, a, w) == places_at(before, s, a, w));
            if !(s == e.sura && a == e.aya && w == e.word) {
                assert(location_rank((s, a, w)) != location_rank((e.sura, e.aya, e.word)));
            }
        }
        i += 1;
    }
    assert(es.take(entries.len() as int) =~= es);
    m
}

/// Whether the normal forms are those of the entries, place by place.
pub open spec fn forms_match(entries: Seq<MorphEntry>, forms: Seq<NormalForms>) -> bool {
    &&& forms.len() == entries.len()
    &&& forall|i: int|
        0 <= i < entries.len() ==> {
            &&& (#[trigger] forms[i]).form@ == normalized(entries[i].form_ar@)
            &&& forms[i].root@ == normalized(entries[i].root@)
            &&& forms[i].lemma@ == normal_lemma(entries[i]@)
        }
}

/// Whether the table holds, for each key, what a lookup of the kind finds.
pub open spec fn holds_links(t: Table<Vec<String>>, es: Seq<MorphModel>, kind: Link) -> bool {
    forall|k: Seq<char>| strs(#[trigger] t.list(k)) == linked(es, kind, k)
}

/// Whether the table holds, for each root, the locations that carry it, in
/// rising order, and no root without a location.
pub open spec fn holds_roots(t: Table<Vec<(u16, u16, u16)>>, es: Seq<MorphModel>) -> bool {
    &&& forall|k: Seq<char>|
        rising(#[trigger] t.list(k)) && t.list(k).to_set() == root_locations(es, k)
    &&& forall|k: Seq<char>| t.has(k) ==> (#[trigger] t.list(k)).len() > 0
}

/// A copy of the locations.
pub fn copy_locations(v: &Vec<(u16, u16, u16)>) -> (r: Vec<(u16, u16, u16)>)
    ensures
        r@ == v@,
{
    let mut r: Vec<(u16, u16, u16)> = Vec::new();
    let mut i: usize = 0;
    while i < v.len()
        invariant
            i <= v.len(),
            r@ == v@.take(i as int),
        decreases v.len() - i,
    {
        r.push(v[i]);
        assert(r@ =~= v@.take(i + 1));
        i += 1;
    }
    assert(v@.take(v.len() as int) =~= v@);
    r
}

/// The index of one kind over the entries.
fn build_links(entries: &Vec<MorphEntry>, forms: &Vec<NormalForms>, kind: Link) -> (t: Table<
    Vec<String>,
>)
    requires
        forms_match(entries@, forms@),
    ensures
        t.wf(),
        holds_links(t, entries@.map_values(|e: MorphEntry| e@), kind),
{
    let ghost es = entries@.map_values(|e: MorphEntry| e@);
    let mut t: Table<Vec<String>> = Table::new();
    let mut i: usize = 0;
    assert(es.take(0) =~= Seq::<MorphModel>::empty());
    assert forall|k: Seq<char>| strs(#[trigger] t.list(k)) == linked(es.take(0), kind, k) by {
        assert(strs(t.list(k)) =~= Seq::<Seq<char>>::empty());
    }
    while i < entries.len()
        invariant
            i <= entries.len(),
            es == entries@.map_values(|e: MorphEntry| e@),
            forms_match(entries@, forms@),
            t.wf(),
            holds_links(t, es.take(i as int), kind),
        decreases entries.len() - i,
    {
        let e = &entries[i];
        let nf = &forms[i];
        proof {
            assert(es.take(i + 1).drop_last() =~= es.take(i as int));
            assert(es.take(i + 1).last() == e@);
        }
        let has_form = nf.form.as_str().unicode_len() > 0;
        let has_root = e.root.as_str().unicode_len() > 0;
        let has_lemma = nf.lemma.as_str().unicode_len() > 0;
        let (meets, key, value) = match kind {
            Link::RootToForm => (has_root && has_form, &nf.root, &nf.form),
            Link::FormToRoot => (has_root && has_form, &nf.form, &nf.root),
            Link::LemmaToForm => (has_lemma && has_form, &nf.lemma, &nf.form),
            Link::FormToLemma => (has_lemma && has_form, &nf.form, &nf.lemma),
        };
        assert(key@ == link_key(e@, kind));
        assert(value@ == link_value(e@, kind));
        assert(forall|k: Seq<char>| is_linked(e@, kind, k) == (meets && k == key@));
        let ghost before = t;
        if meets {
            let present = match t.get(key) {
                Some(l) => contains_str(l, value),
                None => false,
            };
            assert(present == strs(before.list(key@)).contains(value@)) by {
                if !before.has(key@) {
                    assert(strs(before.list(key@)) =~= Seq::<Seq<char>>::empty());
                }
            }
            if !present {
                t.append(key.clone(), value.clone());
                assert(strs(t.list(key@)) =~= strs(before.list(key@)).push(value@));
            }
        }
        assert forall|k: Seq<char>| strs(#[trigger] t.list(k)) == linked(
            es.take(i + 1),
            kind,
            k,
        ) by {
            assert(strs(before.list(k)) == linked(es.take(i as int), kind, k));
            if !(meets && k == key@) {
                assert(t.list(k) == before.list(k));
            }
        }
        i += 1;
    }
    assert(es.take(entries.len() as int) =~= es);
    t
}

/// The index from each root to the word locations that carry it.
fn build_roots(entries: &Vec<MorphEntry>, forms: &Vec<NormalForms>) -> (t: Table<
    Vec<(u16, u16, u16)>,
>)
    requires
        forms_match(entries@, forms@),
    ensures
        t.wf(),
        holds_roots(t, entries@.map_values(|e: MorphEntry| e@)),
{
    let ghost es = entries@.map_values(|e: MorphEntry| e@);
    let mut t: Table<Vec<(u16, u16, u16)>> = Table::new();
    let mut i: usize = 0;
    assert(es.take(0) =~= Seq::<MorphModel>::empty());
    assert forall|k: Seq<char>|
        rising(#[trigger] t.list(k)) && t.list(k).to_set() == root_locations(es.take(0), k) by {
        assert(t.list(k).to_set() =~= Set::<(u16, u16, u16)>::empty());
    }
    while i < entries.len()
        invariant
            i <= entries.len(),
            es == entries@.map_values(|e: MorphEntry| e@),
            forms_match(entries@, forms@),
            t.wf(),
            holds_roots(t, es.take(i as int)),
        decreases entries.len() - i,
    {
        let e = &entries[i];
        let nf = &forms[i];
        proof {
            assert(es.take(i + 1).drop_last() =~= es.take(i as int));
            assert(es.take(i + 1).last() == e@);
        }
        let meets = e.root.as_str().unicode_len() > 0 && nf.form.as_str().unicode_len() > 0;
        assert(forall|k: Seq<char>| is_linked(e@, Link::RootToForm, k) == (meets && k == nf.root@));
        let ghost before = t;
        if meets {
            let loc = (e.sura, e.aya, e.word);
            let mut list = match t.get(&nf.root) {
                Some(l) => copy_locations(l),
                None => Vec::new(),
            };
            assert(list@ == before.list(nf.root@));
            insert_location(&mut list, loc);
            assert(list@.len() > 0) by {
                assert(list@.to_set().contains(loc));
                assert(list@.contains(loc));
            }
            t.put(nf.root.clone(), list);
            assert(t.list(nf.root@) == list@);
        }
        assert forall|k: Seq<char>|
            rising(#[trigger] t.list(k)) && t.list(k).to_set() == root_locations(
                es.take(i + 1),
                k,
            ) by {
            assert(rising(before.list(k)) && before.list(k).to_set() == root_locations(
                es.take(i as int),
                k,
            ));
            if !(meets && k == nf.root@) {
                assert(t.find(k) == before.find(k));
                assert(t.list(k) == before.list(k));
            }
        }
        assert forall|k: Seq<char>| t.has(k) implies (#[trigger] t.list(k)).len() > 0 by {
            if !(meets && k == nf.root@) {
                assert(t.find(k) == before.find(k));
                assert(before.has(k));
                assert(before.list(k).len() > 0);
            }
        }
        i += 1;
    }
    assert(es.take(entries.len() as int) =~= es);
    t
}

impl View for QacMorphology {
    type V = Seq<MorphModel>;

    open spec fn view(&self) -> Seq<MorphModel> {
        self.entries@.map_values(|e: MorphEntry| e@)
    }
}

impl QacMorphology {
    pub open spec fn wf(&self) -> bool {
        &&& forms_match(self.entries@, self.forms@)
        &&& holds_places(self.places@, self@)
        &&& self.roots.wf()
        &&& self.form_to_roots.wf()
        &&& self.root_to_forms.wf()
        &&& self.lemma_to_forms.wf()
        &&& self.form_to_lemmas.wf()
        &&& holds_roots(self.roots, self@)
        &&& holds_links(self.form_to_roots, self@, Link::FormToRoot)
        &&& holds_links(self.root_to_forms, self@, Link::RootToForm)
        &&& holds_links(self.lemma_to_forms, self@, Link::LemmaToForm)
        &&& holds_links(self.form_to_lemmas, self@, Link::FormToLemma)
    }

    /// Parse from string content: one entry per line that writes one.
    pub fn from_str(content: &str) -> (r: Result<QacMorphology, String>)
        ensures
            r is Ok,
            r.unwrap().wf(),
            r.unwrap()@ == entries_of_lines(lines_of(content@)),
    {
        let chars = to_chars(content);
        let ls = lines(&chars);
        let mut entries: Vec<MorphEntry> = Vec::new();
        let mut forms: Vec<NormalForms> = Vec::new();
        let mut i: usize = 0;
        assert(seqs(ls@).take(0) =~= Seq::<Seq<char>>::empty());
        assert(entries@.map_values(|e: MorphEntry| e@) =~= Seq::<MorphModel>::empty());
        while i < ls.len()
            invariant
                i <= ls.len(),
                entries@.map_values(|e: MorphEntry| e@) == entries_of_lines(
                    seqs(ls@).take(i as int),
                ),
                forms.len() == entries.len(),
                forall|k: int|
                    0 <= k < entries.len() ==> {
                        &&& (#[trigger] forms@[k]).form@ == normalized(entries@[k].form_ar@)
                        &&& forms@[k].root@ == normalized(entries@[k].root@)
                        &&& forms@[k].lemma@ == normal_lemma(entries@[k]@)
                    },
            decreases ls.len() - i,
        {
            proof {
                assert(seqs(ls@).take(i + 1).drop_last() =~= seqs(ls@).take(i as int));
                assert(seqs(ls@).take(i + 1).last() == ls@[i as int]@);
            }
            match parse_morph_line(&ls[i]) {
                Some(e) => {
                    let nf = NormalForms {
                        form: normalize_arabic(e.form_ar.as_str()),
                        root: normalize_arabic(e.root.as_str()),
                        lemma: normal_lemma_of(&e.lemma),
                    };
                    let ghost before = entries@;
                    entries.push(e);
                    forms.push(nf);
                    assert(entries@.map_values(|e: MorphEntry| e@) =~= before.map_values(
                        |e: MorphEntry| e@,
                    ).push(e@));
                },
                None => {},
            }
            i += 1;
        }
        assert(seqs(ls@).take(ls.len() as int) =~= seqs(ls@));
        let places = build_places(&entries);
        let roots = build_roots(&entries, &forms);
        let form_to_roots = build_links(&entries, &forms, Link::FormToRoot);
        let root_to_forms = build_links(&entries, &forms, Link::RootToForm);
        let lemma_to_forms = build_links(&entries, &forms, Link::LemmaToForm);
        let form_to_lemmas = build_links(&entries, &forms, Link::FormToLemma);
        Ok(
            QacMorphology {
                entries,
                forms,
                places,
                roots,
                form_to_roots,
                root_to_forms,
                lemma_to_forms,
                form_to_lemmas,
            },
        )
    }

    /// Get morphology entries for a specific word location.
    pub fn get(&self, sura: u16, aya: u16, word: u16) -> (r: Option<Vec<&MorphEntry>>)
        requires
            self.wf(),
        ensures
            match r {
                Some(v) => v@.len() > 0 && v@.map_values(|e: &MorphEntry| e@) == located(
                    self@,
                    sura,
                    aya,
                    word,
                ),
                None => located(self@, sura, aya, word).len() == 0,
            },
    {
        let ghost target = located(self@, sura, aya, word);
        let ghost ps = places_of(self@, sura, aya, word);
        let n = self.entries.len();
        proof {
            assert(self@.len() == n);
            lemma_places(self@, sura, aya, word);
            assert(ps == places_at(self.places@, sura, aya, word));
        }
        let code = rank_of((sura, aya, word));
        match self.places.get(&code) {
            None => None,
            Some(list) => {
                if list.len() == 0 {
                    return None;
                }
                let mut out: Vec<&MorphEntry> = Vec::new();
                let mut i: usize = 0;
                assert(out@.map_values(|e: &MorphEntry| e@) =~= target.take(0));
                while i < list.len()
                    invariant
                        i <= list.len(),
                        list@ == ps,
                        ps.len() == target.len(),
                        forall|j: int|
                            0 <= j < ps.len() ==> 0 <= (#[trigger] ps[j]) < self@.len()
                                && target[j] == self@[ps[j] as int],
                        out@.map_values(|e: &MorphEntry| e@) == target.take(i as int),
                    decreases list.len() - i,
                {
                    let k = list[i];
                    assert(0 <= ps[i as int] < self@.len());
                    let e = &self.entries[k];
                    let ghost before = out@;
                    out.push(e);
                    assert(out@.map_values(|e: &MorphEntry| e@) =~= before.map_values(
                        |e: &MorphEntry| e@,
                    ).push(e@));
                    assert(out@.map_values(|e: &MorphEntry| e@) =~= target.take(i + 1));
                    i += 1;
                }
                assert(target.take(list.len() as int) =~= target);
                Some(out)
            },
        }
    }

    /// The values that a lookup of the kind finds for a key in normal form.
    pub fn lookup_linked(&self, kind: Link, key: &String) -> (r: Vec<String>)
        requires
            self.wf(),
        ensures
            strs(r@) == linked(self@, kind, key@),
    {
        let table = match kind {
            Link::RootToForm => {
                assert(strs(self.root_to_forms.list(key@)) == linked(self@, kind, key@));
                &self.root_to_forms
            },
            Link::FormToRoot => {
                assert(strs(self.form_to_roots.list(key@)) == linked(self@, kind, key@));
                &self.form_to_roots
            },
            Link::LemmaToForm => {
                assert(strs(self.lemma_to_forms.list(key@)) == linked(self@, kind, key@));
                &self.lemma_to_forms
            },
            Link::FormToLemma => {
                assert(strs(self.form_to_lemmas.list(key@)) == linked(self@, kind, key@));
                &self.form_to_lemmas
            },
        };
        match table.get(key) {
            Some(l) => clone_words(l),
            None => {
                let none: Vec<String> = Vec::new();
                assert(strs(none@) =~= strs(table.list(key@)));
                none
            },
        }
    }

    /// The roots of the entries whose surface form has the normal form of
    /// the word.
    pub fn roots_of_word(&self, word: &str) -> (r: Vec<String>)
        requires
            self.wf(),
        ensures
            strs(r@) == written_roots(self@, normalized(word@)),
    {
        let key = normalize_arabic(word);
        let mut out: Vec<String> = Vec::new();
        let mut i: usize = 0;
        assert(self@.take(0) =~= Seq::<MorphModel>::empty());
        assert(strs(out@) =~= Seq::<Seq<char>>::empty());
        while i < self.entries.len()
            invariant
                i <= self.entries.len(),
                self.wf(),
                key@ == normalized(word@),
                strs(out@) == written_roots(self@.take(i as int), key@),
            decreases self.entries.len() - i,
        {
            let e = &self.entries[i];
            proof {
                assert(self@.take(i + 1).drop_last() =~= self@.take(i as int));
                assert(self@.take(i + 1).last() == e@);
            }
            if self.forms[i].form == key && e.root.as_str().unicode_len() > 0 && !contains_str(
                &out,
                &e.root,
            ) {
                let ghost before = out@;
                out.push(e.root.clone());
                assert(strs(out@) =~= strs(before).push(e.root@));
            }
            i += 1;
        }
        assert(self@.take(self.entries.len() as int) =~= self@);
        out
    }

    /// Find all word locations whose entries carry a given root, in rising
    /// order. The root is normalized before lookup.
    pub fn find_by_root(&self, root: &str) -> (r: Option<Vec<(u16, u16, u16)>>)
        requires
            self.wf(),
        ensures
            match r {
                Some(v) => v@.len() > 0 && rising(v@) && v@.to_set() == root_locations(
                    self@,
                    normalized(root@),
                ),
                None => root_locations(self@, normalized(root@)) == Set::<(u16, u16, u16)>::empty(),
            },
    {
        let key = normalize_arabic(root);
        assert(rising(self.roots.list(key@)) && self.roots.list(key@).to_set() == root_locations(
            self@,
            key@,
        ));
        match self.roots.get(&key) {
            Some(l) => {
                assert(self.roots.list(key@).len() > 0);
                Some(copy_locations(l))
            },
            None => {
                assert(self.roots.list(key@).to_set() =~= Set::<(u16, u16, u16)>::empty());
                None
            },
        }
    }

    /// Find the root of an Arabic word form: the first root recorded for its
    /// normal form.
    pub fn find_root_by_form(&self, form: &str) -> (r: Option<String>)
        requires
            self.wf(),
        ensures
            match r {
                Some(s) => linked(self@, Link::FormToRoot, normalized(form@)).len() > 0 && s@
                    == linked(self@, Link::FormToRoot, normalized(form@))[0],
                None => linked(self@, Link::FormToRoot, normalized(form@)).len() == 0,
            },
    {
        let key = normalize_arabic(form);
        let found = self.lookup_linked(Link::FormToRoot, &key);
        if found.len() > 0 {
            assert(strs(found@)[0] == found@[0]@);
            Some(found[0].clone())
        } else {
            None
        }
    }

    /// Get all normalized surface forms that share a given root, each once.
    pub fn get_surface_forms_for_root(&self, root: &str) -> (r: Vec<String>)
        requires
            self.wf(),
        ensures
            strs(r@) == linked(self@, Link::RootToForm, normalized(root@)),
    {
        let key = normalize_arabic(root);
        self.lookup_linked(Link::RootToForm, &key)
    }

    /// Find the lemma of an Arabic word form: the first lemma recorded for
    /// its normal form.
    pub fn find_lemma_by_form(&self, form: &str) -> (r: Option<String>)
        requires
            self.wf(),
        ensures
            match r {
                Some(s) => linked(self@, Link::FormToLemma, normalized(form@)).len() > 0 && s@
                    == linked(self@, Link::FormToLemma, normalized(form@))[0],
                None => linked(self@, Link::FormToLemma, normalized(form@)).len() == 0,
            },
    {
        let key = normalize_arabic(form);
        let found = self.lookup_linked(Link::FormToLemma, &key);
        if found.len() > 0 {
            assert(strs(found@)[0] == found@[0]@);
            Some(found[0].clone())
        } else {
            None
        }
    }

    /// Get all normalized surface forms sharing a given lemma, each once.
    pub fn get_surface_forms_for_lemma(&self, lemma: &str) -> (r: Vec<String>)
        requires
            self.wf(),
        ensures
            strs(r@) == linked(self@, Link::LemmaToForm, normalized(lemma@)),
    {
        let key = normalize_arabic(lemma);
        self.lookup_linked(Link::LemmaToForm, &key)
    }
}

} // verus!
