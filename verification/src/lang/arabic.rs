use vstd::prelude::*;
use crate::lang::text::{to_chars, from_chars, is_alphanumeric, alphanumeric, trim_by, trimmed, CharClass};

verus! {

/// Whether the character is an Arabic diacritical mark.
pub open spec fn is_mark(c: char) -> bool {
    let u = c as u32;
    (0x0610 <= u <= 0x061A) || (0x064B <= u <= 0x065F) || u == 0x0670 || (0x06D6 <= u <= 0x06DC)
        || (0x06DF <= u <= 0x06E4) || (0x06E7 <= u <= 0x06E8) || (0x06EA <= u <= 0x06ED)
}

/// Check if a character is an Arabic diacritical mark (tashkeel).
pub fn is_tashkeel(c: char) -> (b: bool)
    ensures
        b == is_mark(c),
{
    let u: u32 = c as u32;
    (0x0610 <= u && u <= 0x061A) || (0x064B <= u && u <= 0x065F) || u == 0x0670 || (0x06D6 <= u
        && u <= 0x06DC) || (0x06DF <= u && u <= 0x06E4) || (0x06E7 <= u && u <= 0x06E8) || (0x06EA
        <= u && u <= 0x06ED)
}

/// The canonical letter for a letter variant: the four alef variants become
/// bare alef, taa marbuta becomes haa, alef maksura becomes yaa.
pub open spec fn fold_letter(c: char) -> char {
    if c == '\u{0623}' || c == '\u{0625}' || c == '\u{0622}' || c == '\u{0671}' {
        '\u{0627}'
    } else if c == '\u{0629}' {
        '\u{0647}'
    } else if c == '\u{0649}' {
        '\u{064A}'
    } else {
        c
    }
}

pub fn fold_letter_exec(c: char) -> (r: char)
    ensures
        r == fold_letter(c),
{
    if c == '\u{0623}' || c == '\u{0625}' || c == '\u{0622}' || c == '\u{0671}' {
        '\u{0627}'
    } else if c == '\u{0629}' {
        '\u{0647}'
    } else if c == '\u{0649}' {
        '\u{064A}'
    } else {
        c
    }
}

/// The characters of `s` that are not diacritical marks, in order.
pub open spec fn without_marks(s: Seq<char>) -> Seq<char>
    decreases s.len(),
{
    if s.len() == 0 {
        Seq::empty()
    } else if is_mark(s.last()) {
        without_marks(s.drop_last())
    } else {
        without_marks(s.drop_last()).push(s.last())
    }
}

/// The canonical form of a word: marks removed, letter variants unified.
pub open spec fn normalized(s: Seq<char>) -> Seq<char> {
    without_marks(s).map_values(|c: char| fold_letter(c))
}

/// Whether the character lies in the Arabic Unicode block.
pub open spec fn in_arabic_block(c: char) -> bool {
    0x0600 <= c as u32 <= 0x06FF
}

/// Whether some character of `s` lies in the Arabic block.
pub open spec fn has_arabic(s: Seq<char>) -> bool {
    exists|i: int| 0 <= i < s.len() && in_arabic_block(#[trigger] s[i])
}

/// Whether cleaning keeps the character.
pub open spec fn kept_by_clean(c: char) -> bool {
    c != '\u{060C}' && c != '\u{061B}' && c != '\u{061F}' && (alphanumeric(c) || c == ' '
        || in_arabic_block(c))
}

/// The characters of `s` that cleaning keeps, in order.
pub open spec fn cleaned(s: Seq<char>) -> Seq<char>
    decreases s.len(),
{
    if s.len() == 0 {
        Seq::empty()
    } else if kept_by_clean(s.last()) {
        cleaned(s.drop_last()).push(s.last())
    } else {
        cleaned(s.drop_last())
    }
}

pub fn remove_marks(v: &Vec<char>) -> (r: Vec<char>)
    ensures
        r@ == without_marks(v@),
{
    let mut r: Vec<char> = Vec::new();
    let mut i: usize = 0;
    assert(v@.take(0) =~= Seq::<char>::empty());
    while i < v.len()
        invariant
            i <= v.len(),
            r@ == without_marks(v@.take(i as int)),
        decreases v.len() - i,
    {
        assert(v@.take(i + 1).drop_last() =~= v@.take(i as int));
        if !is_tashkeel(v[i]) {
            r.push(v[i]);
        }
        i += 1;
    }
    assert(v@.take(v.len() as int) =~= v@);
    r
}

pub fn normalize_chars(v: &Vec<char>) -> (r: Vec<char>)
    ensures
        r@ == normalized(v@),
{
    let stripped = remove_marks(v);
    let mut r: Vec<char> = Vec::new();
    let mut i: usize = 0;
    while i < stripped.len()
        invariant
            i <= stripped.len(),
            r@.len() == i,
            forall|k: int| 0 <= k < i ==> r@[k] == fold_letter(stripped@[k]),
        decreases stripped.len() - i,
    {
        r.push(fold_letter_exec(stripped[i]));
        i += 1;
    }
    assert(r@ =~= normalized(v@));
    r
}

/// Remove tashkeel (diacritical marks) from Arabic text.
pub fn remove_tashkeel(text: &str) -> (r: String)
    ensures
        r@ == without_marks(text@),
{
    let v = to_chars(text);
    let r = remove_marks(&v);
    from_chars(&r)
}

/// Normalize Arabic text for comparison.
pub fn normalize_arabic(text: &str) -> (r: String)
    ensures
        r@ == normalized(text@),
{
    let v = to_chars(text);
    let r = normalize_chars(&v);
    from_chars(&r)
}

pub fn is_arabic_chars(v: &Vec<char>) -> (b: bool)
    ensures
        b == has_arabic(v@),
{
    let mut i: usize = 0;
    while i < v.len()
        invariant
            i <= v.len(),
            forall|k: int| 0 <= k < i ==> !in_arabic_block(#[trigger] v@[k]),
        decreases v.len() - i,
    {
        let u: u32 = v[i] as u32;
        if 0x0600 <= u && u <= 0x06FF {
            assert(in_arabic_block(v@[i as int]));
            return true;
        }
        i += 1;
    }
    false
}

/// Check if text contains Arabic characters (U+0600..U+06FF range).
pub fn is_arabic(text: &str) -> (b: bool)
    ensures
        b == has_arabic(text@),
{
    let v = to_chars(text);
    is_arabic_chars(&v)
}

/// The language of a text: the language asked for unless it is `auto`, else
/// Arabic where the text holds Arabic script and English where it holds none.
pub open spec fn language_of(text: Seq<char>, lang_arg: Seq<char>) -> Seq<char> {
    if lang_arg != "auto"@ {
        lang_arg
    } else if has_arabic(text) {
        "ar"@
    } else {
        "en"@
    }
}

/// Decide the language of a text from the language argument and the script.
pub fn detect_lang(text: &str, lang_arg: &str) -> (r: String)
    ensures
        r@ == language_of(text@, lang_arg@),
{
    let arg = lang_arg.to_owned();
    if arg != "auto".to_owned() {
        arg
    } else if is_arabic(text) {
        "ar".to_owned()
    } else {
        "en".to_owned()
    }
}

/// Remove non-alphanumeric characters (keeping letters, digits, spaces and
/// the Arabic block, but not the Arabic comma, semicolon and question mark)
/// and trim white space.
pub fn clean_and_trim(text: &str) -> (r: String)
    ensures
        r@ == trimmed(cleaned(text@), CharClass::Space),
{
    let v = to_chars(text);
    let mut kept: Vec<char> = Vec::new();
    let mut i: usize = 0;
    assert(v@.take(0) =~= Seq::<char>::empty());
    while i < v.len()
        invariant
            i <= v.len(),
            kept@ == cleaned(v@.take(i as int)),
        decreases v.len() - i,
    {
        assert(v@.take(i + 1).drop_last() =~= v@.take(i as int));
        let c = v[i];
        let u: u32 = c as u32;
        if c != '\u{060C}' && c != '\u{061B}' && c != '\u{061F}' && (is_alphanumeric(c) || c == ' '
            || (0x0600 <= u && u <= 0x06FF)) {
            kept.push(c);
        }
        i += 1;
    }
    assert(v@.take(v.len() as int) =~= v@);
    let t = trim_by(&kept, CharClass::Space);
    from_chars(&t)
}

/// A normalized word holds no mark, and each of its letters is canonical.
pub proof fn lemma_normalized_is_canonical(s: Seq<char>)
    ensures
        forall|i: int| 0 <= i < normalized(s).len() ==> !is_mark(#[trigger] normalized(s)[i])
            && fold_letter(normalized(s)[i]) == normalized(s)[i],
        without_marks(s).len() <= s.len(),
        forall|i: int| 0 <= i < without_marks(s).len() ==> !is_mark(#[trigger] without_marks(s)[i]),
    decreases s.len(),
{
    if s.len() > 0 {
        lemma_normalized_is_canonical(s.drop_last());
    }
}

/// Removing marks from a word without marks changes nothing.
pub proof fn lemma_without_marks_fixed(s: Seq<char>)
    requires
        forall|i: int| 0 <= i < s.len() ==> !is_mark(#[trigger] s[i]),
    ensures
        without_marks(s) == s,
    decreases s.len(),
{
    if s.len() > 0 {
        lemma_without_marks_fixed(s.drop_last());
        assert(s.drop_last().push(s.last()) =~= s);
    }
}

/// Normalizing twice gives what normalizing once gives.
pub proof fn lemma_normalize_idempotent(s: Seq<char>)
    ensures
        normalized(normalized(s)) == normalized(s),
{
    lemma_normalized_is_canonical(s);
    lemma_without_marks_fixed(normalized(s));
    assert(normalized(normalized(s)) =~= normalized(s));
}

} // verus!
