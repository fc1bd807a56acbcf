use vstd::prelude::*;
use crate::lang::text::{from_chars, to_chars};

verus! {

/// The Arabic character that a Buckwalter character stands for; a character
/// outside the scheme stands for itself.
pub open spec fn arabic_of(c: char) -> char {
    if c == '\'' {
        '\u{0621}'
    } else if c == '|' {
        '\u{0622}'
    } else if c == '>' {
        '\u{0623}'
    } else if c == '&' {
        '\u{0624}'
    } else if c == '<' {
        '\u{0625}'
    } else if c == '}' {
        '\u{0626}'
    } else if c == 'A' {
        '\u{0627}'
    } else if c == 'b' {
        '\u{0628}'
    } else if c == 'p' {
        '\u{0629}'
    } else if c == 't' {
        '\u{062A}'
    } else if c == 'v' {
        '\u{062B}'
    } else if c == 'j' {
        '\u{062C}'
    } else if c == 'H' {
        '\u{062D}'
    } else if c == 'x' {
        '\u{062E}'
    } else if c == 'd' {
        '\u{062F}'
    } else if c == '*' {
        '\u{0630}'
    } else if c == 'r' {
        '\u{0631}'
    } else if c == 'z' {
        '\u{0632}'
    } else if c == 's' {
        '\u{0633}'
    } else if c == '$' {
        '\u{0634}'
    } else if c == 'S' {
        '\u{0635}'
    } else if c == 'D' {
        '\u{0636}'
    } else if c == 'T' {
        '\u{0637}'
    } else if c == 'Z' {
        '\u{0638}'
    } else if c == 'E' {
        '\u{0639}'
    } else if c == 'g' {
        '\u{063A}'
    } else if c == '_' {
        '\u{0640}'
    } else if c == 'f' {
        '\u{0641}'
    } else if c == 'q' {
        '\u{0642}'
    } else if c == 'k' {
        '\u{0643}'
    } else if c == 'l' {
        '\u{0644}'
    } else if c == 'm' {
        '\u{0645}'
    } else if c == 'n' {
        '\u{0646}'
    } else if c == 'h' {
        '\u{0647}'
    } else if c == 'w' {
        '\u{0648}'
    } else if c == 'Y' {
        '\u{0649}'
    } else if c == 'y' {
        '\u{064A}'
    } else if c == 'F' {
        '\u{064B}'
    } else if c == 'N' {
        '\u{064C}'
    } else if c == 'K' {
        '\u{064D}'
    } else if c == 'a' {
        '\u{064E}'
    } else if c == 'u' {
        '\u{064F}'
    } else if c == 'i' {
        '\u{0650}'
    } else if c == '~' {
        '\u{0651}'
    } else if c == 'o' {
        '\u{0652}'
    } else if c == '`' {
        '\u{0670}'
    } else if c == '{' {
        '\u{0671}'
    } else {
        c
    }
}

pub fn arabic_of_exec(c: char) -> (r: char)
    ensures
        r == arabic_of(c),
{
    if c == '\'' {
        '\u{0621}'
    } else if c == '|' {
        '\u{0622}'
    } else if c == '>' {
        '\u{0623}'
    } else if c == '&' {
        '\u{0624}'
    } else if c == '<' {
        '\u{0625}'
    } else if c == '}' {
        '\u{0626}'
    } else if c == 'A' {
        '\u{0627}'
    } else if c == 'b' {
        '\u{0628}'
    } else if c == 'p' {
        '\u{0629}'
    } else if c == 't' {
        '\u{062A}'
    } else if c == 'v' {
        '\u{062B}'
    } else if c == 'j' {
        '\u{062C}'
    } else if c == 'H' {
        '\u{062D}'
    } else if c == 'x' {
        '\u{062E}'
    } else if c == 'd' {
        '\u{062F}'
    } else if c == '*' {
        '\u{0630}'
    } else if c == 'r' {
        '\u{0631}'
    } else if c == 'z' {
        '\u{0632}'
    } else if c == 's' {
        '\u{0633}'
    } else if c == '$' {
        '\u{0634}'
    } else if c == 'S' {
        '\u{0635}'
    } else if c == 'D' {
        '\u{0636}'
    } else if c == 'T' {
        '\u{0637}'
    } else if c == 'Z' {
        '\u{0638}'
    } else if c == 'E' {
        '\u{0639}'
    } else if c == 'g' {
        '\u{063A}'
    } else if c == '_' {
        '\u{0640}'
    } else if c == 'f' {
        '\u{0641}'
    } else if c == 'q' {
        '\u{0642}'
    } else if c == 'k' {
        '\u{0643}'
    } else if c == 'l' {
        '\u{0644}'
    } else if c == 'm' {
        '\u{0645}'
    } else if c == 'n' {
        '\u{0646}'
    } else if c == 'h' {
        '\u{0647}'
    } else if c == 'w' {
        '\u{0648}'
    } else if c == 'Y' {
        '\u{0649}'
    } else if c == 'y' {
        '\u{064A}'
    } else if c == 'F' {
        '\u{064B}'
    } else if c == 'N' {
        '\u{064C}'
    } else if c == 'K' {
        '\u{064D}'
    } else if c == 'a' {
        '\u{064E}'
    } else if c == 'u' {
        '\u{064F}'
    } else if c == 'i' {
        '\u{0650}'
    } else if c == '~' {
        '\u{0651}'
    } else if c == 'o' {
        '\u{0652}'
    } else if c == '`' {
        '\u{0670}'
    } else if c == '{' {
        '\u{0671}'
    } else {
        c
    }
}

/// The Buckwalter character for an Arabic character; a character outside the
/// scheme stands for itself.
pub open spec fn buckwalter_of(c: char) -> char {
    if c == '\u{0621}' {
        '\''
    } else if c == '\u{0622}' {
        '|'
    } else if c == '\u{0623}' {
        '>'
    } else if c == '\u{0624}' {
        '&'
    } else if c == '\u{0625}' {
        '<'
    } else if c == '\u{0626}' {
        '}'
    } else if c == '\u{0627}' {
        'A'
    } else if c == '\u{0628}' {
        'b'
    } else if c == '\u{0629}' {
        'p'
    } else if c == '\u{062A}' {
        't'
    } else if c == '\u{062B}' {
        'v'
    } else if c == '\u{062C}' {
        'j'
    } else if c == '\u{062D}' {
        'H'
    } else if c == '\u{062E}' {
        'x'
    } else if c == '\u{062F}' {
        'd'
    } else if c == '\u{0630}' {
        '*'
    } else if c == '\u{0631}' {
        'r'
    } else if c == '\u{0632}' {
        'z'
    } else if c == '\u{0633}' {
        's'
    } else if c == '\u{0634}' {
        '$'
    } else if c == '\u{0635}' {
        'S'
    } else if c == '\u{0636}' {
        'D'
    } else if c == '\u{0637}' {
        'T'
    } else if c == '\u{0638}' {
        'Z'
    } else if c == '\u{0639}' {
        'E'
    } else if c == '\u{063A}' {
        'g'
    } else if c == '\u{0640}' {
        '_'
    } else if c == '\u{0641}' {
        'f'
    } else if c == '\u{0642}' {
        'q'
    } else if c == '\u{0643}' {
        'k'
    } else if c == '\u{0644}' {
        'l'
    } else if c == '\u{0645}' {
        'm'
    } else if c == '\u{0646}' {
        'n'
    } else if c == '\u{0647}' {
        'h'
    } else if c == '\u{0648}' {
        'w'
    } else if c == '\u{0649}' {
        'Y'
    } else if c == '\u{064A}' {
        'y'
    } else if c == '\u{064B}' {
        'F'
    } else if c == '\u{064C}' {
        'N'
    } else if c == '\u{064D}' {
        'K'
    } else if c == '\u{064E}' {
        'a'
    } else if c == '\u{064F}' {
        'u'
    } else if c == '\u{0650}' {
        'i'
    } else if c == '\u{0651}' {
        '~'
    } else if c == '\u{0652}' {
        'o'
    } else if c == '\u{0670}' {
        '`'
    } else if c == '\u{0671}' {
        '{'
    } else {
        c
    }
}

pub fn buckwalter_of_exec(c: char) -> (r: char)
    ensures
        r == buckwalter_of(c),
{
    if c == '\u{0621}' {
        '\''
    } else if c == '\u{0622}' {
        '|'
    } else if c == '\u{0623}' {
        '>'
    } else if c == '\u{0624}' {
        '&'
    } else if c == '\u{0625}' {
        '<'
    } else if c == '\u{0626}' {
        '}'
    } else if c == '\u{0627}' {
        'A'
    } else if c == '\u{0628}' {
        'b'
    } else if c == '\u{0629}' {
        'p'
    } else if c == '\u{062A}' {
        't'
    } else if c == '\u{062B}' {
        'v'
    } else if c == '\u{062C}' {
        'j'
    } else if c == '\u{062D}' {
        'H'
    } else if c == '\u{062E}' {
        'x'
    } else if c == '\u{062F}' {
        'd'
    } else if c == '\u{0630}' {
        '*'
    } else if c == '\u{0631}' {
        'r'
    } else if c == '\u{0632}' {
        'z'
    } else if c == '\u{0633}' {
        's'
    } else if c == '\u{0634}' {
        '$'
    } else if c == '\u{0635}' {
        'S'
    } else if c == '\u{0636}' {
        'D'
    } else if c == '\u{0637}' {
        'T'
    } else if c == '\u{0638}' {
        'Z'
    } else if c == '\u{0639}' {
        'E'
    } else if c == '\u{063A}' {
        'g'
    } else if c == '\u{0640}' {
        '_'
    } else if c == '\u{0641}' {
        'f'
    } else if c == '\u{0642}' {
        'q'
    } else if c == '\u{0643}' {
        'k'
    } else if c == '\u{0644}' {
        'l'
    } else if c == '\u{0645}' {
        'm'
    } else if c == '\u{0646}' {
        'n'
    } else if c == '\u{0647}' {
        'h'
    } else if c == '\u{0648}' {
        'w'
    } else if c == '\u{0649}' {
        'Y'
    } else if c == '\u{064A}' {
        'y'
    } else if c == '\u{064B}' {
        'F'
    } else if c == '\u{064C}' {
        'N'
    } else if c == '\u{064D}' {
        'K'
    } else if c == '\u{064E}' {
        'a'
    } else if c == '\u{064F}' {
        'u'
    } else if c == '\u{0650}' {
        'i'
    } else if c == '\u{0651}' {
        '~'
    } else if c == '\u{0652}' {
        'o'
    } else if c == '\u{0670}' {
        '`'
    } else if c == '\u{0671}' {
        '{'
    } else {
        c
    }
}

/// The Arabic text that a Buckwalter text writes. The pair fatha, superscript
/// alef writes a long alef; every other character is translated by itself.
pub open spec fn from_buckwalter(s: Seq<char>) -> Seq<char>
    decreases s.len(),
{
    if s.len() == 0 {
        Seq::empty()
    } else if s[0] == 'a' && s.len() > 1 && s[1] == '`' {
        seq!['\u{0627}'] + from_buckwalter(s.skip(2))
    } else {
        seq![arabic_of(s[0])] + from_buckwalter(s.skip(1))
    }
}

/// The Buckwalter text for an Arabic text, character by character.
pub open spec fn to_buckwalter(s: Seq<char>) -> Seq<char> {
    s.map_values(|c: char| buckwalter_of(c))
}

pub fn buckwalter_to_arabic_chars(v: &Vec<char>) -> (r: Vec<char>)
    ensures
        r@ == from_buckwalter(v@),
{
    let mut r: Vec<char> = Vec::new();
    let mut i: usize = 0;
    assert(v@.skip(0) =~= v@);
    assert(r@ + from_buckwalter(v@) =~= from_buckwalter(v@));
    while i < v.len()
        invariant
            i <= v.len(),
            r@ + from_buckwalter(v@.skip(i as int)) == from_buckwalter(v@),
        decreases v.len() - i,
    {
        let ghost rest = v@.skip(i as int);
        let ghost before = r@;
        let c = v[i];
        if c == 'a' && i + 1 < v.len() && v[i + 1] == '`' {
            r.push('\u{0627}');
            assert(rest.skip(2) =~= v@.skip(i + 2));
            assert(r@ + from_buckwalter(v@.skip(i + 2)) =~= before + from_buckwalter(rest));
            i += 2;
        } else {
            r.push(arabic_of_exec(c));
            assert(rest.skip(1) =~= v@.skip(i + 1));
            assert(r@ + from_buckwalter(v@.skip(i + 1)) =~= before + from_buckwalter(rest));
            i += 1;
        }
    }
    assert(r@ + from_buckwalter(v@.skip(i as int)) =~= r@);
    r
}

/// Convert Buckwalter transliteration to Arabic script.
pub fn buckwalter_to_arabic(text: &str) -> (r: String)
    ensures
        r@ == from_buckwalter(text@),
{
    let v = to_chars(text);
    let r = buckwalter_to_arabic_chars(&v);
    from_chars(&r)
}

/// Convert Arabic script to Buckwalter transliteration.
pub fn arabic_to_buckwalter(text: &str) -> (r: String)
    ensures
        r@ == to_buckwalter(text@),
{
    let v = to_chars(text);
    let mut r: Vec<char> = Vec::new();
    let mut i: usize = 0;
    while i < v.len()
        invariant
            i <= v.len(),
            r@.len() == i,
            forall|k: int| 0 <= k < i ==> r@[k] == buckwalter_of(v@[k]),
        decreases v.len() - i,
    {
        r.push(buckwalter_of_exec(v[i]));
        i += 1;
    }
    assert(r@ =~= to_buckwalter(text@));
    from_chars(&r)
}

} // verus!
