use vstd::prelude::*;

verus! {

/// `String::push` appends one character at the end of the string.
pub assume_specification[ String::push ](s: &mut String, c: char)
    ensures
        final(s)@ == old(s)@.push(c),
;

/// Whether Unicode classes the character as alphabetic or numeric.
pub uninterp spec fn alphanumeric(c: char) -> bool;

/// The Unicode lowercase form of a string.
pub uninterp spec fn lowercased(s: Seq<char>) -> Seq<char>;

/// `char::is_alphanumeric`: the answer depends on the character alone.
#[verifier::external_body]
pub(crate) fn is_alphanumeric(c: char) -> (b: bool)
    ensures
        b == alphanumeric(c),
{
    c.is_alphanumeric()
}

/// `str::to_lowercase`: the result depends on the characters of the input alone.
#[verifier::external_body]
pub(crate) fn to_lowercase(s: &str) -> (r: String)
    ensures
        r@ == lowercased(s@),
{
    s.to_lowercase()
}

/// The characters that Unicode gives the property White_Space.
pub open spec fn is_space(c: char) -> bool {
    let u = c as u32;
    (0x09 <= u <= 0x0D) || u == 0x20 || u == 0x85 || u == 0xA0 || u == 0x1680 || (0x2000 <= u
        <= 0x200A) || u == 0x2028 || u == 0x2029 || u == 0x202F || u == 0x205F || u == 0x3000
}

pub fn is_whitespace(c: char) -> (b: bool)
    ensures
        b == is_space(c),
{
    let u: u32 = c as u32;
    (0x09 <= u && u <= 0x0D) || u == 0x20 || u == 0x85 || u == 0xA0 || u == 0x1680 || (0x2000 <= u
        && u <= 0x200A) || u == 0x2028 || u == 0x2029 || u == 0x202F || u == 0x205F || u == 0x3000
}

/// A set of characters that trimming removes from the ends of a string.
#[derive(Clone, Copy)]
pub enum CharClass {
    Space,
    NotAlphanumeric,
    Exactly(char),
}

impl CharClass {
    pub open spec fn holds(self, c: char) -> bool {
        match self {
            CharClass::Space => is_space(c),
            CharClass::NotAlphanumeric => !alphanumeric(c),
            CharClass::Exactly(x) => c == x,
        }
    }

    pub fn test(&self, c: char) -> (b: bool)
        ensures
            b == self.holds(c),
    {
        match self {
            CharClass::Space => is_whitespace(c),
            CharClass::NotAlphanumeric => !is_alphanumeric(c),
            CharClass::Exactly(x) => c == *x,
        }
    }
}

/// The view of each string of a sequence.
pub open spec fn strs(v: Seq<String>) -> Seq<Seq<char>> {
    v.map_values(|x: String| x@)
}

/// The view of each character vector of a sequence.
pub open spec fn seqs(v: Seq<Vec<char>>) -> Seq<Seq<char>> {
    v.map_values(|x: Vec<char>| x@)
}

/// The characters of a string, in order.
pub fn to_chars(s: &str) -> (v: Vec<char>)
    ensures
        v@ == s@,
{
    let mut v: Vec<char> = Vec::new();
    for c in it: s.chars()
        invariant
            v@ == s@.take(it.index() as int),
            it.seq() == s@,
    {
        v.push(c);
        assert(v@ =~= s@.take(it.index() + 1));
    }
    assert(v@ =~= s@);
    v
}

/// The string made of the characters `v[lo..hi]`.
pub fn string_of_range(v: &Vec<char>, lo: usize, hi: usize) -> (s: String)
    requires
        lo <= hi <= v.len(),
    ensures
        s@ == v@.subrange(lo as int, hi as int),
{
    let mut s = String::new();
    let mut i: usize = lo;
    while i < hi
        invariant
            lo <= i <= hi <= v.len(),
            s@ == v@.subrange(lo as int, i as int),
        decreases hi - i,
    {
        s.push(v[i]);
        assert(s@ =~= v@.subrange(lo as int, i + 1));
        i += 1;
    }
    s
}

/// The string made of the given characters, in order.
pub fn from_chars(v: &Vec<char>) -> (s: String)
    ensures
        s@ == v@,
{
    let s = string_of_range(v, 0, v.len());
    assert(v@.subrange(0, v.len() as int) =~= v@);
    s
}

/// The characters `v[lo..hi]`.
pub fn copy_range(v: &Vec<char>, lo: usize, hi: usize) -> (r: Vec<char>)
    requires
        lo <= hi <= v.len(),
    ensures
        r@ == v@.subrange(lo as int, hi as int),
{
    let mut r: Vec<char> = Vec::new();
    let mut i: usize = lo;
    while i < hi
        invariant
            lo <= i <= hi <= v.len(),
            r@ == v@.subrange(lo as int, i as int),
        decreases hi - i,
    {
        r.push(v[i]);
        assert(r@ =~= v@.subrange(lo as int, i + 1));
        i += 1;
    }
    r
}

/// `s` without its leading characters of the class.
pub open spec fn trim_start(s: Seq<char>, cls: CharClass) -> Seq<char>
    decreases s.len(),
{
    if s.len() > 0 && cls.holds(s[0]) {
        trim_start(s.drop_first(), cls)
    } else {
        s
    }
}

/// `s` without its trailing characters of the class.
pub open spec fn trim_end(s: Seq<char>, cls: CharClass) -> Seq<char>
    decreases s.len(),
{
    if s.len() > 0 && cls.holds(s.last()) {
        trim_end(s.drop_last(), cls)
    } else {
        s
    }
}

/// `s` without the characters of the class at either end.
pub open spec fn trimmed(s: Seq<char>, cls: CharClass) -> Seq<char> {
    trim_end(trim_start(s, cls), cls)
}

/// The index of the first character of `v` that is not in the class.
pub fn skip_leading(v: &Vec<char>, cls: CharClass) -> (lo: usize)
    ensures
        lo <= v.len(),
        trim_start(v@, cls) == v@.skip(lo as int),
{
    let mut lo: usize = 0;
    assert(v@.skip(0) =~= v@);
    while lo < v.len() && cls.test(v[lo])
        invariant
            lo <= v.len(),
            trim_start(v@, cls) == trim_start(v@.skip(lo as int), cls),
        decreases v.len() - lo,
    {
        assert(v@.skip(lo as int).drop_first() =~= v@.skip(lo + 1));
        lo += 1;
    }
    lo
}

/// The end of `v[lo..]` once its trailing characters of the class are gone.
pub fn skip_trailing(v: &Vec<char>, lo: usize, cls: CharClass) -> (hi: usize)
    requires
        lo <= v.len(),
    ensures
        lo <= hi <= v.len(),
        trim_end(v@.skip(lo as int), cls) == v@.subrange(lo as int, hi as int),
{
    let mut hi: usize = v.len();
    assert(v@.skip(lo as int) =~= v@.subrange(lo as int, hi as int));
    while lo < hi && cls.test(v[hi - 1])
        invariant
            lo <= hi <= v.len(),
            trim_end(v@.skip(lo as int), cls) == trim_end(v@.subrange(lo as int, hi as int), cls),
        decreases hi,
    {
        assert(v@.subrange(lo as int, hi as int).drop_last() =~= v@.subrange(
            lo as int,
            hi - 1,
        ));
        hi -= 1;
    }
    hi
}

/// Removes the characters of the class from both ends.
pub fn trim_by(v: &Vec<char>, cls: CharClass) -> (r: Vec<char>)
    ensures
        r@ == trimmed(v@, cls),
{
    let lo = skip_leading(v, cls);
    let hi = skip_trailing(v, lo, cls);
    copy_range(v, lo, hi)
}

/// Folding state of a split: the finished pieces and the piece being read.
pub open spec fn words_fold(s: Seq<char>) -> (Seq<Seq<char>>, Seq<char>)
    decreases s.len(),
{
    if s.len() == 0 {
        (Seq::empty(), Seq::empty())
    } else {
        let (done, cur) = words_fold(s.drop_last());
        if is_space(s.last()) {
            if cur.len() > 0 {
                (done.push(cur), Seq::empty())
            } else {
                (done, cur)
            }
        } else {
            (done, cur.push(s.last()))
        }
    }
}

/// The maximal runs of characters that are not white space, in order.
pub open spec fn words(s: Seq<char>) -> Seq<Seq<char>> {
    let (done, cur) = words_fold(s);
    if cur.len() > 0 {
        done.push(cur)
    } else {
        done
    }
}

/// Splits at white space; no piece is empty.
pub fn split_whitespace(v: &Vec<char>) -> (r: Vec<Vec<char>>)
    ensures
        seqs(r@) == words(v@),
{
    let mut done: Vec<Vec<char>> = Vec::new();
    let mut cur: Vec<char> = Vec::new();
    let mut i: usize = 0;
    assert(v@.take(0) =~= Seq::<char>::empty());
    assert(seqs(done@) =~= Seq::<Seq<char>>::empty());
    while i < v.len()
        invariant
            i <= v.len(),
            (seqs(done@), cur@) == words_fold(v@.take(i as int)),
        decreases v.len() - i,
    {
        let c = v[i];
        proof {
            assert(v@.take(i + 1).drop_last() =~= v@.take(i as int));
        }
        if is_whitespace(c) {
            if cur.len() > 0 {
                let ghost before = done@;
                done.push(cur);
                assert(seqs(done@) =~= seqs(before).push(cur@));
                cur = Vec::new();
            }
        } else {
            cur.push(c);
        }
        i += 1;
    }
    assert(v@.take(v.len() as int) =~= v@);
    if cur.len() > 0 {
        let ghost before = done@;
        done.push(cur);
        assert(seqs(done@) =~= seqs(before).push(cur@));
    }
    done
}

/// Folding state of a split at a separator.
pub open spec fn pieces_fold(s: Seq<char>, sep: char) -> (Seq<Seq<char>>, Seq<char>)
    decreases s.len(),
{
    if s.len() == 0 {
        (Seq::empty(), Seq::empty())
    } else {
        let (done, cur) = pieces_fold(s.drop_last(), sep);
        if s.last() == sep {
            (done.push(cur), Seq::empty())
        } else {
            (done, cur.push(s.last()))
        }
    }
}

/// The pieces between the occurrences of `sep`; one more than there are separators.
pub open spec fn pieces(s: Seq<char>, sep: char) -> Seq<Seq<char>> {
    let (done, cur) = pieces_fold(s, sep);
    done.push(cur)
}

/// Splits at each occurrence of `sep`, keeping empty pieces.
pub fn split_char(v: &Vec<char>, sep: char) -> (r: Vec<Vec<char>>)
    ensures
        seqs(r@) == pieces(v@, sep),
        r.len() >= 1,
{
    let mut done: Vec<Vec<char>> = Vec::new();
    let mut cur: Vec<char> = Vec::new();
    let mut i: usize = 0;
    assert(v@.take(0) =~= Seq::<char>::empty());
    assert(seqs(done@) =~= Seq::<Seq<char>>::empty());
    while i < v.len()
        invariant
            i <= v.len(),
            (seqs(done@), cur@) == pieces_fold(v@.take(i as int), sep),
        decreases v.len() - i,
    {
        let c = v[i];
        proof {
            assert(v@.take(i + 1).drop_last() =~= v@.take(i as int));
        }
        if c == sep {
            let ghost before = done@;
            done.push(cur);
            assert(seqs(done@) =~= seqs(before).push(cur@));
            cur = Vec::new();
        } else {
            cur.push(c);
        }
        i += 1;
    }
    assert(v@.take(v.len() as int) =~= v@);
    let ghost before = done@;
    done.push(cur);
    assert(seqs(done@) =~= seqs(before).push(cur@));
    done
}

/// `s` without one trailing carriage return.
pub open spec fn strip_cr(s: Seq<char>) -> Seq<char> {
    if s.len() > 0 && s.last() == '\r' {
        s.drop_last()
    } else {
        s
    }
}

/// The lines of a text: each ends at a line feed, a carriage return before
/// the line feed is dropped, and an unterminated last line counts if it is
/// not empty.
pub open spec fn lines_of(s: Seq<char>) -> Seq<Seq<char>> {
    let p = pieces(s, '\n');
    let head = p.drop_last().map_values(|l: Seq<char>| strip_cr(l));
    if p.last().len() == 0 {
        head
    } else {
        head.push(p.last())
    }
}

/// Splits a text into its lines.
pub fn lines(v: &Vec<char>) -> (r: Vec<Vec<char>>)
    ensures
        seqs(r@) == lines_of(v@),
{
    let parts = split_char(v, '\n');
    let n = parts.len();
    let ghost p = pieces(v@, '\n');
    let ghost head = p.drop_last().map_values(|l: Seq<char>| strip_cr(l));
    let mut out: Vec<Vec<char>> = Vec::new();
    let mut i: usize = 0;
    while i + 1 < n
        invariant
            n == parts.len(),
            n >= 1,
            i + 1 <= n,
            seqs(parts@) == p,
            head == p.drop_last().map_values(|l: Seq<char>| strip_cr(l)),
            seqs(out@) == head.take(i as int),
        decreases n - i,
    {
        let part = &parts[i];
        assert(seqs(parts@)[i as int] == part@);
        let m = part.len();
        let line = if m > 0 && part[m - 1] == '\r' {
            let l = copy_range(part, 0, m - 1);
            assert(part@.subrange(0, m - 1) =~= part@.drop_last());
            l
        } else {
            let l = copy_range(part, 0, m);
            assert(part@.subrange(0, m as int) =~= part@);
            l
        };
        let ghost before = out@;
        out.push(line);
        assert(seqs(out@) =~= head.take(i + 1)) by {
            assert(seqs(out@) =~= seqs(before).push(line@));
        }
        i += 1;
    }
    assert(head.take(n - 1) =~= head);
    let last = &parts[n - 1];
    assert(seqs(parts@)[n - 1] == last@);
    if last.len() > 0 {
        let l = copy_range(last, 0, last.len());
        assert(last@.subrange(0, last.len() as int) =~= last@);
        let ghost before = out@;
        out.push(l);
        assert(seqs(out@) =~= seqs(before).push(l@));
    }
    out
}

/// Whether `v` begins with `p`.
pub fn starts_with(v: &Vec<char>, p: &Vec<char>) -> (b: bool)
    ensures
        b == p@.is_prefix_of(v@),
{
    if p.len() > v.len() {
        return false;
    }
    let mut i: usize = 0;
    while i < p.len()
        invariant
            i <= p.len() <= v.len(),
            forall|k: int| 0 <= k < i ==> v@[k] == p@[k],
        decreases p.len() - i,
    {
        if v[i] != p[i] {
            return false;
        }
        i += 1;
    }
    assert(v@.subrange(0, p.len() as int) =~= p@);
    true
}

/// Whether `v` ends with `p`.
pub fn ends_with(v: &Vec<char>, p: &Vec<char>) -> (b: bool)
    ensures
        b == p@.is_suffix_of(v@),
{
    if p.len() > v.len() {
        return false;
    }
    let d: usize = v.len() - p.len();
    let mut i: usize = 0;
    while i < p.len()
        invariant
            i <= p.len() <= v.len(),
            d == v.len() - p.len(),
            forall|k: int| 0 <= k < i ==> v@[d + k] == p@[k],
        decreases p.len() - i,
    {
        if v[d + i] != p[i] {
            assert(v@.subrange(d as int, v.len() as int)[i as int] != p@[i as int]);
            return false;
        }
        i += 1;
    }
    assert(v@.subrange(d as int, v.len() as int) =~= p@);
    true
}

/// Whether `w` occurs in `list`.
pub fn contains_str(list: &Vec<String>, w: &String) -> (b: bool)
    ensures
        b == strs(list@).contains(w@),
{
    let mut i: usize = 0;
    while i < list.len()
        invariant
            i <= list.len(),
            forall|k: int| 0 <= k < i ==> list@[k]@ != w@,
        decreases list.len() - i,
    {
        if list[i] == *w {
            assert(strs(list@)[i as int] == w@);
            return true;
        }
        i += 1;
    }
    assert(!strs(list@).contains(w@)) by {
        if strs(list@).contains(w@) {
            let k = choose|k: int| 0 <= k < strs(list@).len() && strs(list@)[k] == w@;
            assert(list@[k]@ == w@);
        }
    }
    false
}

/// A copy of the words.
pub fn clone_words(ws: &Vec<String>) -> (r: Vec<String>)
    ensures
        strs(r@) == strs(ws@),
{
    let mut r: Vec<String> = Vec::new();
    let mut i: usize = 0;
    while i < ws.len()
        invariant
            i <= ws.len(),
            r.len() == i,
            forall|k: int| 0 <= k < i ==> r@[k]@ == ws@[k]@,
        decreases ws.len() - i,
    {
        r.push(ws[i].clone());
        i += 1;
    }
    assert(strs(r@) =~= strs(ws@));
    r
}

/// The first place at or after `from` where `c` stands in `s`; the length of
/// `s` if there is none.
pub open spec fn index_from(s: Seq<char>, c: char, from: int) -> int
    decreases s.len() - from,
{
    if from >= s.len() {
        s.len() as int
    } else if s[from] == c {
        from
    } else {
        index_from(s, c, from + 1)
    }
}

/// Finds the next occurrence of a character.
pub fn find_from(v: &Vec<char>, c: char, from: usize) -> (i: usize)
    requires
        from <= v.len(),
    ensures
        i == index_from(v@, c, from as int),
        from <= i <= v.len(),
        i < v.len() ==> v@[i as int] == c,
{
    let mut i: usize = from;
    while i < v.len() && v[i] != c
        invariant
            from <= i <= v.len(),
            index_from(v@, c, from as int) == index_from(v@, c, i as int),
        decreases v.len() - i,
    {
        i += 1;
    }
    i
}

/// Whether two character vectors hold the same characters.
pub fn same_chars(a: &Vec<char>, b: &Vec<char>) -> (r: bool)
    ensures
        r == (a@ == b@),
{
    if a.len() != b.len() {
        return false;
    }
    let mut i: usize = 0;
    while i < a.len()
        invariant
            i <= a.len(),
            a.len() == b.len(),
            forall|k: int| 0 <= k < i ==> a@[k] == b@[k],
        decreases a.len() - i,
    {
        if a[i] != b[i] {
            return false;
        }
        i += 1;
    }
    assert(a@ =~= b@);
    true
}

/// The lowercase form of the characters.
pub fn lowercase(v: &Vec<char>) -> (r: Vec<char>)
    ensures
        r@ == lowercased(v@),
{
    let s = from_chars(v);
    let l = to_lowercase(s.as_str());
    to_chars(l.as_str())
}

} // verus!
