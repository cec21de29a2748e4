//! Character-level text utilities: whitespace, trimming, ASCII case,
//! prefixes and suffixes, splitting and line breaking, over `Vec<char>`
//! and its view `Seq<char>`.
use vstd::prelude::*;

verus! {

/// The characters of `s`, in order.
pub fn chars_of(s: &str) -> (v: Vec<char>)
    ensures
        v@ == s@,
{
    let mut v: Vec<char> = Vec::new();
    for c in it: s.chars()
        invariant
            v@ == it.seq().take(it.index() as int),
            it.seq() == s@,
    {
        v.push(c);
    }
    v
}

/// Collects characters into a `String` (std's `FromIterator<char>` for `String`).
#[verifier::external_body]
pub(crate) fn string_from_chars(v: &Vec<char>) -> (s: String)
    ensures
        s@ == v@,
{
    v.iter().collect()
}

/// Unicode `White_Space`, the property behind `char::is_whitespace`.
pub open spec fn is_ws(c: char) -> bool {
    ||| ('\u{9}' <= c && c <= '\u{d}')
    ||| c == ' '
    ||| c == '\u{85}'
    ||| c == '\u{a0}'
    ||| c == '\u{1680}'
    ||| ('\u{2000}' <= c && c <= '\u{200a}')
    ||| c == '\u{2028}'
    ||| c == '\u{2029}'
    ||| c == '\u{202f}'
    ||| c == '\u{205f}'
    ||| c == '\u{3000}'
}

pub fn is_whitespace(c: char) -> (r: bool)
    ensures
        r == is_ws(c),
{
    ('\u{9}' <= c && c <= '\u{d}') || c == ' ' || c == '\u{85}' || c == '\u{a0}' || c
        == '\u{1680}' || ('\u{2000}' <= c && c <= '\u{200a}') || c == '\u{2028}' || c
        == '\u{2029}' || c == '\u{202f}' || c == '\u{205f}' || c == '\u{3000}'
}

pub open spec fn is_ascii_alpha(c: char) -> bool {
    ('a' <= c && c <= 'z') || ('A' <= c && c <= 'Z')
}

pub open spec fn is_ascii_digit(c: char) -> bool {
    '0' <= c && c <= '9'
}

pub open spec fn is_ascii_alnum(c: char) -> bool {
    is_ascii_alpha(c) || is_ascii_digit(c)
}

pub fn ascii_alpha(c: char) -> (r: bool)
    ensures
        r == is_ascii_alpha(c),
{
    ('a' <= c && c <= 'z') || ('A' <= c && c <= 'Z')
}

pub fn ascii_digit(c: char) -> (r: bool)
    ensures
        r == is_ascii_digit(c),
{
    '0' <= c && c <= '9'
}

pub fn ascii_alnum(c: char) -> (r: bool)
    ensures
        r == is_ascii_alnum(c),
{
    ascii_alpha(c) || ascii_digit(c)
}

/// `char::to_ascii_lowercase`.
pub open spec fn lower_char(c: char) -> char {
    if 'A' <= c && c <= 'Z' {
        ((c as u32) + 32) as char
    } else {
        c
    }
}

/// `str::to_ascii_lowercase`.
pub open spec fn ascii_lower(s: Seq<char>) -> Seq<char> {
    s.map_values(|c: char| lower_char(c))
}

pub fn ascii_lower_char(c: char) -> (r: char)
    ensures
        r == lower_char(c),
{
    if 'A' <= c && c <= 'Z' {
        let n: u32 = (c as u32) + 32;
        assert(n == 'a' as u32 + (c as u32 - 'A' as u32));
        assert(n <= 0x7a);
        char_from_u32_ascii(n)
    } else {
        c
    }
}

/// The ASCII character with code `n`.
fn char_from_u32_ascii(n: u32) -> (c: char)
    requires
        n < 0x80,
    ensures
        c == n as char,
        c as u32 == n,
{
    let b: u8 = n as u8;
    b as char
}

pub fn ascii_lowercase(s: &Vec<char>) -> (r: Vec<char>)
    ensures
        r@ == ascii_lower(s@),
{
    let mut r: Vec<char> = Vec::new();
    let mut i: usize = 0;
    while i < s.len()
        invariant
            i <= s.len(),
            r@ == ascii_lower(s@.take(i as int)),
        decreases s.len() - i,
    {
        let c = ascii_lower_char(s[i]);
        r.push(c);
        i = i + 1;
        assert(ascii_lower(s@.take(i as int)) =~= ascii_lower(s@.take(i - 1)).push(lower_char(s@[i - 1])));
    }
    assert(s@.take(s.len() as int) =~= s@);
    r
}

/// `eq_ignore_ascii_case`.
pub open spec fn eq_ignore_case(a: Seq<char>, b: Seq<char>) -> bool {
    ascii_lower(a) == ascii_lower(b)
}

pub fn chars_eq(a: &Vec<char>, b: &Vec<char>) -> (r: bool)
    ensures
        r == (a@ == b@),
{
    if a.len() != b.len() {
        return false;
    }
    let mut i: usize = 0;
    while i < a.len()
        invariant
            a.len() == b.len(),
            i <= a.len(),
            forall|k: int| 0 <= k < i ==> a@[k] == b@[k],
        decreases a.len() - i,
    {
        if a[i] != b[i] {
            return false;
        }
        i = i + 1;
    }
    assert(a@ =~= b@);
    true
}

pub fn eq_ignore_ascii_case(a: &Vec<char>, b: &Vec<char>) -> (r: bool)
    ensures
        r == eq_ignore_case(a@, b@),
{
    let la = ascii_lowercase(a);
    let lb = ascii_lowercase(b);
    chars_eq(&la, &lb)
}

/// `v@[start..end]`, copied.
pub fn slice_chars(v: &Vec<char>, start: usize, end: usize) -> (r: Vec<char>)
    requires
        start <= end <= v.len(),
    ensures
        r@ == v@.subrange(start as int, end as int),
{
    let mut r: Vec<char> = Vec::new();
    let mut i: usize = start;
    while i < end
        invariant
            start <= i <= end <= v.len(),
            r@ == v@.subrange(start as int, i as int),
        decreases end - i,
    {
        r.push(v[i]);
        i = i + 1;
        assert(r@ =~= v@.subrange(start as int, i as int));
    }
    r
}

/// `a@ + b@`, copied.
pub fn concat_chars(a: &Vec<char>, b: &Vec<char>) -> (r: Vec<char>)
    ensures
        r@ == a@ + b@,
{
    let mut r: Vec<char> = slice_chars(a, 0, a.len());
    let mut i: usize = 0;
    while i < b.len()
        invariant
            i <= b.len(),
            r@ == a@ + b@.take(i as int),
        decreases b.len() - i,
    {
        r.push(b[i]);
        i = i + 1;
        assert(r@ =~= a@ + b@.take(i as int));
    }
    assert(b@.take(b.len() as int) =~= b@);
    assert(a@.subrange(0, a.len() as int) =~= a@);
    r
}

/// Appends `b` to `a` in place.
pub fn append_chars(a: &mut Vec<char>, b: &Vec<char>)
    ensures
        final(a)@ == old(a)@ + b@,
{
    let ghost a0 = a@;
    let mut i: usize = 0;
    while i < b.len()
        invariant
            i <= b.len(),
            a@ == a0 + b@.take(i as int),
        decreases b.len() - i,
    {
        a.push(b[i]);
        i = i + 1;
        assert(a@ =~= a0 + b@.take(i as int));
    }
    assert(b@.take(b.len() as int) =~= b@);
}

pub open spec fn starts_with(s: Seq<char>, p: Seq<char>) -> bool {
    p.len() <= s.len() && s.take(p.len() as int) == p
}

pub open spec fn ends_with(s: Seq<char>, p: Seq<char>) -> bool {
    p.len() <= s.len() && s.skip(s.len() - p.len()) == p
}

pub fn has_prefix(s: &Vec<char>, p: &Vec<char>) -> (r: bool)
    ensures
        r == starts_with(s@, p@),
{
    if p.len() > s.len() {
        return false;
    }
    let mut i: usize = 0;
    while i < p.len()
        invariant
            p.len() <= s.len(),
            i <= p.len(),
            forall|k: int| 0 <= k < i ==> s@[k] == p@[k],
        decreases p.len() - i,
    {
        if s[i] != p[i] {
            assert(s@.take(p.len() as int)[i as int] != p@[i as int]);
            return false;
        }
        i = i + 1;
    }
    assert(s@.take(p.len() as int) =~= p@);
    true
}

pub fn has_suffix(s: &Vec<char>, p: &Vec<char>) -> (r: bool)
    ensures
        r == ends_with(s@, p@),
{
    if p.len() > s.len() {
        return false;
    }
    let off = s.len() - p.len();
    let mut i: usize = 0;
    while i < p.len()
        invariant
            p.len() <= s.len(),
            off == s.len() - p.len(),
            i <= p.len(),
            forall|k: int| 0 <= k < i ==> s@[off + k] == p@[k],
        decreases p.len() - i,
    {
        if s[off + i] != p[i] {
            assert(s@.skip(off as int)[i as int] != p@[i as int]);
            return false;
        }
        i = i + 1;
    }
    assert(s@.skip(off as int) =~= p@);
    true
}

/// Whether `c` occurs in `s`.
pub fn contains_char(s: &Vec<char>, c: char) -> (r: bool)
    ensures
        r == s@.contains(c),
{
    let mut i: usize = 0;
    while i < s.len()
        invariant
            i <= s.len(),
            forall|k: int| 0 <= k < i ==> s@[k] != c,
        decreases s.len() - i,
    {
        if s[i] == c {
            return true;
        }
        i = i + 1;
    }
    false
}

/// `str::trim_start`.
pub open spec fn trim_start(s: Seq<char>) -> Seq<char>
    decreases s.len(),
{
    if s.len() > 0 && is_ws(s[0]) {
        trim_start(s.drop_first())
    } else {
        s
    }
}

/// `str::trim_end`.
pub open spec fn trim_end(s: Seq<char>) -> Seq<char>
    decreases s.len(),
{
    if s.len() > 0 && is_ws(s.last()) {
        trim_end(s.drop_last())
    } else {
        s
    }
}

/// `str::trim`.
pub open spec fn trim(s: Seq<char>) -> Seq<char> {
    trim_end(trim_start(s))
}

/// Index of the first character of `s` that is not whitespace.
fn trim_start_index(s: &Vec<char>) -> (i: usize)
    ensures
        i <= s.len(),
        trim_start(s@) == s@.skip(i as int),
{
    let mut i: usize = 0;
    assert(s@.skip(0) =~= s@);
    while i < s.len() && is_whitespace(s[i])
        invariant
            i <= s.len(),
            trim_start(s@) == trim_start(s@.skip(i as int)),
        decreases s.len() - i,
    {
        assert(s@.skip(i as int).drop_first() =~= s@.skip(i + 1));
        i = i + 1;
    }
    i
}

/// Index one past the last non-whitespace character of `s[start..]`.
fn trim_end_index(s: &Vec<char>, start: usize) -> (j: usize)
    requires
        start <= s.len(),
    ensures
        start <= j <= s.len(),
        trim_end(s@.skip(start as int)) == s@.subrange(start as int, j as int),
{
    let mut j: usize = s.len();
    assert(s@.skip(start as int) =~= s@.subrange(start as int, j as int));
    while j > start && is_whitespace(s[j - 1])
        invariant
            start <= j <= s.len(),
            trim_end(s@.skip(start as int)) == trim_end(s@.subrange(start as int, j as int)),
        decreases j - start,
    {
        assert(s@.subrange(start as int, j as int).drop_last() =~= s@.subrange(start as int, j - 1));
        j = j - 1;
    }
    j
}

pub fn trim_start_chars(s: &Vec<char>) -> (r: Vec<char>)
    ensures
        r@ == trim_start(s@),
{
    let i = trim_start_index(s);
    assert(s@.skip(i as int) =~= s@.subrange(i as int, s.len() as int));
    slice_chars(s, i, s.len())
}

pub fn trim_chars(s: &Vec<char>) -> (r: Vec<char>)
    ensures
        r@ == trim(s@),
{
    let i = trim_start_index(s);
    let j = trim_end_index(s, i);
    slice_chars(s, i, j)
}

/// `str::split(c)`: the pieces between occurrences of `c` (at least one piece).
pub open spec fn split(s: Seq<char>, c: char) -> Seq<Seq<char>>
    decreases s.len(),
{
    if s.len() == 0 {
        seq![Seq::<char>::empty()]
    } else {
        let prev = split(s.drop_last(), c);
        if s.last() == c {
            prev.push(Seq::<char>::empty())
        } else {
            prev.update(prev.len() - 1, prev.last().push(s.last()))
        }
    }
}

pub proof fn lemma_split_len(s: Seq<char>, c: char)
    ensures
        split(s, c).len() >= 1,
    decreases s.len(),
{
    if s.len() > 0 {
        lemma_split_len(s.drop_last(), c);
    }
}

pub fn split_chars(s: &Vec<char>, c: char) -> (r: Vec<Vec<char>>)
    ensures
        views(r@) == split(s@, c),
        r.len() >= 1,
{
    let mut r: Vec<Vec<char>> = Vec::new();
    let mut cur: Vec<char> = Vec::new();
    let mut i: usize = 0;
    assert(s@.take(0) =~= Seq::<char>::empty());
    while i < s.len()
        invariant
            i <= s.len(),
            views(r@).push(cur@) == split(s@.take(i as int), c),
        decreases s.len() - i,
    {
        proof {
            lemma_split_len(s@.take(i as int), c);
        }
        let ghost prev = split(s@.take(i as int), c);
        assert(s@.take(i + 1).drop_last() =~= s@.take(i as int));
        if s[i] == c {
            let mut done: Vec<char> = Vec::new();
            std::mem::swap(&mut cur, &mut done);
            let ghost before = views(r@);
            r.push(done);
            assert(views(r@) =~= before.push(done@));
            assert(views(r@).push(cur@) =~= prev.push(Seq::<char>::empty()));
        } else {
            cur.push(s[i]);
            assert(views(r@).push(cur@) =~= prev.update(prev.len() - 1, prev.last().push(s@[i as int])));
        }
        i = i + 1;
    }
    assert(s@.take(s.len() as int) =~= s@);
    let ghost before = views(r@);
    r.push(cur);
    assert(views(r@) =~= before.push(cur@));
    r
}

/// The character sequences held by a vector of character vectors.
pub open spec fn views(v: Seq<Vec<char>>) -> Seq<Seq<char>> {
    v.map_values(|x: Vec<char>| x@)
}

/// `str::lines`: split at `'\n'`, a final empty piece dropped, and a `'\r'`
/// before each `'\n'` removed.
pub open spec fn lines(s: Seq<char>) -> Seq<Seq<char>> {
    let p = split(s, '\n');
    let n = p.len() as int;
    let k = if p[n - 1].len() == 0 { n - 1 } else { n };
    Seq::new(k as nat, |i: int| if i < n - 1 { strip_cr(p[i]) } else { p[i] })
}

pub open spec fn strip_cr(l: Seq<char>) -> Seq<char> {
    if l.len() > 0 && l.last() == '\r' {
        l.drop_last()
    } else {
        l
    }
}

pub fn lines_of(s: &Vec<char>) -> (r: Vec<Vec<char>>)
    ensures
        views(r@) == lines(s@),
{
    let pieces = split_chars(s, '\n');
    let ghost p = views(pieces@);
    let n = pieces.len();
    let k = if pieces[n - 1].len() == 0 { n - 1 } else { n };
    let mut r: Vec<Vec<char>> = Vec::new();
    let mut i: usize = 0;
    while i < k
        invariant
            p == split(s@, '\n'),
            p == views(pieces@),
            n == pieces.len(),
            k <= n,
            i <= k,
            r.len() == i,
            forall|t: int| 0 <= t < i ==> #[trigger] views(r@)[t] == (if t < n - 1 { strip_cr(p[t]) } else { p[t] }),
        decreases k - i,
    {
        let l = &pieces[i];
        assert(l@ == p[i as int]);
        let line = if i + 1 < n && l.len() > 0 && l[l.len() - 1] == '\r' {
            assert(l@.subrange(0, l.len() - 1) =~= l@.drop_last());
            slice_chars(l, 0, l.len() - 1)
        } else {
            assert(l@.subrange(0, l.len() as int) =~= l@);
            slice_chars(l, 0, l.len())
        };
        let ghost before = views(r@);
        r.push(line);
        assert(views(r@) =~= before.push(line@));
        i = i + 1;
    }
    assert(views(r@) =~= lines(s@));
    r
}


/// What std's `str::to_lowercase` gives for `s` (full Unicode lowercasing).
pub uninterp spec fn lowercase(s: Seq<char>) -> Seq<char>;

/// `str::to_lowercase`: the Unicode lowercase of `s`. Its result is left to
/// the name `lowercase`.
#[verifier::external_body]
pub(crate) fn to_lowercase(s: &str) -> (r: String)
    ensures
        r@ == lowercase(s@),
{
    s.to_lowercase()
}

/// Bytes in the UTF-8 encoding of `c`.
pub open spec fn utf8_char_len(c: char) -> nat {
    if (c as u32) < 0x80 {
        1
    } else if (c as u32) < 0x800 {
        2
    } else if (c as u32) < 0x10000 {
        3
    } else {
        4
    }
}

/// Bytes in the UTF-8 encoding of `s` (`str::len`).
pub open spec fn utf8_len(s: Seq<char>) -> nat
    decreases s.len(),
{
    if s.len() == 0 {
        0
    } else {
        utf8_len(s.drop_last()) + utf8_char_len(s.last())
    }
}

/// `min(utf8_len(s), 29)`.
pub fn utf8_len_capped(s: &Vec<char>) -> (n: usize)
    ensures
        n == (if utf8_len(s@) < 29 { utf8_len(s@) } else { 29 }),
{
    let mut n: usize = 0;
    let mut i: usize = 0;
    while i < s.len() && n < 29
        invariant
            i <= s.len(),
            n <= 32,
            n < 29 ==> n == utf8_len(s@.take(i as int)),
            n >= 29 ==> utf8_len(s@.take(i as int)) >= 29,
        decreases s.len() - i,
    {
        let c = s[i];
        let k: usize = if (c as u32) < 0x80 { 1 } else if (c as u32) < 0x800 { 2 } else if (c as u32) < 0x10000 { 3 } else { 4 };
        assert(s@.take(i + 1).drop_last() =~= s@.take(i as int));
        n = n + k;
        i = i + 1;
    }
    proof {
        lemma_utf8_len_mono(s@, i as int);
    }
    assert(s@.take(s.len() as int) =~= s@);
    if n < 29 { n } else { 29 }
}

pub proof fn lemma_utf8_len_mono(s: Seq<char>, i: int)
    requires
        0 <= i <= s.len(),
    ensures
        utf8_len(s.take(i)) <= utf8_len(s),
    decreases s.len() - i,
{
    if i < s.len() {
        lemma_utf8_len_mono(s, i + 1);
        assert(s.take(i + 1).drop_last() =~= s.take(i));
    } else {
        assert(s.take(i) =~= s);
    }
}


/// Whether `needle` occurs in `hay` (`str::contains`).
pub open spec fn contains_text(hay: Seq<char>, needle: Seq<char>) -> bool {
    exists|i: int| 0 <= i && i + needle.len() <= hay.len() && #[trigger] hay.subrange(i, i + needle.len()) == needle
}

pub fn find_text(hay: &Vec<char>, needle: &Vec<char>) -> (r: bool)
    ensures
        r == contains_text(hay@, needle@),
{
    if needle.len() == 0 {
        assert(hay@.subrange(0int, 0int + needle@.len()) =~= needle@);
        return true;
    }
    if needle.len() > hay.len() {
        return false;
    }
    let last = hay.len() - needle.len();
    let mut i: usize = 0;
    while i <= last
        invariant
            last == hay.len() - needle.len(),
            needle.len() <= hay.len(),
            needle.len() >= 1,
            i <= last + 1,
            forall|j: int| 0 <= j < i ==> #[trigger] hay@.subrange(j, j + needle.len()) != needle@,
        decreases last + 1 - i,
    {
        let mut k: usize = 0;
        let mut ok = true;
        while k < needle.len() && ok
            invariant
                i <= last,
                last == hay.len() - needle.len(),
                k <= needle.len(),
                ok ==> forall|t: int| 0 <= t < k ==> hay@[i + t] == needle@[t],
                !ok ==> hay@.subrange(i as int, i + needle.len()) != needle@,
            decreases needle.len() - k + (if ok { 1int } else { 0int }),
        {
            if hay[i + k] != needle[k] {
                assert(hay@.subrange(i as int, i + needle.len())[k as int] != needle@[k as int]);
                ok = false;
            } else {
                k = k + 1;
            }
        }
        if ok {
            assert(hay@.subrange(i as int, i + needle.len()) =~= needle@);
            return true;
        }
        i = i + 1;
    }
    false
}


/// What std's `char::to_uppercase` yields for `c` (one or more characters).
pub uninterp spec fn char_upper(c: char) -> Seq<char>;

/// `char::to_uppercase`, collected. Its result is left to the name `char_upper`.
#[verifier::external_body]
pub(crate) fn to_uppercase_char(c: char) -> (r: Vec<char>)
    ensures
        r@ == char_upper(c),
{
    c.to_uppercase().collect()
}

/// The words of `ws` joined with single spaces.
pub open spec fn join_space(ws: Seq<Seq<char>>) -> Seq<char>
    decreases ws.len(),
{
    if ws.len() == 0 {
        Seq::<char>::empty()
    } else if ws.len() == 1 {
        ws[0]
    } else {
        join_space(ws.drop_last()) + seq![' '] + ws.last()
    }
}

pub fn join_words(ws: &Vec<Vec<char>>) -> (r: Vec<char>)
    ensures
        r@ == join_space(views(ws@)),
{
    let ghost wv = views(ws@);
    let mut r: Vec<char> = Vec::new();
    let mut i: usize = 0;
    assert(wv.take(0) =~= Seq::<Seq<char>>::empty());
    while i < ws.len()
        invariant
            i <= ws.len(),
            wv == views(ws@),
            r@ == join_space(wv.take(i as int)),
        decreases ws.len() - i,
    {
        assert(wv.take(i + 1).drop_last() =~= wv.take(i as int));
        assert(wv.take(i + 1).last() == ws@[i as int]@);
        if i > 0 {
            r.push(' ');
        } else {
            assert(wv.take(1)[0] == ws@[0]@);
            assert(r@ =~= Seq::<char>::empty());
        }
        append_chars(&mut r, &ws[i]);
        i = i + 1;
    }
    assert(wv.take(ws.len() as int) =~= wv);
    r
}

/// `p` stands in `s` at `k` as a whole item between `sep` separators: it is
/// preceded by the start or a separator, and followed by the end (when
/// `last`) or else by a separator.
pub open spec fn item_at(s: Seq<char>, sep: char, k: int, p: Seq<char>, last: bool) -> bool {
    &&& 0 <= k
    &&& k + p.len() <= s.len()
    &&& s.subrange(k, k + p.len()) == p
    &&& (k == 0 || s[k - 1] == sep)
    &&& if last { k + p.len() == s.len() } else { k + p.len() < s.len() && s[k + p.len()] == sep }
}

/// Each piece of `split(s, sep)` is an item of `s` between separators.
pub proof fn lemma_split_item(s: Seq<char>, sep: char, i: int) -> (k: int)
    requires
        0 <= i < split(s, sep).len(),
    ensures
        item_at(s, sep, k, split(s, sep)[i], i == split(s, sep).len() - 1),
    decreases s.len(),
{
    if s.len() == 0 {
        assert(s.subrange(0, 0) =~= split(s, sep)[0]);
        0
    } else {
        let t = s.drop_last();
        let prev = split(t, sep);
        lemma_split_len(t, sep);
        if s.last() == sep {
            if i < prev.len() {
                let k = lemma_split_item(t, sep, i);
                let p = prev[i];
                assert(s.subrange(k, k + p.len()) =~= t.subrange(k, k + p.len()));
                if k > 0 {
                    assert(s[k - 1] == t[k - 1]);
                }
                if k + p.len() < t.len() {
                    assert(s[k + p.len()] == t[k + p.len()]);
                }
                k
            } else {
                assert(s.subrange(s.len() as int, s.len() as int) =~= Seq::<char>::empty());
                s.len() as int
            }
        } else {
            let k = lemma_split_item(t, sep, i);
            let p = prev[i];
            if k > 0 {
                assert(s[k - 1] == t[k - 1]);
            }
            if i < prev.len() - 1 {
                assert(s.subrange(k, k + p.len()) =~= t.subrange(k, k + p.len()));
                assert(s[k + p.len()] == t[k + p.len()]);
            } else {
                assert(s.subrange(k, k + p.len() + 1) =~= t.subrange(k, k + p.len()).push(s.last()));
            }
            k
        }
    }
}

/// An item of `s` between separators, holding no separator itself, is a
/// piece of `split(s, sep)` (the last one exactly when the item ends `s`).
pub proof fn lemma_item_in_split(s: Seq<char>, sep: char, k: int, p: Seq<char>, last: bool) -> (i: int)
    requires
        item_at(s, sep, k, p, last),
        !p.contains(sep),
    ensures
        0 <= i < split(s, sep).len(),
        split(s, sep)[i] == p,
        (i == split(s, sep).len() - 1) == last,
    decreases s.len(),
{
    lemma_split_len(s, sep);
    if s.len() == 0 {
        assert(p =~= Seq::<char>::empty());
        0
    } else {
        let t = s.drop_last();
        let ch = s.last();
        let prev = split(t, sep);
        lemma_split_len(t, sep);
        if last {
            if p.len() == 0 {
                if k == 0 {
                    assert(false);
                    0
                } else {
                    assert(s[k - 1] == sep && k == s.len());
                    assert(ch == sep);
                    (split(s, sep).len() - 1) as int
                }
            } else {
                let q = p.drop_last();
                assert(p[p.len() - 1] == s.subrange(k, k + p.len())[p.len() - 1]);
                assert(ch == p.last());
                assert(ch != sep) by {
                    assert(p.contains(p.last()));
                }
                assert(t.subrange(k, k + q.len()) =~= s.subrange(k, k + p.len()).drop_last());
                if k > 0 {
                    assert(t[k - 1] == s[k - 1]);
                }
                assert(!q.contains(sep)) by {
                    if q.contains(sep) {
                        let j = choose|j: int| 0 <= j < q.len() && q[j] == sep;
                        assert(p[j] == q[j]);
                    }
                }
                let i = lemma_item_in_split(t, sep, k, q, true);
                assert(p =~= q.push(ch));
                i
            }
        } else if k + p.len() < t.len() {
            assert(t.subrange(k, k + p.len()) =~= s.subrange(k, k + p.len()));
            if k > 0 {
                assert(t[k - 1] == s[k - 1]);
            }
            assert(t[k + p.len()] == s[k + p.len()]);
            let i = lemma_item_in_split(t, sep, k, p, false);
            i
        } else {
            assert(ch == sep);
            assert(t.subrange(k, k + p.len()) =~= s.subrange(k, k + p.len()));
            if k > 0 {
                assert(t[k - 1] == s[k - 1]);
            }
            let i = lemma_item_in_split(t, sep, k, p, true);
            i
        }
    }
}

} // verus!
