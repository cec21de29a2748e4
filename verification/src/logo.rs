//! The browser logo: cleaning up `chafa` output (ANSI-aware trimming) and the
//! plain text box used when no image is available.
use vstd::prelude::*;
use crate::path::{extension, join, path_extension, path_join};
use crate::text::{
    utf8_len, utf8_len_capped,
    append_chars, chars_eq, chars_of, is_ascii_alpha, has_prefix, is_whitespace, is_ws, lines, lines_of,
    slice_chars, starts_with, string_from_chars, trim, trim_chars, trim_end, views,
};
use crate::util::{csi_at, csi_end, cw_range, esc, lemma_csi_end, lemma_cw_range_shift, skip_csi, string_views, vis_width, width_from};

verus! {

/// `s[i..]` with ANSI control sequences removed.
pub open spec fn strip_from(s: Seq<char>, i: int) -> Seq<char>
    decreases s.len() - i,
{
    if i < 0 || i >= s.len() {
        Seq::<char>::empty()
    } else if csi_at(s, i) {
        proof { lemma_csi_end(s, i + 2); }
        strip_from(s, csi_end(s, i + 2))
    } else {
        seq![s[i]] + strip_from(s, i + 1)
    }
}

/// Text with ANSI control sequences (`ESC [` up to a letter) removed.
pub open spec fn strip_ansi_spec(s: Seq<char>) -> Seq<char> {
    strip_from(s, 0)
}

fn strip_ansi_chars(s: &Vec<char>) -> (r: Vec<char>)
    ensures
        r@ == strip_ansi_spec(s@),
{
    let mut out: Vec<char> = Vec::new();
    let mut i: usize = 0;
    while i < s.len()
        invariant
            i <= s.len(),
            strip_ansi_spec(s@) == out@ + strip_from(s@, i as int),
        decreases s.len() - i,
    {
        if i + 1 < s.len() && s[i] == '\u{1b}' && s[i + 1] == '[' {
            proof { lemma_csi_end(s@, i + 2); }
            i = skip_csi(s, i + 2);
        } else {
            let ghost before = out@;
            out.push(s[i]);
            assert(before + strip_from(s@, i as int) =~= out@ + strip_from(s@, i + 1));
            i = i + 1;
        }
    }
    assert(strip_from(s@, i as int) =~= Seq::<char>::empty());
    assert(out@ + Seq::<char>::empty() =~= out@);
    out
}

pub fn strip_ansi(text: &str) -> (r: String)
    ensures
        r@ == strip_ansi_spec(text@),
{
    let s = chars_of(text);
    let r = strip_ansi_chars(&s);
    string_from_chars(&r)
}

/// Where to cut `s` so that `target` visible characters remain: scanning from
/// `i` with `seen` visible characters already passed, the index of the next
/// visible character once `seen` reaches `target` (or the end of `s`).
pub open spec fn cut_from(s: Seq<char>, i: int, seen: int, target: int) -> int
    decreases s.len() - i,
{
    if i < 0 || i >= s.len() {
        s.len() as int
    } else if csi_at(s, i) {
        proof { lemma_csi_end(s, i + 2); }
        cut_from(s, csi_end(s, i + 2), seen, target)
    } else if seen == target {
        i
    } else {
        cut_from(s, i + 1, seen + 1, target)
    }
}

proof fn lemma_cut_from_bound(s: Seq<char>, i: int, seen: int, target: int)
    requires
        0 <= i,
    ensures
        0 <= cut_from(s, i, seen, target) <= s.len(),
    decreases s.len() - i,
{
    if i < s.len() {
        if csi_at(s, i) {
            lemma_csi_end(s, i + 2);
            lemma_cut_from_bound(s, csi_end(s, i + 2), seen, target);
        } else if seen != target {
            lemma_cut_from_bound(s, i + 1, seen + 1, target);
        }
    }
}

/// The reset sequence `ESC [ 0 m`.
pub open spec fn reset_seq() -> Seq<char> {
    seq!['\u{1b}', '[', '0', 'm']
}

/// A line with its trailing visible whitespace removed, control sequences
/// kept up to the last visible character, and a reset sequence appended;
/// unchanged when there is no trailing visible whitespace.
pub open spec fn trim_visible_end_spec(line: Seq<char>) -> Seq<char> {
    let plain = strip_ansi_spec(line);
    let trim_count = plain.len() - trim_end(plain).len();
    if trim_count == 0 {
        line
    } else {
        line.take(cut_from(line, 0, 0, trim_end(plain).len() as int)) + reset_seq()
    }
}

/// Number of trailing whitespace characters of `s`.
fn trailing_ws_count(s: &Vec<char>) -> (n: usize)
    ensures
        n == s@.len() - trim_end(s@).len(),
{
    let mut j: usize = s.len();
    assert(s@.take(j as int) =~= s@);
    while j > 0 && is_whitespace(s[j - 1])
        invariant
            j <= s.len(),
            trim_end(s@) == trim_end(s@.take(j as int)),
        decreases j,
    {
        assert(s@.take(j as int).drop_last() =~= s@.take(j - 1));
        j = j - 1;
    }
    assert(trim_end(s@.take(j as int)) == s@.take(j as int));
    s.len() - j
}

fn trim_visible_end_chars(line: &Vec<char>) -> (r: Vec<char>)
    ensures
        r@ == trim_visible_end_spec(line@),
{
    let plain = strip_ansi_chars(line);
    let trim_count = trailing_ws_count(&plain);
    if trim_count == 0 {
        return slice_chars(line, 0, line.len());
    }
    let target: usize = plain.len() - trim_count;
    let mut seen: usize = 0;
    let mut cut: usize = line.len();
    let mut i: usize = 0;
    let mut found = false;
    while i < line.len() && !found
        invariant
            i <= line.len(),
            seen <= target,
            found ==> cut == cut_from(line@, 0, 0, target as int),
            !found ==> cut == line.len(),
            !found ==> cut_from(line@, 0, 0, target as int) == cut_from(line@, i as int, seen as int, target as int),
        decreases line.len() - i + (if found { 0int } else { 1int }),
    {
        if i + 1 < line.len() && line[i] == '\u{1b}' && line[i + 1] == '[' {
            proof { lemma_csi_end(line@, i + 2); }
            i = skip_csi(line, i + 2);
        } else if seen == target {
            cut = i;
            found = true;
        } else {
            seen = seen + 1;
            i = i + 1;
        }
    }
    proof {
        lemma_cut_from_bound(line@, 0, 0, target as int);
    }
    assert(cut == cut_from(line@, 0, 0, target as int));
    let mut r = slice_chars(line, 0, cut);
    r.push('\u{1b}');
    r.push('[');
    r.push('0');
    r.push('m');
    assert(r@ =~= line@.take(cut as int) + reset_seq());
    r
}

pub fn trim_visible_end(line: &str) -> (r: String)
    ensures
        r@ == trim_visible_end_spec(line@),
{
    let s = chars_of(line);
    let r = trim_visible_end_chars(&s);
    string_from_chars(&r)
}

/// `s` with every occurrence of the non-empty `pat` removed, scanning left to
/// right (`str::replace(pat, "")`).
pub open spec fn remove_all(s: Seq<char>, pat: Seq<char>) -> Seq<char>
    recommends
        pat.len() > 0,
    decreases s.len(),
{
    if s.len() == 0 {
        s
    } else if pat.len() > 0 && starts_with(s, pat) {
        remove_all(s.skip(pat.len() as int), pat)
    } else {
        seq![s[0]] + remove_all(s.drop_first(), pat)
    }
}

fn remove_all_chars(s: &Vec<char>, pat: &Vec<char>) -> (r: Vec<char>)
    requires
        pat.len() > 0,
    ensures
        r@ == remove_all(s@, pat@),
{
    let mut out: Vec<char> = Vec::new();
    let mut i: usize = 0;
    assert(s@.skip(0) =~= s@);
    while i < s.len()
        invariant
            i <= s.len(),
            pat.len() > 0,
            remove_all(s@, pat@) == out@ + remove_all(s@.skip(i as int), pat@),
        decreases s.len() - i,
    {
        let rest = slice_chars(s, i, s.len());
        assert(rest@ =~= s@.skip(i as int));
        if has_prefix(&rest, pat) {
            assert(s@.skip(i as int).skip(pat.len() as int) =~= s@.skip(i + pat.len()));
            i = i + pat.len();
        } else {
            let ghost before = out@;
            out.push(s[i]);
            assert(s@.skip(i as int).drop_first() =~= s@.skip(i + 1));
            assert(before + (seq![s@[i as int]] + remove_all(s@.skip(i + 1), pat@)) =~= out@ + remove_all(s@.skip(i + 1), pat@));
            i = i + 1;
        }
    }
    assert(s@.skip(i as int) =~= Seq::<char>::empty());
    assert(out@ + Seq::<char>::empty() =~= out@);
    out
}

/// `ESC [ ? 2 5 l` and `ESC [ ? 2 5 h`, which off and on the cursor.
pub open spec fn cursor_off() -> Seq<char> {
    seq!['\u{1b}', '[', '?', '2', '5', 'l']
}

pub open spec fn cursor_on() -> Seq<char> {
    seq!['\u{1b}', '[', '?', '2', '5', 'h']
}

/// The logo lines drawn from `chafa`'s output: cursor sequences removed, split
/// into lines, each trimmed of trailing visible whitespace.
pub open spec fn chafa_lines_spec(output: Seq<char>) -> Seq<Seq<char>> {
    let cleaned = remove_all(remove_all(output, cursor_off()), cursor_on());
    lines(cleaned).map_values(|l: Seq<char>| trim_visible_end_spec(l))
}

pub fn chafa_lines(output: &str) -> (r: Vec<String>)
    ensures
        string_views(r@) == chafa_lines_spec(output@),
{
    let s = chars_of(output);
    let mut off: Vec<char> = Vec::new();
    off.push('\u{1b}');
    off.push('[');
    off.push('?');
    off.push('2');
    off.push('5');
    off.push('l');
    let mut on: Vec<char> = Vec::new();
    on.push('\u{1b}');
    on.push('[');
    on.push('?');
    on.push('2');
    on.push('5');
    on.push('h');
    assert(off@ =~= cursor_off());
    assert(on@ =~= cursor_on());
    let a = remove_all_chars(&s, &off);
    let b = remove_all_chars(&a, &on);
    let ls = lines_of(&b);
    let mut out: Vec<String> = Vec::new();
    let mut k: usize = 0;
    while k < ls.len()
        invariant
            k <= ls.len(),
            views(ls@) == lines(b@),
            string_views(out@) == lines(b@).take(k as int).map_values(|l: Seq<char>| trim_visible_end_spec(l)),
        decreases ls.len() - k,
    {
        let t = trim_visible_end_chars(&ls[k]);
        let ghost before = string_views(out@);
        let st = string_from_chars(&t);
        out.push(st);
        assert(ls@[k as int]@ == lines(b@)[k as int]);
        assert(string_views(out@) =~= before.push(trim_visible_end_spec(lines(b@)[k as int])));
        assert(string_views(out@) =~= lines(b@).take(k + 1).map_values(|l: Seq<char>| trim_visible_end_spec(l)));
        k = k + 1;
    }
    assert(lines(b@).take(ls.len() as int) =~= lines(b@));
    out
}


/// `n` copies of `c`.
pub open spec fn repeat(c: char, n: nat) -> Seq<char> {
    Seq::new(n, |i: int| c)
}

pub fn push_repeat(v: &mut Vec<char>, c: char, n: usize)
    ensures
        final(v)@ == old(v)@ + repeat(c, n as nat),
{
    let ghost v0 = v@;
    let mut i: usize = 0;
    while i < n
        invariant
            i <= n,
            v@ == v0 + repeat(c, i as nat),
        decreases n - i,
    {
        v.push(c);
        i = i + 1;
        assert(v@ =~= v0 + repeat(c, i as nat));
    }
}

pub open spec fn clamp(x: int, lo: int, hi: int) -> int {
    if x < lo {
        lo
    } else if x > hi {
        hi
    } else {
        x
    }
}

/// The text box drawn in place of an image: the trimmed label, padded to a
/// width of its UTF-8 length clamped to 12..=28, between two borders.
pub open spec fn text_logo_spec(label: Seq<char>) -> Seq<Seq<char>> {
    let l = trim(label);
    let w = clamp(utf8_len(l) as int, 12, 28);
    let border = seq!['+'] + repeat('-', (w + 2) as nat) + seq!['+'];
    let pad: nat = if l.len() < w { (w - l.len()) as nat } else { 0 };
    seq![border, seq!['|', ' '] + l + repeat(' ', pad) + seq![' ', '|'], border]
}

fn border_line(w: usize) -> (r: Vec<char>)
    requires
        w <= 28,
    ensures
        r@ == seq!['+'] + repeat('-', (w + 2) as nat) + seq!['+'],
{
    let mut r: Vec<char> = Vec::new();
    r.push('+');
    push_repeat(&mut r, '-', w + 2);
    r.push('+');
    assert(r@ =~= seq!['+'] + repeat('-', (w + 2) as nat) + seq!['+']);
    r
}

pub fn text_logo(label: &str) -> (r: Vec<String>)
    ensures
        string_views(r@) == text_logo_spec(label@),
{
    let s = chars_of(label);
    let l = trim_chars(&s);
    let n = utf8_len_capped(&l);
    let w: usize = if n < 12 { 12 } else if n > 28 { 28 } else { n };
    let border = border_line(w);
    let mut mid: Vec<char> = Vec::new();
    mid.push('|');
    mid.push(' ');
    append_chars(&mut mid, &l);
    let pad: usize = if l.len() < w { w - l.len() } else { 0 };
    push_repeat(&mut mid, ' ', pad);
    mid.push(' ');
    mid.push('|');
    assert(mid@ =~= seq!['|', ' '] + l@ + repeat(' ', pad as nat) + seq![' ', '|']);
    let mut r: Vec<String> = Vec::new();
    r.push(string_from_chars(&border));
    r.push(string_from_chars(&mid));
    r.push(string_from_chars(&border));
    assert(string_views(r@) =~= text_logo_spec(label@));
    r
}

/// The logo: the lines of `chafa`'s output when there is any, else the text box.
pub open spec fn render_logo_spec(chafa_output: Option<Seq<char>>, label: Seq<char>) -> Seq<Seq<char>> {
    match chafa_output {
        Some(o) => if chafa_lines_spec(o).len() > 0 { chafa_lines_spec(o) } else { text_logo_spec(label) },
        None => text_logo_spec(label),
    }
}

/// `chafa_output` is what `chafa` printed for the browser's icon, when there is
/// an icon and `chafa` ran successfully.
pub fn render_logo(chafa_output: Option<&str>, label: &str) -> (r: Vec<String>)
    ensures
        string_views(r@) == render_logo_spec(
            match chafa_output {
                Some(o) => Some(o@),
                None => None,
            },
            label@,
        ),
{
    match chafa_output {
        Some(o) => {
            let lines = chafa_lines(o);
            if lines.len() > 0 {
                lines
            } else {
                text_logo(label)
            }
        },
        None => text_logo(label),
    }
}

/// The file names searched for an icon: the name itself when it has an
/// extension, else the name with `.png`, `.svg` and `.xpm`.
pub open spec fn icon_names_spec(icon: Seq<char>) -> Seq<Seq<char>> {
    if extension(icon) is Some {
        seq![icon]
    } else {
        seq![
            icon + seq!['.', 'p', 'n', 'g'],
            icon + seq!['.', 's', 'v', 'g'],
            icon + seq!['.', 'x', 'p', 'm'],
        ]
    }
}

fn with_suffix(s: &Vec<char>, a: char, b: char, c: char) -> (r: Vec<char>)
    ensures
        r@ == s@ + seq!['.', a, b, c],
{
    let mut r = slice_chars(s, 0, s.len());
    r.push('.');
    r.push(a);
    r.push(b);
    r.push(c);
    assert(r@ =~= s@ + seq!['.', a, b, c]);
    r
}

pub fn icon_names(icon: &str) -> (r: Vec<String>)
    ensures
        string_views(r@) == icon_names_spec(icon@),
{
    let s = chars_of(icon);
    let mut r: Vec<String> = Vec::new();
    if path_extension(&s).is_some() {
        r.push(string_from_chars(&s));
    } else {
        r.push(string_from_chars(&with_suffix(&s, 'p', 'n', 'g')));
        r.push(string_from_chars(&with_suffix(&s, 's', 'v', 'g')));
        r.push(string_from_chars(&with_suffix(&s, 'x', 'p', 'm')));
    }
    assert(string_views(r@) =~= icon_names_spec(icon@));
    r
}

/// Where to look for an icon: found directly, or to be searched for under
/// `roots`, in order, by any of `names`.
pub enum IconLookup {
    Found(String),
    Search { names: Vec<String>, roots: Vec<String> },
}

pub enum IconLookupView {
    Found(Seq<char>),
    Search { names: Seq<Seq<char>>, roots: Seq<Seq<char>> },
}

impl View for IconLookup {
    type V = IconLookupView;

    open spec fn view(&self) -> IconLookupView {
        match self {
            IconLookup::Found(p) => IconLookupView::Found(p@),
            IconLookup::Search { names, roots } => IconLookupView::Search {
                names: string_views(names@),
                roots: string_views(roots@),
            },
        }
    }
}

/// The icon directories, searched in this order: the user's (under `home`,
/// when it is known), then the system's.
pub open spec fn icon_roots_spec(home: Option<Seq<char>>) -> Seq<Seq<char>> {
    let user = match home {
        Some(h) => seq![join(h, ".local/share/icons"@), join(h, ".icons"@)],
        None => Seq::<Seq<char>>::empty(),
    };
    user + seq!["/usr/share/pixmaps"@, "/usr/share/icons/hicolor"@, "/usr/share/icons"@]
}

/// An absolute icon path that exists is used as it is; any other icon is
/// searched for by its file names under the icon directories.
pub open spec fn resolve_icon_spec(icon: Seq<char>, home: Option<Seq<char>>, exists: bool) -> IconLookupView {
    if icon.len() > 0 && icon[0] == '/' && exists {
        IconLookupView::Found(icon)
    } else {
        IconLookupView::Search { names: icon_names_spec(icon), roots: icon_roots_spec(home) }
    }
}

fn push_joined(roots: &mut Vec<String>, home: &Vec<char>, sub: &str)
    ensures
        string_views(final(roots)@) == string_views(old(roots)@).push(join(home@, sub@)),
{
    let j = path_join(home, &chars_of(sub));
    let ghost before = string_views(roots@);
    roots.push(string_from_chars(&j));
    assert(string_views(roots@) =~= before.push(join(home@, sub@)));
}

fn push_text(roots: &mut Vec<String>, text: &str)
    ensures
        string_views(final(roots)@) == string_views(old(roots)@).push(text@),
{
    let ghost before = string_views(roots@);
    roots.push(string_from_chars(&chars_of(text)));
    assert(string_views(roots@) =~= before.push(text@));
}

/// How to find the icon file named `icon`; `home` is the user's home
/// directory, and `exists` tells whether a file exists at `icon` itself.
pub fn resolve_icon(icon: &str, home: Option<&str>, exists: bool) -> (r: IconLookup)
    ensures
        r@ == resolve_icon_spec(icon@, match home { Some(h) => Some(h@), None => None }, exists),
{
    let s = chars_of(icon);
    if s.len() > 0 && s[0] == '/' && exists {
        return IconLookup::Found(string_from_chars(&s));
    }
    let names = icon_names(icon);
    let mut roots: Vec<String> = Vec::new();
    match home {
        Some(h) => {
            let hc = chars_of(h);
            push_joined(&mut roots, &hc, ".local/share/icons");
            push_joined(&mut roots, &hc, ".icons");
        },
        None => {},
    }
    push_text(&mut roots, "/usr/share/pixmaps");
    push_text(&mut roots, "/usr/share/icons/hicolor");
    push_text(&mut roots, "/usr/share/icons");
    let ghost hv: Option<Seq<char>> = match home { Some(h) => Some(h@), None => None };
    assert(string_views(roots@) =~= icon_roots_spec(hv));
    IconLookup::Search { names, roots }
}

/// Whether a file name is one of the names an icon is searched by.
pub fn icon_matches(file_name: &str, names: &Vec<String>) -> (r: bool)
    ensures
        r == string_views(names@).contains(file_name@),
{
    let f = chars_of(file_name);
    let mut i: usize = 0;
    while i < names.len()
        invariant
            i <= names.len(),
            f@ == file_name@,
            forall|k: int| 0 <= k < i ==> string_views(names@)[k] != file_name@,
        decreases names.len() - i,
    {
        if chars_eq(&chars_of(names[i].as_str()), &f) {
            assert(string_views(names@)[i as int] == file_name@);
            return true;
        }
        i = i + 1;
    }
    false
}

/// There is always a logo to draw: when `chafa` gives nothing, the text
/// box's three lines.
pub proof fn law_logo_never_empty(chafa_output: Option<Seq<char>>, label: Seq<char>)
    ensures
        render_logo_spec(chafa_output, label).len() > 0,
{
}

proof fn lemma_width_is_stripped_sum(s: Seq<char>, i: int)
    requires
        0 <= i,
    ensures
        width_from(s, i) == cw_range(strip_from(s, i), 0, strip_from(s, i).len() as int),
    decreases s.len() - i,
{
    if i < s.len() {
        if csi_at(s, i) {
            lemma_csi_end(s, i + 2);
            lemma_width_is_stripped_sum(s, csi_end(s, i + 2));
        } else {
            lemma_width_is_stripped_sum(s, i + 1);
            let rest = strip_from(s, i + 1);
            let t = seq![s[i]] + rest;
            assert(t == strip_from(s, i));
            lemma_cw_range_shift(t, rest, -1, 1, t.len() as int);
        }
    }
}

proof fn lemma_csi_end_shift(a: Seq<char>, b: Seq<char>, j: int)
    requires
        0 <= j,
    ensures
        csi_end(a + b, a.len() + j) == a.len() + csi_end(b, j),
    decreases b.len() - j,
{
    if j < b.len() {
        assert((a + b)[a.len() + j] == b[j]);
        lemma_csi_end_shift(a, b, j + 1);
    }
}

proof fn lemma_width_shift(a: Seq<char>, b: Seq<char>, j: int)
    requires
        0 <= j,
    ensures
        width_from(a + b, a.len() + j) == width_from(b, j),
    decreases b.len() - j,
{
    if j < b.len() {
        let ab = a + b;
        assert(ab[a.len() + j] == b[j]);
        if j + 1 < b.len() {
            assert(ab[a.len() + j + 1] == b[j + 1]);
        }
        if csi_at(b, j) {
            lemma_csi_end(b, j + 2);
            lemma_csi_end_shift(a, b, j + 2);
            lemma_width_shift(a, b, csi_end(b, j + 2));
        } else {
            lemma_width_shift(a, b, j + 1);
        }
    }
}

proof fn lemma_width_concat(a: Seq<char>, b: Seq<char>, i: int)
    requires
        0 <= i <= a.len(),
        !a.contains(esc()),
    ensures
        width_from(a + b, i) == width_from(a, i) + width_from(b, 0),
    decreases a.len() - i,
{
    if i < a.len() {
        assert((a + b)[i] == a[i]);
        assert(a[i] != esc());
        lemma_width_concat(a, b, i + 1);
    } else {
        lemma_width_shift(a, b, 0);
    }
}

/// The display width of a line is the sum of the character widths of the
/// line with its control sequences removed; and widths add up when the first
/// part holds no ESC character.
pub proof fn law_visible_width_of_stripped_text(s: Seq<char>, a: Seq<char>, b: Seq<char>)
    ensures
        vis_width(s) == cw_range(strip_ansi_spec(s), 0, strip_ansi_spec(s).len() as int),
        !a.contains(esc()) ==> vis_width(a + b) == vis_width(a) + vis_width(b),
{
    lemma_width_is_stripped_sum(s, 0);
    if !a.contains(esc()) {
        lemma_width_concat(a, b, 0);
    }
}

proof fn lemma_trim_end_prefix(s: Seq<char>)
    ensures
        trim_end(s).len() <= s.len(),
        trim_end(s) == s.take(trim_end(s).len() as int),
    decreases s.len(),
{
    if s.len() > 0 && is_ws(s.last()) {
        lemma_trim_end_prefix(s.drop_last());
        assert(s.drop_last().take(trim_end(s).len() as int) =~= s.take(trim_end(s).len() as int));
    } else {
        assert(s.take(s.len() as int) =~= s);
    }
}

proof fn lemma_csi_end_agree(line: Seq<char>, t: Seq<char>, j: int)
    requires
        0 <= j,
        csi_end(line, j) < line.len(),
        csi_end(line, j) <= t.len(),
        forall|p: int| j <= p < csi_end(line, j) ==> #[trigger] t[p] == line[p],
    ensures
        csi_end(t, j) == csi_end(line, j),
    decreases line.len() - j,
{
    assert(t[j] == line[j]) by {
        lemma_csi_end(line, j);
    }
    if !is_ascii_alpha(line[j]) {
        assert(j < line.len());
        assert(csi_end(line, j) == csi_end(line, j + 1));
        lemma_csi_end(line, j + 1);
        lemma_csi_end_agree(line, t, j + 1);
    }
}

proof fn lemma_cut_strip(line: Seq<char>, t: Seq<char>, k: int, i: int, seen: int, target: int)
    requires
        0 <= i,
        0 <= seen <= target,
        target - seen < strip_from(line, i).len(),
        k == cut_from(line, i, seen, target),
        t == line.take(k) + reset_seq(),
    ensures
        i <= k < line.len(),
        strip_from(t, i) == strip_from(line, i).take(target - seen),
    decreases line.len() - i,
{
    lemma_cut_from_bound(line, i, seen, target);
    if csi_at(line, i) {
        lemma_csi_end(line, i + 2);
        let e = csi_end(line, i + 2);
        lemma_cut_strip(line, t, k, e, seen, target);
        assert(t[i] == line[i] && t[i + 1] == line[i + 1]);
        assert forall|p: int| i + 2 <= p < csi_end(line, i + 2) implies #[trigger] t[p] == line[p] by {}
        lemma_csi_end_agree(line, t, i + 2);
    } else if seen == target {
        assert(t[i] == esc() && t[i + 1] == '[' && t[i + 2] == '0' && t[i + 3] == 'm');
        assert(csi_at(t, i));
        assert(!is_ascii_alpha(t[i + 2]));
        assert(csi_end(t, i + 3) == i + 4);
        assert(csi_end(t, i + 2) == i + 4);
        assert(strip_from(t, i + 4) =~= Seq::<char>::empty());
        assert(strip_from(line, i).take(0) =~= Seq::<char>::empty());
    } else {
        lemma_cut_strip(line, t, k, i + 1, seen + 1, target);
        assert(t[i] == line[i]);
        if i + 1 < k {
            assert(t[i + 1] == line[i + 1]);
        } else {
            assert(t[i + 1] == esc());
        }
        assert(!csi_at(t, i));
        assert(strip_from(t, i) =~= strip_from(line, i).take(target - seen));
    }
}

/// Trimming the visible end of a line removes exactly the trailing
/// whitespace of its visible text: with control sequences removed, the
/// result is the visible text trimmed at the end. A line without trailing
/// visible whitespace is kept as it is; any other becomes a prefix of
/// itself followed by `ESC [ 0 m`.
pub proof fn law_trim_visible_end(line: Seq<char>)
    ensures
        strip_ansi_spec(trim_visible_end_spec(line)) == trim_end(strip_ansi_spec(line)),
        trim_end(strip_ansi_spec(line)) == strip_ansi_spec(line) ==> trim_visible_end_spec(line) == line,
        trim_end(strip_ansi_spec(line)) != strip_ansi_spec(line) ==> exists|k: int|
            0 <= k <= line.len() && trim_visible_end_spec(line) == line.take(k) + reset_seq(),
{
    let plain = strip_ansi_spec(line);
    lemma_trim_end_prefix(plain);
    let n = trim_end(plain).len() as int;
    if n == plain.len() {
        assert(trim_end(plain) =~= plain);
    } else {
        let k = cut_from(line, 0, 0, n);
        let t = line.take(k) + reset_seq();
        lemma_cut_strip(line, t, k, 0, 0, n);
        assert(trim_visible_end_spec(line) == t);
        assert(trim_end(plain) != plain);
    }
}

} // verus!
