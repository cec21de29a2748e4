//! The printed summary: coloured rows, width-aware truncation, the extension
//! tree, and the layout of the logo beside the rows.
use vstd::prelude::*;
use crate::browser::{engine_name, Browser, Engine};
use crate::extensions::{decimal, extension_views, opt_view, Extension, ExtensionView, Profile, ProfileBackend};
use crate::path::{file_name, path_file_name};
use crate::sort::lemma_filter_push;
use crate::logo::repeat;
use crate::text::{
    append_chars, ascii_digit, chars_eq, chars_of, has_prefix, is_ascii_digit, is_whitespace, is_ws, slice_chars,
    starts_with, string_from_chars, trim_end,
};
use crate::util::{cw_range, lemma_cw_range_shift, lemma_cw_range_split, lemma_width_le_cw, string_views, char_width, cw, vis_width, visible_width, visible_width_chars, visible_width_saturating, width_at_most};

verus! {

/// `ESC [ 0 m`: back to the default style.
pub open spec fn reset() -> Seq<char> {
    seq!['\u{1b}', '[', '0', 'm']
}

/// `ESC [ 1 m`: bold.
pub open spec fn bold() -> Seq<char> {
    seq!['\u{1b}', '[', '1', 'm']
}

/// `ESC [ 2 m`: dim.
pub open spec fn dim() -> Seq<char> {
    seq!['\u{1b}', '[', '2', 'm']
}

/// `ESC [ 3 7 m`: the colour of values.
pub open spec fn value_style() -> Seq<char> {
    seq!['\u{1b}', '[', '3', '7', 'm']
}

fn push_reset(v: &mut Vec<char>)
    ensures
        final(v)@ == old(v)@ + reset(),
{
    let ghost v0 = v@;
    v.push('\u{1b}');
    v.push('[');
    v.push('0');
    v.push('m');
    assert(v@ =~= v0 + reset());
}

fn push_style(v: &mut Vec<char>, code: char)
    ensures
        final(v)@ == old(v)@ + seq!['\u{1b}', '[', code, 'm'],
{
    let ghost v0 = v@;
    v.push('\u{1b}');
    v.push('[');
    v.push(code);
    v.push('m');
    assert(v@ =~= v0 + seq!['\u{1b}', '[', code, 'm']);
}

fn push_value_style(v: &mut Vec<char>)
    ensures
        final(v)@ == old(v)@ + value_style(),
{
    let ghost v0 = v@;
    v.push('\u{1b}');
    v.push('[');
    v.push('3');
    v.push('7');
    v.push('m');
    assert(v@ =~= v0 + value_style());
}

/// The digit character for `d < 10`.
pub open spec fn digit_char(d: nat) -> char {
    ((d + 48) as u32) as char
}

/// The decimal text of `n`.
pub open spec fn decimal_text(n: nat) -> Seq<char>
    decreases n,
{
    if n < 10 {
        seq![digit_char(n)]
    } else {
        decimal_text(n / 10).push(digit_char(n % 10))
    }
}

fn digit(d: usize) -> (c: char)
    requires
        d < 10,
    ensures
        c == digit_char(d as nat),
{
    let b: u8 = (d as u8) + 48;
    b as char
}

/// The decimal text of `n` (`n.to_string()`).
pub fn decimal_chars(n: usize) -> (r: Vec<char>)
    ensures
        r@ == decimal_text(n as nat),
    decreases n,
{
    if n < 10 {
        let mut r: Vec<char> = Vec::new();
        r.push(digit(n));
        assert(r@ =~= seq![digit_char(n as nat)]);
        r
    } else {
        let mut r = decimal_chars(n / 10);
        r.push(digit(n % 10));
        r
    }
}

/// The number of characters of `s`, from `i` on, that fit in `target`
/// columns after `used` are taken: where truncation cuts.
pub open spec fn fit_end(s: Seq<char>, i: int, used: nat, target: nat) -> int
    decreases s.len() - i,
{
    if i < 0 || i >= s.len() {
        s.len() as int
    } else if used + cw(s[i]) > target {
        i
    } else {
        fit_end(s, i + 1, used + cw(s[i]), target)
    }
}

/// `value` cut to `max_width` columns: kept whole when it fits; else only
/// dots when there is no room for more than three; else its longest prefix
/// that fits in `max_width - 3` columns, then `...`.
pub open spec fn truncate_spec(value: Seq<char>, max_width: nat) -> Seq<char> {
    if vis_width(value) <= max_width {
        value
    } else if max_width <= 3 {
        repeat('.', max_width)
    } else {
        value.take(fit_end(value, 0, 0, (max_width - 3) as nat)) + seq!['.', '.', '.']
    }
}

fn truncate_chars(s: &Vec<char>, max_width: usize) -> (r: Vec<char>)
    ensures
        r@ == truncate_spec(s@, max_width as nat),
{
    if width_at_most(s, max_width) {
        let r = slice_chars(s, 0, s.len());
        assert(r@ =~= s@);
        return r;
    }
    let mut out: Vec<char> = Vec::new();
    if max_width <= 3 {
        crate::logo::push_repeat(&mut out, '.', max_width);
        assert(out@ =~= repeat('.', max_width as nat));
        return out;
    }
    let target = max_width - 3;
    let mut used: usize = 0;
    let mut i: usize = 0;
    let mut done = false;
    while i < s.len() && !done
        invariant
            i <= s.len(),
            used <= target,
            target == max_width - 3,
            out@ == s@.take(i as int),
            done ==> fit_end(s@, i as int, used as nat, target as nat) == i,
            fit_end(s@, 0, 0, target as nat) == fit_end(s@, i as int, used as nat, target as nat),
        decreases s.len() - i + (if done { 0int } else { 1int }),
    {
        let c = char_width(s[i]);
        if c > target - used {
            done = true;
        } else {
            out.push(s[i]);
            used = used + c;
            i = i + 1;
            assert(out@ =~= s@.take(i as int));
        }
    }
    let mut dots: Vec<char> = Vec::new();
    dots.push('.');
    dots.push('.');
    dots.push('.');
    assert(dots@ =~= seq!['.', '.', '.']);
    append_chars(&mut out, &dots);
    out
}

/// `value` cut to `max_width` columns of the terminal.
pub fn truncate(value: &str, max_width: usize) -> (r: String)
    ensures
        r@ == truncate_spec(value@, max_width as nat),
{
    string_from_chars(&truncate_chars(&chars_of(value), max_width))
}

/// `version` without a leading `Mozilla `.
pub open spec fn clean_version_spec(version: Seq<char>) -> Seq<char> {
    if starts_with(version, "Mozilla "@) {
        version.skip(8)
    } else {
        version
    }
}

pub fn clean_version(version: &str) -> (r: String)
    ensures
        r@ == clean_version_spec(version@),
{
    let v = chars_of(version);
    let p = chars_of("Mozilla ");
    proof {
        reveal_strlit("Mozilla ");
    }
    if has_prefix(&v, &p) {
        string_from_chars(&slice_chars(&v, 8, v.len()))
    } else {
        string_from_chars(&v)
    }
}

/// A dim line of `-`, as wide as the rows but at most 34 columns.
pub open spec fn separator_spec(width: nat) -> Seq<char> {
    dim() + repeat('-', if width < 34 { width } else { 34 }) + reset()
}

pub fn separator_line(width: usize) -> (r: String)
    ensures
        r@ == separator_spec(width as nat),
{
    let mut v: Vec<char> = Vec::new();
    push_style(&mut v, '2');
    let n: usize = if width < 34 { width } else { 34 };
    crate::logo::push_repeat(&mut v, '-', n);
    push_reset(&mut v);
    assert(v@ =~= separator_spec(width as nat));
    string_from_chars(&v)
}

/// The characters of `t` after its last whitespace.
pub open spec fn after_last_ws(t: Seq<char>) -> Seq<char>
    decreases t.len(),
{
    if t.len() == 0 {
        t
    } else if is_ws(t.last()) {
        Seq::<char>::empty()
    } else {
        after_last_ws(t.drop_last()).push(t.last())
    }
}

/// The last whitespace-separated word of `s`, if any.
pub open spec fn last_word(s: Seq<char>) -> Option<Seq<char>> {
    if trim_end(s).len() == 0 {
        None
    } else {
        Some(after_last_ws(trim_end(s)))
    }
}

/// `str::parse::<usize>`: an optional `+`, then one or more ASCII digits
/// whose value fits in a `usize`.
pub open spec fn parse_usize_spec(t: Seq<char>) -> Option<usize> {
    let d = unsigned_part(t);
    if d.len() > 0 && all_digits(d) && decimal(d) <= usize::MAX {
        Some(decimal(d) as usize)
    } else {
        None
    }
}

/// `t` without a leading `+`.
pub open spec fn unsigned_part(t: Seq<char>) -> Seq<char> {
    if t.len() > 0 && t[0] == '+' { t.drop_first() } else { t }
}

pub open spec fn all_digits(d: Seq<char>) -> bool {
    forall|i: int| 0 <= i < d.len() ==> is_ascii_digit(#[trigger] d[i])
}

/// A width in columns: the last word of `value`, when it is a positive
/// number.
pub open spec fn positive_width_spec(value: Seq<char>) -> Option<usize> {
    match last_word(value) {
        Some(w) => match parse_usize_spec(w) {
            Some(n) => if n > 0 { Some(n) } else { None },
            None => None,
        },
        None => None,
    }
}

proof fn lemma_decimal_push(d: Seq<char>, c: char)
    ensures
        decimal(d.push(c)) == decimal(d) * 10 + ((c as u32) - ('0' as u32)) as nat,
{
    assert(d.push(c).drop_last() =~= d);
}

fn parse_usize(t: &Vec<char>) -> (r: Option<usize>)
    ensures
        r == parse_usize_spec(t@),
{
    let start: usize = if t.len() > 0 && t[0] == '+' { 1 } else { 0 };
    let ghost d = unsigned_part(t@);
    assert(d =~= t@.skip(start as int));
    if start >= t.len() {
        return None;
    }
    let mut v: usize = 0;
    let mut i: usize = start;
    assert(d.take(0) =~= Seq::<char>::empty());
    while i < t.len()
        invariant
            start <= i <= t.len(),
            d == t@.skip(start as int),
            d == unsigned_part(t@),
            v == decimal(d.take(i - start)),
            forall|k: int| 0 <= k < i - start ==> is_ascii_digit(#[trigger] d[k]),
        decreases t.len() - i,
    {
        let c = t[i];
        assert(d[i - start] == c);
        if !ascii_digit(c) {
            assert(!is_ascii_digit(d[i - start]));
            assert(!all_digits(d));
            return None;
        }
        let dv = (c as u32) - ('0' as u32);
        assert(d.take(i - start + 1) =~= d.take(i - start).push(c));
        proof { lemma_decimal_push(d.take(i - start), c); }
        if v > (usize::MAX - dv as usize) / 10 {
            proof {
                let dvi = dv as int;
                let vi = v as int;
                assert(vi * 10 + dvi > usize::MAX) by (nonlinear_arith)
                    requires
                        vi > (usize::MAX - dvi) / 10,
                        0 <= dvi <= 9,
                ;
                if all_digits(d) {
                    lemma_decimal_prefix_le(d, i - start + 1);
                }
            }
            return None;
        }
        v = v * 10 + dv as usize;
        i = i + 1;
    }
    assert(d.take(i - start) =~= d);
    Some(v)
}

proof fn lemma_decimal_prefix_le(d: Seq<char>, k: int)
    requires
        0 <= k <= d.len(),
        forall|i: int| 0 <= i < d.len() ==> is_ascii_digit(#[trigger] d[i]),
    ensures
        decimal(d.take(k)) <= decimal(d),
    decreases d.len() - k,
{
    if k < d.len() {
        lemma_decimal_prefix_le(d, k + 1);
        assert(d.take(k + 1).drop_last() =~= d.take(k));
        assert(is_ascii_digit(d[k]));
    } else {
        assert(d.take(k) =~= d);
    }
}

/// A positive width read from `stty size` (`rows cols`), `tput cols` or
/// `$COLUMNS`.
pub fn positive_width(value: &str) -> (r: Option<usize>)
    ensures
        r == positive_width_spec(value@),
{
    let s = chars_of(value);
    let mut end: usize = s.len();
    assert(s@.take(end as int) =~= s@);
    while end > 0 && is_whitespace(s[end - 1])
        invariant
            end <= s.len(),
            trim_end(s@) == trim_end(s@.take(end as int)),
        decreases end,
    {
        assert(s@.take(end as int).drop_last() =~= s@.take(end - 1));
        end = end - 1;
    }
    assert(end > 0 ==> trim_end(s@.take(end as int)) == s@.take(end as int));
    if end == 0 {
        assert(s@.take(0) =~= Seq::<char>::empty());
        return None;
    }
    let ghost t = s@.take(end as int);
    let mut start: usize = end;
    assert(t.subrange(end as int, end as int) =~= Seq::<char>::empty());
    assert(t.take(end as int) =~= t);
    while start > 0 && !is_whitespace(s[start - 1])
        invariant
            start <= end <= s.len(),
            t == s@.take(end as int),
            after_last_ws(t) == after_last_ws(t.take(start as int)) + t.subrange(start as int, end as int),
        decreases start,
    {
        assert(t.take(start as int).drop_last() =~= t.take(start - 1));
        assert(t.subrange(start - 1, end as int) =~= seq![t[start - 1]] + t.subrange(start as int, end as int));
        assert(t.take(start as int).last() == s@[start - 1]);
        start = start - 1;
    }
    if start > 0 {
        assert(t.take(start as int).last() == s@[start - 1]);
    } else {
        assert(t.take(0) =~= Seq::<char>::empty());
    }
    assert(after_last_ws(t.take(start as int)) =~= Seq::<char>::empty());
    let word = slice_chars(&s, start, end);
    assert(word@ =~= after_last_ws(t));
    match parse_usize(&word) {
        Some(n) => if n > 0 {
            Some(n)
        } else {
            None
        },
        None => None,
    }
}

/// The terminal's width: the terminal's own answer, else the first positive
/// width of `stty size`, `tput cols` and `$COLUMNS`, else 140.
pub open spec fn terminal_width_spec(tty: Option<usize>, stty: Option<Seq<char>>, tput: Option<Seq<char>>, columns: Option<Seq<char>>) -> usize {
    let from = |o: Option<Seq<char>>| match o {
        Some(v) => positive_width_spec(v),
        None => None,
    };
    match tty {
        Some(w) => w,
        None => match from(stty) {
            Some(w) => w,
            None => match from(tput) {
                Some(w) => w,
                None => match from(columns) {
                    Some(w) => w,
                    None => 140,
                },
            },
        },
    }
}

fn width_of(o: &Option<String>) -> (r: Option<usize>)
    ensures
        r == match o {
            Some(v) => positive_width_spec(v@),
            None => None,
        },
{
    match o {
        Some(v) => positive_width(v.as_str()),
        None => None,
    }
}

/// The terminal's width, from what the terminal itself reports (`tty`) and
/// what `stty size`, `tput cols` and `$COLUMNS` give.
pub fn terminal_width(tty: Option<usize>, stty: Option<String>, tput: Option<String>, columns: Option<String>) -> (r: usize)
    ensures
        r == terminal_width_spec(
            tty,
            match stty { Some(v) => Some(v@), None => None },
            match tput { Some(v) => Some(v@), None => None },
            match columns { Some(v) => Some(v@), None => None },
        ),
{
    match tty {
        Some(w) => w,
        None => match width_of(&stty) {
            Some(w) => w,
            None => match width_of(&tput) {
                Some(w) => w,
                None => match width_of(&columns) {
                    Some(w) => w,
                    None => 140,
                },
            },
        },
    }
}

/// The colour of the row keys.
#[derive(Clone, Copy)]
pub struct Theme {
    pub key: &'static str,
}

/// The key style for a browser's 256-colour number; an unknown number gets
/// colour 117.
pub open spec fn theme_key(color: Seq<char>) -> Seq<char> {
    if color == "33"@ {
        "\x1b[38;5;33m"@
    } else if color == "34"@ {
        "\x1b[38;5;34m"@
    } else if color == "39"@ {
        "\x1b[38;5;39m"@
    } else if color == "45"@ {
        "\x1b[38;5;45m"@
    } else if color == "196"@ {
        "\x1b[38;5;196m"@
    } else if color == "202"@ {
        "\x1b[38;5;202m"@
    } else if color == "208"@ {
        "\x1b[38;5;208m"@
    } else {
        "\x1b[38;5;117m"@
    }
}

fn same_text(a: &Vec<char>, b: &str) -> (r: bool)
    ensures
        r == (a@ == b@),
{
    chars_eq(a, &chars_of(b))
}

impl Theme {
    pub fn new(color: &str) -> (r: Theme)
        ensures
            r.key@ == theme_key(color@),
    {
        let c = chars_of(color);
        let key = if same_text(&c, "33") {
            "\x1b[38;5;33m"
        } else if same_text(&c, "34") {
            "\x1b[38;5;34m"
        } else if same_text(&c, "39") {
            "\x1b[38;5;39m"
        } else if same_text(&c, "45") {
            "\x1b[38;5;45m"
        } else if same_text(&c, "196") {
            "\x1b[38;5;196m"
        } else if same_text(&c, "202") {
            "\x1b[38;5;202m"
        } else if same_text(&c, "208") {
            "\x1b[38;5;208m"
        } else {
            "\x1b[38;5;117m"
        };
        Theme { key }
    }
}

/// A row key left-aligned in 10 characters.
pub open spec fn pad_key(key: Seq<char>) -> Seq<char> {
    key + repeat(' ', if key.len() < 10 { (10 - key.len()) as nat } else { 0 })
}

/// `a - b`, or 0 when `b` is larger.
pub open spec fn sat_sub(a: nat, b: nat) -> nat {
    if a > b { (a - b) as nat } else { 0 }
}

/// The start of every row: the coloured key, a colon, and the value style.
pub open spec fn row_head(key: Seq<char>, theme_key: Seq<char>) -> Seq<char> {
    theme_key + pad_key(key) + reset() + seq![':', ' '] + value_style()
}

/// A `key: value` row; the value is cut to what is left of `width` after
/// the key (13 columns).
pub open spec fn row_spec(key: Seq<char>, value: Seq<char>, width: nat, theme_key: Seq<char>) -> Seq<char> {
    row_head(key, theme_key) + truncate_spec(value, sat_sub(width, 13)) + reset()
}

/// A row of the extension tree: the branch drawn before the value, which is
/// cut to what is left after the key and the branch.
pub open spec fn leaf_row_spec(key: Seq<char>, branch: Seq<char>, value: Seq<char>, width: nat, theme_key: Seq<char>) -> Seq<char> {
    let prefix = branch + seq![' '];
    row_head(key, theme_key) + prefix + truncate_spec(value, sat_sub(sat_sub(width, 13), vis_width(prefix))) + reset()
}

fn push_text(v: &mut Vec<char>, t: &str)
    ensures
        final(v)@ == old(v)@ + t@,
{
    append_chars(v, &chars_of(t));
}

fn row_head_chars(key: &str, theme: Theme) -> (r: Vec<char>)
    ensures
        r@ == row_head(key@, theme.key@),
{
    let mut v = chars_of(theme.key);
    let k = chars_of(key);
    append_chars(&mut v, &k);
    let pad: usize = if k.len() < 10 { 10 - k.len() } else { 0 };
    crate::logo::push_repeat(&mut v, ' ', pad);
    push_reset(&mut v);
    v.push(':');
    v.push(' ');
    push_value_style(&mut v);
    assert(v@ =~= row_head(key@, theme.key@));
    v
}

/// A `key: value` row, `width` columns wide at most.
pub fn row(key: &str, value: &str, width: usize, theme: Theme) -> (r: String)
    ensures
        r@ == row_spec(key@, value@, width as nat, theme.key@),
{
    let mut v = row_head_chars(key, theme);
    let vw: usize = if width > 13 { width - 13 } else { 0 };
    let t = truncate_chars(&chars_of(value), vw);
    append_chars(&mut v, &t);
    push_reset(&mut v);
    string_from_chars(&v)
}

/// A row of the extension tree, drawn with `branch`.
pub fn tree_leaf_row(key: &str, branch: &str, value: &str, width: usize, theme: Theme) -> (r: String)
    ensures
        r@ == leaf_row_spec(key@, branch@, value@, width as nat, theme.key@),
{
    let mut v = row_head_chars(key, theme);
    let mut prefix = chars_of(branch);
    prefix.push(' ');
    let vw: usize = if width > 13 { width - 13 } else { 0 };
    let pw = visible_width_saturating(&prefix);
    let room: usize = if vw > pw { vw - pw } else { 0 };
    assert(prefix@ =~= branch@ + seq![' ']);
    assert(room == sat_sub(vw as nat, vis_width(prefix@)));
    assert(vw == sat_sub(width as nat, 13));
    let t = truncate_chars(&chars_of(value), room);
    append_chars(&mut v, &prefix);
    append_chars(&mut v, &t);
    push_reset(&mut v);
    assert(v@ =~= leaf_row_spec(key@, branch@, value@, width as nat, theme.key@));
    string_from_chars(&v)
}

/// `├─`, drawn before every item of a group but the last.
pub open spec fn mid_branch() -> Seq<char> {
    seq!['\u{251c}', '\u{2500}']
}

/// `└─`, drawn before the last item of a group.
pub open spec fn last_branch() -> Seq<char> {
    seq!['\u{2514}', '\u{2500}']
}

/// A group of the extension tree: a header row with the label and no value,
/// then one row per item.
pub open spec fn group_spec(label: Seq<char>, items: Seq<Seq<char>>, width: nat, theme_key: Seq<char>) -> Seq<Seq<char>> {
    seq![row_spec(label, Seq::<char>::empty(), width, theme_key)] + Seq::new(
        items.len(),
        |i: int| leaf_row_spec(
            Seq::<char>::empty(),
            if i + 1 == items.len() { last_branch() } else { mid_branch() },
            items[i],
            width,
            theme_key,
        ),
    )
}

pub fn extension_tree_group(label: &str, items: &Vec<String>, width: usize, theme: Theme) -> (r: Vec<String>)
    ensures
        string_views(r@) == group_spec(label@, string_views(items@), width as nat, theme.key@),
{
    let mut rows: Vec<String> = Vec::new();
    rows.push(row(label, "", width, theme));
    proof {
        reveal_strlit("");
    }
    let ghost iv = string_views(items@);
    let mut i: usize = 0;
    while i < items.len()
        invariant
            i <= items.len(),
            iv == string_views(items@),
            rows.len() == i + 1,
            string_views(rows@)[0] == row_spec(label@, Seq::<char>::empty(), width as nat, theme.key@),
            forall|k: int| 1 <= k <= i ==> #[trigger] string_views(rows@)[k] == leaf_row_spec(
                Seq::<char>::empty(),
                if k == items.len() { last_branch() } else { mid_branch() },
                iv[k - 1],
                width as nat,
                theme.key@,
            ),
        decreases items.len() - i,
    {
        let branch = if i + 1 == items.len() { "\u{2514}\u{2500}" } else { "\u{251c}\u{2500}" };
        proof {
            reveal_strlit("\u{2514}\u{2500}");
            reveal_strlit("\u{251c}\u{2500}");
            reveal_strlit("");
        }
        assert(branch@ == (if i + 1 == items.len() { last_branch() } else { mid_branch() }));
        let leaf = tree_leaf_row("", branch, items[i].as_str(), width, theme);
        assert(iv[i as int] == items@[i as int]@);
        assert(leaf@ == leaf_row_spec(Seq::<char>::empty(), branch@, iv[i as int], width as nat, theme.key@));
        let ghost before = string_views(rows@);
        rows.push(leaf);
        assert(string_views(rows@) =~= before.push(leaf@));
        assert(string_views(rows@)[i + 1] == leaf@);
        i = i + 1;
    }
    assert(string_views(rows@) =~= group_spec(label@, iv, width as nat, theme.key@));
    rows
}

/// How an extension is listed: its name, then its version when known.
pub open spec fn extension_label_spec(e: ExtensionView) -> Seq<char> {
    match e.version {
        Some(v) => e.name + seq![' '] + v,
        None => e.name,
    }
}

pub fn extension_label(ext: &Extension) -> (r: String)
    ensures
        r@ == extension_label_spec(ext@),
{
    let mut v = chars_of(ext.name.as_str());
    match &ext.version {
        Some(ver) => {
            v.push(' ');
            append_chars(&mut v, &chars_of(ver.as_str()));
        },
        None => {},
    }
    string_from_chars(&v)
}

/// Extensions in the given state (`Some(true)` enabled, `Some(false)`
/// disabled, `None` unknown).
pub open spec fn in_state(active: Option<bool>) -> spec_fn(ExtensionView) -> bool {
    |e: ExtensionView| e.active == active
}

/// The labels of the extensions in a state, in order.
pub open spec fn labels_in(es: Seq<ExtensionView>, active: Option<bool>) -> Seq<Seq<char>> {
    es.filter(in_state(active)).map_values(|e: ExtensionView| extension_label_spec(e))
}

fn labels_with(exts: &Vec<Extension>, active: Option<bool>) -> (r: Vec<String>)
    ensures
        string_views(r@) == labels_in(extension_views(exts@), active),
{
    let ghost ev = extension_views(exts@);
    let mut r: Vec<String> = Vec::new();
    let mut i: usize = 0;
    assert(ev.take(0) =~= Seq::<ExtensionView>::empty());
    reveal(Seq::filter);
    while i < exts.len()
        invariant
            i <= exts.len(),
            ev == extension_views(exts@),
            string_views(r@) == labels_in(ev.take(i as int), active),
        decreases exts.len() - i,
    {
        let ghost prev = ev.take(i as int);
        assert(ev.take(i + 1) =~= prev.push(ev[i as int]));
        assert(ev[i as int] == exts@[i as int]@);
        proof {
            lemma_filter_push(prev, ev[i as int], in_state(active));
        }
        if exts[i].active == active {
            let l = extension_label(&exts[i]);
            let ghost before = string_views(r@);
            r.push(l);
            assert(string_views(r@) =~= before.push(l@));
            assert(prev.filter(in_state(active)).push(ev[i as int]).map_values(|e: ExtensionView| extension_label_spec(e))
                =~= prev.filter(in_state(active)).map_values(|e: ExtensionView| extension_label_spec(e)).push(extension_label_spec(ev[i as int])));
        }
        i = i + 1;
    }
    assert(ev.take(exts.len() as int) =~= ev);
    r
}

/// The extension tree: a group each for the enabled, disabled and unknown
/// extensions, leaving out empty groups.
pub open spec fn summary_rows_spec(es: Seq<ExtensionView>, width: nat, theme_key: Seq<char>) -> Seq<Seq<char>> {
    let en = labels_in(es, Some(true));
    let dis = labels_in(es, Some(false));
    let unk = labels_in(es, None);
    (if en.len() > 0 { group_spec("Enabled"@, en, width, theme_key) } else { Seq::<Seq<char>>::empty() })
        + (if dis.len() > 0 { group_spec("Disabled"@, dis, width, theme_key) } else { Seq::<Seq<char>>::empty() })
        + (if unk.len() > 0 { group_spec("Unknown"@, unk, width, theme_key) } else { Seq::<Seq<char>>::empty() })
}

fn append_rows(rows: &mut Vec<String>, more: Vec<String>)
    ensures
        string_views(final(rows)@) == string_views(old(rows)@) + string_views(more@),
{
    let ghost r0 = string_views(rows@);
    let mut m = more;
    let ghost mv = string_views(m@);
    let mut i: usize = 0;
    let n = m.len();
    while m.len() > 0
        invariant
            m.len() + i == n,
            mv.len() == n,
            string_views(m@) == mv.skip(i as int),
            string_views(rows@) == r0 + mv.take(i as int),
        decreases m.len(),
    {
        let ghost m_old = m@;
        assert(string_views(m_old)[0] == m_old[0]@);
        assert(mv.skip(i as int)[0] == mv[i as int]);
        let x = m.remove(0);
        assert(x@ == mv[i as int]);
        assert(m@ =~= m_old.skip(1));
        assert(string_views(m_old).skip(1) =~= string_views(m_old.skip(1)));
        assert(mv.skip(i as int).skip(1) =~= mv.skip(i + 1));
        let ghost before = string_views(rows@);
        rows.push(x);
        assert(string_views(rows@) =~= before.push(x@));
        assert(mv.take(i + 1) =~= mv.take(i as int).push(mv[i as int]));
        assert(string_views(m@) =~= mv.skip(i + 1));
        i = i + 1;
    }
    assert(mv.take(n as int) =~= mv);
}

/// The extension tree of a browser's extensions.
pub fn extension_summary_rows(browser: &Browser, width: usize, theme: Theme) -> (r: Vec<String>)
    ensures
        string_views(r@) == summary_rows_spec(extension_views(browser.extensions@), width as nat, theme.key@),
{
    let enabled = labels_with(&browser.extensions, Some(true));
    let disabled = labels_with(&browser.extensions, Some(false));
    let unknown = labels_with(&browser.extensions, None);
    let mut rows: Vec<String> = Vec::new();
    let ghost e0 = Seq::<Seq<char>>::empty();
    assert(string_views(rows@) =~= e0);
    if enabled.len() > 0 {
        append_rows(&mut rows, extension_tree_group("Enabled", &enabled, width, theme));
    }
    let ghost r1 = string_views(rows@);
    if disabled.len() > 0 {
        append_rows(&mut rows, extension_tree_group("Disabled", &disabled, width, theme));
    } else {
        assert(string_views(rows@) =~= r1 + Seq::<Seq<char>>::empty());
    }
    let ghost r2 = string_views(rows@);
    if unknown.len() > 0 {
        append_rows(&mut rows, extension_tree_group("Unknown", &unknown, width, theme));
    } else {
        assert(string_views(rows@) =~= r2 + Seq::<Seq<char>>::empty());
    }
    assert(string_views(rows@) =~= summary_rows_spec(extension_views(browser.extensions@), width as nat, theme.key@));
    rows
}

/// `user@host` in bold key colour, the `@` dimmed.
pub open spec fn title_spec(theme_key: Seq<char>, user: Option<Seq<char>>, host: Option<Seq<char>>) -> Seq<char> {
    let u = match user { Some(u) => u, None => "user"@ };
    let h = match host { Some(h) => h, None => "host"@ };
    bold() + theme_key + u + reset() + dim() + seq!['@'] + reset() + bold() + theme_key + h + reset()
}

/// The title line; `user` is `$USER` and `host` what `hostname -s` printed.
pub fn title_line(theme: Theme, user: Option<String>, host: Option<String>) -> (r: String)
    ensures
        r@ == title_spec(theme.key@, opt_view(user), opt_view(host)),
{
    let u = match &user {
        Some(u) => chars_of(u.as_str()),
        None => chars_of("user"),
    };
    let h = match &host {
        Some(h) => chars_of(h.as_str()),
        None => chars_of("host"),
    };
    let k = chars_of(theme.key);
    let mut v: Vec<char> = Vec::new();
    push_style(&mut v, '1');
    append_chars(&mut v, &k);
    append_chars(&mut v, &u);
    push_reset(&mut v);
    push_style(&mut v, '2');
    v.push('@');
    push_reset(&mut v);
    push_style(&mut v, '1');
    append_chars(&mut v, &k);
    append_chars(&mut v, &h);
    push_reset(&mut v);
    assert(v@ =~= title_spec(theme.key@, opt_view(user), opt_view(host)));
    string_from_chars(&v)
}

/// The engine row's value.
pub open spec fn engine_text(e: Option<Engine>) -> Seq<char> {
    match e {
        Some(x) => engine_name(x),
        None => "unknown"@,
    }
}

/// The profile row's value: the active profile's name and folder, else the
/// profile root, else `unknown`.
pub open spec fn profile_text(profile: Option<Profile>, backend: Option<ProfileBackend>) -> Seq<char> {
    match profile {
        Some(p) => (match p.name { Some(n) => n@, None => "unnamed"@ }) + " / "@ + (match file_name(p.path@) {
            Some(f) => f,
            None => "unknown"@,
        }),
        None => match backend {
            Some(ProfileBackend::Firefox(r)) => r@,
            Some(ProfileBackend::Chromium(r)) => r@,
            None => "unknown"@,
        },
    }
}

/// The extensions row's value: how many there are, and how many of them are
/// enabled and disabled (`12 (12 enabled, 0 disabled)`); extensions in an
/// unknown state are counted in the total and listed in the tree.
pub open spec fn counts_text(es: Seq<ExtensionView>) -> Seq<char> {
    decimal_text(es.len()) + " ("@ + decimal_text(es.filter(in_state(Some(true))).len()) + " enabled, "@
        + decimal_text(es.filter(in_state(Some(false))).len()) + " disabled)"@
}

/// The rows beside the logo.
pub open spec fn info_spec(
    b: Browser,
    width: nat,
    os_line: Seq<char>,
    session_line: Seq<char>,
    user: Option<Seq<char>>,
    host: Option<Seq<char>>,
) -> Seq<Seq<char>> {
    let tk = theme_key(b.color@);
    let es = extension_views(b.extensions@);
    seq![
        title_spec(tk, user, host),
        separator_spec(width),
        row_spec("Browser"@, b.name@, width, tk),
        row_spec("Engine"@, engine_text(b.engine), width, tk),
        row_spec("Version"@, clean_version_spec(match b.version { Some(v) => v@, None => "unknown"@ }), width, tk),
        row_spec("OS"@, os_line, width, tk),
        row_spec("Session"@, session_line, width, tk),
        row_spec("Profile"@, profile_text(b.active_profile, b.profile_backend), width, tk),
        row_spec("Extensions"@, counts_text(es), width, tk),
    ] + summary_rows_spec(es, width, tk)
}

/// The widest logo line, in columns.
pub open spec fn logo_width_spec(logo: Seq<Seq<char>>) -> nat
    decreases logo.len(),
{
    if logo.len() == 0 {
        0
    } else {
        let w = logo_width_spec(logo.drop_last());
        if vis_width(logo.last()) > w { vis_width(logo.last()) } else { w }
    }
}

/// The width left for the rows: the terminal's, less the logo and a gap of
/// four, but never under 50.
pub open spec fn right_width_spec(terminal_width: nat, logo_width: nat) -> nat {
    let w = sat_sub(terminal_width, logo_width + 4);
    if w > 50 { w } else { 50 }
}

/// Line `i` of the output: the logo line (or nothing) padded to the logo's
/// width plus four columns, then the row (or nothing).
pub open spec fn layout_line(logo: Seq<Seq<char>>, info: Seq<Seq<char>>, logo_width: nat, i: int) -> Seq<char> {
    let left = if i < logo.len() { logo[i] } else { Seq::<char>::empty() };
    let right = if i < info.len() { info[i] } else { Seq::<char>::empty() };
    left + repeat(' ', sat_sub(logo_width, vis_width(left)) + 4) + right
}

/// The printed lines: the logo on the left, the rows on the right.
pub open spec fn render_spec(
    b: Browser,
    logo: Seq<Seq<char>>,
    terminal_width: nat,
    os_line: Seq<char>,
    session_line: Seq<char>,
    user: Option<Seq<char>>,
    host: Option<Seq<char>>,
) -> Seq<Seq<char>> {
    let lw = logo_width_spec(logo);
    let info = info_spec(b, right_width_spec(terminal_width, lw), os_line, session_line, user, host);
    let n = if logo.len() > info.len() { logo.len() } else { info.len() };
    Seq::new(n, |i: int| layout_line(logo, info, lw, i))
}

proof fn lemma_logo_width_bound(logo: Seq<Seq<char>>, bound: nat)
    requires
        forall|i: int| 0 <= i < logo.len() ==> vis_width(#[trigger] logo[i]) <= bound,
    ensures
        logo_width_spec(logo) <= bound,
    decreases logo.len(),
{
    if logo.len() > 0 {
        assert(vis_width(logo[logo.len() - 1]) <= bound);
        lemma_logo_width_bound(logo.drop_last(), bound);
    }
}

proof fn lemma_logo_width_ge(logo: Seq<Seq<char>>, i: int)
    requires
        0 <= i < logo.len(),
    ensures
        vis_width(logo[i]) <= logo_width_spec(logo),
    decreases logo.len(),
{
    if i < logo.len() - 1 {
        lemma_logo_width_ge(logo.drop_last(), i);
    }
}

fn push_row(rows: &mut Vec<String>, r: String)
    ensures
        string_views(final(rows)@) == string_views(old(rows)@).push(r@),
        final(rows)@.len() == old(rows)@.len() + 1,
{
    let ghost before = string_views(rows@);
    rows.push(r);
    assert(string_views(rows@) =~= before.push(r@));
}

fn counts_chars(exts: &Vec<Extension>) -> (r: Vec<char>)
    ensures
        r@ == counts_text(extension_views(exts@)),
{
    let en = labels_with(exts, Some(true));
    let dis = labels_with(exts, Some(false));
    let ghost es = extension_views(exts@);
    assert(en@.len() == string_views(en@).len());
    assert(dis@.len() == string_views(dis@).len());
    assert(labels_in(es, Some(true)).len() == es.filter(in_state(Some(true))).len());
    assert(labels_in(es, Some(false)).len() == es.filter(in_state(Some(false))).len());
    assert(es.len() == exts.len());
    let mut v = decimal_chars(exts.len());
    push_text(&mut v, " (");
    append_chars(&mut v, &decimal_chars(en.len()));
    push_text(&mut v, " enabled, ");
    append_chars(&mut v, &decimal_chars(dis.len()));
    push_text(&mut v, " disabled)");
    assert(v@ =~= counts_text(es));
    v
}

fn profile_chars(profile: &Option<Profile>, backend: &Option<ProfileBackend>) -> (r: Vec<char>)
    ensures
        r@ == profile_text(*profile, *backend),
{
    match profile {
        Some(p) => {
            let mut v = match &p.name {
                Some(n) => chars_of(n.as_str()),
                None => chars_of("unnamed"),
            };
            push_text(&mut v, " / ");
            match path_file_name(&chars_of(p.path.as_str())) {
                Some(f) => append_chars(&mut v, &f),
                None => push_text(&mut v, "unknown"),
            }
            v
        },
        None => match backend {
            Some(b) => chars_of(b.root().as_str()),
            None => chars_of("unknown"),
        },
    }
}

fn info_rows(
    b: &Browser,
    width: usize,
    os_line: &str,
    session_line: &str,
    user: Option<String>,
    host: Option<String>,
) -> (r: Vec<String>)
    ensures
        string_views(r@) == info_spec(*b, width as nat, os_line@, session_line@, opt_view(user), opt_view(host)),
{
    let theme = Theme::new(b.color);
    let engine = match b.engine {
        Some(e) => e.name(),
        None => "unknown",
    };
    let version = match &b.version {
        Some(v) => clean_version(v.as_str()),
        None => clean_version("unknown"),
    };
    let profile = string_from_chars(&profile_chars(&b.active_profile, &b.profile_backend));
    let counts = string_from_chars(&counts_chars(&b.extensions));
    let mut rows: Vec<String> = Vec::new();
    push_row(&mut rows, title_line(theme, user, host));
    push_row(&mut rows, separator_line(width));
    push_row(&mut rows, row("Browser", b.name.as_str(), width, theme));
    push_row(&mut rows, row("Engine", engine, width, theme));
    push_row(&mut rows, row("Version", version.as_str(), width, theme));
    push_row(&mut rows, row("OS", os_line, width, theme));
    push_row(&mut rows, row("Session", session_line, width, theme));
    push_row(&mut rows, row("Profile", profile.as_str(), width, theme));
    push_row(&mut rows, row("Extensions", counts.as_str(), width, theme));
    let ghost head = string_views(rows@);
    let tree = extension_summary_rows(b, width, theme);
    append_rows(&mut rows, tree);
    assert(string_views(rows@) =~= info_spec(*b, width as nat, os_line@, session_line@, opt_view(user), opt_view(host)));
    rows
}

/// The lines printed for a browser: its logo (each line narrower than
/// `usize::MAX - 4` columns) beside the rows, laid out for a terminal
/// `terminal_width` columns wide; `os_line` and `session_line` are the system
/// and session summaries, `user` and `host` name the title.
pub fn render_lines(
    browser: &Browser,
    logo: &Vec<String>,
    terminal_width: usize,
    os_line: &str,
    session_line: &str,
    user: Option<String>,
    host: Option<String>,
) -> (r: Vec<String>)
    requires
        forall|i: int| 0 <= i < logo.len() ==> vis_width(#[trigger] logo@[i]@) + 4 <= usize::MAX,
    ensures
        string_views(r@) == render_spec(
            *browser,
            string_views(logo@),
            terminal_width as nat,
            os_line@,
            session_line@,
            opt_view(user),
            opt_view(host),
        ),
{
    let ghost lv = string_views(logo@);
    let mut lw: usize = 0;
    let mut i: usize = 0;
    assert(lv.take(0) =~= Seq::<Seq<char>>::empty());
    while i < logo.len()
        invariant
            i <= logo.len(),
            lv == string_views(logo@),
            lw == logo_width_spec(lv.take(i as int)),
            forall|k: int| 0 <= k < logo.len() ==> vis_width(#[trigger] logo@[k]@) + 4 <= usize::MAX,
        decreases logo.len() - i,
    {
        assert(lv.take(i + 1).drop_last() =~= lv.take(i as int));
        assert(lv.take(i + 1).last() == logo@[i as int]@);
        let w = visible_width(logo[i].as_str());
        if w > lw {
            lw = w;
        }
        i = i + 1;
    }
    assert(lv.take(logo.len() as int) =~= lv);
    proof {
        assert forall|k: int| 0 <= k < lv.len() implies vis_width(#[trigger] lv[k]) <= usize::MAX - 4 by {
            assert(lv[k] == logo@[k]@);
        }
        lemma_logo_width_bound(lv, (usize::MAX - 4) as nat);
    }
    let gap = lw + 4;
    let rw0: usize = if terminal_width > gap { terminal_width - gap } else { 0 };
    let rw: usize = if rw0 > 50 { rw0 } else { 50 };
    let info = info_rows(browser, rw, os_line, session_line, user, host);
    let ghost iv = string_views(info@);
    let n = if logo.len() > info.len() { logo.len() } else { info.len() };
    let mut out: Vec<String> = Vec::new();
    let mut j: usize = 0;
    while j < n
        invariant
            j <= n,
            n == (if logo.len() > info.len() { logo.len() } else { info.len() }),
            lv == string_views(logo@),
            iv == string_views(info@),
            lw == logo_width_spec(lv),
            lw + 4 <= usize::MAX,
            out.len() == j,
            forall|k: int| 0 <= k < logo.len() ==> vis_width(#[trigger] logo@[k]@) + 4 <= usize::MAX,
            forall|k: int| 0 <= k < j ==> #[trigger] string_views(out@)[k] == layout_line(lv, iv, lw as nat, k),
        decreases n - j,
    {
        let left = if j < logo.len() { chars_of(logo[j].as_str()) } else { Vec::new() };
        let right = if j < info.len() { chars_of(info[j].as_str()) } else { Vec::new() };
        if j < logo.len() {
            assert(lv[j as int] == logo@[j as int]@);
            proof { lemma_logo_width_ge(lv, j as int); }
        } else {
            assert(left@ =~= Seq::<char>::empty());
        }
        if j < info.len() {
            assert(iv[j as int] == info@[j as int]@);
        } else {
            assert(right@ =~= Seq::<char>::empty());
        }
        let w = visible_width_chars(&left);
        let pad = (if lw > w { lw - w } else { 0 }) + 4;
        let mut line = left;
        crate::logo::push_repeat(&mut line, ' ', pad);
        append_chars(&mut line, &right);
        assert(line@ =~= layout_line(lv, iv, lw as nat, j as int));
        push_row(&mut out, string_from_chars(&line));
        j = j + 1;
    }
    assert(string_views(out@) =~= render_spec(
        *browser,
        lv,
        terminal_width as nat,
        os_line@,
        session_line@,
        opt_view(user),
        opt_view(host),
    ));
    out
}

proof fn lemma_fit_end_room(s: Seq<char>, i: int, used: nat, target: nat)
    requires
        0 <= i <= s.len(),
        used <= target,
    ensures
        i <= fit_end(s, i, used, target) <= s.len(),
        used + cw_range(s, i, fit_end(s, i, used, target)) <= target,
    decreases s.len() - i,
{
    if i < s.len() && used + cw(s[i]) <= target {
        lemma_fit_end_room(s, i + 1, used + cw(s[i]), target);
    }
}

proof fn lemma_dots_width(n: nat)
    ensures
        cw_range(repeat('.', n), 0, n as int) == n,
{
    let d = repeat('.', n);
    assert forall|k: int| 0 <= k <= n implies cw_range(d, k, n as int) == n - k by {
        lemma_dots_from(d, n, k);
    }
}

proof fn lemma_dots_from(d: Seq<char>, n: nat, k: int)
    requires
        d == repeat('.', n),
        0 <= k <= n,
    ensures
        cw_range(d, k, n as int) == n - k,
    decreases n - k,
{
    if k < n {
        lemma_dots_from(d, n, k + 1);
        assert(d[k] == '.');
    }
}

/// A cut value never takes more than `max_width` columns.
pub proof fn law_truncate_fits(value: Seq<char>, max_width: nat)
    ensures
        vis_width(truncate_spec(value, max_width)) <= max_width,
{
    let r = truncate_spec(value, max_width);
    lemma_width_le_cw(r, 0);
    if vis_width(value) <= max_width {
    } else if max_width <= 3 {
        lemma_dots_width(max_width);
    } else {
        let t = (max_width - 3) as nat;
        lemma_fit_end_room(value, 0, 0, t);
        let k = fit_end(value, 0, 0, t);
        let p = value.take(k);
        let dots = seq!['.', '.', '.'];
        assert(r == p + dots);
        lemma_cw_range_split(r, 0, k, r.len() as int);
        lemma_cw_range_shift(r, value, 0, 0, k);
        lemma_cw_range_shift(r, dots, -k, k, r.len() as int);
        assert(dots =~= repeat('.', 3));
        lemma_dots_width(3);
    }
}

/// Every extension is counted once: the enabled, disabled and unknown
/// groups of the tree together hold as many extensions as the total.
pub proof fn law_extension_counts_add_up(es: Seq<ExtensionView>)
    ensures
        es.filter(in_state(Some(true))).len() + es.filter(in_state(Some(false))).len() + es.filter(in_state(None)).len()
            == es.len(),
    decreases es.len(),
{
    reveal(Seq::filter);
    if es.len() > 0 {
        let q = es.drop_last();
        law_extension_counts_add_up(q);
        assert(q.push(es.last()) =~= es);
        lemma_filter_push(q, es.last(), in_state(Some(true)));
        lemma_filter_push(q, es.last(), in_state(Some(false)));
        lemma_filter_push(q, es.last(), in_state(None));
        match es.last().active {
            Some(true) => assert(in_state(Some(true))(es.last())),
            Some(false) => assert(in_state(Some(false))(es.last())),
            None => assert(in_state(None)(es.last())),
        }
    }
}

/// The terminal width used is never zero, unless the terminal itself
/// reports zero columns.
pub proof fn law_terminal_width_positive(tty: Option<usize>, stty: Option<Seq<char>>, tput: Option<Seq<char>>, columns: Option<Seq<char>>)
    requires
        tty matches Some(w) ==> w > 0,
    ensures
        terminal_width_spec(tty, stty, tput, columns) > 0,
{
}

/// The lines printed for a browser, as `render_lines` lays them out, when
/// every logo line is narrower than `usize::MAX - 4` columns; `None` when one
/// is not.
pub fn render_lines_checked(
    browser: &Browser,
    logo: &Vec<String>,
    terminal_width: usize,
    os_line: &str,
    session_line: &str,
    user: Option<String>,
    host: Option<String>,
) -> (r: Option<Vec<String>>)
    ensures
        match r {
            Some(lines) => (forall|i: int| 0 <= i < logo.len() ==> vis_width(#[trigger] logo@[i]@) + 4 <= usize::MAX)
                && string_views(lines@) == render_spec(
                *browser,
                string_views(logo@),
                terminal_width as nat,
                os_line@,
                session_line@,
                opt_view(user),
                opt_view(host),
            ),
            None => exists|i: int| 0 <= i < logo.len() && vis_width(#[trigger] logo@[i]@) + 4 > usize::MAX,
        },
{
    let mut i: usize = 0;
    while i < logo.len()
        invariant
            i <= logo.len(),
            forall|k: int| 0 <= k < i ==> vis_width(#[trigger] logo@[k]@) + 4 <= usize::MAX,
        decreases logo.len() - i,
    {
        let line = chars_of(logo[i].as_str());
        if !width_at_most(&line, usize::MAX - 4) {
            assert(vis_width(logo@[i as int]@) + 4 > usize::MAX);
            return None;
        }
        i = i + 1;
    }
    Some(render_lines(browser, logo, terminal_width, os_line, session_line, user, host))
}

/// How many of `es` are in the given state, counted one by one.
pub open spec fn count_in_state(es: Seq<ExtensionView>, active: Option<bool>) -> nat
    decreases es.len(),
{
    if es.len() == 0 {
        0
    } else {
        count_in_state(es.drop_last(), active) + if es.last().active == active { 1nat } else { 0nat }
    }
}

proof fn lemma_filter_count(es: Seq<ExtensionView>, active: Option<bool>)
    ensures
        es.filter(in_state(active)).len() == count_in_state(es, active),
    decreases es.len(),
{
    reveal(Seq::filter);
    if es.len() > 0 {
        lemma_filter_count(es.drop_last(), active);
        assert(es.drop_last().push(es.last()) =~= es);
        lemma_filter_push(es.drop_last(), es.last(), in_state(active));
    }
}

/// The extensions row counts the extensions, those enabled
/// (`active == Some(true)`) and those disabled (`active == Some(false)`);
/// the disabled count is the number of items in the tree's Disabled group,
/// and an extension of unknown state counts as neither.
pub proof fn law_extension_row_counts(es: Seq<ExtensionView>)
    ensures
        counts_text(es) == decimal_text(es.len()) + " ("@ + decimal_text(count_in_state(es, Some(true)))
            + " enabled, "@ + decimal_text(count_in_state(es, Some(false))) + " disabled)"@,
        count_in_state(es, Some(false)) == labels_in(es, Some(false)).len(),
        count_in_state(es, Some(true)) == labels_in(es, Some(true)).len(),
{
    lemma_filter_count(es, Some(true));
    lemma_filter_count(es, Some(false));
}

} // verus!
