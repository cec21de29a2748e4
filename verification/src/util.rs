//! Desktop-entry `Exec` values: tokenising with quotes and escapes, and the
//! command (program, arguments, environment) they describe.
use vstd::prelude::*;
use crate::path::{file_name, path_file_name};
use crate::sort::lemma_filter_push;
use crate::text::{ascii_alnum, ascii_alpha, chars_eq, chars_of, is_ascii_alnum, is_ascii_alpha, is_whitespace, is_ws, slice_chars, string_from_chars, trim, trim_chars, views};

verus! {

/// A command to run: program, arguments, and extra environment variables.
#[derive(Debug, Clone, PartialEq, Eq)]
pub struct CommandSpec {
    pub program: String,
    pub args: Vec<String>,
    pub env: Vec<(String, String)>,
}

/// The value of a `CommandSpec`.
pub struct CommandView {
    pub program: Seq<char>,
    pub args: Seq<Seq<char>>,
    pub env: Seq<(Seq<char>, Seq<char>)>,
}

pub open spec fn string_views(v: Seq<String>) -> Seq<Seq<char>> {
    v.map_values(|s: String| s@)
}

pub open spec fn pair_views(v: Seq<(String, String)>) -> Seq<(Seq<char>, Seq<char>)> {
    v.map_values(|p: (String, String)| (p.0@, p.1@))
}

impl View for CommandSpec {
    type V = CommandView;

    open spec fn view(&self) -> CommandView {
        CommandView {
            program: self.program@,
            args: string_views(self.args@),
            env: pair_views(self.env@),
        }
    }
}

/// Tokeniser state: finished tokens, the token being read, the open quote,
/// and whether the previous character was an escaping backslash.
pub type TokState = (Seq<Seq<char>>, Seq<char>, Option<char>, bool);

/// One step of the tokeniser on character `ch`.
pub open spec fn tok_step(st: TokState, ch: char) -> TokState {
    let (tokens, cur, quote, escaped) = st;
    if escaped {
        (tokens, cur.push(ch), quote, false)
    } else if ch == '\\' && quote != Some('\'') {
        (tokens, cur, quote, true)
    } else if quote is Some {
        if ch == quote->0 {
            (tokens, cur, None, false)
        } else {
            (tokens, cur.push(ch), quote, false)
        }
    } else if ch == '\'' || ch == '"' {
        (tokens, cur, Some(ch), false)
    } else if is_ws(ch) {
        if cur.len() > 0 {
            (tokens.push(cur), Seq::<char>::empty(), None, false)
        } else {
            (tokens, cur, None, false)
        }
    } else {
        (tokens, cur.push(ch), quote, false)
    }
}

/// The tokeniser state after reading all of `s`.
pub open spec fn tok_run(s: Seq<char>) -> TokState
    decreases s.len(),
{
    if s.len() == 0 {
        (Seq::<Seq<char>>::empty(), Seq::<char>::empty(), None, false)
    } else {
        tok_step(tok_run(s.drop_last()), s.last())
    }
}

/// The tokens of an `Exec` value: separated by unquoted, unescaped
/// whitespace; `'` and `"` quote; a backslash escapes the next character
/// except inside `'...'`; a trailing lone backslash is kept.
pub open spec fn tokenize(s: Seq<char>) -> Seq<Seq<char>> {
    let (tokens, cur, quote, escaped) = tok_run(s);
    let last = if escaped { cur.push('\\') } else { cur };
    if last.len() > 0 {
        tokens.push(last)
    } else {
        tokens
    }
}

pub fn tokenize_exec(value: &str) -> (tokens: Vec<String>)
    ensures
        string_views(tokens@) == tokenize(value@),
{
    let s = chars_of(value);
    let mut tokens: Vec<Vec<char>> = Vec::new();
    let mut current: Vec<char> = Vec::new();
    let mut quote: Option<char> = None;
    let mut escaped = false;
    let mut i: usize = 0;
    assert(s@.take(0) =~= Seq::<char>::empty());
    while i < s.len()
        invariant
            i <= s.len(),
            tok_run(s@.take(i as int)) == (views(tokens@), current@, quote, escaped),
        decreases s.len() - i,
    {
        let ch = s[i];
        assert(s@.take(i + 1).drop_last() =~= s@.take(i as int));
        let ghost tv = views(tokens@);
        if escaped {
            current.push(ch);
            escaped = false;
        } else if ch == '\\' && quote != Some('\'') {
            escaped = true;
        } else if quote.is_some() {
            if Some(ch) == quote {
                quote = None;
            } else {
                current.push(ch);
            }
        } else if ch == '\'' || ch == '"' {
            quote = Some(ch);
        } else if is_whitespace(ch) {
            if current.len() > 0 {
                let mut done: Vec<char> = Vec::new();
                std::mem::swap(&mut current, &mut done);
                tokens.push(done);
                assert(views(tokens@) =~= tv.push(done@));
            }
        } else {
            current.push(ch);
        }
        i = i + 1;
    }
    assert(s@.take(s.len() as int) =~= s@);
    if escaped {
        current.push('\\');
    }
    if current.len() > 0 {
        let ghost tv = views(tokens@);
        tokens.push(current);
        assert(views(tokens@) =~= tv.push(current@));
    }
    let mut out: Vec<String> = Vec::new();
    let mut k: usize = 0;
    while k < tokens.len()
        invariant
            k <= tokens.len(),
            string_views(out@) == views(tokens@).take(k as int),
        decreases tokens.len() - k,
    {
        let t = string_from_chars(&tokens[k]);
        let ghost before = string_views(out@);
        out.push(t);
        assert(string_views(out@) =~= before.push(tokens@[k as int]@));
        k = k + 1;
        assert(string_views(out@) =~= views(tokens@).take(k as int));
    }
    assert(views(tokens@).take(tokens.len() as int) =~= views(tokens@));
    out
}

/// Whether `value` can name an environment variable: non-empty, ASCII
/// letters, digits and `_` only.
pub open spec fn env_key_ok(value: Seq<char>) -> bool {
    value.len() > 0 && forall|i: int| 0 <= i < value.len() ==> (is_ascii_alnum(value[i]) || value[i] == '_')
}

fn env_key_chars(value: &Vec<char>) -> (r: bool)
    ensures
        r == env_key_ok(value@),
{
    if value.len() == 0 {
        return false;
    }
    let mut i: usize = 0;
    while i < value.len()
        invariant
            i <= value.len(),
            forall|k: int| 0 <= k < i ==> (is_ascii_alnum(value@[k]) || value@[k] == '_'),
        decreases value.len() - i,
    {
        if !(ascii_alnum(value[i]) || value[i] == '_') {
            return false;
        }
        i = i + 1;
    }
    true
}

pub fn is_environment_key(value: &str) -> (r: bool)
    ensures
        r == env_key_ok(value@),
{
    let v = chars_of(value);
    env_key_chars(&v)
}

/// Whether the final component of `path` is the name `expected`.
pub open spec fn is_program_spec(path: Seq<char>, expected: Seq<char>) -> bool {
    file_name(path) == Some(expected)
}

pub fn is_program(path: &str, expected: &str) -> (r: bool)
    ensures
        r == is_program_spec(path@, expected@),
{
    let p = chars_of(path);
    let e = chars_of(expected);
    match path_file_name(&p) {
        Some(name) => chars_eq(&name, &e),
        None => false,
    }
}

/// Index of the first `c` in `s`, or -1.
pub open spec fn first_index_of(s: Seq<char>, c: char) -> int
    decreases s.len(),
{
    if s.len() == 0 {
        -1
    } else if s[0] == c {
        0
    } else {
        let r = first_index_of(s.drop_first(), c);
        if r < 0 { -1 } else { r + 1 }
    }
}

/// `str::split_once(c)`.
pub open spec fn split_once(s: Seq<char>, c: char) -> Option<(Seq<char>, Seq<char>)> {
    let i = first_index_of(s, c);
    if i < 0 {
        None
    } else {
        Some((s.take(i), s.skip(i + 1)))
    }
}

pub fn first_index(s: &Vec<char>, c: char) -> (r: Option<usize>)
    ensures
        match r {
            Some(i) => i < s.len() && first_index_of(s@, c) == i && s@[i as int] == c,
            None => first_index_of(s@, c) == -1,
        },
{
    let mut i: usize = 0;
    assert(s@.skip(0) =~= s@);
    while i < s.len()
        invariant
            i <= s.len(),
            first_index_of(s@, c) == (if first_index_of(s@.skip(i as int), c) < 0 { -1 } else { first_index_of(s@.skip(i as int), c) + i }),
        decreases s.len() - i,
    {
        if s[i] == c {
            return Some(i);
        }
        assert(s@.skip(i as int).drop_first() =~= s@.skip(i + 1));
        i = i + 1;
    }
    None
}

pub fn split_once_chars(s: &Vec<char>, c: char) -> (r: Option<(Vec<char>, Vec<char>)>)
    ensures
        match r {
            Some(p) => split_once(s@, c) == Some((p.0@, p.1@)),
            None => split_once(s@, c) is None,
        },
{
    match first_index(s, c) {
        Some(i) => {
            let a = slice_chars(s, 0, i);
            let b = slice_chars(s, i + 1, s.len());
            assert(s@.take(i as int) =~= s@.subrange(0, i as int));
            assert(s@.skip(i + 1) =~= s@.subrange(i + 1, s.len() as int));
            Some((a, b))
        },
        None => None,
    }
}

/// A token `KEY=VALUE` with a valid key.
pub open spec fn is_env_assignment(t: Seq<char>) -> bool {
    match split_once(t, '=') {
        Some((k, _)) => env_key_ok(k),
        None => false,
    }
}

/// How many tokens at the start of `t` are environment assignments.
pub open spec fn env_run(t: Seq<Seq<char>>) -> nat
    decreases t.len(),
{
    if t.len() > 0 && is_env_assignment(t[0]) {
        1 + env_run(t.drop_first())
    } else {
        0
    }
}

/// The tokens of an `Exec` value that are kept: non-empty, without a `%`
/// field code.
pub open spec fn kept_tokens(value: Seq<char>) -> Seq<Seq<char>> {
    tokenize(value).filter(kept_token())
}

/// A token is kept when it is not empty and holds no `%`.
pub open spec fn kept_token() -> spec_fn(Seq<char>) -> bool {
    |t: Seq<char>| t.len() > 0 && !t.contains('%')
}

/// The command of an `Exec` value: after the kept tokens, an optional `env`
/// program followed by `KEY=VALUE` assignments, then the program and its
/// arguments.
pub open spec fn parse_exec_spec(value: Seq<char>) -> Option<CommandView> {
    let tokens = kept_tokens(value);
    if tokens.len() == 0 {
        None
    } else {
        let start: int = if is_program_spec(tokens[0], seq!['e', 'n', 'v']) { 1 } else { 0 };
        let idx: int = if start == 1 { 1 + env_run(tokens.skip(1)) as int } else { 0 };
        if idx >= tokens.len() {
            None
        } else {
            Some(CommandView {
                program: tokens[idx],
                args: tokens.skip(idx + 1),
                env: tokens.subrange(start, idx).map_values(|t: Seq<char>| split_once(t, '=')->0),
            })
        }
    }
}

proof fn lemma_env_run_bound(t: Seq<Seq<char>>)
    ensures
        env_run(t) <= t.len(),
        forall|k: int| 0 <= k < env_run(t) ==> is_env_assignment(#[trigger] t[k]),
    decreases t.len(),
{
    if t.len() > 0 && is_env_assignment(t[0]) {
        lemma_env_run_bound(t.drop_first());
        assert forall|k: int| 0 <= k < env_run(t) implies is_env_assignment(#[trigger] t[k]) by {
            if k > 0 {
                assert(t[k] == t.drop_first()[k - 1]);
            }
        }
    }
}

pub fn parse_exec(value: &str) -> (r: Option<CommandSpec>)
    ensures
        match r {
            Some(c) => parse_exec_spec(value@) == Some(c@),
            None => parse_exec_spec(value@) is None,
        },
{
    let all = tokenize_exec(value);
    let ghost tv = tokenize(value@);
    let mut tokens: Vec<String> = Vec::new();
    let mut k: usize = 0;
    while k < all.len()
        invariant
            k <= all.len(),
            string_views(all@) == tv,
            string_views(tokens@) == tv.take(k as int).filter(|t: Seq<char>| t.len() > 0 && !t.contains('%')),
        decreases all.len() - k,
    {
        let t = chars_of(all[k].as_str());
        assert(tv.take(k + 1).drop_last() =~= tv.take(k as int));
        reveal(Seq::filter);
        if t.len() > 0 && !crate::text::contains_char(&t, '%') {
            let ghost before = string_views(tokens@);
            tokens.push(all[k].clone());
            assert(string_views(tokens@) =~= before.push(tv[k as int]));
        }
        k = k + 1;
    }
    assert(tv.take(all.len() as int) =~= tv);
    let ghost kt = kept_tokens(value@);
    assert(string_views(tokens@) == kt);
    if tokens.len() == 0 {
        return None;
    }
    let first = tokens[0].as_str();
    let start: usize = if is_program(first, "env") {
        proof {
            reveal_strlit("env");
            assert("env"@ =~= seq!['e', 'n', 'v']);
        }
        1
    } else {
        proof {
            reveal_strlit("env");
            assert("env"@ =~= seq!['e', 'n', 'v']);
        }
        0
    };
    let mut index: usize = start;
    let mut env: Vec<(String, String)> = Vec::new();
    if start == 1 {
        proof {
            lemma_env_run_bound(kt.skip(1));
        }
        let mut stop = false;
        while index < tokens.len() && !stop
            invariant
                start == 1,
                stop ==> index < tokens.len() && env_run(kt.skip(index as int)) == 0,
                1 <= index <= tokens.len(),
                string_views(tokens@) == kt,
                kt.len() == tokens.len(),
                env_run(kt.skip(1)) == (index - 1) + env_run(kt.skip(index as int)),
                pair_views(env@) == kt.subrange(1, index as int).map_values(|t: Seq<char>| split_once(t, '=')->0),
            decreases tokens.len() - index + (if stop { 0int } else { 1int }),
        {
            let tok = chars_of(tokens[index].as_str());
            assert(kt.skip(index as int)[0] == kt[index as int]);
            assert(kt.skip(index as int).drop_first() =~= kt.skip(index + 1));
            match split_once_chars(&tok, '=') {
                None => {
                    stop = true;
                },
                Some(pair) => {
                    if !env_key_chars(&pair.0) {
                        stop = true;
                    } else {
                    let key = string_from_chars(&pair.0);
                    let val = string_from_chars(&pair.1);
                    let ghost before = pair_views(env@);
                    env.push((key, val));
                    assert(pair_views(env@) =~= before.push((pair.0@, pair.1@)));
                    assert(kt.subrange(1, index + 1) =~= kt.subrange(1, index as int).push(kt[index as int]));
                    assert(kt.subrange(1, index + 1).map_values(|t: Seq<char>| split_once(t, '=')->0)
                        =~= kt.subrange(1, index as int).map_values(|t: Seq<char>| split_once(t, '=')->0).push(split_once(kt[index as int], '=')->0));
                    index = index + 1;
                    }
                },
            }
        }
    } else {
        assert(kt.subrange(0, 0).map_values(|t: Seq<char>| split_once(t, '=')->0) =~= pair_views(env@));
    }
    assert(index == (if start == 1 { 1 + env_run(kt.skip(1)) } else { 0 })) by {
        if start == 1 && index < tokens.len() {
            assert(kt.skip(index as int)[0] == kt[index as int]);
        }
        if index == tokens.len() {
            assert(kt.skip(index as int).len() == 0);
        }
    }
    if index >= tokens.len() {
        return None;
    }
    let program = tokens[index].clone();
    let mut args: Vec<String> = Vec::new();
    let mut j: usize = index + 1;
    while j < tokens.len()
        invariant
            index < j <= tokens.len(),
            string_views(tokens@) == kt,
            string_views(args@) == kt.subrange(index + 1, j as int),
        decreases tokens.len() - j,
    {
        let ghost before = string_views(args@);
        let t = tokens[j].clone();
        args.push(t);
        assert(string_views(args@) =~= before.push(kt[j as int]));
        j = j + 1;
        assert(string_views(args@) =~= kt.subrange(index + 1, j as int));
    }
    assert(kt.skip(index + 1) =~= kt.subrange(index + 1, tokens.len() as int));
    let r = CommandSpec { program, args, env };
    assert(r@ == parse_exec_spec(value@)->0);
    Some(r)
}


/// The display width that `unicode-width` gives a character on its own
/// (`None` for control characters).
pub uninterp spec fn unicode_width(c: char) -> Option<usize>;

/// `unicode_width::UnicodeWidthChar::width`. Its source returns `None` below
/// U+0020 and from U+007F to U+009F, `Some(1)` from U+0020 to U+007E, and
/// above that a width read from its tables as a `u8`; what those tables hold
/// is left to the name `unicode_width`.
#[verifier::external_body]
fn unicode_char_width(c: char) -> (r: Option<usize>)
    ensures
        r == unicode_width(c),
        (c as u32) < 0x20 ==> r is None,
        0x20 <= (c as u32) < 0x7f ==> r == Some(1usize),
        0x7f <= (c as u32) < 0xa0 ==> r is None,
        0xa0 <= (c as u32) ==> (r is Some && r->0 <= 255),
{
    unicode_width::UnicodeWidthChar::width(c)
}

/// Width of one character in a terminal: its Unicode width (1 for printable
/// ASCII), 0 for control characters.
pub open spec fn cw(c: char) -> nat {
    if 0x20 <= (c as u32) < 0x7f {
        1
    } else {
        match unicode_width(c) {
            Some(w) => w as nat,
            None => 0,
        }
    }
}

pub fn char_width(ch: char) -> (w: usize)
    ensures
        w == cw(ch),
        w <= 255,
{
    match unicode_char_width(ch) {
        Some(w) => w,
        None => 0,
    }
}

pub open spec fn esc() -> char {
    '\u{1b}'
}

/// Whether an ANSI control sequence (`ESC [`) starts at `i`.
pub open spec fn csi_at(s: Seq<char>, i: int) -> bool {
    0 <= i && i + 1 < s.len() && s[i] == esc() && s[i + 1] == '['
}

/// The index just past the first ASCII letter at or after `j` (the final byte
/// of a control sequence), or the end of `s`.
pub open spec fn csi_end(s: Seq<char>, j: int) -> int
    decreases s.len() - j,
{
    if j >= s.len() {
        s.len() as int
    } else if is_ascii_alpha(s[j]) {
        j + 1
    } else {
        csi_end(s, j + 1)
    }
}

pub proof fn lemma_csi_end(s: Seq<char>, j: int)
    requires
        0 <= j,
    ensures
        j < csi_end(s, j) <= s.len() || (j >= s.len() && csi_end(s, j) == s.len()),
    decreases s.len() - j,
{
    if j < s.len() && !is_ascii_alpha(s[j]) {
        lemma_csi_end(s, j + 1);
    }
}

pub fn skip_csi(s: &Vec<char>, j: usize) -> (k: usize)
    requires
        j <= s.len(),
    ensures
        k == csi_end(s@, j as int),
        j <= k <= s.len(),
{
    let mut k = j;
    while k < s.len() && !ascii_alpha(s[k])
        invariant
            j <= k <= s.len(),
            csi_end(s@, j as int) == csi_end(s@, k as int),
        decreases s.len() - k,
    {
        k = k + 1;
    }
    if k < s.len() {
        k + 1
    } else {
        k
    }
}

/// Display width of `s[i..]`, with ANSI control sequences taking no room.
pub open spec fn width_from(s: Seq<char>, i: int) -> nat
    decreases s.len() - i,
{
    if i < 0 || i >= s.len() {
        0
    } else if csi_at(s, i) {
        proof { lemma_csi_end(s, i + 2); }
        width_from(s, csi_end(s, i + 2))
    } else {
        cw(s[i]) + width_from(s, i + 1)
    }
}

/// Display width of a line of terminal text.
pub open spec fn vis_width(s: Seq<char>) -> nat {
    width_from(s, 0)
}

pub fn visible_width_chars(s: &Vec<char>) -> (w: usize)
    requires
        vis_width(s@) <= usize::MAX,
    ensures
        w == vis_width(s@),
{
    let mut w: usize = 0;
    let mut i: usize = 0;
    while i < s.len()
        invariant
            i <= s.len(),
            vis_width(s@) == w + width_from(s@, i as int),
            vis_width(s@) <= usize::MAX,
        decreases s.len() - i,
    {
        if i + 1 < s.len() && s[i] == '\u{1b}' && s[i + 1] == '[' {
            proof { lemma_csi_end(s@, i + 2); }
            i = skip_csi(s, i + 2);
        } else {
            let c = char_width(s[i]);
            w = w + c;
            i = i + 1;
        }
    }
    w
}

pub fn visible_width(text: &str) -> (w: usize)
    requires
        vis_width(text@) <= usize::MAX,
    ensures
        w == vis_width(text@),
{
    let s = chars_of(text);
    visible_width_chars(&s)
}

/// The display width of `s`, or `usize::MAX` when it is wider.
pub fn visible_width_saturating(s: &Vec<char>) -> (w: usize)
    ensures
        w as int == if vis_width(s@) <= usize::MAX { vis_width(s@) as int } else { usize::MAX as int },
{
    let mut w: usize = 0;
    let mut i: usize = 0;
    let ghost mut p: nat = 0;
    while i < s.len()
        invariant
            i <= s.len(),
            vis_width(s@) == p + width_from(s@, i as int),
            w as int == if p <= usize::MAX { p as int } else { usize::MAX as int },
        decreases s.len() - i,
    {
        if i + 1 < s.len() && s[i] == '\u{1b}' && s[i + 1] == '[' {
            proof { lemma_csi_end(s@, i + 2); }
            i = skip_csi(s, i + 2);
        } else {
            let c = char_width(s[i]);
            proof { p = p + c as nat; }
            w = w.saturating_add(c);
            i = i + 1;
        }
    }
    w
}

/// Whether `s` takes at most `max` columns.
pub fn width_at_most(s: &Vec<char>, max: usize) -> (r: bool)
    ensures
        r == (vis_width(s@) <= max),
{
    let mut w: usize = 0;
    let mut i: usize = 0;
    while i < s.len()
        invariant
            i <= s.len(),
            w <= max,
            vis_width(s@) == w + width_from(s@, i as int),
        decreases s.len() - i,
    {
        if i + 1 < s.len() && s[i] == '\u{1b}' && s[i + 1] == '[' {
            proof { lemma_csi_end(s@, i + 2); }
            i = skip_csi(s, i + 2);
        } else {
            let c = char_width(s[i]);
            if c > max - w {
                return false;
            }
            w = w + c;
            i = i + 1;
        }
    }
    true
}

/// Field codes such as `%U` and empty tokens never reach a command: its
/// program and each of its arguments are non-empty and hold no `%`.
pub proof fn law_exec_drops_field_codes(value: Seq<char>)
    ensures
        parse_exec_spec(value) matches Some(c) ==> {
            &&& c.program.len() > 0
            &&& !c.program.contains('%')
            &&& forall|i: int| 0 <= i < c.args.len() ==> (#[trigger] c.args[i]).len() > 0 && !c.args[i].contains('%')
        },
{
    let tokens = kept_tokens(value);
    assert forall|j: int| 0 <= j < tokens.len() implies (#[trigger] tokens[j]).len() > 0 && !tokens[j].contains('%') by {
        tokenize(value).lemma_filter_pred(kept_token(), j);
    }
    if let Some(c) = parse_exec_spec(value) {
        let start: int = if is_program_spec(tokens[0], seq!['e', 'n', 'v']) { 1 } else { 0 };
        let idx: int = if start == 1 { 1 + env_run(tokens.skip(1)) as int } else { 0 };
        assert(c.program == tokens[idx]);
        assert forall|i: int| 0 <= i < c.args.len() implies (#[trigger] c.args[i]).len() > 0 && !c.args[i].contains('%') by {
            assert(c.args[i] == tokens[idx + 1 + i]);
        }
    }
}

/// The sum of the character widths of `s[i..j]`.
pub open spec fn cw_range(s: Seq<char>, i: int, j: int) -> nat
    decreases j - i,
{
    if i >= j {
        0
    } else {
        cw(s[i]) + cw_range(s, i + 1, j)
    }
}

/// `cw_range` splits at any point in between.
pub proof fn lemma_cw_range_split(s: Seq<char>, i: int, m: int, j: int)
    requires
        i <= m <= j,
    ensures
        cw_range(s, i, j) == cw_range(s, i, m) + cw_range(s, m, j),
    decreases m - i,
{
    if i < m {
        lemma_cw_range_split(s, i + 1, m, j);
    }
}

/// `cw_range` only depends on the characters in the range.
pub proof fn lemma_cw_range_shift(s: Seq<char>, t: Seq<char>, off: int, i: int, j: int)
    requires
        forall|k: int| i <= k < j ==> #[trigger] s[k] == t[k + off],
    ensures
        cw_range(s, i, j) == cw_range(t, i + off, j + off),
    decreases j - i,
{
    if i < j {
        lemma_cw_range_shift(s, t, off, i + 1, j);
    }
}

/// The display width of `s[i..]` is at most the sum of its character
/// widths: control sequences only take room away.
pub proof fn lemma_width_le_cw(s: Seq<char>, i: int)
    requires
        0 <= i,
    ensures
        width_from(s, i) <= cw_range(s, i, s.len() as int),
    decreases s.len() - i,
{
    if i < s.len() {
        if csi_at(s, i) {
            lemma_csi_end(s, i + 2);
            let e = csi_end(s, i + 2);
            lemma_width_le_cw(s, e);
            lemma_cw_range_split(s, i, e, s.len() as int);
        } else {
            lemma_width_le_cw(s, i + 1);
        }
    }
}

/// What a command printed, as the program reads it: trimmed, and nothing
/// when that leaves no text.
pub open spec fn command_text_spec(stdout: Seq<char>) -> Option<Seq<char>> {
    if trim(stdout).len() > 0 {
        Some(trim(stdout))
    } else {
        None
    }
}

pub fn command_text(stdout: &str) -> (r: Option<String>)
    ensures
        match r {
            Some(t) => command_text_spec(stdout@) == Some(t@),
            None => command_text_spec(stdout@) is None,
        },
{
    let t = trim_chars(&chars_of(stdout));
    if t.len() > 0 {
        Some(string_from_chars(&t))
    } else {
        None
    }
}

/// `s` cut at every whitespace character (the pieces between, empty ones
/// included).
pub open spec fn split_ws(s: Seq<char>) -> Seq<Seq<char>>
    decreases s.len(),
{
    if s.len() == 0 {
        seq![Seq::<char>::empty()]
    } else {
        let prev = split_ws(s.drop_last());
        if is_ws(s.last()) {
            prev.push(Seq::<char>::empty())
        } else {
            prev.update(prev.len() - 1, prev.last().push(s.last()))
        }
    }
}

pub open spec fn nonempty_word() -> spec_fn(Seq<char>) -> bool {
    |w: Seq<char>| w.len() > 0
}

/// `str::split_whitespace`: the non-empty pieces between whitespace.
pub open spec fn words(s: Seq<char>) -> Seq<Seq<char>> {
    split_ws(s).filter(nonempty_word())
}

/// Neither a quote nor a backslash occurs in `s`.
pub open spec fn plain_value(s: Seq<char>) -> bool {
    forall|i: int| 0 <= i < s.len() ==> #[trigger] s[i] != '\'' && s[i] != '"' && s[i] != '\\'
}

proof fn lemma_tok_run_plain(s: Seq<char>)
    requires
        plain_value(s),
    ensures
        split_ws(s).len() >= 1,
        tok_run(s) == (split_ws(s).drop_last().filter(nonempty_word()), split_ws(s).last(), None::<char>, false),
    decreases s.len(),
{
    reveal(Seq::filter);
    if s.len() > 0 {
        let q = s.drop_last();
        assert forall|i: int| 0 <= i < q.len() implies #[trigger] q[i] != '\'' && q[i] != '"' && q[i] != '\\' by {
            assert(q[i] == s[i]);
        }
        lemma_tok_run_plain(q);
        let p = split_ws(q);
        let c = s.last();
        assert(c == s[s.len() - 1]);
        if is_ws(c) {
            assert(p.push(Seq::<char>::empty()).drop_last() =~= p);
            assert(p =~= p.drop_last().push(p.last()));
            lemma_filter_push(p.drop_last(), p.last(), nonempty_word());
        } else {
            let p2 = p.update(p.len() - 1, p.last().push(c));
            assert(p2.drop_last() =~= p.drop_last());
        }
    } else {
        assert(seq![Seq::<char>::empty()].drop_last() =~= Seq::<Seq<char>>::empty());
    }
}

/// On a value without quotes or backslashes, the tokens are exactly its
/// whitespace-separated words.
pub proof fn law_plain_tokens_are_words(s: Seq<char>)
    requires
        plain_value(s),
    ensures
        tokenize(s) == words(s),
{
    lemma_tok_run_plain(s);
    let p = split_ws(s);
    assert(p =~= p.drop_last().push(p.last()));
    lemma_filter_push(p.drop_last(), p.last(), nonempty_word());
}

/// `s` holds no whitespace, quote or backslash.
pub open spec fn bare_text(s: Seq<char>) -> bool {
    forall|i: int| 0 <= i < s.len() ==> !is_ws(#[trigger] s[i]) && s[i] != '\'' && s[i] != '"' && s[i] != '\\'
}

proof fn lemma_tok_run_bare(s: Seq<char>)
    requires
        bare_text(s),
    ensures
        tok_run(s) == (Seq::<Seq<char>>::empty(), s, None::<char>, false),
    decreases s.len(),
{
    if s.len() > 0 {
        let q = s.drop_last();
        assert forall|i: int| 0 <= i < q.len() implies !is_ws(#[trigger] q[i]) && q[i] != '\'' && q[i] != '"' && q[i] != '\\' by {
            assert(q[i] == s[i]);
        }
        lemma_tok_run_bare(q);
        assert(s.last() == s[s.len() - 1]);
        assert(q.push(s.last()) =~= s);
    }
}

proof fn lemma_tok_run_quoted(k: Seq<char>, q: char, v: Seq<char>, j: int)
    requires
        bare_text(k),
        bare_text(v),
        q == '"' || q == '\'',
        0 <= j <= v.len(),
    ensures
        tok_run(k.push(q) + v.take(j)) == (Seq::<Seq<char>>::empty(), k + v.take(j), Some(q), false),
    decreases j,
{
    if j == 0 {
        lemma_tok_run_bare(k);
        assert(k.push(q) + v.take(0) =~= k.push(q));
        assert(k.push(q).drop_last() =~= k);
        assert(k + v.take(0) =~= k);
    } else {
        lemma_tok_run_quoted(k, q, v, j - 1);
        let s = k.push(q) + v.take(j);
        assert(s.drop_last() =~= k.push(q) + v.take(j - 1));
        assert(s.last() == v[j - 1]);
        assert(v.take(j) =~= v.take(j - 1).push(v[j - 1]));
        assert(k + v.take(j) =~= (k + v.take(j - 1)).push(v[j - 1]));
    }
}

/// Quotes only group characters, they never split a token: a word followed
/// by a quoted word, with no whitespace, quote or backslash in either, is
/// one token made of both, without the quotes (`GTK_THEME="Adwaita:dark"`
/// gives `GTK_THEME=Adwaita:dark`).
pub proof fn law_quotes_join_a_token(k: Seq<char>, q: char, v: Seq<char>)
    requires
        bare_text(k),
        bare_text(v),
        q == '"' || q == '\'',
        k.len() + v.len() > 0,
    ensures
        tokenize(k.push(q) + v.push(q)) == seq![k + v],
{
    lemma_tok_run_quoted(k, q, v, v.len() as int);
    let s = k.push(q) + v.push(q);
    assert(v.take(v.len() as int) =~= v);
    assert(s.drop_last() =~= k.push(q) + v.take(v.len() as int));
    assert(s.last() == q);
    assert(seq![k + v] =~= Seq::<Seq<char>>::empty().push(k + v));
}

} // verus!
