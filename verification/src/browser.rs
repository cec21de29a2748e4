//! Browsers: engines, desktop entries, selectors, and the list of installed
//! browsers.
use vstd::prelude::*;
use crate::sort::{key_is, lemma_dedup_elem, lemma_dedup_keeps_keys, lemma_filter_elem, lemma_sorted_distinct_keys, with_key, law_dedup_no_adjacent_repeats, lemma_dedup_sorted, lemma_pair_lt_total_order, total_order, chars_less, lemma_chars_lt_strict, lemma_pair_lt_strict, pair_lt, dedup_by, dedup_by_key, lemma_dedup_map, lemma_filter_push, lemma_sorted_map, sort_by_key, sorted_by, stable_perm, strict};
use crate::text::eq_ignore_ascii_case;
use crate::text::{eq_ignore_case, item_at, lemma_item_in_split, lemma_split_item};
use crate::extensions::{lemma_text_order_total_order, opt_view, text_order, Extension, Profile, ProfileBackend};
use crate::path::{comp_views, components, extension, file_name, join, path_components, path_extension, path_file_name, path_join};
use crate::util::{pair_views, string_views, parse_exec, parse_exec_spec, CommandSpec, CommandView};
use crate::text::{
    ascii_alnum, ascii_lower, ascii_lower_char, ascii_lowercase, chars_eq, chars_of, ends_with, has_prefix, has_suffix,
    is_ascii_alnum, lines, lines_of, lower_char, slice_chars, split, split_chars, starts_with,
    string_from_chars, trim, trim_chars, trim_start, trim_start_chars, views, char_upper, join_space, join_words,
    to_uppercase_char, append_chars,
};

verus! {

/// A browser engine.
#[derive(Debug, Clone, Copy, PartialEq, Eq)]
pub enum Engine {
    Gecko,
    Blink,
    WebKitGtk,
    Servo,
}

/// The 256-colour palette index used for an engine.
pub open spec fn engine_color(e: Engine) -> Seq<char> {
    match e {
        Engine::Gecko => "208"@,
        Engine::Blink => "33"@,
        Engine::WebKitGtk => "39"@,
        Engine::Servo => "201"@,
    }
}

/// The display name of an engine.
pub open spec fn engine_name(e: Engine) -> Seq<char> {
    match e {
        Engine::Gecko => "Gecko"@,
        Engine::Blink => "Blink"@,
        Engine::WebKitGtk => "WebKitGTK"@,
        Engine::Servo => "Servo"@,
    }
}

impl Engine {
    pub fn color(self) -> (r: &'static str)
        ensures
            r@ == engine_color(self),
    {
        match self {
            Engine::Gecko => "208",
            Engine::Blink => "33",
            Engine::WebKitGtk => "39",
            Engine::Servo => "201",
        }
    }

    /// The text that the engine displays as.
    pub fn name(self) -> (r: &'static str)
        ensures
            r@ == engine_name(self),
    {
        match self {
            Engine::Gecko => "Gecko",
            Engine::Blink => "Blink",
            Engine::WebKitGtk => "WebKitGTK",
            Engine::Servo => "Servo",
        }
    }
}

/// Servo reports a version starting with `Servo `; other engines are not
/// recognised from the version text.
pub open spec fn engine_from_version_spec(version: Seq<char>) -> Option<Engine> {
    if crate::text::starts_with(version, "Servo "@) {
        Some(Engine::Servo)
    } else {
        None
    }
}

pub fn engine_from_version(version: &str) -> (r: Option<Engine>)
    ensures
        r == engine_from_version_spec(version@),
{
    let v = chars_of(version);
    let p = chars_of("Servo ");
    if has_prefix(&v, &p) {
        Some(Engine::Servo)
    } else {
        None
    }
}


/// A `.desktop` file: its file name as id, and the keys the browser list reads.
#[derive(Debug)]
pub struct DesktopEntry {
    pub id: String,
    pub name: Option<String>,
    pub command: Option<CommandSpec>,
    pub icon: Option<String>,
    pub categories: Option<String>,
}

/// The first value of `key` among `ls`: the rest of the first line, not a
/// comment, that starts with `key=`, trimmed.
pub open spec fn find_value(ls: Seq<Seq<char>>, key: Seq<char>) -> Option<Seq<char>>
    decreases ls.len(),
{
    if ls.len() == 0 {
        None
    } else if !starts_with(trim_start(ls[0]), "#"@) && starts_with(ls[0], key + seq!['=']) {
        Some(trim(ls[0].skip(key.len() as int + 1)))
    } else {
        find_value(ls.drop_first(), key)
    }
}

pub open spec fn desktop_value_spec(data: Seq<char>, key: Seq<char>) -> Option<Seq<char>> {
    find_value(lines(data), key)
}

pub fn desktop_value(data: &str, key: &str) -> (r: Option<String>)
    ensures
        match r {
            Some(v) => desktop_value_spec(data@, key@) == Some(v@),
            None => desktop_value_spec(data@, key@) is None,
        },
{
    let d = chars_of(data);
    let ls = lines_of(&d);
    let ghost lv = views(ls@);
    let mut prefix = chars_of(key);
    prefix.push('=');
    let hash = chars_of("#");
    let mut i: usize = 0;
    assert(lv.skip(0) =~= lv);
    while i < ls.len()
        invariant
            i <= ls.len(),
            lv == views(ls@),
            lv == lines(data@),
            prefix@ == key@ + seq!['='],
            hash@ == "#"@,
            desktop_value_spec(data@, key@) == find_value(lv.skip(i as int), key@),
        decreases ls.len() - i,
    {
        let line = &ls[i];
        assert(lv.skip(i as int)[0] == line@);
        assert(lv.skip(i as int).drop_first() =~= lv.skip(i + 1));
        let t = trim_start_chars(line);
        if !has_prefix(&t, &hash) && has_prefix(line, &prefix) {
            let rest = slice_chars(line, prefix.len(), line.len());
            assert(rest@ =~= line@.skip(key@.len() as int + 1));
            let v = trim_chars(&rest);
            return Some(string_from_chars(&v));
        }
        i = i + 1;
    }
    None
}

/// The value of a `DesktopEntry`.
pub struct DesktopEntryView {
    pub id: Seq<char>,
    pub name: Option<Seq<char>>,
    pub command: Option<CommandView>,
    pub icon: Option<Seq<char>>,
    pub categories: Option<Seq<char>>,
}

impl View for DesktopEntry {
    type V = DesktopEntryView;

    open spec fn view(&self) -> DesktopEntryView {
        DesktopEntryView {
            id: self.id@,
            name: opt_view(self.name),
            command: match self.command {
                Some(c) => Some(c@),
                None => None,
            },
            icon: opt_view(self.icon),
            categories: opt_view(self.categories),
        }
    }
}

/// The entry a desktop file with name `id` and text `data` describes.
pub open spec fn parse_desktop_entry_spec(id: Seq<char>, data: Seq<char>) -> DesktopEntryView {
    DesktopEntryView {
        id,
        name: desktop_value_spec(data, "Name"@),
        command: match desktop_value_spec(data, "Exec"@) {
            Some(v) => parse_exec_spec(v),
            None => None,
        },
        icon: desktop_value_spec(data, "Icon"@),
        categories: desktop_value_spec(data, "Categories"@),
    }
}

pub fn parse_desktop_entry(id: &str, data: &str) -> (r: DesktopEntry)
    ensures
        r@ == parse_desktop_entry_spec(id@, data@),
{
    let exec = match desktop_value(data, "Exec") {
        Some(v) => parse_exec(v.as_str()),
        None => None,
    };
    DesktopEntry {
        id: string_from_chars(&chars_of(id)),
        name: desktop_value(data, "Name"),
        command: exec,
        icon: desktop_value(data, "Icon"),
        categories: desktop_value(data, "Categories"),
    }
}

/// ASCII letters and digits, as a predicate.
pub open spec fn alnum() -> spec_fn(char) -> bool {
    |c: char| is_ascii_alnum(c)
}

/// The key a name is matched by: trimmed, without a `.desktop` suffix, only
/// its ASCII letters and digits, lowercased.
pub open spec fn selector_key_spec(value: Seq<char>) -> Seq<char> {
    let t = trim(value);
    let base = if ends_with(t, ".desktop"@) { t.take(t.len() - ".desktop"@.len()) } else { t };
    ascii_lower(base.filter(alnum()))
}

pub fn selector_key(value: &str) -> (r: String)
    ensures
        r@ == selector_key_spec(value@),
{
    let v = chars_of(value);
    let t = trim_chars(&v);
    let suffix = chars_of(".desktop");
    let base = if has_suffix(&t, &suffix) {
        assert(t@.subrange(0, t.len() - suffix.len()) =~= t@.take(t.len() - suffix.len()));
        slice_chars(&t, 0, t.len() - suffix.len())
    } else {
        assert(t@.subrange(0, t.len() as int) =~= t@);
        slice_chars(&t, 0, t.len())
    };
    let mut out: Vec<char> = Vec::new();
    let mut i: usize = 0;
    reveal(Seq::filter);
    assert(base@.take(0).filter(alnum()) =~= Seq::<char>::empty());
    while i < base.len()
        invariant
            i <= base.len(),
            out@ == ascii_lower(base@.take(i as int).filter(alnum())),
        decreases base.len() - i,
    {
        let c = base[i];
        assert(base@.take(i + 1).drop_last() =~= base@.take(i as int));
        let ghost f = base@.take(i as int).filter(alnum());
        assert(base@.take(i + 1) =~= base@.take(i as int).push(c));
        proof {
            lemma_filter_push(base@.take(i as int), c, alnum());
        }
        if ascii_alnum(c) {
            out.push(ascii_lower_char(c));
            assert(ascii_lower(f.push(c)) =~= ascii_lower(f).push(lower_char(c)));
        }
        i = i + 1;
    }
    assert(base@.take(base.len() as int) =~= base@);
    string_from_chars(&out)
}

/// The names an entry is matched by: its id, name, program and icon.
pub open spec fn entry_names(e: DesktopEntryView) -> Seq<Seq<char>> {
    seq![e.id]
        + (match e.name { Some(n) => seq![n], None => Seq::<Seq<char>>::empty() })
        + (match e.command { Some(c) => seq![c.program], None => Seq::<Seq<char>>::empty() })
        + (match e.icon { Some(i) => seq![i], None => Seq::<Seq<char>>::empty() })
}

/// Whether a selector picks an entry: its key is not empty, and one of the
/// entry's names has a key that ends with it.
pub open spec fn matches_selector_spec(e: DesktopEntryView, selector: Seq<char>) -> bool {
    let s = selector_key_spec(selector);
    s.len() > 0 && exists|i: int| 0 <= i < entry_names(e).len() && ends_with(#[trigger] selector_key_spec(entry_names(e)[i]), s)
}

/// Whether the entry lists `WebBrowser` among its `;`-separated categories.
pub open spec fn is_browser_spec(e: DesktopEntryView) -> bool {
    match e.categories {
        Some(c) => split(c, ';').contains("WebBrowser"@),
        None => false,
    }
}

fn name_matches(name: &str, key: &Vec<char>) -> (r: bool)
    ensures
        r == ends_with(selector_key_spec(name@), key@),
{
    let k = selector_key(name);
    let kc = chars_of(k.as_str());
    has_suffix(&kc, key)
}

impl DesktopEntry {
    pub fn matches_selector(&self, selector: &str) -> (r: bool)
        ensures
            r == matches_selector_spec(self@, selector@),
    {
        let sk = selector_key(selector);
        let s = chars_of(sk.as_str());
        if s.len() == 0 {
            return false;
        }
        let ghost names = entry_names(self@);
        let ghost n_name: int = if self.name.is_some() { 1 } else { 0 };
        let ghost n_exec: int = if self.command.is_some() { 1 } else { 0 };
        if name_matches(self.id.as_str(), &s) {
            assert(names[0] == self.id@);
            return true;
        }
        let m_name = match &self.name {
            Some(n) => {
                let r = name_matches(n.as_str(), &s);
                assert(names[1] == n@);
                r
            },
            None => false,
        };
        if m_name {
            return true;
        }
        let m_exec = match &self.command {
            Some(c) => {
                let r = name_matches(c.program.as_str(), &s);
                assert(names[1 + n_name] == c.program@);
                r
            },
            None => false,
        };
        if m_exec {
            return true;
        }
        let m_icon = match &self.icon {
            Some(ic) => {
                let r = name_matches(ic.as_str(), &s);
                assert(names[1 + n_name + n_exec] == ic@);
                r
            },
            None => false,
        };
        if m_icon {
            return true;
        }
        assert forall|i: int| 0 <= i < names.len() implies !ends_with(#[trigger] selector_key_spec(names[i]), s@) by {
            if i == 0 {
                assert(names[0] == self.id@);
            } else if i == 1 && n_name == 1 {
                assert(names[1] == self.name->0@);
            } else if i == 1 + n_name && n_exec == 1 {
                assert(names[i] == self.command->0.program@);
            } else {
                assert(names[i] == self.icon->0@);
            }
        }
        false
    }

    pub fn is_browser(&self) -> (r: bool)
        ensures
            r == is_browser_spec(self@),
    {
        match &self.categories {
            Some(c) => {
                let cc = chars_of(c.as_str());
                let parts = split_chars(&cc, ';');
                let wb = chars_of("WebBrowser");
                let mut i: usize = 0;
                while i < parts.len()
                    invariant
                        i <= parts.len(),
                        views(parts@) == split(c@, ';'),
                        wb@ == "WebBrowser"@,
                        self@.categories == Some(c@),
                        forall|j: int| 0 <= j < i ==> views(parts@)[j] != wb@,
                    decreases parts.len() - i,
                {
                    if chars_eq(&parts[i], &wb) {
                        assert(views(parts@)[i as int] == wb@);
                        assert(split(c@, ';')[i as int] == "WebBrowser"@);
                        return true;
                    }
                    i = i + 1;
                }
                false
            },
            None => false,
        }
    }
}


/// `s` split at every `-` and `_`.
pub open spec fn name_parts(s: Seq<char>) -> Seq<Seq<char>>
    decreases s.len(),
{
    if s.len() == 0 {
        seq![Seq::<char>::empty()]
    } else {
        let prev = name_parts(s.drop_last());
        if s.last() == '-' || s.last() == '_' {
            prev.push(Seq::<char>::empty())
        } else {
            prev.update(prev.len() - 1, prev.last().push(s.last()))
        }
    }
}

/// A word with its first character in upper case.
pub open spec fn capitalize(w: Seq<char>) -> Seq<char> {
    if w.len() == 0 {
        w
    } else {
        char_upper(w[0]) + w.drop_first()
    }
}

pub open spec fn nonempty() -> spec_fn(Seq<char>) -> bool {
    |w: Seq<char>| w.len() > 0
}

/// The name shown for a browser found as a program: the words of its file
/// name (between `-` and `_`), capitalised, joined by spaces.
pub open spec fn command_display_name_spec(program: Seq<char>) -> Seq<char> {
    let raw = match file_name(program) {
        Some(n) => n,
        None => "browser"@,
    };
    join_space(name_parts(raw).filter(nonempty()).map_values(|w: Seq<char>| capitalize(w)))
}

pub fn command_display_name(program: &str) -> (r: String)
    ensures
        r@ == command_display_name_spec(program@),
{
    let p = chars_of(program);
    let raw = match path_file_name(&p) {
        Some(n) => n,
        None => chars_of("browser"),
    };
    let mut words: Vec<Vec<char>> = Vec::new();
    let mut cur: Vec<char> = Vec::new();
    let mut i: usize = 0;
    reveal(Seq::filter);
    assert(raw@.take(0) =~= Seq::<char>::empty());
    assert(name_parts(Seq::<char>::empty()).drop_last() =~= Seq::<Seq<char>>::empty());
    while i < raw.len()
        invariant
            i <= raw.len(),
            name_parts(raw@.take(i as int)).len() >= 1,
            cur@ == name_parts(raw@.take(i as int)).last(),
            views(words@) == name_parts(raw@.take(i as int)).drop_last().filter(nonempty()).map_values(|w: Seq<char>| capitalize(w)),
        decreases raw.len() - i,
    {
        let ghost prev = name_parts(raw@.take(i as int));
        assert(raw@.take(i + 1).drop_last() =~= raw@.take(i as int));
        assert(raw@.take(i + 1).last() == raw@[i as int]);
        let c = raw[i];
        if c == '-' || c == '_' {
            let ghost next = prev.push(Seq::<char>::empty());
            assert(next.drop_last() =~= prev);
            assert(prev =~= prev.drop_last().push(prev.last()));
            proof {
                lemma_filter_push(prev.drop_last(), prev.last(), nonempty());
            }
            if cur.len() > 0 {
                let mut w = to_uppercase_char(cur[0]);
                let rest = slice_chars(&cur, 1, cur.len());
                append_chars(&mut w, &rest);
                assert(w@ =~= capitalize(cur@));
                let ghost before = views(words@);
                let ghost f = prev.drop_last().filter(nonempty());
                words.push(w);
                assert(views(words@) =~= before.push(capitalize(cur@)));
                assert(f.push(cur@).map_values(|w: Seq<char>| capitalize(w)) =~= f.map_values(|w: Seq<char>| capitalize(w)).push(capitalize(cur@)));
            }
            cur = Vec::new();
        } else {
            let ghost next = prev.update(prev.len() - 1, prev.last().push(c));
            assert(next.drop_last() =~= prev.drop_last());
            cur.push(c);
        }
        i = i + 1;
    }
    assert(raw@.take(raw.len() as int) =~= raw@);
    let ghost parts = name_parts(raw@);
    assert(parts =~= parts.drop_last().push(parts.last()));
    proof {
        lemma_filter_push(parts.drop_last(), parts.last(), nonempty());
    }
    if cur.len() > 0 {
        let mut w = to_uppercase_char(cur[0]);
        let rest = slice_chars(&cur, 1, cur.len());
        append_chars(&mut w, &rest);
        assert(w@ =~= capitalize(cur@));
        let ghost before = views(words@);
        let ghost f = parts.drop_last().filter(nonempty());
        words.push(w);
        assert(views(words@) =~= before.push(capitalize(cur@)));
        assert(f.push(cur@).map_values(|w: Seq<char>| capitalize(w)) =~= f.map_values(|w: Seq<char>| capitalize(w)).push(capitalize(cur@)));
    }
    let joined = join_words(&words);
    string_from_chars(&joined)
}


/// Where a browser was found: its name, its command, and its icon name.
#[derive(Debug)]
pub struct BrowserSource {
    pub name: String,
    pub command: Option<CommandSpec>,
    pub icon_name: Option<String>,
}

/// The value of a `BrowserSource`.
pub struct SourceView {
    pub name: Seq<char>,
    pub command: Option<CommandView>,
    pub icon_name: Option<Seq<char>>,
}

impl View for BrowserSource {
    type V = SourceView;

    open spec fn view(&self) -> SourceView {
        SourceView {
            name: self.name@,
            command: match self.command {
                Some(c) => Some(c@),
                None => None,
            },
            icon_name: opt_view(self.icon_name),
        }
    }
}

/// A browser from its desktop entry: named by the entry's name, else its
/// program, else `Unknown browser`.
pub open spec fn from_entry_spec(entry: Option<DesktopEntryView>) -> SourceView {
    match entry {
        Some(e) => SourceView {
            name: match e.name {
                Some(n) => n,
                None => match e.command {
                    Some(c) => c.program,
                    None => "Unknown browser"@,
                },
            },
            command: e.command,
            icon_name: e.icon,
        },
        None => SourceView { name: "Unknown browser"@, command: None, icon_name: None },
    }
}

/// A browser from a program path: named from the program, run without
/// arguments, with no icon.
pub open spec fn from_command_spec(program: Seq<char>) -> SourceView {
    SourceView {
        name: command_display_name_spec(program),
        command: Some(CommandView {
            program,
            args: Seq::<Seq<char>>::empty(),
            env: Seq::<(Seq<char>, Seq<char>)>::empty(),
        }),
        icon_name: None,
    }
}

pub open spec fn opt_entry_view(e: Option<DesktopEntry>) -> Option<DesktopEntryView> {
    match e {
        Some(x) => Some(x@),
        None => None,
    }
}

/// A browser as its desktop entry (if any) describes it.
pub fn from_desktop_entry(entry: Option<DesktopEntry>) -> (r: BrowserSource)
    ensures
        r@ == from_entry_spec(opt_entry_view(entry)),
{
    match entry {
        Some(e) => {
            let name = match e.name {
                Some(n) => n,
                None => match &e.command {
                    Some(c) => string_from_chars(&chars_of(c.program.as_str())),
                    None => string_from_chars(&chars_of("Unknown browser")),
                },
            };
            BrowserSource { name, command: e.command, icon_name: e.icon }
        },
        None => BrowserSource {
            name: string_from_chars(&chars_of("Unknown browser")),
            command: None,
            icon_name: None,
        },
    }
}

/// A browser found as a program on the `PATH`.
pub fn from_command(program: &str) -> (r: BrowserSource)
    ensures
        r@ == from_command_spec(program@),
{
    let name = command_display_name(program);
    let command = CommandSpec {
        program: string_from_chars(&chars_of(program)),
        args: Vec::new(),
        env: Vec::new(),
    };
    let r = BrowserSource { name, command: Some(command), icon_name: None };
    assert(r@.command == from_command_spec(program@).command) by {
        assert(crate::util::string_views(command.args@) =~= Seq::<Seq<char>>::empty());
        assert(crate::util::pair_views(command.env@) =~= Seq::<(Seq<char>, Seq<char>)>::empty());
    }
    r
}

/// Everything shown about a browser.
#[derive(Debug)]
pub struct Browser {
    pub name: String,
    pub engine: Option<Engine>,
    pub color: &'static str,
    pub icon: Option<String>,
    pub version: Option<String>,
    pub profile_backend: Option<ProfileBackend>,
    pub active_profile: Option<Profile>,
    pub extensions: Vec<Extension>,
}

/// The engine: the profile backend's, else the one the version text reveals.
pub open spec fn browser_engine(backend: Option<ProfileBackend>, version: Option<Seq<char>>) -> Option<Engine> {
    match backend {
        Some(ProfileBackend::Firefox(_)) => Some(Engine::Gecko),
        Some(ProfileBackend::Chromium(_)) => Some(Engine::Blink),
        None => match version {
            Some(v) => engine_from_version_spec(v),
            None => None,
        },
    }
}

/// The colour: the engine's, else 117.
pub open spec fn browser_color(engine: Option<Engine>) -> Seq<char> {
    match engine {
        Some(e) => engine_color(e),
        None => "117"@,
    }
}

impl Browser {
    /// The browser from where it was found and what was read about it: its
    /// version text, profile backend, active profile, extensions, and the
    /// icon file found for its icon name.
    pub fn from_parts(
        source: BrowserSource,
        version: Option<String>,
        profile_backend: Option<ProfileBackend>,
        active_profile: Option<Profile>,
        extensions: Vec<Extension>,
        icon: Option<String>,
    ) -> (r: Browser)
        ensures
            r.name == source.name,
            r.engine == browser_engine(profile_backend, opt_view(version)),
            r.color@ == browser_color(r.engine),
            r.icon == icon,
            r.version == version,
            r.profile_backend == profile_backend,
            r.active_profile == active_profile,
            r.extensions == extensions,
    {
        let engine = match &profile_backend {
            Some(b) => Some(b.engine()),
            None => match &version {
                Some(v) => engine_from_version(v.as_str()),
                None => None,
            },
        };
        let color = match engine {
            Some(e) => e.color(),
            None => "117",
        };
        Browser {
            name: source.name,
            engine,
            color,
            icon,
            version,
            profile_backend,
            active_profile,
            extensions,
        }
    }
}

/// Index of the first entry with id `id`, or -1.
pub open spec fn entry_with_id(es: Seq<DesktopEntryView>, id: Seq<char>) -> int
    decreases es.len(),
{
    if es.len() == 0 {
        -1
    } else if es[0].id == id {
        0
    } else {
        let r = entry_with_id(es.drop_first(), id);
        if r < 0 { -1 } else { r + 1 }
    }
}

pub open spec fn entry_views(es: Seq<DesktopEntry>) -> Seq<DesktopEntryView> {
    es.map_values(|e: DesktopEntry| e@)
}

/// The default browser: the entry whose id the system names (ignoring an
/// answer that is blank), as `from_desktop_entry` describes it.
pub open spec fn detect_spec(default_id: Option<Seq<char>>, es: Seq<DesktopEntryView>) -> SourceView {
    let entry = match default_id {
        Some(id) => if trim(id).len() > 0 && entry_with_id(es, id) >= 0 {
            Some(es[entry_with_id(es, id)])
        } else {
            None
        },
        None => None,
    };
    from_entry_spec(entry)
}

fn entry_index(es: &Vec<DesktopEntry>, id: &Vec<char>) -> (r: Option<usize>)
    ensures
        match r {
            Some(i) => i < es.len() && entry_with_id(entry_views(es@), id@) == i,
            None => entry_with_id(entry_views(es@), id@) == -1,
        },
{
    let ghost ev = entry_views(es@);
    let mut i: usize = 0;
    assert(ev.skip(0) =~= ev);
    while i < es.len()
        invariant
            i <= es.len(),
            ev == entry_views(es@),
            entry_with_id(ev, id@) == (if entry_with_id(ev.skip(i as int), id@) < 0 { -1 } else { entry_with_id(ev.skip(i as int), id@) + i }),
        decreases es.len() - i,
    {
        let c = chars_of(es[i].id.as_str());
        assert(ev.skip(i as int)[0] == es@[i as int]@);
        if chars_eq(&c, id) {
            return Some(i);
        }
        assert(ev.skip(i as int).drop_first() =~= ev.skip(i + 1));
        i = i + 1;
    }
    None
}

/// The first entry with desktop id `id`, if any.
pub fn find_desktop_entry(entries: Vec<DesktopEntry>, id: &str) -> (r: Option<DesktopEntry>)
    ensures
        match r {
            Some(e) => entry_with_id(entry_views(entries@), id@) >= 0
                && e@ == entry_views(entries@)[entry_with_id(entry_views(entries@), id@)],
            None => entry_with_id(entry_views(entries@), id@) == -1,
        },
{
    let ghost ev = entry_views(entries@);
    let mut es = entries;
    match entry_index(&es, &chars_of(id)) {
        Some(i) => {
            assert(ev[i as int] == es@[i as int]@);
            let e = es.remove(i);
            Some(e)
        },
        None => None,
    }
}

impl Browser {
    /// The default browser, from the desktop id the system reports (`None`
    /// when it reports none) and the installed desktop entries.
    pub fn detect(default_id: Option<String>, entries: Vec<DesktopEntry>) -> (r: BrowserSource)
        ensures
            r@ == detect_spec(opt_view(default_id), entry_views(entries@)),
    {
        let entry = match default_id {
            Some(id) => {
                let t = trim_chars(&chars_of(id.as_str()));
                if t.len() > 0 {
                    find_desktop_entry(entries, id.as_str())
                } else {
                    None
                }
            },
            None => None,
        };
        from_desktop_entry(entry)
    }
}

/// Index of the first entry a selector picks, or -1.
pub open spec fn first_match(es: Seq<DesktopEntryView>, selector: Seq<char>) -> int
    decreases es.len(),
{
    if es.len() == 0 {
        -1
    } else if matches_selector_spec(es[0], selector) {
        0
    } else {
        let r = first_match(es.drop_first(), selector);
        if r < 0 { -1 } else { r + 1 }
    }
}

/// The browser a selector names: the first entry it picks, else the program
/// that was found for it (`executable`), else none.
pub open spec fn detect_selector_spec(selector: Seq<char>, es: Seq<DesktopEntryView>, executable: Option<Seq<char>>) -> Option<SourceView> {
    let i = first_match(es, selector);
    if i >= 0 {
        Some(from_entry_spec(Some(es[i])))
    } else {
        match executable {
            Some(p) => Some(from_command_spec(p)),
            None => None,
        }
    }
}

pub open spec fn opt_source_view(s: Option<BrowserSource>) -> Option<SourceView> {
    match s {
        Some(x) => Some(x@),
        None => None,
    }
}

impl Browser {
    /// The browser a command-line selector names, among the installed
    /// desktop entries; `executable` is the program found on the `PATH` for
    /// the selector, if any.
    pub fn detect_selector(selector: &str, entries: Vec<DesktopEntry>, executable: Option<String>) -> (r: Option<BrowserSource>)
        ensures
            opt_source_view(r) == detect_selector_spec(selector@, entry_views(entries@), opt_view(executable)),
    {
        let ghost ev = entry_views(entries@);
        let mut es = entries;
        let mut i: usize = 0;
        assert(ev.skip(0) =~= ev);
        while i < es.len()
            invariant
                i <= es.len(),
                ev == entry_views(es@),
                ev == entry_views(entries@),
                first_match(ev, selector@) == (if first_match(ev.skip(i as int), selector@) < 0 { -1 } else { first_match(ev.skip(i as int), selector@) + i }),
            decreases es.len() - i,
        {
            assert(ev.skip(i as int)[0] == es@[i as int]@);
            if es[i].matches_selector(selector) {
                assert(first_match(ev.skip(i as int), selector@) == 0);
                assert(first_match(ev, selector@) == i);
                let e = es.remove(i);
                assert(e@ == ev[i as int]);
                return Some(from_desktop_entry(Some(e)));
            }
            assert(ev.skip(i as int).drop_first() =~= ev.skip(i + 1));
            i = i + 1;
        }
        match executable {
            Some(p) => Some(from_command(p.as_str())),
            None => None,
        }
    }
}

/// How an installed browser entry is listed: its name (else its id), and
/// its id.
pub open spec fn listed_entry(e: DesktopEntryView) -> (Seq<char>, Seq<char>) {
    (match e.name { Some(n) => n, None => e.id }, e.id)
}

pub open spec fn browser_filter() -> spec_fn(DesktopEntryView) -> bool {
    |e: DesktopEntryView| is_browser_spec(e)
}

/// The browser entries, in order, as they are listed.
pub open spec fn browser_pairs(es: Seq<DesktopEntryView>) -> Seq<(Seq<char>, Seq<char>)> {
    es.filter(browser_filter()).map_values(|e: DesktopEntryView| listed_entry(e))
}

/// Whether a listed browser's name equals `name`, ignoring ASCII case.
pub open spec fn has_name(ps: Seq<(Seq<char>, Seq<char>)>, name: Seq<char>) -> bool {
    exists|i: int| 0 <= i < ps.len() && eq_ignore_case(#[trigger] ps[i].0, name)
}

/// The list with each program added, in order, as `(display name,
/// "PATH:" + program)`, unless a browser of that name (ignoring ASCII case)
/// is already listed.
pub open spec fn add_programs(ps: Seq<(Seq<char>, Seq<char>)>, programs: Seq<Seq<char>>) -> Seq<(Seq<char>, Seq<char>)>
    decreases programs.len(),
{
    if programs.len() == 0 {
        ps
    } else {
        let acc = add_programs(ps, programs.drop_last());
        let name = command_display_name_spec(programs.last());
        if has_name(acc, name) {
            acc
        } else {
            acc.push((name, "PATH:"@ + programs.last()))
        }
    }
}

/// A listed browser is sorted by its lowercased name, then lowercased id.
pub open spec fn list_key() -> spec_fn((Seq<char>, Seq<char>)) -> (Seq<char>, Seq<char>) {
    |p: (Seq<char>, Seq<char>)| (ascii_lower(p.0), ascii_lower(p.1))
}

pub open spec fn list_order() -> spec_fn((Seq<char>, Seq<char>), (Seq<char>, Seq<char>)) -> bool {
    |x: (Seq<char>, Seq<char>), y: (Seq<char>, Seq<char>)| pair_lt(text_order(), text_order(), x, y)
}

pub open spec fn listed_id() -> spec_fn((Seq<char>, Seq<char>)) -> Seq<char> {
    |p: (Seq<char>, Seq<char>)| p.1
}

/// `r` is `all` sorted stably by lowercased name then lowercased id, with
/// consecutive entries of equal id reduced to the first.
pub open spec fn listed_browsers(all: Seq<(Seq<char>, Seq<char>)>, r: Seq<(Seq<char>, Seq<char>)>) -> bool {
    exists|s: Seq<(Seq<char>, Seq<char>)>|
        sorted_by(s, list_key(), list_order()) && stable_perm(all, s, list_key()) && r == dedup_by_key(s, listed_id())
}

pub open spec fn pair_view_fn() -> spec_fn((String, String)) -> (Seq<char>, Seq<char>) {
    |p: (String, String)| (p.0@, p.1@)
}

fn listed_less(a: &(String, String), b: &(String, String)) -> (r: bool)
    ensures
        r == list_order()(list_key()(pair_view_fn()(*a)), list_key()(pair_view_fn()(*b))),
{
    let a0 = ascii_lowercase(&chars_of(a.0.as_str()));
    let b0 = ascii_lowercase(&chars_of(b.0.as_str()));
    if chars_less(&a0, &b0) {
        return true;
    }
    if !chars_eq(&a0, &b0) {
        return false;
    }
    let a1 = ascii_lowercase(&chars_of(a.1.as_str()));
    let b1 = ascii_lowercase(&chars_of(b.1.as_str()));
    chars_less(&a1, &b1)
}

fn same_id(a: &(String, String), b: &(String, String)) -> (r: bool)
    ensures
        r == (listed_id()(pair_view_fn()(*a)) == listed_id()(pair_view_fn()(*b))),
{
    chars_eq(&chars_of(a.1.as_str()), &chars_of(b.1.as_str()))
}

proof fn lemma_list_order_strict()
    ensures
        strict(list_order()),
{
    lemma_chars_lt_strict();
    lemma_pair_lt_strict(text_order(), text_order());
    assert forall|a: (Seq<char>, Seq<char>)| !#[trigger] list_order()(a, a) by {
        assert(!(|x: (Seq<char>, Seq<char>), y: (Seq<char>, Seq<char>)| pair_lt(text_order(), text_order(), x, y))(a, a));
    }
    assert forall|a: (Seq<char>, Seq<char>), b: (Seq<char>, Seq<char>)| #[trigger] list_order()(a, b) implies !list_order()(b, a) by {
        assert((|x: (Seq<char>, Seq<char>), y: (Seq<char>, Seq<char>)| pair_lt(text_order(), text_order(), x, y))(a, b));
    }
}

fn has_listed_name(ps: &Vec<(String, String)>, name: &Vec<char>) -> (r: bool)
    ensures
        r == has_name(pair_views(ps@), name@),
{
    let mut i: usize = 0;
    while i < ps.len()
        invariant
            i <= ps.len(),
            forall|k: int| 0 <= k < i ==> !eq_ignore_case(#[trigger] pair_views(ps@)[k].0, name@),
        decreases ps.len() - i,
    {
        let c = chars_of(ps[i].0.as_str());
        if eq_ignore_ascii_case(&c, name) {
            assert(pair_views(ps@)[i as int].0 == c@);
            return true;
        }
        i = i + 1;
    }
    false
}

impl Browser {
    /// The installed browsers as `(name, id)` pairs: the desktop entries in
    /// the `WebBrowser` category, then each program found on the `PATH`
    /// (`executables`, in order) whose display name is not listed yet; sorted
    /// by lowercased name then id, with repeated ids dropped.
    pub fn installed_browsers(entries: Vec<DesktopEntry>, executables: Vec<String>) -> (r: Vec<(String, String)>)
        ensures
            listed_browsers(
                add_programs(browser_pairs(entry_views(entries@)), string_views(executables@)),
                pair_views(r@),
            ),
    {
        let ghost ev = entry_views(entries@);
        let mut list: Vec<(String, String)> = Vec::new();
        let mut i: usize = 0;
        reveal(Seq::filter);
        assert(ev.take(0) =~= Seq::<DesktopEntryView>::empty());
        while i < entries.len()
            invariant
                i <= entries.len(),
                ev == entry_views(entries@),
                pair_views(list@) == browser_pairs(ev.take(i as int)),
            decreases entries.len() - i,
        {
            let e = &entries[i];
            let b = e.is_browser();
            let ghost prev = ev.take(i as int);
            assert(ev.take(i + 1) =~= prev.push(ev[i as int]));
            assert(ev[i as int] == e@);
            proof {
                lemma_filter_push(prev, ev[i as int], browser_filter());
            }
            if b {
                let name = match &e.name {
                    Some(n) => string_from_chars(&chars_of(n.as_str())),
                    None => string_from_chars(&chars_of(e.id.as_str())),
                };
                let id = string_from_chars(&chars_of(e.id.as_str()));
                let ghost old_list = list@;
                list.push((name, id));
                assert(pair_views(list@) =~= pair_views(old_list).push(listed_entry(e@)));
                assert(prev.push(ev[i as int]).filter(browser_filter()).map_values(|x: DesktopEntryView| listed_entry(x))
                    =~= prev.filter(browser_filter()).map_values(|x: DesktopEntryView| listed_entry(x)).push(listed_entry(e@)));
            }
            i = i + 1;
        }
        assert(ev.take(entries.len() as int) =~= ev);
        let ghost base = browser_pairs(ev);
        let ghost progs = string_views(executables@);
        let mut j: usize = 0;
        assert(progs.take(0) =~= Seq::<Seq<char>>::empty());
        while j < executables.len()
            invariant
                j <= executables.len(),
                progs == string_views(executables@),
                pair_views(list@) == add_programs(base, progs.take(j as int)),
            decreases executables.len() - j,
        {
            let program = &executables[j];
            let name = command_display_name(program.as_str());
            let nc = chars_of(name.as_str());
            assert(progs.take(j + 1).drop_last() =~= progs.take(j as int));
            assert(progs.take(j + 1).last() == program@);
            if !has_listed_name(&list, &nc) {
                let mut id = chars_of("PATH:");
                let pc = chars_of(program.as_str());
                append_chars(&mut id, &pc);
                let ghost old_list = list@;
                list.push((name, string_from_chars(&id)));
                assert(pair_views(list@) =~= pair_views(old_list).push((name@, "PATH:"@ + program@)));
            }
            j = j + 1;
        }
        assert(progs.take(executables.len() as int) =~= progs);
        let ghost all = list@;
        proof {
            lemma_list_order_strict();
        }
        let sorted = sort_by_key::<(String, String), (Seq<char>, Seq<char>), _>(
            list,
            listed_less,
            Ghost(|p: (String, String)| list_key()(pair_view_fn()(p))),
            Ghost(list_order()),
        );
        let ghost s = sorted@;
        let r = dedup_by::<(String, String), Seq<char>, _>(
            sorted,
            same_id,
            Ghost(|p: (String, String)| listed_id()(pair_view_fn()(p))),
        );
        proof {
            lemma_sorted_map(all, s, pair_view_fn(), list_key(), list_order());
            lemma_dedup_map(s, pair_view_fn(), listed_id());
            assert(pair_views(all) =~= all.map_values(pair_view_fn()));
            assert(pair_views(r@) =~= r@.map_values(pair_view_fn()));
            let sv = s.map_values(pair_view_fn());
            assert(sorted_by(sv, list_key(), list_order()) && stable_perm(pair_views(all), sv, list_key())
                && pair_views(r@) == dedup_by_key(sv, listed_id()));
        }
        r
    }
}

pub open spec fn listed_name() -> spec_fn((Seq<char>, Seq<char>)) -> Seq<char> {
    |p: (Seq<char>, Seq<char>)| p.0
}

/// Completion candidates are ordered and told apart by their lowercased name.
pub open spec fn name_key() -> spec_fn(Seq<char>) -> Seq<char> {
    |n: Seq<char>| ascii_lower(n)
}

/// `r` is the names of `list`, sorted stably by lowercased name, with
/// consecutive names equal but for ASCII case reduced to the first.
pub open spec fn candidates_of(list: Seq<(Seq<char>, Seq<char>)>, r: Seq<Seq<char>>) -> bool {
    exists|s: Seq<Seq<char>>|
        sorted_by(s, name_key(), text_order())
            && stable_perm(list.map_values(listed_name()), s, name_key())
            && r == dedup_by_key(s, name_key())
}

pub open spec fn string_view_fn() -> spec_fn(String) -> Seq<char> {
    |s: String| s@
}

fn name_less(a: &String, b: &String) -> (r: bool)
    ensures
        r == text_order()(name_key()(string_view_fn()(*a)), name_key()(string_view_fn()(*b))),
{
    let la = ascii_lowercase(&chars_of(a.as_str()));
    let lb = ascii_lowercase(&chars_of(b.as_str()));
    chars_less(&la, &lb)
}

fn same_name(a: &String, b: &String) -> (r: bool)
    ensures
        r == (name_key()(string_view_fn()(*a)) == name_key()(string_view_fn()(*b))),
{
    eq_ignore_ascii_case(&chars_of(a.as_str()), &chars_of(b.as_str()))
}

impl Browser {
    /// The names offered for completing a selector: the installed browsers'
    /// names, sorted ignoring ASCII case, repeats (ignoring ASCII case)
    /// dropped.
    pub fn completion_candidates(entries: Vec<DesktopEntry>, executables: Vec<String>) -> (r: Vec<String>)
        ensures
            exists|list: Seq<(Seq<char>, Seq<char>)>|
                listed_browsers(add_programs(browser_pairs(entry_views(entries@)), string_views(executables@)), list)
                    && #[trigger] candidates_of(list, string_views(r@)),
    {
        let installed = Self::installed_browsers(entries, executables);
        let ghost list = pair_views(installed@);
        let mut names: Vec<String> = Vec::new();
        let mut i: usize = 0;
        while i < installed.len()
            invariant
                i <= installed.len(),
                list == pair_views(installed@),
                string_views(names@) == list.take(i as int).map_values(listed_name()),
            decreases installed.len() - i,
        {
            let n = string_from_chars(&chars_of(installed[i].0.as_str()));
            assert(list[i as int] == (installed@[i as int].0@, installed@[i as int].1@));
            assert(listed_name()(list[i as int]) == n@);
            let ghost old_names = names@;
            names.push(n);
            assert(list.take(i + 1) =~= list.take(i as int).push(list[i as int]));
            assert(string_views(names@) =~= string_views(old_names).push(n@));
            i = i + 1;
            assert(string_views(names@) =~= list.take(i as int).map_values(listed_name()));
        }
        assert(list.take(installed.len() as int) =~= list);
        let ghost all = names@;
        assert(string_views(all) == list.map_values(listed_name()));
        proof {
            lemma_chars_lt_strict();
        }
        let sorted = sort_by_key::<String, Seq<char>, _>(
            names,
            name_less,
            Ghost(|x: String| name_key()(string_view_fn()(x))),
            Ghost(text_order()),
        );
        let ghost s = sorted@;
        let r = dedup_by::<String, Seq<char>, _>(
            sorted,
            same_name,
            Ghost(|x: String| name_key()(string_view_fn()(x))),
        );
        proof {
            lemma_sorted_map(all, s, string_view_fn(), name_key(), text_order());
            lemma_dedup_map(s, string_view_fn(), name_key());
            assert(string_views(all) =~= all.map_values(string_view_fn()));
            assert(string_views(r@) =~= r@.map_values(string_view_fn()));
            let sv = s.map_values(string_view_fn());
            assert(sorted_by(sv, name_key(), text_order()) && stable_perm(string_views(all), sv, name_key())
                && string_views(r@) == dedup_by_key(sv, name_key()));
            assert(stable_perm(list.map_values(listed_name()), sv, name_key()));
            assert(candidates_of(list, string_views(r@)));
        }
        r
    }
}

/// The desktop id of a file: its file name, when its extension is `desktop`.
pub open spec fn desktop_id(path: Seq<char>) -> Option<Seq<char>> {
    if extension(path) == Some("desktop"@) {
        file_name(path)
    } else {
        None
    }
}

/// Whether one of `files` has desktop id `id`.
pub open spec fn id_seen(files: Seq<(Seq<char>, Option<Seq<char>>)>, id: Seq<char>) -> bool {
    exists|j: int| 0 <= j < files.len() && desktop_id(#[trigger] files[j].0) == Some(id)
}

/// The entries of the desktop files, given as (path, text if it could be
/// read) in search order: the first file of each desktop id wins, and one
/// that could not be read gives no entry.
pub open spec fn desktop_entries_spec(files: Seq<(Seq<char>, Option<Seq<char>>)>) -> Seq<DesktopEntryView>
    decreases files.len(),
{
    if files.len() == 0 {
        Seq::<DesktopEntryView>::empty()
    } else {
        let prev = files.drop_last();
        let acc = desktop_entries_spec(prev);
        match desktop_id(files.last().0) {
            Some(id) => match files.last().1 {
                Some(data) => if id_seen(prev, id) {
                    acc
                } else {
                    acc.push(parse_desktop_entry_spec(id, data))
                },
                None => acc,
            },
            None => acc,
        }
    }
}

pub open spec fn file_views(files: Seq<(String, Option<String>)>) -> Seq<(Seq<char>, Option<Seq<char>>)> {
    files.map_values(|f: (String, Option<String>)| (f.0@, opt_view(f.1)))
}

fn seen_contains(seen: &Vec<Vec<char>>, id: &Vec<char>) -> (r: bool)
    ensures
        r == views(seen@).contains(id@),
{
    let mut i: usize = 0;
    while i < seen.len()
        invariant
            i <= seen.len(),
            forall|k: int| 0 <= k < i ==> views(seen@)[k] != id@,
        decreases seen.len() - i,
    {
        if chars_eq(&seen[i], id) {
            assert(views(seen@)[i as int] == id@);
            return true;
        }
        i = i + 1;
    }
    false
}

/// The desktop entries read from the desktop files, given as (path, text if
/// it could be read) in the order the directories are searched.
pub fn desktop_entries(files: Vec<(String, Option<String>)>) -> (r: Vec<DesktopEntry>)
    ensures
        entry_views(r@) == desktop_entries_spec(file_views(files@)),
{
    let ghost fv = file_views(files@);
    let mut seen: Vec<Vec<char>> = Vec::new();
    let mut entries: Vec<DesktopEntry> = Vec::new();
    let ext = chars_of("desktop");
    let mut i: usize = 0;
    assert(fv.take(0) =~= Seq::<(Seq<char>, Option<Seq<char>>)>::empty());
    assert(entry_views(entries@) =~= Seq::<DesktopEntryView>::empty());
    while i < files.len()
        invariant
            i <= files.len(),
            fv == file_views(files@),
            ext@ == "desktop"@,
            entry_views(entries@) == desktop_entries_spec(fv.take(i as int)),
            forall|id: Seq<char>| views(seen@).contains(id) <==> id_seen(fv.take(i as int), id),
        decreases files.len() - i,
    {
        let ghost prev = fv.take(i as int);
        assert(fv.take(i + 1).drop_last() =~= prev);
        assert(fv.take(i + 1).last() == fv[i as int]);
        assert(fv[i as int] == (files@[i as int].0@, opt_view(files@[i as int].1)));
        let pc = chars_of(files[i].0.as_str());
        let is_desktop = match path_extension(&pc) {
            Some(e) => chars_eq(&e, &ext),
            None => false,
        };
        let id = if is_desktop { path_file_name(&pc) } else { None };
        assert(id matches Some(x) ==> desktop_id(fv[i as int].0) == Some(x@));
        assert(id is None ==> desktop_id(fv[i as int].0) is None);
        match id {
            Some(id) => {
                let ghost seen0 = views(seen@);
                let was_seen = seen_contains(&seen, &id);
                if !was_seen {
                    let ghost old_seen = views(seen@);
                    let idc = slice_chars(&id, 0, id.len());
                    assert(idc@ =~= id@);
                    seen.push(idc);
                    assert(views(seen@) =~= old_seen.push(id@));
                    match &files[i].1 {
                        Some(data) => {
                            let ids = string_from_chars(&id);
                            let e = parse_desktop_entry(ids.as_str(), data.as_str());
                            let ghost old_entries = entry_views(entries@);
                            entries.push(e);
                            assert(entry_views(entries@) =~= old_entries.push(e@));
                        },
                        None => {},
                    }
                }
                assert(views(seen@) == (if was_seen { seen0 } else { seen0.push(id@) }));
                assert forall|x: Seq<char>| views(seen@).contains(x) <==> id_seen(fv.take(i + 1), x) by {
                    if !was_seen {
                        let sv = views(seen@);
                        assert(sv == seen0.push(id@));
                        if x == id@ {
                            assert(sv[seen0.len() as int] == x);
                        }
                        if seen0.contains(x) {
                            let k = choose|k: int| 0 <= k < seen0.len() && seen0[k] == x;
                            assert(sv[k] == x);
                        }
                        if sv.contains(x) {
                            let k = choose|k: int| 0 <= k < sv.len() && sv[k] == x;
                            if k < seen0.len() {
                                assert(seen0[k] == x);
                            }
                        }
                    }
                    assert(views(seen@).contains(x) <==> (seen0.contains(x) || x == id@));
                    assert(fv.take(i + 1)[i as int] == fv[i as int]);
                    assert(desktop_id(fv.take(i + 1)[i as int].0) == Some(id@));
                    if id_seen(fv.take(i + 1), x) {
                        let j = choose|j: int| 0 <= j < fv.take(i + 1).len() && desktop_id(#[trigger] fv.take(i + 1)[j].0) == Some(x);
                        if j < i {
                            assert(fv.take(i + 1)[j] == prev[j]);
                            assert(id_seen(prev, x));
                        } else {
                            assert(x == id@);
                        }
                    }
                    if seen0.contains(x) {
                        assert(id_seen(prev, x));
                        let j = choose|j: int| 0 <= j < prev.len() && desktop_id(#[trigger] prev[j].0) == Some(x);
                        assert(fv.take(i + 1)[j] == prev[j]);
                    }
                }
            },
            None => {
                assert forall|x: Seq<char>| views(seen@).contains(x) <==> id_seen(fv.take(i + 1), x) by {
                    if id_seen(fv.take(i + 1), x) {
                        let j = choose|j: int| 0 <= j < fv.take(i + 1).len() && desktop_id(#[trigger] fv.take(i + 1)[j].0) == Some(x);
                        assert(j < i);
                        assert(fv.take(i + 1)[j] == prev[j]);
                        assert(id_seen(prev, x));
                    }
                    if id_seen(prev, x) {
                        let j = choose|j: int| 0 <= j < prev.len() && desktop_id(#[trigger] prev[j].0) == Some(x);
                        assert(fv.take(i + 1)[j] == prev[j]);
                    }
                }
            },
        }
        i = i + 1;
    }
    assert(fv.take(files.len() as int) =~= fv);
    entries
}

/// A browser is picked by each of its own names (desktop id, name, program
/// and icon) whose selector key is not empty.
pub proof fn law_entry_matched_by_own_names(e: DesktopEntryView, i: int)
    requires
        0 <= i < entry_names(e).len(),
        selector_key_spec(entry_names(e)[i]).len() > 0,
    ensures
        matches_selector_spec(e, entry_names(e)[i]),
{
    let k = selector_key_spec(entry_names(e)[i]);
    assert(k.skip(k.len() - k.len()) =~= k);
    assert(ends_with(selector_key_spec(entry_names(e)[i]), k));
}

proof fn lemma_entry_ids_seen(files: Seq<(Seq<char>, Option<Seq<char>>)>)
    ensures
        forall|k: int| 0 <= k < desktop_entries_spec(files).len() ==> id_seen(files, #[trigger] desktop_entries_spec(files)[k].id),
    decreases files.len(),
{
    if files.len() > 0 {
        let prev = files.drop_last();
        lemma_entry_ids_seen(prev);
        let acc = desktop_entries_spec(prev);
        let r = desktop_entries_spec(files);
        assert forall|k: int| 0 <= k < r.len() implies id_seen(files, #[trigger] r[k].id) by {
            if k < acc.len() {
                assert(r[k] == acc[k]);
                assert(id_seen(prev, acc[k].id));
                let j = choose|j: int| 0 <= j < prev.len() && desktop_id(#[trigger] prev[j].0) == Some(acc[k].id);
                assert(files[j] == prev[j]);
            } else {
                let last = files.len() - 1;
                assert(files[last] == files.last());
                assert(desktop_id(files[last].0) == Some(r[k].id));
            }
        }
    }
}

/// Each desktop id gives at most one entry: the entries read from the
/// desktop files have pairwise different ids.
pub proof fn law_desktop_ids_unique(files: Seq<(Seq<char>, Option<Seq<char>>)>)
    ensures
        forall|i: int, j: int|
            0 <= i < j < desktop_entries_spec(files).len() ==> #[trigger] desktop_entries_spec(files)[i].id
                != #[trigger] desktop_entries_spec(files)[j].id,
    decreases files.len(),
{
    if files.len() > 0 {
        let prev = files.drop_last();
        law_desktop_ids_unique(prev);
        lemma_entry_ids_seen(prev);
        let acc = desktop_entries_spec(prev);
        let r = desktop_entries_spec(files);
        assert forall|i: int, j: int| 0 <= i < j < r.len() implies #[trigger] r[i].id != #[trigger] r[j].id by {
            if j < acc.len() {
                assert(r[i] == acc[i] && r[j] == acc[j]);
            } else {
                assert(r[i] == acc[i]);
                assert(id_seen(prev, acc[i].id));
                assert(!id_seen(prev, r[j].id));
            }
        }
    }
}

/// The browser list is in order of lowercased name, then lowercased id, and
/// no two neighbours in it share an id.
pub proof fn law_listed_browsers_order(all: Seq<(Seq<char>, Seq<char>)>, r: Seq<(Seq<char>, Seq<char>)>)
    requires
        listed_browsers(all, r),
    ensures
        sorted_by(r, list_key(), list_order()),
        forall|i: int| 0 <= i < r.len() - 1 ==> (#[trigger] r[i]).1 != r[i + 1].1,
{
    let s = choose|s: Seq<(Seq<char>, Seq<char>)>|
        sorted_by(s, list_key(), list_order()) && stable_perm(all, s, list_key()) && r == dedup_by_key(s, listed_id());
    lemma_text_order_total_order();
    lemma_pair_lt_total_order(text_order(), text_order());
    assert(total_order(list_order())) by {
        let p = |x: (Seq<char>, Seq<char>), y: (Seq<char>, Seq<char>)| pair_lt(text_order(), text_order(), x, y);
        assert forall|x: (Seq<char>, Seq<char>), y: (Seq<char>, Seq<char>)| #[trigger] list_order()(x, y) == p(x, y) by {}
    }
    lemma_dedup_sorted(s, list_key(), list_order(), listed_id());
    law_dedup_no_adjacent_repeats(s, listed_id());
    assert forall|i: int| 0 <= i < r.len() - 1 implies (#[trigger] r[i]).1 != r[i + 1].1 by {
        assert(listed_id()(r[i]) != listed_id()(r[i + 1]));
    }
}

/// The completion candidates are in order of lowercased name, no two of them
/// are equal but for ASCII case, and their lowercased forms are exactly the
/// lowercased names of the listed browsers.
pub proof fn law_completion_candidates_order(list: Seq<(Seq<char>, Seq<char>)>, r: Seq<Seq<char>>)
    requires
        candidates_of(list, r),
    ensures
        sorted_by(r, name_key(), text_order()),
        forall|i: int, j: int| 0 <= i < j < r.len() ==> !eq_ignore_case(#[trigger] r[i], #[trigger] r[j]),
        forall|i: int| 0 <= i < r.len() ==> exists|j: int| 0 <= j < list.len() && ascii_lower(#[trigger] list[j].0) == ascii_lower(#[trigger] r[i]),
        forall|j: int| 0 <= j < list.len() ==> exists|i: int| 0 <= i < r.len() && ascii_lower(#[trigger] r[i]) == ascii_lower(#[trigger] list[j].0),
{
    let names = list.map_values(listed_name());
    let s = choose|s: Seq<Seq<char>>|
        sorted_by(s, name_key(), text_order())
            && stable_perm(names, s, name_key())
            && r == dedup_by_key(s, name_key());
    lemma_text_order_total_order();
    lemma_dedup_sorted(s, name_key(), text_order(), name_key());
    law_dedup_no_adjacent_repeats(s, name_key());
    lemma_sorted_distinct_keys(r, name_key(), text_order());
    assert forall|i: int, j: int| 0 <= i < j < r.len() implies !eq_ignore_case(#[trigger] r[i], #[trigger] r[j]) by {
        assert(name_key()(r[i]) != name_key()(r[j]));
    }
    assert forall|i: int| 0 <= i < r.len() implies exists|j: int|
        0 <= j < list.len() && ascii_lower(#[trigger] list[j].0) == ascii_lower(#[trigger] r[i]) by {
        let k = ascii_lower(r[i]);
        let p = key_is(name_key(), k);
        assert(with_key(s, name_key(), k) == with_key(names, name_key(), k));
        let m = lemma_dedup_elem(s, name_key(), i);
        s.lemma_filter_contains(p, m);
        let w = s.filter(p);
        let t = choose|t: int| 0 <= t < w.len() && w[t] == s[m];
        assert(w == names.filter(p));
        let u = lemma_filter_elem(names, p, t);
        names.lemma_filter_pred(p, t);
        assert(names[u] == list[u].0);
    }
    assert forall|j: int| 0 <= j < list.len() implies exists|i: int|
        0 <= i < r.len() && ascii_lower(#[trigger] r[i]) == ascii_lower(#[trigger] list[j].0) by {
        let k = ascii_lower(list[j].0);
        let p = key_is(name_key(), k);
        assert(with_key(s, name_key(), k) == with_key(names, name_key(), k));
        assert(names[j] == list[j].0);
        names.lemma_filter_contains(p, j);
        let w = names.filter(p);
        let t = choose|t: int| 0 <= t < w.len() && w[t] == names[j];
        assert(w == s.filter(p));
        let m = lemma_filter_elem(s, p, t);
        s.lemma_filter_pred(p, t);
        let i = lemma_dedup_keeps_keys(s, name_key(), m);
        assert(name_key()(r[i]) == k);
    }
}

/// The directories searched for desktop files, in order: the user's (under
/// `home`), `$XDG_DATA_HOME`, each of `$NIX_PROFILES` and `$XDG_DATA_DIRS`
/// (as split into paths), then the system's.
pub open spec fn desktop_dirs_spec(
    home: Option<Seq<char>>,
    data_home: Option<Seq<char>>,
    nix_profiles: Seq<Seq<char>>,
    data_dirs: Seq<Seq<char>>,
) -> Seq<Seq<char>> {
    (match home {
        Some(h) => seq![join(h, ".nix-profile/share/applications"@), join(h, ".local/share/applications"@)],
        None => Seq::<Seq<char>>::empty(),
    }) + (match data_home {
        Some(d) => seq![join(d, "applications"@)],
        None => Seq::<Seq<char>>::empty(),
    }) + nix_profiles.map_values(|p: Seq<char>| join(p, "share/applications"@))
        + data_dirs.map_values(|d: Seq<char>| join(d, "applications"@))
        + seq!["/usr/local/share/applications"@, "/usr/share/applications"@]
}

fn push_path(v: &mut Vec<String>, base: &str, sub: &str)
    ensures
        string_views(final(v)@) == string_views(old(v)@).push(join(base@, sub@)),
{
    let j = path_join(&chars_of(base), &chars_of(sub));
    let ghost before = string_views(v@);
    v.push(string_from_chars(&j));
    assert(string_views(v@) =~= before.push(join(base@, sub@)));
}

fn push_joined_all(v: &mut Vec<String>, bases: &Vec<String>, sub: &str)
    ensures
        string_views(final(v)@) == string_views(old(v)@) + string_views(bases@).map_values(|p: Seq<char>| join(p, sub@)),
{
    let ghost v0 = string_views(v@);
    let ghost bv = string_views(bases@);
    let mut i: usize = 0;
    while i < bases.len()
        invariant
            i <= bases.len(),
            bv == string_views(bases@),
            string_views(v@) == v0 + bv.take(i as int).map_values(|p: Seq<char>| join(p, sub@)),
        decreases bases.len() - i,
    {
        push_path(v, bases[i].as_str(), sub);
        assert(bv[i as int] == bases@[i as int]@);
        assert(bv.take(i + 1).map_values(|p: Seq<char>| join(p, sub@))
            =~= bv.take(i as int).map_values(|p: Seq<char>| join(p, sub@)).push(join(bv[i as int], sub@)));
        i = i + 1;
    }
    assert(bv.take(bases.len() as int) =~= bv);
}

/// The directories searched for desktop files; `home` is `$HOME`,
/// `data_home` is `$XDG_DATA_HOME`, and `nix_profiles` and `data_dirs` are
/// the paths in `$NIX_PROFILES` and `$XDG_DATA_DIRS`.
pub fn desktop_dirs(home: Option<&str>, data_home: Option<&str>, nix_profiles: &Vec<String>, data_dirs: &Vec<String>) -> (r: Vec<String>)
    ensures
        string_views(r@) == desktop_dirs_spec(
            match home { Some(h) => Some(h@), None => None },
            match data_home { Some(d) => Some(d@), None => None },
            string_views(nix_profiles@),
            string_views(data_dirs@),
        ),
{
    let mut dirs: Vec<String> = Vec::new();
    let ghost e = string_views(dirs@);
    match home {
        Some(h) => {
            push_path(&mut dirs, h, ".nix-profile/share/applications");
            push_path(&mut dirs, h, ".local/share/applications");
        },
        None => {},
    }
    let ghost a = string_views(dirs@);
    match data_home {
        Some(d) => push_path(&mut dirs, d, "applications"),
        None => {},
    }
    let ghost b = string_views(dirs@);
    push_joined_all(&mut dirs, nix_profiles, "share/applications");
    push_joined_all(&mut dirs, data_dirs, "applications");
    let ghost c = string_views(dirs@);
    let ghost before = string_views(dirs@);
    dirs.push(string_from_chars(&chars_of("/usr/local/share/applications")));
    dirs.push(string_from_chars(&chars_of("/usr/share/applications")));
    assert(string_views(dirs@) =~= before + seq!["/usr/local/share/applications"@, "/usr/share/applications"@]);
    assert(string_views(dirs@) =~= desktop_dirs_spec(
        match home { Some(h) => Some(h@), None => None },
        match data_home { Some(d) => Some(d@), None => None },
        string_views(nix_profiles@),
        string_views(data_dirs@),
    ));
    dirs
}

/// The paths tried, in order, for a program named by a selector: the
/// selector itself when it is a path of more than one component, else the
/// selector in each directory of `$PATH` (none when `$PATH` is unset).
pub open spec fn executable_candidates_spec(selector: Seq<char>, path_dirs: Option<Seq<Seq<char>>>) -> Seq<Seq<char>> {
    if components(selector).len() > 1 {
        seq![selector]
    } else {
        match path_dirs {
            Some(ds) => ds.map_values(|d: Seq<char>| join(d, selector)),
            None => Seq::<Seq<char>>::empty(),
        }
    }
}

pub fn executable_candidates(selector: &str, path_dirs: Option<Vec<String>>) -> (r: Vec<String>)
    ensures
        string_views(r@) == executable_candidates_spec(
            selector@,
            match path_dirs { Some(ds) => Some(string_views(ds@)), None => None },
        ),
{
    let sc = chars_of(selector);
    let comps = path_components(&sc);
    assert(comp_views(comps@).len() == comps@.len());
    let mut r: Vec<String> = Vec::new();
    if comps.len() > 1 {
        r.push(string_from_chars(&sc));
        assert(string_views(r@) =~= seq![selector@]);
        return r;
    }
    match &path_dirs {
        Some(ds) => {
            push_joined_all(&mut r, ds, selector);
            assert(string_views(r@) =~= string_views(ds@).map_values(|d: Seq<char>| join(d, selector@)));
        },
        None => {
            assert(string_views(r@) =~= Seq::<Seq<char>>::empty());
        },
    }
    r
}

/// A file can be run when it is a regular file with an execute bit set.
pub fn is_executable_mode(is_file: bool, mode: u32) -> (r: bool)
    ensures
        r == (is_file && (mode & 0o111u32) != 0),
{
    is_file && (mode & 0o111u32) != 0
}

/// Whether the file at `paths[i]` is the first desktop file of its desktop
/// id among `paths`: the only one of them whose text is needed.
pub open spec fn first_of_its_id(paths: Seq<Seq<char>>, i: int) -> bool {
    match desktop_id(paths[i]) {
        Some(id) => !exists|j: int| 0 <= j < i && #[trigger] desktop_id(paths[j]) == Some(id),
        None => false,
    }
}

/// For each path, whether its file has to be read: it is the first desktop
/// file of its desktop id.
pub fn files_to_read(paths: &Vec<String>) -> (r: Vec<bool>)
    ensures
        r.len() == paths.len(),
        forall|i: int| 0 <= i < paths.len() ==> r@[i] == first_of_its_id(string_views(paths@), i),
{
    let ghost pv = string_views(paths@);
    let ext = chars_of("desktop");
    let mut seen: Vec<Vec<char>> = Vec::new();
    let mut r: Vec<bool> = Vec::new();
    let mut i: usize = 0;
    while i < paths.len()
        invariant
            i <= paths.len(),
            pv == string_views(paths@),
            ext@ == "desktop"@,
            r.len() == i,
            forall|k: int| 0 <= k < i ==> r@[k] == first_of_its_id(pv, k),
            forall|id: Seq<char>| views(seen@).contains(id) <==> exists|j: int| 0 <= j < i && #[trigger] desktop_id(pv[j]) == Some(id),
        decreases paths.len() - i,
    {
        let pc = chars_of(paths[i].as_str());
        assert(pv[i as int] == pc@);
        let is_desktop = match path_extension(&pc) {
            Some(e) => chars_eq(&e, &ext),
            None => false,
        };
        let id = if is_desktop { path_file_name(&pc) } else { None };
        assert(id matches Some(x) ==> desktop_id(pv[i as int]) == Some(x@));
        assert(id is None ==> desktop_id(pv[i as int]) is None);
        let ghost seen0 = views(seen@);
        let first = match &id {
            Some(x) => {
                let was_seen = seen_contains(&seen, x);
                if !was_seen {
                    let xc = slice_chars(x, 0, x.len());
                    assert(xc@ =~= x@);
                    seen.push(xc);
                    assert(views(seen@) =~= seen0.push(x@));
                }
                !was_seen
            },
            None => false,
        };
        r.push(first);
        assert forall|y: Seq<char>|
            views(seen@).contains(y) <==> exists|j: int| 0 <= j < i + 1 && #[trigger] desktop_id(pv[j]) == Some(y) by {
            if exists|j: int| 0 <= j < i + 1 && #[trigger] desktop_id(pv[j]) == Some(y) {
                let j = choose|j: int| 0 <= j < i + 1 && #[trigger] desktop_id(pv[j]) == Some(y);
                if j < i {
                    assert(seen0.contains(y));
                }
            }
            if let Some(x) = id {
                if !seen0.contains(x@) {
                    let sv = views(seen@);
                    if y == x@ {
                        assert(sv[seen0.len() as int] == y);
                    }
                    if seen0.contains(y) {
                        let k = choose|k: int| 0 <= k < seen0.len() && seen0[k] == y;
                        assert(sv[k] == y);
                    }
                    if sv.contains(y) {
                        let k = choose|k: int| 0 <= k < sv.len() && sv[k] == y;
                        if k < seen0.len() {
                            assert(seen0[k] == y);
                        }
                    }
                }
            }
        }
        i = i + 1;
    }
    r
}

/// The paths of the desktop files.
pub open spec fn file_paths(files: Seq<(Seq<char>, Option<Seq<char>>)>) -> Seq<Seq<char>> {
    files.map_values(|f: (Seq<char>, Option<Seq<char>>)| f.0)
}

/// Reading only the files `files_to_read` asks for loses nothing: the text
/// of any other file makes no difference to the desktop entries.
pub proof fn law_unread_files_do_not_matter(
    a: Seq<(Seq<char>, Option<Seq<char>>)>,
    b: Seq<(Seq<char>, Option<Seq<char>>)>,
)
    requires
        a.len() == b.len(),
        forall|i: int| 0 <= i < a.len() ==> (#[trigger] a[i]).0 == b[i].0,
        forall|i: int| 0 <= i < a.len() && first_of_its_id(file_paths(a), i) ==> (#[trigger] a[i]).1 == b[i].1,
    ensures
        desktop_entries_spec(a) == desktop_entries_spec(b),
    decreases a.len(),
{
    if a.len() > 0 {
        let n = a.len() - 1;
        let a0 = a.drop_last();
        let b0 = b.drop_last();
        assert forall|i: int| 0 <= i < a0.len() implies (#[trigger] a0[i]).0 == b0[i].0 by {
            assert(a0[i] == a[i] && b0[i] == b[i]);
        }
        assert forall|i: int| 0 <= i < a0.len() && first_of_its_id(file_paths(a0), i) implies (#[trigger] a0[i]).1 == b0[i].1 by {
            assert(a0[i] == a[i] && b0[i] == b[i]);
            let pa = file_paths(a);
            let p0 = file_paths(a0);
            assert(pa[i] == p0[i]);
            if let Some(id) = desktop_id(pa[i]) {
                if exists|j: int| 0 <= j < i && #[trigger] desktop_id(pa[j]) == Some(id) {
                    let j = choose|j: int| 0 <= j < i && #[trigger] desktop_id(pa[j]) == Some(id);
                    assert(p0[j] == pa[j]);
                }
            }
            assert(first_of_its_id(pa, i));
        }
        law_unread_files_do_not_matter(a0, b0);
        assert(a.last() == a[n] && b.last() == b[n]);
        match desktop_id(a.last().0) {
            Some(id) => {
                assert forall|j: int| 0 <= j < n implies #[trigger] file_paths(a)[j] == a0[j].0 && a0[j].0 == b0[j].0 by {
                    assert(a0[j] == a[j] && b0[j] == b[j]);
                }
                if !id_seen(a0, id) {
                    assert(!id_seen(b0, id)) by {
                        if id_seen(b0, id) {
                            let j = choose|j: int| 0 <= j < b0.len() && desktop_id(#[trigger] b0[j].0) == Some(id);
                            assert(a0[j].0 == b0[j].0);
                        }
                    }
                    assert(first_of_its_id(file_paths(a), n)) by {
                        if exists|j: int| 0 <= j < n && #[trigger] desktop_id(file_paths(a)[j]) == Some(id) {
                            let j = choose|j: int| 0 <= j < n && #[trigger] desktop_id(file_paths(a)[j]) == Some(id);
                            assert(desktop_id(a0[j].0) == Some(id));
                        }
                    }
                } else {
                    assert(id_seen(b0, id)) by {
                        let j = choose|j: int| 0 <= j < a0.len() && desktop_id(#[trigger] a0[j].0) == Some(id);
                        assert(desktop_id(b0[j].0) == Some(id));
                    }
                }
            },
            None => {},
        }
    }
}

/// An entry is a browser exactly when its `Categories` value holds
/// `WebBrowser` as a whole `;`-separated item: other categories (`Network`,
/// `Email`, `WebBrowserish`) never make one.
pub proof fn law_browser_needs_web_browser_item(e: DesktopEntryView)
    ensures
        is_browser_spec(e) <==> exists|c: Seq<char>, k: int, last: bool|
            e.categories == Some(c) && #[trigger] item_at(c, ';', k, "WebBrowser"@, last),
{
    if is_browser_spec(e) {
        let c = e.categories->0;
        let pieces = split(c, ';');
        let i = choose|i: int| 0 <= i < pieces.len() && pieces[i] == "WebBrowser"@;
        let k = lemma_split_item(c, ';', i);
        assert(item_at(c, ';', k, "WebBrowser"@, i == pieces.len() - 1));
    }
    if exists|c: Seq<char>, k: int, last: bool| e.categories == Some(c) && #[trigger] item_at(c, ';', k, "WebBrowser"@, last) {
        let (c, k, last) = choose|c: Seq<char>, k: int, last: bool|
            e.categories == Some(c) && #[trigger] item_at(c, ';', k, "WebBrowser"@, last);
        assert(!"WebBrowser"@.contains(';')) by {
            reveal_strlit("WebBrowser");
        }
        let i = lemma_item_in_split(c, ';', k, "WebBrowser"@, last);
        assert(split(c, ';').contains("WebBrowser"@));
    }
}

} // verus!
