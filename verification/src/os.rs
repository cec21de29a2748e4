//! The operating system and desktop session: the distribution's pretty name,
//! the session type, and the desktop or window manager in use.
use vstd::prelude::*;
use crate::extensions::opt_view;
use crate::text::{
    append_chars, chars_of, contains_text, find_text, has_prefix, lines, lines_of, lowercase, slice_chars, starts_with,
    string_from_chars, to_lowercase, views,
};

verus! {

/// `s` without leading `"` characters.
pub open spec fn strip_quotes_start(s: Seq<char>) -> Seq<char>
    decreases s.len(),
{
    if s.len() > 0 && s[0] == '"' {
        strip_quotes_start(s.drop_first())
    } else {
        s
    }
}

/// `s` without trailing `"` characters.
pub open spec fn strip_quotes_end(s: Seq<char>) -> Seq<char>
    decreases s.len(),
{
    if s.len() > 0 && s.last() == '"' {
        strip_quotes_end(s.drop_last())
    } else {
        s
    }
}

/// `str::trim_matches('"')`.
pub open spec fn trim_quotes(s: Seq<char>) -> Seq<char> {
    strip_quotes_end(strip_quotes_start(s))
}

fn trim_quotes_chars(s: &Vec<char>) -> (r: Vec<char>)
    ensures
        r@ == trim_quotes(s@),
{
    let mut i: usize = 0;
    assert(s@.skip(0) =~= s@);
    while i < s.len() && s[i] == '"'
        invariant
            i <= s.len(),
            strip_quotes_start(s@) == strip_quotes_start(s@.skip(i as int)),
        decreases s.len() - i,
    {
        assert(s@.skip(i as int).drop_first() =~= s@.skip(i + 1));
        i = i + 1;
    }
    let mut j: usize = s.len();
    assert(s@.subrange(i as int, j as int) =~= s@.skip(i as int));
    while j > i && s[j - 1] == '"'
        invariant
            i <= j <= s.len(),
            strip_quotes_end(s@.skip(i as int)) == strip_quotes_end(s@.subrange(i as int, j as int)),
        decreases j,
    {
        assert(s@.subrange(i as int, j as int).drop_last() =~= s@.subrange(i as int, j - 1));
        j = j - 1;
    }
    slice_chars(s, i, j)
}

pub open spec fn pretty_prefix() -> Seq<char> {
    "PRETTY_NAME="@
}

/// The value of the first `PRETTY_NAME=` line, outer quotes removed.
pub open spec fn find_pretty(ls: Seq<Seq<char>>) -> Option<Seq<char>>
    decreases ls.len(),
{
    if ls.len() == 0 {
        None
    } else if starts_with(ls[0], pretty_prefix()) {
        Some(trim_quotes(ls[0].skip(pretty_prefix().len() as int)))
    } else {
        find_pretty(ls.drop_first())
    }
}

/// The distribution's name as `os-release` text gives it.
pub open spec fn pretty_name_spec(os_release: Seq<char>) -> Option<Seq<char>> {
    find_pretty(lines(os_release))
}

pub fn pretty_name(os_release: &str) -> (r: Option<String>)
    ensures
        match r {
            Some(v) => pretty_name_spec(os_release@) == Some(v@),
            None => pretty_name_spec(os_release@) is None,
        },
{
    let d = chars_of(os_release);
    let ls = lines_of(&d);
    let ghost lv = views(ls@);
    let prefix = chars_of("PRETTY_NAME=");
    let mut i: usize = 0;
    assert(lv.skip(0) =~= lv);
    while i < ls.len()
        invariant
            i <= ls.len(),
            lv == views(ls@),
            lv == lines(os_release@),
            prefix@ == pretty_prefix(),
            pretty_name_spec(os_release@) == find_pretty(lv.skip(i as int)),
        decreases ls.len() - i,
    {
        let line = &ls[i];
        assert(lv.skip(i as int)[0] == line@);
        assert(lv.skip(i as int).drop_first() =~= lv.skip(i + 1));
        if has_prefix(line, &prefix) {
            let rest = slice_chars(line, prefix.len(), line.len());
            assert(rest@ =~= line@.skip(pretty_prefix().len() as int));
            let v = trim_quotes_chars(&rest);
            return Some(string_from_chars(&v));
        }
        i = i + 1;
    }
    None
}

/// `"{pretty} / {kernel}"`: the distribution's name (else the name of the
/// operating system), then the kernel release (else `unknown kernel`).
pub open spec fn summary_spec(os_release: Option<Seq<char>>, os: Seq<char>, kernel: Option<Seq<char>>) -> Seq<char> {
    let pretty = match os_release {
        Some(d) => match pretty_name_spec(d) {
            Some(p) => p,
            None => os,
        },
        None => os,
    };
    let k = match kernel {
        Some(k) => k,
        None => "unknown kernel"@,
    };
    pretty + " / "@ + k
}

/// The system line: `os_release` is the text of `/etc/os-release` when it
/// could be read, `os` the name of the operating system, and `kernel` what
/// `uname -r` printed.
pub fn summary(os_release: Option<String>, os: &str, kernel: Option<String>) -> (r: String)
    ensures
        r@ == summary_spec(opt_view(os_release), os@, opt_view(kernel)),
{
    let pretty = match &os_release {
        Some(d) => match pretty_name(d.as_str()) {
            Some(p) => chars_of(p.as_str()),
            None => chars_of(os),
        },
        None => chars_of(os),
    };
    let k = match &kernel {
        Some(k) => chars_of(k.as_str()),
        None => chars_of("unknown kernel"),
    };
    let mut out = pretty;
    append_chars(&mut out, &chars_of(" / "));
    append_chars(&mut out, &k);
    string_from_chars(&out)
}

/// A variable's value when it is set and not empty.
pub open spec fn nonempty_var(v: Option<Seq<char>>) -> Option<Seq<char>> {
    match v {
        Some(x) => if x.len() > 0 { Some(x) } else { None },
        None => None,
    }
}

/// The session type: `XDG_SESSION_TYPE`, else `wayland` when
/// `WAYLAND_DISPLAY` is set, else `x11` when `DISPLAY` is, else `unknown`.
pub open spec fn session_type_spec(xdg_session_type: Option<Seq<char>>, wayland_display: Option<Seq<char>>, display: Option<Seq<char>>) -> Seq<char> {
    match nonempty_var(xdg_session_type) {
        Some(t) => t,
        None => if nonempty_var(wayland_display) is Some {
            "wayland"@
        } else if nonempty_var(display) is Some {
            "x11"@
        } else {
            "unknown"@
        },
    }
}

/// The desktop as the environment names it: `XDG_CURRENT_DESKTOP`, else
/// `DESKTOP_SESSION`.
pub open spec fn desktop_name_spec(current_desktop: Option<Seq<char>>, desktop_session: Option<Seq<char>>) -> Option<Seq<char>> {
    match nonempty_var(current_desktop) {
        Some(d) => Some(d),
        None => nonempty_var(desktop_session),
    }
}

fn nonempty(v: &Option<String>) -> (r: Option<Vec<char>>)
    ensures
        match r {
            Some(x) => nonempty_var(opt_view(*v)) == Some(x@),
            None => nonempty_var(opt_view(*v)) is None,
        },
{
    match v {
        Some(x) => {
            let c = chars_of(x.as_str());
            if c.len() > 0 {
                Some(c)
            } else {
                None
            }
        },
        None => None,
    }
}

/// The desktop named by the environment, if any; when there is none, the
/// session line falls back on the running window manager.
pub fn desktop_name(current_desktop: &Option<String>, desktop_session: &Option<String>) -> (r: Option<String>)
    ensures
        opt_view(r) == desktop_name_spec(opt_view(*current_desktop), opt_view(*desktop_session)),
{
    match nonempty(current_desktop) {
        Some(d) => Some(string_from_chars(&d)),
        None => match nonempty(desktop_session) {
            Some(d) => Some(string_from_chars(&d)),
            None => None,
        },
    }
}

/// The window managers looked for among the running processes, in order.
pub open spec fn wm_names() -> Seq<Seq<char>> {
    seq![
        "niri"@, "hyprland"@, "sway"@, "river"@, "wayfire"@, "kwin_wayland"@, "kwin_x11"@, "gnome-shell"@,
        "mutter"@, "cinnamon"@, "xfwm4"@, "openbox"@, "i3"@, "awesome"@, "bspwm"@, "dwm"@,
    ]
}

/// The first of `names` that occurs in `text`.
pub open spec fn first_contained(names: Seq<Seq<char>>, text: Seq<char>) -> Option<Seq<char>>
    decreases names.len(),
{
    if names.len() == 0 {
        None
    } else if contains_text(text, names[0]) {
        Some(names[0])
    } else {
        first_contained(names.drop_first(), text)
    }
}

/// The first known window manager whose name occurs in the lowercased
/// process list.
pub open spec fn detect_wm_spec(processes: Seq<char>) -> Option<Seq<char>> {
    first_contained(wm_names(), lowercase(processes))
}

fn wm_name_list() -> (r: Vec<Vec<char>>)
    ensures
        views(r@) == wm_names(),
{
    let mut r: Vec<Vec<char>> = Vec::new();
    r.push(chars_of("niri"));
    r.push(chars_of("hyprland"));
    r.push(chars_of("sway"));
    r.push(chars_of("river"));
    r.push(chars_of("wayfire"));
    r.push(chars_of("kwin_wayland"));
    r.push(chars_of("kwin_x11"));
    r.push(chars_of("gnome-shell"));
    r.push(chars_of("mutter"));
    r.push(chars_of("cinnamon"));
    r.push(chars_of("xfwm4"));
    r.push(chars_of("openbox"));
    r.push(chars_of("i3"));
    r.push(chars_of("awesome"));
    r.push(chars_of("bspwm"));
    r.push(chars_of("dwm"));
    assert(views(r@) =~= wm_names());
    r
}

/// The window manager named in the process list that `ps -e -o comm=`
/// printed.
pub fn detect_wm_process(processes: &str) -> (r: Option<String>)
    ensures
        opt_view(r) == detect_wm_spec(processes@),
{
    let lower = to_lowercase(processes);
    let text = chars_of(lower.as_str());
    let names = wm_name_list();
    let ghost nv = views(names@);
    let mut i: usize = 0;
    assert(nv.skip(0) =~= nv);
    while i < names.len()
        invariant
            i <= names.len(),
            nv == views(names@),
            nv == wm_names(),
            text@ == lowercase(processes@),
            detect_wm_spec(processes@) == first_contained(nv.skip(i as int), text@),
        decreases names.len() - i,
    {
        assert(nv.skip(i as int)[0] == names@[i as int]@);
        assert(nv.skip(i as int).drop_first() =~= nv.skip(i + 1));
        if find_text(&text, &names[i]) {
            return Some(string_from_chars(&names[i]));
        }
        i = i + 1;
    }
    None
}

/// `"{session type} / {desktop}"`, the desktop being the one the environment
/// names, else the window manager found, else `unknown`.
pub open spec fn session_summary_spec(
    xdg_session_type: Option<Seq<char>>,
    wayland_display: Option<Seq<char>>,
    display: Option<Seq<char>>,
    current_desktop: Option<Seq<char>>,
    desktop_session: Option<Seq<char>>,
    processes: Option<Seq<char>>,
) -> Seq<char> {
    let desktop = match desktop_name_spec(current_desktop, desktop_session) {
        Some(d) => d,
        None => match processes {
            Some(p) => match detect_wm_spec(p) {
                Some(w) => w,
                None => "unknown"@,
            },
            None => "unknown"@,
        },
    };
    session_type_spec(xdg_session_type, wayland_display, display) + " / "@ + desktop
}

/// The session line, from the environment variables `XDG_SESSION_TYPE`,
/// `WAYLAND_DISPLAY`, `DISPLAY`, `XDG_CURRENT_DESKTOP`, `DESKTOP_SESSION`, and
/// the process list (`processes`, read only when the environment names no
/// desktop).
pub fn session_summary(
    xdg_session_type: Option<String>,
    wayland_display: Option<String>,
    display: Option<String>,
    current_desktop: Option<String>,
    desktop_session: Option<String>,
    processes: Option<String>,
) -> (r: String)
    ensures
        r@ == session_summary_spec(
            opt_view(xdg_session_type),
            opt_view(wayland_display),
            opt_view(display),
            opt_view(current_desktop),
            opt_view(desktop_session),
            opt_view(processes),
        ),
{
    let mut out = match nonempty(&xdg_session_type) {
        Some(t) => t,
        None => if nonempty(&wayland_display).is_some() {
            chars_of("wayland")
        } else if nonempty(&display).is_some() {
            chars_of("x11")
        } else {
            chars_of("unknown")
        },
    };
    let desktop = match desktop_name(&current_desktop, &desktop_session) {
        Some(d) => chars_of(d.as_str()),
        None => match &processes {
            Some(p) => match detect_wm_process(p.as_str()) {
                Some(w) => chars_of(w.as_str()),
                None => chars_of("unknown"),
            },
            None => chars_of("unknown"),
        },
    };
    append_chars(&mut out, &chars_of(" / "));
    append_chars(&mut out, &desktop);
    string_from_chars(&out)
}

} // verus!
