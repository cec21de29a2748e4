//! Browser profiles and extensions: Firefox `profiles.ini` and
//! `extensions.json`, Chromium profile folders, `Preferences` and manifests.
use vstd::prelude::*;
use crate::browser::Engine;
use crate::json::{as_bool, as_i64, as_str, get_opt, json_get, json_string, json_string_spec, opt_get, Json};
use crate::path::{comps_lt, components, file_name, lemma_comps_lt_asym, lemma_comps_lt_irrefl, lemma_comps_lt_total, lemma_comps_lt_trans, path_file_name, path_less, Comp};
use crate::sort::{lemma_pair_lt_total_order, key_is, lemma_filter_elem, lemma_dedup_pairwise, law_dedup_no_adjacent_repeats, lemma_chars_lt_asym, lemma_chars_lt_irrefl, lemma_chars_lt_total, lemma_chars_lt_trans, lemma_dedup_sorted, total_order, chars_less, chars_lt, dedup_by, dedup_by_key, lemma_chars_lt_strict, lemma_dedup_map, lemma_filter_push, lemma_sorted_map, pair_lt, sort_by_key, sorted_by, stable_perm, strict, with_key};
use crate::path::{file_stem, join, path_file_stem, path_join, path_same};
use crate::util::CommandSpec;
use crate::text::{ascii_lower, ascii_lowercase, contains_text, find_text, utf8_len, utf8_len_capped, ascii_digit, chars_eq, chars_of, is_ascii_digit, to_lowercase, lowercase, has_prefix, lines, lines_of, slice_chars, starts_with, string_from_chars, trim, trim_chars, views};
use crate::util::{split_once, split_once_chars, string_views};

verus! {

/// Where a browser keeps its profiles, and in which format.
#[derive(Debug, Clone, PartialEq, Eq)]
pub enum ProfileBackend {
    Firefox(String),
    Chromium(String),
}

/// A browser profile.
#[derive(Debug, Clone, PartialEq, Eq)]
pub struct Profile {
    pub name: Option<String>,
    pub path: String,
    pub is_default: bool,
}

/// An installed extension.
#[derive(Debug, Clone, PartialEq, Eq)]
pub struct Extension {
    pub name: String,
    pub version: Option<String>,
    pub id: Option<String>,
    pub active: Option<bool>,
}

pub open spec fn opt_chars(o: Option<Vec<char>>) -> Option<Seq<char>> {
    match o {
        Some(s) => Some(s@),
        None => None,
    }
}

pub open spec fn opt_view(o: Option<String>) -> Option<Seq<char>> {
    match o {
        Some(s) => Some(s@),
        None => None,
    }
}

/// The value of a `Profile`.
pub struct ProfileView {
    pub name: Option<Seq<char>>,
    pub path: Seq<char>,
    pub is_default: bool,
}

impl View for Profile {
    type V = ProfileView;

    open spec fn view(&self) -> ProfileView {
        ProfileView { name: opt_view(self.name), path: self.path@, is_default: self.is_default }
    }
}

/// The value of an `Extension`.
pub struct ExtensionView {
    pub name: Seq<char>,
    pub version: Option<Seq<char>>,
    pub id: Option<Seq<char>>,
    pub active: Option<bool>,
}

impl View for Extension {
    type V = ExtensionView;

    open spec fn view(&self) -> ExtensionView {
        ExtensionView {
            name: self.name@,
            version: opt_view(self.version),
            id: opt_view(self.id),
            active: self.active,
        }
    }
}

pub open spec fn profile_views(v: Seq<Profile>) -> Seq<ProfileView> {
    v.map_values(|p: Profile| p@)
}

pub open spec fn extension_views(v: Seq<Extension>) -> Seq<ExtensionView> {
    v.map_values(|e: Extension| e@)
}

impl ProfileBackend {
    /// The profile root directory.
    pub fn root(&self) -> (r: &String)
        ensures
            r@ == match self {
                ProfileBackend::Firefox(root) => root@,
                ProfileBackend::Chromium(root) => root@,
            },
    {
        match self {
            ProfileBackend::Firefox(root) => root,
            ProfileBackend::Chromium(root) => root,
        }
    }

    /// Firefox profiles are Gecko's, Chromium ones Blink's.
    pub fn engine(&self) -> (r: Engine)
        ensures
            r == match self {
                ProfileBackend::Firefox(_) => Engine::Gecko,
                ProfileBackend::Chromium(_) => Engine::Blink,
            },
    {
        match self {
            ProfileBackend::Firefox(_) => Engine::Gecko,
            ProfileBackend::Chromium(_) => Engine::Blink,
        }
    }
}

/// Profiles are listed default first, then by path.
pub open spec fn profile_key(p: ProfileView) -> (bool, Seq<Comp>) {
    (!p.is_default, components(p.path))
}

/// `profile_key`, as a function value.
pub open spec fn pkey() -> spec_fn(ProfileView) -> (bool, Seq<Comp>) {
    |p: ProfileView| profile_key(p)
}

/// `profile_key` of a profile's value, as a function value.
pub open spec fn pkey_exec() -> spec_fn(Profile) -> (bool, Seq<Comp>) {
    |p: Profile| profile_key(p@)
}

/// `profile_order`, as a function value.
pub open spec fn porder() -> spec_fn((bool, Seq<Comp>), (bool, Seq<Comp>)) -> bool {
    |x: (bool, Seq<Comp>), y: (bool, Seq<Comp>)| profile_order(x, y)
}

pub open spec fn bool_lt(a: bool, b: bool) -> bool {
    !a && b
}

pub open spec fn profile_order(x: (bool, Seq<Comp>), y: (bool, Seq<Comp>)) -> bool {
    pair_lt(|a: bool, b: bool| bool_lt(a, b), |a: Seq<Comp>, b: Seq<Comp>| comps_lt(a, b), x, y)
}

proof fn lemma_profile_order_strict()
    ensures
        strict(porder()),
{
    assert forall|x: (bool, Seq<Comp>), y: (bool, Seq<Comp>)| profile_order(x, y) implies !profile_order(y, x) by {
        lemma_comps_lt_asym(x.1, y.1);
    }
    assert forall|x: (bool, Seq<Comp>)| !profile_order(x, x) by {
        lemma_comps_lt_irrefl(x.1);
    }
}

fn profile_less(a: &Profile, b: &Profile) -> (r: bool)
    ensures
        r == profile_order(profile_key(a@), profile_key(b@)),
{
    let ka = !a.is_default;
    let kb = !b.is_default;
    if !ka && kb {
        return true;
    }
    if ka != kb {
        return false;
    }
    let pa = chars_of(a.path.as_str());
    let pb = chars_of(b.path.as_str());
    path_less(&pa, &pb)
}

/// `with_key` commutes with taking views.
proof fn lemma_with_key_views(s: Seq<Profile>, k: (bool, Seq<Comp>))
    ensures
        with_key(profile_views(s), pkey(), k) == profile_views(
            with_key(s, pkey_exec(), k),
        ),
    decreases s.len(),
{
    reveal(Seq::filter);
    if s.len() > 0 {
        lemma_with_key_views(s.drop_last(), k);
        assert(profile_views(s).drop_last() =~= profile_views(s.drop_last()));
        let f = with_key(s.drop_last(), pkey_exec(), k);
        assert(profile_views(f.push(s.last())) =~= profile_views(f).push(s.last()@));
    }
}

/// Profiles sorted default first, then by path; among equal keys the order of
/// `v` is kept.
fn sort_profiles(v: Vec<Profile>) -> (r: Vec<Profile>)
    ensures
        sorted_by(profile_views(r@), pkey(), porder()),
        stable_perm(profile_views(v@), profile_views(r@), pkey()),
{
    proof {
        lemma_profile_order_strict();
    }
    let r = sort_by_key::<Profile, (bool, Seq<Comp>), _>(
        v,
        profile_less,
        Ghost(pkey_exec()),
        Ghost(porder()),
    );
    assert forall|k: (bool, Seq<Comp>)| #[trigger] with_key(profile_views(r@), pkey(), k)
        == with_key(profile_views(v@), pkey(), k) by {
        lemma_with_key_views(r@, k);
        lemma_with_key_views(v@, k);
        assert(with_key(r@, pkey_exec(), k) == with_key(v@, pkey_exec(), k));
    }
    assert forall|i: int| 0 <= i < profile_views(r@).len() - 1 implies !profile_order(
        profile_key(#[trigger] profile_views(r@)[i + 1]),
        profile_key(profile_views(r@)[i]),
    ) by {
        assert(!profile_order(profile_key(r@[i + 1]@), profile_key(r@[i]@)));
    }
    r
}

/// The Chromium profile a directory holds: `Default` or `Profile …`.
pub open spec fn chromium_profile_of(path: Seq<char>) -> Option<ProfileView> {
    match file_name(path) {
        Some(name) => if name == "Default"@ || starts_with(name, "Profile "@) {
            Some(ProfileView { name: Some(name), path, is_default: name == "Default"@ })
        } else {
            None
        },
        None => None,
    }
}

/// The Chromium profiles among the directories `dirs` of a profile root, in
/// the order of `dirs`.
pub open spec fn chromium_candidates(dirs: Seq<Seq<char>>) -> Seq<ProfileView> {
    dirs.filter_map(|d: Seq<char>| chromium_profile_of(d))
}

/// The profiles of a Chromium profile root, given the paths of the
/// directories in it: default first, then by path.
pub fn chromium_profiles(dirs: Vec<String>) -> (r: Vec<Profile>)
    ensures
        sorted_by(profile_views(r@), pkey(), porder()),
        stable_perm(chromium_candidates(string_views(dirs@)), profile_views(r@), pkey()),
{
    let ghost dv = string_views(dirs@);
    let mut cands: Vec<Profile> = Vec::new();
    let mut i: usize = 0;
    let default_name = chars_of("Default");
    let prefix = chars_of("Profile ");
    while i < dirs.len()
        invariant
            i <= dirs.len(),
            dv == string_views(dirs@),
            default_name@ == "Default"@,
            prefix@ == "Profile "@,
            profile_views(cands@) == dv.take(i as int).filter_map(|d: Seq<char>| chromium_profile_of(d)),
        decreases dirs.len() - i,
    {
        let p = chars_of(dirs[i].as_str());
        assert(dv.take(i + 1).drop_last() =~= dv.take(i as int));
        assert(dv.take(i + 1).last() == p@);
        let ghost before = profile_views(cands@);
        match path_file_name(&p) {
            Some(name) => {
                let is_default = chars_eq(&name, &default_name);
                if is_default || has_prefix(&name, &prefix) {
                    let prof = Profile {
                        name: Some(string_from_chars(&name)),
                        path: string_from_chars(&p),
                        is_default,
                    };
                    cands.push(prof);
                    assert(profile_views(cands@) =~= before.push(prof@));
                }
            },
            None => {},
        }
        i = i + 1;
    }
    assert(dv.take(dirs.len() as int) =~= dv);
    sort_profiles(cands)
}


/// The `Default=` value of an `[Install…]` section of `profiles.ini`, from
/// the lines `ls` onwards, `in_install` telling whether they are inside one.
pub open spec fn install_scan(ls: Seq<Seq<char>>, in_install: bool) -> Option<Seq<char>>
    decreases ls.len(),
{
    if ls.len() == 0 {
        None
    } else {
        let line = trim(ls[0]);
        if starts_with(line, "["@) {
            install_scan(ls.drop_first(), starts_with(line, "[Install"@))
        } else if in_install && starts_with(line, "Default="@) {
            Some(line.skip("Default="@.len() as int))
        } else {
            install_scan(ls.drop_first(), in_install)
        }
    }
}

/// The profile path that an install section of `profiles.ini` names as default.
pub open spec fn install_default_spec(ini: Seq<char>) -> Option<Seq<char>> {
    install_scan(lines(ini), false)
}

pub fn install_default_path(profiles_ini: &str) -> (r: Option<String>)
    ensures
        match r {
            Some(v) => install_default_spec(profiles_ini@) == Some(v@),
            None => install_default_spec(profiles_ini@) is None,
        },
{
    let data = chars_of(profiles_ini);
    let ls = lines_of(&data);
    let ghost lv = views(ls@);
    let open = chars_of("[");
    let install = chars_of("[Install");
    let default_key = chars_of("Default=");
    let mut in_install = false;
    let mut i: usize = 0;
    assert(lv.skip(0) =~= lv);
    while i < ls.len()
        invariant
            i <= ls.len(),
            lv == views(ls@),
            lv == lines(data@),
            data@ == profiles_ini@,
            open@ == "["@,
            install@ == "[Install"@,
            default_key@ == "Default="@,
            install_default_spec(profiles_ini@) == install_scan(lv.skip(i as int), in_install),
        decreases ls.len() - i,
    {
        let line = trim_chars(&ls[i]);
        assert(lv.skip(i as int)[0] == ls@[i as int]@);
        assert(lv.skip(i as int).drop_first() =~= lv.skip(i + 1));
        if has_prefix(&line, &open) {
            in_install = has_prefix(&line, &install);
        } else if in_install && has_prefix(&line, &default_key) {
            let v = slice_chars(&line, default_key.len(), line.len());
            assert(v@ =~= line@.skip(default_key.len() as int));
            return Some(string_from_chars(&v));
        }
        i = i + 1;
    }
    None
}

/// A `profiles.ini` section: its `key=value` lines in order.
pub type Section = Seq<(Seq<char>, Seq<char>)>;

/// The value of `key` in a section: the last line that sets it.
pub open spec fn section_get(sec: Section, key: Seq<char>) -> Option<Seq<char>>
    decreases sec.len(),
{
    if sec.len() == 0 {
        None
    } else if sec.last().0 == key {
        Some(sec.last().1)
    } else {
        section_get(sec.drop_last(), key)
    }
}

/// The profile a finished section describes, when it has a `Path`: relative
/// to `root` unless `IsRelative` is set to something other than `1`; default
/// when `Default=1` or when the install section names its path.
pub open spec fn section_profile(root: Seq<char>, install_default: Option<Seq<char>>, sec: Section) -> Option<ProfileView> {
    match section_get(sec, "Path"@) {
        Some(path) => {
            let is_relative = match section_get(sec, "IsRelative"@) {
                Some(v) => v == "1"@,
                None => true,
            };
            Some(ProfileView {
                name: section_get(sec, "Name"@),
                path: if is_relative { join(root, path) } else { path },
                is_default: section_get(sec, "Default"@) == Some("1"@) || install_default == Some(path),
            })
        },
        None => None,
    }
}

/// Reading `profiles.ini` line by line: the profiles of the sections closed
/// so far, and the lines of the open section.
pub open spec fn ini_run(root: Seq<char>, install_default: Option<Seq<char>>, ls: Seq<Seq<char>>) -> (Seq<ProfileView>, Section)
    decreases ls.len(),
{
    if ls.len() == 0 {
        (Seq::<ProfileView>::empty(), Seq::<(Seq<char>, Seq<char>)>::empty())
    } else {
        let (ps, sec) = ini_run(root, install_default, ls.drop_last());
        let line = trim(ls.last());
        if starts_with(line, "["@) || line.len() == 0 {
            let ps2 = match section_profile(root, install_default, sec) {
                Some(p) => ps.push(p),
                None => ps,
            };
            (ps2, Seq::<(Seq<char>, Seq<char>)>::empty())
        } else {
            match split_once(line, '=') {
                Some(kv) => (ps, sec.push(kv)),
                None => (ps, sec),
            }
        }
    }
}

/// The profiles that `profiles.ini` (text `data`, in directory `root`)
/// declares, in file order, before checking that their paths exist.
pub open spec fn firefox_candidates(root: Seq<char>, data: Seq<char>) -> Seq<ProfileView> {
    ini_run(root, install_default_spec(data), lines(data).push(Seq::<char>::empty())).0
}

fn section_lookup(sec: &Vec<(Vec<char>, Vec<char>)>, key: &Vec<char>) -> (r: Option<Vec<char>>)
    ensures
        match r {
            Some(v) => section_get(sec@.map_values(|p: (Vec<char>, Vec<char>)| (p.0@, p.1@)), key@) == Some(v@),
            None => section_get(sec@.map_values(|p: (Vec<char>, Vec<char>)| (p.0@, p.1@)), key@) is None,
        },
{
    let ghost sv = sec@.map_values(|p: (Vec<char>, Vec<char>)| (p.0@, p.1@));
    let mut k: usize = sec.len();
    assert(sv.take(k as int) =~= sv);
    while k > 0
        invariant
            k <= sec.len(),
            sv == sec@.map_values(|p: (Vec<char>, Vec<char>)| (p.0@, p.1@)),
            section_get(sv, key@) == section_get(sv.take(k as int), key@),
        decreases k,
    {
        assert(sv.take(k as int).last() == sv[k - 1]);
        if chars_eq(&sec[k - 1].0, key) {
            return Some(slice_chars(&sec[k - 1].1, 0, sec[k - 1].1.len()));
        }
        assert(sv.take(k as int).drop_last() =~= sv.take(k - 1));
        k = k - 1;
    }
    None
}

fn section_profile_exec(
    root: &Vec<char>,
    install_default: &Option<Vec<char>>,
    sec: &Vec<(Vec<char>, Vec<char>)>,
) -> (r: Option<Profile>)
    ensures
        match r {
            Some(p) => section_profile(root@, opt_chars(*install_default),
                sec@.map_values(|p: (Vec<char>, Vec<char>)| (p.0@, p.1@))) == Some(p@),
            None => section_profile(root@, opt_chars(*install_default),
                sec@.map_values(|p: (Vec<char>, Vec<char>)| (p.0@, p.1@))) is None,
        },
{
    let path_key = chars_of("Path");
    let rel_key = chars_of("IsRelative");
    let name_key = chars_of("Name");
    let default_key = chars_of("Default");
    let one = chars_of("1");
    match section_lookup(sec, &path_key) {
        None => None,
        Some(path) => {
            let is_relative = match section_lookup(sec, &rel_key) {
                Some(v) => chars_eq(&v, &one),
                None => true,
            };
            let full = if is_relative { path_join(root, &path) } else { slice_chars(&path, 0, path.len()) };
            assert(path@.subrange(0, path.len() as int) =~= path@);
            let marked = match section_lookup(sec, &default_key) {
                Some(v) => chars_eq(&v, &one),
                None => false,
            };
            let named_default = match install_default {
                Some(d) => chars_eq(d, &path),
                None => false,
            };
            let name = match section_lookup(sec, &name_key) {
                Some(n) => Some(string_from_chars(&n)),
                None => None,
            };
            Some(Profile { name, path: string_from_chars(&full), is_default: marked || named_default })
        },
    }
}

/// The profiles declared in `profiles.ini`, whose text is `data`, for the
/// profile root `root`, in file order (whether their paths exist is not
/// checked here).
pub fn firefox_profile_candidates(root: &str, data: &str) -> (r: Vec<Profile>)
    ensures
        profile_views(r@) == firefox_candidates(root@, data@),
{
    let root_chars = chars_of(root);
    let d = chars_of(data);
    let install_default = match install_default_path(data) {
        Some(v) => Some(chars_of(v.as_str())),
        None => None,
    };
    let ghost idv: Option<Seq<char>> = opt_chars(install_default);
    assert(idv == install_default_spec(data@));
    let mut ls = lines_of(&d);
    let ghost lv0 = views(ls@);
    ls.push(Vec::new());
    let ghost lv = views(ls@);
    assert(lv =~= lv0.push(Seq::<char>::empty()));
    let open = chars_of("[");
    let mut profiles: Vec<Profile> = Vec::new();
    let mut section: Vec<(Vec<char>, Vec<char>)> = Vec::new();
    let mut i: usize = 0;
    assert(lv.take(0) =~= Seq::<Seq<char>>::empty());
    while i < ls.len()
        invariant
            i <= ls.len(),
            lv == views(ls@),
            root_chars@ == root@,
            open@ == "["@,
            idv == opt_chars(install_default),
            ini_run(root@, idv, lv.take(i as int)) == (profile_views(profiles@),
                section@.map_values(|p: (Vec<char>, Vec<char>)| (p.0@, p.1@))),
        decreases ls.len() - i,
    {
        let line = trim_chars(&ls[i]);
        assert(lv.take(i + 1).drop_last() =~= lv.take(i as int));
        assert(lv.take(i + 1).last() == ls@[i as int]@);
        let ghost pv = profile_views(profiles@);
        if has_prefix(&line, &open) || line.len() == 0 {
            match section_profile_exec(&root_chars, &install_default, &section) {
                Some(p) => {
                    profiles.push(p);
                    assert(profile_views(profiles@) =~= pv.push(p@));
                },
                None => {},
            }
            section = Vec::new();
            assert(section@.map_values(|p: (Vec<char>, Vec<char>)| (p.0@, p.1@)) =~= Seq::<(Seq<char>, Seq<char>)>::empty());
        } else {
            match split_once_chars(&line, '=') {
                Some(kv) => {
                    let ghost sv = section@.map_values(|p: (Vec<char>, Vec<char>)| (p.0@, p.1@));
                    let ghost kvv = (kv.0@, kv.1@);
                    section.push(kv);
                    assert(section@.map_values(|p: (Vec<char>, Vec<char>)| (p.0@, p.1@)) =~= sv.push(kvv));
                },
                None => {},
            }
        }
        i = i + 1;
    }
    assert(lv.take(ls.len() as int) =~= lv);
    assert(lv == lines(data@).push(Seq::<char>::empty()));
    profiles
}

/// Whether a candidate profile's path exists.
pub open spec fn present() -> spec_fn((Profile, bool)) -> bool {
    |c: (Profile, bool)| c.1
}

/// The profiles of a Firefox root: the declared ones whose paths exist
/// (`candidates` pairs each with whether it exists), default first, then by path.
pub fn firefox_profiles(candidates: Vec<(Profile, bool)>) -> (r: Vec<Profile>)
    ensures
        sorted_by(profile_views(r@), pkey(), porder()),
        stable_perm(
            profile_views(candidates@.filter(present()).map_values(|c: (Profile, bool)| c.0)),
            profile_views(r@),
            pkey(),
        ),
{
    let ghost cv = candidates@;
    let mut kept: Vec<Profile> = Vec::new();
    let mut input = candidates;
    let n = input.len();
    let mut i: usize = 0;
    reveal(Seq::filter);
    assert(cv.skip(0) =~= cv);
    assert(cv.take(0).filter(present()).map_values(|c: (Profile, bool)| c.0) =~= kept@);
    while i < n
        invariant
            n == cv.len(),
            i <= n,
            input@ == cv.skip(i as int),
            kept@ == cv.take(i as int).filter(present()).map_values(|c: (Profile, bool)| c.0),
        decreases n - i,
    {
        let (p, exists) = input.remove(0);
        assert((p, exists) == cv[i as int]);
        assert(input@ =~= cv.skip(i + 1));
        assert(cv.take(i + 1).drop_last() =~= cv.take(i as int));
        let ghost f = cv.take(i as int).filter(present());
        assert(cv.take(i + 1) =~= cv.take(i as int).push((p, exists)));
        proof {
            lemma_filter_push(cv.take(i as int), (p, exists), present());
        }
        if exists {
            kept.push(p);
            assert(f.push((p, exists)).map_values(|c: (Profile, bool)| c.0) =~= f.map_values(|c: (Profile, bool)| c.0).push(p));
        }
        i = i + 1;
    }
    assert(cv.take(n as int) =~= cv);
    sort_profiles(kept)
}

/// The first default profile, else the first profile.
pub open spec fn first_default(ps: Seq<ProfileView>) -> Option<ProfileView> {
    if exists|i: int| 0 <= i < ps.len() && ps[i].is_default {
        let i = choose|i: int| 0 <= i < ps.len() && ps[i].is_default && forall|j: int| 0 <= j < i ==> !ps[j].is_default;
        Some(ps[i])
    } else if ps.len() > 0 {
        Some(ps[0])
    } else {
        None
    }
}

/// The profile named `name`, else the first profile.
pub open spec fn named_or_first(ps: Seq<ProfileView>, name: Seq<char>) -> Option<ProfileView> {
    if exists|i: int| 0 <= i < ps.len() && ps[i].name == Some(name) {
        let i = choose|i: int| 0 <= i < ps.len() && ps[i].name == Some(name) && forall|j: int| 0 <= j < i ==> ps[j].name != Some(name);
        Some(ps[i])
    } else if ps.len() > 0 {
        Some(ps[0])
    } else {
        None
    }
}

/// The profile that Chromium's `Local State` records as last used.
pub open spec fn last_used(local_state: Option<Json>) -> Option<Seq<char>> {
    as_str(opt_get(opt_get(local_state, "profile"@), "last_used"@))
}

/// The active profile among `profiles`: for Firefox the first default one,
/// else the first; for Chromium the last used one, else the first.
pub open spec fn active_profile_spec(backend: ProfileBackend, profiles: Seq<ProfileView>, local_state: Option<Json>) -> Option<ProfileView> {
    match backend {
        ProfileBackend::Firefox(_) => first_default(profiles),
        ProfileBackend::Chromium(_) => chromium_active_spec(profiles, local_state),
    }
}

/// Chromium's active profile: the one `Local State` records as last used,
/// else the first.
pub open spec fn chromium_active_spec(profiles: Seq<ProfileView>, local_state: Option<Json>) -> Option<ProfileView> {
    match last_used(local_state) {
        Some(name) => named_or_first(profiles, name),
        None => if profiles.len() > 0 { Some(profiles[0]) } else { None },
    }
}

fn first_index_where_default(ps: &Vec<Profile>) -> (r: Option<usize>)
    ensures
        match r {
            Some(i) => i < ps.len() && ps@[i as int].is_default && forall|j: int| 0 <= j < i ==> !ps@[j].is_default,
            None => forall|j: int| 0 <= j < ps.len() ==> !ps@[j].is_default,
        },
{
    let mut i: usize = 0;
    while i < ps.len()
        invariant
            i <= ps.len(),
            forall|j: int| 0 <= j < i ==> !ps@[j].is_default,
        decreases ps.len() - i,
    {
        if ps[i].is_default {
            return Some(i);
        }
        i = i + 1;
    }
    None
}

fn first_index_named(ps: &Vec<Profile>, name: &Vec<char>) -> (r: Option<usize>)
    ensures
        match r {
            Some(i) => i < ps.len() && opt_view(ps@[i as int].name) == Some(name@)
                && forall|j: int| 0 <= j < i ==> opt_view(ps@[j].name) != Some(name@),
            None => forall|j: int| 0 <= j < ps.len() ==> opt_view(ps@[j].name) != Some(name@),
        },
{
    let mut i: usize = 0;
    while i < ps.len()
        invariant
            i <= ps.len(),
            forall|j: int| 0 <= j < i ==> opt_view(ps@[j].name) != Some(name@),
        decreases ps.len() - i,
    {
        match &ps[i].name {
            Some(n) => {
                let nc = chars_of(n.as_str());
                if chars_eq(&nc, name) {
                    return Some(i);
                }
            },
            None => {},
        }
        i = i + 1;
    }
    None
}

/// Chromium's active profile among `profiles` (as `chromium_profiles` lists
/// them): the one that `local_state`, the parsed `Local State` file, records
/// as last used, else the first.
pub fn chromium_active_profile(profiles: Vec<Profile>, local_state: Option<&Json>) -> (r: Option<Profile>)
    ensures
        match r {
            Some(p) => chromium_active_spec(profile_views(profiles@), match local_state { Some(j) => Some(*j), None => None }) == Some(p@),
            None => chromium_active_spec(profile_views(profiles@), match local_state { Some(j) => Some(*j), None => None }) is None,
        },
{
    let ghost pv = profile_views(profiles@);
    let mut ps = profiles;
    let lu = get_opt(get_opt(local_state, "profile"), "last_used");
    let name = match lu {
        Some(v) => match v.as_str() {
            Some(s) => Some(chars_of(s.as_str())),
            None => None,
        },
        None => None,
    };
    match name {
        Some(n) => {
            match first_index_named(&ps, &n) {
                Some(i) => {
                    assert(pv[i as int].name == Some(n@));
                    let ghost c = choose|k: int| 0 <= k < pv.len() && pv[k].name == Some(n@) && forall|j: int| 0 <= j < k ==> pv[j].name != Some(n@);
                    assert(c == i as int) by {
                        if c < i { assert(pv[c].name != Some(n@)); }
                        if c > i { assert(pv[i as int].name != Some(n@)); }
                    }
                    Some(ps.remove(i))
                },
                None => {
                    assert(!(exists|k: int| 0 <= k < pv.len() && pv[k].name == Some(n@)));
                    if ps.len() > 0 { Some(ps.remove(0)) } else { None }
                },
            }
        },
        None => if ps.len() > 0 { Some(ps.remove(0)) } else { None },
    }
}

impl ProfileBackend {
    /// The active profile, chosen among the backend's `profiles` (as listed
    /// by `firefox_profiles` or `chromium_profiles`); `local_state` is
    /// Chromium's parsed `Local State` file, when it could be read.
    pub fn active_profile(&self, profiles: Vec<Profile>, local_state: Option<&Json>) -> (r: Option<Profile>)
        ensures
            match r {
                Some(p) => active_profile_spec(*self, profile_views(profiles@),
                    match local_state { Some(j) => Some(*j), None => None }) == Some(p@),
                None => active_profile_spec(*self, profile_views(profiles@),
                    match local_state { Some(j) => Some(*j), None => None }) is None,
            },
    {
        let ghost pv = profile_views(profiles@);
        let mut ps = profiles;
        match self {
            ProfileBackend::Firefox(_) => {
                match first_index_where_default(&ps) {
                    Some(i) => {
                        assert(pv[i as int].is_default);
                        let ghost c = choose|k: int| 0 <= k < pv.len() && pv[k].is_default && forall|j: int| 0 <= j < k ==> !pv[j].is_default;
                        assert(c == i as int) by {
                            if c < i { assert(!pv[c].is_default); }
                            if c > i { assert(!pv[i as int].is_default); }
                        }
                        Some(ps.remove(i))
                    },
                    None => {
                        assert(!(exists|k: int| 0 <= k < pv.len() && pv[k].is_default));
                        if ps.len() > 0 { Some(ps.remove(0)) } else { None }
                    },
                }
            },
            ProfileBackend::Chromium(_) => chromium_active_profile(ps, local_state),
        }
    }
}


/// Extensions are listed by lowercased name.
pub open spec fn ekey() -> spec_fn(ExtensionView) -> Seq<char> {
    |e: ExtensionView| lowercase(e.name)
}

pub open spec fn text_order() -> spec_fn(Seq<char>, Seq<char>) -> bool {
    |a: Seq<char>, b: Seq<char>| chars_lt(a, b)
}

/// Two listed extensions are the same entry when name and id agree.
pub open spec fn entry_key() -> spec_fn(ExtensionView) -> (Seq<char>, Option<Seq<char>>) {
    |e: ExtensionView| (e.name, e.id)
}

/// `r` is `exts` sorted stably by lowercased name, with consecutive entries
/// of equal name and id reduced to the first.
pub open spec fn sorted_extensions(exts: Seq<ExtensionView>, r: Seq<ExtensionView>) -> bool {
    exists|s: Seq<ExtensionView>|
        sorted_by(s, ekey(), text_order()) && stable_perm(exts, s, ekey()) && r == dedup_by_key(s, entry_key())
}

fn extension_less(a: &Extension, b: &Extension) -> (r: bool)
    ensures
        r == chars_lt(lowercase(a.name@), lowercase(b.name@)),
{
    let la = to_lowercase(a.name.as_str());
    let lb = to_lowercase(b.name.as_str());
    let ca = chars_of(la.as_str());
    let cb = chars_of(lb.as_str());
    chars_less(&ca, &cb)
}

fn opt_string_eq(a: &Option<String>, b: &Option<String>) -> (r: bool)
    ensures
        r == (opt_view(*a) == opt_view(*b)),
{
    match (a, b) {
        (Some(x), Some(y)) => {
            let cx = chars_of(x.as_str());
            let cy = chars_of(y.as_str());
            chars_eq(&cx, &cy)
        },
        (None, None) => true,
        _ => false,
    }
}

fn same_entry(a: &Extension, b: &Extension) -> (r: bool)
    ensures
        r == ((a@.name, a@.id) == (b@.name, b@.id)),
{
    let na = chars_of(a.name.as_str());
    let nb = chars_of(b.name.as_str());
    chars_eq(&na, &nb) && opt_string_eq(&a.id, &b.id)
}

proof fn lemma_text_order_strict()
    ensures
        strict(text_order()),
{
    lemma_chars_lt_strict();
}

pub open spec fn ext_view_fn() -> spec_fn(Extension) -> ExtensionView {
    |e: Extension| e@
}

/// Extensions sorted by lowercased name, consecutive duplicates (same name
/// and id) dropped.
pub fn sort_extensions(extensions: Vec<Extension>) -> (r: Vec<Extension>)
    ensures
        sorted_extensions(extension_views(extensions@), extension_views(r@)),
{
    proof {
        lemma_text_order_strict();
    }
    let ghost input = extensions@;
    let sorted = sort_by_key::<Extension, Seq<char>, _>(
        extensions,
        extension_less,
        Ghost(|e: Extension| ekey()(ext_view_fn()(e))),
        Ghost(text_order()),
    );
    let ghost s = sorted@;
    let r = dedup_by::<Extension, (Seq<char>, Option<Seq<char>>), _>(
        sorted,
        same_entry,
        Ghost(|e: Extension| entry_key()(ext_view_fn()(e))),
    );
    proof {
        lemma_sorted_map(input, s, ext_view_fn(), ekey(), text_order());
        lemma_dedup_map(s, ext_view_fn(), entry_key());
        assert(extension_views(input) =~= input.map_values(ext_view_fn()));
        assert(extension_views(r@) =~= r@.map_values(ext_view_fn()));
        let sv = s.map_values(ext_view_fn());
        assert(sorted_by(sv, ekey(), text_order()) && stable_perm(extension_views(input), sv, ekey())
            && extension_views(r@) == dedup_by_key(sv, entry_key()));
    }
    r
}


/// `json_string_spec` for an optional value.
pub open spec fn opt_json_string(j: Option<Json>, key: Seq<char>) -> Option<Seq<char>> {
    match j {
        Some(v) => json_string_spec(v, key),
        None => None,
    }
}

/// The extension an entry of Firefox's `addons` list describes: only entries
/// of type `extension` that are neither hidden nor marked invisible.
pub open spec fn addon_extension(a: Json) -> Option<ExtensionView> {
    if as_str(json_get(a, "type"@)) != Some("extension"@) {
        None
    } else if as_bool(json_get(a, "hidden"@)) == Some(true) {
        None
    } else if as_bool(json_get(a, "visible"@)) == Some(false) {
        None
    } else {
        Some(ExtensionView {
            name: match opt_json_string(json_get(a, "defaultLocale"@), "name"@) {
                Some(n) => n,
                None => match json_string_spec(a, "id"@) {
                    Some(i) => i,
                    None => "Unknown Firefox extension"@,
                },
            },
            version: json_string_spec(a, "version"@),
            id: json_string_spec(a, "id"@),
            active: as_bool(json_get(a, "active"@)),
        })
    }
}

/// The extensions listed in one profile's `extensions.json`.
pub open spec fn firefox_doc_extensions(doc: Option<Json>) -> Seq<ExtensionView> {
    match opt_get(doc, "addons"@) {
        Some(Json::Array(items)) => items@.filter_map(|a: Json| addon_extension(a)),
        _ => Seq::<ExtensionView>::empty(),
    }
}

/// The sequences of `ss` one after another.
pub open spec fn concat_all<A>(ss: Seq<Seq<A>>) -> Seq<A>
    decreases ss.len(),
{
    if ss.len() == 0 {
        Seq::<A>::empty()
    } else {
        concat_all(ss.drop_last()) + ss.last()
    }
}

fn json_str_is(j: Option<&Json>, text: &str) -> (r: bool)
    ensures
        r == (as_str(match j { Some(x) => Some(*x), None => None }) == Some(text@)),
{
    match j {
        Some(v) => match v.as_str() {
            Some(s) => {
                let a = chars_of(s.as_str());
                let b = chars_of(text);
                chars_eq(&a, &b)
            },
            None => false,
        },
        None => false,
    }
}

fn json_bool(j: Option<&Json>) -> (r: Option<bool>)
    ensures
        r == as_bool(match j { Some(x) => Some(*x), None => None }),
{
    match j {
        Some(v) => v.as_bool(),
        None => None,
    }
}

fn addon_extension_exec(a: &Json) -> (r: Option<Extension>)
    ensures
        match r {
            Some(e) => addon_extension(*a) == Some(e@),
            None => addon_extension(*a) is None,
        },
{
    if !json_str_is(a.get("type"), "extension") {
        return None;
    }
    if json_bool(a.get("hidden")) == Some(true) {
        return None;
    }
    if json_bool(a.get("visible")) == Some(false) {
        return None;
    }
    let id = json_string(a, "id");
    let name = match a.get("defaultLocale") {
        Some(locale) => json_string(locale, "name"),
        None => None,
    };
    let name = match name {
        Some(n) => n,
        None => match json_string(a, "id") {
            Some(i) => i,
            None => string_from_chars(&chars_of("Unknown Firefox extension")),
        },
    };
    let version = json_string(a, "version");
    let active = json_bool(a.get("active"));
    Some(Extension { name, version, id, active })
}

proof fn lemma_filter_map_push<A, B>(s: Seq<A>, x: A, f: spec_fn(A) -> Option<B>)
    ensures
        s.push(x).filter_map(f) == match f(x) {
            Some(y) => s.filter_map(f).push(y),
            None => s.filter_map(f),
        },
{
    assert(s.push(x).drop_last() =~= s);
    assert(s.push(x).last() == x);
    match f(x) {
        Some(y) => {
            assert(s.filter_map(f) + seq![y] =~= s.filter_map(f).push(y));
        },
        None => {},
    }
}

/// Appends the extensions of one `extensions.json` to `out`.
fn push_firefox_doc(doc: &Option<Json>, out: &mut Vec<Extension>)
    ensures
        extension_views(final(out)@) == extension_views(old(out)@) + firefox_doc_extensions(*doc),
{
    let ghost base = extension_views(out@);
    let addons = match doc {
        Some(j) => j.get("addons"),
        None => None,
    };
    match addons {
        Some(Json::Array(items)) => {
            let mut k: usize = 0;
            assert(items@.take(0).filter_map(|a: Json| addon_extension(a)) =~= Seq::<ExtensionView>::empty());
            assert(base + Seq::<ExtensionView>::empty() =~= base);
            while k < items.len()
                invariant
                    k <= items.len(),
                    extension_views(out@) == base + items@.take(k as int).filter_map(|a: Json| addon_extension(a)),
                decreases items.len() - k,
            {
                let ghost before = extension_views(out@);
                assert(items@.take(k + 1) =~= items@.take(k as int).push(items@[k as int]));
                proof {
                    lemma_filter_map_push(items@.take(k as int), items@[k as int], |a: Json| addon_extension(a));
                }
                match addon_extension_exec(&items[k]) {
                    Some(e) => {
                        out.push(e);
                        assert(extension_views(out@) =~= before.push(e@));
                    },
                    None => {},
                }
                k = k + 1;
            }
            assert(items@.take(items.len() as int) =~= items@);
        },
        _ => {
            assert(firefox_doc_extensions(*doc) =~= Seq::<ExtensionView>::empty());
            assert(base + Seq::<ExtensionView>::empty() =~= base);
        },
    }
}

/// The extensions of a Firefox profile set, from each profile's parsed
/// `extensions.json` (`None` when it could not be read or parsed).
pub fn firefox_extensions(documents: &Vec<Option<Json>>) -> (r: Vec<Extension>)
    ensures
        sorted_extensions(
            concat_all(documents@.map_values(|d: Option<Json>| firefox_doc_extensions(d))),
            extension_views(r@),
        ),
{
    let ghost dv = documents@.map_values(|d: Option<Json>| firefox_doc_extensions(d));
    let mut all: Vec<Extension> = Vec::new();
    let mut i: usize = 0;
    assert(dv.take(0) =~= Seq::<Seq<ExtensionView>>::empty());
    assert(extension_views(all@) =~= Seq::<ExtensionView>::empty());
    while i < documents.len()
        invariant
            i <= documents.len(),
            dv == documents@.map_values(|d: Option<Json>| firefox_doc_extensions(d)),
            extension_views(all@) == concat_all(dv.take(i as int)),
        decreases documents.len() - i,
    {
        push_firefox_doc(&documents[i], &mut all);
        assert(dv.take(i + 1).drop_last() =~= dv.take(i as int));
        i = i + 1;
    }
    assert(dv.take(documents.len() as int) =~= dv);
    sort_extensions(all)
}


/// One version directory of a Chromium extension, with its parsed extension
/// description file (`None` when it could not be read or parsed).
pub struct VersionDir {
    pub path: String,
    pub manifest: Option<Json>,
}

/// The directory of one Chromium extension, named by its id, with the
/// version directories in it.
pub struct ChromiumExtensionDir {
    pub path: String,
    pub versions: Vec<VersionDir>,
}

/// What a Chromium profile holds about its extensions: the parsed
/// `Preferences` file and the extension directories.
pub struct ChromiumProfileData {
    pub preferences: Option<Json>,
    pub extension_dirs: Vec<ChromiumExtensionDir>,
}

/// An entry of `extensions.settings` in `Preferences`: state 0 is disabled,
/// 1 enabled; other states say nothing.
pub open spec fn setting_state(f: (String, Json)) -> Option<(Seq<char>, bool)> {
    match as_i64(json_get(f.1, "state"@)) {
        Some(n) => if n == 0 {
            Some((f.0@, false))
        } else if n == 1 {
            Some((f.0@, true))
        } else {
            None
        },
        None => None,
    }
}

/// The enabled state of each extension that `Preferences` records.
pub open spec fn chromium_states(prefs: Option<Json>) -> Seq<(Seq<char>, bool)> {
    match opt_get(opt_get(prefs, "extensions"@), "settings"@) {
        Some(Json::Object(fields)) => fields@.filter_map(|f: (String, Json)| setting_state(f)),
        _ => Seq::<(Seq<char>, bool)>::empty(),
    }
}

/// The state recorded for `id`.
pub open spec fn state_of(states: Seq<(Seq<char>, bool)>, id: Seq<char>) -> Option<bool>
    decreases states.len(),
{
    if states.len() == 0 {
        None
    } else if states[0].0 == id {
        Some(states[0].1)
    } else {
        state_of(states.drop_first(), id)
    }
}

fn chromium_extension_states(prefs: &Option<Json>) -> (r: Vec<(Vec<char>, bool)>)
    ensures
        r@.map_values(|p: (Vec<char>, bool)| (p.0@, p.1)) == chromium_states(*prefs),
{
    let settings = get_opt(get_opt(match prefs { Some(j) => Some(j), None => None }, "extensions"), "settings");
    let mut r: Vec<(Vec<char>, bool)> = Vec::new();
    match settings {
        Some(Json::Object(fields)) => {
            let mut k: usize = 0;
            assert(fields@.take(0).filter_map(|f: (String, Json)| setting_state(f)) =~= Seq::<(Seq<char>, bool)>::empty());
            while k < fields.len()
                invariant
                    k <= fields.len(),
                    r@.map_values(|p: (Vec<char>, bool)| (p.0@, p.1)) == fields@.take(k as int).filter_map(|f: (String, Json)| setting_state(f)),
                decreases fields.len() - k,
            {
                let ghost before = r@.map_values(|p: (Vec<char>, bool)| (p.0@, p.1));
                assert(fields@.take(k + 1) =~= fields@.take(k as int).push(fields@[k as int]));
                proof {
                    lemma_filter_map_push(fields@.take(k as int), fields@[k as int], |f: (String, Json)| setting_state(f));
                }
                let state = match fields[k].1.get("state") {
                    Some(v) => v.as_i64(),
                    None => None,
                };
                match state {
                    Some(n) => {
                        if n == 0 || n == 1 {
                            let id = chars_of(fields[k].0.as_str());
                            let entry = (id, n == 1);
                            r.push(entry);
                            assert(r@.map_values(|p: (Vec<char>, bool)| (p.0@, p.1)) =~= before.push((entry.0@, entry.1)));
                        }
                    },
                    None => {},
                }
                k = k + 1;
            }
            assert(fields@.take(fields.len() as int) =~= fields@);
        },
        _ => {
            assert(r@.map_values(|p: (Vec<char>, bool)| (p.0@, p.1)) =~= Seq::<(Seq<char>, bool)>::empty());
        },
    }
    r
}

fn lookup_state(states: &Vec<(Vec<char>, bool)>, id: &Vec<char>) -> (r: Option<bool>)
    ensures
        r == state_of(states@.map_values(|p: (Vec<char>, bool)| (p.0@, p.1)), id@),
{
    let ghost sv = states@.map_values(|p: (Vec<char>, bool)| (p.0@, p.1));
    let mut i: usize = 0;
    assert(sv.skip(0) =~= sv);
    while i < states.len()
        invariant
            i <= states.len(),
            sv == states@.map_values(|p: (Vec<char>, bool)| (p.0@, p.1)),
            state_of(sv, id@) == state_of(sv.skip(i as int), id@),
        decreases states.len() - i,
    {
        assert(sv.skip(i as int)[0] == sv[i as int]);
        if chars_eq(&states[i].0, id) {
            return Some(states[i].1);
        }
        assert(sv.skip(i as int).drop_first() =~= sv.skip(i + 1));
        i = i + 1;
    }
    None
}

/// `s` split at every character that is not an ASCII digit.
pub open spec fn digit_runs(s: Seq<char>) -> Seq<Seq<char>>
    decreases s.len(),
{
    if s.len() == 0 {
        seq![Seq::<char>::empty()]
    } else {
        let prev = digit_runs(s.drop_last());
        if !is_ascii_digit(s.last()) {
            prev.push(Seq::<char>::empty())
        } else {
            prev.update(prev.len() - 1, prev.last().push(s.last()))
        }
    }
}

/// The number that a string of ASCII digits denotes.
pub open spec fn decimal(d: Seq<char>) -> nat
    decreases d.len(),
{
    if d.len() == 0 {
        0
    } else {
        decimal(d.drop_last()) * 10 + ((d.last() as u32) - ('0' as u32)) as nat
    }
}

/// A run of digits as a `u64`, when it is non-empty and fits.
pub open spec fn run_value(r: Seq<char>) -> Option<u64> {
    if r.len() > 0 && decimal(r) <= u64::MAX {
        Some(decimal(r) as u64)
    } else {
        None
    }
}

/// The numbers in a version string, such as `[10, 0, 0]` for `10.0.0`.
pub open spec fn version_numbers(v: Seq<char>) -> Seq<u64> {
    digit_runs(v).filter_map(|r: Seq<char>| run_value(r))
}


proof fn lemma_decimal_mono(d: Seq<char>, k: int)
    requires
        0 <= k <= d.len(),
        forall|i: int| 0 <= i < d.len() ==> is_ascii_digit(#[trigger] d[i]),
    ensures
        decimal(d.take(k)) <= decimal(d),
    decreases d.len() - k,
{
    if k < d.len() {
        lemma_decimal_mono(d, k + 1);
        assert(d.take(k + 1).drop_last() =~= d.take(k));
        let x = decimal(d.take(k));
        let dig = ((d[k] as u32) - ('0' as u32)) as nat;
        assert(x <= x * 10 + dig) by (nonlinear_arith);
    } else {
        assert(d.take(k) =~= d);
    }
}

fn parse_run(d: &Vec<char>) -> (r: Option<u64>)
    requires
        forall|i: int| 0 <= i < d.len() ==> is_ascii_digit(#[trigger] d@[i]),
    ensures
        r == run_value(d@),
{
    if d.len() == 0 {
        return None;
    }
    let mut v: u64 = 0;
    let mut i: usize = 0;
    assert(d@.take(0) =~= Seq::<char>::empty());
    while i < d.len()
        invariant
            i <= d.len(),
            v == decimal(d@.take(i as int)),
            forall|j: int| 0 <= j < d.len() ==> is_ascii_digit(#[trigger] d@[j]),
        decreases d.len() - i,
    {
        let dig: u64 = ((d[i] as u32) - ('0' as u32)) as u64;
        assert(d@.take(i + 1).drop_last() =~= d@.take(i as int));
        assert(dig <= 9);
        if v > (u64::MAX - dig) / 10 {
            assert(v * 10 + dig > u64::MAX) by (nonlinear_arith)
                requires
                    v > (u64::MAX - dig) / 10,
                    dig <= 9,
            ;
            proof {
                lemma_decimal_mono(d@, i + 1);
            }
            return None;
        }
        assert(v * 10 + dig <= u64::MAX) by (nonlinear_arith)
            requires
                v <= (u64::MAX - dig) / 10,
                dig <= 9,
        ;
        v = v * 10 + dig;
        i = i + 1;
    }
    assert(d@.take(d.len() as int) =~= d@);
    Some(v)
}

fn version_numbers_exec(v: &Vec<char>) -> (r: Vec<u64>)
    ensures
        r@ == version_numbers(v@),
{
    let mut out: Vec<u64> = Vec::new();
    let mut cur: Vec<char> = Vec::new();
    let mut i: usize = 0;
    assert(v@.take(0) =~= Seq::<char>::empty());
    assert(digit_runs(Seq::<char>::empty()).drop_last() =~= Seq::<Seq<char>>::empty());
    while i < v.len()
        invariant
            i <= v.len(),
            digit_runs(v@.take(i as int)).len() >= 1,
            cur@ == digit_runs(v@.take(i as int)).last(),
            forall|j: int| 0 <= j < cur.len() ==> is_ascii_digit(#[trigger] cur@[j]),
            out@ == digit_runs(v@.take(i as int)).drop_last().filter_map(|r: Seq<char>| run_value(r)),
        decreases v.len() - i,
    {
        let ghost prev = digit_runs(v@.take(i as int));
        assert(v@.take(i + 1).drop_last() =~= v@.take(i as int));
        assert(v@.take(i + 1).last() == v@[i as int]);
        if !ascii_digit(v[i]) {
            let val = parse_run(&cur);
            let ghost next = prev.push(Seq::<char>::empty());
            assert(next.drop_last() =~= prev);
            assert(prev =~= prev.drop_last().push(prev.last()));
            proof {
                lemma_filter_map_push(prev.drop_last(), prev.last(), |r: Seq<char>| run_value(r));
            }
            match val {
                Some(x) => out.push(x),
                None => {},
            }
            cur = Vec::new();
        } else {
            let ghost next = prev.update(prev.len() - 1, prev.last().push(v@[i as int]));
            assert(next.drop_last() =~= prev.drop_last());
            cur.push(v[i]);
        }
        i = i + 1;
    }
    assert(v@.take(v.len() as int) =~= v@);
    let ghost runs = digit_runs(v@);
    assert(runs =~= runs.drop_last().push(runs.last()));
    proof {
        lemma_filter_map_push(runs.drop_last(), runs.last(), |r: Seq<char>| run_value(r));
    }
    match parse_run(&cur) {
        Some(x) => out.push(x),
        None => {},
    }
    out
}

/// The version numbers a version directory's manifest declares.
pub open spec fn version_key(vd: VersionDir) -> Option<Seq<u64>> {
    match vd.manifest {
        Some(m) => match json_string_spec(m, "version"@) {
            Some(v) => Some(version_numbers(v)),
            None => None,
        },
        None => None,
    }
}

/// Number sequences ordered lexicographically.
pub open spec fn u64s_lt(a: Seq<u64>, b: Seq<u64>) -> bool
    decreases a.len(),
{
    if a.len() == 0 {
        b.len() > 0
    } else if b.len() == 0 {
        false
    } else if a[0] != b[0] {
        a[0] < b[0]
    } else {
        u64s_lt(a.drop_first(), b.drop_first())
    }
}

/// Version directories ordered by declared version, those without one
/// first, then by path.
pub open spec fn version_lt(a: VersionDir, b: VersionDir) -> bool {
    match (version_key(a), version_key(b)) {
        (Some(x), Some(y)) => u64s_lt(x, y) || (x == y && crate::path::path_lt(a.path@, b.path@)),
        (Some(_), None) => false,
        (None, Some(_)) => true,
        (None, None) => crate::path::path_lt(a.path@, b.path@),
    }
}

/// The index of the newest version directory: the greatest, the later one
/// among equals (-1 when there is none).
pub open spec fn newest_index(vs: Seq<VersionDir>) -> int
    decreases vs.len(),
{
    if vs.len() == 0 {
        -1
    } else {
        let m = newest_index(vs.drop_last());
        if m >= 0 && version_lt(vs.last(), vs[m]) {
            m
        } else {
            vs.len() - 1
        }
    }
}

fn u64s_less(a: &Vec<u64>, b: &Vec<u64>) -> (r: bool)
    ensures
        r == u64s_lt(a@, b@),
{
    let mut i: usize = 0;
    assert(a@.skip(0) =~= a@);
    assert(b@.skip(0) =~= b@);
    while i < a.len() && i < b.len() && a[i] == b[i]
        invariant
            i <= a.len(),
            i <= b.len(),
            u64s_lt(a@, b@) == u64s_lt(a@.skip(i as int), b@.skip(i as int)),
        decreases a.len() - i,
    {
        assert(a@.skip(i as int).drop_first() =~= a@.skip(i + 1));
        assert(b@.skip(i as int).drop_first() =~= b@.skip(i + 1));
        i = i + 1;
    }
    if i == a.len() {
        i < b.len()
    } else if i == b.len() {
        false
    } else {
        assert(a@.skip(i as int)[0] == a@[i as int]);
        assert(b@.skip(i as int)[0] == b@[i as int]);
        a[i] < b[i]
    }
}

fn u64s_eq(a: &Vec<u64>, b: &Vec<u64>) -> (r: bool)
    ensures
        r == (a@ == b@),
{
    if a.len() != b.len() {
        return false;
    }
    let mut i: usize = 0;
    while i < a.len()
        invariant
            a.len() == b.len(),
            i <= a.len(),
            forall|k: int| 0 <= k < i ==> a@[k] == b@[k],
        decreases a.len() - i,
    {
        if a[i] != b[i] {
            return false;
        }
        i = i + 1;
    }
    assert(a@ =~= b@);
    true
}

fn version_key_exec(vd: &VersionDir) -> (r: Option<Vec<u64>>)
    ensures
        match r {
            Some(k) => version_key(*vd) == Some(k@),
            None => version_key(*vd) is None,
        },
{
    match &vd.manifest {
        Some(m) => match json_string(m, "version") {
            Some(v) => {
                let c = chars_of(v.as_str());
                Some(version_numbers_exec(&c))
            },
            None => None,
        },
        None => None,
    }
}

fn version_less(a: &VersionDir, b: &VersionDir) -> (r: bool)
    ensures
        r == version_lt(*a, *b),
{
    let pa = chars_of(a.path.as_str());
    let pb = chars_of(b.path.as_str());
    match (version_key_exec(a), version_key_exec(b)) {
        (Some(x), Some(y)) => u64s_less(&x, &y) || (u64s_eq(&x, &y) && path_less(&pa, &pb)),
        (Some(_), None) => false,
        (None, Some(_)) => true,
        (None, None) => path_less(&pa, &pb),
    }
}

fn newest_version(vs: &Vec<VersionDir>) -> (r: Option<usize>)
    ensures
        match r {
            Some(i) => i < vs.len() && newest_index(vs@) == i,
            None => newest_index(vs@) == -1,
        },
{
    let mut m: Option<usize> = None;
    let mut i: usize = 0;
    assert(vs@.take(0) =~= Seq::<VersionDir>::empty());
    while i < vs.len()
        invariant
            i <= vs.len(),
            match m {
                Some(j) => j < i && newest_index(vs@.take(i as int)) == j,
                None => i == 0 && newest_index(vs@.take(i as int)) == -1,
            },
        decreases vs.len() - i,
    {
        assert(vs@.take(i + 1).drop_last() =~= vs@.take(i as int));
        assert(vs@.take(i + 1).last() == vs@[i as int]);
        match m {
            Some(j) => {
                assert(vs@.take(i + 1)[j as int] == vs@[j as int]);
                if !version_less(&vs[i], &vs[j]) {
                    m = Some(i);
                }
            },
            None => {
                m = Some(i);
            },
        }
        i = i + 1;
    }
    assert(vs@.take(vs.len() as int) =~= vs@);
    m
}

/// The extension that a Chromium extension directory holds, read from the
/// manifest of its newest version; its id is the directory's name.
pub open spec fn chromium_entry(states: Seq<(Seq<char>, bool)>, dir: ChromiumExtensionDir) -> Option<ExtensionView> {
    let id = file_name(dir.path@);
    let i = newest_index(dir.versions@);
    if i < 0 {
        None
    } else {
        match dir.versions@[i].manifest {
            None => None,
            Some(m) => Some(ExtensionView {
                name: match json_string_spec(m, "name"@) {
                    Some(n) => if !starts_with(n, "__MSG_"@) {
                        n
                    } else {
                        match id {
                            Some(x) => x,
                            None => "Unknown Chromium extension"@,
                        }
                    },
                    None => match id {
                        Some(x) => x,
                        None => "Unknown Chromium extension"@,
                    },
                },
                version: json_string_spec(m, "version"@),
                id,
                active: match id {
                    Some(x) => state_of(states, x),
                    None => None,
                },
            }),
        }
    }
}

/// The extensions of one Chromium profile, in directory order.
pub open spec fn chromium_profile_extensions(p: ChromiumProfileData) -> Seq<ExtensionView> {
    p.extension_dirs@.filter_map(|d: ChromiumExtensionDir| chromium_entry(chromium_states(p.preferences), d))
}

fn chromium_entry_exec(states: &Vec<(Vec<char>, bool)>, dir: &ChromiumExtensionDir) -> (r: Option<Extension>)
    ensures
        match r {
            Some(e) => chromium_entry(states@.map_values(|p: (Vec<char>, bool)| (p.0@, p.1)), *dir) == Some(e@),
            None => chromium_entry(states@.map_values(|p: (Vec<char>, bool)| (p.0@, p.1)), *dir) is None,
        },
{
    let p = chars_of(dir.path.as_str());
    let id = path_file_name(&p);
    let newest = match newest_version(&dir.versions) {
        Some(i) => i,
        None => {
            return None;
        },
    };
    let manifest = match &dir.versions[newest].manifest {
        Some(m) => m,
        None => {
            return None;
        },
    };
    let prefix = chars_of("__MSG_");
    let fallback = match &id {
        Some(x) => string_from_chars(x),
        None => string_from_chars(&chars_of("Unknown Chromium extension")),
    };
    let name = match json_string(manifest, "name") {
        Some(n) => {
            let nc = chars_of(n.as_str());
            if !has_prefix(&nc, &prefix) {
                n
            } else {
                fallback
            }
        },
        None => fallback,
    };
    let version = json_string(manifest, "version");
    let active = match &id {
        Some(x) => lookup_state(states, x),
        None => None,
    };
    let id_string = match &id {
        Some(x) => Some(string_from_chars(x)),
        None => None,
    };
    Some(Extension { name, version, id: id_string, active })
}

/// Appends the extensions of one Chromium profile to `out`.
fn push_chromium_profile(p: &ChromiumProfileData, out: &mut Vec<Extension>)
    ensures
        extension_views(final(out)@) == extension_views(old(out)@) + chromium_profile_extensions(*p),
{
    let ghost base = extension_views(out@);
    let states = chromium_extension_states(&p.preferences);
    let ghost sv = states@.map_values(|q: (Vec<char>, bool)| (q.0@, q.1));
    let dirs = &p.extension_dirs;
    let mut k: usize = 0;
    assert(dirs@.take(0).filter_map(|d: ChromiumExtensionDir| chromium_entry(sv, d)) =~= Seq::<ExtensionView>::empty());
    assert(base + Seq::<ExtensionView>::empty() =~= base);
    while k < dirs.len()
        invariant
            k <= dirs.len(),
            sv == chromium_states(p.preferences),
            sv == states@.map_values(|q: (Vec<char>, bool)| (q.0@, q.1)),
            extension_views(out@) == base + dirs@.take(k as int).filter_map(|d: ChromiumExtensionDir| chromium_entry(sv, d)),
        decreases dirs.len() - k,
    {
        let ghost before = extension_views(out@);
        assert(dirs@.take(k + 1) =~= dirs@.take(k as int).push(dirs@[k as int]));
        proof {
            lemma_filter_map_push(dirs@.take(k as int), dirs@[k as int], |d: ChromiumExtensionDir| chromium_entry(sv, d));
        }
        match chromium_entry_exec(&states, &dirs[k]) {
            Some(e) => {
                out.push(e);
                assert(extension_views(out@) =~= before.push(e@));
            },
            None => {},
        }
        k = k + 1;
    }
    assert(dirs@.take(dirs.len() as int) =~= dirs@);
}

/// The extensions of a Chromium profile set.
pub fn chromium_extensions(profiles: &Vec<ChromiumProfileData>) -> (r: Vec<Extension>)
    ensures
        sorted_extensions(
            concat_all(profiles@.map_values(|p: ChromiumProfileData| chromium_profile_extensions(p))),
            extension_views(r@),
        ),
{
    let ghost pv = profiles@.map_values(|p: ChromiumProfileData| chromium_profile_extensions(p));
    let mut all: Vec<Extension> = Vec::new();
    let mut i: usize = 0;
    assert(pv.take(0) =~= Seq::<Seq<ExtensionView>>::empty());
    assert(extension_views(all@) =~= Seq::<ExtensionView>::empty());
    while i < profiles.len()
        invariant
            i <= profiles.len(),
            pv == profiles@.map_values(|p: ChromiumProfileData| chromium_profile_extensions(p)),
            extension_views(all@) == concat_all(pv.take(i as int)),
        decreases profiles.len() - i,
    {
        push_chromium_profile(&profiles[i], &mut all);
        assert(pv.take(i + 1).drop_last() =~= pv.take(i as int));
        i = i + 1;
    }
    assert(pv.take(profiles.len() as int) =~= pv);
    sort_extensions(all)
}


/// The profile files a backend reads extensions from: the active profile's
/// alone when there is one, else all profiles.
pub fn profiles_to_read(active: Option<Profile>, all: Vec<Profile>) -> (r: Vec<Profile>)
    ensures
        r@ == match active {
            Some(p) => seq![p],
            None => all@,
        },
{
    match active {
        Some(p) => {
            let mut v: Vec<Profile> = Vec::new();
            v.push(p);
            assert(v@ =~= seq![p]);
            v
        },
        None => all,
    }
}

/// What was read for a backend's extensions: each Firefox profile's parsed
/// `extensions.json`, or each Chromium profile's data.
pub enum ExtensionSources {
    Firefox(Vec<Option<Json>>),
    Chromium(Vec<ChromiumProfileData>),
}

/// The extensions a backend lists, from sources of its own kind (none from
/// sources of the other kind).
pub open spec fn backend_extensions(backend: ProfileBackend, sources: ExtensionSources, r: Seq<ExtensionView>) -> bool {
    match (backend, sources) {
        (ProfileBackend::Firefox(_), ExtensionSources::Firefox(docs)) =>
            sorted_extensions(concat_all(docs@.map_values(|d: Option<Json>| firefox_doc_extensions(d))), r),
        (ProfileBackend::Chromium(_), ExtensionSources::Chromium(ps)) =>
            sorted_extensions(concat_all(ps@.map_values(|p: ChromiumProfileData| chromium_profile_extensions(p))), r),
        _ => r.len() == 0,
    }
}

impl ProfileBackend {
    pub fn extensions(&self, sources: &ExtensionSources) -> (r: Vec<Extension>)
        ensures
            backend_extensions(*self, *sources, extension_views(r@)),
    {
        match (self, sources) {
            (ProfileBackend::Firefox(_), ExtensionSources::Firefox(docs)) => firefox_extensions(docs),
            (ProfileBackend::Chromium(_), ExtensionSources::Chromium(ps)) => chromium_extensions(ps),
            _ => {
                let r: Vec<Extension> = Vec::new();
                assert(extension_views(r@).len() == 0);
                r
            },
        }
    }
}

/// How well a profile root fits a browser's command: 0 when the lowercased
/// root contains the program's lowercased stem (of at least 4 bytes) or one
/// of its lowercased arguments (of at least 6 bytes), 1 otherwise and when
/// there is no command.
pub open spec fn root_score_spec(root: Seq<char>, exec: Option<CommandSpec>) -> u8 {
    match exec {
        None => 1,
        Some(e) => {
            let r = ascii_lower(root);
            let program = ascii_lower(match file_stem(e.program@) {
                Some(s) => s,
                None => Seq::<char>::empty(),
            });
            if utf8_len(program) >= 4 && contains_text(r, program) {
                0
            } else if exists|i: int| 0 <= i < e.args@.len() && #[trigger] arg_hint_matches(r, e.args@[i]@) {
                0
            } else {
                1
            }
        },
    }
}

/// An argument points at the root `r` (already lowercased).
pub open spec fn arg_hint_matches(r: Seq<char>, arg: Seq<char>) -> bool {
    utf8_len(ascii_lower(arg)) >= 6 && contains_text(r, ascii_lower(arg))
}

pub fn root_score(root: &str, exec: Option<&CommandSpec>) -> (r: u8)
    ensures
        r == root_score_spec(root@, match exec { Some(e) => Some(*e), None => None }),
{
    let e = match exec {
        None => {
            return 1;
        },
        Some(e) => e,
    };
    let rc = chars_of(root);
    let lr = ascii_lowercase(&rc);
    let pc = chars_of(e.program.as_str());
    let stem = match path_file_stem(&pc) {
        Some(s) => s,
        None => Vec::new(),
    };
    let program = ascii_lowercase(&stem);
    assert(program@ == ascii_lower(match file_stem(e.program@) { Some(s) => s, None => Seq::<char>::empty() }));
    if utf8_len_capped(&program) >= 4 && find_text(&lr, &program) {
        assert(utf8_len(program@) >= 4);
        assert(contains_text(lr@, program@));
        return 0;
    }
    let mut i: usize = 0;
    while i < e.args.len()
        invariant
            i <= e.args.len(),
            lr@ == ascii_lower(root@),
            exec == Some(e),
            program@ == ascii_lower(match file_stem(e.program@) { Some(s) => s, None => Seq::<char>::empty() }),
            !(utf8_len(program@) >= 4 && contains_text(lr@, program@)),
            forall|j: int| 0 <= j < i ==> !#[trigger] arg_hint_matches(lr@, e.args@[j]@),
        decreases e.args.len() - i,
    {
        let ac = chars_of(e.args[i].as_str());
        let hint = ascii_lowercase(&ac);
        if utf8_len_capped(&hint) >= 6 && find_text(&lr, &hint) {
            assert(arg_hint_matches(lr@, e.args@[i as int]@));
            return 0;
        }
        i = i + 1;
    }
    1
}

/// Profile roots are tried best-fitting first, then by path.
pub open spec fn root_key(score: u8, path: Seq<char>) -> (int, Seq<Comp>) {
    (score as int, components(path))
}

pub open spec fn root_order() -> spec_fn((int, Seq<Comp>), (int, Seq<Comp>)) -> bool {
    |x: (int, Seq<Comp>), y: (int, Seq<Comp>)| x.0 < y.0 || (x.0 == y.0 && comps_lt(x.1, y.1))
}

proof fn lemma_root_order_strict()
    ensures
        strict(root_order()),
{
    assert forall|x: (int, Seq<Comp>), y: (int, Seq<Comp>)| #[trigger] root_order()(x, y) implies !root_order()(y, x) by {
        lemma_comps_lt_asym(x.1, y.1);
    }
    assert forall|x: (int, Seq<Comp>)| !#[trigger] root_order()(x, x) by {
        lemma_comps_lt_irrefl(x.1);
    }
}

fn scored_less(a: &(u8, String), b: &(u8, String)) -> (r: bool)
    ensures
        r == root_order()(root_key(a.0, a.1@), root_key(b.0, b.1@)),
{
    if a.0 != b.0 {
        return a.0 < b.0;
    }
    let pa = chars_of(a.1.as_str());
    let pb = chars_of(b.1.as_str());
    path_less(&pa, &pb)
}

fn scored_same(a: &(u8, String), b: &(u8, String)) -> (r: bool)
    ensures
        r == (components(a.1@) == components(b.1@)),
{
    let pa = chars_of(a.1.as_str());
    let pb = chars_of(b.1.as_str());
    path_same(&pa, &pb)
}

/// The candidate profile roots in the order they are tried: sorted by score
/// against `exec`, then by path (stably), with consecutive equal paths
/// reduced to one.
pub open spec fn ordered_roots(roots: Seq<Seq<char>>, exec: Option<CommandSpec>, r: Seq<Seq<char>>) -> bool {
    let scored = roots.map_values(|p: Seq<char>| (root_score_spec(p, exec), p));
    let key = |c: (u8, Seq<char>)| root_key(c.0, c.1);
    exists|s: Seq<(u8, Seq<char>)>|
        sorted_by(s, key, root_order()) && stable_perm(scored, s, key)
            && r == dedup_by_key(s, |c: (u8, Seq<char>)| components(c.1)).map_values(|c: (u8, Seq<char>)| c.1)
}

pub open spec fn scored_view() -> spec_fn((u8, String)) -> (u8, Seq<char>) {
    |c: (u8, String)| (c.0, c.1@)
}

pub fn order_profile_roots(roots: Vec<String>, exec: Option<&CommandSpec>) -> (r: Vec<String>)
    ensures
        ordered_roots(string_views(roots@), match exec { Some(e) => Some(*e), None => None }, string_views(r@)),
{
    let ghost ex = match exec { Some(e) => Some(*e), None => None };
    let ghost rv = string_views(roots@);
    let mut scored: Vec<(u8, String)> = Vec::new();
    let mut input = roots;
    let n = input.len();
    let mut i: usize = 0;
    assert(rv.skip(0) =~= rv);
    while i < n
        invariant
            n == rv.len(),
            i <= n,
            string_views(input@) == rv.skip(i as int),
            input.len() == n - i,
            scored@.map_values(scored_view()) == rv.take(i as int).map_values(|p: Seq<char>| (root_score_spec(p, ex), p)),
            ex == match exec { Some(e) => Some(*e), None => None },
        decreases n - i,
    {
        let ghost iv = input@;
        let p = input.remove(0);
        assert(string_views(iv)[0] == rv.skip(i as int)[0]);
        assert(p@ == rv[i as int]);
        assert(input@ =~= iv.skip(1));
        assert(string_views(iv.skip(1)) =~= string_views(iv).skip(1));
        assert(rv.skip(i as int).skip(1) =~= rv.skip(i + 1));
        assert(string_views(input@) =~= rv.skip(i + 1));
        let score = root_score(p.as_str(), exec);
        let ghost before = scored@.map_values(scored_view());
        scored.push((score, p));
        assert(scored@.map_values(scored_view()) =~= before.push((score, rv[i as int])));
        assert(rv.take(i + 1).map_values(|p: Seq<char>| (root_score_spec(p, ex), p))
            =~= rv.take(i as int).map_values(|p: Seq<char>| (root_score_spec(p, ex), p)).push((root_score_spec(rv[i as int], ex), rv[i as int])));
        i = i + 1;
    }
    assert(rv.take(n as int) =~= rv);
    proof {
        lemma_root_order_strict();
    }
    let ghost sc = scored@;
    let sorted = sort_by_key::<(u8, String), (int, Seq<Comp>), _>(
        scored,
        scored_less,
        Ghost(|c: (u8, String)| (|d: (u8, Seq<char>)| root_key(d.0, d.1))(scored_view()(c))),
        Ghost(root_order()),
    );
    let ghost so = sorted@;
    let deduped = dedup_by::<(u8, String), Seq<Comp>, _>(
        sorted,
        scored_same,
        Ghost(|c: (u8, String)| (|d: (u8, Seq<char>)| components(d.1))(scored_view()(c))),
    );
    let mut out: Vec<String> = Vec::new();
    let mut k: usize = 0;
    while k < deduped.len()
        invariant
            k <= deduped.len(),
            string_views(out@) == deduped@.take(k as int).map_values(|c: (u8, String)| c.1@),
        decreases deduped.len() - k,
    {
        let ghost before = string_views(out@);
        let s = deduped[k].1.clone();
        out.push(s);
        assert(string_views(out@) =~= before.push(deduped@[k as int].1@));
        assert(deduped@.take(k + 1).map_values(|c: (u8, String)| c.1@)
            =~= deduped@.take(k as int).map_values(|c: (u8, String)| c.1@).push(deduped@[k as int].1@));
        k = k + 1;
    }
    assert(deduped@.take(deduped.len() as int) =~= deduped@);
    proof {
        let key = |d: (u8, Seq<char>)| root_key(d.0, d.1);
        let pk = |d: (u8, Seq<char>)| components(d.1);
        lemma_sorted_map(sc, so, scored_view(), key, root_order());
        lemma_dedup_map(so, scored_view(), pk);
        let sv = so.map_values(scored_view());
        assert(dedup_by_key(sv, pk).map_values(|c: (u8, Seq<char>)| c.1) =~= string_views(out@));
        assert(sorted_by(sv, key, root_order()) && stable_perm(rv.map_values(|p: Seq<char>| (root_score_spec(p, ex), p)), sv, key));
    }
    out
}


/// A candidate profile root, with what the file system says of it: whether
/// it holds Firefox profiles (a `profiles.ini` listing existing ones) and
/// whether it holds Chromium ones (a `Local State` and a profile with
/// `Preferences` or `Extensions`).
pub struct RootProbe {
    pub path: String,
    pub is_firefox_root: bool,
    pub is_chromium_root: bool,
}

/// The backend a root provides, for a command it fits (score 0).
pub open spec fn detect_backend_spec(probe: RootProbe, exec: Option<CommandSpec>) -> Option<ProfileBackend> {
    if root_score_spec(probe.path@, exec) != 0 {
        None
    } else if probe.is_firefox_root {
        Some(ProfileBackend::Firefox(probe.path))
    } else if probe.is_chromium_root {
        Some(ProfileBackend::Chromium(probe.path))
    } else {
        None
    }
}

pub fn detect_backend(probe: RootProbe, exec: Option<&CommandSpec>) -> (r: Option<ProfileBackend>)
    ensures
        r == detect_backend_spec(probe, match exec { Some(e) => Some(*e), None => None }),
{
    if root_score(probe.path.as_str(), exec) != 0 {
        return None;
    }
    if probe.is_firefox_root {
        Some(ProfileBackend::Firefox(probe.path))
    } else if probe.is_chromium_root {
        Some(ProfileBackend::Chromium(probe.path))
    } else {
        None
    }
}

/// The first root, in the order given, that provides a backend.
pub open spec fn first_backend(roots: Seq<RootProbe>, exec: Option<CommandSpec>) -> Option<ProfileBackend>
    decreases roots.len(),
{
    if roots.len() == 0 {
        None
    } else {
        match detect_backend_spec(roots[0], exec) {
            Some(b) => Some(b),
            None => first_backend(roots.drop_first(), exec),
        }
    }
}

/// The profile backend of a browser: the first of the candidate roots (in
/// the order of `order_profile_roots`, each probed) that fits its command.
pub fn discover_backend(exec: Option<&CommandSpec>, roots: Vec<RootProbe>) -> (r: Option<ProfileBackend>)
    ensures
        r == first_backend(roots@, match exec { Some(e) => Some(*e), None => None }),
{
    let ghost rv = roots@;
    let ghost ex = match exec { Some(e) => Some(*e), None => None };
    let mut input = roots;
    let n = input.len();
    let mut i: usize = 0;
    assert(rv.skip(0) =~= rv);
    while i < n
        invariant
            n == rv.len(),
            i <= n,
            input@ == rv.skip(i as int),
            ex == match exec { Some(e) => Some(*e), None => None },
            rv == roots@,
            first_backend(rv, ex) == first_backend(rv.skip(i as int), ex),
        decreases n - i,
    {
        let probe = input.remove(0);
        assert(probe == rv.skip(i as int)[0]);
        assert(input@ =~= rv.skip(i + 1));
        assert(rv.skip(i as int).drop_first() =~= rv.skip(i + 1));
        match detect_backend(probe, exec) {
            Some(b) => {
                return Some(b);
            },
            None => {},
        }
        i = i + 1;
    }
    None
}

/// Without a browser command no root fits, so no backend is chosen.
pub proof fn law_no_command_no_backend(roots: Seq<RootProbe>)
    ensures
        first_backend(roots, None) is None,
    decreases roots.len(),
{
    if roots.len() > 0 {
        law_no_command_no_backend(roots.drop_first());
    }
}

/// A Firefox profile root: it has a `profiles.ini` that lists at least one
/// existing profile (`profiles`, from `firefox_profiles`).
pub fn is_firefox_profile_root(has_profiles_ini: bool, profiles: &Vec<Profile>) -> (r: bool)
    ensures
        r == (has_profiles_ini && profiles.len() > 0),
{
    has_profiles_ini && profiles.len() > 0
}

/// A Chromium profile root: it has a `Local State` file, and one of its
/// profiles has a `Preferences` file or an `Extensions` directory
/// (`profile_has_data`, one answer per profile).
pub fn is_chromium_profile_root(has_local_state: bool, profile_has_data: &Vec<bool>) -> (r: bool)
    ensures
        r == (has_local_state && exists|i: int| 0 <= i < profile_has_data.len() && #[trigger] profile_has_data@[i]),
{
    if !has_local_state {
        return false;
    }
    let mut i: usize = 0;
    while i < profile_has_data.len()
        invariant
            i <= profile_has_data.len(),
            has_local_state,
            forall|k: int| 0 <= k < i ==> !profile_has_data@[k],
        decreases profile_has_data.len() - i,
    {
        if profile_has_data[i] {
            assert(profile_has_data@[i as int]);
            return true;
        }
        i = i + 1;
    }
    false
}

/// Default profiles come first: in a profile list in profile order (as
/// `firefox_profiles` and `chromium_profiles` return it), a default profile
/// is preceded by default profiles only.
pub proof fn law_default_profiles_first(ps: Seq<ProfileView>)
    requires
        sorted_by(ps, pkey(), porder()),
    ensures
        forall|i: int, j: int| 0 <= i < j < ps.len() && (#[trigger] ps[j]).is_default ==> (#[trigger] ps[i]).is_default,
    decreases ps.len(),
{
    if ps.len() > 0 {
        let q = ps.drop_last();
        assert forall|t: int| 0 <= t < q.len() - 1 implies !porder()(pkey()(#[trigger] q[t + 1]), pkey()(q[t])) by {
            assert(q[t + 1] == ps[t + 1] && q[t] == ps[t]);
        }
        law_default_profiles_first(q);
        assert forall|i: int, j: int| 0 <= i < j < ps.len() && (#[trigger] ps[j]).is_default implies (#[trigger] ps[i]).is_default by {
            if j < ps.len() - 1 {
                assert(q[i] == ps[i] && q[j] == ps[j]);
            } else {
                let k = j - 1;
                assert(!porder()(pkey()(ps[k + 1]), pkey()(ps[k])));
                assert(ps[k].is_default);
                if i < k {
                    assert(q[i] == ps[i] && q[k] == ps[k]);
                }
            }
        }
    }
}

/// Code-point order on text, as used for sorting, is a strict total order.
pub proof fn lemma_text_order_total_order()
    ensures
        total_order(text_order()),
{
    assert forall|a: Seq<char>, b: Seq<char>, c: Seq<char>|
        #![trigger text_order()(a, b), text_order()(b, c)]
        text_order()(a, b) && text_order()(b, c) implies text_order()(a, c) by {
        lemma_chars_lt_trans(a, b, c);
    }
    assert forall|a: Seq<char>, b: Seq<char>| #[trigger] text_order()(a, b) || a == b || text_order()(b, a) by {
        lemma_chars_lt_total(a, b);
    }
    assert forall|a: Seq<char>| !#[trigger] text_order()(a, a) by {
        lemma_chars_lt_irrefl(a);
    }
    assert forall|a: Seq<char>, b: Seq<char>| #[trigger] text_order()(a, b) implies !text_order()(b, a) by {
        lemma_chars_lt_asym(a, b);
    }
}

/// Listed extensions are in order of lowercased name, and no two neighbours
/// have both the same name and the same id.
pub proof fn law_extensions_order(exts: Seq<ExtensionView>, r: Seq<ExtensionView>)
    requires
        sorted_extensions(exts, r),
    ensures
        sorted_by(r, ekey(), text_order()),
        forall|i: int| 0 <= i < r.len() - 1 ==> #[trigger] entry_key()(r[i]) != entry_key()(r[i + 1]),
{
    let s = choose|s: Seq<ExtensionView>|
        sorted_by(s, ekey(), text_order()) && stable_perm(exts, s, ekey()) && r == dedup_by_key(s, entry_key());
    lemma_text_order_total_order();
    lemma_dedup_sorted(s, ekey(), text_order(), entry_key());
    law_dedup_no_adjacent_repeats(s, entry_key());
}

proof fn lemma_scores_ascend(s: Seq<(u8, Seq<char>)>, i: int, j: int)
    requires
        sorted_by(s, |c: (u8, Seq<char>)| root_key(c.0, c.1), root_order()),
        0 <= i <= j < s.len(),
    ensures
        s[i].0 <= s[j].0,
    decreases j - i,
{
    if i < j {
        lemma_scores_ascend(s, i, j - 1);
        let key = |c: (u8, Seq<char>)| root_key(c.0, c.1);
        assert(!root_order()(key(s[(j - 1) + 1]), key(s[j - 1])));
    }
}

/// The roots that fit the command are tried first: in the ordered root
/// list, a root that fits (score 0) is preceded by fitting roots only, and
/// no two neighbours are the same path.
pub proof fn law_fitting_roots_first(roots: Seq<Seq<char>>, exec: Option<CommandSpec>, r: Seq<Seq<char>>)
    requires
        ordered_roots(roots, exec, r),
    ensures
        forall|i: int, j: int|
            0 <= i < j < r.len() && root_score_spec(#[trigger] r[j], exec) == 0 ==> root_score_spec(#[trigger] r[i], exec) == 0,
        forall|i: int| 0 <= i < r.len() - 1 ==> components(#[trigger] r[i]) != components(r[i + 1]),
{
    let scored = roots.map_values(|p: Seq<char>| (root_score_spec(p, exec), p));
    let key = |c: (u8, Seq<char>)| root_key(c.0, c.1);
    let dk = |c: (u8, Seq<char>)| components(c.1);
    let s = choose|s: Seq<(u8, Seq<char>)>|
        sorted_by(s, key, root_order()) && stable_perm(scored, s, key)
            && r == dedup_by_key(s, dk).map_values(|c: (u8, Seq<char>)| c.1);
    let good = |c: (u8, Seq<char>)| c.0 == root_score_spec(c.1, exec);
    assert forall|i: int| 0 <= i < s.len() implies #[trigger] good(s[i]) by {
        let p = key_is(key, key(s[i]));
        assert(with_key(s, key, key(s[i])) == with_key(scored, key, key(s[i])));
        s.lemma_filter_contains(p, i);
        let w = s.filter(p);
        let t = choose|t: int| 0 <= t < w.len() && w[t] == s[i];
        assert(w == scored.filter(p));
        let u = lemma_filter_elem(scored, p, t);
        assert(s[i] == scored[u]);
    }
    let rel = |a: (u8, Seq<char>), b: (u8, Seq<char>)| a.0 <= b.0 && good(a) && good(b);
    assert forall|i: int, j: int| 0 <= i < j < s.len() implies #[trigger] rel(s[i], s[j]) by {
        lemma_scores_ascend(s, i, j);
    }
    lemma_dedup_pairwise(s, dk, rel);
    let d = dedup_by_key(s, dk);
    assert forall|i: int, j: int|
        0 <= i < j < r.len() && root_score_spec(#[trigger] r[j], exec) == 0 implies root_score_spec(#[trigger] r[i], exec) == 0 by {
        assert(rel(d[i], d[j]));
        assert(r[i] == d[i].1 && r[j] == d[j].1);
    }
    law_dedup_no_adjacent_repeats(s, dk);
    assert forall|i: int| 0 <= i < r.len() - 1 implies components(#[trigger] r[i]) != components(r[i + 1]) by {
        assert(dk(d[i]) != dk(d[i + 1]));
        assert(r[i] == d[i].1 && r[i + 1] == d[i + 1].1);
    }
}

/// The directories scanned for profile roots, each with how deep to look:
/// `~/.config` and `~/.mozilla` two levels, `~/.var/app` four.
pub open spec fn profile_scan_dirs_spec(home: Seq<char>) -> Seq<(Seq<char>, usize)> {
    seq![(join(home, ".config"@), 2usize), (join(home, ".mozilla"@), 2usize), (join(home, ".var/app"@), 4usize)]
}

pub fn profile_scan_dirs(home: &str) -> (r: Vec<(String, usize)>)
    ensures
        r@.map_values(|d: (String, usize)| (d.0@, d.1)) == profile_scan_dirs_spec(home@),
{
    let h = chars_of(home);
    let mut r: Vec<(String, usize)> = Vec::new();
    r.push((string_from_chars(&path_join(&h, &chars_of(".config"))), 2));
    r.push((string_from_chars(&path_join(&h, &chars_of(".mozilla"))), 2));
    r.push((string_from_chars(&path_join(&h, &chars_of(".var/app"))), 4));
    assert(r@.map_values(|d: (String, usize)| (d.0@, d.1)) =~= profile_scan_dirs_spec(home@));
    r
}

/// The candidate profile roots before ordering: the usual Firefox places,
/// then the directories found under the scanned ones (`found`, in the order
/// found).
pub open spec fn profile_root_candidates_spec(home: Seq<char>, found: Seq<Seq<char>>) -> Seq<Seq<char>> {
    seq![
        join(join(home, ".config"@), "mozilla/firefox"@),
        join(home, ".mozilla/firefox"@),
        join(home, ".var/app/org.mozilla.firefox/.mozilla/firefox"@),
    ] + found
}

fn listed_root_candidates(home: &str, found: &Vec<String>) -> (r: Vec<String>)
    ensures
        string_views(r@) == profile_root_candidates_spec(home@, string_views(found@)),
{
    let h = chars_of(home);
    let config = path_join(&h, &chars_of(".config"));
    let mut r: Vec<String> = Vec::new();
    r.push(string_from_chars(&path_join(&config, &chars_of("mozilla/firefox"))));
    r.push(string_from_chars(&path_join(&h, &chars_of(".mozilla/firefox"))));
    r.push(string_from_chars(&path_join(&h, &chars_of(".var/app/org.mozilla.firefox/.mozilla/firefox"))));
    let ghost head = string_views(r@);
    let ghost fv = string_views(found@);
    let n = found.len();
    let mut i: usize = 0;
    while i < n
        invariant
            n == found.len(),
            fv == string_views(found@),
            i <= n,
            string_views(r@) == head + fv.take(i as int),
        decreases n - i,
    {
        let x = string_from_chars(&chars_of(found[i].as_str()));
        assert(fv[i as int] == x@);
        let ghost before = string_views(r@);
        r.push(x);
        assert(string_views(r@) =~= before.push(fv[i as int]));
        assert(fv.take(i + 1) =~= fv.take(i as int).push(fv[i as int]));
        i = i + 1;
    }
    assert(fv.take(n as int) =~= fv);
    assert(string_views(r@) =~= profile_root_candidates_spec(home@, fv));
    r
}

/// The profile roots of a browser in the order they are tried: the usual
/// Firefox places and the directories found under the scanned ones
/// (`found`), sorted by how well they fit the browser's command `exec` and
/// then by path, with repeated paths dropped.
pub fn profile_root_candidates(home: &str, found: &Vec<String>, exec: Option<&CommandSpec>) -> (r: Vec<String>)
    ensures
        ordered_roots(
            profile_root_candidates_spec(home@, string_views(found@)),
            match exec { Some(e) => Some(*e), None => None },
            string_views(r@),
        ),
{
    let roots = listed_root_candidates(home, found);
    order_profile_roots(roots, exec)
}

/// Version numbers are compared lexicographically: `a` is below `b` exactly
/// when `a` is a proper prefix of `b`, or at the first place where they
/// differ `a` has the smaller number.
pub proof fn law_version_numbers_lexicographic(a: Seq<u64>, b: Seq<u64>)
    ensures
        u64s_lt(a, b) <==> ((a.len() < b.len() && b.take(a.len() as int) == a) || exists|i: int|
            0 <= i < a.len() && i < b.len() && a.take(i) == b.take(i) && #[trigger] a[i] < b[i]),
    decreases a.len(),
{
    if a.len() > 0 && b.len() > 0 {
        law_version_numbers_lexicographic(a.drop_first(), b.drop_first());
        let a1 = a.drop_first();
        let b1 = b.drop_first();
        if a[0] == b[0] {
            if a1.len() < b1.len() && b1.take(a1.len() as int) == a1 {
                assert(b.take(a.len() as int) =~= seq![b[0]] + b1.take(a1.len() as int));
                assert(a =~= seq![a[0]] + a1);
            }
            if a.len() < b.len() && b.take(a.len() as int) == a {
                assert(b1.take(a1.len() as int) =~= b.take(a.len() as int).drop_first());
            }
            if exists|i: int| 0 <= i < a1.len() && i < b1.len() && a1.take(i) == b1.take(i) && #[trigger] a1[i] < b1[i] {
                let i = choose|i: int| 0 <= i < a1.len() && i < b1.len() && a1.take(i) == b1.take(i) && #[trigger] a1[i] < b1[i];
                assert(a.take(i + 1) =~= seq![a[0]] + a1.take(i));
                assert(b.take(i + 1) =~= seq![b[0]] + b1.take(i));
                assert(a[i + 1] == a1[i] && b[i + 1] == b1[i]);
            }
            if exists|i: int| 0 <= i < a.len() && i < b.len() && a.take(i) == b.take(i) && #[trigger] a[i] < b[i] {
                let i = choose|i: int| 0 <= i < a.len() && i < b.len() && a.take(i) == b.take(i) && #[trigger] a[i] < b[i];
                assert(i > 0);
                assert(a1.take(i - 1) =~= a.take(i).drop_first());
                assert(b1.take(i - 1) =~= b.take(i).drop_first());
                assert(a1[i - 1] == a[i] && b1[i - 1] == b[i]);
            }
        } else {
            if a[0] < b[0] {
                assert(a.take(0) =~= b.take(0));
            }
            if a.len() < b.len() && b.take(a.len() as int) == a {
                assert(b.take(a.len() as int)[0] == b[0]);
            }
            if exists|i: int| 0 <= i < a.len() && i < b.len() && a.take(i) == b.take(i) && #[trigger] a[i] < b[i] {
                let i = choose|i: int| 0 <= i < a.len() && i < b.len() && a.take(i) == b.take(i) && #[trigger] a[i] < b[i];
                if i > 0 {
                    assert(a.take(i)[0] == b.take(i)[0]);
                }
            }
        }
    } else if a.len() == 0 && b.len() > 0 {
        assert(b.take(0) =~= a);
    }
}

/// A browser command fits a profile root whenever one of its arguments, at
/// any position, lowercased, is at least six bytes long and occurs in the
/// lowercased root.
pub proof fn law_argument_hint_fits(root: Seq<char>, e: CommandSpec, i: int)
    requires
        0 <= i < e.args.len(),
        utf8_len(ascii_lower(e.args@[i]@)) >= 6,
        contains_text(ascii_lower(root), ascii_lower(e.args@[i]@)),
    ensures
        root_score_spec(root, Some(e)) == 0,
{
    assert(arg_hint_matches(ascii_lower(root), e.args@[i]@));
}

proof fn lemma_u64s_lt_irrefl(a: Seq<u64>)
    ensures
        !u64s_lt(a, a),
    decreases a.len(),
{
    if a.len() > 0 {
        lemma_u64s_lt_irrefl(a.drop_first());
    }
}

proof fn lemma_u64s_lt_trans(a: Seq<u64>, b: Seq<u64>, c: Seq<u64>)
    ensures
        u64s_lt(a, b) && u64s_lt(b, c) ==> u64s_lt(a, c),
    decreases a.len(),
{
    if a.len() > 0 && b.len() > 0 && c.len() > 0 && a[0] == b[0] && b[0] == c[0] {
        lemma_u64s_lt_trans(a.drop_first(), b.drop_first(), c.drop_first());
    }
}

proof fn lemma_u64s_lt_total(a: Seq<u64>, b: Seq<u64>)
    ensures
        u64s_lt(a, b) || a == b || u64s_lt(b, a),
    decreases a.len(),
{
    if a.len() > 0 && b.len() > 0 && a[0] == b[0] {
        lemma_u64s_lt_total(a.drop_first(), b.drop_first());
        if a.drop_first() == b.drop_first() {
            assert(a =~= seq![a[0]] + a.drop_first());
            assert(b =~= seq![b[0]] + b.drop_first());
        }
    } else if a.len() == 0 && b.len() == 0 {
        assert(a =~= b);
    }
}

/// Declared versions: none before any, then in number order.
pub open spec fn key_order() -> spec_fn(Option<Seq<u64>>, Option<Seq<u64>>) -> bool {
    |x: Option<Seq<u64>>, y: Option<Seq<u64>>| match (x, y) {
        (Some(a), Some(b)) => u64s_lt(a, b),
        (None, Some(_)) => true,
        _ => false,
    }
}

pub open spec fn comps_order() -> spec_fn(Seq<Comp>, Seq<Comp>) -> bool {
    |a: Seq<Comp>, b: Seq<Comp>| comps_lt(a, b)
}

/// What a version directory is ordered by: its declared version, then its
/// path's components.
pub open spec fn version_dir_key(v: VersionDir) -> (Option<Seq<u64>>, Seq<Comp>) {
    (version_key(v), components(v.path@))
}

proof fn lemma_version_order_total()
    ensures
        total_order(|x: (Option<Seq<u64>>, Seq<Comp>), y: (Option<Seq<u64>>, Seq<Comp>)|
            pair_lt(key_order(), comps_order(), x, y)),
{
    assert(total_order(key_order())) by {
        assert forall|x: Option<Seq<u64>>| !#[trigger] key_order()(x, x) by {
            if let Some(a) = x { lemma_u64s_lt_irrefl(a); }
        }
        assert forall|x: Option<Seq<u64>>, y: Option<Seq<u64>>| #[trigger] key_order()(x, y) implies !key_order()(y, x) by {
            if let (Some(a), Some(b)) = (x, y) {
                lemma_u64s_lt_trans(a, b, a);
                lemma_u64s_lt_irrefl(a);
            }
        }
        assert forall|x: Option<Seq<u64>>, y: Option<Seq<u64>>, z: Option<Seq<u64>>|
            #![trigger key_order()(x, y), key_order()(y, z)]
            key_order()(x, y) && key_order()(y, z) implies key_order()(x, z) by {
            if let (Some(a), Some(b), Some(c)) = (x, y, z) {
                lemma_u64s_lt_trans(a, b, c);
            }
        }
        assert forall|x: Option<Seq<u64>>, y: Option<Seq<u64>>| #[trigger] key_order()(x, y) || x == y || key_order()(y, x) by {
            if let (Some(a), Some(b)) = (x, y) {
                lemma_u64s_lt_total(a, b);
            }
        }
    }
    assert(total_order(comps_order())) by {
        assert forall|a: Seq<Comp>| !#[trigger] comps_order()(a, a) by {
            lemma_comps_lt_irrefl(a);
        }
        assert forall|a: Seq<Comp>, b: Seq<Comp>| #[trigger] comps_order()(a, b) implies !comps_order()(b, a) by {
            lemma_comps_lt_asym(a, b);
        }
        assert forall|a: Seq<Comp>, b: Seq<Comp>, c: Seq<Comp>|
            #![trigger comps_order()(a, b), comps_order()(b, c)]
            comps_order()(a, b) && comps_order()(b, c) implies comps_order()(a, c) by {
            lemma_comps_lt_trans(a, b, c);
        }
        assert forall|a: Seq<Comp>, b: Seq<Comp>| #[trigger] comps_order()(a, b) || a == b || comps_order()(b, a) by {
            lemma_comps_lt_total(a, b);
        }
    }
    lemma_pair_lt_total_order(key_order(), comps_order());
}

proof fn lemma_version_lt_is_key_order(a: VersionDir, b: VersionDir)
    ensures
        version_lt(a, b) == pair_lt(key_order(), comps_order(), version_dir_key(a), version_dir_key(b)),
{
}

/// The newest version directory is one whose version no other directory
/// exceeds: no directory comes after it in version order (declared version,
/// then path).
pub proof fn law_newest_is_greatest(vs: Seq<VersionDir>)
    ensures
        vs.len() > 0 ==> 0 <= newest_index(vs) < vs.len(),
        vs.len() == 0 ==> newest_index(vs) == -1,
        forall|j: int| 0 <= j < vs.len() ==> !version_lt(vs[newest_index(vs)], #[trigger] vs[j]),
    decreases vs.len(),
{
    if vs.len() > 0 {
        let q = vs.drop_last();
        law_newest_is_greatest(q);
        lemma_version_order_total();
        let lt = |x: (Option<Seq<u64>>, Seq<Comp>), y: (Option<Seq<u64>>, Seq<Comp>)| pair_lt(key_order(), comps_order(), x, y);
        let m = newest_index(q);
        let n = newest_index(vs);
        assert forall|j: int| 0 <= j < vs.len() implies !version_lt(vs[n], #[trigger] vs[j]) by {
            lemma_version_lt_is_key_order(vs[n], vs[j]);
            let kn = version_dir_key(vs[n]);
            let kj = version_dir_key(vs[j]);
            if j == vs.len() - 1 {
                if n == j {
                    assert(!lt(kn, kn));
                } else {
                    assert(n == m);
                    lemma_version_lt_is_key_order(vs.last(), vs[m]);
                    assert(vs.last() == vs[j]);
                    assert(lt(kj, kn));
                    assert(!lt(kn, kj));
                }
            } else {
                assert(q[j] == vs[j]);
                if n == m {
                    assert(q[m] == vs[m]);
                } else {
                    assert(n == vs.len() - 1);
                    if m >= 0 {
                        assert(q[m] == vs[m]);
                        assert(!version_lt(vs[m], vs[j]));
                        lemma_version_lt_is_key_order(vs[m], vs[j]);
                        lemma_version_lt_is_key_order(vs.last(), vs[m]);
                        let km = version_dir_key(vs[m]);
                        assert(vs.last() == vs[n]);
                        assert(!lt(kn, km));
                        assert(!lt(km, kj));
                        if lt(kn, kj) {
                            assert(lt(km, kn) || km == kn);
                            if lt(km, kn) {
                                assert(lt(km, kj));
                            }
                        }
                    }
                }
            }
        }
    }
}

/// A root fits a command (score 0) exactly when the command's program stem
/// (at least four bytes) or one of its arguments, at any position (at least
/// six bytes), occurs in the root, all compared in ASCII lower case; without
/// a command no root fits (score 1).
pub proof fn law_root_fit(root: Seq<char>, exec: Option<CommandSpec>)
    ensures
        exec is None ==> root_score_spec(root, exec) == 1,
        exec matches Some(e) ==> (root_score_spec(root, exec) == 0 <==> ({
            let stem = ascii_lower(match file_stem(e.program@) { Some(s) => s, None => Seq::<char>::empty() });
            (utf8_len(stem) >= 4 && contains_text(ascii_lower(root), stem)) || exists|i: int|
                0 <= i < e.args.len() && utf8_len(ascii_lower(#[trigger] e.args@[i]@)) >= 6
                    && contains_text(ascii_lower(root), ascii_lower(e.args@[i]@))
        })),
        root_score_spec(root, exec) == 0 || root_score_spec(root, exec) == 1,
{
    if let Some(e) = exec {
        if exists|i: int| 0 <= i < e.args.len() && #[trigger] arg_hint_matches(ascii_lower(root), e.args@[i]@) {
            let i = choose|i: int| 0 <= i < e.args.len() && #[trigger] arg_hint_matches(ascii_lower(root), e.args@[i]@);
            assert(utf8_len(ascii_lower(e.args@[i]@)) >= 6);
        }
        if exists|i: int| 0 <= i < e.args.len() && utf8_len(ascii_lower(#[trigger] e.args@[i]@)) >= 6
            && contains_text(ascii_lower(root), ascii_lower(e.args@[i]@)) {
            let i = choose|i: int| 0 <= i < e.args.len() && utf8_len(ascii_lower(#[trigger] e.args@[i]@)) >= 6
                && contains_text(ascii_lower(root), ascii_lower(e.args@[i]@));
            assert(arg_hint_matches(ascii_lower(root), e.args@[i]@));
        }
    }
}

} // verus!
