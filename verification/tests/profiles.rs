use browserfetch::extensions::{
    chromium_active_profile, chromium_extensions, chromium_profiles, detect_backend, discover_backend, firefox_extensions,
    firefox_profile_candidates, firefox_profiles, install_default_path, is_chromium_profile_root,
    is_firefox_profile_root, order_profile_roots, profile_root_candidates, profile_scan_dirs, profiles_to_read,
    root_score, sort_extensions,
    ChromiumExtensionDir, ChromiumProfileData, Extension, ExtensionSources, Profile, ProfileBackend, RootProbe,
    VersionDir,
};
use browserfetch::json::{json_string, Json};
use browserfetch::util::CommandSpec;

fn s(v: &str) -> String {
    v.to_string()
}

fn obj(fields: Vec<(&str, Json)>) -> Json {
    Json::Object(fields.into_iter().map(|(k, v)| (k.to_string(), v)).collect())
}

fn text(v: &str) -> Json {
    Json::Str(v.to_string())
}

fn command(program: &str, args: &[&str]) -> CommandSpec {
    CommandSpec { program: s(program), args: args.iter().map(|a| s(a)).collect(), env: Vec::new() }
}

#[test]
fn chromium_uses_last_used_profile() {
    let root = "/tmp/browserfetch-test-root";
    let profiles = chromium_profiles(vec![format!("{root}/Default"), format!("{root}/Profile 2")]);
    let state = obj(vec![("profile", obj(vec![("last_used", text("Profile 2"))]))]);
    let backend = ProfileBackend::Chromium(s(root));
    let profile = backend.active_profile(profiles, Some(&state)).expect("active profile");
    assert_eq!(profile.name.as_deref(), Some("Profile 2"));
}

#[test]
fn chromium_reads_state_and_numeric_extension_versions() {
    let prefs = obj(vec![(
        "extensions",
        obj(vec![(
            "settings",
            obj(vec![
                ("disabled", obj(vec![("state", Json::Number(Some(0)))])),
                ("enabled", obj(vec![("state", Json::Number(Some(1)))])),
            ]),
        )]),
    )]);
    let manifest = |name: &str, version: &str| Some(obj(vec![("name", text(name)), ("version", text(version))]));
    let profile = ChromiumProfileData {
        preferences: Some(prefs),
        extension_dirs: vec![
            ChromiumExtensionDir {
                path: s("/p/Default/Extensions/disabled"),
                versions: vec![
                    VersionDir { path: s("/p/Default/Extensions/disabled/9.9.0"), manifest: manifest("Disabled", "9.9.0") },
                    VersionDir { path: s("/p/Default/Extensions/disabled/10.0.0"), manifest: manifest("Disabled", "10.0.0") },
                ],
            },
            ChromiumExtensionDir {
                path: s("/p/Default/Extensions/enabled"),
                versions: vec![VersionDir {
                    path: s("/p/Default/Extensions/enabled/1.0.0"),
                    manifest: manifest("Enabled", "1.0.0"),
                }],
            },
        ],
    };
    let extensions = chromium_extensions(&vec![profile]);
    let disabled = extensions.iter().find(|extension| extension.name == "Disabled").expect("disabled extension");
    let enabled = extensions.iter().find(|extension| extension.name == "Enabled").expect("enabled extension");
    assert_eq!(disabled.version.as_deref(), Some("10.0.0"));
    assert_eq!(disabled.active, Some(false));
    assert_eq!(enabled.active, Some(true));
}

#[test]
fn executable_hint_prioritizes_matching_profile_root() {
    let exec = command("/usr/lib/firefox/firefox", &[]);
    let firefox_root = "/tmp/.config/mozilla/firefox";
    let chromium_root = "/tmp/.config/google-chrome";
    assert!(root_score(firefox_root, Some(&exec)) < root_score(chromium_root, Some(&exec)));
}

#[test]
fn unrelated_profile_root_is_not_used_as_backend() {
    let root = "/tmp/browserfetch-test-unrelated";
    let candidates = firefox_profile_candidates(root, "[Profile0]\nName=default\nIsRelative=1\nPath=profile\n");
    assert_eq!(candidates.len(), 1);
    assert_eq!(candidates[0].path, format!("{root}/profile"));
    let profiles = firefox_profiles(candidates.into_iter().map(|p| (p, true)).collect());
    let probe = RootProbe { path: s(root), is_firefox_root: is_firefox_profile_root(true, &profiles), is_chromium_root: false };
    assert!(probe.is_firefox_root);
    let exec = command("/usr/bin/foo-browser", &[]);
    assert_eq!(detect_backend(probe, Some(&exec)), None);
}

#[test]
fn matching_root_is_used_as_backend() {
    let exec = command("/usr/bin/firefox", &[]);
    let probe = RootProbe { path: s("/home/u/.mozilla/firefox"), is_firefox_root: true, is_chromium_root: false };
    assert_eq!(detect_backend(probe, Some(&exec)), Some(ProfileBackend::Firefox(s("/home/u/.mozilla/firefox"))));
    let probe = RootProbe { path: s("/home/u/.config/chromium"), is_firefox_root: false, is_chromium_root: true };
    let exec = command("/usr/bin/chromium", &[]);
    assert_eq!(detect_backend(probe, Some(&exec)), Some(ProfileBackend::Chromium(s("/home/u/.config/chromium"))));
}

#[test]
fn no_command_finds_no_backend() {
    let roots = vec![RootProbe { path: s("/home/u/.mozilla/firefox"), is_firefox_root: true, is_chromium_root: false }];
    assert_eq!(discover_backend(None, roots), None);
}

#[test]
fn discover_takes_first_fitting_root() {
    let exec = command("/usr/bin/flatpak", &["run", "org.mozilla.firefox"]);
    let roots = vec![
        RootProbe { path: s("/home/u/.config/google-chrome"), is_firefox_root: false, is_chromium_root: true },
        RootProbe { path: s("/home/u/.var/app/org.mozilla.firefox/.mozilla/firefox"), is_firefox_root: true, is_chromium_root: false },
    ];
    assert_eq!(
        discover_backend(Some(&exec), roots),
        Some(ProfileBackend::Firefox(s("/home/u/.var/app/org.mozilla.firefox/.mozilla/firefox")))
    );
}

#[test]
fn root_scores() {
    assert_eq!(root_score("/home/u/.mozilla/firefox", None), 1);
    assert_eq!(root_score("/home/u/.config/BraveSoftware/Brave-Browser", Some(&command("/usr/bin/brave", &[]))), 0);
    assert_eq!(root_score("/home/u/.config/foo", Some(&command("/usr/bin/foo", &[]))), 1);
    assert_eq!(root_score("/x/org.chromium.chromium/y", Some(&command("/usr/bin/flatpak", &["org.chromium.Chromium"]))), 0);
}

#[test]
fn roots_are_ordered_by_fit_then_path() {
    let exec = command("/usr/bin/firefox", &[]);
    let roots = vec![s("/h/.config/zz"), s("/h/.config/aa"), s("/h/.mozilla/firefox"), s("/h/.config/aa")];
    assert_eq!(
        order_profile_roots(roots, Some(&exec)),
        vec![s("/h/.mozilla/firefox"), s("/h/.config/aa"), s("/h/.config/zz")]
    );
}

#[test]
fn install_section_names_the_default_path() {
    let ini = "[Profile0]\nDefault=ignored\n[Install4F96D1932A9F858E]\nDefault=abc.default-release\nLocked=1\n";
    assert_eq!(install_default_path(ini), Some(s("abc.default-release")));
    assert_eq!(install_default_path("[Profile0]\nDefault=1\n"), None);
}

#[test]
fn firefox_profiles_keep_existing_and_put_default_first() {
    let ini = "[Install1]\nDefault=b.profile\n\n[Profile0]\nName=alpha\nIsRelative=1\nPath=a.profile\n\n[Profile1]\nName=beta\nIsRelative=1\nPath=b.profile\n\n[Profile2]\nName=gone\nPath=/abs/c\nIsRelative=0\n";
    let candidates = firefox_profile_candidates("/root", ini);
    assert_eq!(candidates.len(), 3);
    assert_eq!(candidates[2].path, "/abs/c");
    assert!(candidates[1].is_default);
    let exists = [true, true, false];
    let profiles = firefox_profiles(candidates.into_iter().zip(exists).collect());
    assert_eq!(profiles.len(), 2);
    assert_eq!(profiles[0].name.as_deref(), Some("beta"));
    assert_eq!(profiles[1].name.as_deref(), Some("alpha"));
    let backend = ProfileBackend::Firefox(s("/root"));
    assert_eq!(backend.active_profile(profiles, None).expect("profile").name.as_deref(), Some("beta"));
}

#[test]
fn chromium_profiles_default_first() {
    let profiles = chromium_profiles(vec![s("/r/Profile 3"), s("/r/System Profile"), s("/r/Default"), s("/r/Profile 1")]);
    let names: Vec<_> = profiles.iter().map(|p| p.name.clone().unwrap_or_default()).collect();
    assert_eq!(names, vec![s("Default"), s("Profile 1"), s("Profile 3")]);
    assert!(profiles[0].is_default);
    let backend = ProfileBackend::Chromium(s("/r"));
    assert_eq!(backend.active_profile(profiles, None).expect("first").name.as_deref(), Some("Default"));
    assert_eq!(backend.root(), "/r");
}

#[test]
fn firefox_addons_are_filtered_and_named() {
    let addon = |fields: Vec<(&str, Json)>| obj(fields);
    let doc = obj(vec![(
        "addons",
        Json::Array(vec![
            addon(vec![
                ("type", text("extension")),
                ("id", text("ublock@raymondhill.net")),
                ("version", text("1.60.0")),
                ("active", Json::Bool(true)),
                ("defaultLocale", obj(vec![("name", text(" uBlock Origin "))])),
            ]),
            addon(vec![("type", text("theme")), ("id", text("dark@mozilla.org"))]),
            addon(vec![("type", text("extension")), ("id", text("hidden@x")), ("hidden", Json::Bool(true))]),
            addon(vec![("type", text("extension")), ("id", text("invisible@x")), ("visible", Json::Bool(false))]),
            addon(vec![("type", text("extension")), ("id", text("bare@x")), ("active", Json::Bool(false))]),
        ]),
    )]);
    let exts = firefox_extensions(&vec![Some(doc), None]);
    assert_eq!(exts.len(), 2);
    assert_eq!(exts[0].name, "bare@x");
    assert_eq!(exts[0].active, Some(false));
    assert_eq!(exts[1].name, "uBlock Origin");
    assert_eq!(exts[1].version.as_deref(), Some("1.60.0"));
    let backend = ProfileBackend::Firefox(s("/r"));
    assert_eq!(backend.extensions(&ExtensionSources::Chromium(Vec::new())).len(), 0);
    assert_eq!(backend.engine(), browserfetch::browser::Engine::Gecko);
}

#[test]
fn extensions_sort_by_lowercase_name_and_drop_repeats() {
    let e = |name: &str, id: Option<&str>| Extension { name: s(name), version: None, id: id.map(s), active: None };
    let sorted = sort_extensions(vec![e("beta", Some("b")), e("Alpha", Some("a")), e("alpha", None), e("beta", Some("b"))]);
    let names: Vec<_> = sorted.iter().map(|x| x.name.clone()).collect();
    assert_eq!(names, vec![s("Alpha"), s("alpha"), s("beta")]);
}

#[test]
fn read_profiles_are_the_active_one_or_all() {
    let p = |n: &str| Profile { name: Some(s(n)), path: format!("/r/{n}"), is_default: false };
    assert_eq!(profiles_to_read(Some(p("a")), vec![p("b"), p("c")]), vec![p("a")]);
    assert_eq!(profiles_to_read(None, vec![p("b"), p("c")]), vec![p("b"), p("c")]);
}

#[test]
fn chromium_root_needs_local_state_and_a_used_profile() {
    assert!(is_chromium_profile_root(true, &vec![false, true]));
    assert!(!is_chromium_profile_root(true, &vec![false, false]));
    assert!(!is_chromium_profile_root(false, &vec![true]));
    assert!(!is_firefox_profile_root(true, &Vec::new()));
}

#[test]
fn json_strings_are_trimmed_and_non_empty() {
    let j = obj(vec![("name", text("  x ")), ("empty", text("   ")), ("n", Json::Number(Some(3)))]);
    assert_eq!(json_string(&j, "name"), Some(s("x")));
    assert_eq!(json_string(&j, "empty"), None);
    assert_eq!(json_string(&j, "n"), None);
    assert_eq!(json_string(&j, "missing"), None);
}

#[test]
fn profile_roots_start_with_the_firefox_places() {
    assert_eq!(
        profile_scan_dirs("/home/u"),
        vec![(s("/home/u/.config"), 2), (s("/home/u/.mozilla"), 2), (s("/home/u/.var/app"), 4)]
    );
    assert_eq!(
        profile_root_candidates("/home/u", &vec![s("/home/u/.config/chromium")], None),
        vec![
            s("/home/u/.config/chromium"),
            s("/home/u/.config/mozilla/firefox"),
            s("/home/u/.mozilla/firefox"),
            s("/home/u/.var/app/org.mozilla.firefox/.mozilla/firefox"),
        ]
    );
    let exec = command("/usr/bin/chromium", &[]);
    assert_eq!(
        profile_root_candidates(
            "/home/u",
            &vec![s("/home/u/.mozilla/firefox"), s("/home/u/.config/chromium"), s("/home/u/.config/aaa")],
            Some(&exec),
        ),
        vec![
            s("/home/u/.config/chromium"),
            s("/home/u/.config/aaa"),
            s("/home/u/.config/mozilla/firefox"),
            s("/home/u/.mozilla/firefox"),
            s("/home/u/.var/app/org.mozilla.firefox/.mozilla/firefox"),
        ]
    );
}

#[test]
fn profiles_ini_sections_follow_the_last_value() {
    let ini = "[Profile0]\nPath=a\nPath=b\n Name = spaced \nIsRelative=0\n\n[Profile1]\nName=x\n[Profile2]\nPath=/abs\nDefault=1\nNoEquals\n";
    let c = firefox_profile_candidates("/r", ini);
    assert_eq!(c.len(), 2);
    assert_eq!(c[0].path, "b");
    assert_eq!(c[0].name, None);
    assert!(!c[0].is_default);
    assert_eq!(c[1].path, "/abs");
    assert!(c[1].is_default);
}

#[test]
fn chromium_extension_names_fall_back_to_the_id() {
    let manifest = |fields: Vec<(&str, Json)>| Some(obj(fields));
    let dir = |id: &str, versions: Vec<VersionDir>| ChromiumExtensionDir { path: format!("/p/Extensions/{id}"), versions };
    let v = |path: &str, m: Option<Json>| VersionDir { path: s(path), manifest: m };
    let profile = ChromiumProfileData {
        preferences: None,
        extension_dirs: vec![
            dir("abc", vec![v("/p/Extensions/abc/1.0", manifest(vec![("name", text("__MSG_appName__")), ("version", text("1.0"))]))]),
            dir("nover", vec![
                v("/p/Extensions/nover/b", manifest(vec![("name", text("NoVersion"))])),
                v("/p/Extensions/nover/a", manifest(vec![("name", text("Versioned")), ("version", text("0.1"))])),
            ]),
            dir("empty", Vec::new()),
            dir("broken", vec![v("/p/Extensions/broken/1", None)]),
        ],
    };
    let exts = chromium_extensions(&vec![profile]);
    let names: Vec<_> = exts.iter().map(|e| e.name.clone()).collect();
    assert_eq!(names, vec![s("abc"), s("Versioned")]);
    assert_eq!(exts[0].id.as_deref(), Some("abc"));
    assert_eq!(exts[0].active, None);
    assert_eq!(exts[1].version.as_deref(), Some("0.1"));
}

#[test]
fn version_directories_compare_numerically() {
    let manifest = |version: &str| Some(obj(vec![("name", text("E")), ("version", text(version))]));
    let profile = ChromiumProfileData {
        preferences: None,
        extension_dirs: vec![ChromiumExtensionDir {
            path: s("/p/Extensions/e"),
            versions: vec![
                VersionDir { path: s("/p/Extensions/e/1.10.0"), manifest: manifest("1.10.0") },
                VersionDir { path: s("/p/Extensions/e/1.9.9"), manifest: manifest("1.9.9") },
                VersionDir { path: s("/p/Extensions/e/1.2.99999999999999999999"), manifest: manifest("1.2.99999999999999999999") },
            ],
        }],
    };
    let exts = chromium_extensions(&vec![profile]);
    assert_eq!(exts.len(), 1);
    assert_eq!(exts[0].version.as_deref(), Some("1.10.0"));
}

#[test]
fn chromium_falls_back_to_the_first_profile() {
    let profiles = || chromium_profiles(vec![s("/r/Profile 1"), s("/r/Default")]);
    let state = obj(vec![("profile", obj(vec![("last_used", text("Profile 9"))]))]);
    assert_eq!(chromium_active_profile(profiles(), Some(&state)).expect("first").name.as_deref(), Some("Default"));
    let odd = obj(vec![("profile", obj(vec![("last_used", Json::Number(Some(2)))]))]);
    assert_eq!(chromium_active_profile(profiles(), Some(&odd)).expect("first").name.as_deref(), Some("Default"));
    assert_eq!(chromium_active_profile(Vec::new(), None), None);
}
