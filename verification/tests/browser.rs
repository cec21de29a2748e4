use browserfetch::browser::{
    command_display_name, desktop_dirs, files_to_read, find_desktop_entry, desktop_entries, desktop_value, engine_from_version, executable_candidates,
    from_command, is_executable_mode, parse_desktop_entry,
    selector_key, Browser, DesktopEntry, Engine,
};
use browserfetch::extensions::{Extension, Profile, ProfileBackend};

fn entry(id: &str, data: &str) -> DesktopEntry {
    parse_desktop_entry(id, data)
}

#[test]
fn selector_matches_helium_name_and_executable() {
    let entry = parse_desktop_entry(
        "net.imput.Helium.desktop",
        "Name=Helium\nExec=/nix/store/example/bin/helium %U\nCategories=Network;WebBrowser;\n",
    );
    assert!(entry.matches_selector("helium"));
    assert!(entry.is_browser());
}

#[test]
fn detects_servo_from_self_reported_version() {
    assert_eq!(engine_from_version("Servo 2026-08-09"), Some(Engine::Servo));
    assert_eq!(engine_from_version("FooBrowser 1.0"), None);
}

#[test]
fn engine_colors_and_names() {
    assert_eq!(Engine::Gecko.color(), "208");
    assert_eq!(Engine::Blink.color(), "33");
    assert_eq!(Engine::WebKitGtk.color(), "39");
    assert_eq!(Engine::Servo.color(), "201");
    assert_eq!(Engine::WebKitGtk.name(), "WebKitGTK");
    assert_eq!(Engine::Gecko.name(), "Gecko");
}

#[test]
fn desktop_value_skips_comments_and_trims() {
    let data = "# Name=Commented\n  #Name=Also\nName= Firefox  \nName=Second\n";
    assert_eq!(desktop_value(data, "Name"), Some("Firefox".to_string()));
    assert_eq!(desktop_value(data, "Icon"), None);
    assert_eq!(desktop_value("NameX=1\n", "Name"), None);
}

#[test]
fn parses_a_whole_desktop_entry() {
    let e = entry(
        "firefox.desktop",
        "[Desktop Entry]\nName=Firefox\nExec=env MOZ_ENABLE_WAYLAND=1 firefox %u\nIcon=firefox\nCategories=Network;WebBrowser;\n",
    );
    assert_eq!(e.id, "firefox.desktop");
    assert_eq!(e.name.as_deref(), Some("Firefox"));
    assert_eq!(e.icon.as_deref(), Some("firefox"));
    let cmd = e.command.expect("command");
    assert_eq!(cmd.program, "firefox");
    assert_eq!(cmd.env, vec![("MOZ_ENABLE_WAYLAND".to_string(), "1".to_string())]);
    assert!(!entry("gimp.desktop", "Name=GIMP\nCategories=Graphics;\n").is_browser());
    assert!(!entry("x.desktop", "Name=X\n").is_browser());
    assert!(!entry("y.desktop", "Categories=WebBrowserish;\n").is_browser());
}

#[test]
fn selector_keys_drop_punctuation_and_suffix() {
    assert_eq!(selector_key("  Firefox.desktop "), "firefox");
    assert_eq!(selector_key("org.mozilla.firefox.desktop"), "orgmozillafirefox");
    assert_eq!(selector_key("Google-Chrome"), "googlechrome");
    assert_eq!(selector_key("..."), "");
}

#[test]
fn selector_matches_by_suffix_of_any_name() {
    let e = entry(
        "org.mozilla.firefox.desktop",
        "Name=Firefox Web Browser\nExec=/usr/lib/firefox/firefox %u\nIcon=org.mozilla.firefox\n",
    );
    assert!(e.matches_selector("firefox"));
    assert!(e.matches_selector("Firefox.desktop"));
    assert!(e.matches_selector("web browser"));
    assert!(!e.matches_selector("chrome"));
    assert!(!e.matches_selector("   "));
}

#[test]
fn display_names_from_programs() {
    assert_eq!(command_display_name("/usr/bin/google-chrome-stable"), "Google Chrome Stable");
    assert_eq!(command_display_name("/usr/bin/firefox"), "Firefox");
    assert_eq!(command_display_name("/opt/a__b-"), "A B");
    assert_eq!(command_display_name(""), "Browser");
}

#[test]
fn a_program_becomes_a_browser_without_arguments() {
    let s = from_command("/usr/bin/brave-browser");
    assert_eq!(s.name, "Brave Browser");
    let cmd = s.command.expect("command");
    assert_eq!(cmd.program, "/usr/bin/brave-browser");
    assert!(cmd.args.is_empty());
    assert!(cmd.env.is_empty());
    assert_eq!(s.icon_name, None);
}

fn sample_entries() -> Vec<DesktopEntry> {
    vec![
        entry("gimp.desktop", "Name=GIMP\nExec=gimp %U\nCategories=Graphics;\n"),
        entry("firefox.desktop", "Name=Firefox\nExec=/usr/bin/firefox %u\nIcon=firefox\nCategories=Network;WebBrowser;\n"),
        entry("brave-browser.desktop", "Name=brave\nExec=/usr/bin/brave %U\nCategories=WebBrowser;\n"),
        entry("noname.desktop", "Exec=/usr/bin/noname\nCategories=WebBrowser\n"),
    ]
}

#[test]
fn detect_uses_the_reported_default_entry() {
    let s = Browser::detect(Some("firefox.desktop".to_string()), sample_entries());
    assert_eq!(s.name, "Firefox");
    assert_eq!(s.icon_name.as_deref(), Some("firefox"));
    assert_eq!(s.command.expect("command").program, "/usr/bin/firefox");

    let unknown = Browser::detect(Some("missing.desktop".to_string()), sample_entries());
    assert_eq!(unknown.name, "Unknown browser");
    assert!(unknown.command.is_none());

    let blank = Browser::detect(Some("   ".to_string()), sample_entries());
    assert_eq!(blank.name, "Unknown browser");

    let none = Browser::detect(None, sample_entries());
    assert_eq!(none.name, "Unknown browser");

    let unnamed = Browser::detect(Some("noname.desktop".to_string()), sample_entries());
    assert_eq!(unnamed.name, "/usr/bin/noname");
}

#[test]
fn detect_selector_prefers_entries_then_programs() {
    let s = Browser::detect_selector("firefox", sample_entries(), None).expect("entry");
    assert_eq!(s.name, "Firefox");
    let p = Browser::detect_selector("vivaldi", sample_entries(), Some("/usr/bin/vivaldi-stable".to_string()))
        .expect("program");
    assert_eq!(p.name, "Vivaldi Stable");
    assert!(Browser::detect_selector("vivaldi", sample_entries(), None).is_none());
}

#[test]
fn installed_browsers_are_sorted_and_programs_added() {
    let list = Browser::installed_browsers(
        sample_entries(),
        vec!["/usr/bin/firefox".to_string(), "/usr/bin/vivaldi-stable".to_string()],
    );
    assert_eq!(
        list,
        vec![
            ("brave".to_string(), "brave-browser.desktop".to_string()),
            ("Firefox".to_string(), "firefox.desktop".to_string()),
            ("noname.desktop".to_string(), "noname.desktop".to_string()),
            ("Vivaldi Stable".to_string(), "PATH:/usr/bin/vivaldi-stable".to_string()),
        ]
    );
}

#[test]
fn installed_browsers_drop_repeated_ids() {
    let entries = vec![
        entry("a.desktop", "Name=Same\nCategories=WebBrowser;\n"),
        entry("a.desktop", "Name=Same\nCategories=WebBrowser;\n"),
    ];
    let list = Browser::installed_browsers(entries, Vec::new());
    assert_eq!(list, vec![("Same".to_string(), "a.desktop".to_string())]);
}

#[test]
fn completion_candidates_ignore_case_repeats() {
    let entries = vec![
        entry("b.desktop", "Name=firefox\nCategories=WebBrowser;\n"),
        entry("a.desktop", "Name=Firefox\nCategories=WebBrowser;\n"),
        entry("c.desktop", "Name=Brave\nCategories=WebBrowser;\n"),
    ];
    let names = Browser::completion_candidates(entries, vec!["/usr/bin/epiphany".to_string()]);
    assert_eq!(names, vec!["Brave".to_string(), "Epiphany".to_string(), "Firefox".to_string()]);
}

#[test]
fn desktop_files_first_id_wins() {
    let files = vec![
        ("/a/firefox.desktop".to_string(), Some("Name=First\n".to_string())),
        ("/b/firefox.desktop".to_string(), Some("Name=Second\n".to_string())),
        ("/a/readme.txt".to_string(), Some("Name=Text\n".to_string())),
        ("/a/x.desktop".to_string(), None),
        ("/b/x.desktop".to_string(), Some("Name=Later\n".to_string())),
        ("/b/y.desktop".to_string(), Some("Name=Y\n".to_string())),
    ];
    let entries = desktop_entries(files);
    assert_eq!(entries.len(), 2);
    assert_eq!(entries[0].id, "firefox.desktop");
    assert_eq!(entries[0].name.as_deref(), Some("First"));
    assert_eq!(entries[1].id, "y.desktop");
}

#[test]
fn browser_parts_pick_engine_and_color() {
    let source = from_command("/usr/bin/servo");
    let b = Browser::from_parts(source, Some("Servo 0.1".to_string()), None, None, Vec::new(), None);
    assert_eq!(b.engine, Some(Engine::Servo));
    assert_eq!(b.color, "201");

    let source = from_command("/usr/bin/firefox");
    let backend = ProfileBackend::Firefox("/home/u/.mozilla/firefox".to_string());
    let profile = Profile { name: Some("default".to_string()), path: "/home/u/.mozilla/firefox/p".to_string(), is_default: true };
    let ext = Extension { name: "uBlock".to_string(), version: None, id: None, active: Some(true) };
    let b = Browser::from_parts(source, None, Some(backend), Some(profile), vec![ext], Some("/icon.png".to_string()));
    assert_eq!(b.engine, Some(Engine::Gecko));
    assert_eq!(b.color, "208");
    assert_eq!(b.extensions.len(), 1);

    let b = Browser::from_parts(from_command("x"), Some("1.0".to_string()), None, None, Vec::new(), None);
    assert_eq!(b.engine, None);
    assert_eq!(b.color, "117");
}

#[test]
fn desktop_dirs_in_search_order() {
    let dirs = desktop_dirs(
        Some("/home/u"),
        Some("/home/u/.data"),
        &vec!["/nix/a".to_string(), "/nix/b/".to_string()],
        &vec!["/usr/share".to_string()],
    );
    assert_eq!(
        dirs,
        vec![
            "/home/u/.nix-profile/share/applications".to_string(),
            "/home/u/.local/share/applications".to_string(),
            "/home/u/.data/applications".to_string(),
            "/nix/a/share/applications".to_string(),
            "/nix/b/share/applications".to_string(),
            "/usr/share/applications".to_string(),
            "/usr/local/share/applications".to_string(),
            "/usr/share/applications".to_string(),
        ]
    );
    assert_eq!(desktop_dirs(None, None, &Vec::new(), &Vec::new()).len(), 2);
}

#[test]
fn executables_are_looked_up_on_the_path() {
    assert_eq!(
        executable_candidates("firefox", Some(vec!["/usr/bin".to_string(), "/bin/".to_string()])),
        vec!["/usr/bin/firefox".to_string(), "/bin/firefox".to_string()]
    );
    assert_eq!(executable_candidates("./firefox", Some(vec!["/usr/bin".to_string()])), vec!["./firefox".to_string()]);
    assert_eq!(executable_candidates("/opt/x/browser", None), vec!["/opt/x/browser".to_string()]);
    assert!(executable_candidates("firefox", None).is_empty());
    assert!(is_executable_mode(true, 0o755));
    assert!(is_executable_mode(true, 0o100));
    assert!(!is_executable_mode(true, 0o644));
    assert!(!is_executable_mode(false, 0o755));
}

#[test]
fn desktop_entries_are_found_by_exact_id() {
    assert_eq!(find_desktop_entry(sample_entries(), "firefox.desktop").expect("entry").name.as_deref(), Some("Firefox"));
    assert!(find_desktop_entry(sample_entries(), "Firefox.desktop").is_none());
    assert!(find_desktop_entry(Vec::new(), "firefox.desktop").is_none());
}

#[test]
fn only_the_first_desktop_file_of_an_id_is_read() {
    let paths: Vec<String> = ["/a/firefox.desktop", "/a/notes.txt", "/b/firefox.desktop", "/b/brave.desktop", "/c/brave.desktop"]
        .iter()
        .map(|p| p.to_string())
        .collect();
    assert_eq!(files_to_read(&paths), vec![true, false, false, true, false]);
}

#[test]
fn entries_are_picked_by_each_own_name() {
    let e = entry(
        "org.mozilla.firefox.desktop",
        "Name=Firefox Web Browser\nExec=/usr/lib/firefox/firefox %u\nIcon=org.mozilla.firefox\n",
    );
    assert!(e.matches_selector("org.mozilla.firefox.desktop"));
    assert!(e.matches_selector("Firefox Web Browser"));
    assert!(e.matches_selector("/usr/lib/firefox/firefox"));
    assert!(e.matches_selector("org.mozilla.firefox"));
}

#[test]
fn text_of_unread_files_changes_nothing() {
    let with_text = vec![
        ("/a/x.desktop".to_string(), Some("Name=X\n".to_string())),
        ("/b/x.desktop".to_string(), Some("Name=Other\n".to_string())),
        ("/b/notes.txt".to_string(), Some("Name=Text\n".to_string())),
    ];
    let without = vec![
        ("/a/x.desktop".to_string(), Some("Name=X\n".to_string())),
        ("/b/x.desktop".to_string(), None),
        ("/b/notes.txt".to_string(), None),
    ];
    let a = desktop_entries(with_text);
    let b = desktop_entries(without);
    assert_eq!(a.len(), b.len());
    assert_eq!(a[0].name, b[0].name);
}

#[test]
fn completion_candidates_cover_every_name_once() {
    let entries = vec![
        entry("a.desktop", "Name=Zed\nCategories=WebBrowser;\n"),
        entry("b.desktop", "Name=zed\nCategories=WebBrowser;\n"),
        entry("c.desktop", "Name=alpha\nCategories=WebBrowser;\n"),
        entry("d.desktop", "Name=ZED\nCategories=WebBrowser;\n"),
    ];
    let names = Browser::completion_candidates(entries, Vec::new());
    assert_eq!(names, vec!["alpha".to_string(), "Zed".to_string()]);
}
