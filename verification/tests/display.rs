use browserfetch::browser::{from_command, Browser};
use browserfetch::extensions::{Extension, Profile, ProfileBackend};
use browserfetch::logo::{chafa_lines, icon_matches, icon_names, render_logo, resolve_icon, strip_ansi, text_logo, trim_visible_end, IconLookup};
use browserfetch::os::{desktop_name, detect_wm_process, pretty_name, session_summary, summary};
use browserfetch::output::{
    clean_version, extension_label, extension_summary_rows, extension_tree_group, positive_width, render_lines,
    render_lines_checked, row,
    separator_line, terminal_width, title_line, tree_leaf_row, truncate, Theme,
};
use browserfetch::util::{char_width, command_text, is_environment_key, is_program, parse_exec, tokenize_exec, visible_width};

fn s(v: &str) -> String {
    v.to_string()
}

#[test]
fn extension_tree_keeps_group_header_above_children() {
    let items = vec!["First extension".to_string(), "Last extension".to_string()];
    let rows = extension_tree_group("Enabled", &items, 80, Theme::new("33"));

    assert!(rows[0].contains("Enabled"));
    assert!(!rows[0].contains("├─"));
    assert!(rows[1].contains("├─ First extension"));
    assert!(rows[2].contains("└─ Last extension"));
}

#[test]
fn truncate_respects_unicode_display_width() {
    assert_eq!(truncate("日本語 browser", 12), "日本語 br...");
    assert_eq!(visible_width(&truncate("日本語 browser", 12)), 12);
}

#[test]
fn parses_terminal_width_from_columns_or_stty_output() {
    assert_eq!(positive_width("120"), Some(120));
    assert_eq!(positive_width("24 120"), Some(120));
    assert_eq!(positive_width("0"), None);
}

#[test]
fn measures_unicode_terminal_width() {
    assert_eq!(visible_width("a中e\u{0301}"), 4);
}

#[test]
fn parses_desktop_exec_field_codes() {
    let spec = parse_exec("/usr/bin/super-browser --new-window %U").expect("command spec");
    assert_eq!(spec.program, "/usr/bin/super-browser");
    assert_eq!(spec.args, vec!["--new-window"]);
    assert!(spec.env.is_empty());
}

#[test]
fn unwraps_env_and_preserves_flatpak_run_command() {
    let env_spec = parse_exec("env MOZ_ENABLE_WAYLAND=1 firefox %u").expect("env command spec");
    assert_eq!(env_spec.program, "firefox");
    assert_eq!(env_spec.args, Vec::<String>::new());
    assert_eq!(env_spec.env, vec![("MOZ_ENABLE_WAYLAND".to_string(), "1".to_string())]);

    let flatpak_spec = parse_exec("/usr/bin/flatpak run org.mozilla.firefox %U").expect("flatpak spec");
    assert_eq!(flatpak_spec.program, "/usr/bin/flatpak");
    assert_eq!(flatpak_spec.args, vec!["run".to_string(), "org.mozilla.firefox".to_string()]);
}

#[test]
fn exec_lines_without_a_program_give_nothing() {
    assert_eq!(parse_exec(""), None);
    assert_eq!(parse_exec("%U %f"), None);
    assert_eq!(parse_exec("env A=1"), None);
    let spec = parse_exec("/usr/bin/env BAD-KEY=1 prog").expect("spec");
    assert_eq!(spec.program, "BAD-KEY=1");
    assert_eq!(spec.args, vec![s("prog")]);
}

#[test]
fn tokenizer_handles_quotes_and_escapes() {
    assert_eq!(tokenize_exec(r#"a "b c" 'd\e' f\ g h\"#), vec![s("a"), s("b c"), s("d\\e"), s("f g"), s("h\\")]);
    assert_eq!(tokenize_exec("   "), Vec::<String>::new());
    assert!(is_environment_key("MOZ_ENABLE_WAYLAND"));
    assert!(!is_environment_key(""));
    assert!(!is_environment_key("A-B"));
    assert!(is_program("/usr/bin/env", "env"));
    assert!(!is_program("/usr/bin/envy", "env"));
}

#[test]
fn widths_of_characters() {
    assert_eq!(char_width('a'), 1);
    assert_eq!(char_width('中'), 2);
    assert_eq!(char_width('\u{0301}'), 0);
    assert_eq!(char_width('\n'), 0);
    assert_eq!(visible_width("\x1b[31mred\x1b[0m"), 3);
    assert_eq!(visible_width("\x1b[38;5;33"), 0);
}

#[test]
fn truncation_edges() {
    assert_eq!(truncate("abc", 3), "abc");
    assert_eq!(truncate("abcdef", 3), "...");
    assert_eq!(truncate("abcdef", 2), "..");
    assert_eq!(truncate("abcdef", 5), "ab...");
    assert_eq!(truncate("中中中中", 6), "中...");
    assert_eq!(truncate("", 0), "");
}

#[test]
fn rows_pad_keys_and_cut_values() {
    let theme = Theme::new("33");
    assert_eq!(row("OS", "Linux", 20, theme), "\x1b[38;5;33mOS        \x1b[0m: \x1b[37mLinux\x1b[0m");
    assert_eq!(row("OS", "Linux Mint", 15, theme), "\x1b[38;5;33mOS        \x1b[0m: \x1b[37m..\x1b[0m");
    assert_eq!(
        tree_leaf_row("", "└─", "Ext", 20, theme),
        "\x1b[38;5;33m          \x1b[0m: \x1b[37m└─ Ext\x1b[0m"
    );
    assert_eq!(Theme::new("999").key, "\x1b[38;5;117m");
    assert_eq!(Theme::new("208").key, "\x1b[38;5;208m");
}

#[test]
fn title_and_separator() {
    let theme = Theme::new("208");
    assert_eq!(
        title_line(theme, Some(s("ann")), None),
        "\x1b[1m\x1b[38;5;208mann\x1b[0m\x1b[2m@\x1b[0m\x1b[1m\x1b[38;5;208mhost\x1b[0m"
    );
    assert_eq!(separator_line(5), "\x1b[2m-----\x1b[0m");
    assert_eq!(separator_line(100), format!("\x1b[2m{}\x1b[0m", "-".repeat(34)));
}

#[test]
fn versions_and_labels() {
    assert_eq!(clean_version("Mozilla Firefox 128.0"), "Firefox 128.0");
    assert_eq!(clean_version("Chromium 120"), "Chromium 120");
    let e = Extension { name: s("uBlock"), version: Some(s("1.2")), id: None, active: None };
    assert_eq!(extension_label(&e), "uBlock 1.2");
    let e = Extension { name: s("Dark"), version: None, id: None, active: None };
    assert_eq!(extension_label(&e), "Dark");
}

#[test]
fn terminal_width_sources_in_order() {
    assert_eq!(terminal_width(Some(90), Some(s("24 100")), None, None), 90);
    assert_eq!(terminal_width(None, Some(s("24 0")), None, Some(s("100"))), 100);
    assert_eq!(terminal_width(None, None, Some(s("80\n")), None), 80);
    assert_eq!(terminal_width(None, None, None, None), 140);
    assert_eq!(positive_width("+7"), Some(7));
    assert_eq!(positive_width("x"), None);
    assert_eq!(positive_width("99999999999999999999999"), None);
    assert_eq!(positive_width(""), None);
}

fn browser_with(extensions: Vec<Extension>) -> Browser {
    let profile = Profile { name: None, path: s("/home/u/.mozilla/firefox/abc.default"), is_default: true };
    Browser::from_parts(
        from_command("/usr/bin/firefox"),
        Some(s("Mozilla Firefox 128.0")),
        Some(ProfileBackend::Firefox(s("/home/u/.mozilla/firefox"))),
        Some(profile),
        extensions,
        None,
    )
}

#[test]
fn extension_summary_groups_by_state() {
    let e = |n: &str, a: Option<bool>| Extension { name: s(n), version: None, id: None, active: a };
    let b = browser_with(vec![e("A", Some(true)), e("B", None), e("C", Some(true))]);
    let rows = extension_summary_rows(&b, 60, Theme::new("208"));
    assert_eq!(rows.len(), 5);
    assert!(rows[0].contains("Enabled"));
    assert!(rows[1].contains("├─ A"));
    assert!(rows[2].contains("└─ C"));
    assert!(rows[3].contains("Unknown"));
    assert!(rows[4].contains("└─ B"));
}

#[test]
fn render_lays_logo_beside_rows() {
    let e = |n: &str, a: Option<bool>| Extension { name: s(n), version: None, id: None, active: a };
    let b = browser_with(vec![e("A", Some(true)), e("B", Some(false))]);
    let logo = vec![s("ab"), s("abcd")];
    let lines = render_lines(&b, &logo, 100, "Arch Linux / 6.1", "wayland / niri", Some(s("ann")), Some(s("box")));
    assert_eq!(lines.len(), 13);
    assert!(lines[0].starts_with("ab      \x1b[1m"));
    assert!(lines[1].starts_with("abcd    \x1b[2m"));
    assert!(lines[2].starts_with("        \x1b[38;5;208mBrowser"));
    assert!(lines[2].contains("Firefox"));
    assert!(lines[3].contains("Gecko"));
    assert!(lines[4].contains("Firefox 128.0"));
    assert!(lines[5].contains("Arch Linux / 6.1"));
    assert!(lines[6].contains("wayland / niri"));
    assert!(lines[7].contains("unnamed / abc.default"));
    assert!(lines[8].contains("2 (1 enabled, 1 disabled)"));
    assert!(lines[8].ends_with("2 (1 enabled, 1 disabled)\x1b[0m"));
    assert!(lines[12].contains("└─ B"));
}

#[test]
fn logo_text_box_and_chafa_cleanup() {
    assert_eq!(
        text_logo("  Firefox "),
        vec![s("+--------------+"), s("| Firefox      |"), s("+--------------+")]
    );
    assert_eq!(render_logo(None, "Firefox"), text_logo("Firefox"));
    assert_eq!(render_logo(Some(""), "X"), text_logo("X"));
    assert_eq!(render_logo(Some("\x1b[?25lab  \n\x1b[?25h"), "X"), vec![s("ab\x1b[0m")]);
    assert_eq!(chafa_lines("x\ny"), vec![s("x"), s("y")]);
    assert_eq!(strip_ansi("\x1b[31mred\x1b[0m"), "red");
    assert_eq!(trim_visible_end("ab  \x1b[0m"), "ab\x1b[0m");
    assert_eq!(trim_visible_end("ab"), "ab");
}

#[test]
fn icons_are_searched_by_name() {
    assert_eq!(icon_names("firefox"), vec![s("firefox.png"), s("firefox.svg"), s("firefox.xpm")]);
    assert_eq!(icon_names("a.png"), vec![s("a.png")]);
    match resolve_icon("/usr/share/icons/x.png", Some("/home/u"), true) {
        IconLookup::Found(p) => assert_eq!(p, "/usr/share/icons/x.png"),
        IconLookup::Search { .. } => panic!("expected the direct path"),
    }
    match resolve_icon("firefox", Some("/home/u"), false) {
        IconLookup::Found(_) => panic!("expected a search"),
        IconLookup::Search { names, roots } => {
            assert_eq!(names.len(), 3);
            assert_eq!(
                roots,
                vec![
                    s("/home/u/.local/share/icons"),
                    s("/home/u/.icons"),
                    s("/usr/share/pixmaps"),
                    s("/usr/share/icons/hicolor"),
                    s("/usr/share/icons"),
                ]
            );
        },
    }
    match resolve_icon("relative.png", None, true) {
        IconLookup::Found(_) => panic!("a relative path is searched for"),
        IconLookup::Search { roots, .. } => assert_eq!(roots.len(), 3),
    }
}

#[test]
fn os_release_and_summary() {
    let data = "NAME=\"Arch\"\nPRETTY_NAME=\"Arch Linux\"\nID=arch\n";
    assert_eq!(pretty_name(data), Some(s("Arch Linux")));
    assert_eq!(pretty_name("ID=x\n"), None);
    assert_eq!(summary(Some(s(data)), "linux", Some(s("6.1.0"))), "Arch Linux / 6.1.0");
    assert_eq!(summary(None, "linux", None), "linux / unknown kernel");
    assert_eq!(summary(Some(s("ID=x")), "linux", None), "linux / unknown kernel");
}

#[test]
fn session_from_environment_and_processes() {
    assert_eq!(session_summary(Some(s("wayland")), None, None, Some(s("niri")), None, None), "wayland / niri");
    assert_eq!(
        session_summary(None, Some(s("wayland-0")), Some(s(":0")), None, Some(s("")), Some(s("systemd\nSway\n"))),
        "wayland / sway"
    );
    assert_eq!(session_summary(Some(s("")), None, Some(s(":0")), None, None, None), "x11 / unknown");
    assert_eq!(session_summary(None, None, None, None, Some(s("plasma")), None), "unknown / plasma");
    assert_eq!(desktop_name(&None, &Some(s("gnome"))), Some(s("gnome")));
    assert_eq!(detect_wm_process("bash\nKWin_X11\n"), Some(s("kwin_x11")));
    assert_eq!(detect_wm_process("bash\nzsh\n"), None);
}

#[test]
fn command_output_is_trimmed() {
    assert_eq!(command_text("  6.1.0-arch1\n"), Some(s("6.1.0-arch1")));
    assert_eq!(command_text(" \n\t"), None);
    assert_eq!(command_text(""), None);
}

#[test]
fn icon_files_match_by_exact_name() {
    let names = icon_names("firefox");
    assert!(icon_matches("firefox.svg", &names));
    assert!(!icon_matches("firefox", &names));
    assert!(!icon_matches("Firefox.png", &names));
}

#[test]
fn truncated_text_fits_its_width() {
    for value in ["日本語 browser", "abcdef", "\x1b[31mcolored text\x1b[0m", "中中中中中", ""] {
        for max in 0..16 {
            assert!(visible_width(&truncate(value, max)) <= max, "{value:?} at {max}");
        }
    }
}

#[test]
fn plain_exec_values_split_at_whitespace() {
    for value in ["a  b\tc", "  /usr/bin/x --flag\n", "", "one"] {
        let words: Vec<String> = value.split_whitespace().map(String::from).collect();
        assert_eq!(tokenize_exec(value), words);
    }
}

#[test]
fn trimming_the_visible_end_trims_the_visible_text() {
    for line in ["ab  \x1b[0m", "\x1b[31mred \x1b[0m  ", "plain", "  ", "x\x1b[1m \x1b[2m "] {
        let out = trim_visible_end(line);
        assert_eq!(strip_ansi(&out), strip_ansi(line).trim_end());
        if strip_ansi(line).trim_end() == strip_ansi(line) {
            assert_eq!(out, line);
        } else {
            assert!(out.ends_with("\x1b[0m"));
            assert!(line.starts_with(&out[..out.len() - 4]));
        }
    }
}

#[test]
fn width_is_the_width_of_the_stripped_text() {
    for text in ["\x1b[31m日本\x1b[0m ab", "a中e\u{0301}", "\x1b[1mbold"] {
        let sum: usize = strip_ansi(text).chars().map(char_width).sum();
        assert_eq!(visible_width(text), sum);
    }
    assert_eq!(visible_width(&format!("{}{}", "ab中", "\x1b[2mcd")), visible_width("ab中") + visible_width("\x1b[2mcd"));
}

#[test]
fn checked_render_matches_render() {
    let b = browser_with(Vec::new());
    let logo = vec![s("ab")];
    let checked = render_lines_checked(&b, &logo, 80, "os", "session", None, None).expect("fits");
    assert_eq!(checked, render_lines(&b, &logo, 80, "os", "session", None, None));
}
