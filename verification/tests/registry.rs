use mime_assoc::categories::AppCategory;
use mime_assoc::entry::AppEntry;
use mime_assoc::registry::AppRegistry;

fn locales() -> Vec<String> {
    vec![String::from("en_US")]
}

fn descriptor(name: &str, body: &str) -> (String, String) {
    (format!("/usr/share/applications/{}", name), String::from(body))
}

#[test]
fn parse_builds_a_full_entry() {
    let content = "[Desktop Entry]\nType=Application\nName=Editor\nGenericName=Text Editor\nComment=Edits text\nIcon=editor\nExec=editor %U\nTerminal=false\nMimeType=text/plain;text/markdown;\nCategories=Utility;TextEditor;\n";
    let e = AppEntry::parse(content, "/apps/editor.desktop", &locales()).unwrap();
    assert_eq!(e.id, "editor.desktop");
    assert_eq!(e.name, "Editor");
    assert_eq!(e.generic_name.as_deref(), Some("Text Editor"));
    assert_eq!(e.comment.as_deref(), Some("Edits text"));
    assert_eq!(e.icon.as_deref(), Some("editor"));
    assert_eq!(e.exec_cmd.as_deref(), Some("editor %U"));
    assert!(!e.terminal);
    assert_eq!(e.mime_types, vec!["text/plain", "text/markdown"]);
    assert_eq!(e.categories, vec!["Utility", "TextEditor"]);
    assert_eq!(e.path, "/apps/editor.desktop");
}

#[test]
fn parse_rejects_non_applications_and_hidden_ones() {
    let base = "[Desktop Entry]\nName=Thing\n";
    assert!(AppEntry::parse(base, "/a/thing.desktop", &locales()).is_none());
    let link = "[Desktop Entry]\nType=Link\nName=Thing\n";
    assert!(AppEntry::parse(link, "/a/thing.desktop", &locales()).is_none());
    let nameless = "[Desktop Entry]\nType=Application\n";
    assert!(AppEntry::parse(nameless, "/a/thing.desktop", &locales()).is_none());
    let hidden = "[Desktop Entry]\nType=Application\nName=Thing\nHidden=true\n";
    assert!(AppEntry::parse(hidden, "/a/thing.desktop", &locales()).is_none());
    let nodisplay = "[Desktop Entry]\nType=Application\nName=Thing\nNoDisplay=true\n";
    assert!(AppEntry::parse(nodisplay, "/a/thing.desktop", &locales()).is_none());
}

#[test]
fn parse_only_reads_the_desktop_entry_section() {
    let content = "[Desktop Entry]\nType=Application\nName=Real\n[Desktop Action new]\nName=Fake\nExec=fake\n";
    let e = AppEntry::parse(content, "/a/app.desktop", &locales()).unwrap();
    assert_eq!(e.name, "Real");
    assert!(e.exec_cmd.is_none());
}

#[test]
fn locale_fallback_prefers_modifier_match_over_plain_key() {
    let prefs = vec![String::from("sr_RS@latin"), String::from("en")];
    let content =
        "[Desktop Entry]\nType=Application\nName=Generic\nName[sr@latin]=\u{41d}\u{430}\u{437}\u{438}\u{432}\n";
    let e = AppEntry::parse(content, "/a/app.desktop", &prefs).unwrap();
    assert_eq!(e.name, "\u{41d}\u{430}\u{437}\u{438}\u{432}");
}

#[test]
fn locale_fallback_tries_each_preference_fully_before_the_next() {
    let values = vec![
        (String::from("Name"), String::from("plain")),
        (String::from("Name[en]"), String::from("english")),
        (String::from("Name[sr]"), String::from("serbian")),
    ];
    let prefs = vec![String::from("sr_RS@latin"), String::from("en")];
    assert_eq!(
        AppEntry::get_localized(&values, "Name", &prefs).as_deref(),
        Some("serbian")
    );
    let only_en = vec![String::from("en_GB")];
    assert_eq!(
        AppEntry::get_localized(&values, "Name", &only_en).as_deref(),
        Some("english")
    );
    let none = vec![String::from("de")];
    assert_eq!(
        AppEntry::get_localized(&values, "Name", &none).as_deref(),
        Some("plain")
    );
}

#[test]
fn mime_pattern_matching() {
    assert!(AppEntry::mime_matches_pattern("audio/*", "audio/mpeg"));
    assert!(!AppEntry::mime_matches_pattern("audio/*", "video/mp4"));
    assert!(!AppEntry::mime_matches_pattern("audio/mpeg", "audio/mpeg"));
    assert!(!AppEntry::mime_matches_pattern("audio/*", "audio/"));
    // a longer main type sharing the prefix is a different main type
    assert!(!AppEntry::mime_matches_pattern("audio/*", "audiobook/x"));
}

#[test]
fn supports_mime_type_and_has_category() {
    let content = "[Desktop Entry]\nType=Application\nName=Player\nMimeType=audio/*;video/mp4;\nCategories=AudioVideo;Player;\n";
    let e = AppEntry::parse(content, "/a/player.desktop", &locales()).unwrap();
    assert!(e.supports_mime_type("audio/mpeg"));
    assert!(e.supports_mime_type("video/mp4"));
    assert!(!e.supports_mime_type("image/png"));
    assert!(e.has_category("audiovideo"));
    assert!(e.has_category("Player"));
    assert!(!e.has_category("Office"));
}

#[test]
fn registry_first_directory_wins_for_duplicate_ids() {
    let files = vec![
        descriptor("app.desktop", "[Desktop Entry]\nType=Application\nName=First\n"),
        descriptor("app.desktop", "[Desktop Entry]\nType=Application\nName=Second\n"),
    ];
    let reg = AppRegistry::new(&files, &locales());
    assert_eq!(reg.get_app("app.desktop").unwrap().name, "First");
}

#[test]
fn registry_skips_files_without_the_descriptor_suffix() {
    let files = vec![
        (String::from("/apps/notes.txt"), String::from("[Desktop Entry]\nType=Application\nName=Notes\n")),
        (String::from("/apps/.desktop"), String::from("[Desktop Entry]\nType=Application\nName=Dot\n")),
    ];
    let reg = AppRegistry::new(&files, &locales());
    assert!(reg.get_app("notes.txt").is_none());
    assert!(reg.get_app(".desktop").is_none());
    assert!(reg.all_apps().is_empty());
}

#[test]
fn wildcard_mime_declaration_answers_concrete_queries() {
    let files = vec![
        descriptor("player.desktop", "[Desktop Entry]\nType=Application\nName=Player\nMimeType=audio/*;\n"),
    ];
    let reg = AppRegistry::new(&files, &locales());
    let for_mpeg = reg.apps_for_mime("audio/mpeg");
    assert_eq!(for_mpeg.len(), 1);
    assert_eq!(for_mpeg[0].id, "player.desktop");
    assert!(reg.apps_for_mime("video/mp4").is_empty());
}

#[test]
fn exact_matches_come_before_wildcard_matches_without_duplicates() {
    let files = vec![
        descriptor("generic.desktop", "[Desktop Entry]\nType=Application\nName=Generic\nMimeType=audio/*;\n"),
        descriptor("exact.desktop", "[Desktop Entry]\nType=Application\nName=Exact\nMimeType=audio/mpeg;audio/*;\n"),
    ];
    let reg = AppRegistry::new(&files, &locales());
    let hits = reg.apps_for_mime("audio/mpeg");
    let ids: Vec<&str> = hits.iter().map(|e| e.id.as_str()).collect();
    assert_eq!(ids, vec!["exact.desktop", "generic.desktop"]);
}

#[test]
fn hidden_descriptors_never_reach_query_results() {
    let files = vec![
        descriptor("seen.desktop", "[Desktop Entry]\nType=Application\nName=Seen\nMimeType=text/plain;\nCategories=TextEditor;\n"),
        descriptor("hidden.desktop", "[Desktop Entry]\nType=Application\nName=Hidden\nHidden=true\nMimeType=text/plain;\nCategories=TextEditor;\n"),
        descriptor("nodisplay.desktop", "[Desktop Entry]\nType=Application\nName=NoShow\nNoDisplay=true\nMimeType=text/plain;\nCategories=TextEditor;\n"),
    ];
    let reg = AppRegistry::new(&files, &locales());
    assert!(reg.get_app("hidden.desktop").is_none());
    assert!(reg.get_app("nodisplay.desktop").is_none());
    let ids: Vec<&str> = reg.apps_for_mime("text/plain").iter().map(|e| e.id.as_str()).collect();
    assert_eq!(ids, vec!["seen.desktop"]);
    let ids: Vec<&str> = reg.apps_for_category("TextEditor").iter().map(|e| e.id.as_str()).collect();
    assert_eq!(ids, vec!["seen.desktop"]);
    let ids: Vec<&str> = reg.all_apps().iter().map(|e| e.id.as_str()).collect();
    assert_eq!(ids, vec!["seen.desktop"]);
}

#[test]
fn category_lookup_ignores_ascii_case() {
    let files = vec![
        descriptor("term.desktop", "[Desktop Entry]\nType=Application\nName=Term\nCategories=TerminalEmulator;\n"),
    ];
    let reg = AppRegistry::new(&files, &locales());
    assert_eq!(reg.apps_for_category("terminalemulator").len(), 1);
    assert_eq!(reg.apps_for_category("TERMINALEMULATOR").len(), 1);
    assert!(reg.apps_for_category("Terminal").is_empty());
}

#[test]
fn category_group_unions_and_sorts_by_display_name() {
    let files = vec![
        descriptor("zeta.desktop", "[Desktop Entry]\nType=Application\nName=zeta\nMimeType=text/plain;\n"),
        descriptor("alpha.desktop", "[Desktop Entry]\nType=Application\nName=Alpha\nCategories=TextEditor;\n"),
        descriptor("beta.desktop", "[Desktop Entry]\nType=Application\nName=beta\nMimeType=text/plain;\nCategories=TextEditor;\n"),
    ];
    let reg = AppRegistry::new(&files, &locales());
    let ids: Vec<&str> = reg
        .apps_for_app_category(&AppCategory::TextEditor)
        .iter()
        .map(|e| e.id.as_str())
        .collect();
    // sorted by case-insensitive name, each application once
    assert_eq!(ids, vec!["alpha.desktop", "beta.desktop", "zeta.desktop"]);
}

#[test]
fn search_matches_name_generic_name_and_comment() {
    let files = vec![
        descriptor("one.desktop", "[Desktop Entry]\nType=Application\nName=Browser\n"),
        descriptor("two.desktop", "[Desktop Entry]\nType=Application\nName=Foo\nGenericName=Web Browser\n"),
        descriptor("three.desktop", "[Desktop Entry]\nType=Application\nName=Bar\nComment=browses the web\n"),
        descriptor("four.desktop", "[Desktop Entry]\nType=Application\nName=Calculator\n"),
    ];
    let reg = AppRegistry::new(&files, &locales());
    let ids: Vec<&str> = reg.search("BROWS").iter().map(|e| e.id.as_str()).collect();
    assert_eq!(ids, vec!["three.desktop", "one.desktop", "two.desktop"]);
}

#[test]
fn category_tables_are_consistent() {
    assert_eq!(AppCategory::all().len(), 14);
    assert_eq!(AppCategory::WebBrowser.display_name(), "Web Browser");
    assert_eq!(AppCategory::TerminalEmulator.icon_name(), "utilities-terminal");
    assert_eq!(
        AppCategory::WebBrowser.primary_mime_types()[0],
        "x-scheme-handler/http"
    );
    assert_eq!(AppCategory::WebBrowser.default_query_mime(), Some("x-scheme-handler/http"));
    assert_eq!(AppCategory::TerminalEmulator.default_query_mime(), None);
    assert_eq!(AppCategory::TerminalEmulator.desktop_categories(), vec!["TerminalEmulator"]);
    assert!(AppCategory::TextEditor.extended_mime_types().contains(&"text/markdown"));
    assert!(AppCategory::Calculator.primary_mime_types().is_empty());
}

#[test]
fn mime_without_subtype_separator_gets_no_wildcard_pass() {
    let files = vec![
        descriptor("player.desktop", "[Desktop Entry]\nType=Application\nName=Player\nMimeType=audio/*;\n"),
    ];
    let reg = AppRegistry::new(&files, &locales());
    assert!(reg.apps_for_mime("audio").is_empty());
}
