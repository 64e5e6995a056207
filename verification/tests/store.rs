use mime_assoc::mimeapps::MimeAppsConfig;
use mime_assoc::mimeapps::ParsedMimeApps;

#[test]
fn test_validate_mime_type() {
    assert!(MimeAppsConfig::validate_mime_type("text/plain").is_ok());
    assert!(MimeAppsConfig::validate_mime_type("application/x-desktop").is_ok());
    assert!(MimeAppsConfig::validate_mime_type("x-scheme-handler/http").is_ok());
    assert!(MimeAppsConfig::validate_mime_type("image/svg+xml").is_ok());

    assert!(MimeAppsConfig::validate_mime_type("invalid").is_err());
    assert!(MimeAppsConfig::validate_mime_type("/subtype").is_err());
    assert!(MimeAppsConfig::validate_mime_type("type/").is_err());
    assert!(MimeAppsConfig::validate_mime_type("").is_err());
}

#[test]
fn test_validate_app_id() {
    assert!(MimeAppsConfig::validate_app_id("firefox.desktop").is_ok());
    assert!(MimeAppsConfig::validate_app_id("org.mozilla.Firefox.desktop").is_ok());

    assert!(MimeAppsConfig::validate_app_id("firefox").is_err());
    assert!(MimeAppsConfig::validate_app_id(".desktop").is_err());
    assert!(MimeAppsConfig::validate_app_id("").is_err());
}

#[test]
fn set_default_then_get_default() {
    let mut store = MimeAppsConfig::empty(String::from("mimeapps.list"));
    assert!(store.set_default("text/plain", "gedit.desktop").is_ok());
    assert_eq!(store.get_default("text/plain"), Some("gedit.desktop"));

    assert!(store.set_default("text/plain", "vim.desktop").is_ok());
    assert_eq!(store.get_default("text/plain"), Some("vim.desktop"));
    assert_eq!(store.get_default("image/png"), None);
}

#[test]
fn set_default_rejects_bad_input_unchanged() {
    let mut store = MimeAppsConfig::empty(String::from("mimeapps.list"));
    assert!(store.set_default("text/plain", "gedit.desktop").is_ok());
    assert!(store.set_default("invalid", "vim.desktop").is_err());
    assert!(store.set_default("text/plain", "vim").is_err());
    assert_eq!(store.get_default("text/plain"), Some("gedit.desktop"));
}

#[test]
fn set_default_promotes_added_association() {
    let mut store = MimeAppsConfig::empty(String::from("mimeapps.list"));
    assert!(store.set_default("text/plain", "a.desktop").is_ok());
    assert!(store.set_default("text/plain", "b.desktop").is_ok());
    // the latest default leads, the earlier one stays as an association
    assert_eq!(store.get_associations("text/plain"), vec!["b.desktop", "a.desktop"]);
}

#[test]
fn set_default_for_mimes_stops_at_first_bad_one() {
    let mut store = MimeAppsConfig::empty(String::from("mimeapps.list"));
    let mimes = ["text/plain", "bad mime", "image/png"];
    assert!(store.set_default_for_mimes(&mimes, "app.desktop").is_err());
    // the MIME type before the bad one was committed, the one after was not
    assert_eq!(store.get_default("text/plain"), Some("app.desktop"));
    assert_eq!(store.get_default("image/png"), None);
}

#[test]
fn remove_default_clears_only_the_default() {
    let mut store = MimeAppsConfig::empty(String::from("mimeapps.list"));
    assert!(store.set_default("text/plain", "gedit.desktop").is_ok());
    store.remove_default("text/plain");
    assert_eq!(store.get_default("text/plain"), None);
    // the added association survives
    assert_eq!(store.get_associations("text/plain"), vec!["gedit.desktop"]);
    // removing an absent key is fine
    store.remove_default("video/mp4");
}

#[test]
fn parse_reads_sections_comments_and_blank_lines() {
    let content = "# comment\n\n[Default Applications]\ntext/plain=gedit.desktop\n\n[Added Associations]\ntext/plain=gedit.desktop;vim.desktop;\n\n[Removed Associations]\ntext/plain=kate.desktop;\n";
    let parsed = ParsedMimeApps::parse(content);
    assert_eq!(parsed.default_apps.get("text/plain").unwrap(), &vec![String::from("gedit.desktop")]);
    assert_eq!(
        parsed.added_associations.get("text/plain").unwrap(),
        &vec![String::from("gedit.desktop"), String::from("vim.desktop")]
    );
    assert_eq!(
        parsed.removed_associations.get("text/plain").unwrap(),
        &vec![String::from("kate.desktop")]
    );
}

#[test]
fn parse_tolerates_crlf_and_junk() {
    let content = "[Default Applications]\r\ntext/plain=gedit.desktop\r\nno-equals-line\r\nempty=\r\nstray=entry-outside;of-known-section\r\n";
    let parsed = ParsedMimeApps::parse(content);
    assert_eq!(parsed.default_apps.get("text/plain").unwrap(), &vec![String::from("gedit.desktop")]);
    assert!(parsed.default_apps.get("empty").is_none());
    assert!(parsed.default_apps.get("no-equals-line").is_none());
}

#[test]
fn merge_higher_priority_default_replaces() {
    let mut store = MimeAppsConfig::empty(String::from("mimeapps.list"));
    let low = ParsedMimeApps::parse("[Default Applications]\ntext/plain=low.desktop\nimage/png=pics.desktop\n");
    let high = ParsedMimeApps::parse("[Default Applications]\ntext/plain=high.desktop\n");
    store.merge_from(low);
    store.merge_from(high);
    assert_eq!(store.get_default("text/plain"), Some("high.desktop"));
    assert_eq!(store.get_default("image/png"), Some("pics.desktop"));
}

#[test]
fn merge_added_associations_union_is_order_independent_as_sets() {
    let src_a = "[Added Associations]\ntext/plain=a.desktop;b.desktop;\n";
    let src_b = "[Added Associations]\ntext/plain=b.desktop;c.desktop;\n";

    let mut one = MimeAppsConfig::empty(String::from("mimeapps.list"));
    one.merge_from(ParsedMimeApps::parse(src_a));
    one.merge_from(ParsedMimeApps::parse(src_b));
    let mut ids_one = one.get_associations("text/plain");

    let mut two = MimeAppsConfig::empty(String::from("mimeapps.list"));
    two.merge_from(ParsedMimeApps::parse(src_b));
    two.merge_from(ParsedMimeApps::parse(src_a));
    let mut ids_two = two.get_associations("text/plain");

    assert_eq!(ids_one, vec!["a.desktop", "b.desktop", "c.desktop"]);
    ids_one.sort();
    ids_two.sort();
    assert_eq!(ids_one, ids_two);
}

#[test]
fn load_from_sources_applies_priority_order() {
    let high = String::from("[Default Applications]\ntext/plain=high.desktop\n");
    let low = String::from(
        "[Default Applications]\ntext/plain=low.desktop\n[Added Associations]\ntext/plain=extra.desktop;\n",
    );
    let sources = vec![high, low];
    let store = MimeAppsConfig::load_from_sources(&sources, String::from("mimeapps.list"));
    assert_eq!(store.get_default("text/plain"), Some("high.desktop"));
    assert_eq!(store.path(), "mimeapps.list");
    assert_eq!(
        store.get_associations("text/plain"),
        vec!["high.desktop", "extra.desktop"]
    );
}

#[test]
fn associations_filter_out_removed_entries() {
    let content = String::from(
        "[Default Applications]\ntext/plain=gone.desktop;kept.desktop\n[Added Associations]\ntext/plain=extra.desktop;\n[Removed Associations]\ntext/plain=gone.desktop;\n",
    );
    let store = MimeAppsConfig::load_from_sources(&vec![content], String::from("mimeapps.list"));
    assert_eq!(store.get_associations("text/plain"), vec!["kept.desktop", "extra.desktop"]);
}

#[test]
fn save_and_load_round_trip() {
    let mut store = MimeAppsConfig::empty(String::from("mimeapps.list"));
    assert!(store.set_default("text/plain", "gedit.desktop").is_ok());
    assert!(store.set_default("image/png", "viewer.desktop").is_ok());
    assert!(store.set_default("text/plain", "vim.desktop").is_ok());
    store.merge_from(ParsedMimeApps::parse(
        "[Removed Associations]\nvideo/mp4=old.desktop;worse.desktop;\n",
    ));

    let written = store.serialize();
    let reloaded = MimeAppsConfig::load_from_sources(&vec![written.clone()], String::from("mimeapps.list"));

    assert_eq!(reloaded.get_default("text/plain"), Some("vim.desktop"));
    assert_eq!(reloaded.get_default("image/png"), Some("viewer.desktop"));
    assert_eq!(
        reloaded.get_associations("text/plain"),
        store.get_associations("text/plain")
    );
    assert_eq!(
        reloaded.get_associations("video/mp4"),
        store.get_associations("video/mp4")
    );
    // serialising again yields the same text: the output is deterministic
    assert_eq!(reloaded.serialize(), written);
}

#[test]
fn serialize_emits_sorted_sections() {
    let mut store = MimeAppsConfig::empty(String::from("mimeapps.list"));
    assert!(store.set_default("text/plain", "b.desktop").is_ok());
    assert!(store.set_default("image/png", "a.desktop").is_ok());
    let text = store.serialize();
    assert_eq!(
        text,
        "[Default Applications]\nimage/png=a.desktop\ntext/plain=b.desktop\n\n[Added Associations]\nimage/png=a.desktop;\ntext/plain=b.desktop;\n\n"
    );
}

#[test]
fn duplicate_defaults_appear_once_in_associations() {
    let content = String::from("[Default Applications]\ntext/plain=a.desktop;a.desktop;b.desktop\n");
    let store = MimeAppsConfig::load_from_sources(&vec![content], String::from("mimeapps.list"));
    assert_eq!(store.get_associations("text/plain"), vec!["a.desktop", "b.desktop"]);
}
