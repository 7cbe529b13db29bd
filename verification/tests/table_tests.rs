use handlr::canon::{AliasResolver, CanonicalMimeApps};
use handlr::codec::{parse, serialize};
use handlr::config::{interpret_selection, selector_input, Config};
use handlr::error::Error;
use handlr::ident::{Handler, MimeId};
use handlr::table::{HandlerList, MimeApps};

fn mid(s: &str) -> MimeId {
    MimeId::parse(s.as_bytes().to_vec()).unwrap()
}

fn hd(s: &str) -> Handler {
    Handler::from_bytes(s.as_bytes().to_vec()).unwrap()
}

fn flac_resolver() -> AliasResolver {
    AliasResolver::new(vec![(mid("audio/x-flac"), mid("audio/flac"))])
}

#[test]
fn test() {}

#[test]
fn parse_sections_and_lookup() {
    let input = b"[Added Associations]\naudio/flac=vlc.desktop;\n\n[Default Applications]\ntext/plain=nvim.desktop;code.desktop;\n".to_vec();
    let apps = parse(&input);
    assert_eq!(apps.added_associations.len(), 1);
    assert_eq!(apps.default_apps.len(), 1);
    assert_eq!(apps.removed_associations.len(), 0);
    let h = apps.get_handler(&mid("text/plain")).unwrap();
    assert_eq!(h.as_bytes().as_slice(), b"nvim.desktop");
}

#[test]
fn parse_ignores_junk_and_unknown_sections() {
    let input = b"garbage line\n[Strange Section]\ntext/plain=a.desktop;\n[Default Applications]\nnot-a-mime=a.desktop;\ntext/plain=b.desktop;\n".to_vec();
    let apps = parse(&input);
    assert_eq!(apps.default_apps.len(), 1);
    let h = apps.get_handler(&mid("text/plain")).unwrap();
    assert_eq!(h.as_bytes().as_slice(), b"b.desktop");
}

#[test]
fn parse_dedups_repeated_handler_keeping_first() {
    let input =
        b"[Default Applications]\ntext/plain=a.desktop;b.desktop;a.desktop;;\n".to_vec();
    let apps = parse(&input);
    let list = apps.default_apps.list_at(0);
    assert_eq!(list.len(), 2);
    assert_eq!(list.item_at(0).as_bytes().as_slice(), b"a.desktop");
    assert_eq!(list.item_at(1).as_bytes().as_slice(), b"b.desktop");
}

#[test]
fn serialize_empty_table() {
    let apps = MimeApps::new();
    let out = serialize(&apps);
    assert_eq!(
        String::from_utf8(out).unwrap(),
        "[Added Associations]\n\n[Default Applications]\n"
    );
}

#[test]
fn serialize_sorts_keys_and_omits_empty_removed() {
    let mut apps = MimeApps::new();
    apps.set_handler(mid("video/mp4"), hd("mpv.desktop"));
    apps.set_handler(mid("audio/flac"), hd("vlc.desktop"));
    let out = serialize(&apps);
    assert_eq!(
        String::from_utf8(out).unwrap(),
        "[Added Associations]\n\n[Default Applications]\naudio/flac=vlc.desktop;\nvideo/mp4=mpv.desktop;\n"
    );
}

#[test]
fn serialize_writes_removed_when_nonempty() {
    let mut apps = MimeApps::new();
    apps.removed_associations
        .insert(mid("text/html"), HandlerList::singleton(hd("old.desktop")));
    let out = serialize(&apps);
    assert_eq!(
        String::from_utf8(out).unwrap(),
        "[Added Associations]\n\n[Removed Associations]\ntext/html=old.desktop;\n\n[Default Applications]\n"
    );
}

#[test]
fn round_trip_parse_of_serialized_table() {
    let input = b"[Added Associations]\naudio/flac=vlc.desktop;mpv.desktop;\n[Removed Associations]\ntext/html=old.desktop;\n[Default Applications]\ntext/plain=nvim.desktop;\nvideo/mp4=mpv.desktop;\n".to_vec();
    let apps = parse(&input);
    let out = serialize(&apps);
    let reparsed = parse(&out);
    let out2 = serialize(&reparsed);
    assert_eq!(out, out2);
    assert_eq!(reparsed.default_apps.len(), 2);
    assert_eq!(reparsed.added_associations.len(), 1);
    let list = reparsed.added_associations.list_at(0);
    assert_eq!(list.len(), 2);
    assert_eq!(list.item_at(0).as_bytes().as_slice(), b"vlc.desktop");
    assert_eq!(list.item_at(1).as_bytes().as_slice(), b"mpv.desktop");
}

#[test]
fn alias_keyed_entry_moves_to_canonical_key() {
    let mut apps = MimeApps::new();
    apps.added_associations
        .insert(mid("audio/x-flac"), HandlerList::singleton(hd("vlc.desktop")));
    let canon = CanonicalMimeApps::from_parts(flac_resolver(), apps);
    assert_eq!(canon.mimeapps.added_associations.len(), 1);
    assert_eq!(
        canon.mimeapps.added_associations.key_at(0).as_bytes().as_slice(),
        b"audio/flac"
    );
    let list = canon.mimeapps.added_associations.list_at(0);
    assert_eq!(list.item_at(0).as_bytes().as_slice(), b"vlc.desktop");
}

#[test]
fn canonical_entry_wins_over_alias() {
    let mut apps = MimeApps::new();
    apps.added_associations
        .insert(mid("audio/x-flac"), HandlerList::singleton(hd("vlc.desktop")));
    apps.added_associations
        .insert(mid("audio/flac"), HandlerList::singleton(hd("mpv.desktop")));
    let canon = CanonicalMimeApps::from_parts(flac_resolver(), apps);
    assert_eq!(canon.mimeapps.added_associations.len(), 1);
    assert_eq!(
        canon.mimeapps.added_associations.key_at(0).as_bytes().as_slice(),
        b"audio/flac"
    );
    let list = canon.mimeapps.added_associations.list_at(0);
    assert_eq!(list.len(), 1);
    assert_eq!(list.item_at(0).as_bytes().as_slice(), b"mpv.desktop");
}

#[test]
fn smallest_alias_wins_without_canonical_entry() {
    let resolver = AliasResolver::new(vec![
        (mid("audio/zzz"), mid("audio/flac")),
        (mid("audio/aaa"), mid("audio/flac")),
    ]);
    let mut apps = MimeApps::new();
    apps.default_apps
        .insert(mid("audio/zzz"), HandlerList::singleton(hd("one.desktop")));
    apps.default_apps
        .insert(mid("audio/aaa"), HandlerList::singleton(hd("two.desktop")));
    let canon = CanonicalMimeApps::from_parts(resolver, apps);
    assert_eq!(canon.mimeapps.default_apps.len(), 1);
    assert_eq!(
        canon.mimeapps.default_apps.key_at(0).as_bytes().as_slice(),
        b"audio/flac"
    );
    let list = canon.mimeapps.default_apps.list_at(0);
    assert_eq!(list.item_at(0).as_bytes().as_slice(), b"two.desktop");
}

#[test]
fn already_canonical_mapping_is_unchanged() {
    let mut apps = MimeApps::new();
    apps.default_apps
        .insert(mid("audio/flac"), HandlerList::singleton(hd("vlc.desktop")));
    apps.default_apps
        .insert(mid("text/plain"), HandlerList::singleton(hd("nvim.desktop")));
    let before = serialize(&apps);
    let canon = CanonicalMimeApps::from_parts(flac_resolver(), apps);
    let after = serialize(&canon.mimeapps);
    assert_eq!(before, after);
}

#[test]
fn set_through_alias_overwrites_canonical_key() {
    let mut apps = MimeApps::new();
    apps.default_apps
        .insert(mid("audio/flac"), HandlerList::singleton(hd("vlc.desktop")));
    let mut canon = CanonicalMimeApps::from_parts(flac_resolver(), apps);
    canon.set_handler(mid("audio/x-flac"), hd("mpv.desktop"));
    assert_eq!(canon.mimeapps.default_apps.len(), 1);
    let list = canon.mimeapps.default_apps.list_at(0);
    assert_eq!(list.len(), 1);
    assert_eq!(list.item_at(0).as_bytes().as_slice(), b"mpv.desktop");
    assert_eq!(
        canon.mimeapps.default_apps.key_at(0).as_bytes().as_slice(),
        b"audio/flac"
    );
}

#[test]
fn remove_through_alias_deletes_once() {
    let mut apps = MimeApps::new();
    apps.default_apps
        .insert(mid("audio/flac"), HandlerList::singleton(hd("vlc.desktop")));
    let mut canon = CanonicalMimeApps::from_parts(flac_resolver(), apps);
    assert!(canon.remove_handler(&mid("audio/x-flac")));
    assert_eq!(canon.mimeapps.default_apps.len(), 0);
    assert!(!canon.remove_handler(&mid("audio/x-flac")));
}

#[test]
fn add_appends_fallback_without_duplicates() {
    let mut canon = CanonicalMimeApps::from_parts(flac_resolver(), MimeApps::new());
    canon.add_handler(mid("audio/x-flac"), hd("vlc.desktop"));
    canon.add_handler(mid("audio/flac"), hd("mpv.desktop"));
    canon.add_handler(mid("audio/x-flac"), hd("vlc.desktop"));
    assert_eq!(canon.mimeapps.default_apps.len(), 1);
    let list = canon.mimeapps.default_apps.list_at(0);
    assert_eq!(list.len(), 2);
    assert_eq!(list.item_at(0).as_bytes().as_slice(), b"vlc.desktop");
    assert_eq!(list.item_at(1).as_bytes().as_slice(), b"mpv.desktop");
    let h = canon.get_handler(&mid("audio/x-flac")).unwrap();
    assert_eq!(h.as_bytes().as_slice(), b"vlc.desktop");
}

#[test]
fn get_handler_reports_not_found() {
    let canon = CanonicalMimeApps::from_parts(AliasResolver::empty(), MimeApps::new());
    match canon.get_handler(&mid("text/plain")) {
        Err(Error::NotFound(name)) => assert_eq!(name.as_slice(), b"text/plain"),
        other => panic!("expected a not-found error, got {:?}", other.map(|h| h.as_bytes().clone())),
    }
}

#[test]
fn invalid_mime_is_rejected() {
    match MimeId::parse(b"plaintext".to_vec()) {
        Err(Error::InvalidMime(b)) => assert_eq!(b.as_slice(), b"plaintext"),
        other => panic!("expected a syntax error, got {:?}", other.map(|m| m.as_bytes().clone())),
    }
    assert!(MimeId::parse(b"a/b/c".to_vec()).is_err());
    assert!(MimeId::parse(b"/b".to_vec()).is_err());
    assert!(MimeId::parse(b"a/".to_vec()).is_err());
    assert!(MimeId::parse(b"text/plain".to_vec()).is_ok());
}

#[test]
fn selector_command_is_split_by_shell_rules() {
    let config = Config::default();
    assert!(!config.enable_selector);
    let (cmd, args) = config.split_selector().unwrap();
    assert_eq!(cmd, "rofi");
    assert_eq!(args, vec!["-dmenu".to_owned(), "-p".to_owned(), "Open With: ".to_owned()]);
}

#[test]
fn selector_io_round_trip() {
    let input = selector_input(&vec![b"a.desktop".to_vec(), b"b.desktop".to_vec()]);
    assert_eq!(input, b"a.desktop\nb.desktop".to_vec());
    assert_eq!(
        interpret_selection(&b"a.desktop\n".to_vec()).unwrap(),
        b"a.desktop".to_vec()
    );
    assert!(matches!(
        interpret_selection(&b" \t\r\n".to_vec()),
        Err(Error::Cancelled)
    ));
}
