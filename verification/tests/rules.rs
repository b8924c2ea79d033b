use liboverdrop::bytes::{bytes_copy, bytes_eq, bytes_lt};
use liboverdrop::model::Effect;
use liboverdrop::name::{extension, has_allowed_extension, is_hidden, is_visible};
use liboverdrop::path::{join, scan_dirs};
use liboverdrop::resolution::ResolutionMap;
use liboverdrop::scan::{classify, is_null_device, scan_dir, scan_entry};
use liboverdrop::tree::{DirEntry, Directory, EntryKind, Tree};

fn text(value: &str) -> Vec<u8> {
    value.as_bytes().to_vec()
}

fn entry(name: &str, kind: EntryKind) -> DirEntry {
    DirEntry { name: text(name), kind }
}

fn names_of(found: &ResolutionMap) -> Vec<String> {
    found
        .fragments()
        .iter()
        .map(|fragment| String::from_utf8(fragment.name.clone()).unwrap())
        .collect()
}

#[test]
fn bytes_eq_compares_byte_for_byte() {
    assert!(bytes_eq(b"", b""));
    assert!(bytes_eq(b"10-x.toml", b"10-x.toml"));
    assert!(!bytes_eq(b"10-x.toml", b"10-x.tomL"));
    assert!(!bytes_eq(b"10-x.toml", b"10-x.tom"));
    assert!(!bytes_eq(b"", b"a"));
}

#[test]
fn bytes_lt_is_the_lexicographic_order() {
    assert!(bytes_lt(b"", b"a"));
    assert!(bytes_lt(b"a", b"b"));
    assert!(bytes_lt(b"a", b"ab"));
    assert!(bytes_lt(b"ab", b"b"));
    assert!(bytes_lt(b"10-x", b"9-x"));
    assert!(bytes_lt(b"Z", b"a"));
    assert!(bytes_lt(b"a", &[0xc3, 0xa9]));
    assert!(bytes_lt(&[0x7f], &[0x80]));
    assert!(!bytes_lt(b"a", b"a"));
    assert!(!bytes_lt(b"b", b"a"));
    assert!(!bytes_lt(b"ab", b"a"));
    assert!(!bytes_lt(b"", b""));
}

#[test]
fn bytes_lt_orders_any_two_names_one_way() {
    let names: [&[u8]; 6] = [b"", b".", b"a", b"a.toml", b"b", &[0xff]];
    for (i, a) in names.iter().enumerate() {
        for (j, b) in names.iter().enumerate() {
            assert_eq!(bytes_lt(a, b), i < j);
            assert_eq!(bytes_eq(a, b), i == j);
        }
    }
}

#[test]
fn bytes_copy_keeps_the_bytes() {
    assert_eq!(bytes_copy(b"/dev/null"), b"/dev/null".to_vec());
    assert_eq!(bytes_copy(b""), Vec::<u8>::new());
    assert_eq!(bytes_copy(&[0, 255, 46]), vec![0, 255, 46]);
}

#[test]
fn hidden_names_start_with_a_dot() {
    assert!(is_hidden(b".hidden.conf"));
    assert!(is_hidden(b"."));
    assert!(!is_hidden(b"config.conf"));
    assert!(!is_hidden(b"a."));
    assert!(!is_hidden(b""));
}

#[test]
fn extension_is_what_follows_the_final_dot() {
    assert_eq!(extension(b"a.toml"), Some(&b"toml"[..]));
    assert_eq!(extension(b"conf.conf"), Some(&b"conf"[..]));
    assert_eq!(extension(b"archive.tar.gz"), Some(&b"gz"[..]));
    assert_eq!(extension(b".hidden.conf"), Some(&b"conf"[..]));
    assert_eq!(extension(b"trailing."), Some(&b""[..]));
    assert_eq!(extension(b".toml"), Some(&b"toml"[..]));
    assert_eq!(extension(b"noext"), None);
    assert_eq!(extension(b""), None);
}

#[test]
fn extension_rule_is_exact_and_case_sensitive() {
    let toml = [text("toml")];
    assert!(has_allowed_extension(b"a.toml", &toml));
    assert!(!has_allowed_extension(b"a.TOML", &toml));
    assert!(!has_allowed_extension(b"a.tom", &toml));
    assert!(!has_allowed_extension(b"a.tomll", &toml));
    assert!(!has_allowed_extension(b"toml", &toml));
    assert!(!has_allowed_extension(b"a.toml.bak", &toml));
    assert!(!has_allowed_extension(b"a.tar.gz", &[text("tar.gz")]));
    assert!(has_allowed_extension(b"a.tar.gz", &[text("gz")]));
    assert!(!has_allowed_extension(b"a.toml", &[text(".toml")]));
    assert!(has_allowed_extension(b"a.yaml", &[text("toml"), text("yaml")]));
    assert!(has_allowed_extension(b"a.", &[text("")]));
    assert!(!has_allowed_extension(b"a", &[text("")]));
}

#[test]
fn extensions_restrict_what_is_seen() {
    let toml = [text("toml")];
    assert!(!is_visible(b"noext", &toml, false));
    assert!(!is_visible(b"conf.conf", &toml, false));
    assert!(is_visible(b"a.toml", &toml, false));
    assert!(is_visible(b"noext", &[], false));
    assert!(is_visible(b"conf.conf", &[], false));
    assert!(is_visible(b"a.toml", &[], false));
}

#[test]
fn dotfiles_follow_the_setting() {
    assert!(!is_visible(b".hidden.conf", &[], true));
    assert!(!is_visible(b".hidden.conf", &[text("conf")], true));
    assert!(is_visible(b".hidden.conf", &[], false));
    assert!(is_visible(b".hidden.conf", &[text("conf")], false));
    assert!(is_visible(b"shown.conf", &[], true));
}

#[test]
fn join_puts_one_separator_between() {
    assert_eq!(join(b"/usr/lib", b"my-crate/config.d"), text("/usr/lib/my-crate/config.d"));
    assert_eq!(join(b"/usr/lib/", b"config.d"), text("/usr/lib/config.d"));
    assert_eq!(join(b"tests/fixtures", b"etc"), text("tests/fixtures/etc"));
    assert_eq!(join(b"", b"config.d"), text("config.d"));
    assert_eq!(join(b"/", b"etc"), text("/etc"));
    assert_eq!(join(b"/etc", b""), text("/etc/"));
    assert_eq!(join(b"", b""), text(""));
}

#[test]
fn join_lets_an_absolute_path_stand() {
    assert_eq!(join(b"/usr/lib", b"/etc/config.d"), text("/etc/config.d"));
    assert_eq!(join(b"", b"/"), text("/"));
}

#[test]
fn scan_dirs_keeps_the_order_of_the_base_directories() {
    let bases = [text("/usr/lib"), text("/run/"), text(""), text("/etc")];
    assert_eq!(
        scan_dirs(&bases, b"svc/conf.d"),
        vec![
            text("/usr/lib/svc/conf.d"),
            text("/run/svc/conf.d"),
            text("svc/conf.d"),
            text("/etc/svc/conf.d"),
        ]
    );
    assert_eq!(scan_dirs(&[], b"svc/conf.d"), Vec::<Vec<u8>>::new());
}

#[test]
fn null_device_is_matched_byte_for_byte() {
    assert!(is_null_device(b"/dev/null"));
    assert!(!is_null_device(b"/dev/null/"));
    assert!(!is_null_device(b"/dev//null"));
    assert!(!is_null_device(b"dev/null"));
    assert!(!is_null_device(b"/dev/nul"));
    assert!(!is_null_device(b"/dev/zero"));
    assert!(!is_null_device(b""));
}

#[test]
fn classify_tells_the_three_effects_apart() {
    let toml = [text("toml")];
    assert_eq!(classify(&entry("a.toml", EntryKind::File), &toml, true), Effect::Provide);
    assert_eq!(
        classify(&entry("a.toml", EntryKind::Link(text("/dev/null"))), &toml, true),
        Effect::Mask
    );
    assert_eq!(
        classify(&entry("a.toml", EntryKind::Link(text("/etc/a.toml"))), &toml, true),
        Effect::Nothing
    );
    assert_eq!(classify(&entry("a.toml", EntryKind::Other), &toml, true), Effect::Nothing);
    assert_eq!(classify(&entry("a.toml", EntryKind::Unknown), &toml, true), Effect::Nothing);
}

#[test]
fn classify_filters_before_it_looks_at_the_kind() {
    let toml = [text("toml")];
    let null = EntryKind::Link(text("/dev/null"));
    assert_eq!(classify(&entry("a.conf", EntryKind::File), &toml, false), Effect::Nothing);
    assert_eq!(classify(&entry("a.conf", null.clone()), &toml, false), Effect::Nothing);
    assert_eq!(classify(&entry(".a.toml", EntryKind::File), &toml, true), Effect::Nothing);
    assert_eq!(classify(&entry(".a.toml", null.clone()), &toml, true), Effect::Nothing);
    assert_eq!(classify(&entry(".a.toml", null), &toml, false), Effect::Mask);
}

#[test]
fn map_insert_keeps_names_ascending() {
    let mut found = ResolutionMap::new();
    assert!(found.is_empty());
    assert_eq!(found.insert(text("20-y.toml"), text("B/d/20-y.toml")), None);
    assert_eq!(found.insert(text("10-x.toml"), text("A/d/10-x.toml")), None);
    assert_eq!(found.insert(text("30-z.toml"), text("A/d/30-z.toml")), None);
    assert_eq!(found.insert(text("10-x"), text("A/d/10-x")), None);
    assert_eq!(found.len(), 4);
    assert!(!found.is_empty());
    assert_eq!(names_of(&found), ["10-x", "10-x.toml", "20-y.toml", "30-z.toml"]);
}

#[test]
fn map_insert_overwrites_and_returns_what_was() {
    let mut found = ResolutionMap::new();
    found.insert(text("10-x.toml"), text("A/d/10-x.toml"));
    assert_eq!(found.insert(text("10-x.toml"), text("B/d/10-x.toml")), Some(text("A/d/10-x.toml")));
    assert_eq!(found.len(), 1);
    assert_eq!(found.get(b"10-x.toml"), Some(&text("B/d/10-x.toml")));
}

#[test]
fn map_remove_forgets_one_name() {
    let mut found = ResolutionMap::new();
    found.insert(text("a"), text("1"));
    found.insert(text("b"), text("2"));
    found.insert(text("c"), text("3"));
    assert_eq!(found.remove(b"b"), Some(text("2")));
    assert_eq!(found.remove(b"b"), None);
    assert_eq!(found.remove(b"zz"), None);
    assert_eq!(names_of(&found), ["a", "c"]);
    assert_eq!(found.get(b"a"), Some(&text("1")));
    assert_eq!(found.get(b"b"), None);
    assert_eq!(found.get(b"c"), Some(&text("3")));
}

#[test]
fn map_get_finds_each_of_many_names() {
    let mut found = ResolutionMap::new();
    for i in (0..50u8).rev() {
        found.insert(vec![b'f', i], vec![b'/', i]);
    }
    assert_eq!(found.len(), 50);
    for i in 0..50u8 {
        assert_eq!(found.get(&[b'f', i]), Some(&vec![b'/', i]));
    }
    assert_eq!(found.get(&[b'f', 50]), None);
    assert_eq!(found.get(b"f"), None);
    let fragments = found.fragments();
    for pair in fragments.windows(2) {
        assert!(bytes_lt(&pair[0].name, &pair[1].name));
    }
}

#[test]
fn scan_entry_inserts_removes_or_leaves() {
    let mut found = ResolutionMap::new();
    scan_entry(&mut found, b"A/d", &entry("10-x.toml", EntryKind::File), &[], false);
    assert_eq!(found.get(b"10-x.toml"), Some(&text("A/d/10-x.toml")));
    scan_entry(&mut found, b"B/d", &entry("10-x.toml", EntryKind::Other), &[], false);
    assert_eq!(found.get(b"10-x.toml"), Some(&text("A/d/10-x.toml")));
    scan_entry(&mut found, b"B/d", &entry("10-x.toml", EntryKind::File), &[], false);
    assert_eq!(found.get(b"10-x.toml"), Some(&text("B/d/10-x.toml")));
    scan_entry(
        &mut found,
        b"C/d",
        &entry("10-x.toml", EntryKind::Link(text("/dev/null"))),
        &[],
        false,
    );
    assert_eq!(found.get(b"10-x.toml"), None);
    assert!(found.is_empty());
}

#[test]
fn scan_dir_layers_a_listing_over_what_was_found() {
    let mut found = ResolutionMap::new();
    found.insert(text("kept.toml"), text("A/d/kept.toml"));
    found.insert(text("masked.toml"), text("A/d/masked.toml"));
    found.insert(text("won.toml"), text("A/d/won.toml"));
    let listing = [
        entry("won.toml", EntryKind::File),
        entry("masked.toml", EntryKind::Link(text("/dev/null"))),
        entry("new.toml", EntryKind::File),
        entry("kept.toml", EntryKind::Link(text("elsewhere"))),
        entry("other.conf", EntryKind::File),
    ];
    scan_dir(&mut found, b"B/d", &listing, &[text("toml")], false);
    assert_eq!(names_of(&found), ["kept.toml", "new.toml", "won.toml"]);
    assert_eq!(found.get(b"kept.toml"), Some(&text("A/d/kept.toml")));
    assert_eq!(found.get(b"new.toml"), Some(&text("B/d/new.toml")));
    assert_eq!(found.get(b"won.toml"), Some(&text("B/d/won.toml")));
}

#[test]
fn tree_lists_the_first_directory_of_a_path() {
    let tree = Tree {
        dirs: vec![
            Directory { path: text("A/d"), entries: vec![entry("one", EntryKind::File)] },
            Directory { path: text("B/d"), entries: vec![] },
            Directory { path: text("A/d"), entries: vec![entry("two", EntryKind::File)] },
        ],
    };
    let listing = tree.read_dir(b"A/d").unwrap();
    assert_eq!(listing.len(), 1);
    assert_eq!(listing[0].name, text("one"));
    assert_eq!(tree.read_dir(b"B/d").unwrap().len(), 0);
    assert!(tree.read_dir(b"C/d").is_none());
    assert!(tree.read_dir(b"A/d/").is_none());
    assert!(Tree::new().read_dir(b"A/d").is_none());
}
