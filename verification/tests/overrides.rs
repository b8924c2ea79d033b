use liboverdrop::{scan, scan_and_merge, SYSTEMD_CONVENTIONAL_BASES};
use liboverdrop::{DirEntry, Directory, EntryKind, ResolutionMap, Tree};
use std::collections::HashMap;
use std::io::{BufRead, BufReader, Cursor};

fn bytes(text: &str) -> Vec<u8> {
    text.as_bytes().to_vec()
}

fn file(name: &str) -> DirEntry {
    DirEntry { name: bytes(name), kind: EntryKind::File }
}

fn link(name: &str, target: &str) -> DirEntry {
    DirEntry { name: bytes(name), kind: EntryKind::Link(bytes(target)) }
}

fn subdir(name: &str) -> DirEntry {
    DirEntry { name: bytes(name), kind: EntryKind::Other }
}

fn directory(path: &str, entries: Vec<DirEntry>) -> Directory {
    Directory { path: bytes(path), entries }
}

/// Three layers of drop-ins under `tests/fixtures/tree-basic`.
fn tree_basic() -> Tree {
    Tree {
        dirs: vec![
            directory(
                "tests/fixtures/tree-basic/usr/lib/liboverdrop.d",
                vec![
                    file("04-config-d.toml"),
                    file("01-config-a.toml"),
                    file("06-config-f.toml"),
                    file("02-config-b.toml"),
                    file("05-config-e.toml"),
                    file("03-config-c.toml"),
                    file("09-config-i.toml"),
                ],
            ),
            directory(
                "tests/fixtures/tree-basic/run/liboverdrop.d",
                vec![
                    file("07-config-g.toml"),
                    file("02-config-b.toml"),
                    file("06-config-f.toml"),
                    file("03-config-c.toml"),
                    link("09-config-i.toml", "/dev/null"),
                ],
            ),
            directory(
                "tests/fixtures/tree-basic/etc/liboverdrop.d",
                vec![
                    file(".hidden.conf"),
                    file("05-config-e.toml"),
                    file("noextension"),
                    file("01-config-a.toml"),
                    file("config.conf"),
                    file("07-config-g.toml"),
                    file("08-config-h.conf"),
                    file("03-config-c.toml"),
                    link("09-config-i.toml", "/dev/null"),
                    subdir("nested.toml"),
                ],
            ),
        ],
    }
}

/// Three layers of `key=value` fragments under
/// `tests/fixtures/tree-configmerge`, and what each file holds.
fn tree_configmerge() -> (Tree, HashMap<Vec<u8>, &'static str>) {
    let root = "tests/fixtures/tree-configmerge";
    let tree = Tree {
        dirs: vec![
            directory(
                &format!("{}/usr/lib/liboverdrop.d", root),
                vec![file("50-other.conf"), file("00-base.conf"), file("30-masked.conf")],
            ),
            directory(
                &format!("{}/etc/liboverdrop.d", root),
                vec![
                    file(".hidden.conf"),
                    file("10-etc.conf"),
                    link("30-masked.conf", "/dev/null"),
                    file("notes.txt"),
                ],
            ),
            directory(
                &format!("{}/run/liboverdrop.d", root),
                vec![file("20-run.conf"), file("50-other.conf")],
            ),
        ],
    };
    let mut contents = HashMap::new();
    contents.insert(
        bytes(&format!("{}/usr/lib/liboverdrop.d/00-base.conf", root)),
        "usrbaseconf=val01\nusrbaseconf2=val02\nk1=base\n",
    );
    contents.insert(
        bytes(&format!("{}/usr/lib/liboverdrop.d/30-masked.conf", root)),
        "k1=masked\nmasked=yes\n",
    );
    contents.insert(
        bytes(&format!("{}/usr/lib/liboverdrop.d/50-other.conf", root)),
        "othermasking=m1\nshadowed=yes\n",
    );
    contents.insert(
        bytes(&format!("{}/etc/liboverdrop.d/.hidden.conf", root)),
        "k1=hidden\nhidden=yes\n",
    );
    contents.insert(
        bytes(&format!("{}/etc/liboverdrop.d/10-etc.conf", root)),
        "k1=test1\nk2=etc\n",
    );
    contents.insert(bytes(&format!("{}/etc/liboverdrop.d/notes.txt", root)), "not a fragment\n");
    contents.insert(bytes(&format!("{}/run/liboverdrop.d/20-run.conf", root)), "  k2=test2\n");
    contents.insert(
        bytes(&format!("{}/run/liboverdrop.d/50-other.conf", root)),
        "othermasking=m2\nlast=word\n",
    );
    (tree, contents)
}

fn assert_fragments_match(fragments: &ResolutionMap, filename: &str, filepath: &str) {
    assert_eq!(fragments.get(filename.as_bytes()).unwrap(), &bytes(filepath));
}

fn assert_fragments_hit(fragments: &ResolutionMap, filename: &str) {
    assert!(fragments.get(filename.as_bytes()).is_some());
}

fn assert_fragments_miss(fragments: &ResolutionMap, filename: &str) {
    assert!(fragments.get(filename.as_bytes()).is_none());
}

fn keys(fragments: &ResolutionMap) -> Vec<Vec<u8>> {
    fragments.fragments().iter().map(|fragment| fragment.name.clone()).collect()
}

#[test]
fn basic_override() {
    let treedir = "tests/fixtures/tree-basic";
    let dirs = [
        bytes(&format!("{}/{}", treedir, "usr/lib")),
        bytes(&format!("{}/{}", treedir, "run")),
        bytes(&format!("{}/{}", treedir, "etc")),
    ];

    let expected_fragments = [
        ("01-config-a.toml", format!("{}/{}", treedir, "etc/liboverdrop.d/01-config-a.toml")),
        ("02-config-b.toml", format!("{}/{}", treedir, "run/liboverdrop.d/02-config-b.toml")),
        ("03-config-c.toml", format!("{}/{}", treedir, "etc/liboverdrop.d/03-config-c.toml")),
        ("04-config-d.toml", format!("{}/{}", treedir, "usr/lib/liboverdrop.d/04-config-d.toml")),
        ("05-config-e.toml", format!("{}/{}", treedir, "etc/liboverdrop.d/05-config-e.toml")),
        ("06-config-f.toml", format!("{}/{}", treedir, "run/liboverdrop.d/06-config-f.toml")),
        ("07-config-g.toml", format!("{}/{}", treedir, "etc/liboverdrop.d/07-config-g.toml")),
    ];

    let fragments = scan(&tree_basic(), &dirs, b"liboverdrop.d", &[bytes("toml")], false);

    for (name, path) in &expected_fragments {
        assert_fragments_match(&fragments, name, path);
    }

    // Check keys are stored in the correct order.
    let expected_keys: Vec<_> = expected_fragments.iter().map(|kv| bytes(kv.0)).collect();
    let fragments_keys = keys(&fragments);
    assert_eq!(fragments_keys, expected_keys);
}

#[test]
fn basic_override_systemd() {
    let treedir = "tests/fixtures/tree-basic";

    let expected_fragments = [
        ("01-config-a.toml", "etc/liboverdrop.d/01-config-a.toml"),
        ("02-config-b.toml", "run/liboverdrop.d/02-config-b.toml"),
        ("03-config-c.toml", "run/liboverdrop.d/03-config-c.toml"),
        ("04-config-d.toml", "usr/lib/liboverdrop.d/04-config-d.toml"),
        ("05-config-e.toml", "etc/liboverdrop.d/05-config-e.toml"),
        ("06-config-f.toml", "run/liboverdrop.d/06-config-f.toml"),
        ("07-config-g.toml", "run/liboverdrop.d/07-config-g.toml"),
    ];

    let dirs: Vec<Vec<u8>> = SYSTEMD_CONVENTIONAL_BASES
        .iter()
        .map(|v| bytes(&format!("{}/{}", treedir, v.trim_start_matches('/'))))
        .collect();
    let fragments = scan(&tree_basic(), &dirs, b"liboverdrop.d", &[bytes("toml")], false);

    for (name, path) in &expected_fragments {
        let path = format!("{}/{}", treedir, path);
        assert_fragments_match(&fragments, name, &path);
    }

    // Check keys are stored in the correct order.
    let expected_keys: Vec<_> = expected_fragments.iter().map(|kv| bytes(kv.0)).collect();
    let fragments_keys = keys(&fragments);
    assert_eq!(fragments_keys, expected_keys);
}

#[test]
fn basic_override_restrict_extensions() {
    let treedir = "tests/fixtures/tree-basic";
    let dirs = [bytes(&format!("{}/{}", treedir, "etc"))];

    let fragments = scan(&tree_basic(), &dirs, b"liboverdrop.d", &[bytes("toml")], false);

    assert_fragments_hit(&fragments, "01-config-a.toml");
    assert_fragments_miss(&fragments, "08-config-h.conf");
    assert_fragments_miss(&fragments, "noextension");
}

#[test]
fn basic_override_allow_all_extensions() {
    let treedir = "tests/fixtures/tree-basic";
    let dirs = [bytes(&format!("{}/{}", treedir, "etc"))];

    let fragments = scan(&tree_basic(), &dirs, b"liboverdrop.d", &[], false);

    assert_fragments_hit(&fragments, "01-config-a.toml");
    assert_fragments_hit(&fragments, "config.conf");
    assert_fragments_hit(&fragments, "noextension");
}

#[test]
fn basic_override_ignore_hidden() {
    let treedir = "tests/fixtures/tree-basic";
    let dirs = [bytes(&format!("{}/{}", treedir, "etc"))];

    let fragments = scan(&tree_basic(), &dirs, b"liboverdrop.d", &[], true);

    assert_fragments_hit(&fragments, "config.conf");
    assert_fragments_miss(&fragments, ".hidden.conf");
}

#[test]
fn basic_override_allow_hidden() {
    let treedir = "tests/fixtures/tree-basic";
    let dirs = [bytes(&format!("{}/{}", treedir, "etc"))];

    let fragments = scan(&tree_basic(), &dirs, b"liboverdrop.d", &[], false);

    assert_fragments_hit(&fragments, "config.conf");
    assert_fragments_hit(&fragments, ".hidden.conf");
}

type ConfigMap = HashMap<String, String>;

// Parse a key=value line by line into a map.
fn merge_btreemap(
    mut f: ConfigMap,
    name: &Vec<u8>,
    r: BufReader<Cursor<Vec<u8>>>,
) -> std::io::Result<ConfigMap> {
    for line in r.lines() {
        let line = line?;
        let (k, v) = line.trim().split_once('=').ok_or_else(|| {
            std::io::Error::new(
                std::io::ErrorKind::Other,
                format!("Invalid line {line} in file {name:?}"),
            )
        })?;
        f.insert(k.to_owned(), v.to_owned());
    }
    Ok(f)
}

#[test]
fn basic_merge() {
    let treedir = "tests/fixtures/tree-configmerge";
    let dirs = [
        bytes(&format!("{}/{}", treedir, "usr/lib")),
        bytes(&format!("{}/{}", treedir, "etc")),
        bytes(&format!("{}/{}", treedir, "run")),
    ];
    let (tree, contents) = tree_configmerge();
    let open = |location: &Vec<u8>| match contents.get(location) {
        Some(text) => Ok(BufReader::new(Cursor::new(text.as_bytes().to_vec()))),
        None => Err(std::io::Error::new(std::io::ErrorKind::NotFound, "no such file")),
    };

    let config: ConfigMap =
        scan_and_merge(&tree, &dirs, b"liboverdrop.d", &[bytes("conf")], true, open, merge_btreemap)
            .unwrap();

    assert_eq!(config.get("k1").unwrap(), "test1");
    assert_eq!(config.get("k2").unwrap(), "test2");
    assert_eq!(config.get("usrbaseconf").unwrap(), "val01");
    assert_eq!(config.get("usrbaseconf2").unwrap(), "val02");
    assert_eq!(config.get("othermasking").unwrap(), "m2");
    assert_eq!(config.len(), 6);
}
