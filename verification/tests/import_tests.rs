use profile_import::fstree::DirTree;
use profile_import::import::{
    build_import_data, decode_profile_response, import_config, remap_include, resolve,
    ExtractionDir, ModInstall, PackageEntry, PackageIndex,
};
use profile_import::manifest::{parse_manifest, SourceKind};
use profile_import::profile::{prepare_profile, Game, Profile};
use profile_import::{ImportError, JsonStyle};

fn seg(s: &str) -> Vec<u8> {
    s.as_bytes().to_vec()
}

fn path(segs: &[&str]) -> Vec<Vec<u8>> {
    segs.iter().map(|s| seg(s)).collect()
}

fn index_of(entries: &[(&str, &str, u64)]) -> PackageIndex {
    PackageIndex {
        entries: entries
            .iter()
            .map(|(n, v, id)| PackageEntry {
                name: seg(n),
                version: seg(v),
                package_id: *id,
            })
            .collect(),
    }
}

fn install_names(mods: &[ModInstall]) -> Vec<Vec<u8>> {
    mods.iter().map(|m| m.name.clone()).collect()
}

#[test]
fn parse_full_manifest() {
    let text = seg(
        "profileName: MyProfile\nsource: code\nmods:\n- name: Foo\n  version: 1.0\n- name: Bar\n  version: 2.0\nignoredUpdates:\n- abc\n- def\n",
    );
    let m = parse_manifest(&text).unwrap();
    assert_eq!(m.profile_name, seg("MyProfile"));
    assert_eq!(m.mods.len(), 2);
    assert_eq!(m.mods[0].name, seg("Foo"));
    assert_eq!(m.mods[0].version, seg("1.0"));
    assert_eq!(m.mods[1].name, seg("Bar"));
    assert_eq!(m.mods[1].version, seg("2.0"));
    assert_eq!(m.ignored_updates, vec![seg("abc"), seg("def")]);
    assert_eq!(m.source, SourceKind::Code);
}

#[test]
fn parse_manifest_defaults() {
    // no mods header, no ignored list, no source line
    let m = parse_manifest(&seg("profileName: X\n")).unwrap();
    assert_eq!(m.profile_name, seg("X"));
    assert!(m.mods.is_empty());
    assert!(m.ignored_updates.is_empty());
    assert_eq!(m.source, SourceKind::Local);
}

#[test]
fn parse_manifest_empty_mod_list() {
    let m = parse_manifest(&seg("profileName: X\nmods:\n")).unwrap();
    assert!(m.mods.is_empty());
}

#[test]
fn parse_manifest_blank_lines_tolerated() {
    let m = parse_manifest(&seg("\nprofileName: X\n\nmods:\n- name: Foo\n  version: 1.0\n\n"))
        .unwrap();
    assert_eq!(m.mods.len(), 1);
}

#[test]
fn parse_manifest_source_kinds() {
    let local = parse_manifest(&seg("profileName: X\nsource: local\n")).unwrap();
    assert_eq!(local.source, SourceKind::Local);
    let link = parse_manifest(&seg("profileName: X\nsource: link\n")).unwrap();
    assert_eq!(link.source, SourceKind::Link);
}

#[test]
fn parse_manifest_missing_name_is_error() {
    assert!(matches!(
        parse_manifest(&seg("mods:\n- name: Foo\n  version: 1.0\n")),
        Err(ImportError::Parse)
    ));
}

#[test]
fn parse_manifest_missing_version_is_error() {
    assert!(matches!(
        parse_manifest(&seg("profileName: X\nmods:\n- name: Foo\n- name: Bar\n")),
        Err(ImportError::Parse)
    ));
    // a pending entry at the document's end fails too
    assert!(matches!(
        parse_manifest(&seg("profileName: X\nmods:\n- name: Foo\n")),
        Err(ImportError::Parse)
    ));
}

#[test]
fn parse_manifest_unknown_line_is_error() {
    assert!(matches!(
        parse_manifest(&seg("profileName: X\nnonsense\n")),
        Err(ImportError::Parse)
    ));
    // a dash entry outside any section
    assert!(matches!(
        parse_manifest(&seg("profileName: X\n- name: Foo\n")),
        Err(ImportError::Parse)
    ));
}

#[test]
fn share_code_not_found_is_distinct_from_other_failures() {
    let body = seg("");
    assert_eq!(
        decode_profile_response(404, &body),
        Err(ImportError::RemoteNotFound)
    );
    assert_eq!(
        decode_profile_response(500, &body),
        Err(ImportError::Network(500))
    );
    assert_ne!(
        decode_profile_response(404, &body),
        decode_profile_response(500, &body)
    );
}

#[test]
fn share_code_payload_roundtrip() {
    // "hello" in standard base64, behind the marker
    let body = seg("#r2modman\naGVsbG8=");
    assert_eq!(decode_profile_response(200, &body), Ok(seg("hello")));
}

#[test]
fn share_code_missing_marker_is_parse_error() {
    let body = seg("aGVsbG8=");
    assert_eq!(decode_profile_response(200, &body), Err(ImportError::Parse));
}

#[test]
fn share_code_invalid_base64_is_parse_error() {
    let body = seg("#r2modman\n!!!not-base64!!!");
    assert_eq!(decode_profile_response(200, &body), Err(ImportError::Parse));
}

#[test]
fn resolve_finds_matching_entry() {
    let index = index_of(&[("Foo", "1.0", 7), ("Bar", "2.0", 8)]);
    let hit = resolve(&index, &seg("Bar"), &seg("2.0")).unwrap();
    assert_eq!(hit.package_id, 8);
    assert!(resolve(&index, &seg("Bar"), &seg("9.9")).is_none());
    assert!(resolve(&index, &seg("Baz"), &seg("2.0")).is_none());
}

#[test]
fn import_roundtrip_resolves_all_entries_in_order() {
    let text = seg(
        "profileName: P\nmods:\n- name: Foo\n  version: 1.0\n- name: Bar\n  version: 2.0\n",
    );
    let index = index_of(&[("Bar", "2.0", 2), ("Foo", "1.0", 1)]);
    let data = build_import_data(&text, seg("/tmp/extract"), Vec::new(), &index).unwrap();
    assert_eq!(data.name, seg("P"));
    assert!(data.delete_after_import);
    assert_eq!(install_names(&data.mods), vec![seg("Foo"), seg("Bar")]);
    assert_eq!(data.mods[0].package_id, 1);
    assert_eq!(data.mods[1].package_id, 2);
    assert_eq!(
        data.mod_names,
        Some(vec![seg("Foo"), seg("Bar")])
    );
}

#[test]
fn import_keeps_names_when_one_entry_is_unresolvable() {
    let text = seg(
        "profileName: P\nmods:\n- name: Foo\n  version: 1.0\n- name: Gone\n  version: 3.0\n",
    );
    let index = index_of(&[("Foo", "1.0", 1)]);
    let data = build_import_data(&text, seg("/tmp/extract"), Vec::new(), &index).unwrap();
    assert_eq!(install_names(&data.mods), vec![seg("Foo")]);
    assert_eq!(
        data.mod_names,
        Some(vec![seg("Foo"), seg("Gone")])
    );
}

#[test]
fn import_bad_manifest_fails() {
    let index = index_of(&[]);
    assert!(build_import_data(&seg("garbage\n"), seg("/tmp/x"), Vec::new(), &index).is_err());
}

#[test]
fn config_paths_remap_under_game_subdirectory() {
    let remapped = remap_include(&path(&["config", "plugin.cfg"]));
    assert_eq!(remapped, path(&["BepInEx", "config", "plugin.cfg"]));
    let kept = remap_include(&path(&["readme.txt"]));
    assert_eq!(kept, path(&["readme.txt"]));
}

#[test]
fn import_config_copies_to_remapped_destinations() {
    let mut source = DirTree::new();
    source.put(path(&["config", "plugin.cfg"]), seg("cfg"));
    source.put(path(&["readme.txt"]), seg("read"));
    let mut target = DirTree::new();
    let includes = vec![path(&["config", "plugin.cfg"]), path(&["readme.txt"])];
    import_config(&mut target, &source, &includes).unwrap();
    assert_eq!(
        target.get(&path(&["BepInEx", "config", "plugin.cfg"])),
        Some(&seg("cfg"))
    );
    assert_eq!(target.get(&path(&["readme.txt"])), Some(&seg("read")));
    assert_eq!(target.file_count(), 2);
}

#[test]
fn import_config_missing_source_file_is_io_error() {
    let source = DirTree::new();
    let mut target = DirTree::new();
    let includes = vec![path(&["gone.txt"])];
    assert_eq!(
        import_config(&mut target, &source, &includes),
        Err(ImportError::Io)
    );
}

#[test]
fn importing_over_existing_profile_replaces_its_contents() {
    // a game with a profile "X" that already has files on disk
    let mut old_tree = DirTree::new();
    old_tree.put(path(&["stale.cfg"]), seg("old"));
    let mut game = Game {
        profiles: vec![
            Profile {
                name: seg("X"),
                ignored_updates: vec![seg("keepme")],
                tree: old_tree,
            },
            Profile {
                name: seg("Y"),
                ignored_updates: Vec::new(),
                tree: DirTree::new(),
            },
        ],
    };
    let idx = prepare_profile(&mut game, &seg("X"), &vec![seg("id1"), seg("id1")]);
    assert_eq!(game.profiles.len(), 2);
    assert_eq!(game.profiles[idx].name, seg("X"));
    // duplicates are kept as given, nothing merged from the old profile
    assert_eq!(
        game.profiles[idx].ignored_updates,
        vec![seg("id1"), seg("id1")]
    );
    // the other profile survived
    assert_eq!(game.profiles[0].name, seg("Y"));

    // fill the fresh profile from an extracted archive
    let mut source = DirTree::new();
    source.put(path(&["config", "a.cfg"]), seg("new"));
    let includes = vec![path(&["config", "a.cfg"])];
    import_config(&mut game.profiles[idx].tree, &source, &includes).unwrap();

    // only the newly imported content is there, never a mix
    let tree = &game.profiles[idx].tree;
    assert_eq!(tree.file_count(), 1);
    assert_eq!(tree.get(&path(&["stale.cfg"])), None);
    assert_eq!(
        tree.get(&path(&["BepInEx", "config", "a.cfg"])),
        Some(&seg("new"))
    );
}

#[test]
fn preparing_a_new_name_keeps_existing_profiles() {
    let mut game = Game {
        profiles: vec![Profile {
            name: seg("A"),
            ignored_updates: Vec::new(),
            tree: DirTree::new(),
        }],
    };
    let idx = prepare_profile(&mut game, &seg("B"), &Vec::new());
    assert_eq!(game.profiles.len(), 2);
    assert_eq!(game.profiles[0].name, seg("A"));
    assert_eq!(game.profiles[idx].name, seg("B"));
}

#[test]
fn extraction_dir_persists_one_way() {
    let d = ExtractionDir::Scoped(seg("/tmp/extract"));
    assert_eq!(d.path(), &seg("/tmp/extract"));
    let p = d.into_persisted();
    assert!(matches!(p, ExtractionDir::Persisted(_)));
    assert_eq!(p.path(), &seg("/tmp/extract"));
}

#[test]
fn json_style_selects_pretty() {
    assert!(JsonStyle::Pretty.is_pretty());
    assert!(!JsonStyle::Compact.is_pretty());
    assert_ne!(JsonStyle::Pretty, JsonStyle::Compact);
}
