//! Preset packs.

use bp_photos::packs::{downloading, packs, source_note, target, unpack, unpacking, url, Pack};
use std::io::{Cursor, Write};

fn pack() -> Pack {
    Pack { name: "t", folder: "T", repo: "r/r", commit: "abc", subdir: "Presets" }
}

fn archive(entries: &[(&str, &str)]) -> Vec<u8> {
    let mut buf = Cursor::new(Vec::new());
    {
        let mut z = zip::ZipWriter::new(&mut buf);
        let opts = zip::write::SimpleFileOptions::default();
        for (name, body) in entries {
            z.start_file(*name, opts).unwrap();
            z.write_all(body.as_bytes()).unwrap();
        }
        z.finish().unwrap();
    }
    buf.into_inner()
}

fn texts(list: &[&str]) -> Vec<String> {
    list.iter().map(|s| s.to_string()).collect()
}

#[test]
fn unpacks_only_presets_and_licence_safely() {
    let zip = archive(&[
        ("repo-abc/LICENSE", "MIT"),
        ("repo-abc/Presets/Film/Portra.xmp", "<x/>"),
        ("repo-abc/Presets/readme.md", "skip"),
        ("repo-abc/other/Thing.xmp", "skip: outside subdir"),
    ]);
    let u = unpack(zip, &pack()).ok().unwrap();
    assert_eq!(u.presets, 1);
    assert!(u.error.is_none());
    let written = |path: &[&str]| u.files.iter().find(|f| f.path == texts(path));
    assert_eq!(written(&["Film", "Portra.xmp"]).unwrap().data, b"<x/>");
    assert_eq!(written(&["LICENSE.txt"]).unwrap().data, b"MIT");
    assert!(source_note(&pack()).contains("r/r"));
    assert!(written(&["readme.md"]).is_none() && written(&["Thing.xmp"]).is_none());
    assert_eq!(u.files.len(), 2);
}

#[test]
fn entries_that_lead_outside_are_left_out() {
    let zip = archive(&[("repo-abc/Presets/../../../outside.xmp", "x"), ("repo-abc/Presets/ok.xmp", "y")]);
    let u = unpack(zip, &pack()).ok().unwrap();
    assert!(u.files.iter().all(|f| f.path.iter().all(|p| p != "..")));
    assert!(u.files.iter().any(|f| f.path == texts(&["ok.xmp"])));
}

#[test]
fn names_beyond_ascii_are_kept() {
    let zip = archive(&[
        ("repo-abc/Presets/Été/Größe.xmp", "a"),
        ("repo-abc/Presets/フィルム/🌅.cube", "b"),
        ("repo-abc/./Presets//Film/../Neu/c.lrtemplate", "c"),
        ("repo-abc\\Presets\\d.xmp", "d"),
    ]);
    let u = unpack(zip, &pack()).ok().unwrap();
    let paths: Vec<Vec<String>> = u.files.iter().map(|f| f.path.clone()).collect();
    assert_eq!(paths, [texts(&["Été", "Größe.xmp"]), texts(&["フィルム", "🌅.cube"]), texts(&["Neu", "c.lrtemplate"]), texts(&["d.xmp"])]);
    assert_eq!((u.presets, u.error), (4, None));
}

#[test]
fn bad_archives_are_reported() {
    let e = unpack(b"no archive".to_vec(), &pack()).err().unwrap();
    assert!(e.starts_with("bad archive: "), "{e}");
}

#[test]
fn targets_drop_the_repository_and_the_folder() {
    assert_eq!(target(&texts(&["r", "Presets", "A", "b.cube"]), "Presets"), Some((texts(&["A", "b.cube"]), true)));
    assert_eq!(target(&texts(&["r", "LICENSE"]), "Presets"), Some((texts(&["LICENSE.txt"]), false)));
    assert_eq!(target(&texts(&["r", "Presets", "notes.txt"]), "Presets"), None);
    assert_eq!(target(&texts(&["r", "Other", "b.cube"]), "Presets"), None);
    // Folders in folders, the whole repository, and paths that no entry has.
    assert_eq!(target(&texts(&["r", "a", "b", "c.cube"]), "a/./b/"), Some((texts(&["c.cube"]), true)));
    assert_eq!(target(&texts(&["r", "c.cube"]), ""), Some((texts(&["c.cube"]), true)));
    assert_eq!(target(&texts(&["r", "a", "c.cube"]), "/a"), None);
    assert_eq!(target(&texts(&["r", "a", "c.cube"]), "./a"), None);
    assert_eq!(target(&texts(&["r"]), ""), None);
}

#[test]
fn packs_come_from_their_commit() {
    let p = pack();
    assert_eq!(url(&p), "https://codeload.github.com/r/r/zip/abc");
    assert_eq!(source_note(&p), "From https://github.com/r/r at commit abc (MIT licence, see LICENSE.txt).\n");
    assert!(downloading(&p, 0, 2).contains("t"));
    assert_eq!(unpacking(&p), "Unpacking t…");
    assert!(packs().iter().all(|p| p.commit.len() == 40));
}
