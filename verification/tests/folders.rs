//! Stepping through folders, and the filmstrip.

use bp_photos::browse::{list_photos, size_of, Browser, Entry};
use bp_photos::filmstrip::{Filmstrip, Queue, Slot, KEEP_WITHIN};
use bp_photos::loader::{Decoded, Pixels};

fn file(name: &str) -> Entry {
    Entry { name: name.to_string(), is_file: true }
}

fn texts(list: &[&str]) -> Vec<String> {
    list.iter().map(|s| s.to_string()).collect()
}

fn decoded(width: u32) -> Decoded {
    Decoded { width, height: 1, pixels: Pixels::Srgb8(vec![0; 4 * width as usize]), p3: false }
}

#[test]
fn lists_photos_sorted_and_steps_through_them() {
    let entries: Vec<Entry> = ["b.JPG", "a.heic", "c.txt", ".hidden.jpg", "C.png"].iter().map(|n| file(n)).collect();
    let files: Vec<String> = list_photos(&entries).iter().map(|&i| entries[i].name.clone()).collect();
    assert_eq!(files, ["a.heic", "b.JPG", "C.png"]);

    let paths: Vec<String> = files.iter().map(|f| format!("dir/{f}")).collect();
    let mut b = Browser::new();
    b.index("dir/b.JPG", Some("dir".to_string()), paths);
    assert_eq!(b.neighbour("dir/b.JPG", 1).as_deref(), Some("dir/C.png"));
    assert_eq!(b.neighbour("dir/a.heic", -1), None);
}

#[test]
fn folders_are_no_photos() {
    let entries = [Entry { name: "a.jpg".to_string(), is_file: false }, file("b.jpg")];
    assert_eq!(list_photos(&entries), [1]);
}

#[test]
fn a_folder_is_listed_again_when_it_changes() {
    let mut b = Browser::new();
    let dir = Some("d".to_string());
    assert!(b.is_stale("d/a.jpg", &dir));
    b.index("d/a.jpg", dir.clone(), texts(&["d/a.jpg", "d/b.jpg"]));
    assert!(!b.is_stale("d/b.jpg", &dir));
    // A photo that is new to us, or another folder.
    assert!(b.is_stale("d/c.jpg", &dir));
    assert!(b.is_stale("d/a.jpg", &None));
    // What was listed stays where nothing changed.
    b.index("d/b.jpg", dir, Vec::new());
    assert_eq!(b.files.len(), 2);
    assert_eq!(b.position("d/b.jpg"), Some(1));
    assert_eq!(b.position("d/x.jpg"), None);
}

#[test]
fn stepping_back_undoes_stepping_forward() {
    let mut b = Browser::new();
    b.index("1", None, texts(&["1", "2", "3"]));
    for (from, to) in [("1", "2"), ("2", "3")] {
        assert_eq!(b.neighbour(from, 1).as_deref(), Some(to));
        assert_eq!(b.neighbour(to, -1).as_deref(), Some(from));
    }
    assert_eq!(b.neighbour("3", 1), None);
    assert_eq!(b.neighbour("1", isize::MIN), None);
}

#[test]
fn neighbours_are_decoded_ahead() {
    let mut b = Browser::new();
    b.index("2", None, texts(&["1", "2", "3"]));
    assert_eq!(b.prefetch("2"), ["3", "1"]);
    assert!(b.busy() && b.is_inflight("3") && b.is_inflight("1"));
    // Nothing is decoded twice.
    assert!(b.prefetch("2").is_empty());
    assert!(b.poll(vec![("3".to_string(), Ok(decoded(1))), ("1".to_string(), Err("bad".to_string()))]).is_none());
    assert!(!b.busy());
    assert_eq!(b.take("3").unwrap().width, 1);
    assert!(b.take("3").is_none());
    assert!(b.take("1").is_none());
}

#[test]
fn the_photo_that_is_waited_for_is_handed_out() {
    let mut b = Browser::new();
    b.index("2", None, texts(&["1", "2", "3"]));
    b.prefetch("2");
    b.wait_for(Some("3".to_string()));
    let (path, result) = b.poll(vec![("3".to_string(), Ok(decoded(7)))]).unwrap();
    assert_eq!(path, "3");
    assert_eq!(result.ok().unwrap().width, 7);
    assert!(b.pending.is_none());
    assert!(b.take("3").is_none());
}

#[test]
fn photos_have_a_size_in_memory() {
    assert_eq!(size_of(&decoded(3)), 12);
    let deep = Decoded { width: 1, height: 1, pixels: Pixels::LinearF16(vec![0; 4]), p3: false };
    assert_eq!(size_of(&deep), 8);
}

#[test]
fn the_filmstrip_loads_the_nearest_first() {
    let files = texts(&["a", "b", "c"]);
    let mut strip = Filmstrip::new();
    let mut queue = Queue::new();
    assert!(strip.update(&mut queue, Vec::new(), &files, Some(1)));
    assert_eq!(strip.get("b"), Some(Slot::Queued));
    assert!(strip.loading());
    assert_eq!(queue.take().as_deref(), Some("b"));
    let second = queue.take().unwrap();
    assert!(second == "a" || second == "c");
    queue.take();
    assert!(queue.is_empty());
    // Results arrive.
    let done = vec![("b".to_string(), true), ("a".to_string(), false)];
    assert!(!strip.update(&mut queue, done, &files, Some(1)));
    assert_eq!(strip.get("b"), Some(Slot::Ready));
    assert!(strip.failed("a"));
    assert!(!strip.failed("b"));
    assert_eq!(strip.get("zzz"), None);
}

#[test]
fn thumbnails_far_away_are_forgotten() {
    let files: Vec<String> = (0..1000).map(|i| format!("{i}")).collect();
    let mut strip = Filmstrip::new();
    let mut queue = Queue::new();
    strip.update(&mut queue, Vec::new(), &files, Some(0));
    assert!(strip.get("0").is_some());
    assert!(strip.get(&format!("{}", KEEP_WITHIN)).is_some());
    assert!(strip.get(&format!("{}", KEEP_WITHIN + 1)).is_none());
    strip.update(&mut queue, Vec::new(), &files, Some(999));
    assert!(strip.get("0").is_none());
    assert!(strip.get("999").is_some());
}
