use musfs::basename::{file_name_of, get_basename};
use musfs::catalog::{FileKind, FsError, Timestamp, Track, PLACEHOLDER_SIZE};
use musfs::engine::{finish_range, JsonFilesystem, ReadStep};
use musfs::head_cache::{CACHE_HEAD, MAX_CACHE_SIZE};
use musfs::length_cache::parse_content_length;

const BASE: &str = "https://example.org";

fn at() -> Timestamp {
    Timestamp { sec: 1700000000, nsec: 5 }
}

fn track(id: Option<&str>, path: Option<&str>) -> Track {
    Track {
        id: id.map(|s| s.to_string()),
        path: path.map(|s| s.to_string()),
        ..Default::default()
    }
}

fn head_bytes(n: usize) -> Vec<u8> {
    (0..n).map(|i| (i % 251) as u8).collect()
}

fn one_track() -> JsonFilesystem {
    JsonFilesystem::new(&vec![track(Some("t1"), Some("a/b%20c.mp3"))], BASE, at())
}

fn names(fs: &JsonFilesystem, offset: i64) -> Vec<(u64, i64, String)> {
    fs.readdir(1, offset)
        .unwrap()
        .into_iter()
        .map(|e| (e.ino, e.offset, e.name))
        .collect()
}

#[test]
fn head_read_fetches_length_then_head() {
    let mut fs = one_track();
    let url = format!("{}/a/b%20c.mp3", BASE);
    assert_eq!(fs.read(2, 0, 10), ReadStep::FetchLength { url: url.clone() });
    let step = fs.read_with_length(2, 0, 10, Some("2000000".to_string()));
    assert_eq!(step, ReadStep::FetchHead { url: url.clone(), last: 1048575 });
    assert_eq!(fs.cached_length(2), Some(2000000));
    let head = head_bytes(1048576);
    let got = fs.finish_head(2, 0, 10, Some(head.clone())).unwrap();
    assert_eq!(got, head[0..10].to_vec());
    assert_eq!(fs.head_cache_len(), 1);
    // A repeated read is served from the head cache with the same bytes.
    assert_eq!(fs.read(2, 0, 10), ReadStep::Reply(head[0..10].to_vec()));
    assert_eq!(fs.read(2, 0, 10), ReadStep::Reply(head[0..10].to_vec()));
    assert_eq!(fs.read(2, 100, 20), ReadStep::Reply(head[100..120].to_vec()));
}

#[test]
fn read_at_end_is_empty() {
    let mut fs = one_track();
    fs.read_with_length(2, 0, 10, Some("2000000".to_string()));
    assert_eq!(fs.read(2, 2000000, 10), ReadStep::Reply(vec![]));
    assert_eq!(fs.read(2, 2500000, 10), ReadStep::Reply(vec![]));
}

#[test]
fn tail_read_is_one_ranged_fetch() {
    let mut fs = one_track();
    let url = format!("{}/a/b%20c.mp3", BASE);
    let step = fs.read_with_length(2, 1500000, 4096, Some("2000000".to_string()));
    assert_eq!(step, ReadStep::FetchRange { url: url.clone(), first: 1500000, last: 1504095 });
    let body: Vec<u8> = (0..4096).map(|i| (i % 7) as u8).collect();
    assert_eq!(finish_range(Some(body.clone())), Ok(body));
    assert_eq!(fs.head_cache_len(), 0);
}

#[test]
fn tail_read_is_cut_at_content_length() {
    let mut fs = one_track();
    fs.read_with_length(2, 0, 1, Some("2000000".to_string()));
    let url = format!("{}/a/b%20c.mp3", BASE);
    assert_eq!(
        fs.read(2, 1999000, 4096),
        ReadStep::FetchRange { url, first: 1999000, last: 1999999 }
    );
}

#[test]
fn later_track_takes_a_shared_name() {
    let tree = vec![
        track(Some("x"), Some("one/song.mp3")),
        track(Some("y"), Some("two/song.mp3")),
    ];
    let fs = JsonFilesystem::new(&tree, BASE, at());
    assert_eq!(
        names(&fs, 0),
        vec![
            (1, 0, ".".to_string()),
            (1, 1, "..".to_string()),
            (3, 2, "song.mp3".to_string()),
        ]
    );
    assert_eq!(fs.lookup(1, "song.mp3").unwrap().ino, 3);
    // Both inodes still answer attribute queries.
    assert!(fs.getattr(2).is_ok());
    assert!(fs.getattr(3).is_ok());
}

#[test]
fn getattr_of_unknown_inodes_is_not_found() {
    let fs = one_track();
    assert_eq!(fs.getattr(0), Err(FsError::NotFound));
    assert_eq!(fs.getattr(3), Err(FsError::NotFound));
    assert_eq!(fs.getattr(u64::MAX), Err(FsError::NotFound));
}

#[test]
fn getattr_of_root_and_track() {
    let fs = one_track();
    let root = fs.getattr(1).unwrap();
    assert_eq!(root.kind, FileKind::Directory);
    assert_eq!(root.size, 0);
    assert_eq!(root.perm, 0o755);
    assert_eq!(root.time, at());
    let file = fs.getattr(2).unwrap();
    assert_eq!(file.ino, 2);
    assert_eq!(file.kind, FileKind::RegularFile);
    assert_eq!(file.size, PLACEHOLDER_SIZE);
    assert_eq!(file.perm, 0o644);
}

#[test]
fn readdir_lists_decoded_names_in_catalog_order() {
    let tree = vec![
        track(Some("1"), Some("z/zeta.mp3")),
        track(Some("2"), Some("a/alpha.mp3")),
        track(Some("3"), Some("m/mu%20nu.mp3")),
    ];
    let fs = JsonFilesystem::new(&tree, BASE, at());
    assert_eq!(
        names(&fs, 0),
        vec![
            (1, 0, ".".to_string()),
            (1, 1, "..".to_string()),
            (2, 2, "zeta.mp3".to_string()),
            (3, 3, "alpha.mp3".to_string()),
            (4, 4, "mu nu.mp3".to_string()),
        ]
    );
    // Resuming after the second file entry gives the third.
    assert_eq!(names(&fs, 3), vec![(4, 4, "mu nu.mp3".to_string())]);
    assert_eq!(names(&fs, 1).len(), 3);
    assert_eq!(names(&fs, 9), vec![]);
    assert_eq!(names(&fs, -1), vec![]);
    assert_eq!(fs.readdir(2, 0), Err(FsError::NotFound));
}

#[test]
fn undecodable_path_is_unreachable_by_name() {
    let tree = vec![
        track(Some("1"), Some("bad%FF.mp3")),
        track(Some("2"), Some("good.mp3")),
        track(Some("3"), None),
    ];
    let fs = JsonFilesystem::new(&tree, BASE, at());
    assert_eq!(
        names(&fs, 0),
        vec![
            (1, 0, ".".to_string()),
            (1, 1, "..".to_string()),
            (3, 2, "good.mp3".to_string()),
        ]
    );
    assert!(fs.getattr(2).is_ok());
    assert!(fs.getattr(4).is_ok());
    assert_eq!(fs.read(4, 0, 10), ReadStep::Fail(FsError::NotFound));
}

#[test]
fn lookup_only_in_root() {
    let fs = one_track();
    assert_eq!(fs.lookup(1, "b c.mp3").unwrap().ino, 2);
    assert_eq!(fs.lookup(2, "b c.mp3"), Err(FsError::NotFound));
    assert_eq!(fs.lookup(1, "missing.mp3"), Err(FsError::NotFound));
    assert_eq!(fs.lookup(1, "b%20c.mp3"), Err(FsError::NotFound));
}

#[test]
fn read_of_root_or_unknown_inode_fails() {
    let fs = one_track();
    assert_eq!(fs.read(1, 0, 10), ReadStep::Fail(FsError::NotFound));
    assert_eq!(fs.read(3, 0, 10), ReadStep::Fail(FsError::NotFound));
}

#[test]
fn unusable_length_fails_and_caches_nothing() {
    let mut fs = one_track();
    assert_eq!(fs.read_with_length(2, 0, 10, None), ReadStep::Fail(FsError::RemoteUnavailable));
    assert_eq!(
        fs.read_with_length(2, 0, 10, Some("abc".to_string())),
        ReadStep::Fail(FsError::RemoteUnavailable)
    );
    assert_eq!(fs.cached_length(2), None);
    assert!(matches!(fs.read(2, 0, 10), ReadStep::FetchLength { .. }));
}

#[test]
fn failed_head_fetch_leaves_cache_unchanged() {
    let mut fs = one_track();
    fs.read_with_length(2, 0, 10, Some("2000000".to_string()));
    assert_eq!(fs.finish_head(2, 0, 10, None), Err(FsError::RemoteUnavailable));
    assert_eq!(fs.head_cache_len(), 0);
}

#[test]
fn short_file_head_is_cut_at_content_length() {
    let mut fs = one_track();
    let url = format!("{}/a/b%20c.mp3", BASE);
    let step = fs.read_with_length(2, 50, 4096, Some("100".to_string()));
    assert_eq!(step, ReadStep::FetchHead { url, last: 99 });
    let head = head_bytes(100);
    assert_eq!(fs.finish_head(2, 50, 4096, Some(head.clone())).unwrap(), head[50..100].to_vec());
    assert_eq!(fs.read(2, 50, 4096), ReadStep::Reply(head[50..100].to_vec()));
    assert_eq!(fs.read(2, 100, 4096), ReadStep::Reply(vec![]));
}

#[test]
fn head_cache_evicts_first_key_and_stays_bounded() {
    let tree: Vec<Track> = (0..12)
        .map(|i| track(Some(&format!("k{:02}", 11 - i)), Some(&format!("d/f{}.mp3", i))))
        .collect();
    let mut fs = JsonFilesystem::new(&tree, BASE, at());
    let cap = (MAX_CACHE_SIZE / CACHE_HEAD) as usize;
    assert_eq!(cap, 10);
    for ino in 2..14u64 {
        fs.read_with_length(ino, 0, 10, Some("5000".to_string()));
        fs.finish_head(ino, 0, 10, Some(head_bytes(5000))).unwrap();
        assert!(fs.head_cache_len() <= cap);
    }
    assert_eq!(fs.head_cache_len(), cap);
    // Inode 2 + i has key k(11 - i). Inserting inode 12 (k01) evicted k02
    // (inode 11); inserting inode 13 (k00) then evicted k01 (inode 12).
    assert!(matches!(fs.read(11, 0, 10), ReadStep::FetchHead { .. }));
    assert!(matches!(fs.read(12, 0, 10), ReadStep::FetchHead { .. }));
    assert!(matches!(fs.read(2, 0, 10), ReadStep::Reply(_)));
    assert!(matches!(fs.read(13, 0, 10), ReadStep::Reply(_)));
}

#[test]
fn eviction_takes_lexicographically_smallest_key() {
    let keys = ["m", "c", "x", "a1", "q", "b", "z", "n", "o", "p", "a0"];
    let tree: Vec<Track> = keys
        .iter()
        .enumerate()
        .map(|(i, k)| track(Some(k), Some(&format!("d/f{}.mp3", i))))
        .collect();
    let mut fs = JsonFilesystem::new(&tree, BASE, at());
    for ino in 2..12u64 {
        fs.read_with_length(ino, 0, 10, Some("5000".to_string()));
        fs.finish_head(ino, 0, 10, Some(head_bytes(5000))).unwrap();
    }
    assert_eq!(fs.head_cache_len(), 10);
    fs.read_with_length(12, 0, 10, Some("5000".to_string()));
    fs.finish_head(12, 0, 10, Some(head_bytes(5000))).unwrap();
    assert_eq!(fs.head_cache_len(), 10);
    // "a1" (inode 5) sorted first among the cached keys and was evicted.
    assert!(matches!(fs.read(5, 0, 10), ReadStep::FetchHead { .. }));
    assert!(matches!(fs.read(7, 0, 10), ReadStep::Reply(_)));
    assert!(matches!(fs.read(12, 0, 10), ReadStep::Reply(_)));
}

#[test]
fn byte_count_is_requested_size_cut_at_end() {
    let mut fs = one_track();
    fs.read_with_length(2, 0, 10, Some("2000000".to_string()));
    let head = head_bytes(1048576);
    fs.finish_head(2, 0, 10, Some(head)).unwrap();
    match fs.read(2, 1048000, 576) {
        ReadStep::Reply(b) => assert_eq!(b.len(), 576),
        other => panic!("unexpected {:?}", other),
    }
    match fs.read(2, 1048000, 577) {
        ReadStep::FetchRange { first, last, .. } => assert_eq!(last - first + 1, 577),
        other => panic!("unexpected {:?}", other),
    }
}

#[test]
fn track_without_id_is_keyed_by_path() {
    let tree = vec![track(None, Some("p/one.mp3")), track(Some("p/one.mp3"), Some("q/two.mp3"))];
    let mut fs = JsonFilesystem::new(&tree, BASE, at());
    fs.read_with_length(2, 0, 10, Some("1234".to_string()));
    // The second track's id equals the first track's path: they share a key.
    assert_eq!(fs.cached_length(3), Some(1234));
}

#[test]
fn content_length_parsing() {
    assert_eq!(parse_content_length("2000000"), Some(2000000));
    assert_eq!(parse_content_length("+12"), Some(12));
    assert_eq!(parse_content_length("0"), Some(0));
    assert_eq!(parse_content_length("18446744073709551615"), Some(u64::MAX));
    assert_eq!(parse_content_length("18446744073709551616"), None);
    assert_eq!(parse_content_length(""), None);
    assert_eq!(parse_content_length("+"), None);
    assert_eq!(parse_content_length("-5"), None);
    assert_eq!(parse_content_length("12a"), None);
}

#[test]
fn basenames_of_paths() {
    assert_eq!(get_basename("a/b%20c.mp3"), Some("b c.mp3".to_string()));
    assert_eq!(get_basename("song.mp3"), Some("song.mp3".to_string()));
    assert_eq!(get_basename("a/b/"), Some("b".to_string()));
    assert_eq!(get_basename("a/b/."), Some("b".to_string()));
    assert_eq!(get_basename("a%2Fb"), Some("b".to_string()));
    assert_eq!(get_basename("x/100%zz"), Some("100%zz".to_string()));
    assert_eq!(get_basename("x/%C3%A9t%C3%A9"), Some("\u{e9}t\u{e9}".to_string()));
    assert_eq!(get_basename("a/.."), None);
    assert_eq!(get_basename("/"), None);
    assert_eq!(get_basename(""), None);
    assert_eq!(get_basename("%FF"), None);
}

#[test]
fn file_names_of_char_paths() {
    let p: Vec<char> = "dir//name.ext//".chars().collect();
    assert_eq!(file_name_of(&p), Some("name.ext".chars().collect()));
    let q: Vec<char> = "./".chars().collect();
    assert_eq!(file_name_of(&q), None);
}
