use ngram_index::file_cache::FileCache;

const PLENTY: u64 = u64::MAX;

fn cache_with(files: &[(&str, &[u8])]) -> FileCache {
    let mut c = FileCache::new();
    for (path, content) in files {
        c.insert_with_memory(path, content.to_vec(), PLENTY, content.len() as u64);
    }
    c
}

#[test]
fn get_returns_line_with_terminator() {
    let mut c = cache_with(&[("a.txt", b"hello\nworld\n")]);
    assert_eq!(c.get("a.txt", 0), b"hello\n".to_vec());
    assert_eq!(c.get("a.txt", 6), b"world\n".to_vec());
}

#[test]
fn get_mid_line_reads_to_terminator() {
    let mut c = cache_with(&[("a.txt", b"hello\nworld\n")]);
    assert_eq!(c.get("a.txt", 2), b"llo\n".to_vec());
}

#[test]
fn get_without_terminator_reads_to_end() {
    let mut c = cache_with(&[("a.txt", b"abc")]);
    assert_eq!(c.get("a.txt", 0), b"abc".to_vec());
    assert_eq!(c.get("a.txt", 1), b"bc".to_vec());
}

#[test]
fn get_at_end_of_file_is_empty() {
    let mut c = cache_with(&[("a.txt", b"hello\n")]);
    assert_eq!(c.get("a.txt", 6), Vec::<u8>::new());
    assert_eq!(c.get("a.txt", 100), Vec::<u8>::new());
}

#[test]
fn get_on_empty_content_is_empty() {
    let mut c = cache_with(&[("a.txt", b"")]);
    assert_eq!(c.get("a.txt", 0), Vec::<u8>::new());
}

#[test]
fn repeated_resolution_is_deterministic() {
    let mut c = cache_with(&[("a.txt", b"one\ntwo\n"), ("b.txt", b"x\ny\n")]);
    let first = c.get("a.txt", 4);
    let again = c.get("a.txt", 4);
    assert_eq!(first, again);
    // Resolutions of other paths only touch recency bookkeeping.
    let _ = c.get("b.txt", 0);
    let _ = c.get("b.txt", 2);
    assert_eq!(c.get("a.txt", 4), first);
}

#[test]
fn contains_tracks_entries() {
    let mut c = FileCache::new();
    assert!(!c.contains("a.txt"));
    c.insert_with_memory("a.txt", b"x\n".to_vec(), PLENTY, 2);
    assert!(c.contains("a.txt"));
    assert!(!c.contains("b.txt"));
}

#[test]
fn no_eviction_with_enough_memory() {
    let mut c = cache_with(&[("a.txt", b"a\n"), ("b.txt", b"b\n")]);
    // 2 * avail >= 3 * size: the boundary itself does not evict.
    c.insert_with_memory("c.txt", b"c\n".to_vec(), 3, 2);
    assert!(c.contains("a.txt"));
    assert!(c.contains("b.txt"));
    assert!(c.contains("c.txt"));
}

#[test]
fn eviction_removes_exactly_the_lowest_score() {
    let mut c = cache_with(&[("a.txt", b"a\n"), ("b.txt", b"b\n")]);
    // Make a.txt the most recently resolved: its score is now above b's.
    let _ = c.get("a.txt", 0);
    // 2 * avail < 3 * size forces one eviction: b.txt has the lowest score.
    c.insert_with_memory("c.txt", b"c\n".to_vec(), 2, 2);
    assert!(c.contains("a.txt"));
    assert!(!c.contains("b.txt"));
    assert!(c.contains("c.txt"));
}

#[test]
fn eviction_under_pressure_removes_one_entry_only() {
    let mut c = cache_with(&[("a.txt", b"a\n"), ("b.txt", b"b\n"), ("c.txt", b"c\n")]);
    c.insert_with_memory("d.txt", b"d\n".to_vec(), 0, 1000);
    let kept = ["a.txt", "b.txt", "c.txt"]
        .iter()
        .filter(|p| c.contains(p))
        .count();
    assert_eq!(kept, 2);
    assert!(c.contains("d.txt"));
}

#[test]
fn insert_into_empty_cache_under_pressure_evicts_nothing() {
    let mut c = FileCache::new();
    c.insert_with_memory("a.txt", b"a\n".to_vec(), 0, 1000);
    assert!(c.contains("a.txt"));
    assert_eq!(c.get("a.txt", 0), b"a\n".to_vec());
}

#[test]
fn most_recent_path_outranks_others() {
    // After resolving a path, it survives an eviction that removes the
    // least recently used entry, whichever order the entries were loaded.
    let mut c = cache_with(&[("a.txt", b"a\n"), ("b.txt", b"b\n")]);
    let _ = c.get("b.txt", 0);
    c.insert_with_memory("c.txt", b"c\n".to_vec(), 0, 1000);
    assert!(c.contains("b.txt"));
    assert!(!c.contains("a.txt"));
}

#[test]
fn scores_in_range_on_small_histories() {
    let mut c = cache_with(&[("a.txt", b"a\n")]);
    assert!(c.scores_in_range());
    let _ = c.get("a.txt", 0);
    assert!(c.scores_in_range());
}

#[test]
fn live_memory_insert_keeps_the_new_entry() {
    let mut c = FileCache::new();
    c.insert("a.txt", b"hello\n".to_vec(), 6);
    assert!(c.contains("a.txt"));
    assert_eq!(c.get("a.txt", 0), b"hello\n".to_vec());
}
