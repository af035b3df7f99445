use ngram_index::chunks::chunk_bounds;
use ngram_index::file_cache::FileCache;
use ngram_index::pipeline::{assemble_chunk, reference_from_row, should_skip, NgramIndex};

#[test]
fn assemble_concatenates_in_row_order() {
    let lines = vec![b"ab\n".to_vec(), b"c\n".to_vec(), Vec::new(), b"d".to_vec()];
    assert_eq!(assemble_chunk(&lines), b"ab\nc\nd".to_vec());
}

#[test]
fn assemble_empty_chunk_is_empty() {
    assert_eq!(assemble_chunk(&Vec::new()), Vec::<u8>::new());
}

#[test]
fn skip_only_in_resume_mode_with_existing_output() {
    assert!(should_skip(true, true));
    assert!(!should_skip(true, false));
    assert!(!should_skip(false, true));
    assert!(!should_skip(false, false));
}

#[test]
fn reference_carries_path_and_offset() {
    let r = NgramIndex { file: "corpus/a.txt".to_string(), start_in_file: 42 };
    assert_eq!(r.file, "corpus/a.txt");
    assert_eq!(r.start_in_file, 42);
}

#[test]
fn row_fields_map_to_a_reference() {
    let r = reference_from_row("corpus/b.txt".to_string(), 7);
    assert_eq!(r.file, "corpus/b.txt");
    assert_eq!(r.start_in_file, 7);
    // The signed offset field keeps its bits when it becomes unsigned.
    let r = reference_from_row("corpus/c.txt".to_string(), -1);
    assert_eq!(r.start_in_file, u64::MAX);
}

fn run(rows: &[(&str, u64)], files: &[(&str, &[u8])], chunk_size: u64, prior: &[Option<Vec<u8>>]) -> Vec<Vec<u8>> {
    // One order's run: resolve each chunk's rows through a fresh cache,
    // keeping a prior output where resume mode finds one.
    let mut cache = FileCache::new();
    for (path, content) in files {
        cache.insert_with_memory(path, content.to_vec(), u64::MAX, content.len() as u64);
    }
    let mut outputs = Vec::new();
    for (ci, (start, width)) in chunk_bounds(rows.len() as u64, chunk_size).iter().enumerate() {
        let exists = prior.get(ci).map_or(false, |p| p.is_some());
        if should_skip(true, exists) {
            outputs.push(prior[ci].clone().unwrap());
            continue;
        }
        let mut lines = Vec::new();
        for row in *start..*start + *width {
            let (path, offset) = rows[row as usize];
            lines.push(cache.get(path, offset));
        }
        outputs.push(assemble_chunk(&lines));
    }
    outputs
}

#[test]
fn resume_after_partial_run_matches_full_run() {
    let files: &[(&str, &[u8])] = &[("a.txt", b"one\ntwo\nthree\n"), ("b.txt", b"x\ny\n")];
    let rows: &[(&str, u64)] = &[
        ("a.txt", 0),
        ("b.txt", 2),
        ("a.txt", 4),
        ("a.txt", 8),
        ("b.txt", 0),
    ];
    let full = run(rows, files, 2, &[]);
    // A stop after the first chunk left only that output behind.
    let prior = vec![Some(full[0].clone()), None, None];
    let resumed = run(rows, files, 2, &prior);
    assert_eq!(resumed, full);
    assert_eq!(full[0], b"one\ny\n".to_vec());
    assert_eq!(full[1], b"two\nthree\n".to_vec());
    assert_eq!(full[2], b"x\n".to_vec());
}
