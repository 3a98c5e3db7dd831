use duplicate_finder::hashing::hash_bytes;
use duplicate_finder::scanner::{
    aggregate_results, auto_thread_count, file_passes_size_filter, group_duplicates, is_hidden,
    resolve_thread_count, validate_config, DirEntryInfo, EntryMeta, Traversal,
};
use duplicate_finder::{Cli, DuplicateFinderError, FileInfo};

fn entry(path: &str, name: &str, is_symlink: bool, meta: EntryMeta) -> DirEntryInfo {
    DirEntryInfo {
        path: path.to_string(),
        name: name.to_string(),
        is_symlink,
        meta,
    }
}

fn record(path: &str, size: u64, hash: String, modified: u64) -> FileInfo {
    FileInfo {
        path: path.to_string(),
        size,
        hash,
        modified,
        created: None,
    }
}

#[test]
fn test_validate_config_ok() {
    let cli = Cli::default();
    assert!(validate_config(&cli, true).is_ok());
}

#[test]
fn test_validate_config_missing_root() {
    let cli = Cli {
        directory: "/definitely/missing".to_string(),
        ..Cli::default()
    };
    match validate_config(&cli, false) {
        Err(DuplicateFinderError::PathNotFound { path }) => {
            assert_eq!(path, "/definitely/missing");
        }
        other => panic!("expected PathNotFound, got {:?}", other),
    }
}

#[test]
fn test_validate_config_invalid_filter() {
    // An impossible size window is fatal before any scanning starts.
    let cli = Cli {
        min_size: 500,
        max_size: 100,
        ..Cli::default()
    };
    match validate_config(&cli, true) {
        Err(DuplicateFinderError::InvalidSizeFilter { min, max }) => {
            assert_eq!(min, 500);
            assert_eq!(max, 100);
        }
        other => panic!("expected InvalidSizeFilter, got {:?}", other),
    }
}

#[test]
fn test_size_filter() {
    let cli = Cli {
        min_size: 10,
        max_size: 100,
        exclude_empty: true,
        ..Cli::default()
    };
    assert!(!file_passes_size_filter(&cli, 0));
    assert!(!file_passes_size_filter(&cli, 9));
    assert!(file_passes_size_filter(&cli, 10));
    assert!(file_passes_size_filter(&cli, 100));
    assert!(!file_passes_size_filter(&cli, 101));
    // With no limits, everything passes, including empty files.
    let open = Cli::default();
    assert!(file_passes_size_filter(&open, 0));
    assert!(file_passes_size_filter(&open, u64::MAX));
    // exclude_empty alone rejects only the zero-byte file.
    let no_empty = Cli {
        exclude_empty: true,
        ..Cli::default()
    };
    assert!(!file_passes_size_filter(&no_empty, 0));
    assert!(file_passes_size_filter(&no_empty, 1));
}

#[test]
fn test_is_hidden() {
    assert!(is_hidden(".git"));
    assert!(is_hidden(".x"));
    assert!(!is_hidden("plain"));
    assert!(!is_hidden(""));
}

#[test]
fn test_traversal_small_files_filtered_out() {
    // min_size = 100 but every file is 10 bytes: nothing is discovered,
    // so a scan reports zero groups and zero wasted space.
    let cli = Cli {
        directory: "/r".to_string(),
        min_size: 100,
        ..Cli::default()
    };
    let mut t = Traversal::new(cli);
    assert_eq!(t.next_dir(), Some("/r".to_string()));
    t.record_entries(vec![
        entry("/r/a", "a", false, EntryMeta::File { size: 10 }),
        entry("/r/b", "b", false, EntryMeta::File { size: 10 }),
        entry("/r/c", "c", false, EntryMeta::File { size: 10 }),
    ]);
    assert_eq!(t.next_dir(), None);
    let (files, warnings, truncated) = t.into_outcome();
    assert!(files.is_empty());
    assert!(warnings.is_empty());
    assert!(!truncated);

    let groups = group_duplicates(Vec::new());
    assert!(groups.is_empty());
    let result = aggregate_results(groups, 1, "/r".to_string());
    assert_eq!(result.duplicate_groups.len(), 0);
    assert_eq!(result.total_wasted_space, 0);
}

#[test]
fn test_traversal_max_depth() {
    // root/dir1/dir2/dir3/file.txt with max_depth = 2: dir2 is never
    // descended into, so file.txt is not discovered.
    let cli = Cli {
        directory: "/root".to_string(),
        max_depth: 2,
        ..Cli::default()
    };
    let mut t = Traversal::new(cli);
    assert_eq!(t.next_dir(), Some("/root".to_string()));
    t.record_entries(vec![entry("/root/dir1", "dir1", false, EntryMeta::Dir)]);
    assert_eq!(t.next_dir(), Some("/root/dir1".to_string()));
    t.record_entries(vec![entry("/root/dir1/dir2", "dir2", false, EntryMeta::Dir)]);
    // dir2 sits at depth 2, which the limit refuses to open.
    assert_eq!(t.next_dir(), None);
    let (files, _, _) = t.into_outcome();
    assert!(files.is_empty());
}

#[test]
fn test_traversal_depth_recorded() {
    let cli = Cli {
        directory: "/r".to_string(),
        ..Cli::default()
    };
    let mut t = Traversal::new(cli);
    assert_eq!(t.next_dir(), Some("/r".to_string()));
    t.record_entries(vec![
        entry("/r/top.txt", "top.txt", false, EntryMeta::File { size: 1 }),
        entry("/r/sub", "sub", false, EntryMeta::Dir),
    ]);
    assert_eq!(t.next_dir(), Some("/r/sub".to_string()));
    t.record_entries(vec![entry(
        "/r/sub/deep.txt",
        "deep.txt",
        false,
        EntryMeta::File { size: 1 },
    )]);
    assert_eq!(t.next_dir(), None);
    let (files, _, _) = t.into_outcome();
    assert_eq!(files.len(), 2);
    assert_eq!(files[0].path, "/r/top.txt");
    assert_eq!(files[0].depth, 1);
    assert_eq!(files[1].path, "/r/sub/deep.txt");
    assert_eq!(files[1].depth, 2);
}

#[test]
fn test_traversal_hidden_entries() {
    let cli = Cli {
        directory: "/r".to_string(),
        ..Cli::default()
    };
    let mut t = Traversal::new(cli);
    t.next_dir().unwrap();
    t.record_entries(vec![
        entry("/r/.secret", ".secret", false, EntryMeta::Dir),
        entry("/r/.conf", ".conf", false, EntryMeta::File { size: 5 }),
        entry("/r/seen.txt", "seen.txt", false, EntryMeta::File { size: 5 }),
    ]);
    // The hidden directory was never pushed, the hidden file never emitted.
    assert_eq!(t.next_dir(), None);
    let (files, _, _) = t.into_outcome();
    assert_eq!(files.len(), 1);
    assert_eq!(files[0].path, "/r/seen.txt");

    // With include_hidden set, both hidden entries take part.
    let cli = Cli {
        directory: "/r".to_string(),
        include_hidden: true,
        ..Cli::default()
    };
    let mut t = Traversal::new(cli);
    t.next_dir().unwrap();
    t.record_entries(vec![
        entry("/r/.secret", ".secret", false, EntryMeta::Dir),
        entry("/r/.conf", ".conf", false, EntryMeta::File { size: 5 }),
    ]);
    assert_eq!(t.next_dir(), Some("/r/.secret".to_string()));
    t.record_entries(Vec::new());
    let (files, _, _) = t.into_outcome();
    assert_eq!(files.len(), 1);
    assert_eq!(files[0].path, "/r/.conf");
}

#[test]
fn test_traversal_symlinks() {
    let cli = Cli {
        directory: "/r".to_string(),
        ..Cli::default()
    };
    let mut t = Traversal::new(cli);
    t.next_dir().unwrap();
    t.record_entries(vec![entry(
        "/r/link.txt",
        "link.txt",
        true,
        EntryMeta::File { size: 5 },
    )]);
    let (files, _, _) = t.into_outcome();
    assert!(files.is_empty());

    let cli = Cli {
        directory: "/r".to_string(),
        follow_symlinks: true,
        ..Cli::default()
    };
    let mut t = Traversal::new(cli);
    t.next_dir().unwrap();
    t.record_entries(vec![entry(
        "/r/link.txt",
        "link.txt",
        true,
        EntryMeta::File { size: 5 },
    )]);
    let (files, _, _) = t.into_outcome();
    assert_eq!(files.len(), 1);
}

#[test]
fn test_traversal_warnings() {
    let cli = Cli {
        directory: "/r".to_string(),
        ..Cli::default()
    };
    let mut t = Traversal::new(cli);
    t.next_dir().unwrap();
    t.record_entries(vec![
        entry("/r/ghost", "ghost", false, EntryMeta::Unavailable),
        entry("/r/sub", "sub", false, EntryMeta::Dir),
    ]);
    t.next_dir().unwrap();
    t.record_read_error();
    let (files, warnings, truncated) = t.into_outcome();
    assert!(files.is_empty());
    assert_eq!(warnings, vec!["/r/ghost".to_string(), "/r/sub".to_string()]);
    assert!(!truncated);
}

#[test]
fn test_traversal_sibling_order() {
    // Subdirectories found in one directory are visited in discovery
    // order, before deeper levels of the first of them drown the rest.
    let cli = Cli {
        directory: "/r".to_string(),
        ..Cli::default()
    };
    let mut t = Traversal::new(cli);
    t.next_dir().unwrap();
    t.record_entries(vec![
        entry("/r/a", "a", false, EntryMeta::Dir),
        entry("/r/b", "b", false, EntryMeta::Dir),
    ]);
    assert_eq!(t.next_dir(), Some("/r/a".to_string()));
    t.record_entries(Vec::new());
    assert_eq!(t.next_dir(), Some("/r/b".to_string()));
    t.record_entries(Vec::new());
    assert_eq!(t.next_dir(), None);
}

#[test]
fn test_group_duplicates_groups_by_hash() {
    let h1 = hash_bytes(b"hello");
    let h2 = hash_bytes(b"world");
    let records = vec![
        record("/d/c.txt", 5, h1.clone(), 300),
        record("/d/a.txt", 5, h1.clone(), 100),
        record("/d/d.txt", 5, h2.clone(), 50),
        record("/d/b.txt", 5, h1.clone(), 200),
    ];
    let groups = group_duplicates(records);
    assert_eq!(groups.len(), 2);
    let g1 = groups.iter().find(|g| g.hash == h1).unwrap();
    let g2 = groups.iter().find(|g| g.hash == h2).unwrap();
    // All files with the common digest are in one group, ordered by
    // modification time, oldest first.
    assert_eq!(g1.files.len(), 3);
    assert_eq!(g1.files[0].path, "/d/a.txt");
    assert_eq!(g1.files[1].path, "/d/b.txt");
    assert_eq!(g1.files[2].path, "/d/c.txt");
    assert!(g1.files[0].modified <= g1.files[1].modified);
    assert!(g1.files[1].modified <= g1.files[2].modified);
    // The group's size is the common size, and the space figures follow
    // the formulas.
    assert_eq!(g1.size, 5);
    assert_eq!(g1.total_size, 15);
    assert_eq!(g1.wasted_space, 10);
    assert_eq!(g2.files.len(), 1);
    assert_eq!(g2.wasted_space, 0);
}

#[test]
fn test_scan_pipeline_three_copies() {
    // a.txt, b.txt, c.txt hold "hello" (5 bytes), d.txt holds "world":
    // one group of three survives, wasting 10 bytes.
    let h_hello = hash_bytes(b"hello");
    let h_world = hash_bytes(b"world");
    assert_eq!(h_hello, hash_bytes(b"hello"));
    let records = vec![
        record("/r/a.txt", 5, h_hello.clone(), 10),
        record("/r/b.txt", 5, h_hello.clone(), 20),
        record("/r/c.txt", 5, h_hello.clone(), 30),
        record("/r/d.txt", 5, h_world, 40),
    ];
    let groups = group_duplicates(records);
    let result = aggregate_results(groups, 7, "/r".to_string());
    assert_eq!(result.duplicate_groups.len(), 1);
    let g = &result.duplicate_groups[0];
    assert_eq!(g.size, 5);
    assert_eq!(g.files.len(), 3);
    assert_eq!(g.wasted_space, 10);
    assert_eq!(result.total_wasted_space, 10);
    assert_eq!(result.total_files, 3);
    assert_eq!(result.total_duplicates, 2);
    assert_eq!(result.scan_duration, 7);
    assert_eq!(result.scanned_directory, "/r");
}

#[test]
fn test_aggregate_drops_singletons() {
    let h1 = hash_bytes(b"x");
    let h2 = hash_bytes(b"y");
    let records = vec![
        record("/r/x", 1, h1, 1),
        record("/r/y1", 2, h2.clone(), 1),
        record("/r/y2", 2, h2, 2),
    ];
    let groups = group_duplicates(records);
    assert_eq!(groups.len(), 2);
    let result = aggregate_results(groups, 0, "/r".to_string());
    assert_eq!(result.duplicate_groups.len(), 1);
    assert_eq!(result.duplicate_groups[0].files.len(), 2);
    assert_eq!(result.total_files, 2);
    assert_eq!(result.total_duplicates, 1);
    assert_eq!(result.total_wasted_space, 2);
}

#[test]
fn test_resolve_thread_count() {
    assert_eq!(resolve_thread_count(4), 4);
    assert_eq!(resolve_thread_count(1), 1);
    // Automatic resolution asks the machine; it is at least 1 and, with
    // at least one core, at least 2.
    assert!(resolve_thread_count(0) >= 2);
}

#[test]
fn test_auto_thread_count() {
    // The automatic ceiling doubles the core count, saturating at the
    // machine limit.
    assert_eq!(auto_thread_count(1), 2);
    assert_eq!(auto_thread_count(4), 8);
    assert_eq!(auto_thread_count(usize::MAX / 2), usize::MAX - 1);
    assert_eq!(auto_thread_count(usize::MAX / 2 + 1), usize::MAX);
    assert_eq!(auto_thread_count(usize::MAX), usize::MAX);
}

#[test]
fn test_traversal_truncates_on_pending_ceiling() {
    // A directory with far more subdirectories than the pending-work
    // ceiling allows: the traversal truncates instead of exhausting
    // memory, and reports it.
    let cli = Cli {
        directory: "/r".to_string(),
        ..Cli::default()
    };
    let mut t = Traversal::new(cli);
    t.next_dir().unwrap();
    let mut entries = Vec::new();
    for i in 0..10002 {
        let path = format!("/r/d{}", i);
        let name = format!("d{}", i);
        entries.push(entry(&path, &name, false, EntryMeta::Dir));
    }
    t.record_entries(entries);
    assert_eq!(t.next_dir(), None);
    let (files, _, truncated) = t.into_outcome();
    assert!(files.is_empty());
    assert!(truncated);
}
