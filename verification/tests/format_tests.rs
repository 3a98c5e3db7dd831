use duplicate_finder::output::OutputFormatter;
use duplicate_finder::{
    format_bytes, Cli, DuplicateFinderError, DuplicateGroup, FileInfo, ScanResult,
};

fn file(path: &str, size: u64, hash: &str, modified: u64, created: Option<u64>) -> FileInfo {
    FileInfo {
        path: path.to_string(),
        size,
        hash: hash.to_string(),
        modified,
        created,
    }
}

fn group(hash: &str, size: u64, files: Vec<FileInfo>) -> DuplicateGroup {
    let n = files.len() as u64;
    DuplicateGroup {
        hash: hash.to_string(),
        size,
        files,
        total_size: size * n,
        wasted_space: if n > 1 { size * (n - 1) } else { 0 },
    }
}

const HASH_A: &str = "aaaaaaaaaaaaaaaaaaaaaaaaaaaaaaaaaaaaaaaaaaaaaaaaaaaaaaaaaaaaaaaa";

#[test]
fn lib_test_format_bytes() {
    assert_eq!(format_bytes(0), "0 B");
    assert_eq!(format_bytes(512), "512 B");
    assert_eq!(format_bytes(1024), "1.00 KB");
    assert_eq!(format_bytes(1536), "1.50 KB");
    assert_eq!(format_bytes(1024 * 1024), "1.00 MB");
    assert_eq!(format_bytes(1024 * 1024 * 1024), "1.00 GB");
}

#[test]
fn output_test_format_bytes() {
    assert_eq!(format_bytes(0), "0 B");
    assert_eq!(format_bytes(512), "512 B");
    assert_eq!(format_bytes(1024), "1.00 KB");
    assert_eq!(format_bytes(1536), "1.50 KB");
    assert_eq!(format_bytes(1024 * 1024), "1.00 MB");
    assert_eq!(format_bytes(1024 * 1024 * 1024), "1.00 GB");
}

#[test]
fn test_format_bytes_edges() {
    assert_eq!(format_bytes(1023), "1023 B");
    assert_eq!(format_bytes(2047), "2.00 KB");
    assert_eq!(format_bytes(1024 * 1024 - 1), "1024.00 KB");
    assert_eq!(format_bytes(1024u64 * 1024 * 1024 * 1024), "1.00 TB");
    assert_eq!(format_bytes(1536 * 1024 * 1024), "1.50 GB");
}

#[test]
fn test_cli_default() {
    let cli = Cli::default();
    assert_eq!(cli.directory, ".".to_string());
    assert_eq!(cli.min_size, 0);
    assert_eq!(cli.threads, 0);
    assert!(!cli.verbose);
}

#[test]
fn test_format_system_time() {
    let formatted = duplicate_finder::output::format_system_time(0);
    // Check that the function doesn't panic and returns a string
    assert!(!formatted.is_empty());
}

#[test]
fn test_format_system_time_shape() {
    // Whatever the local time zone, the rendering carries the full
    // date-and-time skeleton: 19 characters at the least.
    assert!(duplicate_finder::output::format_system_time(0).chars().count() >= 19);
    assert!(duplicate_finder::output::format_system_time(1700000000).chars().count() >= 19);
    assert!(duplicate_finder::output::format_system_time(u64::MAX).chars().count() >= 19);
}

#[test]
fn test_error_messages() {
    let e = DuplicateFinderError::Io {
        message: "broken pipe".to_string(),
    };
    assert_eq!(e.message(), "I/O error: broken pipe");
    let e = DuplicateFinderError::PermissionDenied {
        path: "/root/x".to_string(),
    };
    assert_eq!(e.message(), "Permission denied for path: /root/x");
    let e = DuplicateFinderError::PathNotFound {
        path: "/missing".to_string(),
    };
    assert_eq!(e.message(), "Path does not exist: /missing");
    let e = DuplicateFinderError::InvalidSizeFilter { min: 500, max: 100 };
    assert_eq!(
        e.message(),
        "Invalid size filter: min_size (500) > max_size (100)"
    );
    let e = DuplicateFinderError::HashCalculationError {
        path: "/f".to_string(),
    };
    assert_eq!(e.message(), "Failed to calculate file hash for: /f");
    let e = DuplicateFinderError::SymlinkLoop {
        path: "/loop".to_string(),
    };
    assert_eq!(e.message(), "Symbolic link loop detected at: /loop");
    let e = DuplicateFinderError::MaxDepthExceeded {
        path: "/deep".to_string(),
        max_depth: 3,
    };
    assert_eq!(e.message(), "Maximum directory depth (3) exceeded at: /deep");
}

#[test]
fn test_format_as_text_no_duplicates() {
    let cli = Cli::default();
    let formatter = OutputFormatter::new(&cli);
    let result = ScanResult {
        total_files: 0,
        duplicate_groups: Vec::new(),
        total_duplicates: 0,
        total_wasted_space: 0,
        scan_duration: 5,
        scanned_directory: "/tmp/x".to_string(),
    };
    let text = formatter.format_as_text(&result);
    let mut expected = String::new();
    expected.push_str("📊 SCAN RESULTS\n");
    expected.push_str(&"═".repeat(50));
    expected.push('\n');
    expected.push_str("📁 Scanned Directory: /tmp/x\n");
    expected.push_str("⏱️  Scan Duration: 5ms\n");
    expected.push_str("📄 Total Files: 0\n");
    expected.push_str("🔄 Duplicate Files: 0\n");
    expected.push_str("📦 Duplicate Groups: 0\n");
    expected.push_str("💾 Wasted Space: 0 B\n\n");
    expected.push_str("🎉 No duplicates found! Your file system is clean.\n");
    assert_eq!(text, expected);
}

#[test]
fn test_format_as_text_with_groups() {
    let cli = Cli::default();
    let formatter = OutputFormatter::new(&cli);
    let g = group(
        HASH_A,
        5,
        vec![
            file("/d/a.txt", 5, HASH_A, 100, None),
            file("/d/b.txt", 5, HASH_A, 200, None),
        ],
    );
    let result = ScanResult {
        total_files: 2,
        duplicate_groups: vec![g],
        total_duplicates: 1,
        total_wasted_space: 5,
        scan_duration: 1,
        scanned_directory: "/d".to_string(),
    };
    let text = formatter.format_as_text(&result);
    assert!(text.starts_with("📊 SCAN RESULTS\n"));
    assert!(text.contains("🔍 DUPLICATE GROUPS (sorted by wasted space)\n"));
    assert!(text.contains("📋 Group #1 (5 B)"));
    assert!(text.contains("/d/a.txt"));
    assert!(text.contains("/d/b.txt"));
    assert!(text.contains("💡 RECOMMENDATIONS\n"));
}

#[test]
fn test_format_duplicate_group_header() {
    let cli = Cli::default();
    let formatter = OutputFormatter::new(&cli);
    let g = group(
        HASH_A,
        1024,
        vec![
            file("/d/a", 1024, HASH_A, 50, Some(40)),
            file("/d/b", 1024, HASH_A, 60, None),
        ],
    );
    let text = formatter.format_duplicate_group(&g, 3);
    let expected_prefix = format!(
        "📋 Group #3 (1.00 KB)\n   💰 Wasted space: 1.00 KB\n   🔐 Hash: {}...\n   📊 2 duplicate files:\n",
        &HASH_A[..16]
    );
    assert!(text.starts_with(&expected_prefix));
    assert!(text.contains("📌 /d/a"));
    assert!(text.contains("🔄 /d/b"));
    assert!(text.contains("🆕 Created: "));
}

#[test]
fn test_generate_recommendations_clean() {
    let cli = Cli::default();
    let formatter = OutputFormatter::new(&cli);
    let result = ScanResult {
        total_files: 0,
        duplicate_groups: Vec::new(),
        total_duplicates: 0,
        total_wasted_space: 0,
        scan_duration: 0,
        scanned_directory: ".".to_string(),
    };
    let text = formatter.generate_recommendations(&result);
    let mut expected = String::new();
    expected.push_str("💡 RECOMMENDATIONS\n");
    expected.push_str(&"─".repeat(50));
    expected.push('\n');
    expected.push_str("✨ Your file system is perfectly organized! No cleanup needed.\n");
    assert_eq!(text, expected);
}

#[test]
fn test_generate_recommendations_impact_levels() {
    let cli = Cli::default();
    let formatter = OutputFormatter::new(&cli);
    let mk = |waste: u64| ScanResult {
        total_files: 2,
        duplicate_groups: vec![group(
            HASH_A,
            waste,
            vec![
                file("/d/a.bin", waste, HASH_A, 1, None),
                file("/d/b.bin", waste, HASH_A, 2, None),
            ],
        )],
        total_duplicates: 1,
        total_wasted_space: waste,
        scan_duration: 0,
        scanned_directory: ".".to_string(),
    };
    let low = formatter.generate_recommendations(&mk(1000));
    assert!(low.contains("ℹ️  Low Impact"));
    let medium = formatter.generate_recommendations(&mk(200 * 1024 * 1024));
    assert!(medium.contains("⚠️  Medium Impact"));
    let high = formatter.generate_recommendations(&mk(2147483648));
    assert!(high.contains("🚨 High Impact: You can save 2.00 GB by removing duplicates!"));
    assert!(high.contains("🛠️  Cleanup Strategy:"));
    assert!(high.contains("📈 File Types Analysis:"));
    assert!(high.contains("   bin files: 2\n"));
}

#[test]
fn test_analyze_file_extensions_counts_and_order() {
    let cli = Cli::default();
    let formatter = OutputFormatter::new(&cli);
    let g1 = group(
        HASH_A,
        5,
        vec![
            file("/d/one.TXT", 5, HASH_A, 1, None),
            file("/d/two.txt", 5, HASH_A, 2, None),
            file("/d/sub/three.txt", 5, HASH_A, 3, None),
        ],
    );
    let g2 = group(
        "bbbbbbbbbbbbbbbbbbbbbbbbbbbbbbbbbbbbbbbbbbbbbbbbbbbbbbbbbbbbbbbb",
        7,
        vec![
            file("/d/noext", 7, HASH_A, 1, None),
            file("/d/.hidden", 7, HASH_A, 2, None),
        ],
    );
    let result = ScanResult {
        total_files: 5,
        duplicate_groups: vec![g1, g2],
        total_duplicates: 3,
        total_wasted_space: 17,
        scan_duration: 0,
        scanned_directory: "/d".to_string(),
    };
    let exts = formatter.analyze_file_extensions(&result);
    // Uppercase and lowercase extensions merge; files without an
    // extension (including dotfiles) are counted together.
    assert_eq!(exts.len(), 2);
    assert_eq!(exts[0].0, "txt");
    assert_eq!(exts[0].1, 3);
    assert_eq!(exts[1].0, "(no extension)");
    assert_eq!(exts[1].1, 2);
}

#[test]
fn test_groups_sorted_by_wasted_space() {
    let cli = Cli::default();
    let formatter = OutputFormatter::new(&cli);
    let small = group(
        HASH_A,
        10,
        vec![
            file("/d/s1", 10, HASH_A, 1, None),
            file("/d/s2", 10, HASH_A, 2, None),
        ],
    );
    let big = group(
        "bbbbbbbbbbbbbbbbbbbbbbbbbbbbbbbbbbbbbbbbbbbbbbbbbbbbbbbbbbbbbbbb",
        4000,
        vec![
            file("/d/b1", 4000, HASH_A, 1, None),
            file("/d/b2", 4000, HASH_A, 2, None),
        ],
    );
    let result = ScanResult {
        total_files: 4,
        duplicate_groups: vec![small, big],
        total_duplicates: 2,
        total_wasted_space: 4010,
        scan_duration: 0,
        scanned_directory: "/d".to_string(),
    };
    let text = formatter.format_as_text(&result);
    let pos_big = text.find("/d/b1").unwrap();
    let pos_small = text.find("/d/s1").unwrap();
    assert!(pos_big < pos_small);
    assert!(text.contains("📋 Group #1 (3.91 KB)"));
}
