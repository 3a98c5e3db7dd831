//! Finds groups of byte-identical files beneath a root directory and reports
//! the space that could be recovered by deduplicating them.
//!
//! The crate holds the scanning logic itself: the traversal policy, the
//! streaming content digest, the digest-keyed grouping and the aggregation of
//! the final report. File and terminal I/O stay with the calling program,
//! which feeds directory listings and file bytes in and receives the
//! finished [`ScanResult`].

pub mod hashing;
pub mod output;
pub mod scanner;
pub mod text;

use vstd::prelude::*;

verus! {

/// Scan configuration: the root directory and every policy knob that
/// influences which files are considered and how they are processed.
#[derive(Debug, Clone)]
pub struct Cli {
    /// Root directory to scan for duplicates.
    pub directory: String,
    /// Minimum file size in bytes; smaller files are never candidates.
    pub min_size: u64,
    /// Maximum file size in bytes; 0 means no upper limit.
    pub max_size: u64,
    /// Include entries whose name starts with a dot.
    pub include_hidden: bool,
    /// Exclude zero-byte files from the scan.
    pub exclude_empty: bool,
    /// How results are rendered.
    pub output_format: OutputFormat,
    /// Where to save results instead of printing them, if anywhere.
    pub output_file: Option<String>,
    /// Number of concurrent hashing tasks; 0 resolves to twice the core count.
    pub threads: usize,
    /// Verbose progress output.
    pub verbose: bool,
    /// Follow symbolic links while walking directories.
    pub follow_symlinks: bool,
    /// Maximum directory depth below the root; 0 means unlimited.
    pub max_depth: usize,
}

impl Default for Cli {
    /// The default scan: the current directory, no filters, automatic
    /// concurrency, text output.
    fn default() -> (c: Cli)
        ensures
            c.directory@ == "."@,
            c.min_size == 0,
            c.max_size == 0,
            !c.include_hidden,
            !c.exclude_empty,
            c.output_format is Text,
            c.output_file is None,
            c.threads == 0,
            !c.verbose,
            !c.follow_symlinks,
            c.max_depth == 0,
    {
        Cli {
            directory: String::from_str("."),
            min_size: 0,
            max_size: 0,
            include_hidden: false,
            exclude_empty: false,
            output_format: OutputFormat::Text,
            output_file: None,
            threads: 0,
            verbose: false,
            follow_symlinks: false,
            max_depth: 0,
        }
    }
}

/// Rendering formats for a scan result.
#[derive(Debug, Clone)]
pub enum OutputFormat {
    /// Human-readable text.
    Text,
    /// Machine-readable JSON.
    Json,
}

/// One scanned file: where it is, how large it is, the hex digest of its
/// contents and its timestamps (seconds since the Unix epoch).
#[derive(Debug, Clone, PartialEq, Eq)]
pub struct FileInfo {
    /// Full path to the file.
    pub path: String,
    /// File size in bytes.
    pub size: u64,
    /// Lowercase hex SHA-256 digest of the file contents.
    pub hash: String,
    /// Last modification time, in seconds since the Unix epoch.
    pub modified: u64,
    /// Creation time in seconds since the Unix epoch, where the filesystem
    /// records one.
    pub created: Option<u64>,
}

impl FileInfo {
    /// Assembles the record for one scanned file from its metadata and the
    /// digest of its contents.
    pub fn from_parts(path: String, size: u64, hash: String, modified: u64, created: Option<
        u64,
    >) -> (r: FileInfo)
        ensures
            r == (FileInfo { path, size, hash, modified, created }),
    {
        FileInfo { path, size, hash, modified, created }
    }
}

/// A set of files sharing one content digest.
#[derive(Debug, Clone)]
pub struct DuplicateGroup {
    /// The digest every member shares.
    pub hash: String,
    /// Size of each file in the group; every member is expected to have
    /// this size, taken from the first member.
    pub size: u64,
    /// The members, ordered by modification time, oldest first.
    pub files: Vec<FileInfo>,
    /// `size` times the number of members.
    pub total_size: u64,
    /// `size` times one less than the number of members, or 0 for a
    /// single-member group.
    pub wasted_space: u64,
}

/// The terminal artifact of one scan.
#[derive(Debug)]
pub struct ScanResult {
    /// Number of files in the reported duplicate groups. Files whose digest
    /// was unique in the scan are not counted.
    pub total_files: usize,
    /// The groups with at least two members.
    pub duplicate_groups: Vec<DuplicateGroup>,
    /// Number of redundant copies: one less than the member count, summed
    /// over the reported groups.
    pub total_duplicates: usize,
    /// Total bytes recoverable by deduplication, summed over the reported
    /// groups.
    pub total_wasted_space: u64,
    /// Wall-clock duration of the scan, in milliseconds.
    pub scan_duration: u64,
    /// The root directory that was scanned.
    pub scanned_directory: String,
}

/// The errors a scan can report.
#[derive(Debug, Clone)]
pub enum DuplicateFinderError {
    /// An I/O failure outside the more specific cases below.
    Io { message: String },
    /// Permission was denied for a path.
    PermissionDenied { path: String },
    /// A path does not exist.
    PathNotFound { path: String },
    /// The size filter is contradictory: `min_size` exceeds a nonzero
    /// `max_size`.
    InvalidSizeFilter { min: u64, max: u64 },
    /// A file's content digest could not be computed.
    HashCalculationError { path: String },
    /// A symbolic link loop was detected.
    SymlinkLoop { path: String },
    /// Traversal was asked to go deeper than the configured maximum.
    MaxDepthExceeded { path: String, max_depth: usize },
}

/// The display message of each error variant.
pub open spec fn spec_error_message(e: DuplicateFinderError) -> Seq<char> {
    match e {
        DuplicateFinderError::Io { message } => "I/O error: "@ + message@,
        DuplicateFinderError::PermissionDenied { path } => "Permission denied for path: "@
            + path@,
        DuplicateFinderError::PathNotFound { path } => "Path does not exist: "@ + path@,
        DuplicateFinderError::InvalidSizeFilter { min, max } => "Invalid size filter: min_size ("@
            + text::dec_str(min as nat) + ") > max_size ("@ + text::dec_str(max as nat) + ")"@,
        DuplicateFinderError::HashCalculationError { path } => "Failed to calculate file hash for: "@
            + path@,
        DuplicateFinderError::SymlinkLoop { path } => "Symbolic link loop detected at: "@ + path@,
        DuplicateFinderError::MaxDepthExceeded { path, max_depth } => "Maximum directory depth ("@
            + text::dec_str(max_depth as nat) + ") exceeded at: "@ + path@,
    }
}

impl DuplicateFinderError {
    /// The human-readable message for this error.
    pub fn message(&self) -> (m: String)
        ensures
            m@ == spec_error_message(*self),
    {
        match self {
            DuplicateFinderError::Io { message } => {
                let mut m = String::from_str("I/O error: ");
                m.append(message.as_str());
                m
            },
            DuplicateFinderError::PermissionDenied { path } => {
                let mut m = String::from_str("Permission denied for path: ");
                m.append(path.as_str());
                m
            },
            DuplicateFinderError::PathNotFound { path } => {
                let mut m = String::from_str("Path does not exist: ");
                m.append(path.as_str());
                m
            },
            DuplicateFinderError::InvalidSizeFilter { min, max } => {
                let mut m = String::from_str("Invalid size filter: min_size (");
                m.append(text::u64_to_string(*min).as_str());
                m.append(") > max_size (");
                m.append(text::u64_to_string(*max).as_str());
                m.append(")");
                m
            },
            DuplicateFinderError::HashCalculationError { path } => {
                let mut m = String::from_str("Failed to calculate file hash for: ");
                m.append(path.as_str());
                m
            },
            DuplicateFinderError::SymlinkLoop { path } => {
                let mut m = String::from_str("Symbolic link loop detected at: ");
                m.append(path.as_str());
                m
            },
            DuplicateFinderError::MaxDepthExceeded { path, max_depth } => {
                let mut m = String::from_str("Maximum directory depth (");
                m.append(text::usize_to_string(*max_depth).as_str());
                m.append(") exceeded at: ");
                m.append(path.as_str());
                m
            },
        }
    }
}

/// How an I/O failure while reading a file's metadata is classified.
#[derive(Debug, Clone, PartialEq, Eq, Structural)]
pub enum IoFailureKind {
    /// The operating system denied access.
    PermissionDenied,
    /// The path disappeared or never existed.
    NotFound,
    /// Any other failure.
    Other,
}

/// Maps a metadata failure to the error reported for that file, as the
/// record builder does: denied access and missing paths get their specific
/// variants, everything else is a plain I/O error.
pub fn classify_metadata_error(kind: IoFailureKind, path: String, message: String) -> (e:
    DuplicateFinderError)
    ensures
        kind is PermissionDenied ==> e == (DuplicateFinderError::PermissionDenied { path }),
        kind is NotFound ==> e == (DuplicateFinderError::PathNotFound { path }),
        kind is Other ==> e == (DuplicateFinderError::Io { message }),
{
    match kind {
        IoFailureKind::PermissionDenied => DuplicateFinderError::PermissionDenied { path },
        IoFailureKind::NotFound => DuplicateFinderError::PathNotFound { path },
        IoFailureKind::Other => DuplicateFinderError::Io { message },
    }
}

/// The divisor of each size unit, from bytes up to terabytes.
pub open spec fn unit_divisor(i: int) -> int {
    if i <= 0 {
        1
    } else if i == 1 {
        1024
    } else if i == 2 {
        1048576
    } else if i == 3 {
        1073741824
    } else {
        1099511627776
    }
}

/// Which size unit a byte count is displayed in: the largest unit that is
/// no bigger than the value itself, capped at terabytes.
pub open spec fn size_unit_index(b: nat) -> int {
    if b < 1024 {
        0
    } else if b < 1048576 {
        1
    } else if b < 1073741824 {
        2
    } else if b < 1099511627776 {
        3
    } else {
        4
    }
}

/// The suffix printed after each size unit.
pub open spec fn unit_suffix(i: int) -> Seq<char> {
    if i <= 0 {
        " B"@
    } else if i == 1 {
        " KB"@
    } else if i == 2 {
        " MB"@
    } else if i == 3 {
        " GB"@
    } else {
        " TB"@
    }
}

/// The human-readable rendering of a byte count: zero and sub-kilobyte
/// values as plain integers, larger values scaled to their unit with two
/// decimal places.
pub open spec fn spec_format_bytes(b: nat) -> Seq<char> {
    if b == 0 {
        "0 B"@
    } else {
        let i = size_unit_index(b);
        if i == 0 {
            text::dec_str(b) + " B"@
        } else {
            text::spec_two_decimal(b as int, unit_divisor(i)) + unit_suffix(i)
        }
    }
}

/// Formats a byte count as a human-readable string, scaled to the largest
/// unit not exceeding the value (B, KB, MB, GB or TB) with two decimal
/// places beyond bytes.
pub fn format_bytes(bytes: u64) -> (s: String)
    ensures
        s@ == spec_format_bytes(bytes as nat),
{
    if bytes == 0 {
        return String::from_str("0 B");
    }
    if bytes < 1024 {
        let mut s = text::u64_to_string(bytes);
        s.append(" B");
        s
    } else {
        let (divisor, suffix): (u64, &'static str) = if bytes < 1048576 {
            (1024, " KB")
        } else if bytes < 1073741824 {
            (1048576, " MB")
        } else if bytes < 1099511627776 {
            (1073741824, " GB")
        } else {
            (1099511627776, " TB")
        };
        proof {
            assert(divisor as int == unit_divisor(size_unit_index(bytes as nat)));
            assert(suffix@ == unit_suffix(size_unit_index(bytes as nat)));
        }
        let mut s = text::two_decimal_string(bytes, divisor);
        s.append(suffix);
        s
    }
}

} // verus!
