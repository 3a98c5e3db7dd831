//! The scanning core: configuration validation, the traversal policy and
//! its explicit-stack engine, digest-keyed grouping and the aggregation of
//! the final report.
//!
//! Directory reading itself is I/O and stays with the caller: the caller
//! pops the next pending directory from a [`Traversal`], reads it, and hands
//! the entries back. Everything decided about those entries — hidden-name
//! and symlink filtering, size filtering, depth limits, the pending-work
//! ceiling — happens here.

use crate::{Cli, DuplicateFinderError, DuplicateGroup, FileInfo, ScanResult};
use vstd::multiset::Multiset;
use vstd::prelude::*;

verus! {

/// The hard ceiling on pending (not yet visited) directories; beyond it the
/// traversal truncates instead of exhausting memory.
pub const MAX_PENDING_DIRS: usize = 10000;

/// An entry name is hidden when it starts with a dot.
pub open spec fn spec_is_hidden(name: Seq<char>) -> bool {
    name.len() > 0 && name[0] == '.'
}

/// Whether a basename counts as hidden (starts with a dot).
pub fn is_hidden(name: &str) -> (b: bool)
    ensures
        b == spec_is_hidden(name@),
{
    if name.is_empty() {
        false
    } else {
        name.get_char(0) == '.'
    }
}

/// The size filter of the policy: empty files are excluded when configured,
/// files below the minimum size are excluded, and files above a nonzero
/// maximum size are excluded.
pub open spec fn spec_passes_size_filter(config: Cli, size: u64) -> bool {
    &&& !(config.exclude_empty && size == 0)
    &&& size >= config.min_size
    &&& !(config.max_size > 0 && size > config.max_size)
}

/// Whether a file of the given size is a candidate under this configuration.
pub fn file_passes_size_filter(config: &Cli, size: u64) -> (b: bool)
    ensures
        b == spec_passes_size_filter(*config, size),
{
    if config.exclude_empty && size == 0 {
        return false;
    }
    if size < config.min_size {
        return false;
    }
    if config.max_size > 0 && size > config.max_size {
        return false;
    }
    true
}

/// Checks the two fatal preconditions of a scan: the root must exist, and
/// the minimum size must not exceed a nonzero maximum size. Whether the
/// root exists is a fact about the filesystem that the caller establishes
/// and passes in.
pub fn validate_config(config: &Cli, root_exists: bool) -> (r: Result<(), DuplicateFinderError>)
    ensures
        r is Ok <==> (root_exists && !(config.max_size > 0 && config.min_size > config.max_size)),
        !root_exists ==> (r matches Err(e) && e matches DuplicateFinderError::PathNotFound {
            path,
        } && path@ == config.directory@),
        root_exists && config.max_size > 0 && config.min_size > config.max_size ==> r == Result::<
            (),
            DuplicateFinderError,
        >::Err(
            DuplicateFinderError::InvalidSizeFilter {
                min: config.min_size,
                max: config.max_size,
            },
        ),
{
    if !root_exists {
        return Err(DuplicateFinderError::PathNotFound { path: config.directory.clone() });
    }
    if config.max_size > 0 && config.min_size > config.max_size {
        return Err(
            DuplicateFinderError::InvalidSizeFilter {
                min: config.min_size,
                max: config.max_size,
            },
        );
    }
    Ok(())
}

/// Relies on num_cpus::get: the number of logical CPUs of this machine,
/// documented to always be at least 1. The value depends on the machine,
/// so nothing more is stated of it.
#[verifier::external_body]
fn logical_cpus() -> (n: usize)
    ensures
        n >= 1,
{
    num_cpus::get()
}

/// The automatic concurrency ceiling for a machine with `cpus` logical
/// CPUs: twice that count, saturating at the machine limit.
pub fn auto_thread_count(cpus: usize) -> (n: usize)
    ensures
        n as int == if cpus <= usize::MAX / 2 {
            2 * (cpus as int)
        } else {
            usize::MAX as int
        },
{
    if cpus <= usize::MAX / 2 {
        2 * cpus
    } else {
        usize::MAX
    }
}

/// The hashing concurrency ceiling: the configured thread count, or twice
/// the logical core count when the configuration says automatic (0). The
/// CPU count itself depends on the machine, so the automatic case is
/// pinned only down to `auto_thread_count`, which at least one CPU makes
/// at least 2.
pub fn resolve_thread_count(configured: usize) -> (n: usize)
    ensures
        configured != 0 ==> n == configured,
        configured == 0 ==> n >= 2,
        n >= 1,
{
    if configured != 0 {
        configured
    } else {
        let cpus = logical_cpus();
        auto_thread_count(cpus)
    }
}

/// What the caller reports about one directory entry it read.
#[derive(Debug, Clone)]
pub struct DirEntryInfo {
    /// Full path of the entry.
    pub path: String,
    /// Basename of the entry, used for the hidden-name filter. Empty when
    /// the path has no usable name.
    pub name: String,
    /// Whether the entry itself is a symbolic link.
    pub is_symlink: bool,
    /// What kind of object the entry is, from its metadata.
    pub meta: EntryMeta,
}

/// The metadata the caller learned about one entry.
#[derive(Debug, Clone)]
pub enum EntryMeta {
    /// A directory, to be descended into.
    Dir,
    /// A regular file of the given size.
    File { size: u64 },
    /// Something else (a device, a socket, a dangling link target).
    Other,
    /// Metadata could not be read; the entry is skipped with a warning.
    Unavailable,
}

/// An entry is skipped outright when it is hidden and hidden entries are
/// excluded, or when it is a symlink and symlinks are not followed.
pub open spec fn spec_entry_skipped(config: Cli, e: DirEntryInfo) -> bool {
    (!config.include_hidden && spec_is_hidden(e.name@)) || (e.is_symlink
        && !config.follow_symlinks)
}

/// An entry becomes a candidate file when it is not skipped, is a regular
/// file, and its size passes the filter.
pub open spec fn spec_emits_file(config: Cli, e: DirEntryInfo) -> bool {
    &&& !spec_entry_skipped(config, e)
    &&& e.meta matches EntryMeta::File { size } && spec_passes_size_filter(config, size)
}

/// An entry is descended into when it is not skipped and is a directory.
pub open spec fn spec_enters_dir(config: Cli, e: DirEntryInfo) -> bool {
    !spec_entry_skipped(config, e) && e.meta is Dir
}

/// An entry draws a warning when it is not skipped but its metadata could
/// not be read.
pub open spec fn spec_entry_warned(config: Cli, e: DirEntryInfo) -> bool {
    !spec_entry_skipped(config, e) && e.meta is Unavailable
}

/// A file the traversal emitted: its path, and how many directory levels
/// below the root it sits (a file directly in the root has depth 1).
#[derive(Debug, Clone)]
pub struct CandidateFile {
    /// Full path of the candidate file.
    pub path: String,
    /// Directory levels below the root.
    pub depth: usize,
}

/// The depth of children of a directory at depth `d`, saturating at the
/// machine limit (which no real tree reaches).
pub open spec fn spec_child_depth(d: usize) -> usize {
    if d < usize::MAX {
        (d + 1) as usize
    } else {
        d
    }
}

/// The candidate files that processing one directory's entries emits, in
/// entry order; `depth` is the entries' own depth.
pub open spec fn spec_emitted(config: Cli, entries: Seq<DirEntryInfo>, depth: usize) -> Seq<
    CandidateFile,
>
    decreases entries.len(),
{
    if entries.len() == 0 {
        Seq::empty()
    } else {
        (if spec_emits_file(config, entries[0]) {
            seq![CandidateFile { path: entries[0].path, depth }]
        } else {
            Seq::empty()
        }) + spec_emitted(config, entries.drop_first(), depth)
    }
}

/// The subdirectories that processing one directory's entries discovers,
/// in entry order, each paired with its depth.
pub open spec fn spec_entered(config: Cli, entries: Seq<DirEntryInfo>, depth: usize) -> Seq<
    (String, usize),
>
    decreases entries.len(),
{
    if entries.len() == 0 {
        Seq::empty()
    } else {
        (if spec_enters_dir(config, entries[0]) {
            seq![(entries[0].path, depth)]
        } else {
            Seq::empty()
        }) + spec_entered(config, entries.drop_first(), depth)
    }
}

/// The paths that draw a warning while processing one directory's entries.
pub open spec fn spec_warned(config: Cli, entries: Seq<DirEntryInfo>) -> Seq<String>
    decreases entries.len(),
{
    if entries.len() == 0 {
        Seq::empty()
    } else {
        (if spec_entry_warned(config, entries[0]) {
            seq![entries[0].path]
        } else {
            Seq::empty()
        }) + spec_warned(config, entries.drop_first(), )
    }
}

/// A pending directory can be visited when there is no depth limit or its
/// depth is still below the limit.
pub open spec fn spec_visitable(max_depth: usize, depth: usize) -> bool {
    max_depth == 0 || depth < max_depth
}

/// The index of the last pending directory that can be visited, or -1 when
/// none can. The stack is popped from the back, so this is the one a
/// traversal visits next.
pub open spec fn last_visitable(s: Seq<(String, usize)>, max_depth: usize) -> int
    decreases s.len(),
{
    if s.len() == 0 {
        -1
    } else if spec_visitable(max_depth, s.last().1) {
        s.len() - 1
    } else {
        last_visitable(s.drop_last(), max_depth)
    }
}

/// What `last_visitable` points at: a visitable entry with only
/// unvisitable entries after it, or nothing at all.
pub proof fn lemma_last_visitable(s: Seq<(String, usize)>, max_depth: usize)
    ensures
        -1 <= last_visitable(s, max_depth) < s.len(),
        last_visitable(s, max_depth) >= 0 ==> spec_visitable(
            max_depth,
            s[last_visitable(s, max_depth)].1,
        ),
        forall|j: int|
            last_visitable(s, max_depth) < j < s.len() ==> !spec_visitable(
                max_depth,
                (#[trigger] s[j]).1,
            ),
    decreases s.len(),
{
    if s.len() > 0 && !spec_visitable(max_depth, s.last().1) {
        lemma_last_visitable(s.drop_last(), max_depth);
        assert(forall|j: int|
            0 <= j < s.len() - 1 ==> (#[trigger] s[j]) == s.drop_last()[j]);
    }
}

/// The traversal engine: an explicit stack of pending directories and the
/// candidate files found so far. The caller repeatedly takes the next
/// directory with [`Traversal::next_dir`], reads it, and reports what it
/// found with [`Traversal::record_entries`] (or
/// [`Traversal::record_read_error`] when the directory could not be read).
pub struct Traversal {
    config: Cli,
    stack: Vec<(String, usize)>,
    files: Vec<CandidateFile>,
    warnings: Vec<String>,
    truncated: bool,
    visiting: Option<(String, usize)>,
}

impl Traversal {
    /// The configuration the traversal runs under.
    pub closed spec fn config(self) -> Cli {
        self.config
    }

    /// The pending directories, in stack order (the back is next).
    pub closed spec fn stack(self) -> Seq<(String, usize)> {
        self.stack@
    }

    /// The candidate files emitted so far, in discovery order.
    pub closed spec fn files(self) -> Seq<CandidateFile> {
        self.files@
    }

    /// The paths that drew a warning so far.
    pub closed spec fn warnings(self) -> Seq<String> {
        self.warnings@
    }

    /// Whether the traversal was cut short by the pending-directory ceiling.
    pub closed spec fn truncated(self) -> bool {
        self.truncated
    }

    /// The directory handed out by `next_dir` and not yet reported back.
    pub closed spec fn visiting(self) -> Option<(String, usize)> {
        self.visiting
    }

    /// The depth bound the engine maintains: with a depth limit in force,
    /// no pending directory lies beyond it, only directories strictly
    /// inside it are handed out, and every emitted file is within it.
    pub closed spec fn wf(self) -> bool {
        self.config.max_depth > 0 ==> {
            &&& forall|i: int|
                0 <= i < self.stack@.len() ==> (#[trigger] self.stack@[i]).1
                    <= self.config.max_depth
            &&& forall|i: int|
                0 <= i < self.files@.len() ==> (#[trigger] self.files@[i]).depth
                    <= self.config.max_depth
            &&& (self.visiting matches Some(v) ==> v.1 < self.config.max_depth)
        }
    }

    /// A traversal over the configured root: one pending directory (the
    /// root, at depth 0) and nothing else.
    pub fn new(config: Cli) -> (t: Traversal)
        ensures
            t.wf(),
            t.config() == config,
            t.stack().len() == 1,
            t.stack()[0].0@ == config.directory@,
            t.stack()[0].1 == 0,
            t.files() == Seq::<CandidateFile>::empty(),
            t.warnings() == Seq::<String>::empty(),
            !t.truncated(),
            t.visiting() is None,
    {
        let mut stack: Vec<(String, usize)> = Vec::new();
        stack.push((config.directory.clone(), 0));
        Traversal {
            config,
            stack,
            files: Vec::new(),
            warnings: Vec::new(),
            truncated: false,
            visiting: None,
        }
    }

    /// Hands out the next directory to read: pending directories beyond the
    /// depth limit are dropped, and if the pending set has outgrown the
    /// ceiling the traversal truncates instead. Returns None when there is
    /// nothing left to visit.
    #[verifier::loop_isolation(false)]
    pub fn next_dir(&mut self) -> (r: Option<String>)
        requires
            old(self).wf(),
            old(self).visiting() is None,
        ensures
            final(self).wf(),
            final(self).config() == old(self).config(),
            final(self).files() == old(self).files(),
            final(self).warnings() == old(self).warnings(),
            old(self).truncated() ==> r is None && *final(self) == *old(self),
            !old(self).truncated() ==> {
                let s = old(self).stack();
                let max = old(self).config().max_depth;
                let i = last_visitable(s, max);
                if s.len() == 0 {
                    r is None && *final(self) == *old(self)
                } else if s.len() > MAX_PENDING_DIRS + 1 {
                    &&& r is None
                    &&& final(self).truncated()
                    &&& final(self).stack() == s.drop_last()
                    &&& final(self).visiting() is None
                } else if i >= 0 {
                    &&& r matches Some(p) && p@ == s[i].0@
                    &&& final(self).visiting() == Some(s[i])
                    &&& final(self).stack() == s.take(i)
                    &&& !final(self).truncated()
                } else {
                    &&& r is None
                    &&& final(self).stack().len() == 0
                    &&& final(self).visiting() is None
                    &&& !final(self).truncated()
                }
            },
    {
        proof {
            lemma_last_visitable(old(self).stack(), old(self).config().max_depth);
        }
        if self.truncated {
            return None;
        }
        let ghost s0 = self.stack@;
        if self.stack.len() == 0 {
            return None;
        }
        let first = self.stack.pop().unwrap();
        if self.stack.len() > MAX_PENDING_DIRS {
            self.truncated = true;
            proof {
                assert(self.stack@ =~= s0.drop_last());
            }
            return None;
        }
        let mut cur = first;
        loop
            invariant
                self.stack@ =~= s0.take(self.stack@.len() as int),
                self.stack@.len() < s0.len(),
                cur == s0[self.stack@.len() as int],
                forall|j: int|
                    self.stack@.len() < j < s0.len() ==> !spec_visitable(
                        self.config.max_depth,
                        (#[trigger] s0[j]).1,
                    ),
                self.config == old(self).config(),
                self.files@ == old(self).files(),
                self.warnings@ == old(self).warnings(),
                !self.truncated,
                self.visiting is None,
            decreases self.stack@.len(),
        {
            if self.config.max_depth == 0 || cur.1 < self.config.max_depth {
                let path = cur.0.clone();
                proof {
                    assert(last_visitable(s0, self.config.max_depth) == self.stack@.len()
                        as int) by {
                        lemma_last_visitable_pinpoint(
                            s0,
                            self.config.max_depth,
                            self.stack@.len() as int,
                        );
                    }
                }
                self.visiting = Some(cur);
                return Some(path);
            }
            match self.stack.pop() {
                None => {
                    proof {
                        assert(last_visitable(s0, self.config.max_depth) == -1) by {
                            lemma_last_visitable_pinpoint(s0, self.config.max_depth, -1);
                        }
                    }
                    return None;
                },
                Some(next) => {
                    cur = next;
                    proof {
                        assert(self.stack@ =~= s0.take(self.stack@.len() as int));
                    }
                },
            }
        }
    }

    /// Reports the entries read from the directory last handed out, and
    /// applies the whole policy to them: skipped entries vanish, files
    /// passing the size filter are emitted at one level below the
    /// directory, subdirectories join the pending stack in reverse order,
    /// and entries without readable metadata draw a warning.
    pub fn record_entries(&mut self, entries: Vec<DirEntryInfo>)
        requires
            old(self).wf(),
            old(self).visiting() is Some,
        ensures
            final(self).wf(),
            final(self).config() == old(self).config(),
            final(self).truncated() == old(self).truncated(),
            final(self).visiting() is None,
            ({
                let d = spec_child_depth((old(self).visiting()->Some_0).1);
                let config = old(self).config();
                &&& final(self).files() == old(self).files() + spec_emitted(config, entries@, d)
                &&& final(self).stack() == old(self).stack() + spec_entered(
                    config,
                    entries@,
                    d,
                ).reverse()
                &&& final(self).warnings() == old(self).warnings() + spec_warned(config, entries@)
            }),
    {
        let visiting = self.visiting.take();
        let depth = match visiting {
            Some(v) => v.1,
            None => 0,
        };
        let child_depth = if depth < usize::MAX {
            depth + 1
        } else {
            depth
        };
        let ghost config = self.config;
        let ghost all = entries@;
        let mut entries = entries;
        let mut new_dirs: Vec<(String, usize)> = Vec::new();
        proof {
            assert(old(self).files() + spec_emitted(config, all, child_depth) =~= self.files@
                + spec_emitted(config, entries@, child_depth));
            assert(spec_entered(config, all, child_depth) =~= new_dirs@ + spec_entered(
                config,
                entries@,
                child_depth,
            ));
            assert(old(self).warnings() + spec_warned(config, all) =~= self.warnings@
                + spec_warned(config, entries@));
        }
        while entries.len() > 0
            invariant
                self.config == config,
                self.config == old(self).config(),
                self.truncated == old(self).truncated(),
                self.visiting is None,
                self.stack@ == old(self).stack(),
                old(self).files() + spec_emitted(config, all, child_depth) == self.files@
                    + spec_emitted(config, entries@, child_depth),
                spec_entered(config, all, child_depth) == new_dirs@ + spec_entered(
                    config,
                    entries@,
                    child_depth,
                ),
                old(self).warnings() + spec_warned(config, all) == self.warnings@ + spec_warned(
                    config,
                    entries@,
                ),
                old(self).config().max_depth > 0 ==> child_depth <= old(self).config().max_depth,
                old(self).config().max_depth > 0 ==> forall|i: int|
                    0 <= i < new_dirs@.len() ==> (#[trigger] new_dirs@[i]).1 <= old(
                        self,
                    ).config().max_depth,
                old(self).config().max_depth > 0 ==> forall|i: int|
                    0 <= i < self.files@.len() ==> (#[trigger] self.files@[i]).depth <= old(
                        self,
                    ).config().max_depth,
            decreases entries.len(),
        {
            let ghost before = entries@;
            let e = entries.remove(0);
            proof {
                assert(before.drop_first() =~= entries@);
            }
            let skipped = (!self.config.include_hidden && is_hidden(e.name.as_str())) || (
            e.is_symlink && !self.config.follow_symlinks);
            if !skipped {
                match e.meta {
                    EntryMeta::Dir => {
                        new_dirs.push((e.path, child_depth));
                    },
                    EntryMeta::File { size } => {
                        if file_passes_size_filter(&self.config, size) {
                            self.files.push(CandidateFile { path: e.path, depth: child_depth });
                        }
                    },
                    EntryMeta::Other => {},
                    EntryMeta::Unavailable => {
                        self.warnings.push(e.path);
                    },
                }
            }
            proof {
                assert(old(self).files() + spec_emitted(config, all, child_depth) =~= self.files@
                    + spec_emitted(config, entries@, child_depth));
                assert(spec_entered(config, all, child_depth) =~= new_dirs@ + spec_entered(
                    config,
                    entries@,
                    child_depth,
                ));
                assert(old(self).warnings() + spec_warned(config, all) =~= self.warnings@
                    + spec_warned(config, entries@));
            }
        }
        proof {
            assert(spec_emitted(config, entries@, child_depth) =~= Seq::<CandidateFile>::empty());
            assert(spec_entered(config, entries@, child_depth) =~= Seq::<
                (String, usize),
            >::empty());
            assert(spec_warned(config, entries@) =~= Seq::<String>::empty());
            assert(self.files@ =~= old(self).files() + spec_emitted(config, all, child_depth));
            assert(new_dirs@ =~= spec_entered(config, all, child_depth));
            assert(self.warnings@ =~= old(self).warnings() + spec_warned(config, all));
        }
        let ghost entered = new_dirs@;
        let ghost base = old(self).stack().len() as int;
        while new_dirs.len() > 0
            invariant
                self.config == old(self).config(),
                self.truncated == old(self).truncated(),
                self.visiting is None,
                self.files@ == old(self).files() + spec_emitted(config, all, child_depth),
                self.warnings@ == old(self).warnings() + spec_warned(config, all),
                base == old(self).stack().len(),
                new_dirs@.len() <= entered.len(),
                forall|j: int|
                    0 <= j < new_dirs@.len() ==> (#[trigger] new_dirs@[j]) == entered[j],
                self.stack@.len() == base + entered.len() - new_dirs@.len(),
                forall|j: int| 0 <= j < base ==> (#[trigger] self.stack@[j]) == old(self).stack()[j],
                forall|j: int|
                    base <= j < self.stack@.len() ==> (#[trigger] self.stack@[j]) == entered[
                        entered.len() - 1 - (j - base)
                    ],
                old(self).config().max_depth > 0 ==> forall|i: int|
                    0 <= i < entered.len() ==> (#[trigger] entered[i]).1 <= old(
                        self,
                    ).config().max_depth,
                old(self).config().max_depth > 0 ==> forall|i: int|
                    0 <= i < old(self).stack().len() ==> (#[trigger] old(self).stack()[i]).1
                        <= old(self).config().max_depth,
                old(self).config().max_depth > 0 ==> forall|i: int|
                    0 <= i < self.files@.len() ==> (#[trigger] self.files@[i]).depth <= old(
                        self,
                    ).config().max_depth,
            decreases new_dirs.len(),
        {
            let ghost k = new_dirs@.len() as int;
            let ghost stack_before = self.stack@;
            let d = new_dirs.pop().unwrap();
            self.stack.push(d);
            proof {
                assert(d == entered[k - 1]);
                assert(self.stack@ == stack_before.push(d));
                assert forall|j: int| base <= j < self.stack@.len() implies (
                #[trigger] self.stack@[j]) == entered[entered.len() - 1 - (j - base)] by {
                    if j < stack_before.len() {
                        assert(stack_before.push(d)[j] == stack_before[j]);
                        assert(self.stack@[j] == stack_before[j]);
                    } else {
                        assert(j == stack_before.len());
                        assert(self.stack@[j] == d);
                        assert(entered.len() - 1 - (j - base) == k - 1);
                    }
                }
            }
        }
        proof {
            assert(self.stack@ =~= old(self).stack() + entered.reverse());
        }
    }

    /// Reports that the directory last handed out could not be read: its
    /// path draws a warning and traversal goes on with the rest.
    pub fn record_read_error(&mut self)
        requires
            old(self).wf(),
            old(self).visiting() is Some,
        ensures
            final(self).wf(),
            final(self).config() == old(self).config(),
            final(self).truncated() == old(self).truncated(),
            final(self).visiting() is None,
            final(self).files() == old(self).files(),
            final(self).stack() == old(self).stack(),
            final(self).warnings() == old(self).warnings().push((old(self).visiting()->Some_0).0),
    {
        let visiting = self.visiting.take();
        match visiting {
            Some(v) => {
                self.warnings.push(v.0);
            },
            None => {},
        }
    }

    /// Takes the traversal's outcome apart: the candidate files in
    /// discovery order, the warned paths, and whether the pending-work
    /// ceiling cut the walk short.
    pub fn into_outcome(self) -> (r: (Vec<CandidateFile>, Vec<String>, bool))
        ensures
            r.0@ == self.files(),
            r.1@ == self.warnings(),
            r.2 == self.truncated(),
    {
        let Traversal { config: _, stack: _, files, warnings, truncated, visiting: _ } = self;
        (files, warnings, truncated)
    }
}

/// With a depth limit in force, no emitted candidate lies more than
/// `max_depth` directory levels below the root, whatever shape the tree
/// has and however the caller drives the traversal.
pub proof fn lemma_depth_bound(t: Traversal)
    requires
        t.wf(),
        t.config().max_depth > 0,
    ensures
        forall|i: int|
            0 <= i < t.files().len() ==> (#[trigger] t.files()[i]).depth <= t.config().max_depth,
{
}

/// Characterizes `last_visitable` from the outside: an index that is
/// visitable and has only unvisitable entries above it is the one, and if
/// every entry is unvisitable the answer is -1.
proof fn lemma_last_visitable_pinpoint(s: Seq<(String, usize)>, max_depth: usize, i: int)
    requires
        -1 <= i < s.len(),
        i >= 0 ==> spec_visitable(max_depth, s[i].1),
        forall|j: int| i < j < s.len() ==> !spec_visitable(max_depth, (#[trigger] s[j]).1),
    ensures
        last_visitable(s, max_depth) == i,
    decreases s.len(),
{
    if s.len() > 0 {
        if i == s.len() - 1 {
        } else {
            assert(!spec_visitable(max_depth, s.last().1));
            lemma_last_visitable_pinpoint(s.drop_last(), max_depth, i);
        }
    }
}


/// Members ordered by modification time, oldest first.
pub open spec fn sorted_by_modified(s: Seq<FileInfo>) -> bool {
    forall|i: int, j: int| 0 <= i < j < s.len() ==> s[i].modified <= s[j].modified
}

/// A well-formed duplicate group: nonempty, every member carries the
/// group's digest, members are ordered by modification time oldest first,
/// the group's size is the first member's, and the two space figures follow
/// the defining formulas (`wasted_space` is 0 for a single-member group).
pub open spec fn group_wf(g: DuplicateGroup) -> bool {
    &&& g.files@.len() > 0
    &&& forall|i: int| 0 <= i < g.files@.len() ==> (#[trigger] g.files@[i]).hash@ == g.hash@
    &&& sorted_by_modified(g.files@)
    &&& g.size == g.files@[0].size
    &&& g.total_size == g.size * g.files@.len()
    &&& g.wasted_space == if g.files@.len() > 1 {
        g.size * (g.files@.len() - 1)
    } else {
        0int
    }
}

/// All files held by a sequence of groups, as a multiset.
pub open spec fn group_members(gs: Seq<DuplicateGroup>) -> Multiset<FileInfo>
    decreases gs.len(),
{
    if gs.len() == 0 {
        Multiset::empty()
    } else {
        group_members(gs.drop_last()).add(gs.last().files@.to_multiset())
    }
}

/// Adding two multisets in either order gives the same combined multiset.
proof fn lemma_add_swap(a: Multiset<FileInfo>, x: Multiset<FileInfo>, y: Multiset<FileInfo>)
    ensures
        a.add(x).add(y) =~= a.add(y).add(x),
{
    broadcast use vstd::multiset::group_multiset_axioms;

    assert forall|v: FileInfo| a.add(x).add(y).count(v) == a.add(y).add(x).count(v) by {
        assert(a.add(x).add(y).count(v) == a.add(x).count(v) + y.count(v));
        assert(a.add(x).count(v) == a.count(v) + x.count(v));
        assert(a.add(y).add(x).count(v) == a.add(y).count(v) + x.count(v));
        assert(a.add(y).count(v) == a.count(v) + y.count(v));
    }
}

/// Cancelling a common summand: if `a + m` equals `b + (m with one more
/// `x`)`, then `a` is `b` with one more `x`.
proof fn lemma_add_insert_cancel(
    a: Multiset<FileInfo>,
    b: Multiset<FileInfo>,
    m: Multiset<FileInfo>,
    x: FileInfo,
)
    requires
        a.add(m) == b.add(m.insert(x)),
    ensures
        a =~= b.insert(x),
{
    broadcast use vstd::multiset::group_multiset_axioms;

    assert forall|v: FileInfo| a.count(v) == b.insert(x).count(v) by {
        assert(a.add(m).count(v) == a.count(v) + m.count(v));
        assert(b.add(m.insert(x)).count(v) == b.count(v) + m.insert(x).count(v));
        assert(m.insert(x).count(v) == m.count(v) + Multiset::singleton(x).count(v));
        assert(b.insert(x).count(v) == b.count(v) + Multiset::singleton(x).count(v));
    }
}

/// Replacing one group's files with an equal multiset of files leaves the
/// combined membership unchanged (stated additively).
proof fn lemma_group_members_update(gs: Seq<DuplicateGroup>, k: int, g: DuplicateGroup)
    requires
        0 <= k < gs.len(),
    ensures
        group_members(gs.update(k, g)).add(gs[k].files@.to_multiset()) =~= group_members(
            gs,
        ).add(g.files@.to_multiset()),
    decreases gs.len(),
{
    broadcast use vstd::multiset::group_multiset_axioms;

    if k == gs.len() - 1 {
        assert(gs.update(k, g).drop_last() =~= gs.drop_last());
        assert(gs.update(k, g).last() == g);
        let a = group_members(gs.drop_last());
        assert(group_members(gs.update(k, g)) == a.add(g.files@.to_multiset()));
        assert(group_members(gs) == a.add(gs[k].files@.to_multiset()));
        lemma_add_swap(a, g.files@.to_multiset(), gs[k].files@.to_multiset());
    } else {
        assert(gs.update(k, g).drop_last() =~= gs.drop_last().update(k, g));
        assert(gs.update(k, g).last() == gs.last());
        lemma_group_members_update(gs.drop_last(), k, g);
        assert(gs.drop_last()[k] == gs[k]);
        let dlu = group_members(gs.drop_last().update(k, g));
        let dl = group_members(gs.drop_last());
        let last_ms = gs.last().files@.to_multiset();
        let gk_ms = gs[k].files@.to_multiset();
        let g_ms = g.files@.to_multiset();
        assert(group_members(gs.update(k, g)) == dlu.add(last_ms));
        assert(group_members(gs) == dl.add(last_ms));
        assert(dlu.add(gk_ms) =~= dl.add(g_ms));
        lemma_add_swap(dlu, last_ms, gk_ms);
        lemma_add_swap(dl, g_ms, last_ms);
        assert(dlu.add(last_ms).add(gk_ms) =~= dlu.add(gk_ms).add(last_ms));
        assert(dlu.add(gk_ms).add(last_ms) =~= dl.add(g_ms).add(last_ms));
        assert(dl.add(g_ms).add(last_ms) =~= dl.add(last_ms).add(g_ms));
    }
}

/// Appending a group adds exactly its files to the combined membership.
proof fn lemma_group_members_push(gs: Seq<DuplicateGroup>, g: DuplicateGroup)
    ensures
        group_members(gs.push(g)) =~= group_members(gs).add(g.files@.to_multiset()),
{
    broadcast use vstd::multiset::group_multiset_axioms;

    assert(gs.push(g).drop_last() =~= gs);
    assert(gs.push(g).last() == g);
}

/// Dropping the first group removes exactly its files from the combined
/// membership (stated additively).
proof fn lemma_group_members_drop_first(gs: Seq<DuplicateGroup>)
    requires
        gs.len() > 0,
    ensures
        group_members(gs) =~= group_members(gs.drop_first()).add(gs[0].files@.to_multiset()),
    decreases gs.len(),
{
    broadcast use vstd::multiset::group_multiset_axioms;

    if gs.len() == 1 {
        assert(gs.drop_first() =~= Seq::<DuplicateGroup>::empty());
        assert(gs.drop_last() =~= Seq::<DuplicateGroup>::empty());
        assert(gs.last() == gs[0]);
    } else {
        lemma_group_members_drop_first(gs.drop_last());
        assert(gs.drop_last()[0] == gs[0]);
        assert(gs.drop_last().drop_first() =~= gs.drop_first().drop_last());
        assert(gs.drop_first().last() == gs.last());
    }
}

/// No single group holds an element more often than all groups together.
proof fn lemma_group_members_count_bound(gs: Seq<DuplicateGroup>, k: int, v: FileInfo)
    requires
        0 <= k < gs.len(),
    ensures
        gs[k].files@.to_multiset().count(v) <= group_members(gs).count(v),
    decreases gs.len(),
{
    broadcast use vstd::multiset::group_multiset_axioms;

    if k < gs.len() - 1 {
        lemma_group_members_count_bound(gs.drop_last(), k, v);
        assert(gs.drop_last()[k] == gs[k]);
    }
}

/// No single group holds more files than all groups together.
proof fn lemma_group_members_len_bound(gs: Seq<DuplicateGroup>, k: int)
    requires
        0 <= k < gs.len(),
    ensures
        gs[k].files@.to_multiset().len() <= group_members(gs).len(),
    decreases gs.len(),
{
    broadcast use vstd::multiset::group_multiset_axioms;

    if k < gs.len() - 1 {
        lemma_group_members_len_bound(gs.drop_last(), k);
        assert(gs.drop_last()[k] == gs[k]);
    }
}

/// Inserting into a sequence adds the element to its multiset, wherever it
/// is inserted.
proof fn lemma_to_multiset_insert(s: Seq<FileInfo>, i: int, a: FileInfo)
    requires
        0 <= i <= s.len(),
    ensures
        s.insert(i, a).to_multiset() =~= s.to_multiset().insert(a),
{
    broadcast use vstd::seq_lib::group_to_multiset_ensures;
    broadcast use vstd::multiset::group_multiset_axioms;

    let s2 = s.insert(i, a);
    assert(s2[i] == a);
    assert(s2.remove(i) =~= s);
    assert(s2.remove(i).to_multiset() =~= s2.to_multiset().remove(a));
    assert(s2.to_multiset().contains(a)) by {
        assert(s2.contains(a));
    }
    assert forall|v: FileInfo| s2.to_multiset().count(v) == s.to_multiset().insert(a).count(
        v,
    ) by {
        if v == a {
            assert(s.to_multiset().count(a) == s2.to_multiset().count(a) - 1);
        } else {
            assert(s.to_multiset().count(v) == s2.to_multiset().count(v));
        }
    }
}

/// Finds the group already keyed by this digest, if any.
fn find_bucket(buckets: &Vec<DuplicateGroup>, hash: &String) -> (r: Option<usize>)
    ensures
        r matches Some(k) ==> k < buckets@.len() && buckets@[k as int].hash@ == hash@,
        r is None ==> forall|j: int| 0 <= j < buckets@.len() ==> buckets@[j].hash@ != hash@,
{
    let mut k: usize = 0;
    while k < buckets.len()
        invariant
            k <= buckets@.len(),
            forall|j: int| 0 <= j < k ==> buckets@[j].hash@ != hash@,
        decreases buckets@.len() - k,
    {
        if buckets[k].hash.eq(hash) {
            return Some(k);
        }
        k = k + 1;
    }
    None
}

/// The position a record with this modification time takes in an ordered
/// member list: after every member that does not modify later.
fn insert_position(files: &Vec<FileInfo>, modified: u64) -> (p: usize)
    ensures
        p <= files@.len(),
        forall|j: int| 0 <= j < p ==> (#[trigger] files@[j]).modified <= modified,
        p < files@.len() ==> files@[p as int].modified > modified,
{
    let mut p: usize = 0;
    while p < files.len()
        invariant
            p <= files@.len(),
            forall|j: int| 0 <= j < p ==> (#[trigger] files@[j]).modified <= modified,
        decreases files@.len() - p,
    {
        if files[p].modified > modified {
            return p;
        }
        p = p + 1;
    }
    p
}

/// Inserting at the position `insert_position` finds keeps the member list
/// ordered by modification time.
proof fn lemma_sorted_insert(s: Seq<FileInfo>, p: int, r: FileInfo)
    requires
        sorted_by_modified(s),
        0 <= p <= s.len(),
        forall|j: int| 0 <= j < p ==> (#[trigger] s[j]).modified <= r.modified,
        p < s.len() ==> s[p].modified > r.modified,
    ensures
        sorted_by_modified(s.insert(p, r)),
{
    s.insert_ensures(p, r);
    let s2 = s.insert(p, r);
    assert forall|i: int, j: int| 0 <= i < j < s2.len() implies s2[i].modified
        <= s2[j].modified by {
        if i < p {
            assert(s2[i] == s[i]);
        } else if i == p {
            assert(s2[i] == r);
        } else {
            assert(s2[i] == s[i - 1]);
        }
        if j < p {
            assert(s2[j] == s[j]);
        } else if j == p {
            assert(s2[j] == r);
        } else {
            assert(s2[j] == s[j - 1]);
        }
    }
}

/// Groups the scanned records by their content digest: each distinct digest
/// yields one group holding exactly the records bearing it, ordered by
/// modification time (oldest first), with the group's size taken from its
/// first member and the space figures computed from it. Every record lands
/// in exactly one group; nothing is lost, nothing invented.
pub fn group_duplicates(records: Vec<FileInfo>) -> (groups: Vec<DuplicateGroup>)
    requires
        forall|i: int|
            0 <= i < records@.len() ==> (#[trigger] records@[i]).size * records@.len()
                <= u64::MAX,
    ensures
        forall|k: int| 0 <= k < groups@.len() ==> group_wf(#[trigger] groups@[k]),
        forall|k1: int, k2: int|
            0 <= k1 < k2 < groups@.len() ==> groups@[k1].hash@ != groups@[k2].hash@,
        group_members(groups@) == records@.to_multiset(),
{
    broadcast use vstd::seq_lib::group_to_multiset_ensures;

    let ghost all = records@;
    let mut records = records;
    let mut buckets: Vec<DuplicateGroup> = Vec::new();
    proof {
        assert(group_members(buckets@) =~= Multiset::<FileInfo>::empty());
        assert(group_members(buckets@).add(records@.to_multiset()) =~= all.to_multiset());
    }
    while records.len() > 0
        invariant
            group_members(buckets@).add(records@.to_multiset()) == all.to_multiset(),
            forall|i: int|
                0 <= i < records@.len() ==> (#[trigger] records@[i]).size * all.len()
                    <= u64::MAX,
            forall|k: int|
                0 <= k < buckets@.len() ==> (#[trigger] buckets@[k]).files@.len() > 0,
            forall|k: int, i: int|
                0 <= k < buckets@.len() && 0 <= i < buckets@[k].files@.len() ==> (
                #[trigger] buckets@[k].files@[i]).hash@ == buckets@[k].hash@,
            forall|k: int|
                0 <= k < buckets@.len() ==> sorted_by_modified(
                    (#[trigger] buckets@[k]).files@,
                ),
            forall|k1: int, k2: int|
                0 <= k1 < k2 < buckets@.len() ==> buckets@[k1].hash@ != buckets@[k2].hash@,
        decreases records.len(),
    {
        broadcast use vstd::seq_lib::group_to_multiset_ensures;
        broadcast use vstd::multiset::group_multiset_axioms;

        let ghost records_before = records@;
        let r = records.remove(0);
        let ghost rr = r;
        proof {
            assert(records_before.drop_first() =~= records@);
            assert(records_before.to_multiset() =~= records@.to_multiset().insert(r)) by {
                assert(records_before.remove(0) =~= records@);
                assert(records_before.remove(0).to_multiset() =~= records_before
                    .to_multiset().remove(records_before[0]));
                assert(records_before.contains(records_before[0]));
            }
        }
        match find_bucket(&buckets, &r.hash) {
            Some(k) => {
                let ghost buckets_before = buckets@;
                let ghost old_files = buckets@[k as int].files@;
                let p = insert_position(&buckets[k].files, r.modified);
                let bucket = vstd::std_specs::vec::vec_index_mut(&mut buckets, k);
                bucket.files.insert(p, r);
                proof {
                    let g2 = buckets@[k as int];
                    assert(buckets@ == buckets_before.update(k as int, g2));
                    assert(g2.files@ == old_files.insert(p as int, rr));
                    assert(g2.hash@ == buckets_before[k as int].hash@);
                    lemma_group_members_update(buckets_before, k as int, g2);
                    lemma_to_multiset_insert(old_files, p as int, rr);
                    assert(group_members(buckets@) =~= group_members(
                        buckets_before,
                    ).insert(rr)) by {
                        assert(group_members(buckets@).add(old_files.to_multiset())
                            =~= group_members(buckets_before).add(
                            old_files.to_multiset().insert(rr),
                        ));
                        lemma_add_insert_cancel(
                            group_members(buckets@),
                            group_members(buckets_before),
                            old_files.to_multiset(),
                            rr,
                        );
                    }
                    assert(group_members(buckets@).add(records@.to_multiset())
                        =~= all.to_multiset());
                    lemma_sorted_insert(old_files, p as int, rr);
                    old_files.insert_ensures(p as int, rr);
                    assert forall|i: int| 0 <= i < g2.files@.len() implies (
                    #[trigger] g2.files@[i]).hash@ == g2.hash@ by {
                        if i < p {
                            assert(g2.files@[i] == old_files[i]);
                        } else if i == p {
                            assert(g2.files@[i] == rr);
                        } else {
                            assert(g2.files@[i] == old_files[i - 1]);
                        }
                    }
                    assert forall|k2: int|
                        0 <= k2 < buckets@.len() implies sorted_by_modified(
                        (#[trigger] buckets@[k2]).files@,
                    ) by {
                        if k2 != k as int {
                            assert(buckets@[k2] == buckets_before[k2]);
                        }
                    }
                }
            },
            None => {
                let hash = r.hash.clone();
                let mut files: Vec<FileInfo> = Vec::new();
                files.push(r);
                let g = DuplicateGroup {
                    hash,
                    size: 0,
                    files,
                    total_size: 0,
                    wasted_space: 0,
                };
                let ghost buckets_before = buckets@;
                proof {
                    lemma_group_members_push(buckets@, g);
                    assert(g.files@ =~= Seq::<FileInfo>::empty().push(rr));
                    assert(Seq::<FileInfo>::empty().to_multiset() =~= Multiset::<
                        FileInfo,
                    >::empty()) by {
                        Seq::<FileInfo>::empty().to_multiset_ensures();
                    }
                    assert(g.files@.to_multiset() =~= Multiset::<FileInfo>::empty().insert(
                        rr,
                    ));
                }
                buckets.push(g);
                proof {
                    assert(group_members(buckets@) =~= group_members(
                        buckets_before,
                    ).insert(rr));
                    assert(group_members(buckets@).add(records@.to_multiset())
                        =~= all.to_multiset());
                }
            },
        }
    }
    // Fix each group's size and space figures now that its membership is
    // complete.
    let ghost buckets_full = buckets@;
    proof {
        broadcast use vstd::seq_lib::group_to_multiset_ensures;
        broadcast use vstd::multiset::group_multiset_axioms;

        assert(records@.to_multiset() =~= Multiset::<FileInfo>::empty());
        assert(group_members(buckets_full) =~= all.to_multiset());
    }
    let mut out: Vec<DuplicateGroup> = Vec::new();
    while buckets.len() > 0
        invariant
            group_members(out@).add(group_members(buckets@)) == all.to_multiset(),
            all.to_multiset().len() == all.len(),
            forall|i: int|
                0 <= i < all.len() ==> (#[trigger] all[i]).size * all.len() <= u64::MAX,
            forall|k: int|
                0 <= k < buckets@.len() ==> (#[trigger] buckets@[k]).files@.len() > 0,
            forall|k: int, i: int|
                0 <= k < buckets@.len() && 0 <= i < buckets@[k].files@.len() ==> (
                #[trigger] buckets@[k].files@[i]).hash@ == buckets@[k].hash@,
            forall|k: int|
                0 <= k < buckets@.len() ==> sorted_by_modified(
                    (#[trigger] buckets@[k]).files@,
                ),
            forall|k1: int, k2: int|
                0 <= k1 < k2 < buckets@.len() ==> buckets@[k1].hash@ != buckets@[k2].hash@,
            forall|k: int| 0 <= k < out@.len() ==> group_wf(#[trigger] out@[k]),
            forall|k1: int, k2: int|
                0 <= k1 < k2 < out@.len() ==> out@[k1].hash@ != out@[k2].hash@,
            forall|k1: int, k2: int|
                0 <= k1 < out@.len() && 0 <= k2 < buckets@.len() ==> out@[k1].hash@
                    != buckets@[k2].hash@,
        decreases buckets.len(),
    {
        broadcast use vstd::seq_lib::group_to_multiset_ensures;
        broadcast use vstd::multiset::group_multiset_axioms;

        let ghost buckets_rem = buckets@;
        let g = buckets.remove(0);
        proof {
            lemma_group_members_drop_first(buckets_rem);
            assert(buckets_rem.remove(0) =~= buckets@);
            assert(buckets_rem.drop_first() =~= buckets@);
        }
        let n = g.files.len();
        let size = g.files[0].size;
        proof {
            lemma_group_members_count_bound(buckets_rem, 0, g.files@[0]);
            assert(g.files@.to_multiset().count(g.files@[0]) >= 1) by {
                assert(g.files@.contains(g.files@[0]));
            }
            assert(all.to_multiset().count(g.files@[0]) >= 1);
            assert(all.contains(g.files@[0]));
            let i = choose|i: int| 0 <= i < all.len() && all[i] == g.files@[0];
            lemma_group_members_len_bound(buckets_rem, 0);
            assert(group_members(buckets_rem).len() <= all.to_multiset().len());
            assert(g.files@.to_multiset().len() == g.files@.len());
            assert(g.files@.len() <= all.len());
            assert(size * n <= u64::MAX) by (nonlinear_arith)
                requires
                    size == all[i].size,
                    all[i].size * all.len() <= u64::MAX,
                    0 <= n <= all.len(),
            ;
        }
        let n64 = n as u64;
        let total_size = size * n64;
        let wasted_space = if n64 > 1 {
            proof {
                assert(size * (n64 - 1) <= size * n64) by (nonlinear_arith)
                    requires
                        n64 >= 1,
                ;
            }
            size * (n64 - 1)
        } else {
            0
        };
        let g2 = DuplicateGroup { hash: g.hash, size, files: g.files, total_size, wasted_space };
        proof {
            lemma_group_members_push(out@, g2);
            assert(group_wf(g2));
        }
        out.push(g2);
        proof {
            assert(group_members(out@).add(group_members(buckets@)) =~= all.to_multiset());
        }
    }
    proof {
        broadcast use vstd::multiset::group_multiset_axioms;

        assert(group_members(buckets@) =~= Multiset::<FileInfo>::empty());
        assert(group_members(out@) =~= all.to_multiset());
    }
    out
}


/// The groups that survive into the final result: those with at least two
/// members, in order.
pub open spec fn surviving_groups(gs: Seq<DuplicateGroup>) -> Seq<DuplicateGroup>
    decreases gs.len(),
{
    if gs.len() == 0 {
        Seq::empty()
    } else {
        (if gs[0].files@.len() > 1 {
            seq![gs[0]]
        } else {
            Seq::empty()
        }) + surviving_groups(gs.drop_first())
    }
}

/// Total number of files held by these groups.
pub open spec fn sum_member_count(gs: Seq<DuplicateGroup>) -> int
    decreases gs.len(),
{
    if gs.len() == 0 {
        0
    } else {
        gs[0].files@.len() + sum_member_count(gs.drop_first())
    }
}

/// Total number of redundant copies held by these groups: one less than
/// the member count of each group with more than one member.
pub open spec fn sum_redundant_count(gs: Seq<DuplicateGroup>) -> int
    decreases gs.len(),
{
    if gs.len() == 0 {
        0
    } else {
        (if gs[0].files@.len() > 1 {
            gs[0].files@.len() - 1
        } else {
            0int
        }) + sum_redundant_count(gs.drop_first())
    }
}

/// Total wasted space reported by these groups.
pub open spec fn sum_wasted_space(gs: Seq<DuplicateGroup>) -> int
    decreases gs.len(),
{
    if gs.len() == 0 {
        0
    } else {
        gs[0].wasted_space + sum_wasted_space(gs.drop_first())
    }
}

/// The sums are nonnegative, redundant copies never outnumber members, and
/// restricting to the surviving groups never increases a sum.
pub proof fn lemma_surviving_sums(gs: Seq<DuplicateGroup>)
    ensures
        0 <= sum_redundant_count(gs) <= sum_member_count(gs),
        0 <= sum_wasted_space(gs),
        0 <= sum_member_count(surviving_groups(gs)) <= sum_member_count(gs),
        0 <= sum_redundant_count(surviving_groups(gs)) <= sum_member_count(gs),
        0 <= sum_wasted_space(surviving_groups(gs)) <= sum_wasted_space(gs),
    decreases gs.len(),
{
    if gs.len() > 0 {
        lemma_surviving_sums(gs.drop_first());
        if gs[0].files@.len() > 1 {
            let tail = surviving_groups(gs.drop_first());
            assert(surviving_groups(gs) == seq![gs[0]] + tail);
            assert((seq![gs[0]] + tail)[0] == gs[0]);
            assert((seq![gs[0]] + tail).drop_first() =~= tail);
        } else {
            assert(surviving_groups(gs) =~= surviving_groups(gs.drop_first()));
        }
    }
}

/// Assembles the final report from the computed groups: only groups with
/// at least two members survive, and every total is computed over the
/// surviving groups alone, so files whose digest was unique in the scan
/// appear in no figure.
pub fn aggregate_results(
    groups: Vec<DuplicateGroup>,
    scan_duration: u64,
    scanned_directory: String,
) -> (r: ScanResult)
    requires
        sum_member_count(groups@) <= usize::MAX,
        sum_wasted_space(groups@) <= u64::MAX,
    ensures
        r.duplicate_groups@ == surviving_groups(groups@),
        r.total_files == sum_member_count(surviving_groups(groups@)),
        r.total_duplicates == sum_redundant_count(surviving_groups(groups@)),
        r.total_wasted_space == sum_wasted_space(surviving_groups(groups@)),
        r.scan_duration == scan_duration,
        r.scanned_directory == scanned_directory,
{
    let ghost all = groups@;
    proof {
        lemma_surviving_sums(all);
    }
    let mut groups = groups;
    let mut out: Vec<DuplicateGroup> = Vec::new();
    let mut total_files: usize = 0;
    let mut total_duplicates: usize = 0;
    let mut total_wasted_space: u64 = 0;
    proof {
        assert(surviving_groups(all) =~= out@ + surviving_groups(groups@));
    }
    while groups.len() > 0
        invariant
            surviving_groups(all) == out@ + surviving_groups(groups@),
            total_files + sum_member_count(surviving_groups(groups@)) == sum_member_count(
                surviving_groups(all),
            ),
            total_duplicates + sum_redundant_count(surviving_groups(groups@))
                == sum_redundant_count(surviving_groups(all)),
            total_wasted_space + sum_wasted_space(surviving_groups(groups@))
                == sum_wasted_space(surviving_groups(all)),
            sum_member_count(surviving_groups(all)) <= usize::MAX,
            sum_redundant_count(surviving_groups(all)) <= usize::MAX,
            sum_wasted_space(surviving_groups(all)) <= u64::MAX,
        decreases groups.len(),
    {
        let ghost rem = groups@;
        let g = groups.remove(0);
        proof {
            assert(rem.drop_first() =~= groups@);
            lemma_surviving_sums(groups@);
        }
        if g.files.len() > 1 {
            let n = g.files.len();
            let ghost tail = surviving_groups(groups@);
            proof {
                assert(surviving_groups(rem) == seq![g] + tail);
                assert((seq![g] + tail)[0] == g);
                assert((seq![g] + tail).drop_first() =~= tail);
                assert(sum_member_count(surviving_groups(rem)) == n + sum_member_count(tail));
                assert(sum_redundant_count(surviving_groups(rem)) == (n - 1)
                    + sum_redundant_count(tail));
                assert(sum_wasted_space(surviving_groups(rem)) == g.wasted_space
                    + sum_wasted_space(tail));
            }
            total_files = total_files + n;
            total_duplicates = total_duplicates + (n - 1);
            total_wasted_space = total_wasted_space + g.wasted_space;
            out.push(g);
            proof {
                assert(surviving_groups(all) =~= out@ + tail);
            }
        } else {
            proof {
                assert(surviving_groups(rem) =~= surviving_groups(groups@));
            }
        }
    }
    proof {
        assert(surviving_groups(groups@) =~= Seq::<DuplicateGroup>::empty());
        assert(out@ =~= surviving_groups(all));
    }
    ScanResult {
        total_files,
        duplicate_groups: out,
        total_duplicates,
        total_wasted_space,
        scan_duration,
        scanned_directory,
    }
}

/// Files with the same content digest always land in the same group: with
/// the guarantees of `group_duplicates`, two members with equal digests
/// can only sit in one and the same group.
pub proof fn lemma_same_hash_same_group(
    groups: Seq<DuplicateGroup>,
    k1: int,
    k2: int,
    i1: int,
    i2: int,
)
    requires
        forall|k: int| 0 <= k < groups.len() ==> group_wf(#[trigger] groups[k]),
        forall|ka: int, kb: int|
            0 <= ka < kb < groups.len() ==> groups[ka].hash@ != groups[kb].hash@,
        0 <= k1 < groups.len(),
        0 <= k2 < groups.len(),
        0 <= i1 < groups[k1].files@.len(),
        0 <= i2 < groups[k2].files@.len(),
        groups[k1].files@[i1].hash@ == groups[k2].files@[i2].hash@,
    ensures
        k1 == k2,
{
}

/// When every member of a well-formed group has one common size, the
/// group's reported size is that common size.
pub proof fn lemma_group_size_is_common_size(g: DuplicateGroup, s: u64)
    requires
        group_wf(g),
        forall|i: int| 0 <= i < g.files@.len() ==> (#[trigger] g.files@[i]).size == s,
    ensures
        g.size == s,
{
}

/// The first member of a well-formed group has the earliest modification
/// time in the group.
pub proof fn lemma_first_member_earliest(g: DuplicateGroup)
    requires
        group_wf(g),
    ensures
        forall|i: int|
            0 <= i < g.files@.len() ==> g.files@[0].modified <= (#[trigger] g.files@[i]).modified,
{
}

/// A file below the minimum size, or above a nonzero maximum size, is
/// never a candidate, so it can never appear in any group.
pub proof fn lemma_size_filter_bounds(config: Cli, size: u64)
    ensures
        size < config.min_size ==> !spec_passes_size_filter(config, size),
        config.max_size > 0 && size > config.max_size ==> !spec_passes_size_filter(config, size),
{
}

/// A zero-byte file is excluded exactly when the policy says so: always
/// under `exclude_empty`, and otherwise only if a minimum size is set.
pub proof fn lemma_empty_file_filter(config: Cli)
    ensures
        config.exclude_empty ==> !spec_passes_size_filter(config, 0),
        !config.exclude_empty && config.min_size == 0 ==> spec_passes_size_filter(config, 0),
{
}

/// A hidden entry is skipped entirely unless hidden entries are included;
/// with them included, only the symlink rule can still skip an entry.
pub proof fn lemma_hidden_entry_excluded(config: Cli, e: DirEntryInfo)
    ensures
        !config.include_hidden && spec_is_hidden(e.name@) ==> !spec_emits_file(config, e)
            && !spec_enters_dir(config, e),
        config.include_hidden ==> (spec_entry_skipped(config, e) <==> (e.is_symlink
            && !config.follow_symlinks)),
{
}


/// A group's wasted space follows the defining formula: its common size
/// times one less than its member count, and 0 for a single-member group.
pub proof fn lemma_wasted_space_formula(g: DuplicateGroup)
    requires
        group_wf(g),
    ensures
        g.files@.len() > 1 ==> g.wasted_space == g.size * (g.files@.len() - 1),
        g.files@.len() == 1 ==> g.wasted_space == 0,
{
}

/// Every group that survives into the final result has at least two
/// members: single-member groups are excluded.
pub proof fn lemma_surviving_have_duplicates(gs: Seq<DuplicateGroup>)
    ensures
        forall|k: int|
            0 <= k < surviving_groups(gs).len() ==> (#[trigger] surviving_groups(
                gs,
            )[k]).files@.len() > 1,
    decreases gs.len(),
{
    if gs.len() > 0 {
        lemma_surviving_have_duplicates(gs.drop_first());
        let tail = surviving_groups(gs.drop_first());
        if gs[0].files@.len() > 1 {
            assert(surviving_groups(gs) == seq![gs[0]] + tail);
            assert(forall|k: int|
                0 <= k < tail.len() ==> (#[trigger] (seq![gs[0]] + tail)[k + 1]) == tail[k]);
            assert((seq![gs[0]] + tail)[0] == gs[0]);
        } else {
            assert(surviving_groups(gs) =~= tail);
        }
    }
}

/// When no entry of a directory qualifies as a candidate file, processing
/// that directory emits nothing: files below the minimum size, above a
/// nonzero maximum size, or excluded as empty or hidden never appear.
pub proof fn lemma_no_qualifying_entries_no_candidates(
    config: Cli,
    entries: Seq<DirEntryInfo>,
    depth: usize,
)
    requires
        forall|j: int| 0 <= j < entries.len() ==> !spec_emits_file(config, #[trigger] entries[j]),
    ensures
        spec_emitted(config, entries, depth).len() == 0,
    decreases entries.len(),
{
    if entries.len() > 0 {
        assert(forall|j: int|
            0 <= j < entries.drop_first().len() ==> (#[trigger] entries.drop_first()[j])
                == entries[j + 1]);
        lemma_no_qualifying_entries_no_candidates(config, entries.drop_first(), depth);
    }
}


/// Membership distributes over the groups: an element counted by the
/// combined membership sits in some group's files.
proof fn lemma_group_members_contains(gs: Seq<DuplicateGroup>, v: FileInfo)
    requires
        group_members(gs).count(v) > 0,
    ensures
        exists|k: int| 0 <= k < gs.len() && (#[trigger] gs[k]).files@.contains(v),
    decreases gs.len(),
{
    broadcast use vstd::multiset::group_multiset_axioms;
    broadcast use vstd::seq_lib::group_to_multiset_ensures;

    if gs.len() > 0 {
        if gs.last().files@.to_multiset().count(v) > 0 {
            assert(gs[gs.len() - 1].files@.contains(v));
        } else {
            lemma_group_members_contains(gs.drop_last(), v);
            let k = choose|k: int|
                0 <= k < gs.drop_last().len() && (#[trigger] gs.drop_last()[k]).files@.contains(
                    v,
                );
            assert(gs[k].files@.contains(v));
        }
    }
}

/// Every scanned record lands in some group: with the membership guarantee
/// of `group_duplicates`, no record is lost.
pub proof fn lemma_every_record_grouped(
    groups: Seq<DuplicateGroup>,
    records: Seq<FileInfo>,
    i: int,
)
    requires
        group_members(groups) == records.to_multiset(),
        0 <= i < records.len(),
    ensures
        exists|k: int| 0 <= k < groups.len() && (#[trigger] groups[k]).files@.contains(records[i]),
{
    broadcast use vstd::seq_lib::group_to_multiset_ensures;

    assert(records.contains(records[i]));
    assert(records.to_multiset().count(records[i]) > 0);
    lemma_group_members_contains(groups, records[i]);
}

} // verus!
