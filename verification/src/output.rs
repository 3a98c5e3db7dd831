//! Rendering of scan results: the text report, per-group formatting,
//! recommendations, and the file-extension statistics. Printing and file
//! writing stay with the caller; everything here computes strings.

use crate::text;
use crate::{format_bytes, spec_format_bytes, Cli, DuplicateGroup, FileInfo, ScanResult};
use vstd::prelude::*;

verus! {

/// The Unicode lowercase mapping of a character sequence, a function of the
/// characters alone. It is not given a definition here; the standard
/// library computes it.
pub uninterp spec fn lower_of(s: Seq<char>) -> Seq<char>;

/// Relies on str::to_lowercase: the Unicode lowercase form of the string,
/// a function of its characters alone; an empty string stays empty.
#[verifier::external_body]
fn to_lowercase(s: &str) -> (r: String)
    ensures
        r@ == lower_of(s@),
        s@.len() == 0 ==> r@.len() == 0,
{
    s.to_lowercase()
}

/// Relies on chrono: renders a timestamp (seconds since the Unix epoch) as
/// `YYYY-MM-DD hh:mm:ss` in this machine's local time zone. The result
/// depends on that zone, so only its shape is stated: the four date and
/// time fields alone fill 19 characters (more when the year needs over
/// four digits), so the rendering is at least that long, whatever the
/// zone and whatever the input.
#[verifier::external_body]
pub fn format_system_time(secs: u64) -> (r: String)
    ensures
        r@.len() >= 19,
{
    let datetime = chrono::DateTime::from_timestamp(secs as i64, 0).unwrap_or_default();
    let local: chrono::DateTime<chrono::Local> = datetime.into();
    local.format("%Y-%m-%d %H:%M:%S").to_string()
}

/// The index of the last occurrence of `c`, or -1 when it does not occur.
pub open spec fn last_index_of(s: Seq<char>, c: char) -> int
    decreases s.len(),
{
    if s.len() == 0 {
        -1
    } else if s.last() == c {
        s.len() - 1
    } else {
        last_index_of(s.drop_last(), c)
    }
}

/// What `last_index_of` points at: an occurrence with none after it, or
/// nothing at all.
proof fn lemma_last_index_of(s: Seq<char>, c: char)
    ensures
        -1 <= last_index_of(s, c) < s.len(),
        last_index_of(s, c) >= 0 ==> s[last_index_of(s, c)] == c,
        forall|j: int| last_index_of(s, c) < j < s.len() ==> s[j] != c,
    decreases s.len(),
{
    if s.len() > 0 && s.last() != c {
        lemma_last_index_of(s.drop_last(), c);
        assert(forall|j: int| 0 <= j < s.len() - 1 ==> (#[trigger] s[j]) == s.drop_last()[j]);
    }
}

/// An occurrence with none after it is the last one; no occurrence at all
/// means -1.
proof fn lemma_last_index_of_pinpoint(s: Seq<char>, c: char, i: int)
    requires
        -1 <= i < s.len(),
        i >= 0 ==> s[i] == c,
        forall|j: int| i < j < s.len() ==> s[j] != c,
    ensures
        last_index_of(s, c) == i,
    decreases s.len(),
{
    if s.len() > 0 {
        if i == s.len() - 1 {
        } else {
            assert(s.last() != c);
            lemma_last_index_of_pinpoint(s.drop_last(), c, i);
        }
    }
}

/// Finds the last occurrence of `c` in the string, scanning from the end.
fn rfind(s: &str, c: char) -> (r: Option<usize>)
    ensures
        r matches Some(i) ==> i < s@.len() && last_index_of(s@, c) == i,
        r is None ==> last_index_of(s@, c) == -1,
{
    let n = s.unicode_len();
    let mut i = n;
    while i > 0
        invariant
            i <= n,
            n == s@.len(),
            forall|j: int| i <= j < s@.len() ==> s@[j] != c,
        decreases i,
    {
        let ch = s.get_char(i - 1);
        if ch == c {
            proof {
                lemma_last_index_of_pinpoint(s@, c, i - 1);
            }
            return Some(i - 1);
        }
        i = i - 1;
    }
    proof {
        lemma_last_index_of_pinpoint(s@, c, -1);
    }
    None
}

/// The final path component: everything after the last slash (the whole
/// path when there is none).
pub open spec fn spec_basename(path: Seq<char>) -> Seq<char> {
    path.subrange(last_index_of(path, '/') + 1, path.len() as int)
}

/// The extension of a path, as `Path::extension` reads it: the part of the
/// final component after its last dot, unless there is no dot or the only
/// dot starts the name (a hidden file has no extension).
pub open spec fn spec_extension(path: Seq<char>) -> Option<Seq<char>> {
    let name = spec_basename(path);
    let d = last_index_of(name, '.');
    if d <= 0 {
        None
    } else {
        Some(name.subrange(d + 1, name.len() as int))
    }
}

/// The key a file is counted under in the extension statistics: its
/// lowercased extension, or the lowercased placeholder when it has none.
pub open spec fn spec_ext_key(path: Seq<char>) -> Seq<char> {
    match spec_extension(path) {
        Some(e) => lower_of(e),
        None => lower_of("(no extension)"@),
    }
}

/// Computes the extension statistics key of one path.
fn extension_key(path: &str) -> (k: String)
    ensures
        k@ == spec_ext_key(path@),
{
    proof {
        lemma_last_index_of(path@, '/');
    }
    let n = path.unicode_len();
    let start = match rfind(path, '/') {
        Some(i) => i + 1,
        None => 0,
    };
    let name = path.substring_char(start, n);
    proof {
        assert(name@ == spec_basename(path@));
        lemma_last_index_of(name@, '.');
    }
    let nlen = name.unicode_len();
    match rfind(name, '.') {
        Some(d) if d > 0 => {
            let ext = name.substring_char(d + 1, nlen);
            proof {
                assert(ext@ == spec_extension(path@)->Some_0);
            }
            to_lowercase(ext)
        },
        _ => to_lowercase("(no extension)"),
    }
}


/// All files held by these groups, in order: each group's members in
/// group order.
pub open spec fn all_group_files(gs: Seq<DuplicateGroup>) -> Seq<FileInfo>
    decreases gs.len(),
{
    if gs.len() == 0 {
        Seq::empty()
    } else {
        all_group_files(gs.drop_last()) + gs.last().files@
    }
}

/// The extension-statistics key of each file, in file order.
pub open spec fn spec_ext_keys(files: Seq<FileInfo>) -> Seq<Seq<char>> {
    files.map_values(|f: FileInfo| spec_ext_key(f.path@))
}

/// How many of these keys equal `key`.
pub open spec fn key_count(keys: Seq<Seq<char>>, key: Seq<char>) -> int
    decreases keys.len(),
{
    if keys.len() == 0 {
        0
    } else {
        key_count(keys.drop_last(), key) + if keys.last() == key {
            1int
        } else {
            0int
        }
    }
}

/// A key's count lies between 0 and the number of keys, and a positive
/// count means the key occurs.
proof fn lemma_key_count_bounds(keys: Seq<Seq<char>>, key: Seq<char>)
    ensures
        0 <= key_count(keys, key) <= keys.len(),
        key_count(keys, key) > 0 ==> exists|j: int| 0 <= j < keys.len() && keys[j] == key,
    decreases keys.len(),
{
    if keys.len() > 0 {
        lemma_key_count_bounds(keys.drop_last(), key);
        if key_count(keys, key) > 0 {
            if keys.last() == key {
                assert(keys[keys.len() - 1] == key);
            } else {
                let j = choose|j: int|
                    0 <= j < keys.drop_last().len() && keys.drop_last()[j] == key;
                assert(keys[j] == key);
            }
        }
    }
}

/// Whether some entry of the statistics carries this key.
pub open spec fn has_key(entries: Seq<(String, usize)>, key: Seq<char>) -> bool
    decreases entries.len(),
{
    if entries.len() == 0 {
        false
    } else {
        entries.last().0@ == key || has_key(entries.drop_last(), key)
    }
}

/// An entry carries the key exactly when some position holds it.
pub proof fn lemma_has_key_iff_index(entries: Seq<(String, usize)>, key: Seq<char>)
    ensures
        has_key(entries, key) <==> exists|a: int|
            0 <= a < entries.len() && (#[trigger] entries[a]).0@ == key,
    decreases entries.len(),
{
    if entries.len() > 0 {
        lemma_has_key_iff_index(entries.drop_last(), key);
        if has_key(entries, key) {
            if entries.last().0@ == key {
                assert(entries[entries.len() - 1].0@ == key);
            } else {
                let a = choose|a: int|
                    0 <= a < entries.drop_last().len() && (#[trigger] entries.drop_last()[a]).0@
                        == key;
                assert(entries[a].0@ == key);
            }
        }
        if exists|a: int| 0 <= a < entries.len() && (#[trigger] entries[a]).0@ == key {
            let a = choose|a: int| 0 <= a < entries.len() && (#[trigger] entries[a]).0@ == key;
            if a < entries.len() - 1 {
                assert(entries.drop_last()[a].0@ == key);
            }
        }
    }
}

/// Updating an entry without changing its key leaves `has_key` unchanged.
proof fn lemma_has_key_update(
    entries: Seq<(String, usize)>,
    idx: int,
    e: (String, usize),
    key: Seq<char>,
)
    requires
        0 <= idx < entries.len(),
        e.0@ == entries[idx].0@,
    ensures
        has_key(entries.update(idx, e), key) == has_key(entries, key),
    decreases entries.len(),
{
    let u = entries.update(idx, e);
    if idx == entries.len() - 1 {
        assert(u.drop_last() =~= entries.drop_last());
        assert(u.last() == e);
    } else {
        assert(u.drop_last() =~= entries.drop_last().update(idx, e));
        assert(u.last() == entries.last());
        assert(entries.drop_last()[idx] == entries[idx]);
        lemma_has_key_update(entries.drop_last(), idx, e, key);
    }
}

/// The formatter for scan results. It borrows the configuration it was
/// created from; the rendering itself depends only on the result.
pub struct OutputFormatter<'a> {
    /// The configuration of the scan being reported.
    pub config: &'a Cli,
}

impl<'a> OutputFormatter<'a> {
    /// A formatter over this configuration.
    pub fn new(config: &'a Cli) -> (r: OutputFormatter<'a>)
        ensures
            r.config == config,
    {
        OutputFormatter { config }
    }

    /// Counts the files of the reported groups by lowercased extension and
    /// returns the counts sorted by frequency, most frequent first: the
    /// keys are distinct, every count is the exact number of files bearing
    /// that key, and every file's key appears.
    pub fn analyze_file_extensions(&self, scan_result: &ScanResult) -> (r: Vec<(String, usize)>)
        ensures
            ({
                let keys = spec_ext_keys(all_group_files(scan_result.duplicate_groups@));
                &&& forall|a: int, b: int| 0 <= a < b < r@.len() ==> r@[a].0@ != r@[b].0@
                &&& forall|a: int, b: int| 0 <= a < b < r@.len() ==> r@[a].1 >= r@[b].1
                &&& forall|a: int|
                    0 <= a < r@.len() ==> (#[trigger] r@[a]).1 == key_count(keys, r@[a].0@)
                        && r@[a].1 >= 1
                &&& forall|j: int| 0 <= j < keys.len() ==> has_key(r@, #[trigger] keys[j])
            }),
    {
        let groups = &scan_result.duplicate_groups;
        let ghost afg = all_group_files(groups@);

        // Pass 1: the key of every file, in file order.
        let mut keyvec: Vec<String> = Vec::new();
        let ghost mut done: Seq<FileInfo> = Seq::empty();
        proof {
            assert(all_group_files(groups@.take(0)) =~= Seq::<FileInfo>::empty());
        }
        let mut gk: usize = 0;
        while gk < groups.len()
            invariant
                gk <= groups@.len(),
                done == all_group_files(groups@.take(gk as int)),
                keyvec@.len() == done.len(),
                forall|i: int|
                    0 <= i < done.len() ==> keyvec@[i]@ == spec_ext_key(
                        (#[trigger] done[i]).path@,
                    ),
            decreases groups@.len() - gk,
        {
            let files = &groups[gk].files;
            let mut fi: usize = 0;
            while fi < files.len()
                invariant
                    gk < groups@.len(),
                    fi <= files@.len(),
                    files == &groups@[gk as int].files,
                    done == all_group_files(groups@.take(gk as int)) + groups@[gk as int].files@
                        .take(fi as int),
                    keyvec@.len() == done.len(),
                    forall|i: int|
                        0 <= i < done.len() ==> keyvec@[i]@ == spec_ext_key(
                            (#[trigger] done[i]).path@,
                        ),
                decreases files@.len() - fi,
            {
                let key = extension_key(files[fi].path.as_str());
                keyvec.push(key);
                proof {
                    done = done.push(files@[fi as int]);
                    assert(done =~= all_group_files(groups@.take(gk as int)) + groups@[gk
                        as int].files@.take(fi + 1));
                }
                fi = fi + 1;
            }
            proof {
                assert(groups@.take(gk + 1).drop_last() =~= groups@.take(gk as int));
                assert(groups@.take(gk + 1).last() == groups@[gk as int]);
                assert(groups@[gk as int].files@.take(files@.len() as int) =~= groups@[gk
                    as int].files@);
                assert(done =~= all_group_files(groups@.take(gk + 1)));
            }
            gk = gk + 1;
        }
        proof {
            assert(groups@.take(groups@.len() as int) =~= groups@);
            assert(done =~= afg);
        }
        let ghost keys_all = keyvec@.map_values(|s: String| s@);
        proof {
            assert(keys_all =~= spec_ext_keys(afg));
        }

        // Pass 2: count each key.
        let mut counts: Vec<(String, usize)> = Vec::new();
        let mut i: usize = 0;
        while i < keyvec.len()
            invariant
                i <= keyvec@.len(),
                keys_all == keyvec@.map_values(|s: String| s@),
                forall|a: int, b: int|
                    0 <= a < b < counts@.len() ==> counts@[a].0@ != counts@[b].0@,
                forall|a: int|
                    0 <= a < counts@.len() ==> (#[trigger] counts@[a]).1 == key_count(
                        keys_all.take(i as int),
                        counts@[a].0@,
                    ) && counts@[a].1 >= 1,
                forall|j: int| 0 <= j < i ==> has_key(counts@, #[trigger] keys_all[j]),
            decreases keyvec@.len() - i,
        {
            let ghost counts_before = counts@;
            proof {
                assert(keys_all.take(i + 1).drop_last() =~= keys_all.take(i as int));
                assert(keys_all.take(i + 1).last() == keys_all[i as int]);
                assert(keyvec@[i as int]@ == keys_all[i as int]);
            }
            let mut idx: usize = 0;
            let mut found = false;
            while idx < counts.len() && !found
                invariant
                    idx <= counts@.len(),
                    counts@ == counts_before,
                    i < keyvec@.len(),
                    !found ==> forall|a: int| 0 <= a < idx ==> counts@[a].0@ != keyvec@[i as int]@,
                    found ==> idx < counts@.len() && counts@[idx as int].0@ == keyvec@[i as int]@,
                decreases counts@.len() - idx + (if found {
                    0int
                } else {
                    1int
                }),
            {
                if counts[idx].0.eq(&keyvec[i]) {
                    found = true;
                } else {
                    idx = idx + 1;
                }
            }
            if found {
                proof {
                    lemma_key_count_bounds(keys_all.take(i as int), counts@[idx as int].0@);
                }
                let e = vstd::std_specs::vec::vec_index_mut(&mut counts, idx);
                e.1 = e.1 + 1;
                proof {
                    assert forall|a: int| 0 <= a < counts@.len() implies (
                    #[trigger] counts@[a]).1 == key_count(keys_all.take(i + 1), counts@[a].0@)
                        && counts@[a].1 >= 1 by {
                        if a == idx {
                            assert(counts@[a].0@ == keys_all[i as int]);
                        } else {
                            assert(counts@[a] == counts_before[a]);
                            assert(counts@[a].0@ != keys_all[i as int]);
                        }
                    }
                }
            } else {
                let key = keyvec[i].clone();
                proof {
                    lemma_key_count_bounds(keys_all.take(i as int), keyvec@[i as int]@);
                    if key_count(keys_all.take(i as int), keyvec@[i as int]@) > 0 {
                        let j = choose|j: int|
                            0 <= j < keys_all.take(i as int).len() && keys_all.take(i as int)[j]
                                == keyvec@[i as int]@;
                        assert(keys_all[j] == keyvec@[i as int]@);
                        assert(has_key(counts@, keyvec@[i as int]@));
                        lemma_has_key_iff_index(counts@, keyvec@[i as int]@);
                        let a = choose|a: int|
                            0 <= a < counts@.len() && (#[trigger] counts@[a]).0@ == keyvec@[i
                                as int]@;
                        assert(counts@[a].0@ != keyvec@[i as int]@);
                        assert(false);
                    }
                    assert(key_count(keys_all.take(i as int), keyvec@[i as int]@) == 0);
                }
                counts.push((key, 1));
                proof {
                    assert forall|a: int| 0 <= a < counts@.len() implies (
                    #[trigger] counts@[a]).1 == key_count(keys_all.take(i + 1), counts@[a].0@)
                        && counts@[a].1 >= 1 by {
                        if a < counts@.len() - 1 {
                            assert(counts@[a] == counts_before[a]);
                            assert(counts@[a].0@ != keys_all[i as int]);
                        } else {
                            assert(counts@[a].0@ == keys_all[i as int]);
                            assert(key_count(keys_all.take(i as int), counts@[a].0@) == 0);
                        }
                    }
                }
            }
            proof {
                assert forall|j: int| 0 <= j < i + 1 implies has_key(
                    counts@,
                    #[trigger] keys_all[j],
                ) by {
                    if found {
                        lemma_has_key_update(
                            counts_before,
                            idx as int,
                            counts@[idx as int],
                            keys_all[j],
                        );
                        if j == i {
                            lemma_has_key_iff_index(counts_before, keys_all[j]);
                            assert(counts_before[idx as int].0@ == keys_all[j]);
                        }
                    } else {
                        assert(counts@.drop_last() =~= counts_before);
                        if j == i {
                            assert(counts@.last().0@ == keys_all[j]);
                        }
                    }
                }
            }
            i = i + 1;
        }
        proof {
            assert(keys_all.take(keys_all.len() as int) =~= keys_all);
            assert(keys_all.len() == keyvec@.len());
            assert forall|j: int| 0 <= j < keys_all.len() implies has_key(
                counts@,
                #[trigger] keys_all[j],
            ) by {
                assert(0 <= j < i);
            }
        }
        sort_counts_desc(counts, Ghost(keys_all))
    }

    /// Renders one duplicate group: its header (number, size, wasted
    /// space, digest prefix, member count) followed by one entry per
    /// member, the oldest marked as the canonical copy. The member
    /// timestamps are rendered in local time, so they are existentially
    /// quantified; everything else is pinned exactly.
    pub fn format_duplicate_group(&self, group: &DuplicateGroup, group_number: usize) -> (res:
        String)
        requires
            group.hash@.len() >= 16,
        ensures
            exists|ts: Seq<(Seq<char>, Option<Seq<char>>)>|
                valid_times(group.files@, ts) && res@ == spec_group_text(
                    *group,
                    group_number as int,
                    ts,
                ),
    {
        let mut output = String::new();
        output.append("📋 Group #");
        output.append(text::usize_to_string(group_number).as_str());
        output.append(" (");
        output.append(format_bytes(group.size).as_str());
        output.append(")\n   💰 Wasted space: ");
        output.append(format_bytes(group.wasted_space).as_str());
        output.append("\n   🔐 Hash: ");
        let hash_prefix = group.hash.as_str().substring_char(0, 16);
        output.append(hash_prefix);
        output.append("...\n   📊 ");
        output.append(text::usize_to_string(group.files.len()).as_str());
        output.append(" duplicate files:\n");
        proof {
            assert(hash_prefix@ == group.hash@.take(16));
            assert(output@ =~= spec_group_header(*group, group_number as int));
        }
        let ghost header = output@;
        let ghost mut ts: Seq<(Seq<char>, Option<Seq<char>>)> = Seq::empty();
        let mut fi: usize = 0;
        proof {
            assert(group.files@.take(0) =~= Seq::<FileInfo>::empty());
            assert(ts.take(0) =~= ts);
        }
        while fi < group.files.len()
            invariant
                fi <= group.files@.len(),
                group.hash@.len() >= 16,
                ts.len() == fi,
                forall|i: int|
                    0 <= i < fi ==> (#[trigger] ts[i]).0.len() > 0 && (ts[i].1 is Some
                        <==> group.files@[i].created is Some),
                output@ == header + spec_files_text(group.files@.take(fi as int), ts),
            decreases group.files@.len() - fi,
        {
            let ghost ts_before = ts;
            let f = &group.files[fi];
            if fi == 0 {
                output.append("     📌 ");
            } else {
                output.append("     🔄 ");
            }
            output.append(f.path.as_str());
            output.append("\n        📅 Modified: ");
            let mt = format_system_time(f.modified);
            output.append(mt.as_str());
            output.append("\n");
            let ghost mut cto: Option<Seq<char>> = None;
            match f.created {
                Some(c) => {
                    output.append("        🆕 Created: ");
                    let ct = format_system_time(c);
                    output.append(ct.as_str());
                    output.append("\n");
                    proof {
                        cto = Some(ct@);
                    }
                },
                None => {},
            }
            proof {
                ts = ts.push((mt@, cto));
                assert(group.files@.take(fi + 1).drop_last() =~= group.files@.take(fi as int));
                assert(group.files@.take(fi + 1).last() == group.files@[fi as int]);
                assert(ts.drop_last() =~= ts_before);
                assert(ts.last() == (mt@, cto));
                assert((group.files@.take(fi + 1).len() == 1) == (fi == 0));
                assert(output@ =~= header + spec_files_text(group.files@.take(fi + 1), ts));
            }
            fi = fi + 1;
        }
        proof {
            assert(group.files@.take(group.files@.len() as int) =~= group.files@);
            assert(valid_times(group.files@, ts));
            assert(output@ == spec_group_text(*group, group_number as int, ts));
        }
        output
    }

    /// Renders the whole report: the aggregate figures, then (when there
    /// are duplicates) every group ordered by wasted space, largest
    /// first, numbered from 1, and the recommendations; with no
    /// duplicates, a single clean-system line instead.
    pub fn format_as_text(&self, scan_result: &ScanResult) -> (res: String)
        requires
            forall|k: int|
                0 <= k < scan_result.duplicate_groups@.len() ==> (
                #[trigger] scan_result.duplicate_groups@[k]).hash@.len() >= 16,
        ensures
            scan_result.duplicate_groups@.len() == 0 ==> res@ == spec_report_header(*scan_result)
                + "🎉 No duplicates found! Your file system is clean.\n"@,
            scan_result.duplicate_groups@.len() > 0 ==> exists|
                perm: Seq<usize>,
                times: Seq<Seq<(Seq<char>, Option<Seq<char>>)>>,
                reco: Seq<char>,
            |
                {
                    &&& valid_order(perm, scan_result.duplicate_groups@.len() as int)
                    &&& wasted_sorted(scan_result.duplicate_groups@, perm)
                    &&& valid_section_times(scan_result.duplicate_groups@, perm, times)
                    &&& valid_recommendations(*scan_result, reco)
                    &&& res@ == spec_report_header(*scan_result)
                        + "🔍 DUPLICATE GROUPS (sorted by wasted space)\n──────────────────────────────────────────────────\n"@
                        + spec_groups_section(scan_result.duplicate_groups@, perm, times) + reco
                },
    {
        let mut output = String::new();
        output.append("📊 SCAN RESULTS\n");
        output.append("══════════════════════════════════════════════════\n");
        output.append("📁 Scanned Directory: ");
        output.append(scan_result.scanned_directory.as_str());
        output.append("\n⏱️  Scan Duration: ");
        output.append(text::u64_to_string(scan_result.scan_duration).as_str());
        output.append("ms\n📄 Total Files: ");
        output.append(text::usize_to_string(scan_result.total_files).as_str());
        output.append("\n🔄 Duplicate Files: ");
        output.append(text::usize_to_string(scan_result.total_duplicates).as_str());
        output.append("\n📦 Duplicate Groups: ");
        output.append(text::usize_to_string(scan_result.duplicate_groups.len()).as_str());
        output.append("\n💾 Wasted Space: ");
        output.append(format_bytes(scan_result.total_wasted_space).as_str());
        output.append("\n\n");
        proof {
            assert(output@ =~= spec_report_header(*scan_result));
        }
        let ghost header = output@;
        if scan_result.duplicate_groups.len() == 0 {
            output.append("🎉 No duplicates found! Your file system is clean.\n");
            return output;
        }
        output.append("🔍 DUPLICATE GROUPS (sorted by wasted space)\n──────────────────────────────────────────────────\n");
        let ghost header2 = output@;
        let perm = sort_indices_by_wasted(&scan_result.duplicate_groups);
        let ghost mut times: Seq<Seq<(Seq<char>, Option<Seq<char>>)>> = Seq::empty();
        let mut k: usize = 0;
        proof {
            assert(perm@.take(0) =~= Seq::<usize>::empty());
        }
        while k < perm.len()
            invariant
                k <= perm@.len(),
                valid_order(perm@, scan_result.duplicate_groups@.len() as int),
                wasted_sorted(scan_result.duplicate_groups@, perm@),
                forall|j: int|
                    0 <= j < scan_result.duplicate_groups@.len() ==> (
                    #[trigger] scan_result.duplicate_groups@[j]).hash@.len() >= 16,
                times.len() == k,
                forall|j: int|
                    0 <= j < k ==> valid_times(
                        scan_result.duplicate_groups@[(#[trigger] perm@[j]) as int].files@,
                        times[j],
                    ),
                output@ == header2 + spec_groups_section(
                    scan_result.duplicate_groups@,
                    perm@.take(k as int),
                    times,
                ),
            decreases perm@.len() - k,
        {
            let ghost times_before = times;
            let idx = perm[k];
            let g = &scan_result.duplicate_groups[idx];
            let block = self.format_duplicate_group(g, k + 1);
            output.append(block.as_str());
            output.append("\n");
            proof {
                let ts = choose|ts: Seq<(Seq<char>, Option<Seq<char>>)>|
                    valid_times(g.files@, ts) && block@ == spec_group_text(*g, (k + 1) as int, ts);
                times = times.push(ts);
                assert(perm@.take(k + 1).drop_last() =~= perm@.take(k as int));
                assert(perm@.take(k + 1).last() == perm@[k as int]);
                assert(times.drop_last() =~= times_before);
                assert(perm@.take(k + 1).len() as int == k + 1);
                assert(output@ =~= header2 + spec_groups_section(
                    scan_result.duplicate_groups@,
                    perm@.take(k + 1),
                    times,
                ));
            }
            k = k + 1;
        }
        let reco = self.generate_recommendations(scan_result);
        output.append(reco.as_str());
        proof {
            assert(perm@.take(perm@.len() as int) =~= perm@);
            assert(valid_section_times(scan_result.duplicate_groups@, perm@, times));
            assert(valid_recommendations(*scan_result, reco@));
        }
        output
    }

    /// Renders the recommendation block: a clean-system message when
    /// nothing is wasted; otherwise the impact severity chosen by the
    /// wasted-space thresholds, the cleanup strategy, and the top file
    /// extensions among the duplicates.
    pub fn generate_recommendations(&self, scan_result: &ScanResult) -> (res: String)
        ensures
            valid_recommendations(*scan_result, res@),
    {
        let mut rec = String::new();
        rec.append("💡 RECOMMENDATIONS\n");
        rec.append("──────────────────────────────────────────────────\n");
        if scan_result.total_wasted_space == 0 {
            rec.append(
                "✨ Your file system is perfectly organized! No cleanup needed.\n",
            );
            proof {
                assert(rec@ =~= spec_reco_clean());
            }
            return rec;
        }
        if scan_result.total_wasted_space > 1073741824 {
            rec.append("🚨 High Impact: You can save ");
            rec.append(
                text::two_decimal_string(scan_result.total_wasted_space, 1073741824).as_str(),
            );
            rec.append(" GB by removing duplicates!\n");
        } else if scan_result.total_wasted_space > 104857600 {
            rec.append(
                "⚠️  Medium Impact: Consider cleaning up duplicate files.\n",
            );
        } else {
            rec.append(
                "ℹ️  Low Impact: Duplicates present but space savings are minimal.\n",
            );
        }
        rec.append(
            "\n🛠️  Cleanup Strategy:\n   1. Review each group carefully before deletion\n   2. Keep the oldest file (marked with 📌) as the original\n   3. Consider using hard links instead of deletion for safety\n   4. Always backup important data before cleanup\n",
        );
        proof {
            assert(rec@ =~= spec_reco_prefix(*scan_result));
        }
        let ghost prefix = rec@;
        let exts = self.analyze_file_extensions(scan_result);
        if exts.len() > 0 {
            rec.append("\n📈 File Types Analysis:\n");
            let ghost section_start = rec@;
            let limit = if exts.len() < 5 {
                exts.len()
            } else {
                5
            };
            let mut i: usize = 0;
            proof {
                assert(exts@.take(0) =~= Seq::<(String, usize)>::empty());
            }
            while i < limit
                invariant
                    i <= limit,
                    limit <= exts@.len(),
                    rec@ == section_start + spec_ext_lines(exts@.take(i as int)),
                decreases limit - i,
            {
                rec.append("   ");
                rec.append(exts[i].0.as_str());
                rec.append(" files: ");
                rec.append(text::usize_to_string(exts[i].1).as_str());
                rec.append("\n");
                proof {
                    assert(exts@.take(i + 1).drop_last() =~= exts@.take(i as int));
                    assert(exts@.take(i + 1).last() == exts@[i as int]);
                    assert(rec@ =~= section_start + spec_ext_lines(exts@.take(i + 1)));
                }
                i = i + 1;
            }
            proof {
                assert(rec@ =~= spec_reco_text(*scan_result, exts@));
            }
        } else {
            proof {
                assert(rec@ =~= spec_reco_text(*scan_result, exts@));
            }
        }
        proof {
            assert(valid_ext_analysis(*scan_result, exts@));
        }
        rec
    }
}

/// Orders extension counts by frequency, most frequent first, keeping the
/// keys distinct, each count correct and every key present.
#[verifier::rlimit(80)]
fn sort_counts_desc(counts: Vec<(String, usize)>, Ghost(keys): Ghost<Seq<Seq<char>>>) -> (out:
    Vec<(String, usize)>)
    requires
        forall|a: int, b: int| 0 <= a < b < counts@.len() ==> counts@[a].0@ != counts@[b].0@,
        forall|a: int|
            0 <= a < counts@.len() ==> (#[trigger] counts@[a]).1 == key_count(
                keys,
                counts@[a].0@,
            ) && counts@[a].1 >= 1,
        forall|j: int| 0 <= j < keys.len() ==> has_key(counts@, #[trigger] keys[j]),
    ensures
        forall|a: int, b: int| 0 <= a < b < out@.len() ==> out@[a].1 >= out@[b].1,
        forall|a: int, b: int| 0 <= a < b < out@.len() ==> out@[a].0@ != out@[b].0@,
        forall|a: int|
            0 <= a < out@.len() ==> (#[trigger] out@[a]).1 == key_count(keys, out@[a].0@)
                && out@[a].1 >= 1,
        forall|j: int| 0 <= j < keys.len() ==> has_key(out@, #[trigger] keys[j]),
{
    let ghost keys_all = keys;
    let mut counts = counts;
    let mut out: Vec<(String, usize)> = Vec::new();
    while counts.len() > 0
        invariant
            forall|a: int, b: int| 0 <= a < b < out@.len() ==> out@[a].1 >= out@[b].1,
            forall|a: int, b: int| 0 <= a < b < out@.len() ==> out@[a].0@ != out@[b].0@,
            forall|a: int, b: int|
                0 <= a < b < counts@.len() ==> counts@[a].0@ != counts@[b].0@,
            forall|a: int, b: int|
                0 <= a < out@.len() && 0 <= b < counts@.len() ==> out@[a].0@ != counts@[b].0@,
            forall|a: int|
                0 <= a < out@.len() ==> (#[trigger] out@[a]).1 == key_count(
                    keys_all,
                    out@[a].0@,
                ) && out@[a].1 >= 1,
            forall|a: int|
                0 <= a < counts@.len() ==> (#[trigger] counts@[a]).1 == key_count(
                    keys_all,
                    counts@[a].0@,
                ) && counts@[a].1 >= 1,
            forall|j: int|
                0 <= j < keys_all.len() ==> has_key(out@, #[trigger] keys_all[j]) || has_key(
                    counts@,
                    keys_all[j],
                ),
        decreases counts.len(),
    {
        let ghost counts_rem = counts@;
        let e = counts.remove(0);
        proof {
            assert(counts_rem.drop_first() =~= counts@);
            assert(forall|b: int|
                0 <= b < counts@.len() ==> (#[trigger] counts@[b]) == counts_rem[b + 1]);
        }
        let mut q: usize = 0;
        while q < out.len() && out[q].1 >= e.1
            invariant
                q <= out@.len(),
                forall|a: int| 0 <= a < q ==> (#[trigger] out@[a]).1 >= e.1,
            decreases out@.len() - q + (if q < out@.len() && out@[q as int].1 >= e.1 {
                1int
            } else {
                0int
            }),
        {
            q = q + 1;
        }
        let ghost out_before = out@;
        proof {
            out_before.insert_ensures(q as int, e);
        }
        out.insert(q, e);
        proof {
            assert forall|a: int, b: int| 0 <= a < b < out@.len() implies out@[a].1
                >= out@[b].1 by {
                assert(out@[a] == if a < q {
                    out_before[a]
                } else if a == q {
                    e
                } else {
                    out_before[a - 1]
                });
                assert(out@[b] == if b < q {
                    out_before[b]
                } else if b == q {
                    e
                } else {
                    out_before[b - 1]
                });
            }
            assert forall|a: int, b: int| 0 <= a < b < out@.len() implies out@[a].0@
                != out@[b].0@ by {
                assert(out@[a] == if a < q {
                    out_before[a]
                } else if a == q {
                    e
                } else {
                    out_before[a - 1]
                });
                assert(out@[b] == if b < q {
                    out_before[b]
                } else if b == q {
                    e
                } else {
                    out_before[b - 1]
                });
            }
            assert forall|a: int| 0 <= a < out@.len() implies (#[trigger] out@[a]).1
                == key_count(keys_all, out@[a].0@) && out@[a].1 >= 1 by {
                assert(out@[a] == if a < q {
                    out_before[a]
                } else if a == q {
                    e
                } else {
                    out_before[a - 1]
                });
            }
            assert forall|a: int, b: int|
                0 <= a < out@.len() && 0 <= b < counts@.len() implies out@[a].0@
                != counts@[b].0@ by {
                assert(out@[a] == if a < q {
                    out_before[a]
                } else if a == q {
                    e
                } else {
                    out_before[a - 1]
                });
                assert(counts@[b] == counts_rem[b + 1]);
            }
            assert forall|j: int| 0 <= j < keys_all.len() implies has_key(
                out@,
                #[trigger] keys_all[j],
            ) || has_key(counts@, keys_all[j]) by {
                let key = keys_all[j];
                lemma_has_key_iff_index(out@, key);
                lemma_has_key_iff_index(counts@, key);
                if has_key(out_before, key) {
                    lemma_has_key_iff_index(out_before, key);
                    let a = choose|a: int|
                        0 <= a < out_before.len() && (#[trigger] out_before[a]).0@ == key;
                    if a < q {
                        assert(out@[a].0@ == key);
                    } else {
                        assert(out@[a + 1].0@ == key);
                    }
                } else {
                    assert(has_key(counts_rem, key));
                    lemma_has_key_iff_index(counts_rem, key);
                    let a = choose|a: int|
                        0 <= a < counts_rem.len() && (#[trigger] counts_rem[a]).0@ == key;
                    if a == 0 {
                        assert(out@[q as int].0@ == key);
                    } else {
                        assert(counts@[a - 1].0@ == key);
                    }
                }
            }
        }
    }
    out
}



/// Members of a report ordered by wasted space, largest first, described
/// by a permutation of group indices.
pub open spec fn valid_order(perm: Seq<usize>, n: int) -> bool {
    &&& perm.len() == n
    &&& forall|k: int| 0 <= k < perm.len() ==> (#[trigger] perm[k]) < n
    &&& forall|k1: int, k2: int| 0 <= k1 < k2 < perm.len() ==> perm[k1] != perm[k2]
}

/// Whether the permutation lists the groups by wasted space, largest
/// first.
pub open spec fn wasted_sorted(gs: Seq<DuplicateGroup>, perm: Seq<usize>) -> bool {
    forall|k1: int, k2: int|
        0 <= k1 < k2 < perm.len() ==> gs[perm[k1] as int].wasted_space >= gs[perm[k2]
            as int].wasted_space
}

/// Orders the group indices by wasted space, largest first.
fn sort_indices_by_wasted(groups: &Vec<DuplicateGroup>) -> (perm: Vec<usize>)
    ensures
        valid_order(perm@, groups@.len() as int),
        wasted_sorted(groups@, perm@),
{
    let mut perm: Vec<usize> = Vec::new();
    let mut i: usize = 0;
    while i < groups.len()
        invariant
            i <= groups@.len(),
            perm@.len() == i,
            forall|k: int| 0 <= k < perm@.len() ==> (#[trigger] perm@[k]) < i,
            forall|k1: int, k2: int| 0 <= k1 < k2 < perm@.len() ==> perm@[k1] != perm@[k2],
            wasted_sorted(groups@, perm@),
        decreases groups@.len() - i,
    {
        let w = groups[i].wasted_space;
        let mut q: usize = 0;
        while q < perm.len() && groups[perm[q]].wasted_space >= w
            invariant
                q <= perm@.len(),
                forall|k: int| 0 <= k < perm@.len() ==> (#[trigger] perm@[k]) < i < groups@.len(),
                forall|k: int|
                    0 <= k < q ==> groups@[(#[trigger] perm@[k]) as int].wasted_space >= w,
            decreases perm@.len() - q + (if q < perm@.len() && groups@[perm@[q as int]
                as int].wasted_space >= w {
                1int
            } else {
                0int
            }),
        {
            q = q + 1;
        }
        let ghost perm_before = perm@;
        proof {
            perm_before.insert_ensures(q as int, i);
        }
        perm.insert(q, i);
        proof {
            assert forall|k1: int, k2: int| 0 <= k1 < k2 < perm@.len() implies perm@[k1]
                != perm@[k2] by {
                assert(perm@[k1] == if k1 < q {
                    perm_before[k1]
                } else if k1 == q {
                    i
                } else {
                    perm_before[k1 - 1]
                });
                assert(perm@[k2] == if k2 < q {
                    perm_before[k2]
                } else if k2 == q {
                    i
                } else {
                    perm_before[k2 - 1]
                });
            }
            assert forall|k1: int, k2: int| 0 <= k1 < k2 < perm@.len() implies groups@[perm@[k1]
                as int].wasted_space >= groups@[perm@[k2] as int].wasted_space by {
                assert(perm@[k1] == if k1 < q {
                    perm_before[k1]
                } else if k1 == q {
                    i
                } else {
                    perm_before[k1 - 1]
                });
                assert(perm@[k2] == if k2 < q {
                    perm_before[k2]
                } else if k2 == q {
                    i
                } else {
                    perm_before[k2 - 1]
                });
            }
        }
        i = i + 1;
    }
    perm
}

/// The fixed opening of one group's block in the report: its number, size,
/// wasted space, the first 16 characters of its digest, and its member
/// count.
pub open spec fn spec_group_header(g: DuplicateGroup, number: int) -> Seq<char> {
    "📋 Group #"@ + text::dec_str(number as nat) + " ("@ + spec_format_bytes(
        g.size as nat,
    ) + ")\n   💰 Wasted space: "@ + spec_format_bytes(g.wasted_space as nat)
        + "\n   🔐 Hash: "@ + g.hash@.take(16) + "...\n   📊 "@ + text::dec_str(
        g.files@.len(),
    ) + " duplicate files:\n"@
}

/// One member's lines in a group block: its marker (the first, oldest
/// member is the canonical copy), its path, its rendered modification
/// time, and its rendered creation time where it has one.
pub open spec fn spec_file_entry(
    f: FileInfo,
    first: bool,
    mtime: Seq<char>,
    ctime: Option<Seq<char>>,
) -> Seq<char> {
    (if first {
        "     📌 "@
    } else {
        "     🔄 "@
    }) + f.path@ + "\n        📅 Modified: "@ + mtime + "\n"@ + (match ctime {
        Some(c) => "        🆕 Created: "@ + c + "\n"@,
        None => Seq::<char>::empty(),
    })
}

/// The member lines of a group block, in member order.
pub open spec fn spec_files_text(
    files: Seq<FileInfo>,
    times: Seq<(Seq<char>, Option<Seq<char>>)>,
) -> Seq<char>
    decreases files.len(),
{
    if files.len() == 0 {
        Seq::empty()
    } else {
        spec_files_text(files.drop_last(), times.drop_last()) + spec_file_entry(
            files.last(),
            files.len() == 1,
            times.last().0,
            times.last().1,
        )
    }
}

/// The rendered timestamps belonging to a member list: one per member,
/// never empty, with a creation rendering exactly for members that record
/// a creation time.
pub open spec fn valid_times(files: Seq<FileInfo>, times: Seq<(Seq<char>, Option<Seq<char>>)>) -> bool {
    &&& times.len() == files.len()
    &&& forall|i: int|
        0 <= i < times.len() ==> (#[trigger] times[i]).0.len() > 0 && (times[i].1 is Some
            <==> files[i].created is Some)
}

/// One group's whole block: header then member lines.
pub open spec fn spec_group_text(
    g: DuplicateGroup,
    number: int,
    times: Seq<(Seq<char>, Option<Seq<char>>)>,
) -> Seq<char> {
    spec_group_header(g, number) + spec_files_text(g.files@, times)
}

/// The group blocks of the report, in permutation order, numbered from 1,
/// each followed by a blank line.
pub open spec fn spec_groups_section(
    gs: Seq<DuplicateGroup>,
    perm: Seq<usize>,
    times: Seq<Seq<(Seq<char>, Option<Seq<char>>)>>,
) -> Seq<char>
    decreases perm.len(),
{
    if perm.len() == 0 {
        Seq::empty()
    } else {
        spec_groups_section(gs, perm.drop_last(), times.drop_last()) + spec_group_text(
            gs[perm.last() as int],
            perm.len() as int,
            times.last(),
        ) + "\n"@
    }
}

/// Timestamp renderings for a whole section: one list per listed group.
pub open spec fn valid_section_times(
    gs: Seq<DuplicateGroup>,
    perm: Seq<usize>,
    times: Seq<Seq<(Seq<char>, Option<Seq<char>>)>>,
) -> bool {
    &&& times.len() == perm.len()
    &&& forall|k: int|
        0 <= k < perm.len() ==> valid_times(gs[(#[trigger] perm[k]) as int].files@, times[k])
}

/// The extension statistics a recommendation block may cite: exactly what
/// `analyze_file_extensions` guarantees for this result.
pub open spec fn valid_ext_analysis(r: ScanResult, exts: Seq<(String, usize)>) -> bool {
    let keys = spec_ext_keys(all_group_files(r.duplicate_groups@));
    &&& forall|a: int, b: int| 0 <= a < b < exts.len() ==> exts[a].0@ != exts[b].0@
    &&& forall|a: int, b: int| 0 <= a < b < exts.len() ==> exts[a].1 >= exts[b].1
    &&& forall|a: int|
        0 <= a < exts.len() ==> (#[trigger] exts[a]).1 == key_count(keys, exts[a].0@)
            && exts[a].1 >= 1
    &&& forall|j: int| 0 <= j < keys.len() ==> has_key(exts, #[trigger] keys[j])
}

/// The opening lines of the report: the banner and the aggregate figures.
pub open spec fn spec_report_header(r: ScanResult) -> Seq<char> {
    "📊 SCAN RESULTS\n"@ + "══════════════════════════════════════════════════\n"@
        + "📁 Scanned Directory: "@ + r.scanned_directory@
        + "\n⏱️  Scan Duration: "@ + text::dec_str(r.scan_duration as nat)
        + "ms\n📄 Total Files: "@ + text::dec_str(r.total_files as nat)
        + "\n🔄 Duplicate Files: "@ + text::dec_str(r.total_duplicates as nat)
        + "\n📦 Duplicate Groups: "@ + text::dec_str(r.duplicate_groups@.len())
        + "\n💾 Wasted Space: "@ + spec_format_bytes(r.total_wasted_space as nat)
        + "\n\n"@
}

/// The recommendation block when nothing is wasted.
pub open spec fn spec_reco_clean() -> Seq<char> {
    "💡 RECOMMENDATIONS\n"@ + "──────────────────────────────────────────────────\n"@
        + "✨ Your file system is perfectly organized! No cleanup needed.\n"@
}

/// The impact line of the recommendations: which of the three severity
/// messages is printed, decided by the total wasted space.
pub open spec fn spec_impact_line(r: ScanResult) -> Seq<char> {
    if r.total_wasted_space > 1073741824 {
        "🚨 High Impact: You can save "@ + text::spec_two_decimal(
            r.total_wasted_space as int,
            1073741824,
        ) + " GB by removing duplicates!\n"@
    } else if r.total_wasted_space > 104857600 {
        "⚠️  Medium Impact: Consider cleaning up duplicate files.\n"@
    } else {
        "ℹ️  Low Impact: Duplicates present but space savings are minimal.\n"@
    }
}

/// Everything of the recommendation block before the extension analysis.
pub open spec fn spec_reco_prefix(r: ScanResult) -> Seq<char> {
    "💡 RECOMMENDATIONS\n"@ + "──────────────────────────────────────────────────\n"@ + spec_impact_line(r)
        + "\n🛠️  Cleanup Strategy:\n   1. Review each group carefully before deletion\n   2. Keep the oldest file (marked with 📌) as the original\n   3. Consider using hard links instead of deletion for safety\n   4. Always backup important data before cleanup\n"@
}

/// The lines of the extension analysis, one per cited extension.
pub open spec fn spec_ext_lines(exts: Seq<(String, usize)>) -> Seq<char>
    decreases exts.len(),
{
    if exts.len() == 0 {
        Seq::empty()
    } else {
        spec_ext_lines(exts.drop_last()) + "   "@ + exts.last().0@ + " files: "@ + text::dec_str(
            exts.last().1 as nat,
        ) + "\n"@
    }
}

/// The whole recommendation block when something is wasted, citing up to
/// five extensions.
pub open spec fn spec_reco_text(r: ScanResult, exts: Seq<(String, usize)>) -> Seq<char> {
    spec_reco_prefix(r) + (if exts.len() == 0 {
        Seq::<char>::empty()
    } else {
        "\n📈 File Types Analysis:\n"@ + spec_ext_lines(
            exts.take(if exts.len() < 5 {
                exts.len() as int
            } else {
                5
            }),
        )
    })
}

/// A valid recommendation block for this result: the clean message when
/// nothing is wasted, otherwise the full block over some valid extension
/// analysis.
pub open spec fn valid_recommendations(r: ScanResult, reco: Seq<char>) -> bool {
    if r.total_wasted_space == 0 {
        reco == spec_reco_clean()
    } else {
        exists|exts: Seq<(String, usize)>|
            valid_ext_analysis(r, exts) && reco == spec_reco_text(r, exts)
    }
}

} // verus!
