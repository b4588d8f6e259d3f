//! The retention scheduler's decisions, and the archive plan.
//!
//! Each cycle looks at one fresh [`BackupState`] and decides: a new backup
//! is made when the sources changed after the newest backup; the oldest
//! backup is evicted when the count has reached the retention limit. The
//! count used is the one from the same evaluation, taken before the new
//! backup exists, so after a growth cycle the total may stay one above the
//! limit for one cycle; that lag is the behaviour this module specifies,
//! not a correction it makes. The loop itself — filesystem work and
//! sleeping — is the caller's; everything decided here is a function of the
//! evaluated state.

use vstd::prelude::*;
use vstd::string::{StrSliceExecFns, StringExecFns};
use crate::backup_types::BackupState;
use crate::paths::{is_under, path_is_under, spec_join, join_path};

verus! {

/// What a backup path names on disk, by its name alone: a directory when it
/// has no extension, an archive when the extension is `zip`; anything else
/// is left untouched.
#[derive(Clone, Copy, Debug, PartialEq, Eq, Structural)]
pub enum RemovalKind {
    Directory,
    ZipFile,
    Untouched,
}

/// The last index at which `c` occurs in `p`, or `-1`.
pub open spec fn last_index_of(p: Seq<char>, c: char) -> int
    decreases p.len(),
{
    if p.len() == 0 {
        -1
    } else if p[p.len() - 1] == c {
        p.len() - 1
    } else {
        last_index_of(p.drop_last(), c)
    }
}

/// The extension of the final path component, as `std` reads it: the part
/// after the last dot, none when there is no dot or only a leading one.
pub open spec fn extension_of(p: Seq<char>) -> Option<Seq<char>> {
    let base = p.subrange(last_index_of(p, '/') + 1, p.len() as int);
    let d = last_index_of(base, '.');
    if d <= 0 {
        None
    } else {
        Some(base.subrange(d + 1, base.len() as int))
    }
}

/// How an evicted backup is removed, read off its path.
pub open spec fn spec_removal_kind(p: Seq<char>) -> RemovalKind {
    match extension_of(p) {
        None => RemovalKind::Directory,
        Some(e) => if e == seq!['z', 'i', 'p'] {
            RemovalKind::ZipFile
        } else {
            RemovalKind::Untouched
        },
    }
}

/// The last index at which `c` occurs in `s`.
fn last_index_exec(s: &str, c: char) -> (r: Option<usize>)
    ensures
        match r {
            Some(j) => j == last_index_of(s@, c) && j < s@.len(),
            None => last_index_of(s@, c) == -1,
        },
{
    let len = s.unicode_len();
    proof {
        assert(s@.take(len as int) =~= s@);
    }
    let mut j: usize = len;
    while j > 0
        invariant
            j <= len,
            len == s@.len(),
            last_index_of(s@.take(j as int), c) == last_index_of(s@, c),
        decreases j,
    {
        let jj = j - 1;
        proof {
            assert(s@.take(j as int).drop_last() =~= s@.take(jj as int));
            assert(s@.take(j as int)[j - 1] == s@[jj as int]);
        }
        if s.get_char(jj) == c {
            return Some(jj);
        }
        j = jj;
    }
    proof {
        assert(s@.take(0) =~= Seq::<char>::empty());
    }
    None
}

/// Reads how a backup at `path` would be removed: a path without an
/// extension names a backup directory, a `.zip` path names an archive file,
/// and any other path is not touched.
pub fn removal_kind(path: &String) -> (r: RemovalKind)
    ensures
        r == spec_removal_kind(path@),
{
    let len = path.as_str().unicode_len();
    let base_start: usize = match last_index_exec(path.as_str(), '/') {
        Some(j) => j + 1,
        None => 0,
    };
    let base = path.as_str().substring_char(base_start, len);
    proof {
        assert(base@ =~= path@.subrange(last_index_of(path@, '/') + 1, path@.len() as int));
    }
    match last_index_exec(base, '.') {
        None => RemovalKind::Directory,
        Some(0) => RemovalKind::Directory,
        Some(d) => {
            let blen = base.unicode_len();
            let ghost ext = base@.subrange(d + 1, base@.len() as int);
            if blen - d - 1 == 3 && base.get_char(d + 1) == 'z' && base.get_char(d + 2) == 'i'
                && base.get_char(d + 3) == 'p' {
                proof {
                    assert(ext =~= seq!['z', 'i', 'p']);
                }
                RemovalKind::ZipFile
            } else {
                proof {
                    if ext =~= seq!['z', 'i', 'p'] {
                        assert(base@[d + 1] == 'z' && base@[d + 2] == 'i' && base@[d + 3] == 'p');
                        assert(false);
                    }
                }
                RemovalKind::Untouched
            }
        },
    }
}

/// What one cycle does: whether a backup is made, which path is evicted,
/// and how long to sleep afterwards, in seconds.
pub struct CyclePlan {
    pub make_backup: bool,
    pub evict: Option<String>,
    pub sleep_seconds: u64,
}

/// Decides one cycle from a fresh evaluation: a backup is due when the
/// sources changed after the newest backup; the oldest backup leaves when
/// the count — counted before any new backup of this same cycle — has
/// reached the retention limit; the sleep is the configured interval.
pub fn plan_cycle(state: &BackupState, retention_count: u64, interval: i64) -> (r: CyclePlan)
    requires
        state.wf(),
        retention_count >= 1,
        1 <= interval <= 1_000_000_000,
    ensures
        r.make_backup == (state.last_modified_time > state.latest_backup_time),
        state.backup_count >= retention_count ==> r.evict.deep_view()
            == state.oldest_backup_path.deep_view() && r.evict is Some,
        state.backup_count < retention_count ==> r.evict is None,
        r.sleep_seconds == interval * 60,
{
    let make_backup = state.last_modified_time > state.latest_backup_time;
    let evict: Option<String> = if state.backup_count >= retention_count {
        match &state.oldest_backup_path {
            Some(p) => Some(p.clone()),
            None => None,
        }
    } else {
        None
    };
    CyclePlan { make_backup, evict, sleep_seconds: (interval as u64) * 60 }
}

/// The minutes from `past` to `now`, rounded toward zero.
pub open spec fn minutes_since(now: int, past: int) -> int {
    let d = now - past;
    if d >= 0 {
        d / 60
    } else {
        -((-d) / 60)
    }
}

/// How long to wait before the first cycle: when the newest backup is
/// younger than one interval, the remainder of that interval, so that a
/// restart does not at once force a backup; otherwise nothing.
pub fn startup_sleep_seconds(now: i64, latest_backup_time: i64, interval: i64) -> (r: u64)
    requires
        1 <= interval <= 1_000_000_000,
        -4_000_000_000_000 <= now <= 4_000_000_000_000,
        -4_000_000_000_000 <= latest_backup_time <= 4_000_000_000_000,
    ensures
        r == if minutes_since(now as int, latest_backup_time as int) < interval {
            (interval - minutes_since(now as int, latest_backup_time as int)) * 60
        } else {
            0
        },
{
    let d: i64 = now - latest_backup_time;
    let elapsed: i64 = if d >= 0 {
        ((d as u64) / 60) as i64
    } else {
        0 - (((0 - d) as u64 / 60) as i64)
    };
    if elapsed < interval {
        ((interval - elapsed) as u64) * 60
    } else {
        0
    }
}

/// A name that cannot be read as a path under the target's root; the backup
/// of such a file is refused as a whole.
#[derive(Clone, Copy, Debug, PartialEq, Eq, Structural)]
pub struct PathError;

/// One file of a backup plan: the source path, its path relative to the
/// root, and its destination inside the new backup directory.
pub struct CopyStep {
    pub source: String,
    pub relative: String,
    pub destination: String,
}

/// Lays out a new backup: for every enumerated file, where it goes. Each
/// file's path relative to the root is preserved under
/// `<save_dir>/<backup_name>/`; an archive stores the relative path itself.
/// A file that does not lie strictly under the root refuses the whole plan.
pub fn plan_backup(files: &Vec<String>, root: &String, save_dir: &String, backup_name: &String) -> (r:
    Result<Vec<CopyStep>, PathError>)
    ensures
        match r {
            Ok(steps) => {
                &&& steps@.len() == files@.len()
                &&& forall|i: int|
                    0 <= i < files@.len() ==> (#[trigger] steps@[i]).source@
                        == files.deep_view()[i] && files.deep_view()[i] == spec_join(
                        root@,
                        steps@[i].relative@,
                    ) && steps@[i].destination@ == spec_join(
                        spec_join(save_dir@, backup_name@),
                        steps@[i].relative@,
                    )
            },
            Err(_) => exists|i: int|
                0 <= i < files.deep_view().len() && !(is_under(
                    #[trigger] files.deep_view()[i],
                    root@,
                ) && files.deep_view()[i].len() > root@.len()),
        },
{
    let root_len = root.as_str().unicode_len();
    let dest_dir = join_path(save_dir.as_str(), backup_name.as_str());
    let mut steps: Vec<CopyStep> = Vec::new();
    let mut i: usize = 0;
    while i < files.len()
        invariant
            i <= files@.len(),
            root_len == root@.len(),
            dest_dir@ == spec_join(save_dir@, backup_name@),
            steps@.len() == i,
            forall|k: int|
                0 <= k < i ==> (#[trigger] steps@[k]).source@ == files.deep_view()[k]
                    && files.deep_view()[k] == spec_join(root@, steps@[k].relative@)
                    && steps@[k].destination@ == spec_join(
                    spec_join(save_dir@, backup_name@),
                    steps@[k].relative@,
                ),
        decreases files@.len() - i,
    {
        let f = &files[i];
        let flen = f.as_str().unicode_len();
        if !(flen > root_len && path_is_under(f, root)) {
            proof {
                assert(!(is_under(files.deep_view()[i as int], root@) && files.deep_view()[
                    i as int
                ].len() > root@.len()));
            }
            return Err(PathError);
        }
        let rel = f.as_str().substring_char(root_len + 1, flen);
        proof {
            assert(f@ =~= spec_join(root@, rel@));
        }
        let destination = join_path(dest_dir.as_str(), rel);
        steps.push(
            CopyStep { source: f.clone(), relative: String::from_str(rel), destination },
        );
        i = i + 1;
    }
    Ok(steps)
}

} // verus!
