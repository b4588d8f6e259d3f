//! The backup-state evaluator.
//!
//! One evaluation looks at the modification times of the target's source
//! files and at the names in its save directory, and reports a
//! [`BackupState`]: the newest source modification time, and over the
//! entries whose names decode as backups of the target, their number, the
//! newest decoded time and the entry with the oldest one. Entries that do
//! not decode are not backups of this target and are skipped, never an
//! error. The caller reads the directory; everything here is a function of
//! the listing it hands over.

use vstd::prelude::*;
use crate::backup_types::BackupState;
use crate::codec::{decoded_unix, get_backup_time};
use crate::paths::{join_path, spec_join};

verus! {

/// The running facts over the save-directory entries seen so far: the newest
/// decoded time, the oldest decoded time with its entry, and how many
/// entries decoded.
pub struct EvalModel {
    pub latest: Option<int>,
    pub oldest: Option<(int, Seq<char>)>,
    pub count: int,
}

impl EvalModel {
    /// Before any entry is seen.
    pub open spec fn init() -> EvalModel {
        EvalModel { latest: None, oldest: None, count: 0 }
    }
}

/// How one save-directory entry changes the evaluation: an entry that does
/// not decode changes nothing; one that does raises the count, the newest
/// time, and takes over as oldest when strictly older than the oldest so
/// far.
pub open spec fn eval_step(m: EvalModel, name: Seq<char>, entry: Seq<char>) -> EvalModel {
    match decoded_unix(name, entry) {
        None => m,
        Some(u) => EvalModel {
            latest: match m.latest {
                None => Some(u),
                Some(l) => if u > l {
                    Some(u)
                } else {
                    Some(l)
                },
            },
            oldest: match m.oldest {
                None => Some((u, entry)),
                Some((t, e)) => if u < t {
                    Some((u, entry))
                } else {
                    Some((t, e))
                },
            },
            count: m.count + 1,
        },
    }
}

/// The save-directory entries folded in order, starting at index `i`.
pub open spec fn eval_fold(m: EvalModel, name: Seq<char>, entries: Seq<Seq<char>>, i: int) -> EvalModel
    decreases entries.len() - i,
{
    if i < 0 || i >= entries.len() {
        m
    } else {
        eval_fold(eval_step(m, name, entries[i]), name, entries, i + 1)
    }
}

/// The evaluation of a whole save-directory listing.
pub open spec fn spec_eval(name: Seq<char>, entries: Seq<Seq<char>>) -> EvalModel {
    eval_fold(EvalModel::init(), name, entries, 0)
}

/// The newest of the modification times, or zero (the epoch) when there are
/// none, folded from index `i` with `acc` as the newest so far.
pub open spec fn max_time_from(acc: int, ts: Seq<i64>, i: int) -> int
    decreases ts.len() - i,
{
    if i < 0 || i >= ts.len() {
        acc
    } else {
        max_time_from(
            if ts[i] > acc {
                ts[i] as int
            } else {
                acc
            },
            ts,
            i + 1,
        )
    }
}

/// The newest of the modification times, or zero (the epoch) when there are
/// none.
pub open spec fn spec_max_time(ts: Seq<i64>) -> int {
    max_time_from(0, ts, 0)
}

/// The whole contract of one evaluation: what a reported [`BackupState`]
/// says about the listing and modification times it was computed from.
pub open spec fn evaluates_to(
    r: BackupState,
    name: Seq<char>,
    save_dir: Seq<char>,
    entries: Seq<Seq<char>>,
    mtimes: Seq<i64>,
) -> bool {
    let m = spec_eval(name, entries);
    &&& r.last_modified_time == spec_max_time(mtimes)
    &&& r.backup_count == m.count
    &&& r.latest_backup_time == match m.latest {
        Some(u) => u,
        None => 0,
    }
    &&& match (r.oldest_backup_path, m.oldest) {
        (None, None) => true,
        (Some(p), Some((t, e))) => p@ == spec_join(save_dir, e),
        _ => false,
    }
}

/// Evaluates one target from plain values: `mtimes` are the modification
/// times of its enumerated source files, `entries` the names in its save
/// directory. Purely a function of its arguments; reading the filesystem is
/// the caller's part.
pub fn get_backup_state(name: &String, save_dir: &String, entries: &Vec<String>, mtimes: &Vec<
    i64,
>) -> (r: BackupState)
    ensures
        evaluates_to(r, name@, save_dir@, entries.deep_view(), mtimes@),
        r.wf(),
{
    let mut last_modified: i64 = 0;
    let mut i: usize = 0;
    while i < mtimes.len()
        invariant
            i <= mtimes@.len(),
            max_time_from(last_modified as int, mtimes@, i as int) == spec_max_time(mtimes@),
        decreases mtimes@.len() - i,
    {
        if mtimes[i] > last_modified {
            last_modified = mtimes[i];
        }
        i = i + 1;
    }
    let ghost es = entries.deep_view();
    let mut latest: i64 = 0;
    let mut have_latest = false;
    let mut oldest_time: i64 = 0;
    let mut oldest_entry: Option<String> = None;
    let mut count: u64 = 0;
    let ghost target = spec_eval(name@, es);
    let mut k: usize = 0;
    while k < entries.len()
        invariant
            k <= entries@.len(),
            es == entries.deep_view(),
            es.len() == entries@.len(),
            count <= k,
            eval_fold(
                EvalModel {
                    latest: if have_latest {
                        Some(latest as int)
                    } else {
                        None
                    },
                    oldest: match &oldest_entry {
                        Some(e) => Some((oldest_time as int, e@)),
                        None => None,
                    },
                    count: count as int,
                },
                name@,
                es,
                k as int,
            ) == target,
            (oldest_entry is None) <==> (count == 0),
            (oldest_entry is None) <==> !have_latest,
            !have_latest ==> latest == 0,
        decreases entries@.len() - k,
    {
        let ghost before = EvalModel {
            latest: if have_latest {
                Some(latest as int)
            } else {
                None
            },
            oldest: match &oldest_entry {
                Some(e) => Some((oldest_time as int, e@)),
                None => None,
            },
            count: count as int,
        };
        match get_backup_time(name.as_str(), entries[k].as_str()) {
            Ok(u) => {
                if !have_latest || u > latest {
                    latest = u;
                }
                have_latest = true;
                match &oldest_entry {
                    None => {
                        oldest_time = u;
                        oldest_entry = Some(entries[k].clone());
                    },
                    Some(_) => {
                        if u < oldest_time {
                            oldest_time = u;
                            oldest_entry = Some(entries[k].clone());
                        }
                    },
                }
                count = count + 1;
            },
            Err(_) => {},
        }
        proof {
            let now = EvalModel {
                latest: if have_latest {
                    Some(latest as int)
                } else {
                    None
                },
                oldest: match &oldest_entry {
                    Some(e) => Some((oldest_time as int, e@)),
                    None => None,
                },
                count: count as int,
            };
            assert(now == eval_step(before, name@, es[k as int]));
        }
        k = k + 1;
    }
    let oldest_backup_path = match &oldest_entry {
        Some(e) => Some(join_path(save_dir.as_str(), e.as_str())),
        None => None,
    };
    BackupState {
        last_modified_time: last_modified,
        latest_backup_time: latest,
        oldest_backup_path,
        backup_count: count,
    }
}

/// Evaluation is a function of the listing alone: two states both computed
/// from the same names, save directory, listing and modification times are
/// equal, so evaluating an unchanged save directory again returns an equal
/// state.
pub proof fn lemma_evaluate_idempotent(
    r1: BackupState,
    r2: BackupState,
    name: Seq<char>,
    save_dir: Seq<char>,
    entries: Seq<Seq<char>>,
    mtimes: Seq<i64>,
)
    requires
        evaluates_to(r1, name, save_dir, entries, mtimes),
        evaluates_to(r2, name, save_dir, entries, mtimes),
    ensures
        r1.last_modified_time == r2.last_modified_time,
        r1.latest_backup_time == r2.latest_backup_time,
        r1.backup_count == r2.backup_count,
        r1.oldest_backup_path.deep_view() == r2.oldest_backup_path.deep_view(),
{
}

/// The newest decoded time among the entries seen, meaningful once any
/// entry decoded.
pub open spec fn latest_of(m: EvalModel) -> int {
    m.latest->0
}

/// The oldest decoded time among the entries seen, meaningful once any
/// entry decoded.
pub open spec fn oldest_time_of(m: EvalModel) -> int {
    let p = m.oldest->0;
    p.0
}

/// The entry carrying the oldest decoded time, meaningful once any entry
/// decoded.
pub open spec fn oldest_entry_of(m: EvalModel) -> Seq<char> {
    let p = m.oldest->0;
    p.1
}

/// The number of entries at index `i` or later that decode as backups of
/// the target `name`.
pub open spec fn count_decodable_from(name: Seq<char>, entries: Seq<Seq<char>>, i: int) -> int
    decreases entries.len() - i,
{
    if i < 0 || i >= entries.len() {
        0
    } else {
        (if decoded_unix(name, entries[i]) is Some {
            1int
        } else {
            0int
        }) + count_decodable_from(name, entries, i + 1)
    }
}

/// What the fold reports over the entries from index `i` on, continuing
/// from the running facts `m`.
#[verifier::rlimit(100)]
proof fn lemma_eval_fold_exact(m: EvalModel, name: Seq<char>, entries: Seq<Seq<char>>, i: int)
    requires
        0 <= i,
        m.count >= 0,
        (m.latest is Some) <==> (m.count > 0),
        (m.oldest is Some) <==> (m.count > 0),
    ensures
        ({
            let r = eval_fold(m, name, entries, i);
            &&& r.count == m.count + count_decodable_from(name, entries, i)
            &&& ((r.latest is Some) <==> (r.count > 0))
            &&& ((r.oldest is Some) <==> (r.count > 0))
            &&& (m.latest is Some ==> r.latest is Some && latest_of(m) <= latest_of(r))
            &&& (m.oldest is Some ==> r.oldest is Some && oldest_time_of(r) <= oldest_time_of(m))
            &&& forall|k: int|
                i <= k < entries.len() ==> match decoded_unix(name, #[trigger] entries[k]) {
                    Some(u) => r.latest is Some && u <= latest_of(r) && r.oldest is Some
                        && oldest_time_of(r) <= u,
                    None => true,
                }
            &&& (r.latest is Some ==> m.latest == Some(latest_of(r)) || exists|k: int|
                i <= k < entries.len() && decoded_unix(name, #[trigger] entries[k]) == Some(
                    latest_of(r),
                ))
            &&& (r.oldest is Some ==> m.oldest == r.oldest || exists|k: int|
                i <= k < entries.len() && #[trigger] entries[k] == oldest_entry_of(r) && decoded_unix(
                    name,
                    entries[k],
                ) == Some(oldest_time_of(r)))
        }),
    decreases entries.len() - i,
{
    if 0 <= i < entries.len() {
        let m2 = eval_step(m, name, entries[i]);
        lemma_eval_fold_exact(m2, name, entries, i + 1);
        let r = eval_fold(m, name, entries, i);
        assert(r == eval_fold(m2, name, entries, i + 1));
        assert(r.count == m.count + count_decodable_from(name, entries, i));
        assert((r.latest is Some) <==> (r.count > 0));
        assert((r.oldest is Some) <==> (r.count > 0));
        assert(m.latest is Some ==> r.latest is Some && m.latest->0 <= latest_of(r));
        assert(m.oldest is Some ==> r.oldest is Some && oldest_time_of(r) <= oldest_time_of(m));
        assert(forall|k: int|
            i + 1 <= k < entries.len() ==> match decoded_unix(name, #[trigger] entries[k]) {
                Some(u) => r.latest is Some && u <= latest_of(r) && r.oldest is Some
                    && oldest_time_of(r) <= u,
                None => true,
            });
        match decoded_unix(name, entries[i]) {
            None => {
                assert(m2 == m);
                if r.latest is Some && !(m.latest == Some(latest_of(r))) {
                    let kw = choose|k: int|
                        i + 1 <= k < entries.len() && decoded_unix(name, #[trigger] entries[k])
                            == Some(latest_of(r));
                    assert(i <= kw < entries.len() && decoded_unix(name, entries[kw]) == Some(
                        latest_of(r),
                    ));
                }
                if r.oldest is Some && !(m.oldest == r.oldest) {
                    let kw = choose|k: int|
                        i + 1 <= k < entries.len() && #[trigger] entries[k] == oldest_entry_of(r)
                            && decoded_unix(name, entries[k]) == Some(oldest_time_of(r));
                    assert(i <= kw < entries.len() && entries[kw] == oldest_entry_of(r)
                        && decoded_unix(name, entries[kw]) == Some(oldest_time_of(r)));
                }
            },
            Some(u) => {
                assert(decoded_unix(name, entries[i]) == Some(u));
                assert(m2.latest is Some && u <= latest_of(m2));
                assert(m2.oldest is Some && oldest_time_of(m2) <= u);
                assert(r.latest is Some && latest_of(m2) <= latest_of(r));
                assert(r.oldest is Some && oldest_time_of(r) <= oldest_time_of(m2));
                if m2.latest == Some(latest_of(r)) {
                    if m.latest is Some && u <= latest_of(m) {
                        assert(m.latest == Some(latest_of(r)));
                    } else {
                        assert(latest_of(m2) == u);
                        assert(decoded_unix(name, entries[i]) == Some(latest_of(r)));
                        assert(exists|k: int|
                            i <= k < entries.len() && decoded_unix(name, #[trigger] entries[k])
                                == Some(latest_of(r)));
                    }
                } else {
                    let kw = choose|k: int|
                        i + 1 <= k < entries.len() && decoded_unix(name, #[trigger] entries[k])
                            == Some(latest_of(r));
                    assert(i <= kw < entries.len() && decoded_unix(name, entries[kw]) == Some(
                        latest_of(r),
                    ));
                }
                if m2.oldest == r.oldest {
                    if m.oldest is Some && oldest_time_of(m) <= u {
                        assert(m.oldest == r.oldest);
                    } else {
                        assert(m2.oldest == Some((u, entries[i])));
                        assert(entries[i] == oldest_entry_of(r) && decoded_unix(name, entries[i])
                            == Some(oldest_time_of(r)));
                        assert(exists|k: int|
                            i <= k < entries.len() && #[trigger] entries[k] == oldest_entry_of(r)
                                && decoded_unix(name, entries[k]) == Some(oldest_time_of(r)));
                    }
                } else {
                    let kw = choose|k: int|
                        i + 1 <= k < entries.len() && #[trigger] entries[k] == oldest_entry_of(r)
                            && decoded_unix(name, entries[k]) == Some(oldest_time_of(r));
                    assert(i <= kw < entries.len() && entries[kw] == oldest_entry_of(r)
                        && decoded_unix(name, entries[kw]) == Some(oldest_time_of(r)));
                }
            },
        }
    }
}

/// What one evaluation means, in the words of the state it reports: the
/// count is the number of save-directory entries that decode as backups of
/// the target; when there are any, the newest reported time is decoded by
/// some entry and no entry decodes a newer one, and the oldest entry
/// reported is one of the entries, decodes to the oldest time, and no entry
/// decodes an older one.
pub proof fn lemma_eval_exact(name: Seq<char>, entries: Seq<Seq<char>>)
    ensures
        ({
            let m = spec_eval(name, entries);
            &&& m.count == count_decodable_from(name, entries, 0)
            &&& ((m.latest is Some) <==> (m.count > 0))
            &&& ((m.oldest is Some) <==> (m.count > 0))
            &&& forall|k: int|
                0 <= k < entries.len() ==> match decoded_unix(name, #[trigger] entries[k]) {
                    Some(u) => m.latest is Some && u <= latest_of(m) && m.oldest is Some
                        && oldest_time_of(m) <= u,
                    None => true,
                }
            &&& (m.latest is Some ==> exists|k: int|
                0 <= k < entries.len() && decoded_unix(name, #[trigger] entries[k]) == Some(
                    latest_of(m),
                ))
            &&& (m.oldest is Some ==> exists|k: int|
                0 <= k < entries.len() && #[trigger] entries[k] == oldest_entry_of(m) && decoded_unix(
                    name,
                    entries[k],
                ) == Some(oldest_time_of(m)))
        }),
{
    lemma_eval_fold_exact(EvalModel::init(), name, entries, 0);
}

} // verus!
