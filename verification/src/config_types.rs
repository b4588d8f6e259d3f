//! Target configuration records.
//!
//! A [`SharedConfig`] carries the defaults shared by every target; a
//! [`GameConfig`] is one fully resolved target: its name, save directory,
//! compression flag, file list, cycle interval in minutes and retention
//! count. [`FileList`] holds the enumeration rules: a root directory and
//! optional pick and exclude path lists, separator-normalized, with the
//! exclude entries resolved against the root.

use vstd::prelude::*;
use vstd::std_specs::cmp::PartialEqSpec;
use vstd::string::{StrSliceExecFns, StringExecFns};
use crate::paths::{is_under, norm, normalize, join_path, push_path, spec_join, spec_push_path};

verus! {

/// Defaults shared by every target: save root, compression, retention count
/// and interval in minutes.
#[derive(Debug)]
pub struct SharedConfig {
    pub save_root: String,
    pub zip: bool,
    pub count: u64,
    pub interval: i64,
}

impl SharedConfig {
    /// Resolves the shared defaults: a missing field falls back to
    /// `./save-backups`, compression on, five kept backups, thirty minutes.
    pub fn new(save_root: Option<&str>, zip: Option<bool>, count: Option<u64>, interval: Option<
        i64,
    >) -> (r: SharedConfig)
        ensures
            r.save_root@ == match save_root {
                Some(s) => s@,
                None => "./save-backups"@,
            },
            r.zip == match zip {
                Some(z) => z,
                None => true,
            },
            r.count == match count {
                Some(c) => c,
                None => 5u64,
            },
            r.interval == match interval {
                Some(i) => i,
                None => 30i64,
            },
    {
        SharedConfig {
            save_root: match save_root {
                Some(s) => String::from_str(s),
                None => String::from_str("./save-backups"),
            },
            zip: match zip {
                Some(z) => z,
                None => true,
            },
            count: match count {
                Some(c) => c,
                None => 5,
            },
            interval: match interval {
                Some(i) => i,
                None => 30,
            },
        }
    }
}

impl PartialEq for SharedConfig {
    fn eq(&self, other: &SharedConfig) -> (r: bool) {
        self.save_root.eq(&other.save_root) && self.zip == other.zip && self.count == other.count
            && self.interval == other.interval
    }
}

impl vstd::std_specs::cmp::PartialEqSpecImpl for SharedConfig {
    open spec fn obeys_eq_spec() -> bool {
        true
    }

    open spec fn eq_spec(&self, other: &SharedConfig) -> bool {
        self.save_root@ == other.save_root@ && self.zip == other.zip && self.count == other.count
            && self.interval == other.interval
    }
}

/// Every entry separator-normalized.
pub open spec fn norm_all(v: Seq<Seq<char>>) -> Seq<Seq<char>> {
    v.map_values(|s: Seq<char>| norm(s))
}

/// Every entry separator-normalized and joined onto the normalized root.
pub open spec fn resolve_all(root: Seq<char>, v: Seq<Seq<char>>) -> Seq<Seq<char>> {
    v.map_values(|s: Seq<char>| spec_join(norm(root), norm(s)))
}

/// The picked entries after separator normalization, still relative to the
/// root.
pub open spec fn spec_picks(picks: Option<Seq<Seq<char>>>) -> Option<Seq<Seq<char>>> {
    match picks {
        None => None,
        Some(v) => Some(norm_all(v)),
    }
}

/// The exclude entries after separator normalization, each joined onto the
/// normalized root; no excludes means an empty set.
pub open spec fn spec_excludes(root: Seq<char>, exclude: Option<Seq<Seq<char>>>) -> Seq<Seq<char>> {
    match exclude {
        None => Seq::empty(),
        Some(v) => resolve_all(root, v),
    }
}

/// The enumeration rules of one target: a root directory with optional
/// pick and exclude path lists.
#[derive(Debug)]
pub struct FileList {
    pub root: String,
    pub picks: Option<Vec<String>>,
    pub exclude: Option<Vec<String>>,
}

impl FileList {
    /// The picked entries, normalized and relative to the root; `None` means
    /// the whole root is walked.
    pub open spec fn picks(self) -> Option<Seq<Seq<char>>> {
        self.picks.deep_view()
    }

    /// The exclude entries as absolute normalized paths.
    pub open spec fn excludes(self) -> Seq<Seq<char>> {
        match self.exclude {
            None => Seq::empty(),
            Some(v) => v.deep_view(),
        }
    }

    /// The exclude entries as given, present or not.
    pub open spec fn excl_opt(self) -> Option<Seq<Seq<char>>> {
        self.exclude.deep_view()
    }

    /// The root never lies under one of its own exclude entries, since each
    /// exclude entry strictly extends the root.
    pub open spec fn wf(self) -> bool {
        forall|k: int| 0 <= k < self.excludes().len() ==> !is_under(self.root@, self.excludes()[k])
    }

    /// Builds the rules: normalizes the root and every entry, and resolves
    /// each exclude entry against the root.
    pub fn new(root: &str, picks: Option<Vec<String>>, exclude: Option<Vec<String>>) -> (r: Self)
        ensures
            r.root@ == norm(root@),
            r.picks() == spec_picks(picks.deep_view()),
            r.excludes() == spec_excludes(root@, exclude.deep_view()),
            (r.picks() is Some) == (picks is Some),
            r.wf(),
    {
        let root_string = normalize(root);
        let excl: Option<Vec<String>> = match exclude {
            Some(v) => {
                let mut out: Vec<String> = Vec::new();
                let mut i: usize = 0;
                while i < v.len()
                    invariant
                        i <= v.len(),
                        root_string@ == norm(root@),
                        out.deep_view() =~= resolve_all(root@, v.deep_view()).take(i as int),
                    decreases v.len() - i,
                {
                    let ghost prev = out.deep_view();
                    let n = normalize(v[i].as_str());
                    let j = join_path(root_string.as_str(), n.as_str());
                    proof {
                        assert(j@ == spec_join(norm(root@), norm(v.deep_view()[i as int])));
                    }
                    out.push(j);
                    proof {
                        assert(out.deep_view().len() == prev.len() + 1);
                        assert(forall|k: int|
                            0 <= k < prev.len() ==> out.deep_view()[k] == prev[k]);
                        assert(out.deep_view()[prev.len() as int] == spec_join(
                            norm(root@),
                            norm(v.deep_view()[i as int]),
                        ));
                        assert(resolve_all(root@, v.deep_view()).take(i + 1)[i as int] == spec_join(
                            norm(root@),
                            norm(v.deep_view()[i as int]),
                        ));
                        assert(out.deep_view() =~= resolve_all(root@, v.deep_view()).take(i + 1));
                    }
                    i = i + 1;
                }
                proof {
                    assert(resolve_all(root@, v.deep_view()).take(v.len() as int) =~= resolve_all(
                        root@,
                        v.deep_view(),
                    ));
                }
                Some(out)
            },
            None => None,
        };
        let incl: Option<Vec<String>> = match picks {
            Some(v) => {
                let mut out: Vec<String> = Vec::new();
                let mut i: usize = 0;
                while i < v.len()
                    invariant
                        i <= v.len(),
                        out.deep_view() =~= norm_all(v.deep_view()).take(i as int),
                    decreases v.len() - i,
                {
                    let ghost prev = out.deep_view();
                    let n = normalize(v[i].as_str());
                    proof {
                        assert(n@ == norm(v.deep_view()[i as int]));
                    }
                    out.push(n);
                    proof {
                        assert(out.deep_view().len() == prev.len() + 1);
                        assert(forall|k: int|
                            0 <= k < prev.len() ==> out.deep_view()[k] == prev[k]);
                        assert(out.deep_view()[prev.len() as int] == norm(v.deep_view()[i as int]));
                        assert(norm_all(v.deep_view()).take(i + 1)[i as int] == norm(
                            v.deep_view()[i as int],
                        ));
                        assert(out.deep_view() =~= norm_all(v.deep_view()).take(i + 1));
                    }
                    i = i + 1;
                }
                proof {
                    assert(norm_all(v.deep_view()).take(v.len() as int) =~= norm_all(v.deep_view()));
                }
                Some(out)
            },
            None => None,
        };
        let r = FileList { root: root_string, picks: incl, exclude: excl };
        proof {
            assert forall|k: int| 0 <= k < r.excludes().len() implies !is_under(
                r.root@,
                r.excludes()[k],
            ) by {
                assert(r.excludes()[k].len() > r.root@.len());
            }
        }
        r
    }
}

impl PartialEq for FileList {
    fn eq(&self, other: &FileList) -> (r: bool) {
        self.root.eq(&other.root) && opt_vec_str_eq(&self.picks, &other.picks)
            && opt_vec_str_eq(&self.exclude, &other.exclude)
    }
}

impl vstd::std_specs::cmp::PartialEqSpecImpl for FileList {
    open spec fn obeys_eq_spec() -> bool {
        true
    }

    open spec fn eq_spec(&self, other: &FileList) -> bool {
        self.root@ == other.root@ && self.picks() == other.picks() && self.excl_opt()
            == other.excl_opt()
    }
}

/// Compares two string vectors by contents.
pub fn vec_str_eq(a: &Vec<String>, b: &Vec<String>) -> (r: bool)
    ensures
        r == (a.deep_view() == b.deep_view()),
{
    if a.len() != b.len() {
        assert(a.deep_view().len() != b.deep_view().len());
        return false;
    }
    let mut i: usize = 0;
    while i < a.len()
        invariant
            i <= a.len() == b.len(),
            forall|k: int| 0 <= k < i ==> a.deep_view()[k] == b.deep_view()[k],
        decreases a.len() - i,
    {
        if !a[i].eq(&b[i]) {
            assert(a.deep_view()[i as int] != b.deep_view()[i as int]);
            return false;
        }
        i = i + 1;
    }
    proof {
        assert(a.deep_view() =~= b.deep_view());
    }
    true
}

/// Compares two optional string vectors by contents.
pub fn opt_vec_str_eq(a: &Option<Vec<String>>, b: &Option<Vec<String>>) -> (r: bool)
    ensures
        r == (a.deep_view() == b.deep_view()),
{
    match (a, b) {
        (None, None) => true,
        (Some(x), Some(y)) => vec_str_eq(x, y),
        _ => false,
    }
}

/// One fully resolved target.
#[derive(Debug)]
pub struct GameConfig {
    pub name: String,
    pub save_dir: String,
    pub zip: bool,
    pub file_list: FileList,
    pub interval: i64,
    pub count: u64,
}

impl GameConfig {
    /// Resolves one target against the shared defaults: a missing save
    /// directory, compression flag, interval or count falls back to the
    /// shared value, and the save directory gains the target's name as a
    /// final component.
    pub fn with_defaults(
        name: &str,
        save_dir: Option<&str>,
        zip: Option<bool>,
        root: &str,
        picks: Option<Vec<String>>,
        exclude: Option<Vec<String>>,
        interval: Option<i64>,
        count: Option<u64>,
        defaults: &SharedConfig,
    ) -> (r: GameConfig)
        ensures
            r.name@ == name@,
            r.save_dir@ == spec_push_path(
                match save_dir {
                    Some(s) => s@,
                    None => defaults.save_root@,
                },
                name@,
            ),
            r.zip == match zip {
                Some(z) => z,
                None => defaults.zip,
            },
            r.interval == match interval {
                Some(i) => i,
                None => defaults.interval,
            },
            r.count == match count {
                Some(c) => c,
                None => defaults.count,
            },
            r.file_list.root@ == norm(root@),
            r.file_list.picks() == spec_picks(picks.deep_view()),
            r.file_list.excludes() == spec_excludes(root@, exclude.deep_view()),
            (r.file_list.picks() is Some) == (picks is Some),
            r.file_list.wf(),
    {
        let save_dir_resolved = match save_dir {
            Some(s) => push_path(s, name),
            None => push_path(defaults.save_root.as_str(), name),
        };
        GameConfig {
            name: String::from_str(name),
            save_dir: save_dir_resolved,
            zip: match zip {
                Some(z) => z,
                None => defaults.zip,
            },
            file_list: FileList::new(root, picks, exclude),
            interval: match interval {
                Some(i) => i,
                None => defaults.interval,
            },
            count: match count {
                Some(c) => c,
                None => defaults.count,
            },
        }
    }
}

impl PartialEq for GameConfig {
    fn eq(&self, other: &GameConfig) -> (r: bool) {
        self.name.eq(&other.name) && self.save_dir.eq(&other.save_dir) && self.zip == other.zip
            && self.file_list.eq(&other.file_list) && self.interval == other.interval && self.count
            == other.count
    }
}

impl vstd::std_specs::cmp::PartialEqSpecImpl for GameConfig {
    open spec fn obeys_eq_spec() -> bool {
        true
    }

    open spec fn eq_spec(&self, other: &GameConfig) -> bool {
        self.name@ == other.name@ && self.save_dir@ == other.save_dir@ && self.zip == other.zip
            && PartialEqSpec::eq_spec(&self.file_list, &other.file_list) && self.interval == other.interval
            && self.count == other.count
    }
}

} // verus!
