//! The file enumerator.
//!
//! A walk resolves a [`FileList`] into the set of files under its root,
//! honouring the pick and exclude rules. The filesystem itself stays outside:
//! the walker asks for one directory at a time through [`FileListIterator::next_dir`]
//! and is handed that directory's entries through [`FileListIterator::supply_listing`];
//! the caller reads the directories and drives the loop. Every decision —
//! which entry is excluded, which directory is descended into, which file is
//! kept — is made here, against the model [`WalkModel`].

use vstd::prelude::*;
use vstd::string::{StrSliceExecFns, StringExecFns};
use crate::config_types::FileList;
use crate::paths::{
    clone_strs, contains_path, is_under, join_path, lemma_child_under, norm, normalize, pop_str,
    push_str, spec_join, under_any, under_any_exec,
};

verus! {

/// One entry of a directory listing: its bare name and whether it is itself
/// a directory.
pub struct DirEntryInfo {
    pub name: String,
    pub is_dir: bool,
}

impl View for DirEntryInfo {
    type V = (Seq<char>, bool);

    open spec fn view(&self) -> (Seq<char>, bool) {
        (self.name@, self.is_dir)
    }
}

impl DeepView for DirEntryInfo {
    type V = (Seq<char>, bool);

    open spec fn deep_view(&self) -> (Seq<char>, bool) {
        self@
    }
}

/// The mathematical state of a walk: the exclude set, the stack of pending
/// directories, the picked plain entries kept for the end, and the files
/// found so far.
pub struct WalkModel {
    pub exclude: Seq<Seq<char>>,
    pub pending: Seq<Seq<char>>,
    pub tail: Seq<Seq<char>>,
    pub found: Seq<Seq<char>>,
}

impl WalkModel {
    /// No pending directory and no found file lies under an exclude entry.
    pub open spec fn wf(self) -> bool {
        &&& forall|k: int| 0 <= k < self.pending.len() ==> !under_any(self.pending[k], self.exclude)
        &&& forall|k: int| 0 <= k < self.found.len() ==> !under_any(self.found[k], self.exclude)
    }
}

/// A usable entry name: nonempty and, once normalized, free of separators.
pub open spec fn entry_ok(n: Seq<char>) -> bool {
    n.len() > 0 && forall|j: int| 0 <= j < n.len() ==> n[j] != '/'
}

/// How one listing entry changes the walk: its normalized name is joined
/// onto the directory being read; an unusable or excluded path is skipped, a
/// directory becomes pending, anything else is a found file.
pub open spec fn step_entry(m: WalkModel, d: Seq<char>, name: Seq<char>, is_dir: bool) -> WalkModel {
    let nn = norm(name);
    let full = spec_join(d, nn);
    if !entry_ok(nn) || m.exclude.contains(full) {
        m
    } else if is_dir {
        WalkModel { pending: m.pending.push(full), ..m }
    } else {
        WalkModel { found: m.found.push(full), ..m }
    }
}

/// The entries of one listing folded in order, starting at index `i`.
pub open spec fn step_entries(
    m: WalkModel,
    d: Seq<char>,
    entries: Seq<(Seq<char>, bool)>,
    i: int,
) -> WalkModel
    decreases entries.len() - i,
{
    if i < 0 || i >= entries.len() {
        m
    } else {
        step_entries(step_entry(m, d, entries[i].0, entries[i].1), d, entries, i + 1)
    }
}

/// How a whole listing changes the walk: the directory on top of the stack
/// is taken off, and its entries are folded in.
pub open spec fn spec_supply(m: WalkModel, entries: Seq<(Seq<char>, bool)>) -> WalkModel
    recommends
        m.pending.len() > 0,
{
    let d = m.pending.last();
    let popped = WalkModel { pending: m.pending.drop_last(), ..m };
    step_entries(popped, d, entries, 0)
}

/// How one picked entry enters the starting state: a picked directory not
/// under any exclude becomes pending; a picked plain entry is kept for the
/// end of the walk, deliberately not exclude-filtered.
pub open spec fn init_step(m: WalkModel, root: Seq<char>, p: Seq<char>, is_dir: bool) -> WalkModel {
    let full = spec_join(root, p);
    if is_dir {
        if under_any(full, m.exclude) {
            m
        } else {
            WalkModel { pending: m.pending.push(full), ..m }
        }
    } else {
        WalkModel { tail: m.tail.push(full), ..m }
    }
}

/// The picked entries folded in order, starting at index `i`.
pub open spec fn init_steps(
    m: WalkModel,
    root: Seq<char>,
    picks: Seq<Seq<char>>,
    dirs: Seq<bool>,
    i: int,
) -> WalkModel
    decreases picks.len() - i,
{
    if i < 0 || i >= picks.len() {
        m
    } else {
        init_steps(init_step(m, root, picks[i], dirs[i]), root, picks, dirs, i + 1)
    }
}

/// The starting state of a walk over `l`: with no picked entries the root
/// alone is pending; otherwise each picked entry is resolved against the
/// root, `dirs` saying which of them are directories.
pub open spec fn spec_start(l: FileList, dirs: Seq<bool>) -> WalkModel {
    let m0 = WalkModel {
        exclude: l.excludes(),
        pending: Seq::empty(),
        tail: Seq::empty(),
        found: Seq::empty(),
    };
    match l.picks() {
        None => WalkModel { pending: seq![l.root@], ..m0 },
        Some(p) => init_steps(m0, l.root@, p, dirs, 0),
    }
}

/// The walking machine. It holds no directory handles: the caller reads each
/// directory the machine asks for and hands the listing back.
pub struct FileListIterator {
    exclude: Vec<String>,
    pending: Vec<String>,
    tail: Vec<String>,
    found: Vec<String>,
}

impl View for FileListIterator {
    type V = WalkModel;

    closed spec fn view(&self) -> WalkModel {
        WalkModel {
            exclude: self.exclude.deep_view(),
            pending: self.pending.deep_view(),
            tail: self.tail.deep_view(),
            found: self.found.deep_view(),
        }
    }
}

/// Decides whether an entry name is usable.
fn entry_ok_exec(n: &String) -> (r: bool)
    ensures
        r == entry_ok(n@),
{
    let len = n.as_str().unicode_len();
    if len == 0 {
        return false;
    }
    let mut j: usize = 0;
    while j < len
        invariant
            j <= len,
            len == n@.len(),
            forall|k: int| 0 <= k < j ==> n@[k] != '/',
        decreases len - j,
    {
        if n.as_str().get_char(j) == '/' {
            return false;
        }
        j = j + 1;
    }
    true
}

impl FileList {
    /// Begins a walk. `picks_are_dirs` says, for each picked entry, whether
    /// it resolves to a directory; with no picked entries it is empty and
    /// the whole root is walked.
    pub fn start_walk(&self, picks_are_dirs: &Vec<bool>) -> (w: FileListIterator)
        requires
            match self.picks() {
                Some(p) => picks_are_dirs@.len() == p.len(),
                None => picks_are_dirs@.len() == 0,
            },
        ensures
            w@ == spec_start(*self, picks_are_dirs@),
            self.wf() ==> w@.wf(),
    {
        let exclude: Vec<String> = match &self.exclude {
            Some(v) => clone_strs(v),
            None => Vec::new(),
        };
        proof {
            assert(exclude.deep_view() =~= self.excludes());
        }
        let mut w = FileListIterator { exclude, pending: Vec::new(), tail: Vec::new(), found: Vec::new() };
        let ghost m0 = WalkModel {
            exclude: self.excludes(),
            pending: Seq::empty(),
            tail: Seq::empty(),
            found: Seq::empty(),
        };
        proof {
            assert(w@.pending =~= m0.pending);
            assert(w@.tail =~= m0.tail);
            assert(w@.found =~= m0.found);
            assert(w@ == m0);
        }
        match &self.picks {
            None => {
                push_str(&mut w.pending, self.root.clone());
                proof {
                    assert(w@.pending =~= seq![self.root@]);
                    assert(w@ == spec_start(*self, picks_are_dirs@));
                    if self.wf() {
                        assert forall|k: int| 0 <= k < w@.pending.len() implies !under_any(
                            w@.pending[k],
                            w@.exclude,
                        ) by {
                            assert(w@.pending[k] == self.root@);
                        }
                    }
                }
                w
            },
            Some(p) => {
                let ghost picks = self.picks()->Some_0;
                let ghost dirs = picks_are_dirs@;
                let mut i: usize = 0;
                while i < p.len()
                    invariant
                        i <= p.len(),
                        p.deep_view() == picks,
                        dirs == picks_are_dirs@,
                        dirs.len() == picks.len() == p@.len(),
                        w@.exclude == self.excludes(),
                        init_steps(w@, self.root@, picks, dirs, i as int) == init_steps(
                            m0,
                            self.root@,
                            picks,
                            dirs,
                            0,
                        ),
                        self.wf() ==> w@.wf(),
                    decreases p.len() - i,
                {
                    let full = join_path(self.root.as_str(), p[i].as_str());
                    let ghost before = w@;
                    if picks_are_dirs[i] {
                        if !under_any_exec(&full, &w.exclude) {
                            push_str(&mut w.pending, full);
                            proof {
                                assert(w@.exclude =~= before.exclude);
                                assert(w@.tail =~= before.tail);
                                assert(w@.found =~= before.found);
                            }
                        }
                    } else {
                        push_str(&mut w.tail, full);
                        proof {
                            assert(w@.exclude =~= before.exclude);
                            assert(w@.pending =~= before.pending);
                            assert(w@.found =~= before.found);
                        }
                    }
                    proof {
                        assert(w@ == init_step(before, self.root@, picks[i as int], dirs[i as int]));
                    }
                    i = i + 1;
                }
                w
            },
        }
    }
}

impl FileListIterator {
    /// The directory the walk wants read next, if any are pending.
    pub fn next_dir(&self) -> (r: Option<String>)
        ensures
            match r {
                Some(d) => self@.pending.len() > 0 && d@ == self@.pending.last(),
                None => self@.pending.len() == 0,
            },
    {
        if self.pending.len() == 0 {
            None
        } else {
            Some(self.pending[self.pending.len() - 1].clone())
        }
    }

    /// Hands the walk the listing of the directory it asked for: that
    /// directory leaves the stack and its entries are folded in.
    pub fn supply_listing(&mut self, entries: &Vec<DirEntryInfo>)
        requires
            old(self)@.pending.len() > 0,
        ensures
            final(self)@ == spec_supply(old(self)@, entries.deep_view()),
            old(self)@.wf() ==> final(self)@.wf(),
    {
        let d = pop_str(&mut self.pending);
        proof {
            assert(self@.exclude =~= old(self)@.exclude);
            assert(self@.tail =~= old(self)@.tail);
            assert(self@.found =~= old(self)@.found);
            assert(self@ == (WalkModel { pending: old(self)@.pending.drop_last(), ..old(self)@ }));
        }
        let ghost target = spec_supply(old(self)@, entries.deep_view());
        let ghost dv = d@;
        let ghost es = entries.deep_view();
        let mut i: usize = 0;
        while i < entries.len()
            invariant
                i <= entries.len(),
                dv == d@,
                es == entries.deep_view(),
                es.len() == entries@.len(),
                step_entries(self@, dv, es, i as int) == target,
                old(self)@.wf() && !under_any(dv, self@.exclude) ==> self@.wf(),
                self@.exclude == old(self)@.exclude,
            decreases entries.len() - i,
        {
            let e = &entries[i];
            let nn = normalize(e.name.as_str());
            let ghost before = self@;
            proof {
                assert(es[i as int] == (e.name@, e.is_dir));
            }
            if entry_ok_exec(&nn) {
                let full = join_path(d.as_str(), nn.as_str());
                if !contains_path(&self.exclude, &full) {
                    if e.is_dir {
                        push_str(&mut self.pending, full);
                        proof {
                            assert(self@.exclude =~= before.exclude);
                            assert(self@.tail =~= before.tail);
                            assert(self@.found =~= before.found);
                        }
                    } else {
                        push_str(&mut self.found, full);
                        proof {
                            assert(self@.exclude =~= before.exclude);
                            assert(self@.tail =~= before.tail);
                            assert(self@.pending =~= before.pending);
                        }
                    }
                }
            }
            proof {
                assert(self@ == step_entry(before, dv, es[i as int].0, es[i as int].1));
                if old(self)@.wf() && !under_any(dv, before.exclude) {
                    let full = spec_join(dv, norm(es[i as int].0));
                    if entry_ok(norm(es[i as int].0)) && !before.exclude.contains(full) {
                        assert forall|x: int|
                            0 <= x < before.exclude.len() implies !is_under(
                            full,
                            before.exclude[x],
                        ) by {
                            if is_under(full, before.exclude[x]) {
                                lemma_child_under(dv, norm(es[i as int].0), before.exclude[x]);
                            }
                        }
                        assert(!under_any(full, before.exclude));
                    }
                }
            }
            i = i + 1;
        }
    }

    /// Drops the directory the walk asked for without reading it; the caller
    /// does this for a nested directory it cannot open.
    pub fn skip_dir(&mut self)
        requires
            old(self)@.pending.len() > 0,
        ensures
            final(self)@ == (WalkModel { pending: old(self)@.pending.drop_last(), ..old(self)@ }),
            old(self)@.wf() ==> final(self)@.wf(),
    {
        let _ = pop_str(&mut self.pending);
        proof {
            assert(self@.exclude =~= old(self)@.exclude);
            assert(self@.tail =~= old(self)@.tail);
            assert(self@.found =~= old(self)@.found);
        }
    }

    /// The files the walk has yielded: everything found under the walked
    /// directories, then the picked plain entries.
    pub fn files(&self) -> (r: Vec<String>)
        ensures
            r.deep_view() == self@.found + self@.tail,
    {
        let mut r = clone_strs(&self.found);
        let mut i: usize = 0;
        while i < self.tail.len()
            invariant
                i <= self.tail@.len(),
                r.deep_view() =~= self@.found + self@.tail.take(i as int),
            decreases self.tail@.len() - i,
        {
            push_str(&mut r, self.tail[i].clone());
            proof {
                assert(r.deep_view() =~= self@.found + self@.tail.take(i + 1));
            }
            i = i + 1;
        }
        proof {
            assert(self@.found + self@.tail.take(self.tail@.len() as int) =~= self@.found
                + self@.tail);
        }
        r
    }
}

/// One listing entry keeps the walk well-formed: a path that survives the
/// exclude check cannot lie under any exclude entry, because its parent does
/// not and it is not itself one.
proof fn lemma_step_entry_wf(m: WalkModel, d: Seq<char>, name: Seq<char>, is_dir: bool)
    requires
        m.wf(),
        !under_any(d, m.exclude),
    ensures
        step_entry(m, d, name, is_dir).wf(),
        step_entry(m, d, name, is_dir).exclude == m.exclude,
        step_entry(m, d, name, is_dir).tail == m.tail,
{
    let nn = norm(name);
    let full = spec_join(d, nn);
    if entry_ok(nn) && !m.exclude.contains(full) {
        assert forall|x: int| 0 <= x < m.exclude.len() implies !is_under(full, m.exclude[x]) by {
            if is_under(full, m.exclude[x]) {
                lemma_child_under(d, nn, m.exclude[x]);
            }
        }
        assert(!under_any(full, m.exclude));
    }
}

/// A whole listing keeps the walk well-formed.
proof fn lemma_step_entries_wf(m: WalkModel, d: Seq<char>, entries: Seq<(Seq<char>, bool)>, i: int)
    requires
        m.wf(),
        !under_any(d, m.exclude),
    ensures
        step_entries(m, d, entries, i).wf(),
        step_entries(m, d, entries, i).exclude == m.exclude,
        step_entries(m, d, entries, i).tail == m.tail,
    decreases entries.len() - i,
{
    if 0 <= i < entries.len() {
        lemma_step_entry_wf(m, d, entries[i].0, entries[i].1);
        lemma_step_entries_wf(step_entry(m, d, entries[i].0, entries[i].1), d, entries, i + 1);
    }
}

/// Supplying a listing keeps the walk well-formed.
proof fn lemma_supply_wf(m: WalkModel, entries: Seq<(Seq<char>, bool)>)
    requires
        m.wf(),
        m.pending.len() > 0,
    ensures
        spec_supply(m, entries).wf(),
        spec_supply(m, entries).exclude == m.exclude,
        spec_supply(m, entries).tail == m.tail,
{
    let popped = WalkModel { pending: m.pending.drop_last(), ..m };
    assert(popped.wf());
    lemma_step_entries_wf(popped, m.pending.last(), entries, 0);
}

/// One step of a complete walk over a fixed directory tree: the top pending
/// directory is read if the tree has it, and skipped otherwise.
pub open spec fn walk_step(m: WalkModel, tree: Map<Seq<char>, Seq<(Seq<char>, bool)>>) -> WalkModel {
    if m.pending.len() == 0 {
        m
    } else if tree.dom().contains(m.pending.last()) {
        spec_supply(m, tree[m.pending.last()])
    } else {
        WalkModel { pending: m.pending.drop_last(), ..m }
    }
}

/// A walk over a fixed directory tree, stepped until the pending stack
/// drains or the budget runs out.
pub open spec fn walk_run(
    m: WalkModel,
    tree: Map<Seq<char>, Seq<(Seq<char>, bool)>>,
    fuel: nat,
) -> WalkModel
    decreases fuel,
{
    if fuel == 0 || m.pending.len() == 0 {
        m
    } else {
        walk_run(walk_step(m, tree), tree, (fuel - 1) as nat)
    }
}

/// A run keeps the walk well-formed, and never touches the exclude set or
/// the picked plain entries.
pub proof fn lemma_walk_run_wf(m: WalkModel, tree: Map<Seq<char>, Seq<(Seq<char>, bool)>>, fuel: nat)
    requires
        m.wf(),
    ensures
        walk_run(m, tree, fuel).wf(),
        walk_run(m, tree, fuel).exclude == m.exclude,
        walk_run(m, tree, fuel).tail == m.tail,
    decreases fuel,
{
    if fuel > 0 && m.pending.len() > 0 {
        if tree.dom().contains(m.pending.last()) {
            lemma_supply_wf(m, tree[m.pending.last()]);
        }
        lemma_walk_run_wf(walk_step(m, tree), tree, (fuel - 1) as nat);
    }
}

/// The starting state over any picked entries is well-formed, and each of
/// its kept plain entries is one of the picked entries, resolved against the
/// root.
proof fn lemma_init_steps_wf(
    m: WalkModel,
    root: Seq<char>,
    picks: Seq<Seq<char>>,
    dirs: Seq<bool>,
    i: int,
)
    requires
        m.wf(),
    ensures
        init_steps(m, root, picks, dirs, i).wf(),
        init_steps(m, root, picks, dirs, i).exclude == m.exclude,
        forall|k: int|
            #![trigger init_steps(m, root, picks, dirs, i).tail[k]]
            m.tail.len() <= k < init_steps(m, root, picks, dirs, i).tail.len() ==> exists|j: int|
                i <= j < picks.len() && !dirs[j] && init_steps(m, root, picks, dirs, i).tail[k]
                    == #[trigger] spec_join(root, picks[j]),
        forall|k: int|
            #![trigger init_steps(m, root, picks, dirs, i).tail[k]]
            0 <= k < m.tail.len() ==> init_steps(m, root, picks, dirs, i).tail[k] == m.tail[k],
        init_steps(m, root, picks, dirs, i).tail.len() >= m.tail.len(),
    decreases picks.len() - i,
{
    if 0 <= i < picks.len() {
        let m2 = init_step(m, root, picks[i], dirs[i]);
        assert(m2.wf());
        lemma_init_steps_wf(m2, root, picks, dirs, i + 1);
        let fin = init_steps(m, root, picks, dirs, i);
        assert forall|k: int|
            #![trigger fin.tail[k]]
            0 <= k < m.tail.len() implies fin.tail[k] == m.tail[k] by {
            assert(fin.tail[k] == m2.tail[k]);
        }
        assert forall|k: int|
            #![trigger fin.tail[k]]
            m.tail.len() <= k < fin.tail.len() implies exists|j: int|
            i <= j < picks.len() && !dirs[j] && fin.tail[k] == #[trigger] spec_join(
                root,
                picks[j],
            ) by {
            if k >= m2.tail.len() {
                let j = choose|j: int|
                    i + 1 <= j < picks.len() && !dirs[j] && fin.tail[k] == #[trigger] spec_join(
                        root,
                        picks[j],
                    );
                assert(i <= j < picks.len() && !dirs[j] && fin.tail[k] == spec_join(root, picks[j]));
            } else {
                assert(fin.tail[k] == m2.tail[k]);
                assert(!dirs[i] && m2.tail[k] == spec_join(root, picks[i]));
                assert(i <= i < picks.len() && !dirs[i] && fin.tail[k] == spec_join(root, picks[i]));
            }
        }
    }
}

/// The starting state of a walk is well-formed.
pub proof fn lemma_spec_start_wf(l: FileList, dirs: Seq<bool>)
    requires
        l.wf(),
    ensures
        spec_start(l, dirs).wf(),
        spec_start(l, dirs).exclude == l.excludes(),
{
    let m0 = WalkModel {
        exclude: l.excludes(),
        pending: Seq::empty(),
        tail: Seq::empty(),
        found: Seq::empty(),
    };
    assert(m0.wf());
    match l.picks() {
        None => {
            let m = WalkModel { pending: seq![l.root@], ..m0 };
            assert forall|k: int| 0 <= k < m.pending.len() implies !under_any(
                m.pending[k],
                m.exclude,
            ) by {
                assert(m.pending[k] == l.root@);
            }
        },
        Some(p) => {
            lemma_init_steps_wf(m0, l.root@, p, dirs, 0);
        },
    }
}

/// No path under an excluded directory is yielded by a walk: in any run from
/// the starting state of `l`, over any directory tree and any budget, every
/// found file lies under no exclude entry, and everything else the walk
/// yields is one of the picked plain entries, resolved against the root.
pub proof fn lemma_no_excluded_output(
    l: FileList,
    dirs: Seq<bool>,
    tree: Map<Seq<char>, Seq<(Seq<char>, bool)>>,
    fuel: nat,
)
    requires
        l.wf(),
        match l.picks() {
            Some(p) => dirs.len() == p.len(),
            None => dirs.len() == 0,
        },
    ensures
        forall|k: int|
            #![trigger walk_run(spec_start(l, dirs), tree, fuel).found[k]]
            0 <= k < walk_run(spec_start(l, dirs), tree, fuel).found.len() ==> !under_any(
                walk_run(spec_start(l, dirs), tree, fuel).found[k],
                l.excludes(),
            ),
        forall|k: int|
            #![trigger walk_run(spec_start(l, dirs), tree, fuel).tail[k]]
            0 <= k < walk_run(spec_start(l, dirs), tree, fuel).tail.len() ==> exists|j: int|
                0 <= j < dirs.len() && !dirs[j] && walk_run(spec_start(l, dirs), tree, fuel).tail[k]
                    == #[trigger] spec_join(l.root@, l.picks()->Some_0[j]),
{
    lemma_spec_start_wf(l, dirs);
    lemma_walk_run_wf(spec_start(l, dirs), tree, fuel);
    let run = walk_run(spec_start(l, dirs), tree, fuel);
    let m0 = WalkModel {
        exclude: l.excludes(),
        pending: Seq::empty(),
        tail: Seq::empty(),
        found: Seq::empty(),
    };
    match l.picks() {
        None => {
            assert(run.tail.len() == 0);
        },
        Some(p) => {
            lemma_init_steps_wf(m0, l.root@, p, dirs, 0);
            let st = init_steps(m0, l.root@, p, dirs, 0);
            assert(run.tail == st.tail);
            assert forall|k: int|
                #![trigger run.tail[k]]
                0 <= k < run.tail.len() implies exists|j: int|
                0 <= j < dirs.len() && !dirs[j] && run.tail[k] == #[trigger] spec_join(
                    l.root@,
                    l.picks()->Some_0[j],
                ) by {
                assert(st.tail[k] == run.tail[k]);
                let j = choose|j: int|
                    0 <= j < p.len() && !dirs[j] && st.tail[k] == #[trigger] spec_join(
                        l.root@,
                        p[j],
                    );
                assert(0 <= j < dirs.len() && !dirs[j] && run.tail[k] == spec_join(
                    l.root@,
                    l.picks()->Some_0[j],
                ));
            }
        },
    }
}

/// A drained walk does not move: once the pending stack is empty, more
/// budget changes nothing.
proof fn lemma_walk_run_stable(
    m: WalkModel,
    tree: Map<Seq<char>, Seq<(Seq<char>, bool)>>,
    n1: nat,
    n2: nat,
)
    requires
        n1 <= n2,
        walk_run(m, tree, n1).pending.len() == 0,
    ensures
        walk_run(m, tree, n2) == walk_run(m, tree, n1),
    decreases n1,
{
    if m.pending.len() > 0 {
        lemma_walk_run_stable(walk_step(m, tree), tree, (n1 - 1) as nat, (n2 - 1) as nat);
    }
}

/// Walking the same unchanged directory tree twice yields the same files:
/// any two runs from the same starting state that both drain the pending
/// stack end in exactly the same state.
pub proof fn lemma_walk_deterministic(
    m: WalkModel,
    tree: Map<Seq<char>, Seq<(Seq<char>, bool)>>,
    n1: nat,
    n2: nat,
)
    requires
        walk_run(m, tree, n1).pending.len() == 0,
        walk_run(m, tree, n2).pending.len() == 0,
    ensures
        walk_run(m, tree, n1) == walk_run(m, tree, n2),
{
    if n1 <= n2 {
        lemma_walk_run_stable(m, tree, n1, n2);
    } else {
        lemma_walk_run_stable(m, tree, n2, n1);
    }
}

} // verus!
