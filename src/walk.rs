//! Aggregation of a pre-order directory walk into per-directory totals.
//!
//! A walk is a sequence of entries, each with its depth below the root. In a
//! pre-order walk a directory is an ancestor of a later entry exactly when
//! every entry between the two lies deeper than the directory; the scanner
//! keeps the chain of open directories so that each entry is credited to its
//! ancestors in time proportional to its depth.
//!
//! A file counts toward every directory that contains it, from its parent
//! up to and including the root; directories themselves add no bytes and
//! are not counted as files, and an entry whose size cannot be read adds
//! nothing. Every directory of the walk gets a row, empty ones included.

use vstd::prelude::*;

verus! {

/// What a walk entry is.
#[derive(PartialEq, Eq, Structural, Clone, Copy, Debug)]
pub enum EntryKind {
    Directory,
    File,
    Other,
}

/// One entry of a walk: its path (used only as the directory's key in the
/// result), its depth below the root, its kind, and its size when the
/// metadata could be read.
#[derive(Debug)]
pub struct WalkEntry {
    pub path: String,
    pub depth: usize,
    pub kind: EntryKind,
    pub size: Option<u64>,
}

/// The aggregate of one directory: total bytes and number of files below it.
#[derive(PartialEq, Eq, Structural, Clone, Copy, Debug)]
pub struct FolderStat {
    pub size: u64,
    pub files: usize,
}

/// The depth a next entry may have after the walk `es`: one more than the
/// last entry's when that entry is a directory, else the same.
pub open spec fn open_depth(es: Seq<WalkEntry>) -> int {
    if es.len() == 0 {
        0
    } else if es.last().kind == EntryKind::Directory {
        es.last().depth + 1
    } else {
        es.last().depth as int
    }
}

/// Whether `e` can follow the walk `es`: the first entry is the root, at
/// depth zero; every later one lies below the root and at most one level
/// under the last entry, and only under it when that entry is a directory.
pub open spec fn fits_next(es: Seq<WalkEntry>, e: WalkEntry) -> bool {
    if es.len() == 0 {
        e.depth == 0
    } else {
        1 <= e.depth <= open_depth(es)
    }
}

/// A walk in pre-order: every entry fits after those before it.
pub open spec fn well_formed(es: Seq<WalkEntry>) -> bool {
    forall|j: int| 0 <= j < es.len() ==> #[trigger] fits_next(es.take(j), es[j])
}

/// Entry `i` is a directory that contains entry `j`.
pub open spec fn is_ancestor(es: Seq<WalkEntry>, i: int, j: int) -> bool {
    &&& 0 <= i < j < es.len()
    &&& es[i].kind == EntryKind::Directory
    &&& es[i].depth < es[j].depth
    &&& forall|k: int| i < k < j ==> es[i].depth < #[trigger] es[k].depth
}

/// The entry is a file of known size.
pub open spec fn is_counted(e: WalkEntry) -> bool {
    e.kind == EntryKind::File && e.size.is_some()
}

/// The bytes of the counted files among the first `n` entries that lie
/// below entry `i`.
pub open spec fn size_under(es: Seq<WalkEntry>, i: int, n: int) -> int
    decreases n,
{
    if n <= 0 {
        0
    } else {
        size_under(es, i, n - 1) + if is_ancestor(es, i, n - 1) && is_counted(es[n - 1]) {
            es[n - 1].size.unwrap() as int
        } else {
            0
        }
    }
}

/// The number of counted files among the first `n` entries that lie below
/// entry `i`.
pub open spec fn files_under(es: Seq<WalkEntry>, i: int, n: int) -> int
    decreases n,
{
    if n <= 0 {
        0
    } else {
        files_under(es, i, n - 1) + if is_ancestor(es, i, n - 1) && is_counted(es[n - 1]) {
            1int
        } else {
            0
        }
    }
}

/// The bytes of all counted files among the first `n` entries.
pub open spec fn total_size(es: Seq<WalkEntry>, n: int) -> int
    decreases n,
{
    if n <= 0 {
        0
    } else {
        total_size(es, n - 1) + if is_counted(es[n - 1]) {
            es[n - 1].size.unwrap() as int
        } else {
            0
        }
    }
}

/// The number of counted files among the first `n` entries.
pub open spec fn total_files(es: Seq<WalkEntry>, n: int) -> int
    decreases n,
{
    if n <= 0 {
        0
    } else {
        total_files(es, n - 1) + if is_counted(es[n - 1]) {
            1int
        } else {
            0
        }
    }
}

/// The positions of the directories of the walk, in walk order.
pub open spec fn dir_positions(es: Seq<WalkEntry>) -> Seq<int>
    decreases es.len(),
{
    if es.len() == 0 {
        Seq::empty()
    } else {
        let before = dir_positions(es.drop_last());
        if es.last().kind == EntryKind::Directory {
            before.push(es.len() - 1)
        } else {
            before
        }
    }
}

/// Whether the totals of `counted` still fit their machine types once `e`
/// is added to the walk `es`.
pub open spec fn totals_fit(es: Seq<WalkEntry>, e: WalkEntry) -> bool {
    is_counted(e) ==> {
        &&& total_size(es, es.len() as int) + e.size.unwrap() <= u64::MAX
        &&& total_files(es, es.len() as int) + 1 <= usize::MAX
    }
}

/// Whether the scanner takes `e` after the walk `es`.
pub open spec fn accepts(es: Seq<WalkEntry>, e: WalkEntry) -> bool {
    fits_next(es, e) && totals_fit(es, e)
}

/// `tbl` is the table of the walk `es`: one row per directory, in walk
/// order, holding its path and the totals of the files below it.
pub open spec fn is_table_of(es: Seq<WalkEntry>, tbl: Seq<(String, FolderStat)>) -> bool {
    let pos = dir_positions(es);
    &&& tbl.len() == pos.len()
    &&& forall|t: int|
        0 <= t < tbl.len() ==> {
            &&& (#[trigger] tbl[t]).0@ == es[pos[t]].path@
            &&& tbl[t].1.size == size_under(es, pos[t], es.len() as int)
            &&& tbl[t].1.files == files_under(es, pos[t], es.len() as int)
        }
}


/// The directory positions lie in the walk, in increasing order, and each
/// names a directory.
pub(crate) proof fn lemma_dir_positions(es: Seq<WalkEntry>)
    ensures
        forall|t: int|
            0 <= t < dir_positions(es).len() ==> {
                &&& 0 <= #[trigger] dir_positions(es)[t] < es.len()
                &&& es[dir_positions(es)[t]].kind == EntryKind::Directory
            },
        forall|t: int, u: int|
            0 <= t < u < dir_positions(es).len() ==> #[trigger] dir_positions(es)[t]
                < #[trigger] dir_positions(es)[u],
    decreases es.len(),
{
    if es.len() > 0 {
        lemma_dir_positions(es.drop_last());
    }
}

proof fn lemma_dir_positions_push(es: Seq<WalkEntry>, e: WalkEntry)
    ensures
        dir_positions(es.push(e)) == if e.kind == EntryKind::Directory {
            dir_positions(es).push(es.len() as int)
        } else {
            dir_positions(es)
        },
{
    assert(es.push(e).drop_last() =~= es);
}

/// Appending an entry changes nothing about the entries before it.
pub(crate) proof fn lemma_sums_push(es: Seq<WalkEntry>, e: WalkEntry, i: int, n: int)
    requires
        0 <= n <= es.len(),
    ensures
        size_under(es.push(e), i, n) == size_under(es, i, n),
        files_under(es.push(e), i, n) == files_under(es, i, n),
        total_size(es.push(e), n) == total_size(es, n),
        total_files(es.push(e), n) == total_files(es, n),
    decreases n,
{
    if n > 0 {
        lemma_sums_push(es, e, i, n - 1);
        let es2 = es.push(e);
        assert(is_ancestor(es2, i, n - 1) == is_ancestor(es, i, n - 1)) by {
            if is_ancestor(es, i, n - 1) {
                assert forall|k: int| i < k < n - 1 implies es2[i].depth < #[trigger] es2[k].depth by {
                    assert(es2[k] == es[k]);
                }
            }
            if is_ancestor(es2, i, n - 1) {
                assert forall|k: int| i < k < n - 1 implies es[i].depth < #[trigger] es[k].depth by {
                    assert(es2[k] == es[k]);
                }
            }
        }
    }
}

/// What lies below one directory is part of the whole.
proof fn lemma_under_le_total(es: Seq<WalkEntry>, i: int, n: int)
    ensures
        size_under(es, i, n) <= total_size(es, n),
        files_under(es, i, n) <= total_files(es, n),
        0 <= size_under(es, i, n),
        0 <= files_under(es, i, n),
    decreases n,
{
    if n > 0 {
        lemma_under_le_total(es, i, n - 1);
    }
}

proof fn lemma_well_formed_push(es: Seq<WalkEntry>, e: WalkEntry)
    requires
        well_formed(es),
        fits_next(es, e),
    ensures
        well_formed(es.push(e)),
{
    let es2 = es.push(e);
    assert forall|j: int| 0 <= j < es2.len() implies #[trigger] fits_next(es2.take(j), es2[j]) by {
        if j < es.len() {
            assert(es2.take(j) =~= es.take(j));
            assert(fits_next(es.take(j), es[j]));
        } else {
            assert(es2.take(j) =~= es);
        }
    }
}


proof fn lemma_under_before(es: Seq<WalkEntry>, i: int, n: int)
    requires
        n <= i + 1,
    ensures
        size_under(es, i, n) == 0,
        files_under(es, i, n) == 0,
    decreases n,
{
    if n > 0 {
        lemma_under_before(es, i, n - 1);
    }
}

/// The walk that remains of `s` once the scanner has dropped every entry it
/// does not accept.
pub open spec fn accepted_walk(s: Seq<WalkEntry>) -> Seq<WalkEntry>
    decreases s.len(),
{
    if s.len() == 0 {
        Seq::empty()
    } else {
        let w = accepted_walk(s.drop_last());
        if accepts(w, s.last()) {
            w.push(s.last())
        } else {
            w
        }
    }
}

/// Directories shallower than this are announced while the walk runs.
pub const PROGRESS_DEPTH: usize = 4;

/// Whether the walk should announce `e` as the directory being scanned.
pub fn announces(e: &WalkEntry) -> (r: bool)
    ensures
        r == (e.kind == EntryKind::Directory && e.depth < PROGRESS_DEPTH),
{
    e.kind == EntryKind::Directory && e.depth < PROGRESS_DEPTH
}

/// Streaming aggregation of a walk.
pub struct Scanner {
    entries: Ghost<Seq<WalkEntry>>,
    paths: Vec<String>,
    stats: Vec<FolderStat>,
    /// Row of each directory that still contains the next entry, by depth.
    open: Vec<usize>,
    total: FolderStat,
    started: bool,
}

impl View for Scanner {
    type V = Seq<WalkEntry>;

    /// The entries taken so far.
    closed spec fn view(&self) -> Seq<WalkEntry> {
        self.entries@
    }
}

impl Scanner {
    /// Entry `t` of `open` names the directory at depth `t` that contains
    /// every entry after it.
    spec fn open_chain(&self) -> bool {
        let es = self.entries@;
        let pos = dir_positions(es);
        forall|l: int|
            0 <= l < self.open@.len() ==> {
                &&& (#[trigger] self.open@[l]) < pos.len()
                &&& es[pos[self.open@[l] as int]].depth == l
                &&& forall|k: int|
                    pos[self.open@[l] as int] < k < es.len() ==> l < #[trigger] es[k].depth
            }
    }

    pub closed spec fn inv(&self) -> bool {
        let es = self.entries@;
        let pos = dir_positions(es);
        &&& well_formed(es)
        &&& self.started == (es.len() > 0)
        &&& self.open@.len() == open_depth(es)
        &&& self.open_chain()
        &&& self.paths@.len() == pos.len()
        &&& self.stats@.len() == pos.len()
        &&& forall|t: int|
            0 <= t < pos.len() ==> {
                &&& (#[trigger] self.paths@[t])@ == es[pos[t]].path@
                &&& self.stats@[t].size == size_under(es, pos[t], es.len() as int)
                &&& self.stats@[t].files == files_under(es, pos[t], es.len() as int)
            }
        &&& self.total.size == total_size(es, es.len() as int)
        &&& self.total.files == total_files(es, es.len() as int)
    }

    /// A scanner that has taken nothing.
    pub fn new() -> (r: Scanner)
        ensures
            r.inv(),
            r@ == Seq::<WalkEntry>::empty(),
    {
        Scanner {
            entries: Ghost(Seq::empty()),
            paths: Vec::new(),
            stats: Vec::new(),
            open: Vec::new(),
            total: FolderStat { size: 0, files: 0 },
            started: false,
        }
    }

    /// The directories that contain the next entry, at depth `d`, are those
    /// the open chain lists below `d`.
    proof fn lemma_ancestors_of_next(&self, e: WalkEntry, t: int)
        requires
            self.inv(),
            fits_next(self@, e),
            0 <= t < dir_positions(self@).len(),
        ensures
            is_ancestor(self@.push(e), dir_positions(self@)[t], self@.len() as int) <==> {
                let l = self@[dir_positions(self@)[t]].depth as int;
                l < e.depth && self.open@[l] == t
            },
    {
        let es = self.entries@;
        let es2 = es.push(e);
        let n = es.len() as int;
        let pos = dir_positions(es);
        lemma_dir_positions(es);
        let p = pos[t];
        let l = es[p].depth as int;
        assert(es2[p] == es[p]);
        if is_ancestor(es2, p, n) {
            assert(l < open_depth(es)) by {
                if p < n - 1 {
                    assert(es2[n - 1] == es[n - 1]);
                }
            }
            let u = self.open@[l] as int;
            assert(self.open@[l] < pos.len());
            let q = pos[u];
            if q < p {
                assert(es2[p] == es[p]);
            } else if p < q {
                assert(es2[q] == es[q]);
            }
            assert(p == q);
            if t < u {
                assert(pos[t] < pos[u]);
            } else if u < t {
                assert(pos[u] < pos[t]);
            }
        }
        if l < e.depth && self.open@[l] == t {
            assert forall|k: int| p < k < n implies es2[p].depth < #[trigger] es2[k].depth by {
                assert(es2[k] == es[k]);
            }
        }
    }

    /// Takes the next entry of the walk, or leaves the scanner as it was
    /// when the entry cannot follow the walk so far or its size would
    /// overflow the totals.
    pub fn record(&mut self, e: WalkEntry) -> (accepted: bool)
        requires
            old(self).inv(),
        ensures
            final(self).inv(),
            well_formed(final(self)@),
            accepted == accepts(old(self)@, e),
            final(self)@ == if accepted {
                old(self)@.push(e)
            } else {
                old(self)@
            },
    {
        let ghost es = self.entries@;
        let ghost n = es.len() as int;
        let ghost es2 = es.push(e);
        let ghost pos = dir_positions(es);
        if !self.started {
            if e.depth != 0 {
                return false;
            }
        } else if e.depth == 0 || e.depth > self.open.len() {
            return false;
        }
        let counted = e.kind == EntryKind::File && e.size.is_some();
        let mut s: u64 = 0;
        if counted {
            s = e.size.unwrap();
            if self.total.size > u64::MAX - s || self.total.files == usize::MAX {
                return false;
            }
        }
        proof {
            lemma_dir_positions(es);
            lemma_well_formed_push(es, e);
            lemma_dir_positions_push(es, e);
        }
        let d = e.depth;
        let ghost open0 = self.open@;
        let ghost stats0 = self.stats@;
        let ghost paths0 = self.paths@;
        proof {
            assert forall|t: int| 0 <= t < pos.len() implies (lists(open0, d as int, t) <==> is_ancestor(es2, pos[t], n)) by {
                self.lemma_ancestors_of_next(e, t);
                if lists(open0, d as int, t) {
                    let m = choose|m: int| 0 <= m < d && open0[m] == t;
                    assert(self.open@[m] < pos.len());
                }
            }
        }
        if counted {
            proof {
                assert forall|l: int| 0 <= l < d implies #[trigger] open0[l] < stats0.len() && stats0[open0[l] as int].size + s <= u64::MAX
                    && stats0[open0[l] as int].files + 1 <= usize::MAX by {
                    assert(self.open@[l] < pos.len());
                    assert(self.paths@[open0[l] as int]@ == es[pos[open0[l] as int]].path@);
                    lemma_under_le_total(es, pos[open0[l] as int], n);
                }
                assert forall|l1: int, l2: int| 0 <= l1 < l2 < d implies #[trigger] open0[l1] != #[trigger] open0[l2] by {
                    assert(self.open@[l1] < pos.len());
                    assert(self.open@[l2] < pos.len());
                }
            }
            credit(&mut self.stats, &self.open, d, s);
        }
        self.open.truncate(d);
        if e.kind == EntryKind::Directory {
            self.open.push(self.stats.len());
            self.paths.push(e.path.clone());
            self.stats.push(FolderStat { size: 0, files: 0 });
        }
        if counted {
            self.total = FolderStat { size: self.total.size + s, files: self.total.files + 1 };
        }
        self.started = true;
        self.entries = Ghost(es2);
        proof {
            let pos2 = dir_positions(es2);
            lemma_dir_positions(es2);
            lemma_sums_push(es, e, 0, n);
            assert forall|t: int| 0 <= t < pos2.len() implies {
                &&& (#[trigger] self.paths@[t])@ == es2[pos2[t]].path@
                &&& self.stats@[t].size == size_under(es2, pos2[t], n + 1)
                &&& self.stats@[t].files == files_under(es2, pos2[t], n + 1)
            } by {
                lemma_sums_push(es, e, pos2[t], n);
                if t == pos.len() {
                    lemma_under_before(es2, n, n + 1);
                } else {
                    assert(paths0[t]@ == es[pos[t]].path@);
                    assert(es2[pos[t]] == es[pos[t]]);
                    assert(pos2[t] == pos[t]);
                    assert(self.paths@[t] == paths0[t]);
                    if counted {
                        assert(lists(open0, d as int, t) <==> is_ancestor(es2, pos[t], n));
                        assert(is_counted(es2[n]));
                    } else {
                        assert(!is_counted(es2[n]));
                    }
                }
            }
            assert forall|l: int| 0 <= l < self.open@.len() implies {
                &&& (#[trigger] self.open@[l]) < pos2.len()
                &&& es2[pos2[self.open@[l] as int]].depth == l
                &&& forall|k: int|
                    pos2[self.open@[l] as int] < k < es2.len() ==> l < #[trigger] es2[k].depth
            } by {
                if l < d {
                    assert(open0[l] < pos.len());
                    assert(self.open@[l] == open0[l]);
                    assert forall|k: int| pos2[self.open@[l] as int] < k < es2.len() implies l < #[trigger] es2[k].depth by {
                        if k < n {
                            assert(es2[k] == es[k]);
                        }
                    }
                }
            }
            assert(self.open_chain());
        }
        true
    }

    /// The table of the walk taken so far: one row per directory, in walk
    /// order, with its path and totals.
    pub fn table(&self) -> (r: Vec<(String, FolderStat)>)
        requires
            self.inv(),
        ensures
            is_table_of(self@, r@),
    {
        let ghost es = self.entries@;
        let ghost pos = dir_positions(es);
        let mut r: Vec<(String, FolderStat)> = Vec::new();
        let mut t: usize = 0;
        while t < self.stats.len()
            invariant
                self.inv(),
                self.entries@ == es,
                pos == dir_positions(es),
                0 <= t <= self.stats@.len(),
                r@.len() == t,
                forall|u: int|
                    0 <= u < t ==> {
                        &&& (#[trigger] r@[u]).0@ == es[pos[u]].path@
                        &&& r@[u].1.size == size_under(es, pos[u], es.len() as int)
                        &&& r@[u].1.files == files_under(es, pos[u], es.len() as int)
                    },
            decreases self.stats@.len() - t,
        {
            proof {
                assert(self.paths@[t as int]@ == es[pos[t as int]].path@);
            }
            r.push((self.paths[t].clone(), self.stats[t]));
            t += 1;
        }
        r
    }
}

impl WalkEntry {
    /// A copy of this entry.
    pub fn duplicate(&self) -> (r: WalkEntry)
        ensures
            r == *self,
    {
        WalkEntry { path: self.path.clone(), depth: self.depth, kind: self.kind, size: self.size }
    }
}

/// The table of a whole walk: every entry is offered to a fresh scanner in
/// turn.
pub fn scan_walk(entries: &Vec<WalkEntry>) -> (r: Vec<(String, FolderStat)>)
    ensures
        well_formed(accepted_walk(entries@)),
        is_table_of(accepted_walk(entries@), r@),
{
    let mut sc = Scanner::new();
    let mut i: usize = 0;
    while i < entries.len()
        invariant
            sc.inv(),
            0 <= i <= entries@.len(),
            sc@ == accepted_walk(entries@.take(i as int)),
        decreases entries@.len() - i,
    {
        proof {
            assert(entries@.take(i + 1).drop_last() =~= entries@.take(i as int));
        }
        sc.record(entries[i].duplicate());
        i += 1;
    }
    proof {
        assert(entries@.take(entries@.len() as int) =~= entries@);
    }
    sc.table()
}

/// `t` is among the first `l` rows listed in `open`.
spec fn lists(open: Seq<usize>, l: int, t: int) -> bool {
    exists|m: int| 0 <= m < l && open[m] == t
}

/// Adds `s` bytes and one file to each of the first `d` rows listed in
/// `open`.
fn credit(stats: &mut Vec<FolderStat>, open: &Vec<usize>, d: usize, s: u64)
    requires
        d <= open@.len(),
        forall|l: int|
            0 <= l < d ==> #[trigger] open@[l] < old(stats)@.len() && old(stats)@[open@[l] as int].size
                + s <= u64::MAX && old(stats)@[open@[l] as int].files + 1 <= usize::MAX,
        forall|l1: int, l2: int| 0 <= l1 < l2 < d ==> #[trigger] open@[l1] != #[trigger] open@[l2],
    ensures
        final(stats)@.len() == old(stats)@.len(),
        forall|t: int|
            0 <= t < old(stats)@.len() ==> #[trigger] final(stats)@[t] == if lists(open@, d as int, t) {
                FolderStat { size: (old(stats)@[t].size + s) as u64, files: (old(stats)@[t].files + 1) as usize }
            } else {
                old(stats)@[t]
            },
{
    let ghost s0 = stats@;
    let mut l: usize = 0;
    while l < d
        invariant
            0 <= l <= d <= open@.len(),
            stats@.len() == s0.len(),
            forall|m: int|
                0 <= m < d ==> #[trigger] open@[m] < s0.len() && s0[open@[m] as int].size + s <= u64::MAX
                    && s0[open@[m] as int].files + 1 <= usize::MAX,
            forall|l1: int, l2: int| 0 <= l1 < l2 < d ==> #[trigger] open@[l1] != #[trigger] open@[l2],
            forall|t: int|
                0 <= t < s0.len() ==> #[trigger] stats@[t] == if lists(open@, l as int, t) {
                    FolderStat { size: (s0[t].size + s) as u64, files: (s0[t].files + 1) as usize }
                } else {
                    s0[t]
                },
        decreases d - l,
    {
        let t = open[l];
        proof {
            if lists(open@, l as int, t as int) {
                let m = choose|m: int| 0 <= m < l && open@[m] == t;
                assert(open@[m] != open@[l as int]);
            }
        }
        let old_stat = stats[t];
        stats.set(t, FolderStat { size: old_stat.size + s, files: old_stat.files + 1 });
        proof {
            assert forall|u: int| 0 <= u < s0.len() implies lists(open@, l + 1, u) == (lists(open@, l as int, u) || u == t) by {
                if lists(open@, l + 1, u) && u != t {
                    let m = choose|m: int| 0 <= m < l + 1 && open@[m] == u;
                    assert(0 <= m < l && open@[m] == u);
                }
                if u == t {
                    assert(open@[l as int] == u);
                }
            }
        }
        l += 1;
    }
}

} // verus!
