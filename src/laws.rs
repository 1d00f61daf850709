//! Properties that tie the totals of a walk together.

use vstd::prelude::*;
use crate::walk::{
    dir_positions, files_under, fits_next, is_ancestor, is_counted, is_table_of, size_under,
    total_files, total_size, well_formed, EntryKind, FolderStat, WalkEntry, lemma_dir_positions,
    accepts,
};

verus! {

proof fn lemma_first_dir(es: Seq<WalkEntry>)
    requires
        es.len() > 0,
        es[0].kind == EntryKind::Directory,
    ensures
        dir_positions(es).len() > 0,
        dir_positions(es)[0] == 0,
    decreases es.len(),
{
    assert(es.drop_last().len() > 0 ==> es.drop_last()[0] == es[0]);
    if es.len() > 1 {
        lemma_first_dir(es.drop_last());
    } else {
        assert(dir_positions(es.drop_last()) == Seq::<int>::empty());
    }
}

proof fn lemma_root_sums(es: Seq<WalkEntry>, n: int)
    requires
        well_formed(es),
        es.len() > 0,
        es[0].kind == EntryKind::Directory,
        0 <= n <= es.len(),
    ensures
        size_under(es, 0, n) == total_size(es, n),
        files_under(es, 0, n) == total_files(es, n),
    decreases n,
{
    if n > 0 {
        lemma_root_sums(es, n - 1);
        if n - 1 > 0 {
            assert forall|k: int| 0 < k <= n - 1 implies 0 < #[trigger] es[k].depth by {
                assert(fits_next(es.take(k), es[k]));
            }
            assert(fits_next(es.take(0), es[0]));
            assert(is_ancestor(es, 0, n - 1));
        } else {
            assert(!is_counted(es[0]));
        }
    }
}

/// The root of a walk holds every file: the row of the root directory has
/// the bytes and the count of all files of known size in the walk.
pub proof fn lemma_root_holds_all(es: Seq<WalkEntry>, tbl: Seq<(String, FolderStat)>)
    requires
        well_formed(es),
        es.len() > 0,
        es[0].kind == EntryKind::Directory,
        is_table_of(es, tbl),
    ensures
        tbl.len() > 0,
        tbl[0].0@ == es[0].path@,
        tbl[0].1.size == total_size(es, es.len() as int),
        tbl[0].1.files == total_files(es, es.len() as int),
{
    lemma_first_dir(es);
    lemma_root_sums(es, es.len() as int);
    assert(tbl[0].0@ == es[dir_positions(es)[0]].path@);
}

/// Scanning is repeatable: two tables of the same walk agree row by row.
pub proof fn lemma_scan_repeatable(
    es: Seq<WalkEntry>,
    a: Seq<(String, FolderStat)>,
    b: Seq<(String, FolderStat)>,
)
    requires
        is_table_of(es, a),
        is_table_of(es, b),
    ensures
        a.len() == b.len(),
        forall|t: int| 0 <= t < a.len() ==> (#[trigger] a[t]).0@ == b[t].0@ && a[t].1 == b[t].1,
{
    assert forall|t: int| 0 <= t < a.len() implies (#[trigger] a[t]).0@ == b[t].0@ && a[t].1 == b[t].1 by {
        assert(b[t].0@ == es[dir_positions(es)[t]].path@);
    }
}

proof fn lemma_sums_step(es: Seq<WalkEntry>, e: WalkEntry, i: int)
    requires
        0 <= i < es.len(),
    ensures
        size_under(es.push(e), i, es.len() as int + 1) == size_under(es, i, es.len() as int) + if is_ancestor(
            es.push(e),
            i,
            es.len() as int,
        ) && is_counted(e) {
            e.size.unwrap() as int
        } else {
            0
        },
        files_under(es.push(e), i, es.len() as int + 1) == files_under(es, i, es.len() as int) + if is_ancestor(
            es.push(e),
            i,
            es.len() as int,
        ) && is_counted(e) {
            1int
        } else {
            0
        },
{
    crate::walk::lemma_sums_push(es, e, i, es.len() as int);
    assert(es.push(e)[es.len() as int] == e);
}

/// Adding a file of size `s` at the end of a walk adds `s` bytes and one
/// file to every directory that contains it, and leaves every other
/// directory as it was; whatever contains a directory that contains the
/// file contains the file too.
pub proof fn lemma_file_added(es: Seq<WalkEntry>, e: WalkEntry, s: u64)
    requires
        well_formed(es),
        accepts(es, e),
        e.kind == EntryKind::File,
        e.size == Some(s),
    ensures
        dir_positions(es.push(e)) == dir_positions(es),
        forall|t: int|
            0 <= t < dir_positions(es).len() ==> {
                let p = #[trigger] dir_positions(es)[t];
                &&& is_ancestor(es.push(e), p, es.len() as int) ==> {
                    &&& size_under(es.push(e), p, es.len() as int + 1) == size_under(es, p, es.len() as int) + s
                    &&& files_under(es.push(e), p, es.len() as int + 1) == files_under(es, p, es.len() as int) + 1
                }
                &&& !is_ancestor(es.push(e), p, es.len() as int) ==> {
                    &&& size_under(es.push(e), p, es.len() as int + 1) == size_under(es, p, es.len() as int)
                    &&& files_under(es.push(e), p, es.len() as int + 1) == files_under(es, p, es.len() as int)
                }
            },
        forall|p: int, i: int|
            is_ancestor(es.push(e), p, es.len() as int) && #[trigger] is_ancestor(es, i, p)
                ==> #[trigger] is_ancestor(es.push(e), i, es.len() as int),
{
    let es2 = es.push(e);
    let n = es.len() as int;
    assert(es2.drop_last() =~= es);
    lemma_dir_positions(es);
    assert forall|t: int| 0 <= t < dir_positions(es).len() implies {
        let p = #[trigger] dir_positions(es)[t];
        &&& is_ancestor(es2, p, n) ==> {
            &&& size_under(es2, p, n + 1) == size_under(es, p, n) + s
            &&& files_under(es2, p, n + 1) == files_under(es, p, n) + 1
        }
        &&& !is_ancestor(es2, p, n) ==> {
            &&& size_under(es2, p, n + 1) == size_under(es, p, n)
            &&& files_under(es2, p, n + 1) == files_under(es, p, n)
        }
    } by {
        lemma_sums_step(es, e, dir_positions(es)[t]);
    }
    assert forall|p: int, i: int|
        is_ancestor(es2, p, n) && #[trigger] is_ancestor(es, i, p) implies #[trigger] is_ancestor(es2, i, n) by {
        assert(es2[i] == es[i]);
        assert(es2[p] == es[p]);
        assert forall|k: int| i < k < n implies es2[i].depth < #[trigger] es2[k].depth by {
            if k < p {
                assert(es2[k] == es[k]);
            } else if k > p {
                assert(es2[p].depth < es2[k].depth);
            }
        }
    }
}

/// An entry whose size cannot be read, and which is no directory, is still
/// taken, and it changes no directory's row.
pub proof fn lemma_unreadable_entry(es: Seq<WalkEntry>, e: WalkEntry, tbl: Seq<(String, FolderStat)>)
    requires
        well_formed(es),
        fits_next(es, e),
        e.kind != EntryKind::Directory,
        e.size.is_none(),
        is_table_of(es, tbl),
    ensures
        accepts(es, e),
        is_table_of(es.push(e), tbl),
{
    let es2 = es.push(e);
    let n = es.len() as int;
    assert(es2.drop_last() =~= es);
    lemma_dir_positions(es);
    assert forall|t: int| 0 <= t < tbl.len() implies {
        &&& (#[trigger] tbl[t]).0@ == es2[dir_positions(es2)[t]].path@
        &&& tbl[t].1.size == size_under(es2, dir_positions(es2)[t], n + 1)
        &&& tbl[t].1.files == files_under(es2, dir_positions(es2)[t], n + 1)
    } by {
        let p = dir_positions(es)[t];
        lemma_sums_step(es, e, p);
        assert(es2[p] == es[p]);
    }
}

} // verus!
