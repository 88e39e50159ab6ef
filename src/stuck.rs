use vstd::prelude::*;

use crate::constants::is_root_name;
use crate::diagnose::{
    cycle_report, dfs, dfs_parents, diagnose, lemma_add_report_keeps, lemma_distinct_bound, lookup,
    no_internal, path_pos,
};
use crate::error::{add_report, ErrorModel};
use crate::internal_rep::{names_unique, TypeModel};
use crate::resolve::{keep, lemma_keep_unready, lemma_split_covers, pick, placed, ready};

verus! {

/// `path` is a walk path of distinct catalog positions that does not hold `t`.
pub open spec fn simple_walk(cat: Seq<TypeModel>, path: Seq<usize>, t: usize) -> bool {
    &&& t < cat.len()
    &&& forall|i: int| 0 <= i < path.len() ==> #[trigger] path[i] < cat.len()
    &&& path.no_duplicates()
    &&& !path.contains(t)
}

/// Layered resolution stopped on an empty layer: every type is placed or remaining.
pub open spec fn stopped(cat: Seq<TypeModel>, done: Seq<usize>, rem: Seq<usize>) -> bool {
    &&& pick(cat, done, rem).len() == 0
    &&& forall|x: usize| x < cat.len() ==> done.contains(x) || rem.contains(x)
    &&& forall|j: int| 0 <= j < done.len() ==> #[trigger] done[j] < cat.len()
}

proof fn lemma_walk_short(cat: Seq<TypeModel>, path: Seq<usize>, t: usize)
    requires
        simple_walk(cat, path, t),
    ensures
        path.len() < cat.len(),
{
    let pt = path.push(t);
    assert forall|i: int| 0 <= i < pt.len() implies #[trigger] pt[i] < cat.len() by {
        if i < path.len() {
            assert(pt[i] == path[i]);
        }
    }
    assert forall|i: int, j: int| 0 <= i < pt.len() && 0 <= j < pt.len() && i != j implies pt[i]
        != pt[j] by {
        if i < path.len() && j < path.len() {
            assert(pt[i] == path[i] && pt[j] == path[j]);
        } else if i < path.len() {
            assert(path.contains(pt[i]));
        } else if j < path.len() {
            assert(path.contains(pt[j]));
        }
    }
    lemma_distinct_bound(pt, cat.len());
}

proof fn lemma_lookup_some(cat: Seq<TypeModel>, p: Seq<char>)
    requires
        cat.len() <= usize::MAX,
        lookup(cat, p) is Some,
    ensures
        lookup(cat, p)->Some_0 < cat.len(),
        cat[lookup(cat, p)->Some_0 as int].name == p,
{
    let j = choose|j: int| 0 <= j < cat.len() && #[trigger] cat[j].name == p;
    assert((j as usize) < cat.len() && cat[(j as usize) as int].name == p);
}

/// Once something is met, the walk reports that it met something.
proof fn lemma_found_sticks(
    cat: Seq<TypeModel>,
    path: Seq<usize>,
    t: usize,
    k: int,
    acc: Seq<ErrorModel>,
)
    ensures
        dfs_parents(cat, path, t, k, acc, true).1,
    decreases cat[t as int].inherits.len() - k,
{
    if !(path.len() >= cat.len() || k < 0 || k >= cat[t as int].inherits.len()) {
        let p = cat[t as int].inherits[k];
        if is_root_name(p) {
            lemma_found_sticks(cat, path, t, k + 1, acc);
        } else {
            match lookup(cat, p) {
                None => lemma_found_sticks(
                    cat,
                    path,
                    t,
                    k + 1,
                    add_report(acc, ErrorModel::UndeclaredParent(cat[t as int].name, p)),
                ),
                Some(q) => if q == t {
                    lemma_found_sticks(
                        cat,
                        path,
                        t,
                        k + 1,
                        add_report(acc, cycle_report(cat, path, path.len() as int, t)),
                    );
                } else if path.contains(q) {
                    lemma_found_sticks(
                        cat,
                        path,
                        t,
                        k + 1,
                        add_report(acc, cycle_report(cat, path, path_pos(path, q), t)),
                    );
                } else {
                    lemma_found_sticks(cat, path, t, k + 1, dfs(cat, path.push(t), q, acc).0);
                },
            }
        }
    }
}

/// A walk over the parents of `t` from the `k`-th on that meets nothing finds each of them
/// a root or placed.
proof fn lemma_parents_clean(
    cat: Seq<TypeModel>,
    done: Seq<usize>,
    rem: Seq<usize>,
    path: Seq<usize>,
    t: usize,
    k: int,
    acc: Seq<ErrorModel>,
    found: bool,
)
    requires
        names_unique(cat),
        cat.len() <= usize::MAX,
        stopped(cat, done, rem),
        simple_walk(cat, path, t),
        0 <= k,
        !dfs_parents(cat, path, t, k, acc, found).1,
    ensures
        !found,
        forall|k2: int|
            k <= k2 < cat[t as int].inherits.len() ==> is_root_name(
                #[trigger] cat[t as int].inherits[k2],
            ) || placed(cat, done, cat[t as int].inherits[k2]),
    decreases cat.len() - path.len(), cat[t as int].inherits.len() - k,
{
    lemma_walk_short(cat, path, t);
    if found {
        lemma_found_sticks(cat, path, t, k, acc);
    }
    if k < cat[t as int].inherits.len() {
        let p = cat[t as int].inherits[k];
        if is_root_name(p) {
            lemma_parents_clean(cat, done, rem, path, t, k + 1, acc, found);
        } else {
            match lookup(cat, p) {
                None => {
                    lemma_found_sticks(
                        cat,
                        path,
                        t,
                        k + 1,
                        add_report(acc, ErrorModel::UndeclaredParent(cat[t as int].name, p)),
                    );
                },
                Some(q) => {
                    if q == t {
                        lemma_found_sticks(
                            cat,
                            path,
                            t,
                            k + 1,
                            add_report(acc, cycle_report(cat, path, path.len() as int, t)),
                        );
                    } else if path.contains(q) {
                        lemma_found_sticks(
                            cat,
                            path,
                            t,
                            k + 1,
                            add_report(acc, cycle_report(cat, path, path_pos(path, q), t)),
                        );
                    } else {
                        let r = dfs(cat, path.push(t), q, acc);
                        if r.1 {
                            lemma_found_sticks(cat, path, t, k + 1, r.0);
                        }
                        lemma_parents_clean(cat, done, rem, path, t, k + 1, r.0, false);
                        lemma_lookup_some(cat, p);
                        let pt = path.push(t);
                        assert forall|i: int| 0 <= i < pt.len() implies #[trigger] pt[i]
                            < cat.len() by {
                            if i < path.len() {
                                assert(pt[i] == path[i]);
                            }
                        }
                        assert forall|i: int, j: int|
                            0 <= i < pt.len() && 0 <= j < pt.len() && i != j implies pt[i]
                            != pt[j] by {
                            if i < path.len() && j < path.len() {
                                assert(pt[i] == path[i] && pt[j] == path[j]);
                            } else if i < path.len() {
                                assert(path.contains(pt[i]));
                            } else if j < path.len() {
                                assert(path.contains(pt[j]));
                            }
                        }
                        assert(!pt.contains(q)) by {
                            if pt.contains(q) {
                                let w = choose|w: int| 0 <= w < pt.len() && pt[w] == q;
                                if w < path.len() {
                                    assert(path[w] == q);
                                }
                            }
                        }
                        lemma_clean_in_done(cat, done, rem, pt, q, acc);
                        let j = choose|j: int| 0 <= j < done.len() && done[j] == q;
                        assert(cat[done[j] as int].name == p);
                        assert(placed(cat, done, p));
                    }
                },
            }
        }
    }
}

/// A type whose walk meets nothing was placed before resolution stopped.
proof fn lemma_clean_in_done(
    cat: Seq<TypeModel>,
    done: Seq<usize>,
    rem: Seq<usize>,
    path: Seq<usize>,
    t: usize,
    acc: Seq<ErrorModel>,
)
    requires
        names_unique(cat),
        cat.len() <= usize::MAX,
        stopped(cat, done, rem),
        simple_walk(cat, path, t),
        !dfs(cat, path, t, acc).1,
    ensures
        done.contains(t),
    decreases cat.len() - path.len(), cat[t as int].inherits.len() + 1,
{
    lemma_parents_clean(cat, done, rem, path, t, 0, acc, false);
    assert(ready(cat, done, t));
    if !done.contains(t) {
        assert(rem.contains(t));
        lemma_split_covers(cat, done, rem, t);
        lemma_keep_unready(cat, done, rem);
        let k = keep(cat, done, rem);
        let m = choose|m: int| 0 <= m < k.len() && k[m] == t;
        assert(!ready(cat, done, k[m]));
    }
}

/// The walk adds no internal error.
proof fn lemma_parents_no_internal(
    cat: Seq<TypeModel>,
    path: Seq<usize>,
    t: usize,
    k: int,
    acc: Seq<ErrorModel>,
    found: bool,
)
    requires
        no_internal(acc),
    ensures
        no_internal(dfs_parents(cat, path, t, k, acc, found).0),
    decreases cat.len() - path.len(), cat[t as int].inherits.len() - k,
{
    if !(path.len() >= cat.len() || k < 0 || k >= cat[t as int].inherits.len()) {
        let p = cat[t as int].inherits[k];
        if is_root_name(p) {
            lemma_parents_no_internal(cat, path, t, k + 1, acc, found);
        } else {
            match lookup(cat, p) {
                None => {
                    let e = ErrorModel::UndeclaredParent(cat[t as int].name, p);
                    lemma_add_report_keeps(acc, e);
                    lemma_parents_no_internal(cat, path, t, k + 1, add_report(acc, e), true);
                },
                Some(q) => if q == t {
                    let e = cycle_report(cat, path, path.len() as int, t);
                    lemma_add_report_keeps(acc, e);
                    lemma_parents_no_internal(cat, path, t, k + 1, add_report(acc, e), true);
                } else if path.contains(q) {
                    let e = cycle_report(cat, path, path_pos(path, q), t);
                    lemma_add_report_keeps(acc, e);
                    lemma_parents_no_internal(cat, path, t, k + 1, add_report(acc, e), true);
                } else {
                    lemma_dfs_no_internal(cat, path.push(t), q, acc);
                    let r = dfs(cat, path.push(t), q, acc);
                    lemma_parents_no_internal(cat, path, t, k + 1, r.0, found || r.1);
                },
            }
        }
    }
}

proof fn lemma_dfs_no_internal(cat: Seq<TypeModel>, path: Seq<usize>, t: usize, acc: Seq<ErrorModel>)
    requires
        no_internal(acc),
    ensures
        no_internal(dfs(cat, path, t, acc).0),
    decreases cat.len() - path.len(), cat[t as int].inherits.len() + 1,
{
    lemma_parents_no_internal(cat, path, t, 0, acc, false);
}

/// When resolution stops, the walk from each unplaced type meets a missing parent or a
/// cycle, so the diagnosis holds no internal error.
pub proof fn lemma_diagnose_no_internal(
    cat: Seq<TypeModel>,
    done: Seq<usize>,
    rem: Seq<usize>,
    i: int,
    acc: Seq<ErrorModel>,
)
    requires
        names_unique(cat),
        cat.len() <= usize::MAX,
        stopped(cat, done, rem),
        forall|j: int| 0 <= j < rem.len() ==> #[trigger] rem[j] < cat.len() && !done.contains(rem[j]),
        0 <= i,
        no_internal(acc),
    ensures
        no_internal(diagnose(cat, rem, i, acc)),
    decreases rem.len() - i,
{
    if i < rem.len() {
        let t = rem[i];
        assert(simple_walk(cat, seq![], t));
        if !dfs(cat, seq![], t, acc).1 {
            lemma_clean_in_done(cat, done, rem, seq![], t, acc);
        }
        lemma_dfs_no_internal(cat, seq![], t, acc);
        lemma_diagnose_no_internal(cat, done, rem, i + 1, dfs(cat, seq![], t, acc).0);
    }
}

} // verus!
