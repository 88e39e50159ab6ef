use vstd::prelude::*;

use crate::constants::is_root_name;
use crate::error::{add_report, ErrorModel};
use crate::internal_rep::{has_name, names_unique, TypeModel};

verus! {

/// Whether some type named `a` lists `b` among its parents.
pub open spec fn parent_link(cat: Seq<TypeModel>, a: Seq<char>, b: Seq<char>) -> bool {
    exists|t: int| 0 <= t < cat.len() && #[trigger] cat[t].name == a && cat[t].inherits.contains(b)
}

/// Whether `c` names catalog types each inheriting the next, the last inheriting the first.
pub open spec fn is_cycle(cat: Seq<TypeModel>, c: Seq<Seq<char>>) -> bool {
    &&& c.len() > 0
    &&& forall|i: int| 0 <= i < c.len() - 1 ==> parent_link(cat, #[trigger] c[i], c[i + 1])
    &&& parent_link(cat, c[c.len() - 1], c[0])
}

/// What a diagnostic of the resolver may say: a real missing parent or a real cycle.
pub open spec fn valid_diagnostic(cat: Seq<TypeModel>, e: ErrorModel) -> bool {
    match e {
        ErrorModel::UndeclaredParent(t, p) => parent_link(cat, t, p) && !is_root_name(p)
            && !has_name(cat, p),
        ErrorModel::InheritanceCycle(c) => is_cycle(cat, c),
        _ => false,
    }
}

/// Whether the `k`-th parent of type `t` is neither a root nor a declared type.
pub open spec fn missing_parent(cat: Seq<TypeModel>, t: usize, k: int) -> bool {
    &&& t < cat.len()
    &&& 0 <= k < cat[t as int].inherits.len()
    &&& !is_root_name(cat[t as int].inherits[k])
    &&& !has_name(cat, cat[t as int].inherits[k])
}

/// The report of the `k`-th parent of type `t` as missing.
pub open spec fn missing_report(cat: Seq<TypeModel>, t: usize, k: int) -> ErrorModel {
    ErrorModel::UndeclaredParent(cat[t as int].name, cat[t as int].inherits[k])
}

/// Whether type `a` lists the name of type `b` among its parents.
pub open spec fn link(cat: Seq<TypeModel>, a: usize, b: usize) -> bool {
    cat[a as int].inherits.contains(cat[b as int].name)
}

/// A cycle given by catalog positions.
pub open spec fn index_cycle(cat: Seq<TypeModel>, c: Seq<usize>) -> bool {
    &&& c.len() > 0
    &&& forall|i: int| 0 <= i < c.len() ==> #[trigger] c[i] < cat.len()
    &&& forall|i: int| 0 <= i < c.len() - 1 ==> link(cat, #[trigger] c[i], c[i + 1])
    &&& link(cat, c[c.len() - 1], c[0])
}

/// The names of the types at positions `c`.
pub open spec fn names_at(cat: Seq<TypeModel>, c: Seq<usize>) -> Seq<Seq<char>> {
    c.map_values(|i: usize| cat[i as int].name)
}

pub proof fn lemma_rotate_cycle(cat: Seq<TypeModel>, c: Seq<usize>, m: int)
    requires
        index_cycle(cat, c),
        0 <= m < c.len(),
    ensures
        index_cycle(cat, c.subrange(m, c.len() as int) + c.subrange(0, m)),
{
    let l = c.len() as int;
    let r = c.subrange(m, l) + c.subrange(0, m);
    assert(r.len() == l);
    assert forall|i: int| 0 <= i < r.len() implies #[trigger] r[i] < cat.len() by {
        if i < l - m {
            assert(r[i] == c[m + i]);
        } else {
            assert(r[i] == c[i - (l - m)]);
        }
    }
    assert forall|i: int| 0 <= i < r.len() - 1 implies link(cat, #[trigger] r[i], r[i + 1]) by {
        if i < l - m - 1 {
            assert(r[i] == c[m + i]);
            assert(r[i + 1] == c[m + i + 1]);
        } else if i == l - m - 1 {
            assert(r[i] == c[l - 1]);
            assert(r[i + 1] == c[0]);
        } else {
            assert(r[i] == c[i - (l - m)]);
            assert(r[i + 1] == c[i - (l - m) + 1]);
        }
    }
    if m > 0 {
        assert(r[l - 1] == c[m - 1]);
        assert(r[0] == c[m]);
        assert(link(cat, c[m - 1], c[m]));
    } else {
        assert(r =~= c);
    }
}

pub proof fn lemma_names_cycle(cat: Seq<TypeModel>, c: Seq<usize>)
    requires
        index_cycle(cat, c),
    ensures
        is_cycle(cat, names_at(cat, c)),
{
    let n = names_at(cat, c);
    assert forall|i: int| 0 <= i < n.len() - 1 implies parent_link(cat, #[trigger] n[i], n[i + 1]) by {
        assert(link(cat, c[i], c[i + 1]));
        assert(c[i] < cat.len());
        assert(cat[c[i] as int].name == n[i]);
    }
    let l = c.len() - 1;
    assert(link(cat, c[l], c[0]));
    assert(c[l] < cat.len());
    assert(cat[c[l] as int].name == n[l]);
}

/// The position of the type named `p`, if one is declared.
pub open spec fn lookup(cat: Seq<TypeModel>, p: Seq<char>) -> Option<usize> {
    if has_name(cat, p) {
        Some(choose|i: usize| i < cat.len() && cat[i as int].name == p)
    } else {
        None
    }
}

pub proof fn lemma_lookup_index(cat: Seq<TypeModel>, i: usize)
    requires
        names_unique(cat),
        i < cat.len(),
    ensures
        lookup(cat, cat[i as int].name) == Some(i),
{
    let p = cat[i as int].name;
    assert(i < cat.len() && cat[i as int].name == p);
    assert(has_name(cat, p));
    let c = choose|c: usize| c < cat.len() && cat[c as int].name == p;
    if c != i {
        if c < i {
            assert(cat[c as int].name != cat[i as int].name);
        } else {
            assert(cat[i as int].name != cat[c as int].name);
        }
    }
}

/// The position of `q` on a walk path.
pub open spec fn path_pos(path: Seq<usize>, q: usize) -> int {
    choose|s: int| 0 <= s < path.len() && path[s] == q
}

pub proof fn lemma_path_pos(path: Seq<usize>, s: int)
    requires
        path.no_duplicates(),
        0 <= s < path.len(),
    ensures
        path_pos(path, path[s]) == s,
{
    let q = path[s];
    assert(0 <= s < path.len() && path[s] == q);
}

/// The first position of the smallest entry of `c`.
pub open spec fn min_pos(c: Seq<usize>) -> int
    decreases c.len(),
{
    if c.len() <= 1 {
        0
    } else {
        let m = min_pos(c.drop_last());
        if c.last() < c[m] {
            c.len() - 1
        } else {
            m
        }
    }
}

pub proof fn lemma_min_pos_range(c: Seq<usize>)
    requires
        c.len() > 0,
    ensures
        0 <= min_pos(c) < c.len(),
    decreases c.len(),
{
    if c.len() > 1 {
        lemma_min_pos_range(c.drop_last());
    }
}

/// `c` read from position `m` round to position `m - 1`.
pub open spec fn rotated(c: Seq<usize>, m: int) -> Seq<usize> {
    c.subrange(m, c.len() as int) + c.subrange(0, m)
}

/// The report of the cycle closed when `t` inherits `path[s]` (or itself, when `s` is the
/// length of `path`): the types `path[s..]` then `t`, read from the smallest position.
pub open spec fn cycle_report(cat: Seq<TypeModel>, path: Seq<usize>, s: int, t: usize) -> ErrorModel {
    let c = path.subrange(s, path.len() as int).push(t);
    ErrorModel::InheritanceCycle(names_at(cat, rotated(c, min_pos(c))))
}

/// The depth-first walk from type `t`, `path` holding the types above it: the reports
/// gathered into `acc`, and whether any missing parent or cycle was met.
pub open spec fn dfs(cat: Seq<TypeModel>, path: Seq<usize>, t: usize, acc: Seq<ErrorModel>) -> (
    Seq<ErrorModel>,
    bool,
)
    decreases cat.len() - path.len(), cat[t as int].inherits.len() + 1,
{
    dfs_parents(cat, path, t, 0, acc, false)
}

/// The walk over the parents of `t` from the `k`-th on. (The guard on the length of `path`
/// is never met on a path without repeats: see `lemma_distinct_bound`.)
pub open spec fn dfs_parents(
    cat: Seq<TypeModel>,
    path: Seq<usize>,
    t: usize,
    k: int,
    acc: Seq<ErrorModel>,
    found: bool,
) -> (Seq<ErrorModel>, bool)
    decreases cat.len() - path.len(), cat[t as int].inherits.len() - k,
{
    if path.len() >= cat.len() || k < 0 || k >= cat[t as int].inherits.len() {
        (acc, found)
    } else {
        let p = cat[t as int].inherits[k];
        if is_root_name(p) {
            dfs_parents(cat, path, t, k + 1, acc, found)
        } else {
            match lookup(cat, p) {
                None => dfs_parents(
                    cat,
                    path,
                    t,
                    k + 1,
                    add_report(acc, ErrorModel::UndeclaredParent(cat[t as int].name, p)),
                    true,
                ),
                Some(q) => if q == t {
                    dfs_parents(
                        cat,
                        path,
                        t,
                        k + 1,
                        add_report(acc, cycle_report(cat, path, path.len() as int, t)),
                        true,
                    )
                } else if path.contains(q) {
                    dfs_parents(
                        cat,
                        path,
                        t,
                        k + 1,
                        add_report(acc, cycle_report(cat, path, path_pos(path, q), t)),
                        true,
                    )
                } else {
                    let r = dfs(cat, path.push(t), q, acc);
                    dfs_parents(cat, path, t, k + 1, r.0, found || r.1)
                },
            }
        }
    }
}

/// The diagnosis of the unplaced types `missed[i..]`, gathered into `acc`: the reports of the
/// walk from each, or a single internal error for the first one whose walk meets nothing.
pub open spec fn diagnose(cat: Seq<TypeModel>, missed: Seq<usize>, i: int, acc: Seq<ErrorModel>) -> Seq<
    ErrorModel,
>
    decreases missed.len() - i,
{
    if i < 0 || i >= missed.len() {
        acc
    } else {
        let r = dfs(cat, seq![], missed[i], acc);
        if !r.1 {
            seq![ErrorModel::UndiagnosedType(cat[missed[i] as int].name)]
        } else {
            diagnose(cat, missed, i + 1, r.0)
        }
    }
}

/// A sequence of distinct positions below `n` has at most `n` entries.
pub proof fn lemma_distinct_bound(s: Seq<usize>, n: nat)
    requires
        s.no_duplicates(),
        forall|i: int| 0 <= i < s.len() ==> #[trigger] s[i] < n,
    ensures
        s.len() <= n,
    decreases n,
{
    if n == 0 {
        if s.len() > 0 {
            assert(s[0] < n);
        }
    } else if s.contains((n - 1) as usize) {
        let w = choose|w: int| 0 <= w < s.len() && s[w] == (n - 1) as usize;
        let s2 = s.remove(w);
        assert(s2.len() == s.len() - 1);
        assert forall|i: int| 0 <= i < s2.len() implies #[trigger] s2[i] < (n - 1) as nat by {
            if i < w {
                assert(s2[i] == s[i]);
            } else {
                assert(s2[i] == s[i + 1]);
            }
        }
        assert forall|i: int, j: int|
            0 <= i < s2.len() && 0 <= j < s2.len() && i != j implies s2[i] != s2[j] by {
            let i2 = if i < w {
                i
            } else {
                i + 1
            };
            let j2 = if j < w {
                j
            } else {
                j + 1
            };
            assert(s2[i] == s[i2]);
            assert(s2[j] == s[j2]);
        }
        lemma_distinct_bound(s2, (n - 1) as nat);
    } else {
        assert forall|i: int| 0 <= i < s.len() implies #[trigger] s[i] < (n - 1) as nat by {
            assert(s[i] < n);
            if s[i] == (n - 1) as usize {
                assert(s.contains(s[i]));
            }
        }
        lemma_distinct_bound(s, (n - 1) as nat);
    }
}

/// Whether no entry of `es` is an internal error.
pub open spec fn no_internal(es: Seq<ErrorModel>) -> bool {
    forall|i: int|
        0 <= i < es.len() ==> !(#[trigger] es[i] is UnknownRuleName) && !(es[i] is UndiagnosedType)
}

pub proof fn lemma_add_report_keeps(acc: Seq<ErrorModel>, e: ErrorModel)
    requires
        no_internal(acc),
        !(e is UnknownRuleName) && !(e is UndiagnosedType),
    ensures
        no_internal(add_report(acc, e)),
{
    if !acc.contains(e) {
        let a2 = acc.push(e);
        assert forall|i: int| 0 <= i < a2.len() implies !(#[trigger] a2[i] is UnknownRuleName) && !(
        a2[i] is UndiagnosedType) by {
            if i < acc.len() {
                assert(a2[i] == acc[i]);
            }
        }
    }
}

} // verus!
