use vstd::prelude::*;

use crate::ast::{Argument, Declaration, Expression, FuncCall, Policy, Statement};
use crate::catalog::{
    declared_types, dup_reports, is_dup, lemma_dup_push, lemma_unique_no_dup, reports_duplicates,
};
use crate::constants::{flavor_keyword, flavor_of_name, is_root, is_root_name, keyword_of};
use crate::diagnose::{
    cycle_report, dfs, dfs_parents, diagnose, index_cycle, is_cycle, lemma_distinct_bound,
    lemma_lookup_index, lemma_names_cycle, lemma_path_pos, min_pos, missing_parent,
    missing_report, no_internal, rotated, lemma_rotate_cycle, link, names_at, valid_diagnostic,
};
use crate::error::{
    errors_view, names_view, no_repeats, push_unique, ErrorModel, HLLCompileError, HLLError,
    HLLInternalError,
};
use crate::internal_rep::{
    copy_names, has_name, names_unique, rules_of, AvRule, RuleModel, TypeInfo, TypeMap, TypeModel,
};
use crate::ir::{
    atoms, emit, ir_view, ir_views, lemma_views_append, lemma_views_push, rule_expr, rule_exprs,
    type_expr, type_exprs, Ir, IrModel,
};
use crate::resolve::{
    all_positions, is_ready, keep, layered, lemma_keep_from, lemma_pick_ready,
    lemma_cycle_never_resolves, lemma_missing_parent_never_resolves, lemma_resolution_in_range, lemma_split_len, lemma_unready_kept, placed, ready,
    pick, resolution, stuck_after, stuck_types, lemma_keep_unready, lemma_split_covers,
};
use crate::stuck::lemma_diagnose_no_internal;
use crate::rules::{call_rule, join, operand, rules_at, rules_from};

verus! {

/// Whether every diagnostic of `es` is one the resolver may report on `cat`.
pub open spec fn all_valid(cat: Seq<TypeModel>, es: Seq<HLLError>) -> bool {
    forall|i: int| 0 <= i < es.len() ==> valid_diagnostic(cat, #[trigger] es[i]@)
}

/// `path` is a chain of catalog types, each inheriting the next, the last inheriting `t`,
/// and `t` is not on it.
pub open spec fn walk(cat: Seq<TypeModel>, path: Seq<usize>, t: usize) -> bool {
    &&& t < cat.len()
    &&& forall|i: int| 0 <= i < path.len() ==> #[trigger] path[i] < cat.len()
    &&& forall|i: int| 0 <= i < path.len() - 1 ==> link(cat, #[trigger] path[i], path[i + 1])
    &&& path.len() > 0 ==> link(cat, path[path.len() - 1], t)
    &&& !path.contains(t)
    &&& path.no_duplicates()
}

/// The names of the cycle given by catalog positions `c`, started at its smallest position
/// so that one cycle reached from different types reads the same.
#[verifier::rlimit(40)]
fn cycle_names(types: &TypeMap, c: &Vec<usize>) -> (r: Vec<String>)
    requires
        index_cycle(types@, c@),
    ensures
        is_cycle(types@, names_view(r@)),
        names_view(r@) == names_at(types@, rotated(c@, min_pos(c@))),
{
    let mut m: usize = 0;
    let mut i: usize = 1;
    assert(min_pos(c@.subrange(0, 1)) == 0);
    while i < c.len()
        invariant
            1 <= i <= c.len(),
            m < i,
            m as int == min_pos(c@.subrange(0, i as int)),
        decreases c.len() - i,
    {
        let ghost pre = c@.subrange(0, i as int + 1);
        assert(pre.drop_last() =~= c@.subrange(0, i as int));
        assert(pre[m as int] == c@[m as int]);
        if c[i] < c[m] {
            m = i;
        }
        i = i + 1;
    }
    assert(c@.subrange(0, c@.len() as int) =~= c@);
    let mut r: Vec<String> = Vec::new();
    let ghost rot = c@.subrange(m as int, c@.len() as int) + c@.subrange(0, m as int);
    proof {
        lemma_rotate_cycle(types@, c@, m as int);
    }
    let mut j: usize = 0;
    while j < c.len()
        invariant
            j <= c.len(),
            m < c.len(),
            rot.len() == c@.len(),
            rot == c@.subrange(m as int, c@.len() as int) + c@.subrange(0, m as int),
            index_cycle(types@, rot),
            r@.len() == j,
            forall|k: int| 0 <= k < j ==> r@[k]@ == types@[rot[k] as int].name,
        decreases c.len() - j,
    {
        let pos: usize = if j < c.len() - m {
            m + j
        } else {
            j - (c.len() - m)
        };
        assert(c@[pos as int] == rot[j as int]);
        r.push(types.at(c[pos]).name.clone());
        j = j + 1;
    }
    proof {
        assert(names_view(r@) =~= names_at(types@, rot));
        assert(rot == rotated(c@, min_pos(c@)));
        lemma_names_cycle(types@, rot);
    }
    r
}

/// The cycle closed by type `t` inheriting `path[s]`: `path[s..]` followed by `t`.
fn close_cycle(path: &Vec<usize>, s: usize, t: usize) -> (c: Vec<usize>)
    requires
        s <= path.len(),
    ensures
        c@ == path@.subrange(s as int, path@.len() as int).push(t),
{
    let mut c: Vec<usize> = Vec::new();
    let mut i: usize = s;
    while i < path.len()
        invariant
            s <= i <= path.len(),
            c@ == path@.subrange(s as int, i as int),
        decreases path.len() - i,
    {
        c.push(path[i]);
        i = i + 1;
        assert(c@ =~= path@.subrange(s as int, i as int));
    }
    c.push(t);
    c
}

/// The position of `q` in `path`, if it is on it.
fn position_in(path: &Vec<usize>, q: usize) -> (r: Option<usize>)
    ensures
        r matches Some(s) ==> s < path@.len() && path@[s as int] == q,
        r is None ==> !path@.contains(q),
{
    let mut i: usize = 0;
    while i < path.len()
        invariant
            i <= path.len(),
            forall|k: int| 0 <= k < i ==> path@[k] != q,
        decreases path.len() - i,
    {
        if path[i] == q {
            return Some(i);
        }
        i = i + 1;
    }
    None
}

/// Walks the parents of `t` depth first, `path` holding the types above it on the walk, and
/// adds to `errs` each missing parent and each cycle met. Reports whether it met any.
fn find_cycles_or_bad_types(
    t: usize,
    types: &TypeMap,
    path: &mut Vec<usize>,
    errs: &mut Vec<HLLError>,
) -> (found: bool)
    requires
        types.wf(),
        walk(types@, old(path)@, t),
        no_repeats(errors_view(old(errs)@)),
        all_valid(types@, old(errs)@),
    ensures
        final(path)@ == old(path)@,
        (errors_view(final(errs)@), found) == dfs(types@, old(path)@, t, errors_view(old(errs)@)),
        no_repeats(errors_view(final(errs)@)),
        all_valid(types@, final(errs)@),
        found ==> final(errs)@.len() > 0,
        final(errs)@.len() >= old(errs)@.len(),
        forall|x: ErrorModel|
            errors_view(old(errs)@).contains(x) ==> errors_view(final(errs)@).contains(x),
        forall|k: int|
            missing_parent(types@, t, k) ==> errors_view(final(errs)@).contains(
                #[trigger] missing_report(types@, t, k),
            ),
    decreases types@.len() - old(path)@.len(),
{
    let ti = types.at(t);
    proof {
        let pt = path@.push(t);
        assert forall|i: int| 0 <= i < pt.len() implies #[trigger] pt[i] < types@.len() by {
            if i < path@.len() {
                assert(pt[i] == path@[i]);
            }
        }
        assert forall|i: int, j: int| 0 <= i < pt.len() && 0 <= j < pt.len() && i != j implies pt[i]
            != pt[j] by {
            if i < path@.len() && j < path@.len() {
                assert(pt[i] == path@[i] && pt[j] == path@[j]);
            } else if i < path@.len() {
                assert(path@.contains(pt[i]));
            } else if j < path@.len() {
                assert(path@.contains(pt[j]));
            }
        }
        lemma_distinct_bound(pt, types@.len());
    }
    let mut found = false;
    let mut k: usize = 0;
    while k < ti.inherits.len()
        invariant
            types.wf(),
            ti@ == types@[t as int],
            walk(types@, path@, t),
            path@ == old(path)@,
            path@.len() < types@.len(),
            k <= ti.inherits.len(),
            dfs(types@, path@, t, errors_view(old(errs)@)) == dfs_parents(
                types@,
                path@,
                t,
                k as int,
                errors_view(errs@),
                found,
            ),
            no_repeats(errors_view(errs@)),
            all_valid(types@, errs@),
            found ==> errs@.len() > 0,
            errs@.len() >= old(errs)@.len(),
            forall|x: ErrorModel|
                errors_view(old(errs)@).contains(x) ==> errors_view(errs@).contains(x),
            forall|q: int|
                0 <= q < k && missing_parent(types@, t, q) ==> errors_view(errs@).contains(
                    #[trigger] missing_report(types@, t, q),
                ),
        decreases ti.inherits.len() - k,
    {
        let p = &ti.inherits[k];
        assert(ti@.inherits[k as int] == p@);
        assert(types@[t as int].inherits.contains(p@));
        let ghost mid = errs@;
        let ghost acc = errors_view(errs@);
        let ghost found0 = found;
        if !is_root(p) {
            match types.index_of(p) {
                None => {
                    let e = HLLError::Compile(
                        HLLCompileError::UndeclaredParent(ti.name.clone(), p.clone()),
                    );
                    assert(types@[t as int].name == ti@.name);
                    assert(valid_diagnostic(types@, e@));
                    push_unique(errs, e);
                    found = true;
                },
                Some(q) => {
                    assert(link(types@, t, q));
                    proof {
                        lemma_lookup_index(types@, q);
                    }
                    let at = if q == t {
                        Some(path.len())
                    } else {
                        position_in(path, q)
                    };
                    match at {
                        Some(s) => {
                            proof {
                                if q != t {
                                    lemma_path_pos(path@, s as int);
                                    assert(path@.contains(q));
                                }
                            }
                            let c = close_cycle(path, s, t);
                            proof {
                                let l = c@.len() as int;
                                assert(c@[l - 1] == t);
                                assert(c@[0] == q);
                                assert forall|i: int| 0 <= i < l - 1 implies link(
                                    types@,
                                    #[trigger] c@[i],
                                    c@[i + 1],
                                ) by {
                                    assert(c@[i] == path@[s + i]);
                                    if i + 1 < l - 1 {
                                        assert(c@[i + 1] == path@[s + i + 1]);
                                    }
                                }
                                assert forall|i: int| 0 <= i < l implies #[trigger] c@[i]
                                    < types@.len() by {
                                    if i < l - 1 {
                                        assert(c@[i] == path@[s + i]);
                                    }
                                }
                            }
                            let e = HLLError::Compile(
                                HLLCompileError::InheritanceCycle(cycle_names(types, &c)),
                            );
                            assert(e@ == cycle_report(types@, path@, s as int, t));
                            push_unique(errs, e);
                            found = true;
                        },
                        None => {
                            let ghost before = path@;
                            path.push(t);
                            proof {
                                assert(path@[path@.len() - 1] == t);
                                assert forall|i: int| 0 <= i < path@.len() - 1 implies link(
                                    types@,
                                    #[trigger] path@[i],
                                    path@[i + 1],
                                ) by {
                                    if i < before.len() - 1 {
                                        assert(path@[i] == before[i]);
                                        assert(path@[i + 1] == before[i + 1]);
                                    }
                                }
                                assert(!path@.contains(q)) by {
                                    if path@.contains(q) {
                                        let w = choose|w: int|
                                            0 <= w < path@.len() && path@[w] == q;
                                        if w < before.len() {
                                            assert(before[w] == q);
                                        }
                                    }
                                }
                                assert forall|i: int, j: int|
                                    0 <= i < path@.len() && 0 <= j < path@.len() && i != j implies path@[i]
                                    != path@[j] by {
                                    if i < before.len() && j < before.len() {
                                        assert(path@[i] == before[i] && path@[j] == before[j]);
                                    } else if i < before.len() {
                                        assert(before.contains(path@[i]));
                                    } else if j < before.len() {
                                        assert(before.contains(path@[j]));
                                    }
                                }
                                assert(path@ == before.push(t));
                            }
                            let f = find_cycles_or_bad_types(q, types, path, errs);
                            path.pop();
                            proof {
                                assert(path@ =~= before);
                            }
                            found = found || f;
                        },
                    }
                },
            }
        }
        proof {
            assert forall|q: int|
                0 <= q < k + 1 && missing_parent(types@, t, q) implies errors_view(
                errs@,
            ).contains(#[trigger] missing_report(types@, t, q)) by {
                if q < k {
                    assert(errors_view(mid).contains(missing_report(types@, t, q)));
                }
            }
        }
        k = k + 1;
    }
    found
}

/// Diagnoses why the types at positions `missed` could not be ordered: every missing parent
/// and every cycle reached from them, each once; or a single internal error when the walk
/// from some type meets neither.
pub fn generate_type_no_parent_errors(missed: &Vec<usize>, types: &TypeMap) -> (r: Vec<
    HLLError,
>)
    requires
        types.wf(),
        missed@.len() > 0,
        forall|i: int| 0 <= i < missed@.len() ==> #[trigger] missed@[i] < types@.len(),
    ensures
        errors_view(r@) == diagnose(types@, missed@, 0, seq![]),
        r@.len() > 0,
        no_repeats(errors_view(r@)),
        (r@.len() == 1 && r@[0] is Internal) || all_valid(types@, r@),
        (r@.len() == 1 && r@[0] is Internal) || forall|j: int, k: int|
            0 <= j < missed@.len() && missing_parent(types@, missed@[j], k) ==> errors_view(
                r@,
            ).contains(#[trigger] missing_report(types@, missed@[j], k)),
{
    let mut errs: Vec<HLLError> = Vec::new();
    let mut i: usize = 0;
    assert(errors_view(errs@) =~= seq![]);
    while i < missed.len()
        invariant
            types.wf(),
            i <= missed.len(),
            forall|j: int| 0 <= j < missed@.len() ==> #[trigger] missed@[j] < types@.len(),
            diagnose(types@, missed@, 0, seq![]) == diagnose(
                types@,
                missed@,
                i as int,
                errors_view(errs@),
            ),
            no_repeats(errors_view(errs@)),
            all_valid(types@, errs@),
            i > 0 ==> errs@.len() > 0,
            forall|j: int, k: int|
                0 <= j < i && missing_parent(types@, missed@[j], k) ==> errors_view(
                    errs@,
                ).contains(#[trigger] missing_report(types@, missed@[j], k)),
        decreases missed.len() - i,
    {
        let t = missed[i];
        let mut path: Vec<usize> = Vec::new();
        let ghost before = errs@;
        assert(path@ =~= seq![]);
        assert(path@.no_duplicates());
        let found = find_cycles_or_bad_types(t, types, &mut path, &mut errs);
        if !found {
            let ti = types.at(t);
            let e = HLLError::Internal(HLLInternalError::UndiagnosedType(ti.name.clone()));
            let r = vec![e];
            assert(errors_view(r@) =~= seq![e@]);
            return r;
        }
        proof {
            assert forall|j: int, k: int|
                0 <= j < i + 1 && missing_parent(types@, missed@[j], k) implies errors_view(
                errs@,
            ).contains(#[trigger] missing_report(types@, missed@[j], k)) by {
                if j < i {
                    assert(errors_view(before).contains(missing_report(types@, missed@[j], k)));
                }
            }
        }
        i = i + 1;
    }
    errs
}

/// The diagnostics of a catalog whose inheritance graph does not resolve: the walks from
/// each unplaced type, in catalog order.
pub open spec fn graph_errors(cat: Seq<TypeModel>) -> Seq<ErrorModel> {
    diagnose(cat, stuck_types(cat), 0, seq![])
}

/// Whether `es` reports every parent that is neither a root nor a declared type.
pub open spec fn reports_missing_parents(cat: Seq<TypeModel>, es: Seq<HLLError>) -> bool {
    forall|t: usize, k: int|
        missing_parent(cat, t, k) ==> errors_view(es).contains(#[trigger] missing_report(cat, t, k))
}

/// Orders the catalog so that parents come before their children: layer by layer, each
/// layer in catalog order. On failure, diagnoses the types that could not be placed.
pub fn organize_type_map(types: &TypeMap) -> (r: Result<Vec<usize>, Vec<HLLError>>)
    requires
        types.wf(),
    ensures
        match r {
            Ok(order) => resolution(types@) == Some(order@),
            Err(es) => {
                &&& resolution(types@) is None
                &&& errors_view(es@) == graph_errors(types@)
                &&& no_internal(errors_view(es@))
                &&& es@.len() > 0
                &&& no_repeats(errors_view(es@))
                &&& all_valid(types@, es@)
                &&& reports_missing_parents(types@, es@)
            },
        },
{
    let n = types.len();
    let mut rem: Vec<usize> = Vec::new();
    let mut i: usize = 0;
    while i < n
        invariant
            i <= n,
            n == types@.len(),
            rem@ == all_positions(i as nat),
        decreases n - i,
    {
        rem.push(i);
        i = i + 1;
        assert(rem@ =~= all_positions(i as nat));
    }
    let mut out: Vec<usize> = Vec::new();
    assert(out@ =~= seq![]);
    assert forall|t: usize, k: int| #[trigger] missing_parent(types@, t, k) implies rem@.contains(
        t,
    ) by {
        assert(rem@[t as int] == t);
    }
    assert forall|x: usize| x < n implies out@.contains(x) || rem@.contains(x) by {
        assert(rem@[x as int] == x);
    }
    while rem.len() > 0
        invariant
            types.wf(),
            n == types@.len(),
            forall|t: usize, k: int| #[trigger] missing_parent(types@, t, k) ==> rem@.contains(t),
            layered(types@, out@, rem@) == resolution(types@),
            stuck_after(types@, out@, rem@) == stuck_types(types@),
            forall|x: usize| x < n ==> out@.contains(x) || rem@.contains(x),
            forall|j: int| 0 <= j < rem@.len() ==> !out@.contains(#[trigger] rem@[j]),
            forall|j: int| 0 <= j < out@.len() ==> #[trigger] out@[j] < n,
            forall|j: int| 0 <= j < rem@.len() ==> #[trigger] rem@[j] < n,
        decreases rem@.len(),
    {
        let mut pass: Vec<usize> = Vec::new();
        let mut next: Vec<usize> = Vec::new();
        let mut k: usize = 0;
        while k < rem.len()
            invariant
                n == types@.len(),
                k <= rem.len(),
                forall|j: int| 0 <= j < out@.len() ==> #[trigger] out@[j] < n,
                forall|j: int| 0 <= j < rem@.len() ==> #[trigger] rem@[j] < n,
                stuck_after(types@, out@, rem@) == stuck_types(types@),
                layered(types@, out@, rem@) == resolution(types@),
                types.wf(),
                pass@ == pick(types@, out@, rem@.subrange(0, k as int)),
                next@ == keep(types@, out@, rem@.subrange(0, k as int)),
            decreases rem.len() - k,
        {
            let t = rem[k];
            assert(rem@.subrange(0, k as int + 1).drop_last() =~= rem@.subrange(0, k as int));
            if is_ready(types, &out, t) {
                pass.push(t);
            } else {
                next.push(t);
            }
            k = k + 1;
        }
        assert(rem@.subrange(0, rem@.len() as int) =~= rem@);
        if pass.len() == 0 {
            assert(stuck_after(types@, out@, rem@) == rem@);
            let es = generate_type_no_parent_errors(&rem, types);
            proof {
                lemma_diagnose_no_internal(types@, out@, rem@, 0, seq![]);
                if es@.len() == 1 && es@[0] is Internal {
                    assert(errors_view(es@)[0] == es@[0]@);
                } else {
                    assert forall|t: usize, k: int| missing_parent(types@, t, k) implies errors_view(
                        es@,
                    ).contains(#[trigger] missing_report(types@, t, k)) by {
                        assert(rem@.contains(t));
                        let j = choose|j: int| 0 <= j < rem@.len() && rem@[j] == t;
                        assert(missing_parent(types@, rem@[j], k));
                    }
                }
            }
            proof {
                assert(stuck_types(types@) == rem@);
                lemma_diagnose_no_internal(types@, out@, rem@, 0, seq![]);
                if es@.len() == 1 && es@[0] is Internal {
                    assert(errors_view(es@)[0] == es@[0]@);
                }
            }
            return Err(es);
        }
        proof {
            lemma_split_len(types@, out@, rem@);
            lemma_pick_ready(types@, out@, rem@);
            lemma_keep_from(types@, out@, rem@);
            assert forall|j: int| 0 <= j < pass@.len() implies #[trigger] pass@[j] < n by {
                assert(rem@.contains(pass@[j]));
            }
            assert forall|j: int| 0 <= j < next@.len() implies #[trigger] next@[j] < n by {
                assert(rem@.contains(next@[j]));
            }
        }
        proof {
            assert forall|t: usize, k: int| #[trigger] missing_parent(types@, t, k) implies next@.contains(
                t,
            ) by {
                if ready(types@, out@, t) {
                    assert(is_root_name(types@[t as int].inherits[k]) || placed(
                        types@,
                        out@,
                        types@[t as int].inherits[k],
                    ));
                    let j = choose|j: int| 0 <= j < out@.len() && #[trigger] types@[out@[j] as int].name
                        == types@[t as int].inherits[k];
                    assert(out@[j] < n);
                    assert(has_name(types@, types@[t as int].inherits[k]));
                }
                lemma_unready_kept(types@, out@, rem@, t);
            }
        }
        proof {
            lemma_keep_unready(types@, out@, rem@);
            assert forall|x: usize| x < n implies (out@ + pass@).contains(x) || next@.contains(x) by {
                if out@.contains(x) {
                    let w = choose|w: int| 0 <= w < out@.len() && out@[w] == x;
                    assert((out@ + pass@)[w] == x);
                } else {
                    assert(rem@.contains(x));
                    lemma_split_covers(types@, out@, rem@, x);
                    if pass@.contains(x) {
                        let w = choose|w: int| 0 <= w < pass@.len() && pass@[w] == x;
                        assert((out@ + pass@)[out@.len() + w] == x);
                    }
                }
            }
            assert forall|j: int| 0 <= j < next@.len() implies !(out@ + pass@).contains(
                #[trigger] next@[j],
            ) by {
                let y = next@[j];
                assert(rem@.contains(y));
                assert(!ready(types@, out@, y));
                if (out@ + pass@).contains(y) {
                    let w = choose|w: int| 0 <= w < (out@ + pass@).len() && (out@ + pass@)[w] == y;
                    if w < out@.len() {
                        assert(out@.contains(y));
                        let v = choose|v: int| 0 <= v < rem@.len() && rem@[v] == y;
                        assert(!out@.contains(rem@[v]));
                    } else {
                        assert(pass@[w - out@.len()] == y);
                    }
                }
            }
        }
        let ghost old_out = out@;
        let ghost old_pass = pass@;
        out.append(&mut pass);
        rem = next;
        proof {
            assert forall|j: int| 0 <= j < out@.len() implies #[trigger] out@[j] < n by {
                if j >= old_out.len() {
                    assert(out@[j] == old_pass[j - old_out.len()]);
                } else {
                    assert(out@[j] == old_out[j]);
                }
            }
        }
    }
    Ok(out)
}

/// Resolves a rule operand to the catalog type it names.
pub fn argument_to_typeinfo<'a>(a: &Argument, types: &'a TypeMap) -> (r: Result<
    &'a TypeInfo,
    HLLError,
>)
    ensures
        match r {
            Ok(t) => operand(types@, *a) == Ok::<Seq<char>, ErrorModel>(t@.name),
            Err(e) => operand(types@, *a) == Err::<Seq<char>, ErrorModel>(e@),
        },
{
    match a {
        Argument::Var(s) => match types.index_of(s) {
            Some(i) => {
                let t = types.at(i);
                proof {
                    assert(types@[i as int].name == s@);
                }
                Ok(t)
            },
            None => Err(HLLError::Compile(HLLCompileError::UnknownType(s.clone()))),
        },
        _ => Err(HLLError::Compile(HLLCompileError::ExpectedIdentifier)),
    }
}

/// Turns a builtin call into the rule it denotes: flavor from the name, then exactly four
/// arguments: source type, target type, object class, permission list.
pub fn call_to_av_rule(c: &FuncCall, types: &TypeMap) -> (r: Result<AvRule, HLLError>)
    ensures
        match r {
            Ok(rule) => call_rule(types@, *c) == Ok::<_, ErrorModel>(rule@),
            Err(e) => call_rule(types@, *c) == Err::<crate::internal_rep::RuleModel, _>(e@),
        },
{
    let flavor = match flavor_of_name(&c.name) {
        Some(f) => f,
        None => {
            return Err(HLLError::Internal(HLLInternalError::UnknownRuleName(c.name.clone())));
        },
    };
    if c.args.len() != 4 {
        return Err(
            HLLError::Compile(
                HLLCompileError::WrongArgumentCount { expected: 4, actual: c.args.len() },
            ),
        );
    }
    let source = match argument_to_typeinfo(&c.args[0], types) {
        Ok(t) => t,
        Err(e) => {
            return Err(e);
        },
    };
    let target = match argument_to_typeinfo(&c.args[1], types) {
        Ok(t) => t,
        Err(e) => {
            return Err(e);
        },
    };
    let class = match &c.args[2] {
        Argument::Var(s) => s,
        _ => {
            return Err(HLLError::Compile(HLLCompileError::ExpectedIdentifier));
        },
    };
    let perms = match &c.args[3] {
        Argument::List(l) => copy_names(l),
        _ => {
            return Err(HLLError::Compile(HLLCompileError::ExpectedPermissionList));
        },
    };
    Ok(
        AvRule {
            av_rule_flavor: flavor,
            source: source.name.clone(),
            target: target.name.clone(),
            class: class.clone(),
            perms,
        },
    )
}

/// The rules of `exprs`, in order, descending into the bodies of type declarations; stops
/// at the first malformed rule call.
pub fn do_rules_pass(types: &TypeMap, exprs: &Vec<Expression>) -> (r: Result<
    Vec<AvRule>,
    HLLError,
>)
    ensures
        match r {
            Ok(v) => rules_from(types@, exprs@, 0) == Ok::<_, ErrorModel>(
                rules_of(v@),
            ),
            Err(e) => rules_from(types@, exprs@, 0) == Err::<Seq<crate::internal_rep::RuleModel>, _>(
                e@,
            ),
        },
    decreases exprs@,
{
    let mut ret: Vec<AvRule> = Vec::new();
    let mut i: usize = 0;
    assert(rules_of(ret@) =~= seq![]);
    while i < exprs.len()
        invariant
            i <= exprs.len(),
            rules_from(types@, exprs@, 0) == join(
                Ok::<_, ErrorModel>(rules_of(ret@)),
                rules_from(types@, exprs@, i as int),
            ),
        decreases exprs.len() - i,
    {
        let ghost before = ret@;
        assert(rules_from(types@, exprs@, i as int) == join(
            rules_at(types@, exprs@, i as int),
            rules_from(types@, exprs@, i as int + 1),
        ));
        match &exprs[i] {
            Expression::Stmt(Statement::Call(c)) => {
                if c.is_builtin() {
                    match call_to_av_rule(c, types) {
                        Ok(rule) => {
                            ret.push(rule);
                            assert(rules_of(ret@) =~= rules_of(before) + seq![rule@]);
                        },
                        Err(e) => {
                            return Err(e);
                        },
                    }
                }
            },
            Expression::Decl(Declaration::Type(t)) => {
                assert(decreases_to!(exprs@ => exprs@[i as int]));
                match do_rules_pass(types, &t.expressions) {
                    Ok(mut child) => {
                        let ghost cv = child@;
                        ret.append(&mut child);
                        assert(rules_of(ret@) =~= rules_of(before) + rules_of(cv));
                    },
                    Err(e) => {
                        return Err(e);
                    },
                }
            },
            _ => {},
        }
        i = i + 1;
        proof {
            let a = rules_at(types@, exprs@, i - 1);
            if let Ok(x) = a {
                if let Ok(y) = rules_from(types@, exprs@, i as int) {
                    assert(rules_of(before) + (x + y) =~= (rules_of(before) + x) + y);
                }
            }
        }
    }
    assert(rules_of(ret@) + seq![] =~= rules_of(ret@));
    Ok(ret)
}

/// The catalog of the policy's top-level type declarations, in declaration order; every
/// name declared twice is reported, once.
pub fn build_type_map(p: &Policy) -> (r: Result<TypeMap, Vec<HLLError>>)
    ensures
        match r {
            Ok(m) => {
                &&& names_unique(declared_types(p.exprs@))
                &&& m@ == declared_types(p.exprs@)
                &&& m.wf()
            },
            Err(es) => {
                &&& !names_unique(declared_types(p.exprs@))
                &&& errors_view(es@) == dup_reports(declared_types(p.exprs@))
                &&& es@.len() > 0
                &&& no_repeats(errors_view(es@))
                &&& reports_duplicates(declared_types(p.exprs@), errors_view(es@))
            },
        },
{
    let mut map = TypeMap::new();
    let mut errs: Vec<HLLError> = Vec::new();
    let mut i: usize = 0;
    assert(p.exprs@.subrange(0, 0) =~= seq![]);
    while i < p.exprs.len()
        invariant
            i <= p.exprs.len(),
            map.wf(),
            forall|n: Seq<char>|
                #[trigger] has_name(map@, n) <==> has_name(
                    declared_types(p.exprs@.subrange(0, i as int)),
                    n,
                ),
            errs@.len() == 0 ==> map@ == declared_types(p.exprs@.subrange(0, i as int)),
            no_repeats(errors_view(errs@)),
            errors_view(errs@) == dup_reports(declared_types(p.exprs@.subrange(0, i as int))),
            reports_duplicates(declared_types(p.exprs@.subrange(0, i as int)), errors_view(errs@)),
        decreases p.exprs.len() - i,
    {
        let ghost decls = declared_types(p.exprs@.subrange(0, i as int));
        let ghost next = p.exprs@.subrange(0, i as int + 1);
        assert(next.drop_last() =~= p.exprs@.subrange(0, i as int));
        assert(next.last() == p.exprs@[i as int]);
        match &p.exprs[i] {
            Expression::Decl(Declaration::Type(t)) => {
                let ghost x = TypeModel { name: t.name@, inherits: names_view(t.inherits@) };
                assert(declared_types(next) == decls.push(x));
                assert(decls.push(x).drop_last() =~= decls);
                let ghost old_errs = errs@;
                let ghost old_map = map@;
                let info = TypeInfo::new(t);
                assert(info@ == x);
                if !map.insert(info) {
                    let e = HLLError::Compile(HLLCompileError::DuplicateType(t.name.clone()));
                    push_unique(&mut errs, e);
                    proof {
                        lemma_dup_push(decls, x, x.name);
                        assert(errors_view(errs@).contains(e@)) by {
                            if errors_view(old_errs).contains(e@) {
                                assert(errs@ == old_errs);
                            } else {
                                assert(errs@ == old_errs.push(e));
                                assert(errors_view(errs@)[errs@.len() - 1] == e@);
                            }
                        }
                        assert forall|n: Seq<char>| #[trigger] is_dup(declared_types(next), n) implies errors_view(
                            errs@,
                        ).contains(ErrorModel::DuplicateType(n)) by {
                            lemma_dup_push(decls, x, n);
                            if is_dup(decls, n) {
                                assert(errors_view(old_errs).contains(ErrorModel::DuplicateType(n)));
                                if errs@ != old_errs {
                                    let w = choose|w: int| 0 <= w < errors_view(old_errs).len() && errors_view(old_errs)[w] == ErrorModel::DuplicateType(n);
                                    assert(errors_view(errs@)[w] == ErrorModel::DuplicateType(n));
                                }
                            }
                        }
                        assert forall|k: int| 0 <= k < errors_view(errs@).len() implies (#[trigger] errors_view(errs@)[k] matches ErrorModel::DuplicateType(n) && is_dup(
                            declared_types(next),
                            n,
                        )) by {
                            if k < old_errs.len() {
                                assert(errors_view(errs@)[k] == errors_view(old_errs)[k]);
                                if let ErrorModel::DuplicateType(n) = errors_view(old_errs)[k] {
                                    lemma_dup_push(decls, x, n);
                                }
                            }
                        }
                        assert forall|n: Seq<char>| #[trigger] has_name(map@, n) <==> has_name(declared_types(next), n) by {
                            if has_name(decls.push(x), n) {
                                let w = choose|w: int| 0 <= w < decls.push(x).len() && #[trigger] decls.push(x)[w].name == n;
                                if w < decls.len() {
                                    assert(decls[w].name == n);
                                }
                            }
                            if has_name(decls, n) {
                                let w = choose|w: int| 0 <= w < decls.len() && #[trigger] decls[w].name == n;
                                assert(decls.push(x)[w].name == n);
                            }
                        }
                    }
                } else {
                    proof {
                        assert(map@ == old_map.push(x));
                        assert forall|n: Seq<char>| #[trigger] has_name(map@, n) <==> has_name(declared_types(next), n) by {
                            let d2 = decls.push(x);
                            if has_name(d2, n) {
                                let w = choose|w: int| 0 <= w < d2.len() && #[trigger] d2[w].name == n;
                                if w < decls.len() {
                                    assert(decls[w].name == n);
                                    assert(has_name(decls, n));
                                    assert(has_name(old_map, n));
                                    let v = choose|v: int| 0 <= v < old_map.len() && #[trigger] old_map[v].name == n;
                                    assert(map@[v].name == n);
                                } else {
                                    assert(map@[old_map.len() as int].name == n);
                                }
                            }
                            if has_name(map@, n) {
                                let w = choose|w: int| 0 <= w < map@.len() && #[trigger] map@[w].name == n;
                                if w < old_map.len() {
                                    assert(old_map[w].name == n);
                                    assert(has_name(old_map, n));
                                    assert(has_name(decls, n));
                                    let v = choose|v: int| 0 <= v < decls.len() && #[trigger] decls[v].name == n;
                                    assert(d2[v].name == n);
                                } else {
                                    assert(d2[decls.len() as int].name == n);
                                }
                            }
                        }
                        assert forall|n: Seq<char>| #[trigger] is_dup(declared_types(next), n) implies errors_view(
                            errs@,
                        ).contains(ErrorModel::DuplicateType(n)) by {
                            lemma_dup_push(decls, x, n);
                        }
                        assert forall|k: int| 0 <= k < errors_view(errs@).len() implies (#[trigger] errors_view(errs@)[k] matches ErrorModel::DuplicateType(n) && is_dup(
                            declared_types(next),
                            n,
                        )) by {
                            if let ErrorModel::DuplicateType(n) = errors_view(errs@)[k] {
                                lemma_dup_push(decls, x, n);
                            }
                        }
                    }
                }
            },
            _ => {
                assert(declared_types(next) == decls);
            },
        }
        i = i + 1;
    }
    assert(p.exprs@.subrange(0, p.exprs@.len() as int) =~= p.exprs@);
    proof {
        lemma_unique_no_dup(declared_types(p.exprs@));
    }
    if errs.len() > 0 {
        proof {
            let e = errors_view(errs@)[0];
            assert(e matches ErrorModel::DuplicateType(n) && is_dup(declared_types(p.exprs@), n));
        }
        Err(errs)
    } else {
        proof {
            assert forall|n: Seq<char>| !#[trigger] is_dup(declared_types(p.exprs@), n) by {
                if is_dup(declared_types(p.exprs@), n) {
                    assert(errors_view(errs@).contains(ErrorModel::DuplicateType(n)));
                }
            }
        }
        Ok(map)
    }
}

/// `(type <name>)` for each type of `order`, in that order.
pub fn type_list_to_sexp(types: &TypeMap, order: &Vec<usize>) -> (r: Vec<Ir>)
    requires
        forall|i: int| 0 <= i < order@.len() ==> #[trigger] order@[i] < types@.len(),
    ensures
        ir_views(r@) == type_exprs(types@, order@),
{
    let mut ret: Vec<Ir> = Vec::new();
    let mut i: usize = 0;
    proof {
        reveal_strlit("type");
        assert(ir_views(ret@) =~= type_exprs(types@, order@.subrange(0, 0)));
    }
    while i < order.len()
        invariant
            i <= order.len(),
            forall|j: int| 0 <= j < order@.len() ==> #[trigger] order@[j] < types@.len(),
            ir_views(ret@) == type_exprs(types@, order@.subrange(0, i as int)),
        decreases order.len() - i,
    {
        let t = types.at(order[i]);
        let items = vec![Ir::Atom("type".to_owned()), Ir::Atom(t.name.clone())];
        proof {
            reveal_strlit("type");
            let v = items@;
            assert(v =~= seq![].push(v[0]).push(v[1]));
            lemma_views_push(seq![], v[0]);
            lemma_views_push(seq![].push(v[0]), v[1]);
            assert(ir_views(seq![]) =~= seq![]);
            assert(ir_views(v) =~= seq![IrModel::Atom("type"@), IrModel::Atom(t.name@)]);
        }
        let e = Ir::List(items);
        assert(ir_view(e) == type_expr(types@[order@[i as int] as int].name));
        let ghost before = ret@;
        ret.push(e);
        proof {
            lemma_views_push(before, e);
            assert(type_exprs(types@, order@.subrange(0, i as int + 1)) =~= type_exprs(
                types@,
                order@.subrange(0, i as int),
            ).push(type_expr(types@[order@[i as int] as int].name)));
        }
        i = i + 1;
    }
    assert(order@.subrange(0, order@.len() as int) =~= order@);
    ret
}

/// Atoms of the given names, in order.
fn names_to_atoms(v: &Vec<String>) -> (r: Vec<Ir>)
    ensures
        ir_views(r@) == atoms(names_view(v@)),
{
    let mut ret: Vec<Ir> = Vec::new();
    let mut i: usize = 0;
    assert(ir_views(ret@) =~= atoms(names_view(v@.subrange(0, 0))));
    while i < v.len()
        invariant
            i <= v.len(),
            ir_views(ret@) == atoms(names_view(v@.subrange(0, i as int))),
        decreases v.len() - i,
    {
        let e = Ir::Atom(v[i].clone());
        let ghost before = ret@;
        ret.push(e);
        proof {
            lemma_views_push(before, e);
            assert(atoms(names_view(v@.subrange(0, i as int + 1))) =~= atoms(
                names_view(v@.subrange(0, i as int)),
            ).push(IrModel::Atom(v@[i as int]@)));
        }
        i = i + 1;
    }
    assert(v@.subrange(0, v@.len() as int) =~= v@);
    ret
}

/// The expression of one rule: flavor keyword, source, target, class, permission list.
fn av_rule_to_sexp(r: &AvRule) -> (e: Ir)
    ensures
        ir_view(e) == rule_expr(r@),
{
    let perms = Ir::List(names_to_atoms(&r.perms));
    let items = vec![
        Ir::Atom(keyword_of(r.av_rule_flavor)),
        Ir::Atom(r.source.clone()),
        Ir::Atom(r.target.clone()),
        Ir::Atom(r.class.clone()),
        perms,
    ];
    proof {
        let v = items@;
        assert(v =~= seq![].push(v[0]).push(v[1]).push(v[2]).push(v[3]).push(v[4]));
        lemma_views_push(seq![], v[0]);
        lemma_views_push(seq![].push(v[0]), v[1]);
        lemma_views_push(seq![].push(v[0]).push(v[1]), v[2]);
        lemma_views_push(seq![].push(v[0]).push(v[1]).push(v[2]), v[3]);
        lemma_views_push(seq![].push(v[0]).push(v[1]).push(v[2]).push(v[3]), v[4]);
        assert(ir_views(seq![]) =~= seq![]);
        assert(ir_views(v) =~= seq![
            IrModel::Atom(flavor_keyword(r.av_rule_flavor)),
            IrModel::Atom(r.source@),
            IrModel::Atom(r.target@),
            IrModel::Atom(r.class@),
            IrModel::List(atoms(names_view(r.perms@))),
        ]);
    }
    Ir::List(items)
}

/// One rule expression per rule, in order.
pub fn av_list_to_sexp(av_rules: &Vec<AvRule>) -> (r: Vec<Ir>)
    ensures
        ir_views(r@) == rule_exprs(rules_of(av_rules@)),
{
    let mut ret: Vec<Ir> = Vec::new();
    let mut i: usize = 0;
    assert(ir_views(ret@) =~= rule_exprs(rules_of(av_rules@.subrange(0, 0))));
    while i < av_rules.len()
        invariant
            i <= av_rules.len(),
            ir_views(ret@) == rule_exprs(rules_of(av_rules@.subrange(0, i as int))),
        decreases av_rules.len() - i,
    {
        let e = av_rule_to_sexp(&av_rules[i]);
        let ghost before = ret@;
        ret.push(e);
        proof {
            lemma_views_push(before, e);
            assert(rule_exprs(rules_of(av_rules@.subrange(0, i as int + 1))) =~= rule_exprs(
                rules_of(av_rules@.subrange(0, i as int)),
            ).push(rule_expr(av_rules@[i as int]@)));
        }
        i = i + 1;
    }
    assert(av_rules@.subrange(0, av_rules@.len() as int) =~= av_rules@);
    ret
}

/// The IR a policy compiles to, when it compiles: its top-level types must have unique
/// names and resolve, and every rule call in it must be well formed.
pub open spec fn compiled(exprs: Seq<Expression>) -> Option<IrModel> {
    let cat = declared_types(exprs);
    if !names_unique(cat) {
        None
    } else {
        match resolution(cat) {
            None => None,
            Some(order) => match rules_from(cat, exprs, 0) {
                Err(_) => None,
                Ok(rules) => Some(emit(cat, order, rules)),
            },
        }
    }
}

/// What `compile` returns on `exprs`: the compiled IR, or the diagnostics of the first stage
/// that failed (every duplicated name; every missing parent and cycle, or one internal
/// error; the first malformed rule call).
pub open spec fn compile_result(exprs: Seq<Expression>, r: Result<Ir, Vec<HLLError>>) -> bool {
    let cat = declared_types(exprs);
    match r {
        Ok(ir) => compiled(exprs) == Some(ir_view(ir)),
        Err(es) => {
            &&& compiled(exprs) is None
            &&& es@.len() > 0
            &&& no_repeats(errors_view(es@))
            &&& if !names_unique(cat) {
                errors_view(es@) == dup_reports(cat) && reports_duplicates(cat, errors_view(es@))
            } else if resolution(cat) is None {
                &&& errors_view(es@) == graph_errors(cat)
                &&& no_internal(errors_view(es@))
                &&& all_valid(cat, es@)
                &&& reports_missing_parents(cat, es@)
            } else {
                rules_from(cat, exprs, 0) == Err::<Seq<RuleModel>, ErrorModel>(es@[0]@)
                    && es@.len() == 1
            }
        },
    }
}

/// Compiles a policy to IR: catalog, resolution, rule extraction, emission.
pub fn compile(p: &Policy) -> (r: Result<Ir, Vec<HLLError>>)
    ensures
        compile_result(p.exprs@, r),
{
    let type_map = match build_type_map(p) {
        Ok(m) => m,
        Err(es) => {
            return Err(es);
        },
    };
    let order = match organize_type_map(&type_map) {
        Ok(o) => o,
        Err(es) => {
            return Err(es);
        },
    };
    let av_rules = match do_rules_pass(&type_map, &p.exprs) {
        Ok(v) => v,
        Err(e) => {
            let es = vec![e];
            assert(errors_view(es@) =~= seq![e@]);
            return Err(es);
        },
    };
    proof {
        lemma_resolution_in_range(type_map@);
    }
    let mut ret = type_list_to_sexp(&type_map, &order);
    let mut rules = av_list_to_sexp(&av_rules);
    let ghost a = ret@;
    let ghost b = rules@;
    ret.append(&mut rules);
    proof {
        lemma_views_append(a, b);
        assert(ir_views(ret@) == ir_views(a) + ir_views(b));
    }
    Ok(Ir::List(ret))
}

/// The diagnostics a policy that does not compile gets: those of the first stage that fails.
pub open spec fn compile_errors(exprs: Seq<Expression>) -> Seq<ErrorModel> {
    let cat = declared_types(exprs);
    if !names_unique(cat) {
        dup_reports(cat)
    } else if resolution(cat) is None {
        graph_errors(cat)
    } else {
        match rules_from(cat, exprs, 0) {
            Err(e) => seq![e],
            Ok(_) => seq![],
        }
    }
}

proof fn lemma_compile_errors(exprs: Seq<Expression>, r: Result<Ir, Vec<HLLError>>)
    requires
        compile_result(exprs, r),
    ensures
        r matches Err(es) ==> errors_view(es@) == compile_errors(exprs),
{
    if let Err(es) = r {
        let cat = declared_types(exprs);
        if names_unique(cat) && resolution(cat) is Some {
            assert(errors_view(es@) =~= seq![es@[0]@]);
        }
    }
}

/// Compiling one policy twice gives one outcome: both runs succeed with the same IR, or
/// both fail with the same diagnostics in the same order.
pub proof fn lemma_compile_deterministic(
    exprs: Seq<Expression>,
    r1: Result<Ir, Vec<HLLError>>,
    r2: Result<Ir, Vec<HLLError>>,
)
    requires
        compile_result(exprs, r1),
        compile_result(exprs, r2),
    ensures
        r1 is Ok <==> r2 is Ok,
        r1 matches Ok(a) ==> (r2 matches Ok(b) && ir_view(a) == ir_view(b)),
        r1 matches Err(a) ==> (r2 matches Err(b) && errors_view(a@) == errors_view(b@)),
{
    lemma_compile_errors(exprs, r1);
    lemma_compile_errors(exprs, r2);
}

/// When no parent is missing and the names are unique, a policy whose inheritance graph
/// does not resolve fails with cycle reports only, each a real cycle.
pub proof fn lemma_only_cycles_reported(exprs: Seq<Expression>, r: Result<Ir, Vec<HLLError>>)
    requires
        compile_result(exprs, r),
        names_unique(declared_types(exprs)),
        resolution(declared_types(exprs)) is None,
        forall|t: int, k: int|
            0 <= t < declared_types(exprs).len() && 0 <= k < declared_types(exprs)[t].inherits.len()
                && !is_root_name(#[trigger] declared_types(exprs)[t].inherits[k]) ==> has_name(
                declared_types(exprs),
                declared_types(exprs)[t].inherits[k],
            ),
    ensures
        r matches Err(es) && es@.len() > 0 && forall|i: int|
            0 <= i < es@.len() ==> (#[trigger] es@[i]@ matches ErrorModel::InheritanceCycle(c)
                && is_cycle(declared_types(exprs), c)),
{
    let cat = declared_types(exprs);
    if let Err(es) = r {
        assert forall|i: int| 0 <= i < es@.len() implies (#[trigger] es@[i]@ matches ErrorModel::InheritanceCycle(c)
            && is_cycle(cat, c)) by {
            assert(valid_diagnostic(cat, es@[i]@));
            if let ErrorModel::UndeclaredParent(tn, p) = es@[i]@ {
                let t = choose|t: int| 0 <= t < cat.len() && #[trigger] cat[t].name == tn
                    && cat[t].inherits.contains(p);
                let k = choose|k: int| 0 <= k < cat[t].inherits.len() && cat[t].inherits[k] == p;
                assert(!is_root_name(cat[t].inherits[k]));
            }
        }
    }
}

/// A policy that declares a name twice at the top level never compiles, and that name is
/// reported as a duplicate.
pub proof fn lemma_duplicate_rejected(
    exprs: Seq<Expression>,
    r: Result<Ir, Vec<HLLError>>,
    n: Seq<char>,
)
    requires
        compile_result(exprs, r),
        is_dup(declared_types(exprs), n),
    ensures
        r matches Err(es) && errors_view(es@).contains(ErrorModel::DuplicateType(n)),
{
    lemma_unique_no_dup(declared_types(exprs));
}

/// A type whose parent is neither a root nor declared keeps a policy from compiling, and
/// that parent is reported against that type.
pub proof fn lemma_missing_parent_reported(
    exprs: Seq<Expression>,
    r: Result<Ir, Vec<HLLError>>,
    t: usize,
    k: int,
)
    requires
        compile_result(exprs, r),
        names_unique(declared_types(exprs)),
        missing_parent(declared_types(exprs), t, k),
    ensures
        r matches Err(es) && errors_view(es@).contains(
            ErrorModel::UndeclaredParent(
                declared_types(exprs)[t as int].name,
                declared_types(exprs)[t as int].inherits[k],
            ),
        ),
{
    lemma_missing_parent_never_resolves(declared_types(exprs), t, k);
    if let Err(es) = r {
        assert(reports_missing_parents(declared_types(exprs), es@));
        assert(errors_view(es@).contains(missing_report(declared_types(exprs), t, k)));
    }
}

/// A policy whose declared types inherit in a cycle, through names that are not roots,
/// never compiles.
pub proof fn lemma_cycle_never_compiles(
    exprs: Seq<Expression>,
    r: Result<Ir, Vec<HLLError>>,
    c: Seq<usize>,
)
    requires
        compile_result(exprs, r),
        index_cycle(declared_types(exprs), c),
        forall|i: int|
            0 <= i < c.len() ==> !is_root_name(#[trigger] declared_types(exprs)[c[i] as int].name),
    ensures
        r is Err,
{
    if names_unique(declared_types(exprs)) {
        lemma_cycle_never_resolves(declared_types(exprs), c);
    }
}

/// A policy with unique names and no missing parent whose declared types inherit in a
/// cycle, through names that are not roots, fails with cycle reports only, at least one.
pub proof fn lemma_cycle_reported(
    exprs: Seq<Expression>,
    r: Result<Ir, Vec<HLLError>>,
    c: Seq<usize>,
)
    requires
        compile_result(exprs, r),
        names_unique(declared_types(exprs)),
        index_cycle(declared_types(exprs), c),
        forall|i: int|
            0 <= i < c.len() ==> !is_root_name(#[trigger] declared_types(exprs)[c[i] as int].name),
        forall|t: int, k: int|
            0 <= t < declared_types(exprs).len() && 0 <= k < declared_types(exprs)[t].inherits.len()
                && !is_root_name(#[trigger] declared_types(exprs)[t].inherits[k]) ==> has_name(
                declared_types(exprs),
                declared_types(exprs)[t].inherits[k],
            ),
    ensures
        r matches Err(es) && es@.len() > 0 && forall|i: int|
            0 <= i < es@.len() ==> (#[trigger] es@[i]@ matches ErrorModel::InheritanceCycle(cy)
                && is_cycle(declared_types(exprs), cy)),
{
    lemma_cycle_never_resolves(declared_types(exprs), c);
    lemma_only_cycles_reported(exprs, r);
}

} // verus!
