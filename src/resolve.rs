use vstd::prelude::*;

use crate::constants::{is_root, is_root_name};
use crate::diagnose::{index_cycle, link};
use crate::internal_rep::{has_name, names_unique, TypeMap, TypeModel};

verus! {

/// Whether some position of `done` holds a type named `n`.
pub open spec fn placed(cat: Seq<TypeModel>, done: Seq<usize>, n: Seq<char>) -> bool {
    exists|j: int| 0 <= j < done.len() && #[trigger] cat[done[j] as int].name == n
}

/// Whether every parent of type `t` is a built-in root or already placed in `done`.
pub open spec fn ready(cat: Seq<TypeModel>, done: Seq<usize>, t: usize) -> bool {
    forall|k: int|
        0 <= k < cat[t as int].inherits.len() ==> is_root_name(#[trigger] cat[t as int].inherits[k])
            || placed(cat, done, cat[t as int].inherits[k])
}

/// The types of `rem` that are ready after `done`, in the order of `rem`.
pub open spec fn pick(cat: Seq<TypeModel>, done: Seq<usize>, rem: Seq<usize>) -> Seq<usize>
    decreases rem.len(),
{
    if rem.len() == 0 {
        seq![]
    } else {
        let p = pick(cat, done, rem.drop_last());
        if ready(cat, done, rem.last()) {
            p.push(rem.last())
        } else {
            p
        }
    }
}

/// The types of `rem` that must wait for a later layer, in the order of `rem`.
pub open spec fn keep(cat: Seq<TypeModel>, done: Seq<usize>, rem: Seq<usize>) -> Seq<usize>
    decreases rem.len(),
{
    if rem.len() == 0 {
        seq![]
    } else {
        let p = keep(cat, done, rem.drop_last());
        if ready(cat, done, rem.last()) {
            p
        } else {
            p.push(rem.last())
        }
    }
}

pub proof fn lemma_split_len(cat: Seq<TypeModel>, done: Seq<usize>, rem: Seq<usize>)
    ensures
        pick(cat, done, rem).len() + keep(cat, done, rem).len() == rem.len(),
    decreases rem.len(),
{
    if rem.len() > 0 {
        lemma_split_len(cat, done, rem.drop_last());
    }
}

/// Every picked type comes from `rem` and is ready.
pub proof fn lemma_pick_ready(cat: Seq<TypeModel>, done: Seq<usize>, rem: Seq<usize>)
    ensures
        forall|m: int|
            0 <= m < pick(cat, done, rem).len() ==> rem.contains(#[trigger] pick(cat, done, rem)[m])
                && ready(cat, done, pick(cat, done, rem)[m]),
    decreases rem.len(),
{
    if rem.len() > 0 {
        lemma_pick_ready(cat, done, rem.drop_last());
        let p = pick(cat, done, rem.drop_last());
        assert forall|m: int| 0 <= m < pick(cat, done, rem).len() implies rem.contains(
            #[trigger] pick(cat, done, rem)[m],
        ) && ready(cat, done, pick(cat, done, rem)[m]) by {
            if m < p.len() {
                let x = p[m];
                assert(rem.drop_last().contains(x));
                let w = choose|w: int| 0 <= w < rem.drop_last().len() && rem.drop_last()[w] == x;
                assert(rem[w] == x);
            } else {
                assert(rem[rem.len() - 1] == rem.last());
            }
        }
    }
}

/// Every kept type comes from `rem`.
pub proof fn lemma_keep_from(cat: Seq<TypeModel>, done: Seq<usize>, rem: Seq<usize>)
    ensures
        forall|m: int|
            0 <= m < keep(cat, done, rem).len() ==> rem.contains(#[trigger] keep(cat, done, rem)[m]),
    decreases rem.len(),
{
    if rem.len() > 0 {
        lemma_keep_from(cat, done, rem.drop_last());
        let p = keep(cat, done, rem.drop_last());
        assert forall|m: int| 0 <= m < keep(cat, done, rem).len() implies rem.contains(
            #[trigger] keep(cat, done, rem)[m],
        ) by {
            if m < p.len() {
                let x = p[m];
                assert(rem.drop_last().contains(x));
                let w = choose|w: int| 0 <= w < rem.drop_last().len() && rem.drop_last()[w] == x;
                assert(rem[w] == x);
            } else {
                assert(rem[rem.len() - 1] == rem.last());
            }
        }
    }
}

/// Layered resolution: each layer holds, in catalog order, every remaining type whose
/// parents are all roots or placed by earlier layers. `None` when a layer comes out empty
/// while types remain. (A non-empty layer always shortens the remainder, by
/// `lemma_split_len`, so the last branch is never taken.)
pub open spec fn layered(cat: Seq<TypeModel>, done: Seq<usize>, rem: Seq<usize>) -> Option<
    Seq<usize>,
>
    decreases rem.len(),
{
    if rem.len() == 0 {
        Some(done)
    } else if pick(cat, done, rem).len() == 0 {
        None
    } else if keep(cat, done, rem).len() < rem.len() {
        layered(cat, done + pick(cat, done, rem), keep(cat, done, rem))
    } else {
        None
    }
}

/// The types left unplaced when layered resolution stops on an empty layer (none when it
/// succeeds).
pub open spec fn stuck_after(cat: Seq<TypeModel>, done: Seq<usize>, rem: Seq<usize>) -> Seq<usize>
    decreases rem.len(),
{
    if rem.len() == 0 {
        seq![]
    } else if pick(cat, done, rem).len() == 0 {
        rem
    } else if keep(cat, done, rem).len() < rem.len() {
        stuck_after(cat, done + pick(cat, done, rem), keep(cat, done, rem))
    } else {
        rem
    }
}

/// The positions `0..n` in order.
pub open spec fn all_positions(n: nat) -> Seq<usize> {
    Seq::new(n, |i: int| i as usize)
}

/// The order in which the catalog's types are emitted, if the inheritance graph resolves.
pub open spec fn resolution(cat: Seq<TypeModel>) -> Option<Seq<usize>> {
    layered(cat, seq![], all_positions(cat.len()))
}

/// The types of the catalog that cannot be placed.
pub open spec fn stuck_types(cat: Seq<TypeModel>) -> Seq<usize> {
    stuck_after(cat, seq![], all_positions(cat.len()))
}

/// Every non-root parent of the type at each position appears at an earlier position.
pub open spec fn topological(cat: Seq<TypeModel>, order: Seq<usize>) -> bool {
    forall|i: int, k: int|
        0 <= i < order.len() && 0 <= k < cat[order[i] as int].inherits.len() && !is_root_name(
            #[trigger] cat[order[i] as int].inherits[k],
        ) ==> exists|j: int| 0 <= j < i && #[trigger] cat[order[j] as int].name
            == cat[order[i] as int].inherits[k]
}

proof fn lemma_layered_topological(cat: Seq<TypeModel>, done: Seq<usize>, rem: Seq<usize>)
    requires
        topological(cat, done),
    ensures
        layered(cat, done, rem) matches Some(o) ==> topological(cat, o),
    decreases rem.len(),
{
    if rem.len() > 0 && pick(cat, done, rem).len() > 0 {
        let p = pick(cat, done, rem);
        let nd = done + p;
        lemma_pick_ready(cat, done, rem);
        lemma_split_len(cat, done, rem);
        assert forall|i: int, k: int|
            0 <= i < nd.len() && 0 <= k < cat[nd[i] as int].inherits.len() && !is_root_name(
                #[trigger] cat[nd[i] as int].inherits[k],
            ) implies exists|j: int| 0 <= j < i && #[trigger] cat[nd[j] as int].name
            == cat[nd[i] as int].inherits[k] by {
            if i < done.len() {
                assert(nd[i] == done[i]);
                assert(cat[done[i] as int].inherits[k] == cat[nd[i] as int].inherits[k]);
                let j = choose|j: int| 0 <= j < i && #[trigger] cat[done[j] as int].name
                    == cat[done[i] as int].inherits[k];
                assert(nd[j] == done[j]);
            } else {
                let x = p[i - done.len()];
                assert(nd[i] == x);
                assert(ready(cat, done, x));
                assert(is_root_name(cat[x as int].inherits[k]) || placed(
                    cat,
                    done,
                    cat[x as int].inherits[k],
                ));
                let j = choose|j: int| 0 <= j < done.len() && #[trigger] cat[done[j] as int].name
                    == cat[x as int].inherits[k];
                assert(nd[j] == done[j]);
            }
        }
        lemma_layered_topological(cat, nd, keep(cat, done, rem));
    }
}

/// Whenever the inheritance graph resolves, every type's non-root parents come before it
/// in the resolved order.
pub proof fn lemma_resolution_is_topological(cat: Seq<TypeModel>)
    ensures
        resolution(cat) matches Some(o) ==> topological(cat, o),
{
    lemma_layered_topological(cat, seq![], all_positions(cat.len()));
}

proof fn lemma_layered_in_range(cat: Seq<TypeModel>, done: Seq<usize>, rem: Seq<usize>)
    requires
        forall|j: int| 0 <= j < done.len() ==> #[trigger] done[j] < cat.len(),
        forall|j: int| 0 <= j < rem.len() ==> #[trigger] rem[j] < cat.len(),
    ensures
        layered(cat, done, rem) matches Some(o) ==> forall|j: int|
            0 <= j < o.len() ==> #[trigger] o[j] < cat.len(),
    decreases rem.len(),
{
    if rem.len() > 0 && pick(cat, done, rem).len() > 0 {
        let p = pick(cat, done, rem);
        let k = keep(cat, done, rem);
        lemma_pick_ready(cat, done, rem);
        lemma_keep_from(cat, done, rem);
        lemma_split_len(cat, done, rem);
        assert forall|j: int| 0 <= j < (done + p).len() implies #[trigger] (done + p)[j]
            < cat.len() by {
            if j >= done.len() {
                assert(rem.contains(p[j - done.len()]));
            }
        }
        assert forall|j: int| 0 <= j < k.len() implies #[trigger] k[j] < cat.len() by {
            assert(rem.contains(k[j]));
        }
        lemma_layered_in_range(cat, done + p, k);
    }
}

/// A resolved order names catalog positions only.
pub proof fn lemma_resolution_in_range(cat: Seq<TypeModel>)
    ensures
        resolution(cat) matches Some(o) ==> forall|j: int|
            0 <= j < o.len() ==> #[trigger] o[j] < cat.len(),
{
    lemma_layered_in_range(cat, seq![], all_positions(cat.len()));
}

pub proof fn lemma_split_covers(cat: Seq<TypeModel>, done: Seq<usize>, rem: Seq<usize>, x: usize)
    requires
        rem.contains(x),
    ensures
        pick(cat, done, rem).contains(x) || keep(cat, done, rem).contains(x),
    decreases rem.len(),
{
    let w = choose|w: int| 0 <= w < rem.len() && rem[w] == x;
    if w == rem.len() - 1 {
        let p = pick(cat, done, rem);
        let k = keep(cat, done, rem);
        if ready(cat, done, rem.last()) {
            assert(p[p.len() - 1] == x);
        } else {
            assert(k[k.len() - 1] == x);
        }
    } else {
        assert(rem.drop_last()[w] == x);
        lemma_split_covers(cat, done, rem.drop_last(), x);
        let p0 = pick(cat, done, rem.drop_last());
        let k0 = keep(cat, done, rem.drop_last());
        if p0.contains(x) {
            let v = choose|v: int| 0 <= v < p0.len() && p0[v] == x;
            assert(pick(cat, done, rem)[v] == x);
        } else {
            let v = choose|v: int| 0 <= v < k0.len() && k0[v] == x;
            assert(keep(cat, done, rem)[v] == x);
        }
    }
}

/// Every kept type is not ready.
pub proof fn lemma_keep_unready(cat: Seq<TypeModel>, done: Seq<usize>, rem: Seq<usize>)
    ensures
        forall|m: int|
            0 <= m < keep(cat, done, rem).len() ==> !ready(cat, done, #[trigger] keep(cat, done, rem)[m]),
    decreases rem.len(),
{
    if rem.len() > 0 {
        lemma_keep_unready(cat, done, rem.drop_last());
        let p = keep(cat, done, rem.drop_last());
        assert forall|m: int| 0 <= m < keep(cat, done, rem).len() implies !ready(
            cat,
            done,
            #[trigger] keep(cat, done, rem)[m],
        ) by {
            if m < p.len() {
                assert(keep(cat, done, rem)[m] == p[m]);
            }
        }
    }
}

/// A remaining type that is not ready waits for a later layer.
pub proof fn lemma_unready_kept(cat: Seq<TypeModel>, done: Seq<usize>, rem: Seq<usize>, x: usize)
    requires
        rem.contains(x),
        !ready(cat, done, x),
    ensures
        keep(cat, done, rem).contains(x),
{
    lemma_split_covers(cat, done, rem, x);
    lemma_pick_ready(cat, done, rem);
    let p = pick(cat, done, rem);
    if p.contains(x) {
        let v = choose|v: int| 0 <= v < p.len() && p[v] == x;
        assert(ready(cat, done, p[v]));
    }
}

proof fn lemma_layered_complete(cat: Seq<TypeModel>, done: Seq<usize>, rem: Seq<usize>, x: usize)
    requires
        done.contains(x) || rem.contains(x),
    ensures
        layered(cat, done, rem) matches Some(o) ==> o.contains(x),
    decreases rem.len(),
{
    if rem.len() > 0 && pick(cat, done, rem).len() > 0 {
        let p = pick(cat, done, rem);
        lemma_split_len(cat, done, rem);
        if done.contains(x) {
            let v = choose|v: int| 0 <= v < done.len() && done[v] == x;
            assert((done + p)[v] == x);
        } else {
            lemma_split_covers(cat, done, rem, x);
            if p.contains(x) {
                let v = choose|v: int| 0 <= v < p.len() && p[v] == x;
                assert((done + p)[done.len() + v] == x);
            }
        }
        lemma_layered_complete(cat, done + p, keep(cat, done, rem), x);
    }
}

/// A resolved order holds every type of the catalog.
pub proof fn lemma_resolution_complete(cat: Seq<TypeModel>, x: usize)
    requires
        x < cat.len(),
    ensures
        resolution(cat) matches Some(o) ==> o.contains(x),
{
    assert(all_positions(cat.len())[x as int] == x);
    lemma_layered_complete(cat, seq![], all_positions(cat.len()), x);
}

/// A type with a parent that is neither a root nor declared keeps the whole catalog from
/// resolving.
pub proof fn lemma_missing_parent_never_resolves(cat: Seq<TypeModel>, t: usize, k: int)
    requires
        t < cat.len(),
        0 <= k < cat[t as int].inherits.len(),
        !is_root_name(cat[t as int].inherits[k]),
        !has_name(cat, cat[t as int].inherits[k]),
    ensures
        resolution(cat) is None,
{
    lemma_resolution_complete(cat, t);
    lemma_resolution_is_topological(cat);
    lemma_resolution_in_range(cat);
    if let Some(o) = resolution(cat) {
        let i = choose|i: int| 0 <= i < o.len() && o[i] == t;
        assert(!is_root_name(cat[o[i] as int].inherits[k]));
        let j = choose|j: int| 0 <= j < i && #[trigger] cat[o[j] as int].name
            == cat[o[i] as int].inherits[k];
        assert(o[j] < cat.len());
        assert(has_name(cat, cat[t as int].inherits[k]));
    }
}

/// A cycle of declared types, none named like a root, keeps a catalog with unique names
/// from resolving.
pub proof fn lemma_cycle_never_resolves(cat: Seq<TypeModel>, c: Seq<usize>)
    requires
        names_unique(cat),
        index_cycle(cat, c),
        forall|i: int| 0 <= i < c.len() ==> !is_root_name(#[trigger] cat[c[i] as int].name),
    ensures
        resolution(cat) is None,
{
    lemma_resolution_in_range(cat);
    if let Some(o) = resolution(cat) {
        lemma_resolution_complete(cat, c[0]);
        let j0 = choose|j: int| 0 <= j < o.len() && o[j] == c[0];
        assert(c.contains(o[j0]));
        let first = lemma_first_in(o, c, j0);
        let i = choose|i: int| 0 <= i < c.len() && c[i] == o[first];
        let nx: int = if i < c.len() - 1 {
            i + 1
        } else {
            0
        };
        assert(link(cat, c[i], c[nx]));
        let pn = cat[c[nx] as int].name;
        let k = choose|k: int|
            0 <= k < cat[c[i] as int].inherits.len() && cat[c[i] as int].inherits[k] == pn;
        assert(c[nx] < cat.len());
        assert(!is_root_name(cat[c[nx] as int].name));
        assert(!is_root_name(cat[o[first] as int].inherits[k]));
        let j = lemma_parent_earlier(cat, o, first, k);
        assert(o[j] < cat.len());
        if o[j] != c[nx] {
            if o[j] < c[nx] {
                assert(cat[o[j] as int].name != cat[c[nx] as int].name);
            } else {
                assert(cat[c[nx] as int].name != cat[o[j] as int].name);
            }
        }
        assert(c.contains(o[j]));
    }
}

proof fn lemma_parent_earlier(cat: Seq<TypeModel>, o: Seq<usize>, i: int, k: int) -> (j: int)
    requires
        resolution(cat) == Some(o),
        0 <= i < o.len(),
        0 <= k < cat[o[i] as int].inherits.len(),
        !is_root_name(cat[o[i] as int].inherits[k]),
    ensures
        0 <= j < i,
        cat[o[j] as int].name == cat[o[i] as int].inherits[k],
{
    lemma_resolution_is_topological(cat);
    choose|j: int| 0 <= j < i && #[trigger] cat[o[j] as int].name == cat[o[i] as int].inherits[k]
}

proof fn lemma_first_in(o: Seq<usize>, c: Seq<usize>, j0: int) -> (j: int)
    requires
        0 <= j0 < o.len(),
        c.contains(o[j0]),
    ensures
        0 <= j <= j0,
        c.contains(o[j]),
        forall|q: int| 0 <= q < j ==> !c.contains(#[trigger] o[q]),
    decreases j0,
{
    if exists|q: int| 0 <= q < j0 && c.contains(#[trigger] o[q]) {
        let q = choose|q: int| 0 <= q < j0 && c.contains(#[trigger] o[q]);
        lemma_first_in(o, c, q)
    } else {
        j0
    }
}

/// Whether a type placed in `done` is named `n`.
fn is_placed(types: &TypeMap, done: &Vec<usize>, n: &String) -> (r: bool)
    requires
        forall|j: int| 0 <= j < done@.len() ==> done@[j] < types@.len(),
    ensures
        r == placed(types@, done@, n@),
{
    let mut j: usize = 0;
    while j < done.len()
        invariant
            j <= done.len(),
            forall|i: int| 0 <= i < done@.len() ==> done@[i] < types@.len(),
            forall|i: int| 0 <= i < j ==> types@[done@[i] as int].name != n@,
        decreases done.len() - j,
    {
        if types.at(done[j]).name == *n {
            assert(types@[done@[j as int] as int].name == n@);
            return true;
        }
        j = j + 1;
    }
    false
}

/// Whether type `t` can be placed after `done`.
pub fn is_ready(types: &TypeMap, done: &Vec<usize>, t: usize) -> (r: bool)
    requires
        t < types@.len(),
        forall|j: int| 0 <= j < done@.len() ==> done@[j] < types@.len(),
    ensures
        r == ready(types@, done@, t),
{
    let ti = types.at(t);
    let mut k: usize = 0;
    while k < ti.inherits.len()
        invariant
            ti@ == types@[t as int],
            k <= ti.inherits.len(),
            forall|j: int| 0 <= j < done@.len() ==> done@[j] < types@.len(),
            forall|q: int|
                0 <= q < k ==> is_root_name(#[trigger] types@[t as int].inherits[q]) || placed(
                    types@,
                    done@,
                    types@[t as int].inherits[q],
                ),
        decreases ti.inherits.len() - k,
    {
        assert(ti@.inherits[k as int] == ti.inherits@[k as int]@);
        if !is_root(&ti.inherits[k]) && !is_placed(types, done, &ti.inherits[k]) {
            return false;
        }
        k = k + 1;
    }
    true
}

} // verus!
