use vstd::prelude::*;

use crate::ast::{Declaration, Expression};
use crate::error::{add_report, names_view, ErrorModel};
use crate::internal_rep::{has_name, names_unique, TypeModel};

verus! {

/// The top-level type declarations of `exprs`, in order, as type records.
pub open spec fn declared_types(exprs: Seq<Expression>) -> Seq<TypeModel>
    decreases exprs.len(),
{
    if exprs.len() == 0 {
        seq![]
    } else {
        let p = declared_types(exprs.drop_last());
        match exprs.last() {
            Expression::Decl(Declaration::Type(t)) => p.push(
                TypeModel { name: t.name@, inherits: names_view(t.inherits@) },
            ),
            _ => p,
        }
    }
}

/// The duplicate reports of `cat`, in the order of the second declaration of each name.
pub open spec fn dup_reports(cat: Seq<TypeModel>) -> Seq<ErrorModel>
    decreases cat.len(),
{
    if cat.len() == 0 {
        seq![]
    } else {
        let d = cat.drop_last();
        if has_name(d, cat.last().name) {
            add_report(dup_reports(d), ErrorModel::DuplicateType(cat.last().name))
        } else {
            dup_reports(d)
        }
    }
}

/// Whether two records of `cat` are named `n`.
pub open spec fn is_dup(cat: Seq<TypeModel>, n: Seq<char>) -> bool {
    exists|i: int, j: int|
        0 <= i < j < cat.len() && #[trigger] cat[i].name == n && #[trigger] cat[j].name == n
}

/// Whether every diagnostic of `es` reports a name that `cat` declares twice, and every such
/// name is reported.
pub open spec fn reports_duplicates(cat: Seq<TypeModel>, es: Seq<ErrorModel>) -> bool {
    &&& forall|k: int|
        0 <= k < es.len() ==> (#[trigger] es[k] matches ErrorModel::DuplicateType(n) && is_dup(
            cat,
            n,
        ))
    &&& forall|n: Seq<char>| #[trigger] is_dup(cat, n) ==> es.contains(ErrorModel::DuplicateType(n))
}

pub proof fn lemma_unique_no_dup(cat: Seq<TypeModel>)
    ensures
        names_unique(cat) <==> forall|n: Seq<char>| !#[trigger] is_dup(cat, n),
{
    if !names_unique(cat) {
        let (i, j) = choose|i: int, j: int| 0 <= i < j < cat.len() && cat[i].name == cat[j].name;
        assert(is_dup(cat, cat[i].name));
    }
}

pub proof fn lemma_dup_push(cat: Seq<TypeModel>, x: TypeModel, n: Seq<char>)
    ensures
        is_dup(cat.push(x), n) <==> is_dup(cat, n) || (x.name == n && has_name(cat, n)),
{
    let c2 = cat.push(x);
    if is_dup(c2, n) {
        let (i, j) = choose|i: int, j: int|
            0 <= i < j < c2.len() && #[trigger] c2[i].name == n && #[trigger] c2[j].name == n;
        if j < cat.len() {
            assert(cat[i].name == n && cat[j].name == n);
        } else {
            assert(cat[i].name == n);
        }
    }
    if is_dup(cat, n) {
        let (i, j) = choose|i: int, j: int|
            0 <= i < j < cat.len() && #[trigger] cat[i].name == n && #[trigger] cat[j].name == n;
        assert(c2[i].name == n && c2[j].name == n);
    }
    if x.name == n && has_name(cat, n) {
        let i = choose|i: int| 0 <= i < cat.len() && #[trigger] cat[i].name == n;
        assert(c2[i].name == n && c2[cat.len() as int].name == n);
    }
}

} // verus!
