use vstd::prelude::*;

use crate::constants::flavor_keyword;
use crate::internal_rep::{RuleModel, TypeModel};

verus! {

/// An expression of the low-level policy language: an atom or a parenthesized list.
#[derive(Debug)]
pub enum Ir {
    Atom(String),
    List(Vec<Ir>),
}

/// What an IR expression says, over plain sequences.
pub enum IrModel {
    Atom(Seq<char>),
    List(Seq<IrModel>),
}

pub open spec fn ir_view(ir: Ir) -> IrModel
    decreases ir, 0nat,
{
    match ir {
        Ir::Atom(s) => IrModel::Atom(s@),
        Ir::List(v) => IrModel::List(ir_seq_view(v@, v@.len())),
    }
}

/// The views of the first `n` expressions of `s`.
pub open spec fn ir_seq_view(s: Seq<Ir>, n: nat) -> Seq<IrModel>
    decreases s, n,
{
    if n == 0 || n > s.len() {
        seq![]
    } else {
        ir_seq_view(s, (n - 1) as nat).push(ir_view(s[n - 1]))
    }
}

pub open spec fn ir_views(s: Seq<Ir>) -> Seq<IrModel> {
    ir_seq_view(s, s.len())
}

proof fn lemma_seq_view_prefix(s: Seq<Ir>, t: Seq<Ir>, n: nat)
    requires
        n <= s.len(),
        n <= t.len(),
        forall|i: int| 0 <= i < n ==> s[i] == t[i],
    ensures
        ir_seq_view(s, n) == ir_seq_view(t, n),
    decreases n,
{
    if n > 0 {
        lemma_seq_view_prefix(s, t, (n - 1) as nat);
    }
}

pub proof fn lemma_views_push(s: Seq<Ir>, x: Ir)
    ensures
        ir_views(s.push(x)) == ir_views(s).push(ir_view(x)),
{
    lemma_seq_view_prefix(s, s.push(x), s.len());
}

pub proof fn lemma_views_len(s: Seq<Ir>, n: nat)
    requires
        n <= s.len(),
    ensures
        ir_seq_view(s, n).len() == n,
    decreases n,
{
    if n > 0 {
        lemma_views_len(s, (n - 1) as nat);
    }
}

pub proof fn lemma_views_index(s: Seq<Ir>, n: nat, i: int)
    requires
        n <= s.len(),
        0 <= i < n,
    ensures
        ir_seq_view(s, n)[i] == ir_view(s[i]),
    decreases n,
{
    lemma_views_len(s, n);
    if i < n - 1 {
        lemma_views_index(s, (n - 1) as nat, i);
        lemma_views_len(s, (n - 1) as nat);
    }
}

pub proof fn lemma_views_append(s: Seq<Ir>, t: Seq<Ir>)
    ensures
        ir_views(s + t) == ir_views(s) + ir_views(t),
{
    lemma_views_len(s + t, (s + t).len());
    lemma_views_len(s, s.len());
    lemma_views_len(t, t.len());
    assert forall|i: int| 0 <= i < (s + t).len() implies ir_views(s + t)[i] == (ir_views(s)
        + ir_views(t))[i] by {
        lemma_views_index(s + t, (s + t).len(), i);
        if i < s.len() {
            lemma_views_index(s, s.len(), i);
        } else {
            lemma_views_index(t, t.len(), i - s.len());
        }
    }
    assert(ir_views(s + t) =~= ir_views(s) + ir_views(t));
}

pub open spec fn atoms(ns: Seq<Seq<char>>) -> Seq<IrModel> {
    ns.map_values(|n: Seq<char>| IrModel::Atom(n))
}

/// `(type <name>)`
pub open spec fn type_expr(name: Seq<char>) -> IrModel {
    IrModel::List(seq![IrModel::Atom("type"@), IrModel::Atom(name)])
}

/// `(<flavor> <source> <target> <class> (<perm> ...))`
pub open spec fn rule_expr(r: RuleModel) -> IrModel {
    IrModel::List(
        seq![
            IrModel::Atom(flavor_keyword(r.flavor)),
            IrModel::Atom(r.source),
            IrModel::Atom(r.target),
            IrModel::Atom(r.class),
            IrModel::List(atoms(r.perms)),
        ],
    )
}

/// One type expression per type of `order`, in that order.
pub open spec fn type_exprs(cat: Seq<TypeModel>, order: Seq<usize>) -> Seq<IrModel> {
    order.map_values(|i: usize| type_expr(cat[i as int].name))
}

/// One rule expression per rule, in order.
pub open spec fn rule_exprs(rules: Seq<RuleModel>) -> Seq<IrModel> {
    rules.map_values(|r: RuleModel| rule_expr(r))
}

/// The whole emitted program: the types in resolved order, then the rules.
pub open spec fn emit(cat: Seq<TypeModel>, order: Seq<usize>, rules: Seq<RuleModel>) -> IrModel {
    IrModel::List(type_exprs(cat, order) + rule_exprs(rules))
}

} // verus!
