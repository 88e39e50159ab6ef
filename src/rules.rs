use vstd::prelude::*;

use crate::ast::{Argument, Declaration, Expression, FuncCall, Statement};
use crate::constants::flavor_of;
use crate::error::{names_view, ErrorModel};
use crate::internal_rep::{has_name, RuleModel, TypeModel};

verus! {

/// A rule operand: a variable naming a catalog type.
pub open spec fn operand(cat: Seq<TypeModel>, a: Argument) -> Result<Seq<char>, ErrorModel> {
    match a {
        Argument::Var(s) => if has_name(cat, s@) {
            Ok(s@)
        } else {
            Err(ErrorModel::UnknownType(s@))
        },
        _ => Err(ErrorModel::ExpectedIdentifier),
    }
}

/// The rule that a builtin call denotes, or the first thing wrong with it.
pub open spec fn call_rule(cat: Seq<TypeModel>, c: FuncCall) -> Result<RuleModel, ErrorModel> {
    match flavor_of(c.name@) {
        None => Err(ErrorModel::UnknownRuleName(c.name@)),
        Some(f) => if c.args@.len() != 4 {
            Err(ErrorModel::WrongArgumentCount(4, c.args@.len()))
        } else {
            match operand(cat, c.args@[0]) {
                Err(e) => Err(e),
                Ok(src) => match operand(cat, c.args@[1]) {
                    Err(e) => Err(e),
                    Ok(tgt) => match c.args@[2] {
                        Argument::Var(cl) => match c.args@[3] {
                            Argument::List(ps) => Ok(
                                RuleModel {
                                    flavor: f,
                                    source: src,
                                    target: tgt,
                                    class: cl@,
                                    perms: names_view(ps@),
                                },
                            ),
                            _ => Err(ErrorModel::ExpectedPermissionList),
                        },
                        _ => Err(ErrorModel::ExpectedIdentifier),
                    },
                },
            }
        },
    }
}

/// Results joined in order; the first error wins.
pub open spec fn join(
    a: Result<Seq<RuleModel>, ErrorModel>,
    b: Result<Seq<RuleModel>, ErrorModel>,
) -> Result<Seq<RuleModel>, ErrorModel> {
    match a {
        Err(e) => Err(e),
        Ok(x) => match b {
            Err(e) => Err(e),
            Ok(y) => Ok(x + y),
        },
    }
}

/// The rules of `exprs[i..]`, in order, descending into type bodies; or the first error.
pub open spec fn rules_from(cat: Seq<TypeModel>, exprs: Seq<Expression>, i: int) -> Result<
    Seq<RuleModel>,
    ErrorModel,
>
    decreases exprs, exprs.len() - i,
{
    if i < 0 || i >= exprs.len() {
        Ok(seq![])
    } else {
        join(rules_at(cat, exprs, i), rules_from(cat, exprs, i + 1))
    }
}

/// The rules of the single expression `exprs[i]`.
pub open spec fn rules_at(cat: Seq<TypeModel>, exprs: Seq<Expression>, i: int) -> Result<
    Seq<RuleModel>,
    ErrorModel,
>
    decreases exprs, 0int,
{
    if 0 <= i < exprs.len() {
        match exprs[i] {
            Expression::Stmt(Statement::Call(c)) => if c.spec_is_builtin() {
                match call_rule(cat, *c) {
                    Ok(r) => Ok(seq![r]),
                    Err(e) => Err(e),
                }
            } else {
                Ok(seq![])
            },
            Expression::Decl(Declaration::Type(t)) => rules_from(cat, t.expressions@, 0),
            _ => Ok(seq![]),
        }
    } else {
        Ok(seq![])
    }
}

} // verus!
