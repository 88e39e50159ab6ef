use vstd::prelude::*;

use crate::constants::{is_builtin_name, name_is_builtin};

verus! {

/// A parsed policy: the ordered top-level expressions of one source file.
#[derive(Debug)]
pub struct Policy {
    pub exprs: Vec<Expression>,
}

impl Policy {
    pub fn new(v: Vec<Expression>) -> (p: Policy)
        ensures
            p.exprs@ == v@,
    {
        Policy { exprs: v }
    }
}

#[derive(Debug)]
pub enum Expression {
    Decl(Declaration),
    Stmt(Statement),
}

/// Something that can be marked virtual: usable as a parent, never as a rule operand.
pub trait Virtualable {
    fn set_virtual(&mut self);
}

#[derive(Debug)]
pub enum Declaration {
    Type(Box<TypeDecl>),
    Func(Box<FuncDecl>),
}

impl Virtualable for Declaration {
    /// Marks a type declaration virtual; function declarations are left as they are.
    fn set_virtual(&mut self)
        ensures
            match *old(self) {
                Declaration::Type(t) => match *final(self) {
                    Declaration::Type(u) => u.name == t.name && u.inherits == t.inherits
                        && u.expressions == t.expressions && u.is_virtual,
                    Declaration::Func(_) => false,
                },
                Declaration::Func(_) => *final(self) == *old(self),
            },
    {
        match self {
            Declaration::Type(t) => t.set_virtual(),
            Declaration::Func(_) => {},
        }
    }
}

/// A type declaration: its name, its ordered parents and the expressions of its body.
#[derive(Debug)]
pub struct TypeDecl {
    pub name: String,
    pub inherits: Vec<String>,
    pub is_virtual: bool,
    pub expressions: Vec<Expression>,
}

impl TypeDecl {
    pub fn new(n: String, i: Vec<String>, e: Vec<Expression>) -> (t: TypeDecl)
        ensures
            t.name == n,
            t.inherits == i,
            t.expressions == e,
            !t.is_virtual,
    {
        TypeDecl { name: n, inherits: i, is_virtual: false, expressions: e }
    }
}

/// Two type declarations are the same declaration when they carry the same name.
impl PartialEq for TypeDecl {
    fn eq(&self, other: &Self) -> (r: bool)
        ensures
            r == (self.name@ == other.name@),
    {
        self.name == other.name
    }
}

impl vstd::std_specs::cmp::PartialEqSpecImpl for TypeDecl {
    open spec fn obeys_eq_spec() -> bool {
        true
    }

    open spec fn eq_spec(&self, other: &TypeDecl) -> bool {
        self.name@ == other.name@
    }
}

impl Virtualable for TypeDecl {
    fn set_virtual(&mut self)
        ensures
            final(self).is_virtual,
            final(self).name == old(self).name,
            final(self).inherits == old(self).inherits,
            final(self).expressions == old(self).expressions,
    {
        self.is_virtual = true;
    }
}

#[derive(Debug)]
pub struct FuncDecl {}

#[derive(Debug)]
pub enum Statement {
    Call(Box<FuncCall>),
}

/// A call: an optional receiver (`this.read()`), a name and its arguments.
#[derive(Debug)]
pub struct FuncCall {
    pub class_name: Option<String>,
    pub name: String,
    pub args: Vec<Argument>,
}

impl FuncCall {
    pub fn new(cn: Option<String>, n: String, a: Vec<Argument>) -> (c: FuncCall)
        ensures
            c.class_name == cn,
            c.name == n,
            c.args == a,
    {
        FuncCall { class_name: cn, name: n, args: a }
    }

    /// An unqualified call to one of the rule keywords.
    pub open spec fn spec_is_builtin(&self) -> bool {
        self.class_name is None && is_builtin_name(self.name@)
    }

    pub fn is_builtin(&self) -> (r: bool)
        ensures
            r == self.spec_is_builtin(),
    {
        match self.class_name {
            Some(_) => false,
            None => name_is_builtin(&self.name),
        }
    }
}

#[derive(Debug)]
pub struct Annotation {}

#[derive(Debug)]
pub enum Argument {
    Var(String),
    List(Vec<String>),
    Quote(String),
}

} // verus!
