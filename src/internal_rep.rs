use vstd::prelude::*;

use crate::ast::TypeDecl;
use crate::error::names_view;

verus! {

/// A resolved type: its name and the names it inherits from.
#[derive(Debug)]
pub struct TypeInfo {
    pub name: String,
    pub inherits: Vec<String>,
}

/// What a type record says, over plain sequences.
pub struct TypeModel {
    pub name: Seq<char>,
    pub inherits: Seq<Seq<char>>,
}

impl View for TypeInfo {
    type V = TypeModel;

    open spec fn view(&self) -> TypeModel {
        TypeModel { name: self.name@, inherits: names_view(self.inherits@) }
    }
}

/// A copy of a list of names.
pub fn copy_names(v: &Vec<String>) -> (r: Vec<String>)
    ensures
        names_view(r@) == names_view(v@),
{
    let mut r: Vec<String> = Vec::new();
    let mut i: usize = 0;
    while i < v.len()
        invariant
            i <= v.len(),
            r@.len() == i,
            forall|k: int| 0 <= k < i ==> r@[k]@ == v@[k]@,
        decreases v.len() - i,
    {
        r.push(v[i].clone());
        i = i + 1;
    }
    proof {
        assert(names_view(r@) =~= names_view(v@));
    }
    r
}

impl TypeInfo {
    pub fn new(td: &TypeDecl) -> (t: TypeInfo)
        ensures
            t@.name == td.name@,
            t@.inherits == names_view(td.inherits@),
    {
        TypeInfo { name: td.name.clone(), inherits: copy_names(&td.inherits) }
    }
}

pub open spec fn models_of(v: Seq<TypeInfo>) -> Seq<TypeModel> {
    v.map_values(|t: TypeInfo| t@)
}

/// Whether some type of `cat` is named `n`.
pub open spec fn has_name(cat: Seq<TypeModel>, n: Seq<char>) -> bool {
    exists|j: int| 0 <= j < cat.len() && #[trigger] cat[j].name == n
}

/// Whether no two types of `cat` share a name.
pub open spec fn names_unique(cat: Seq<TypeModel>) -> bool {
    forall|i: int, j: int| 0 <= i < j < cat.len() ==> cat[i].name != cat[j].name
}

/// The type catalog: type records in declaration order, keyed by their unique names.
#[derive(Debug)]
pub struct TypeMap {
    types: Vec<TypeInfo>,
}

impl View for TypeMap {
    type V = Seq<TypeModel>;

    closed spec fn view(&self) -> Seq<TypeModel> {
        models_of(self.types@)
    }
}

impl TypeMap {
    pub open spec fn wf(&self) -> bool {
        names_unique(self@)
    }

    pub fn new() -> (m: TypeMap)
        ensures
            m@ == Seq::<TypeModel>::empty(),
            m.wf(),
    {
        let m = TypeMap { types: Vec::new() };
        proof {
            assert(m@ =~= Seq::<TypeModel>::empty());
        }
        m
    }

    pub fn len(&self) -> (n: usize)
        ensures
            n == self@.len(),
    {
        self.types.len()
    }

    /// The record at position `i`, in declaration order.
    pub fn at(&self, i: usize) -> (t: &TypeInfo)
        requires
            i < self@.len(),
        ensures
            t@ == self@[i as int],
    {
        &self.types[i]
    }

    /// The position of the type named `n`, if it is in the catalog.
    pub fn index_of(&self, n: &String) -> (r: Option<usize>)
        ensures
            r matches Some(i) ==> i < self@.len() && self@[i as int].name == n@,
            r is None <==> !has_name(self@, n@),
    {
        let mut i: usize = 0;
        while i < self.types.len()
            invariant
                i <= self.types.len(),
                forall|k: int| 0 <= k < i ==> self@[k].name != n@,
            decreases self.types.len() - i,
        {
            if self.types[i].name == *n {
                proof {
                    assert(self@[i as int].name == n@);
                }
                return Some(i);
            }
            i = i + 1;
        }
        None
    }

    /// The record of the type named `name`, if it is in the catalog.
    pub fn get(&self, name: &str) -> (r: Option<&TypeInfo>)
        ensures
            r matches Some(t) ==> t@.name == name@ && self@.contains(t@),
            r is None <==> !has_name(self@, name@),
    {
        let n = name.to_owned();
        match self.index_of(&n) {
            Some(i) => Some(&self.types[i]),
            None => None,
        }
    }

    /// Adds `t` unless a type of that name is already there; reports whether it was added.
    pub fn insert(&mut self, t: TypeInfo) -> (added: bool)
        requires
            old(self).wf(),
        ensures
            final(self).wf(),
            added == !has_name(old(self)@, t@.name),
            added ==> final(self)@ == old(self)@.push(t@),
            !added ==> final(self)@ == old(self)@,
    {
        match self.index_of(&t.name) {
            Some(_) => false,
            None => {
                let ghost before = self.types@;
                self.types.push(t);
                proof {
                    assert(self@ =~= models_of(before).push(t@));
                    assert forall|i: int, j: int| 0 <= i < j < self@.len() implies self@[i].name
                        != self@[j].name by {
                        if j == self@.len() - 1 {
                            assert(self@[i] == models_of(before)[i]);
                        }
                    }
                }
                true
            },
        }
    }
}

/// The four rule flavors.
#[derive(Debug, Clone, Copy, PartialEq, Eq, Structural)]
pub enum AvRuleFlavor {
    Allow,
    Dontaudit,
    Auditallow,
    Neverallow,
}

/// An access-vector rule; source and target are names of catalog types.
#[derive(Debug)]
pub struct AvRule {
    pub av_rule_flavor: AvRuleFlavor,
    pub source: String,
    pub target: String,
    pub class: String,
    pub perms: Vec<String>,
}

/// What a rule says, over plain sequences.
pub struct RuleModel {
    pub flavor: AvRuleFlavor,
    pub source: Seq<char>,
    pub target: Seq<char>,
    pub class: Seq<char>,
    pub perms: Seq<Seq<char>>,
}

impl View for AvRule {
    type V = RuleModel;

    open spec fn view(&self) -> RuleModel {
        RuleModel {
            flavor: self.av_rule_flavor,
            source: self.source@,
            target: self.target@,
            class: self.class@,
            perms: names_view(self.perms@),
        }
    }
}

pub open spec fn rules_of(v: Seq<AvRule>) -> Seq<RuleModel> {
    v.map_values(|r: AvRule| r@)
}

} // verus!
