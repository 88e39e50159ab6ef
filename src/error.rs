use vstd::prelude::*;

verus! {

/// A user-facing diagnostic about the policy being compiled.
#[derive(Debug)]
pub enum HLLCompileError {
    DuplicateType(String),
    UndeclaredParent(String, String),
    InheritanceCycle(Vec<String>),
    UnknownType(String),
    WrongArgumentCount { expected: usize, actual: usize },
    ExpectedIdentifier,
    ExpectedPermissionList,
}

/// An invariant of the compiler itself was broken.
#[derive(Debug)]
pub enum HLLInternalError {
    UnknownRuleName(String),
    UndiagnosedType(String),
}

#[derive(Debug)]
pub enum HLLError {
    Compile(HLLCompileError),
    Internal(HLLInternalError),
}

/// What a diagnostic says, over plain sequences.
pub enum ErrorModel {
    DuplicateType(Seq<char>),
    UndeclaredParent(Seq<char>, Seq<char>),
    InheritanceCycle(Seq<Seq<char>>),
    UnknownType(Seq<char>),
    WrongArgumentCount(nat, nat),
    ExpectedIdentifier,
    ExpectedPermissionList,
    UnknownRuleName(Seq<char>),
    UndiagnosedType(Seq<char>),
}

pub open spec fn names_view(v: Seq<String>) -> Seq<Seq<char>> {
    v.map_values(|s: String| s@)
}

impl View for HLLError {
    type V = ErrorModel;

    open spec fn view(&self) -> ErrorModel {
        match self {
            HLLError::Compile(c) => match c {
                HLLCompileError::DuplicateType(n) => ErrorModel::DuplicateType(n@),
                HLLCompileError::UndeclaredParent(t, p) => ErrorModel::UndeclaredParent(t@, p@),
                HLLCompileError::InheritanceCycle(p) => ErrorModel::InheritanceCycle(names_view(p@)),
                HLLCompileError::UnknownType(n) => ErrorModel::UnknownType(n@),
                HLLCompileError::WrongArgumentCount { expected, actual } =>
                    ErrorModel::WrongArgumentCount(*expected as nat, *actual as nat),
                HLLCompileError::ExpectedIdentifier => ErrorModel::ExpectedIdentifier,
                HLLCompileError::ExpectedPermissionList => ErrorModel::ExpectedPermissionList,
            },
            HLLError::Internal(i) => match i {
                HLLInternalError::UnknownRuleName(n) => ErrorModel::UnknownRuleName(n@),
                HLLInternalError::UndiagnosedType(n) => ErrorModel::UndiagnosedType(n@),
            },
        }
    }
}

pub open spec fn errors_view(v: Seq<HLLError>) -> Seq<ErrorModel> {
    v.map_values(|e: HLLError| e@)
}

/// Whether `es` lists every diagnostic at most once.
pub open spec fn no_repeats(es: Seq<ErrorModel>) -> bool {
    forall|i: int, j: int| 0 <= i < j < es.len() ==> es[i] != es[j]
}

/// Whether two name lists hold the same names in the same order.
pub fn names_equal(a: &Vec<String>, b: &Vec<String>) -> (r: bool)
    ensures
        r == (names_view(a@) == names_view(b@)),
{
    if a.len() != b.len() {
        proof {
            assert(names_view(a@).len() != names_view(b@).len());
        }
        return false;
    }
    let mut i: usize = 0;
    while i < a.len()
        invariant
            a.len() == b.len(),
            i <= a.len(),
            forall|k: int| 0 <= k < i ==> a@[k]@ == b@[k]@,
        decreases a.len() - i,
    {
        if a[i] != b[i] {
            proof {
                assert(names_view(a@)[i as int] != names_view(b@)[i as int]);
            }
            return false;
        }
        i = i + 1;
    }
    proof {
        assert(names_view(a@) =~= names_view(b@));
    }
    true
}

impl HLLError {
    /// Whether two diagnostics say the same thing.
    pub fn same_as(&self, other: &HLLError) -> (r: bool)
        ensures
            r == (self@ == other@),
    {
        match (self, other) {
            (HLLError::Compile(a), HLLError::Compile(b)) => match (a, b) {
                (HLLCompileError::DuplicateType(x), HLLCompileError::DuplicateType(y)) => *x == *y,
                (
                    HLLCompileError::UndeclaredParent(x1, x2),
                    HLLCompileError::UndeclaredParent(y1, y2),
                ) => *x1 == *y1 && *x2 == *y2,
                (HLLCompileError::InheritanceCycle(x), HLLCompileError::InheritanceCycle(y)) =>
                    names_equal(x, y),
                (HLLCompileError::UnknownType(x), HLLCompileError::UnknownType(y)) => *x == *y,
                (
                    HLLCompileError::WrongArgumentCount { expected: e1, actual: a1 },
                    HLLCompileError::WrongArgumentCount { expected: e2, actual: a2 },
                ) => *e1 == *e2 && *a1 == *a2,
                (HLLCompileError::ExpectedIdentifier, HLLCompileError::ExpectedIdentifier) => true,
                (
                    HLLCompileError::ExpectedPermissionList,
                    HLLCompileError::ExpectedPermissionList,
                ) => true,
                _ => false,
            },
            (HLLError::Internal(a), HLLError::Internal(b)) => match (a, b) {
                (HLLInternalError::UnknownRuleName(x), HLLInternalError::UnknownRuleName(y)) =>
                    *x == *y,
                (HLLInternalError::UndiagnosedType(x), HLLInternalError::UndiagnosedType(y)) =>
                    *x == *y,
                _ => false,
            },
            _ => false,
        }
    }
}

/// `acc` with `e` appended, unless it is already there.
pub open spec fn add_report(acc: Seq<ErrorModel>, e: ErrorModel) -> Seq<ErrorModel> {
    if acc.contains(e) {
        acc
    } else {
        acc.push(e)
    }
}

/// Appends `e` to `errs` unless an equal diagnostic is already there.
pub fn push_unique(errs: &mut Vec<HLLError>, e: HLLError)
    requires
        no_repeats(errors_view(old(errs)@)),
    ensures
        no_repeats(errors_view(final(errs)@)),
        final(errs)@.len() > 0,
        errors_view(final(errs)@) == add_report(errors_view(old(errs)@), e@),
        errors_view(final(errs)@).contains(e@),
        forall|x: ErrorModel| errors_view(old(errs)@).contains(x) ==> errors_view(final(errs)@).contains(x),
        errors_view(old(errs)@).contains(e@) ==> final(errs)@ == old(errs)@,
        !errors_view(old(errs)@).contains(e@) ==> final(errs)@ == old(errs)@.push(e),
{
    let mut i: usize = 0;
    while i < errs.len()
        invariant
            i <= errs.len(),
            errs@ == old(errs)@,
            no_repeats(errors_view(old(errs)@)),
            forall|k: int| 0 <= k < i ==> errs@[k]@ != e@,
        decreases errs.len() - i,
    {
        if errs[i].same_as(&e) {
            proof {
                assert(errors_view(errs@)[i as int] == e@);
            }
            return;
        }
        i = i + 1;
    }
    proof {
        assert(!errors_view(errs@).contains(e@)) by {
            if errors_view(errs@).contains(e@) {
                let k = choose|k: int| 0 <= k < errors_view(errs@).len() && errors_view(errs@)[k] == e@;
                assert(errs@[k]@ == e@);
            }
        }
    }
    let ghost before = errs@;
    errs.push(e);
    proof {
        assert(errors_view(errs@) =~= errors_view(before).push(e@));
        assert(errors_view(errs@)[before.len() as int] == e@);
        assert forall|x: ErrorModel| errors_view(before).contains(x) implies errors_view(errs@).contains(x) by {
            let k = choose|k: int| 0 <= k < errors_view(before).len() && errors_view(before)[k] == x;
            assert(errors_view(errs@)[k] == x);
        }
    }
}

} // verus!
