use vstd::prelude::*;

use crate::internal_rep::AvRuleFlavor;

verus! {

/// The two built-in roots that terminate every inheritance chain.
pub open spec fn is_root_name(n: Seq<char>) -> bool {
    n == "domain"@ || n == "resource"@
}

/// The keywords of the four access-vector rule flavors.
pub open spec fn is_builtin_name(n: Seq<char>) -> bool {
    n == "allow"@ || n == "dontaudit"@ || n == "auditallow"@ || n == "neverallow"@
}

/// Whether `n` is one of the built-in roots.
pub fn is_root(n: &String) -> (r: bool)
    ensures
        r == is_root_name(n@),
{
    let d = "domain".to_owned();
    let s = "resource".to_owned();
    proof {
        reveal_strlit("domain");
        reveal_strlit("resource");
    }
    *n == d || *n == s
}

/// Whether `n` is one of the rule keywords.
pub fn name_is_builtin(n: &String) -> (r: bool)
    ensures
        r == is_builtin_name(n@),
{
    let a = "allow".to_owned();
    let d = "dontaudit".to_owned();
    let u = "auditallow".to_owned();
    let v = "neverallow".to_owned();
    proof {
        reveal_strlit("allow");
        reveal_strlit("dontaudit");
        reveal_strlit("auditallow");
        reveal_strlit("neverallow");
    }
    *n == a || *n == d || *n == u || *n == v
}

/// The rule flavor that a keyword names.
pub open spec fn flavor_of(n: Seq<char>) -> Option<AvRuleFlavor> {
    if n == "allow"@ {
        Some(AvRuleFlavor::Allow)
    } else if n == "dontaudit"@ {
        Some(AvRuleFlavor::Dontaudit)
    } else if n == "auditallow"@ {
        Some(AvRuleFlavor::Auditallow)
    } else if n == "neverallow"@ {
        Some(AvRuleFlavor::Neverallow)
    } else {
        None
    }
}

/// The rule flavor named by `n`, if it is a rule keyword.
pub fn flavor_of_name(n: &String) -> (r: Option<AvRuleFlavor>)
    ensures
        r == flavor_of(n@),
{
    let a = "allow".to_owned();
    let d = "dontaudit".to_owned();
    let u = "auditallow".to_owned();
    let v = "neverallow".to_owned();
    proof {
        reveal_strlit("allow");
        reveal_strlit("dontaudit");
        reveal_strlit("auditallow");
        reveal_strlit("neverallow");
    }
    if *n == a {
        Some(AvRuleFlavor::Allow)
    } else if *n == d {
        Some(AvRuleFlavor::Dontaudit)
    } else if *n == u {
        Some(AvRuleFlavor::Auditallow)
    } else if *n == v {
        Some(AvRuleFlavor::Neverallow)
    } else {
        None
    }
}

/// The keyword written for a rule flavor.
pub open spec fn flavor_keyword(f: AvRuleFlavor) -> Seq<char> {
    match f {
        AvRuleFlavor::Allow => "allow"@,
        AvRuleFlavor::Dontaudit => "dontaudit"@,
        AvRuleFlavor::Auditallow => "auditallow"@,
        AvRuleFlavor::Neverallow => "neverallow"@,
    }
}

/// The keyword written for `f`.
pub fn keyword_of(f: AvRuleFlavor) -> (r: String)
    ensures
        r@ == flavor_keyword(f),
{
    proof {
        reveal_strlit("allow");
        reveal_strlit("dontaudit");
        reveal_strlit("auditallow");
        reveal_strlit("neverallow");
    }
    match f {
        AvRuleFlavor::Allow => "allow".to_owned(),
        AvRuleFlavor::Dontaudit => "dontaudit".to_owned(),
        AvRuleFlavor::Auditallow => "auditallow".to_owned(),
        AvRuleFlavor::Neverallow => "neverallow".to_owned(),
    }
}

} // verus!
