use hll_compiler::ast::{
    Argument, Declaration, Expression, FuncCall, Policy, Statement, TypeDecl, Virtualable,
};
use hll_compiler::compile::{build_type_map, compile, organize_type_map};
use hll_compiler::error::{HLLCompileError, HLLError};
use hll_compiler::internal_rep::{TypeInfo, TypeMap};
use hll_compiler::ir::Ir;

fn s(x: &str) -> String {
    x.to_string()
}

fn names(xs: &[&str]) -> Vec<String> {
    xs.iter().map(|x| x.to_string()).collect()
}

fn ty(name: &str, parents: &[&str], body: Vec<Expression>) -> Expression {
    Expression::Decl(Declaration::Type(Box::new(TypeDecl::new(s(name), names(parents), body))))
}

fn call(name: &str, args: Vec<Argument>) -> Expression {
    Expression::Stmt(Statement::Call(Box::new(FuncCall::new(None, s(name), args))))
}

fn var(x: &str) -> Argument {
    Argument::Var(s(x))
}

fn list(xs: &[&str]) -> Argument {
    Argument::List(names(xs))
}

fn render(ir: &Ir) -> String {
    match ir {
        Ir::Atom(a) => a.clone(),
        Ir::List(v) => {
            let parts: Vec<String> = v.iter().map(render).collect();
            format!("({})", parts.join(" "))
        }
    }
}

fn order_names(types: &TypeMap, order: &[usize]) -> Vec<String> {
    order.iter().map(|&i| types.at(i).name.clone()).collect()
}

#[test]
fn build_type_map_test() {
    let mut exprs = Vec::new();
    exprs.push(Expression::Decl(Declaration::Type(Box::new(TypeDecl::new(
        "foo".to_string(),
        vec!["domain".to_string()],
        Vec::new(),
    )))));
    let p = Policy::new(exprs);
    let types = build_type_map(&p).unwrap();
    match types.get("foo") {
        Some(foo) => assert_eq!(foo.name, "foo"),
        None => panic!("Foo is not in hash map"),
    }
}

#[test]
fn organize_type_map_test() {
    let mut types = TypeMap::new();
    let foo_type = TypeInfo::new(&TypeDecl::new(
        "foo".to_string(),
        vec!["domain".to_string()],
        Vec::new(),
    ));
    let bar_type = TypeInfo::new(&TypeDecl::new(
        "bar".to_string(),
        vec!["domain".to_string(), "foo".to_string()],
        Vec::new(),
    ));
    let baz_type = TypeInfo::new(&TypeDecl::new(
        "baz".to_string(),
        vec!["domain".to_string(), "foo".to_string(), "bar".to_string()],
        Vec::new(),
    ));
    types.insert(foo_type);
    types.insert(bar_type);
    types.insert(baz_type);

    let type_vec = organize_type_map(&types).unwrap();
    assert_eq!(order_names(&types, &type_vec), names(&["foo", "bar", "baz"]));
}

#[test]
fn ordering_parents_first_whatever_the_declaration_order() {
    let p = Policy::new(vec![
        ty("C", &["domain", "A", "B"], vec![]),
        ty("B", &["domain", "A"], vec![]),
        ty("A", &["domain"], vec![]),
    ]);
    let types = build_type_map(&p).unwrap();
    let order = organize_type_map(&types).unwrap();
    assert_eq!(order_names(&types, &order), names(&["A", "B", "C"]));
}

#[test]
fn ordering_ties_follow_declaration_order() {
    let p = Policy::new(vec![
        ty("zeta", &["resource"], vec![]),
        ty("child", &["domain", "alpha"], vec![]),
        ty("alpha", &["domain"], vec![]),
    ]);
    let types = build_type_map(&p).unwrap();
    let order = organize_type_map(&types).unwrap();
    assert_eq!(order_names(&types, &order), names(&["zeta", "alpha", "child"]));
}

#[test]
fn rule_resolution_and_emission() {
    let rule = call(
        "allow",
        vec![var("httpd"), var("httpd_log"), var("file"), list(&["read", "write"])],
    );
    let p = Policy::new(vec![
        ty("httpd", &["domain"], vec![rule]),
        ty("httpd_log", &["resource"], vec![]),
    ]);
    let ir = compile(&p).unwrap();
    assert_eq!(
        render(&ir),
        "((type httpd) (type httpd_log) (allow httpd httpd_log file (read write)))"
    );
}

#[test]
fn every_flavor_keyword_is_emitted() {
    let mk = |n: &str| call(n, vec![var("a"), var("a"), var("file"), list(&["read"])]);
    let p = Policy::new(vec![
        ty("a", &["domain"], vec![]),
        mk("dontaudit"),
        mk("auditallow"),
        mk("neverallow"),
    ]);
    let ir = compile(&p).unwrap();
    assert_eq!(
        render(&ir),
        "((type a) (dontaudit a a file (read)) (auditallow a a file (read)) (neverallow a a file (read)))"
    );
}

#[test]
fn compiling_twice_gives_identical_output() {
    let build = || {
        Policy::new(vec![
            ty("b", &["domain", "a"], vec![call(
                "allow",
                vec![var("b"), var("a"), var("dir"), list(&["search"])],
            )]),
            ty("a", &["resource"], vec![]),
        ])
    };
    let p = build();
    let first = render(&compile(&p).unwrap());
    let second = render(&compile(&p).unwrap());
    assert_eq!(first, second);
    assert_eq!(first, render(&compile(&build()).unwrap()));
    assert_eq!(first, "((type a) (type b) (allow b a dir (search)))");
}

#[test]
fn wrong_argument_count() {
    let rule = call("allow", vec![var("httpd"), var("httpd_log"), var("file")]);
    let p = Policy::new(vec![
        ty("httpd", &["domain"], vec![rule]),
        ty("httpd_log", &["resource"], vec![]),
    ]);
    let errs = compile(&p).unwrap_err();
    assert_eq!(errs.len(), 1);
    assert!(matches!(
        errs[0],
        HLLError::Compile(HLLCompileError::WrongArgumentCount { expected: 4, actual: 3 })
    ));
}

#[test]
fn unknown_rule_operand_type() {
    let rule = call("allow", vec![var("httpd"), var("nonexistent"), var("file"), list(&["read"])]);
    let p = Policy::new(vec![ty("httpd", &["domain"], vec![rule])]);
    let errs = compile(&p).unwrap_err();
    assert_eq!(errs.len(), 1);
    match &errs[0] {
        HLLError::Compile(HLLCompileError::UnknownType(n)) => assert_eq!(n, "nonexistent"),
        e => panic!("unexpected {:?}", e),
    }
}

#[test]
fn object_class_must_be_an_identifier() {
    let rule = call("allow", vec![var("a"), var("a"), list(&["file"]), list(&["read"])]);
    let p = Policy::new(vec![ty("a", &["domain"], vec![]), rule]);
    let errs = compile(&p).unwrap_err();
    assert!(matches!(errs[0], HLLError::Compile(HLLCompileError::ExpectedIdentifier)));
}

#[test]
fn quoted_operand_is_not_a_type() {
    let rule = call("allow", vec![Argument::Quote(s("a")), var("a"), var("file"), list(&["read"])]);
    let p = Policy::new(vec![ty("a", &["domain"], vec![]), rule]);
    let errs = compile(&p).unwrap_err();
    assert!(matches!(errs[0], HLLError::Compile(HLLCompileError::ExpectedIdentifier)));
}

#[test]
fn permissions_must_be_a_list() {
    let rule = call("allow", vec![var("a"), var("a"), var("file"), var("read")]);
    let p = Policy::new(vec![ty("a", &["domain"], vec![]), rule]);
    let errs = compile(&p).unwrap_err();
    assert!(matches!(errs[0], HLLError::Compile(HLLCompileError::ExpectedPermissionList)));
}

#[test]
fn qualified_and_user_calls_are_skipped() {
    let this_read = Expression::Stmt(Statement::Call(Box::new(FuncCall::new(
        Some(s("this")),
        s("allow"),
        vec![],
    ))));
    let user = call("read_logs", vec![var("x")]);
    let p = Policy::new(vec![ty("a", &["domain"], vec![this_read, user])]);
    assert_eq!(render(&compile(&p).unwrap()), "((type a))");
}

#[test]
fn two_cycle_is_reported_once() {
    let p = Policy::new(vec![ty("A", &["B"], vec![]), ty("B", &["A"], vec![])]);
    let errs = compile(&p).unwrap_err();
    assert_eq!(errs.len(), 1);
    match &errs[0] {
        HLLError::Compile(HLLCompileError::InheritanceCycle(c)) => {
            assert_eq!(c, &names(&["A", "B"]))
        }
        e => panic!("unexpected {:?}", e),
    }
}

#[test]
fn self_cycle_is_reported() {
    let p = Policy::new(vec![ty("A", &["A"], vec![])]);
    let errs = compile(&p).unwrap_err();
    assert_eq!(errs.len(), 1);
    match &errs[0] {
        HLLError::Compile(HLLCompileError::InheritanceCycle(c)) => assert_eq!(c, &names(&["A"])),
        e => panic!("unexpected {:?}", e),
    }
}

#[test]
fn missing_parent_is_reported_once() {
    let p = Policy::new(vec![
        ty("X", &["domain", "ghost"], vec![]),
        ty("Y", &["domain", "X"], vec![]),
        ty("Z", &["Y"], vec![]),
    ]);
    let errs = compile(&p).unwrap_err();
    assert_eq!(errs.len(), 1);
    match &errs[0] {
        HLLError::Compile(HLLCompileError::UndeclaredParent(t, missing)) => {
            assert_eq!(t, "X");
            assert_eq!(missing, "ghost");
        }
        e => panic!("unexpected {:?}", e),
    }
}

#[test]
fn duplicate_type_is_rejected() {
    let p = Policy::new(vec![
        ty("foo", &["domain"], vec![]),
        ty("bar", &["domain"], vec![]),
        ty("foo", &["resource"], vec![]),
        ty("foo", &["domain"], vec![]),
    ]);
    let errs = build_type_map(&p).unwrap_err();
    assert_eq!(errs.len(), 1);
    match &errs[0] {
        HLLError::Compile(HLLCompileError::DuplicateType(n)) => assert_eq!(n, "foo"),
        e => panic!("unexpected {:?}", e),
    }
    assert!(compile(&p).is_err());
}

#[test]
fn empty_policy_compiles_to_empty_list() {
    let p = Policy::new(vec![]);
    assert_eq!(render(&compile(&p).unwrap()), "()");
}

#[test]
fn builtin_recognition() {
    assert!(FuncCall::new(None, s("allow"), vec![]).is_builtin());
    assert!(FuncCall::new(None, s("neverallow"), vec![]).is_builtin());
    assert!(!FuncCall::new(Some(s("this")), s("allow"), vec![]).is_builtin());
    assert!(!FuncCall::new(None, s("read"), vec![]).is_builtin());
}

#[test]
fn marking_virtual() {
    let mut d = Declaration::Type(Box::new(TypeDecl::new(s("t"), names(&["domain"]), vec![])));
    d.set_virtual();
    match d {
        Declaration::Type(t) => {
            assert!(t.is_virtual);
            assert_eq!(t.name, "t");
        }
        Declaration::Func(_) => panic!("variant changed"),
    }
}

#[test]
fn type_declarations_compare_by_name() {
    let a = TypeDecl::new(s("t"), names(&["domain"]), vec![]);
    let b = TypeDecl::new(s("t"), names(&["resource"]), vec![]);
    let c = TypeDecl::new(s("u"), names(&["domain"]), vec![]);
    assert!(a == b);
    assert!(a != c);
}

#[test]
fn catalog_keeps_first_declaration() {
    let mut types = TypeMap::new();
    assert!(types.insert(TypeInfo::new(&TypeDecl::new(s("t"), names(&["domain"]), vec![]))));
    assert!(!types.insert(TypeInfo::new(&TypeDecl::new(s("t"), names(&["resource"]), vec![]))));
    assert_eq!(types.len(), 1);
    assert_eq!(types.get("t").unwrap().inherits, names(&["domain"]));
    assert!(types.get("u").is_none());
}

#[test]
fn graph_errors_of_independent_types_all_surface() {
    let p = Policy::new(vec![
        ty("A", &["B"], vec![]),
        ty("B", &["A"], vec![]),
        ty("X", &["resource", "ghost"], vec![]),
        ty("ok", &["domain"], vec![]),
    ]);
    let errs = compile(&p).unwrap_err();
    assert_eq!(errs.len(), 2);
    assert!(errs.iter().any(|e| matches!(
        e,
        HLLError::Compile(HLLCompileError::InheritanceCycle(c)) if c == &names(&["A", "B"])
    )));
    assert!(errs.iter().any(|e| matches!(
        e,
        HLLError::Compile(HLLCompileError::UndeclaredParent(t, m)) if t == "X" && m == "ghost"
    )));
}

#[test]
fn cycle_reached_from_outside_is_reported_once() {
    let p = Policy::new(vec![
        ty("C", &["domain", "A"], vec![]),
        ty("A", &["B"], vec![]),
        ty("B", &["A"], vec![]),
    ]);
    let errs = compile(&p).unwrap_err();
    assert_eq!(errs.len(), 1);
    match &errs[0] {
        HLLError::Compile(HLLCompileError::InheritanceCycle(c)) => {
            assert_eq!(c, &names(&["A", "B"]))
        }
        e => panic!("unexpected {:?}", e),
    }
}

#[test]
fn duplicate_reports_follow_second_declarations() {
    let p = Policy::new(vec![
        ty("b", &["domain"], vec![]),
        ty("a", &["domain"], vec![]),
        ty("a", &["domain"], vec![]),
        ty("b", &["domain"], vec![]),
    ]);
    let errs = compile(&p).unwrap_err();
    assert_eq!(errs.len(), 2);
    assert!(matches!(&errs[0], HLLError::Compile(HLLCompileError::DuplicateType(n)) if n == "a"));
    assert!(matches!(&errs[1], HLLError::Compile(HLLCompileError::DuplicateType(n)) if n == "b"));
}

#[test]
fn resolvable_types_are_never_blamed() {
    let mut types = TypeMap::new();
    types.insert(TypeInfo::new(&TypeDecl::new(s("ok"), names(&["domain"]), vec![])));
    types.insert(TypeInfo::new(&TypeDecl::new(s("bad"), names(&["resource", "ghost"]), vec![])));
    let errs = organize_type_map(&types).unwrap_err();
    assert_eq!(errs.len(), 1);
    match &errs[0] {
        HLLError::Compile(HLLCompileError::UndeclaredParent(t, m)) => {
            assert_eq!(t, "bad");
            assert_eq!(m, "ghost");
        }
        e => panic!("unexpected {:?}", e),
    }
}

#[test]
fn deeper_missing_parent_is_reported_once() {
    let mut types = TypeMap::new();
    types.insert(TypeInfo::new(&TypeDecl::new(s("T"), names(&["ghost"]), vec![])));
    types.insert(TypeInfo::new(&TypeDecl::new(s("U"), names(&["T"]), vec![])));
    types.insert(TypeInfo::new(&TypeDecl::new(s("V"), names(&["domain", "U"]), vec![])));
    let errs = organize_type_map(&types).unwrap_err();
    assert_eq!(errs.len(), 1);
    assert!(matches!(
        &errs[0],
        HLLError::Compile(HLLCompileError::UndeclaredParent(t, m)) if t == "T" && m == "ghost"
    ));
}
