use kobold_front::ast::Expression;
use kobold_front::loader::{classpath_filtering, load_unit, LoadError};
use kobold_front::{Lexer, ModuleManager, Parser};

#[test]
fn end_to_end_unit_registers_under_app() {
    let src = "module App\nstruct Counter { value : Int }\nmain { }\n";

    // The unit parses into exactly the three declarations.
    let mut lx = Lexer::new("app.kbld", src);
    let ts = lx.process().expect("lexes");
    let mut p = Parser::new("app.kbld", ts);
    p.setup_defaults();
    let decls = p.parse_top().expect("parses");
    assert_eq!(decls.len(), 3);
    assert_eq!(decls[0], Expression::ModuleDeclaration("App".to_string()));
    assert_eq!(
        decls[1],
        Expression::StructDeclaration {
            name: "Counter".to_string(),
            members: vec![("value".to_string(), "Int".to_string())],
        }
    );
    assert!(matches!(decls[2], Expression::MainDeclaration { .. }));

    // Loading the unit registers a module named "App" holding the struct
    // and main declarations, the module declaration itself excluded.
    let mut mm = ModuleManager::new();
    let name = load_unit("app.kbld", src, &mut mm).expect("loads");
    assert_eq!(name, "App");
    assert!(mm.contains_module("App"));
}

#[test]
fn unit_must_open_with_module_declaration() {
    let mut mm = ModuleManager::new();
    let err = load_unit("x.kbld", "struct S { }\n", &mut mm).err().expect("fails");
    assert!(matches!(err, LoadError::NoModuleDeclaration));
}

#[test]
fn empty_unit_has_no_module_declaration() {
    let mut mm = ModuleManager::new();
    let err = load_unit("x.kbld", "", &mut mm).err().expect("fails");
    assert!(matches!(err, LoadError::NoModuleDeclaration));
}

#[test]
fn second_module_declaration_is_fatal() {
    let mut mm = ModuleManager::new();
    let err = load_unit("x.kbld", "module A\nmodule B\n", &mut mm).err().expect("fails");
    match err {
        LoadError::DuplicateModuleDeclaration(name) => assert_eq!(name, "B"),
        other => panic!("expected a duplicate module declaration, got {:?}", other),
    }
}

#[test]
fn reloading_the_same_module_path_collides() {
    let mut mm = ModuleManager::new();
    load_unit("x.kbld", "module A\n", &mut mm).expect("first load");
    let err = load_unit("y.kbld", "module A\n", &mut mm).err().expect("fails");
    match err {
        LoadError::Registry(e) => assert_eq!(e.name, "A"),
        other => panic!("expected a registry collision, got {:?}", other),
    }
}

#[test]
fn lex_error_surfaces_through_loading() {
    let mut mm = ModuleManager::new();
    let err = load_unit("x.kbld", "module A\n@\n", &mut mm).err().expect("fails");
    assert!(matches!(err, LoadError::Lex(_)));
}

#[test]
fn parse_error_surfaces_through_loading() {
    let mut mm = ModuleManager::new();
    let err = load_unit("x.kbld", "module a\n", &mut mm).err().expect("fails");
    assert!(matches!(err, LoadError::Parse(_)));
}

#[test]
fn classpath_filtering_excludes_by_component_prefix() {
    let excludes = vec![
        vec!["src".to_string(), "gen".to_string()],
        vec!["vendor".to_string()],
    ];
    let under_gen = vec!["src".to_string(), "gen".to_string(), "a.kbld".to_string()];
    let under_src = vec!["src".to_string(), "main.kbld".to_string()];
    let vendored = vec!["vendor".to_string(), "x.kbld".to_string()];
    // A component must match whole: "srcx" is not under "src".
    let srcx = vec!["srcx".to_string(), "main.kbld".to_string()];
    assert!(!classpath_filtering(&excludes, &under_gen));
    assert!(classpath_filtering(&excludes, &under_src));
    assert!(!classpath_filtering(&excludes, &vendored));
    assert!(classpath_filtering(&excludes, &srcx));
    assert!(classpath_filtering(&vec![], &under_gen));
}
