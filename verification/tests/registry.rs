use kobold_front::token::TokenType;
use kobold_front::token::{Token, TokenStream};
use kobold_front::{Module, ModuleManager};

#[test]
fn registry_two_leaves_are_independent() {
    let mut mm = ModuleManager::new();
    mm.add_module("A.B", Module::new("A.B", vec![])).expect("first insert");
    mm.add_module("A.C", Module::new("A.C", vec![])).expect("second insert");
    assert!(mm.contains_module("A.B"));
    assert!(mm.contains_module("A.C"));
    assert!(!mm.contains_module("A"));
    assert!(!mm.contains_module("A.D"));
}

#[test]
fn registry_same_path_twice_is_a_collision() {
    let mut mm = ModuleManager::new();
    mm.add_module("A.B", Module::new("A.B", vec![])).expect("first insert");
    let err = mm.add_module("A.B", Module::new("A.B", vec![])).err().expect("collision");
    assert_eq!(err.name, "A.B");
    assert!(mm.contains_module("A.B"));
}

#[test]
fn registry_prefix_and_extension_coexist() {
    let mut mm = ModuleManager::new();
    mm.add_module("A", Module::new("A", vec![])).expect("prefix");
    mm.add_module("A.B", Module::new("A.B", vec![])).expect("extension");
    assert!(mm.contains_module("A"));
    assert!(mm.contains_module("A.B"));
}

#[test]
fn module_names() {
    let m = Module::new("App.Sub.Leaf", vec![]);
    assert_eq!(m.get_full_name(), "App.Sub.Leaf");
    assert_eq!(m.get_local_name(), "Leaf");
    let single = Module::new("App", vec![]);
    assert_eq!(single.get_local_name(), "App");
}

#[test]
fn token_basics() {
    let t = Token::new(TokenType::Identifier, "abc").with_line(7);
    assert_eq!(t.get_type(), TokenType::Identifier);
    assert_eq!(t.get_string(), "abc");
    assert_eq!(t.get_line(), 7);
}

#[test]
fn token_stream_read_drains_from_front() {
    let mut ts = TokenStream::new();
    ts.add(Token::new(TokenType::Integer, "1"));
    ts.add(Token::new(TokenType::Integer, "2"));
    ts.add(Token::new(TokenType::Integer, "3"));
    assert_eq!(ts.len(), 3);
    let first_two = ts.read(2);
    assert_eq!(first_two.len(), 2);
    assert_eq!(first_two[0].get_string(), "1");
    assert_eq!(first_two[1].get_string(), "2");
    assert_eq!(ts.len(), 1);
    let rest = ts.read(5);
    assert_eq!(rest.len(), 1);
    assert_eq!(rest[0].get_string(), "3");
    assert_eq!(ts.len(), 0);
}
