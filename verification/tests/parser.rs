use kobold_front::ast::{Expression, MessageArgs};
use kobold_front::parser::ParseErrorKind;
use kobold_front::token::TokenType;
use kobold_front::{Lexer, Parser};

fn parser_for(src: &str) -> Parser {
    let mut lx = Lexer::new("test.kbld", src);
    let ts = lx.process().expect("source should lex");
    let mut p = Parser::new("test.kbld", ts);
    p.setup_defaults();
    p
}

#[test]
fn multiplication_binds_tighter_than_addition() {
    let mut p = parser_for("1 + 2 * 3");
    let e = p.parse_expression(0).expect("no error").expect("an expression");
    match e {
        Expression::BinaryExpression(_, op, l, r) => {
            assert_eq!(op, TokenType::Plus);
            assert_eq!(*l, Expression::IntegerExpression("1".to_string()));
            match *r {
                Expression::BinaryExpression(_, op2, l2, r2) => {
                    assert_eq!(op2, TokenType::Asterisk);
                    assert_eq!(*l2, Expression::IntegerExpression("2".to_string()));
                    assert_eq!(*r2, Expression::IntegerExpression("3".to_string()));
                },
                other => panic!("expected multiplication on the right, got {:?}", other),
            }
        },
        other => panic!("expected addition at the root, got {:?}", other),
    }
}

#[test]
fn addition_is_left_associative() {
    let mut p = parser_for("1 - 2 + 3");
    let e = p.parse_expression(0).expect("no error").expect("an expression");
    match e {
        Expression::BinaryExpression(_, op, l, _r) => {
            assert_eq!(op, TokenType::Plus);
            match *l {
                Expression::BinaryExpression(_, op2, _, _) => {
                    assert_eq!(op2, TokenType::Minus);
                },
                other => panic!("expected subtraction on the left, got {:?}", other),
            }
        },
        other => panic!("expected addition at the root, got {:?}", other),
    }
}

#[test]
fn signed_prefix_expression() {
    let mut p = parser_for("-5");
    let e = p.parse_expression(0).expect("no error").expect("an expression");
    match e {
        Expression::PrefixExpression(_, op, operand) => {
            assert_eq!(op, TokenType::Minus);
            assert_eq!(*operand, Expression::IntegerExpression("5".to_string()));
        },
        other => panic!("expected a prefix expression, got {:?}", other),
    }
}

#[test]
fn module_declaration_dotted_name() {
    let mut p = parser_for("module Foo.Bar");
    let decls = p.parse_top().expect("parses");
    assert_eq!(decls, vec![Expression::ModuleDeclaration("Foo.Bar".to_string())]);
}

#[test]
fn struct_declaration_with_members() {
    let mut p = parser_for("struct Counter { value : Int, step : Int }");
    let decls = p.parse_top().expect("parses");
    assert_eq!(
        decls,
        vec![Expression::StructDeclaration {
            name: "Counter".to_string(),
            members: vec![
                ("value".to_string(), "Int".to_string()),
                ("step".to_string(), "Int".to_string()),
            ],
        }]
    );
}

#[test]
fn duplicate_struct_member_is_fatal() {
    let mut p = parser_for("struct S { x : Int, x : Int }");
    let err = p.parse_top().err().expect("should fail");
    assert_eq!(err.kind, ParseErrorKind::DuplicateName("x".to_string()));
}

#[test]
fn message_argument_bare_name_is_unary() {
    let mut p = parser_for("message Counter [incr] { }");
    let decls = p.parse_top().expect("parses");
    match &decls[0] {
        Expression::MessageDeclaration { bound_struct, args_or_name, ret_value, .. } => {
            assert_eq!(bound_struct, "Counter");
            assert_eq!(*args_or_name, MessageArgs::Unary("incr".to_string()));
            assert_eq!(*ret_value, None);
        },
        other => panic!("expected a message declaration, got {:?}", other),
    }
}

#[test]
fn message_argument_with_colon_is_named() {
    let mut p = parser_for("message Counter [by : Int, and : Int] -> Int { }");
    let decls = p.parse_top().expect("parses");
    match &decls[0] {
        Expression::MessageDeclaration { args_or_name, ret_value, .. } => {
            assert_eq!(
                *args_or_name,
                MessageArgs::Named(vec![
                    ("by".to_string(), "Int".to_string()),
                    ("and".to_string(), "Int".to_string()),
                ])
            );
            assert_eq!(*ret_value, Some("Int".to_string()));
        },
        other => panic!("expected a message declaration, got {:?}", other),
    }
}

#[test]
fn call_declaration_keyword_is_contextual() {
    let mut p = parser_for("call Counter [reset] { }");
    let decls = p.parse_top().expect("parses");
    match &decls[0] {
        Expression::CallDeclaration { bound_struct, args_or_name, .. } => {
            assert_eq!(bound_struct, "Counter");
            assert_eq!(*args_or_name, MessageArgs::Unary("reset".to_string()));
        },
        other => panic!("expected a call declaration, got {:?}", other),
    }
}

#[test]
fn main_block_with_statements() {
    let mut p = parser_for("main { let x : Int = 1 + 2 [emit value: x] Point { x : 3 } }");
    let decls = p.parse_top().expect("parses");
    match &decls[0] {
        Expression::MainDeclaration { body, .. } => {
            assert_eq!(body.len(), 3);
            assert!(matches!(body[0], Expression::LetStatement { .. }));
            assert!(matches!(body[1], Expression::Message { .. }));
            assert!(matches!(body[2], Expression::NewObject { .. }));
        },
        other => panic!("expected a main declaration, got {:?}", other),
    }
}

#[test]
fn message_send_arguments() {
    let mut p = parser_for("[counter amount: 2, note: \"x\"]");
    let e = p.parse_message_call(true).expect("parses");
    match e {
        Expression::Message { target, args } => {
            assert_eq!(target, "counter");
            assert_eq!(args.len(), 2);
            assert_eq!(args[0].0, "amount");
            assert_eq!(args[1].0, "note");
        },
        other => panic!("expected a message send, got {:?}", other),
    }
}

#[test]
fn duplicate_send_tag_is_fatal() {
    let mut p = parser_for("[obj a: 1, a: 2]");
    let err = p.parse_message_call(true).err().expect("should fail");
    assert_eq!(err.kind, ParseErrorKind::DuplicateName("a".to_string()));
}

#[test]
fn declaration_inside_block_is_fatal() {
    let mut p = parser_for("main { struct }");
    let err = p.parse_top().err().expect("should fail");
    assert_eq!(err.kind, ParseErrorKind::DeclarationInBlock);
}

#[test]
fn unknown_top_level_token_is_fatal() {
    let mut p = parser_for("42");
    let err = p.parse_top().err().expect("should fail");
    assert_eq!(err.kind, ParseErrorKind::CouldNotParse("42".to_string()));
}

#[test]
fn lowercase_module_name_is_type_mismatch() {
    let mut p = parser_for("module foo");
    let err = p.parse_top().err().expect("should fail");
    assert_eq!(
        err.kind,
        ParseErrorKind::TypeMismatch {
            expected: TokenType::StructIdentifier,
            found: TokenType::Identifier,
        }
    );
    assert_eq!(err.file, "test.kbld");
}

#[test]
fn missing_expression_after_equal_is_fatal() {
    let mut p = parser_for("main { let x = }");
    let err = p.parse_top().err().expect("should fail");
    assert_eq!(err.kind, ParseErrorKind::ExpressionExpected);
}

#[test]
fn parse_expression_none_when_no_prefix_handler() {
    let mut p = parser_for("}");
    let r = p.parse_expression(0).expect("no error");
    assert!(r.is_none());
}

#[test]
fn string_literal_expression() {
    let mut p = parser_for("\"hello\"");
    let e = p.parse_expression(0).expect("no error").expect("an expression");
    assert_eq!(e, Expression::StringLiteral(1, "hello".to_string()));
}

#[test]
fn expression_stops_at_the_precedence_floor() {
    // At a floor equal to the additive precedence, the climb folds nothing.
    let mut p = parser_for("1 + 2");
    let e = p.parse_expression(10).expect("no error").expect("an expression");
    assert_eq!(e, Expression::IntegerExpression("1".to_string()));
}
