//! The abstract syntax tree: one tagged node type for every expression and
//! top-level declaration, with name-keyed member lists whose keys are unique.

use vstd::prelude::*;
use crate::token::TokenType;

verus! {

/// Argument list of a message or call declaration: either named arguments,
/// each with a declared type name, or one bare selector name.  The two forms
/// are mutually exclusive.
#[derive(Debug, PartialEq)]
pub enum MessageArgs {
    Named(Vec<(String, String)>),
    Unary(String),
}

/// A syntax tree node.  Nodes that originate from source carry their
/// 1-based line number; a few legacy node kinds do not.
#[allow(inconsistent_fields)]
#[derive(Debug, PartialEq)]
pub enum Expression {
    /// Integer literal text, unvalidated; numeric parsing is deferred.
    IntegerExpression(String),
    /// Float literal text, unvalidated.
    FloatExpression(String),
    PrefixExpression(i32, TokenType, Box<Expression>),
    /// Identifier use.
    Reference(i32, String),
    /// String literal, stored verbatim between the quotes.
    StringLiteral(i32, String),
    BinaryExpression(i32, TokenType, Box<Expression>, Box<Expression>),
    /// Must be the first declaration of a source unit.
    ModuleDeclaration(String),
    StructDeclaration { name: String, members: Vec<(String, String)> },
    MessageDeclaration {
        line: i32,
        bound_struct: String,
        args_or_name: MessageArgs,
        body: Vec<Expression>,
        ret_value: Option<String>,
    },
    CallDeclaration {
        line: i32,
        bound_struct: String,
        args_or_name: MessageArgs,
        body: Vec<Expression>,
        ret_value: Option<String>,
    },
    MainDeclaration { line: i32, body: Vec<Expression> },
    LetStatement { bound_name: String, ntype: Option<String>, expression: Box<Expression> },
    NewObject { struct_type: String, members: Vec<(String, Expression)> },
    Message { target: String, args: Vec<(String, Expression)> },
}

/// The names in a name-keyed list are pairwise distinct.
pub open spec fn distinct_keys<T>(m: Seq<(String, T)>) -> bool {
    forall|i: int, j: int| 0 <= i < j < m.len() ==> (#[trigger] m[i]).0@ != (#[trigger] m[j]).0@
}

/// Some entry of the name-keyed list has this key.
pub open spec fn has_key<T>(m: Seq<(String, T)>, k: Seq<char>) -> bool {
    exists|i: int| 0 <= i < m.len() && (#[trigger] m[i]).0@ == k
}

/// Appending a fresh key keeps the keys distinct.
pub proof fn lemma_distinct_push<T>(m: Seq<(String, T)>, n: String, v: T)
    requires
        distinct_keys(m),
        !has_key(m, n@),
    ensures
        distinct_keys(m.push((n, v))),
{
    let m2 = m.push((n, v));
    assert forall|i: int, j: int| 0 <= i < j < m2.len() implies (#[trigger] m2[i]).0@ != (
    #[trigger] m2[j]).0@ by {
        if j < m.len() {
            assert(m2[i] == m[i] && m2[j] == m[j]);
        } else {
            assert(m2[i] == m[i]);
            assert(m2[j] == (n, v));
            assert(!(m[i].0@ == n@));
        }
    }
}

/// The node kinds allowed at the top level of a source unit.
pub open spec fn is_top_decl(e: Expression) -> bool {
    ||| e is ModuleDeclaration
    ||| e is StructDeclaration
    ||| e is MessageDeclaration
    ||| e is CallDeclaration
    ||| e is MainDeclaration
}

/// The node kinds a block consists of.
pub open spec fn is_block_item(e: Expression) -> bool {
    ||| e is LetStatement
    ||| e is Message
    ||| e is NewObject
}


/// Mathematical model of an argument list.
pub enum ArgsModel {
    NamedM(Seq<(Seq<char>, Seq<char>)>),
    UnaryM(Seq<char>),
}

/// Mathematical model of a syntax tree node: the same shape as
/// `Expression`, over character sequences.
pub enum ExprModel {
    IntegerM(Seq<char>),
    FloatM(Seq<char>),
    PrefixM(int, TokenType, Box<ExprModel>),
    ReferenceM(int, Seq<char>),
    StringLiteralM(int, Seq<char>),
    BinaryM(int, TokenType, Box<ExprModel>, Box<ExprModel>),
    ModuleM(Seq<char>),
    StructM(Seq<char>, Seq<(Seq<char>, Seq<char>)>),
    MessageDeclM(int, Seq<char>, ArgsModel, Seq<ExprModel>, Option<Seq<char>>),
    CallDeclM(int, Seq<char>, ArgsModel, Seq<ExprModel>, Option<Seq<char>>),
    MainM(int, Seq<ExprModel>),
    LetM(Seq<char>, Option<Seq<char>>, Box<ExprModel>),
    NewObjectM(Seq<char>, Seq<(Seq<char>, ExprModel)>),
    MessageM(Seq<char>, Seq<(Seq<char>, ExprModel)>),
}

/// A name-to-type-name list holds exactly these pairs, in order.
pub open spec fn kv_text_match(v: Seq<(String, String)>, m: Seq<(Seq<char>, Seq<char>)>) -> bool {
    v.len() == m.len() && forall|i: int|
        0 <= i < v.len() ==> (#[trigger] v[i]).0@ == m[i].0 && v[i].1@ == m[i].1
}

pub open spec fn opt_text_match(o: Option<String>, m: Option<Seq<char>>) -> bool {
    match o {
        Some(s) => m matches Some(t) && s@ == t,
        None => m is None,
    }
}

pub open spec fn args_match(a: MessageArgs, m: ArgsModel) -> bool {
    match a {
        MessageArgs::Named(v) => m matches ArgsModel::NamedM(mm) && kv_text_match(v@, mm),
        MessageArgs::Unary(s) => m matches ArgsModel::UnaryM(t) && s@ == t,
    }
}

/// The node equals the model: same shape, same lines and operator tags, and
/// every text field holds the model's characters.
pub open spec fn expr_matches(e: Expression, m: ExprModel) -> bool
    decreases e,
{
    match e {
        Expression::IntegerExpression(s) => m matches ExprModel::IntegerM(t) && s@ == t,
        Expression::FloatExpression(s) => m matches ExprModel::FloatM(t) && s@ == t,
        Expression::PrefixExpression(ln, op, inner) => m matches ExprModel::PrefixM(lm, om, im)
            && ln as int == lm && op == om && expr_matches(*inner, *im),
        Expression::Reference(ln, s) => m matches ExprModel::ReferenceM(lm, t) && ln as int == lm
            && s@ == t,
        Expression::StringLiteral(ln, s) => m matches ExprModel::StringLiteralM(lm, t) && ln as int
            == lm && s@ == t,
        Expression::BinaryExpression(ln, op, l, r) => m matches ExprModel::BinaryM(lm, om, a, b)
            && ln as int == lm && op == om && expr_matches(*l, *a) && expr_matches(*r, *b),
        Expression::ModuleDeclaration(s) => m matches ExprModel::ModuleM(t) && s@ == t,
        Expression::StructDeclaration { name, members } => m matches ExprModel::StructM(nm, mm)
            && name@ == nm && kv_text_match(members@, mm),
        Expression::MessageDeclaration { line, bound_struct, args_or_name, body, ret_value } => m
            matches ExprModel::MessageDeclM(lm, bs, am, bm, rm) && line as int == lm
            && bound_struct@ == bs && args_match(args_or_name, am) && exprs_match(body@, bm)
            && opt_text_match(ret_value, rm),
        Expression::CallDeclaration { line, bound_struct, args_or_name, body, ret_value } => m
            matches ExprModel::CallDeclM(lm, bs, am, bm, rm) && line as int == lm && bound_struct@
            == bs && args_match(args_or_name, am) && exprs_match(body@, bm) && opt_text_match(
            ret_value,
            rm,
        ),
        Expression::MainDeclaration { line, body } => m matches ExprModel::MainM(lm, bm)
            && line as int == lm && exprs_match(body@, bm),
        Expression::LetStatement { bound_name, ntype, expression } => m matches ExprModel::LetM(
            nm,
            tm,
            em,
        ) && bound_name@ == nm && opt_text_match(ntype, tm) && expr_matches(*expression, *em),
        Expression::NewObject { struct_type, members } => m matches ExprModel::NewObjectM(st, mm)
            && struct_type@ == st && kv_expr_match(members@, mm),
        Expression::Message { target, args } => m matches ExprModel::MessageM(tg, am) && target@
            == tg && kv_expr_match(args@, am),
    }
}

/// The node lists hold matching nodes, in order.
pub open spec fn exprs_match(v: Seq<Expression>, m: Seq<ExprModel>) -> bool
    decreases v,
{
    v.len() == m.len() && forall|i: int|
        0 <= i < v.len() ==> expr_matches(#[trigger] v[i], m[i])
}

/// A name-to-expression list holds these pairs, with matching nodes.
pub open spec fn kv_expr_match(v: Seq<(String, Expression)>, m: Seq<(Seq<char>, ExprModel)>) -> bool
    decreases v,
{
    v.len() == m.len() && forall|i: int|
        0 <= i < v.len() ==> (#[trigger] v[i]).0@ == m[i].0 && expr_matches(v[i].1, m[i].1)
}

/// A name occurs among a model list's keys.
pub open spec fn has_model_key<T>(m: Seq<(Seq<char>, T)>, k: Seq<char>) -> bool {
    exists|i: int| 0 <= i < m.len() && (#[trigger] m[i]).0 == k
}

} // verus!
