//! The operator handlers ("parslets") the expression parser dispatches
//! through: one handler per registered token type, each contributing its
//! piece of the expression grammar.

use vstd::prelude::*;
use crate::ast::Expression;
use crate::ast::{ExprModel, expr_matches};
use crate::token::{Token, TokenType, models_of};
use crate::parser::{Parser, ParseError, ParseErrorKind};
use crate::parser::{ExprOutcome, spec_expression, spec_prefix, spec_message_call};

verus! {

/// Precedence of the signed prefix operators.
pub const SIGN: i32 = 100;

/// Precedence of binary `+` and `-`.
pub const ADDSUB: i32 = 10;

/// Precedence of binary `*` and `/`; strictly tighter than `+` and `-`.
pub const MULDIV: i32 = 20;

/// Turns an integer literal token into its expression.
#[derive(Copy, Clone, Debug)]
pub struct IntegerParslet {}

impl IntegerParslet {
    pub fn new() -> (p: IntegerParslet) {
        IntegerParslet {  }
    }
}

/// Turns a float literal token into its expression.
#[derive(Copy, Clone, Debug)]
pub struct FloatParslet {}

impl FloatParslet {
    pub fn new() -> (p: FloatParslet) {
        FloatParslet {  }
    }
}

/// Turns an identifier token into a reference expression.
#[derive(Copy, Clone, Debug)]
pub struct ReferenceParslet {}

impl ReferenceParslet {
    pub fn new() -> (p: ReferenceParslet) {
        ReferenceParslet {  }
    }
}

/// Turns a string literal token into its expression.
#[derive(Copy, Clone, Debug)]
pub struct StringParslet {}

impl StringParslet {
    pub fn new() -> (p: StringParslet) {
        StringParslet {  }
    }
}

/// Parses a bracket-led message or call send.
#[derive(Copy, Clone, Debug)]
pub struct CallParslet {}

impl CallParslet {
    pub fn new() -> (p: CallParslet) {
        CallParslet {  }
    }
}

/// A signed prefix operator at a fixed precedence.
#[derive(Copy, Clone, Debug)]
pub struct PrefixOpParslet {
    pub precedence: i32,
}

impl PrefixOpParslet {
    pub fn new(p: i32) -> (r: PrefixOpParslet)
        requires
            p >= 0,
        ensures
            r.precedence == p,
    {
        PrefixOpParslet { precedence: p }
    }
}

/// A binary operator: its binding precedence, and whether it associates to
/// the left (a right-associative operator parses its right-hand side one
/// level looser).
#[derive(Copy, Clone, Debug)]
pub struct BinaryParslet {
    pub precedence: i32,
    pub left_rec: bool,
}

impl BinaryParslet {
    pub fn new(p: i32, lr: bool) -> (r: BinaryParslet)
        requires
            p >= 1,
        ensures
            r.precedence == p,
            r.left_rec == lr,
    {
        BinaryParslet { precedence: p, left_rec: lr }
    }
}

/// A registered prefix handler: given the consumed leading token, produce
/// an expression.
#[derive(Copy, Clone, Debug)]
pub enum PrefixParslet {
    Op(PrefixOpParslet),
    Integer(IntegerParslet),
    Float(FloatParslet),
    Reference(ReferenceParslet),
    CString(StringParslet),
    Call(CallParslet),
}

impl PrefixParslet {
    /// A prefix operator's precedence cannot be negative.
    pub open spec fn wf(self) -> bool {
        match self {
            PrefixParslet::Op(o) => o.precedence >= 0,
            _ => true,
        }
    }
}

/// A registered infix handler: combine the expression parsed so far with
/// the consumed operator token and what follows.
#[derive(Copy, Clone, Debug)]
pub enum InfixParslet {
    Binary(BinaryParslet),
}

impl InfixParslet {
    /// An infix handler's precedence is strictly positive.
    pub open spec fn wf(self) -> bool {
        match self {
            InfixParslet::Binary(b) => b.precedence >= 1,
        }
    }

    pub open spec fn spec_precedence(self) -> int {
        match self {
            InfixParslet::Binary(b) => b.precedence as int,
        }
    }

    /// The floor this handler parses its right-hand side at: its own
    /// precedence when left-associative, one less when right-associative.
    pub open spec fn rhs_floor(self) -> int {
        match self {
            InfixParslet::Binary(b) => if b.left_rec {
                b.precedence as int
            } else {
                b.precedence - 1
            },
        }
    }

    pub fn get_precedence(self) -> (p: i32)
        ensures
            p as int == self.spec_precedence(),
    {
        match self {
            InfixParslet::Binary(b) => b.precedence,
        }
    }
}

/// What each prefix handler's successful result looks like.
pub open spec fn prefix_result(p: PrefixParslet, t: crate::token::TokenModel, e: Expression) -> bool {
    match p {
        PrefixParslet::Integer(_) => e matches Expression::IntegerExpression(s) && s@ == t.text,
        PrefixParslet::Float(_) => e matches Expression::FloatExpression(s) && s@ == t.text,
        PrefixParslet::Reference(_) => e matches Expression::Reference(ln, s) && ln as int == t.line
            && s@ == t.text,
        PrefixParslet::CString(_) => e matches Expression::StringLiteral(ln, s) && ln as int
            == t.line && s@ == t.text,
        PrefixParslet::Op(_) => e matches Expression::PrefixExpression(ln, op, _operand) && ln as int
            == t.line && op == t.tipe,
        PrefixParslet::Call(_) => e matches Expression::Message { target: _, args }
            && crate::ast::distinct_keys(args@),
    }
}

impl IntegerParslet {
    pub fn parse(self, parser: &mut Parser, token: Token) -> (e: Expression)
        ensures
            *final(parser) == *old(parser),
            e matches Expression::IntegerExpression(s) && s@ == token@.text,
    {
        let _ = parser;
        Expression::IntegerExpression(token.get_string())
    }
}

impl FloatParslet {
    pub fn parse(self, parser: &mut Parser, token: Token) -> (e: Expression)
        ensures
            *final(parser) == *old(parser),
            e matches Expression::FloatExpression(s) && s@ == token@.text,
    {
        let _ = parser;
        Expression::FloatExpression(token.get_string())
    }
}

impl ReferenceParslet {
    pub fn parse(self, parser: &mut Parser, token: Token) -> (e: Expression)
        ensures
            *final(parser) == *old(parser),
            e matches Expression::Reference(ln, s) && ln as int == token@.line && s@
                == token@.text,
    {
        let _ = parser;
        Expression::Reference(token.get_line(), token.get_string())
    }
}

impl StringParslet {
    pub fn parse(self, parser: &mut Parser, token: Token) -> (e: Expression)
        ensures
            *final(parser) == *old(parser),
            e matches Expression::StringLiteral(ln, s) && ln as int == token@.line && s@
                == token@.text,
    {
        let _ = parser;
        Expression::StringLiteral(token.get_line(), token.get_string())
    }
}

impl PrefixOpParslet {
    /// Parses the operand — exactly `spec_expression` at this operator's
    /// precedence — and wraps it.
    pub fn parse(self, parser: &mut Parser, token: Token) -> (r: Result<Expression, ParseError>)
        requires
            old(parser).wf(),
            self.precedence >= 0,
        ensures
            final(parser).wf(),
            Parser::same_env(*old(parser), *final(parser)),
            final(parser).tokens().len() <= old(parser).tokens().len(),
            r matches Ok(e) ==> (e matches Expression::PrefixExpression(ln, op, _operand)
                && ln as int == token@.line && op == token@.tipe),
            match spec_expression(
                old(parser).prefix_tab(),
                old(parser).infix_tab(),
                models_of(old(parser).tokens()),
                self.precedence as int,
            ) {
                ExprOutcome::Parsed(m, rem) => r matches Ok(e) && expr_matches(
                    e,
                    ExprModel::PrefixM(token@.line, token@.tipe, Box::new(m)),
                ) && models_of(final(parser).tokens()) == rem,
                _ => r is Err,
            },
        decreases old(parser).tokens().len(), 2int,
    {
        let lres = parser.parse_expression(self.precedence);
        match lres {
            Ok(Some(x)) => Ok(
                Expression::PrefixExpression(token.get_line(), token.get_type(), Box::new(x)),
            ),
            Ok(None) => Err(
                parser.error(token.get_line(), ParseErrorKind::ExpressionExpected),
            ),
            Err(e) => Err(e),
        }
    }
}

impl BinaryParslet {
    /// Parses the right-hand side — exactly `spec_expression`, one level
    /// looser when this operator is right-associative — and combines both
    /// sides under the operator token.
    pub fn parse(self, parser: &mut Parser, left: Expression, token: Token) -> (r: Result<
        Expression,
        ParseError,
    >)
        requires
            old(parser).wf(),
            self.precedence >= 1,
        ensures
            final(parser).wf(),
            Parser::same_env(*old(parser), *final(parser)),
            final(parser).tokens().len() <= old(parser).tokens().len(),
            r matches Ok(e) ==> (e matches Expression::BinaryExpression(ln, op, _l, _r2)
                && ln as int == token@.line && op == token@.tipe),
            match spec_expression(
                old(parser).prefix_tab(),
                old(parser).infix_tab(),
                models_of(old(parser).tokens()),
                InfixParslet::Binary(self).rhs_floor(),
            ) {
                ExprOutcome::Parsed(mr, rem) => r matches Ok(e) && models_of(
                    final(parser).tokens(),
                ) == rem && (forall|lm: ExprModel|
                    #[trigger] expr_matches(left, lm) ==> expr_matches(
                        e,
                        ExprModel::BinaryM(token@.line, token@.tipe, Box::new(lm), Box::new(mr)),
                    )),
                _ => r is Err,
            },
        decreases old(parser).tokens().len(), 2int,
    {
        let prec: i32 = if self.left_rec {
            self.precedence
        } else {
            self.precedence - 1
        };
        let lres = parser.parse_expression(prec);
        match lres {
            Ok(Some(x)) => {
                let e = Expression::BinaryExpression(
                    token.get_line(),
                    token.get_type(),
                    Box::new(left),
                    Box::new(x),
                );
                Ok(e)
            },
            Ok(None) => Err(
                parser.error(token.get_line(), ParseErrorKind::ExpressionExpected),
            ),
            Err(e) => Err(e),
        }
    }
}

impl CallParslet {
    /// The leading `[` is already consumed; parses the send itself, exactly
    /// `spec_message_call` of the remaining tokens.
    pub fn parse(self, parser: &mut Parser, _token: Token) -> (r: Result<Expression, ParseError>)
        requires
            old(parser).wf(),
        ensures
            final(parser).wf(),
            Parser::same_env(*old(parser), *final(parser)),
            final(parser).tokens().len() <= old(parser).tokens().len(),
            r matches Ok(e) ==> (e matches Expression::Message { target: _, args }
                && crate::ast::distinct_keys(args@)),
            match spec_message_call(
                old(parser).prefix_tab(),
                old(parser).infix_tab(),
                models_of(old(parser).tokens()),
                false,
            ) {
                Some((m, rem)) => r matches Ok(e) && expr_matches(e, m) && models_of(
                    final(parser).tokens(),
                ) == rem,
                None => r is Err,
            },
        decreases old(parser).tokens().len(), 2int,
    {
        parser.parse_message_call(false)
    }
}

impl PrefixParslet {
    /// Dispatches to the registered handler; the result is exactly
    /// `spec_prefix` of the consumed token and the remaining stream.
    pub fn parse(self, parser: &mut Parser, token: Token) -> (r: Result<Expression, ParseError>)
        requires
            old(parser).wf(),
            self.wf(),
        ensures
            final(parser).wf(),
            Parser::same_env(*old(parser), *final(parser)),
            final(parser).tokens().len() <= old(parser).tokens().len(),
            r matches Ok(e) ==> prefix_result(self, token@, e),
            match spec_prefix(
                old(parser).prefix_tab(),
                old(parser).infix_tab(),
                self,
                token@,
                models_of(old(parser).tokens()),
            ) {
                Some((m, rem)) => r matches Ok(e) && expr_matches(e, m) && models_of(
                    final(parser).tokens(),
                ) == rem,
                None => r is Err,
            },
        decreases old(parser).tokens().len(), 3int,
    {
        match self {
            PrefixParslet::Op(p) => p.parse(parser, token),
            PrefixParslet::Integer(p) => Ok(p.parse(parser, token)),
            PrefixParslet::Float(p) => Ok(p.parse(parser, token)),
            PrefixParslet::Reference(p) => Ok(p.parse(parser, token)),
            PrefixParslet::CString(p) => Ok(p.parse(parser, token)),
            PrefixParslet::Call(p) => p.parse(parser, token),
        }
    }
}

impl InfixParslet {
    /// Dispatches to the registered handler; the right-hand side is exactly
    /// `spec_expression` at this handler's floor, and the result combines
    /// it with `left` under the operator token.
    pub fn parse(self, parser: &mut Parser, left: Expression, token: Token) -> (r: Result<
        Expression,
        ParseError,
    >)
        requires
            old(parser).wf(),
            self.wf(),
        ensures
            final(parser).wf(),
            Parser::same_env(*old(parser), *final(parser)),
            final(parser).tokens().len() <= old(parser).tokens().len(),
            r matches Ok(e) ==> (e matches Expression::BinaryExpression(ln, op, _l, _r2)
                && ln as int == token@.line && op == token@.tipe),
            match spec_expression(
                old(parser).prefix_tab(),
                old(parser).infix_tab(),
                models_of(old(parser).tokens()),
                self.rhs_floor(),
            ) {
                ExprOutcome::Parsed(mr, rem) => r matches Ok(e) && models_of(
                    final(parser).tokens(),
                ) == rem && (forall|lm: ExprModel|
                    #[trigger] expr_matches(left, lm) ==> expr_matches(
                        e,
                        ExprModel::BinaryM(token@.line, token@.tipe, Box::new(lm), Box::new(mr)),
                    )),
                _ => r is Err,
            },
        decreases old(parser).tokens().len(), 3int,
    {
        match self {
            InfixParslet::Binary(p) => p.parse(parser, left, token),
        }
    }
}

} // verus!
