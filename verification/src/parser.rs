//! The precedence-climbing expression parser and the top-level declaration
//! parser, with registries of prefix and infix operator handlers keyed by
//! token type.
//!
//! The parser owns its token stream and a look-ahead buffer; its abstract
//! state is the sequence `tokens()` of tokens not yet consumed.  Past the
//! end of that sequence every read yields the synthetic end-of-file token.

use vstd::prelude::*;
use crate::ast::{Expression, MessageArgs, distinct_keys, is_top_decl, is_block_item};
use crate::ast::{ExprModel, ArgsModel, expr_matches, exprs_match, kv_expr_match, kv_text_match, has_model_key};
use crate::ast::{args_match, opt_text_match};
use crate::token::{models_of, head_tm, lemma_models_skip};
use crate::token::{Token, TokenModel, TokenStream, TokenType};
use crate::parslets::{PrefixParslet, InfixParslet, PrefixOpParslet, BinaryParslet};
use crate::parslets::{IntegerParslet, FloatParslet, ReferenceParslet, StringParslet, CallParslet};
use crate::parslets::{SIGN, ADDSUB, MULDIV};

verus! {

/// A fatal syntactic error: the source unit, the line, and what was
/// expected versus found.
#[derive(Debug)]
pub struct ParseError {
    pub file: String,
    pub line: i32,
    pub kind: ParseErrorKind,
}

#[derive(Debug, PartialEq)]
pub enum ParseErrorKind {
    /// No declaration can start with this token; carries its text.
    CouldNotParse(String),
    /// A specific token type was required.
    TypeMismatch { expected: TokenType, found: TokenType },
    /// A member, field or argument name was given twice.
    DuplicateName(String),
    /// A declaration keyword appeared inside a block.
    DeclarationInBlock,
    /// An expression was required and none could be parsed.
    ExpressionExpected,
}

/// The model of the synthetic end-of-file token.
pub open spec fn eof_model() -> TokenModel {
    TokenModel { tipe: TokenType::EndOfFile, text: Seq::empty(), line: -1 }
}

/// Last-registered-wins lookup in a registry table.
pub open spec fn tab_lookup<T>(tab: Seq<(TokenType, T)>, tt: TokenType) -> Option<T>
    decreases tab.len(),
{
    if tab.len() == 0 {
        None
    } else if tab.last().0 == tt {
        Some(tab.last().1)
    } else {
        tab_lookup(tab.drop_last(), tt)
    }
}

proof fn lemma_tab_lookup_entry<T>(tab: Seq<(TokenType, T)>, tt: TokenType, v: T)
    requires
        tab_lookup(tab, tt) == Some(v),
    ensures
        exists|i: int| 0 <= i < tab.len() && #[trigger] tab[i] == (tt, v),
    decreases tab.len(),
{
    if tab.len() > 0 {
        if tab.last().0 == tt {
            assert(tab[tab.len() - 1] == (tt, v));
        } else {
            lemma_tab_lookup_entry(tab.drop_last(), tt, v);
            let i = choose|i: int|
                0 <= i < tab.drop_last().len() && #[trigger] tab.drop_last()[i] == (tt, v);
            assert(tab[i] == (tt, v));
        }
    }
}


/// The binding precedence registered in a table for a token type; 0 when
/// none is.
pub open spec fn tab_prec(itab: Seq<(TokenType, InfixParslet)>, tt: TokenType) -> int {
    match tab_lookup(itab, tt) {
        Some(p) => p.spec_precedence(),
        None => 0,
    }
}

/// Outcome of expression parsing: a fatal error, no expression at all (no
/// prefix handler for the leading token, nothing consumed), or the parsed
/// model with the remaining tokens.
pub enum ExprOutcome {
    Failed,
    Empty,
    Parsed(ExprModel, Seq<TokenModel>),
}

/// One registered prefix handler applied to the consumed token `tm`, with
/// `ms` the tokens after it.
pub open spec fn spec_prefix(
    ptab: Seq<(TokenType, PrefixParslet)>,
    itab: Seq<(TokenType, InfixParslet)>,
    h: PrefixParslet,
    tm: TokenModel,
    ms: Seq<TokenModel>,
) -> Option<(ExprModel, Seq<TokenModel>)>
    decreases ms.len(), 4int,
{
    match h {
        PrefixParslet::Integer(_) => Some((ExprModel::IntegerM(tm.text), ms)),
        PrefixParslet::Float(_) => Some((ExprModel::FloatM(tm.text), ms)),
        PrefixParslet::Reference(_) => Some((ExprModel::ReferenceM(tm.line, tm.text), ms)),
        PrefixParslet::CString(_) => Some((ExprModel::StringLiteralM(tm.line, tm.text), ms)),
        PrefixParslet::Op(o) => match spec_expression(ptab, itab, ms, o.precedence as int) {
            ExprOutcome::Parsed(m, rem) => Some(
                (ExprModel::PrefixM(tm.line, tm.tipe, Box::new(m)), rem),
            ),
            _ => None,
        },
        PrefixParslet::Call(_) => spec_message_call(ptab, itab, ms, false),
    }
}

/// Precedence climbing over token models: the prefix handler of the leading
/// token, then every infix handler binding tighter than `floor`.
pub open spec fn spec_expression(
    ptab: Seq<(TokenType, PrefixParslet)>,
    itab: Seq<(TokenType, InfixParslet)>,
    ms: Seq<TokenModel>,
    floor: int,
) -> ExprOutcome
    decreases ms.len(), 0int,
{
    match tab_lookup(ptab, head_tm(ms).tipe) {
        None => ExprOutcome::Empty,
        Some(h) => if ms.len() == 0 {
            ExprOutcome::Failed
        } else {
            match spec_prefix(ptab, itab, h, ms[0], ms.skip(1)) {
                Some((m, rem)) => if rem.len() < ms.len() {
                    match spec_infix(ptab, itab, m, rem, floor) {
                        Some((m2, rem2)) => ExprOutcome::Parsed(m2, rem2),
                        None => ExprOutcome::Failed,
                    }
                } else {
                    ExprOutcome::Failed
                },
                None => ExprOutcome::Failed,
            }
        },
    }
}

/// The infix fold: while the next token's registered precedence exceeds the
/// floor, consume it and combine.
pub open spec fn spec_infix(
    ptab: Seq<(TokenType, PrefixParslet)>,
    itab: Seq<(TokenType, InfixParslet)>,
    left: ExprModel,
    ms: Seq<TokenModel>,
    floor: int,
) -> Option<(ExprModel, Seq<TokenModel>)>
    decreases ms.len(), 1int,
{
    if tab_prec(itab, head_tm(ms).tipe) > floor {
        match tab_lookup(itab, head_tm(ms).tipe) {
            Some(h) => if ms.len() == 0 {
                None
            } else {
                match spec_expression(ptab, itab, ms.skip(1), h.rhs_floor()) {
                    ExprOutcome::Parsed(rhs, rem) => if rem.len() < ms.len() {
                        spec_infix(
                            ptab,
                            itab,
                            ExprModel::BinaryM(ms[0].line, ms[0].tipe, Box::new(left), Box::new(rhs)),
                            rem,
                            floor,
                        )
                    } else {
                        None
                    },
                    _ => None,
                }
            },
            None => None,
        }
    } else {
        Some((left, ms))
    }
}

/// One `name : expression` argument.
pub open spec fn spec_idval(
    ptab: Seq<(TokenType, PrefixParslet)>,
    itab: Seq<(TokenType, InfixParslet)>,
    ms: Seq<TokenModel>,
) -> Option<((Seq<char>, ExprModel), Seq<TokenModel>)>
    decreases ms.len(), 2int,
{
    if head_tm(ms).tipe == TokenType::Identifier && ms.len() > 0 {
        let name = ms[0].text;
        let t1 = ms.skip(1);
        if head_tm(t1).tipe == TokenType::Colon && t1.len() > 0 {
            match spec_expression(ptab, itab, t1.skip(1), 0) {
                ExprOutcome::Parsed(m, rem) => Some(((name, m), rem)),
                _ => None,
            }
        } else {
            None
        }
    } else {
        None
    }
}

/// The argument run of a send or object construction: `name : expression`
/// pairs with optional commas, while an identifier leads; a repeated name
/// is fatal.
pub open spec fn spec_send_args(
    ptab: Seq<(TokenType, PrefixParslet)>,
    itab: Seq<(TokenType, InfixParslet)>,
    ms: Seq<TokenModel>,
    acc: Seq<(Seq<char>, ExprModel)>,
) -> Option<(Seq<(Seq<char>, ExprModel)>, Seq<TokenModel>)>
    decreases ms.len(), 3int,
{
    if head_tm(ms).tipe != TokenType::Identifier {
        Some((acc, ms))
    } else {
        match spec_idval(ptab, itab, ms) {
            Some((nv, t2)) => if has_model_key(acc, nv.0) {
                None
            } else {
                let t3 = if head_tm(t2).tipe == TokenType::Comma && t2.len() > 0 {
                    t2.skip(1)
                } else {
                    t2
                };
                if t3.len() < ms.len() {
                    spec_send_args(ptab, itab, t3, acc.push(nv))
                } else {
                    None
                }
            },
            None => None,
        }
    }
}

/// A message or call send: optional `[`, a target identifier or struct
/// identifier, the argument run, and `]`.
pub open spec fn spec_message_call(
    ptab: Seq<(TokenType, PrefixParslet)>,
    itab: Seq<(TokenType, InfixParslet)>,
    ms: Seq<TokenModel>,
    c: bool,
) -> Option<(ExprModel, Seq<TokenModel>)>
    decreases ms.len(), 3int,
{
    let t1 = if c && head_tm(ms).tipe == TokenType::LBracket && ms.len() > 0 {
        ms.skip(1)
    } else {
        ms
    };
    if (head_tm(t1).tipe == TokenType::Identifier || head_tm(t1).tipe
        == TokenType::StructIdentifier) && t1.len() > 0 {
        let target = t1[0].text;
        match spec_send_args(ptab, itab, t1.skip(1), Seq::empty()) {
            Some((args, t3)) => if head_tm(t3).tipe == TokenType::RBracket && t3.len() > 0 {
                Some((ExprModel::MessageM(target, args), t3.skip(1)))
            } else {
                None
            },
            None => None,
        }
    } else {
        None
    }
}


pub proof fn lemma_head_tm(s: Seq<Token>)
    ensures
        head_tm(models_of(s)) == (if s.len() > 0 {
            s[0]@
        } else {
            eof_model()
        }),
{
    if s.len() > 0 {
        assert(models_of(s)[0] == s[0]@);
    }
}


/// The default prefix registry that `setup_defaults` installs.
pub open spec fn default_prefix_tab() -> Seq<(TokenType, PrefixParslet)> {
    seq![
        (TokenType::Minus, PrefixParslet::Op(PrefixOpParslet { precedence: SIGN })),
        (TokenType::Plus, PrefixParslet::Op(PrefixOpParslet { precedence: SIGN })),
        (TokenType::Integer, PrefixParslet::Integer(IntegerParslet {  })),
        (TokenType::Float, PrefixParslet::Float(FloatParslet {  })),
        (TokenType::Identifier, PrefixParslet::Reference(ReferenceParslet {  })),
        (TokenType::CString, PrefixParslet::CString(StringParslet {  })),
        (TokenType::LBracket, PrefixParslet::Call(CallParslet {  })),
    ]
}

/// The default infix registry that `setup_defaults` installs.
pub open spec fn default_infix_tab() -> Seq<(TokenType, InfixParslet)> {
    seq![
        (TokenType::Plus, InfixParslet::Binary(BinaryParslet { precedence: ADDSUB, left_rec: true })),
        (TokenType::Minus, InfixParslet::Binary(BinaryParslet { precedence: ADDSUB, left_rec: true })),
        (TokenType::Asterisk, InfixParslet::Binary(BinaryParslet { precedence: MULDIV, left_rec: true })),
        (TokenType::Backslash, InfixParslet::Binary(BinaryParslet { precedence: MULDIV, left_rec: true })),
    ]
}

/// Consumes a token stream and produces the syntax tree.
pub struct Parser {
    file_name: String,
    ts: TokenStream,
    prefixs: Vec<(TokenType, PrefixParslet)>,
    infixs: Vec<(TokenType, InfixParslet)>,
    t: Vec<Token>,
    eof: Token,
}

impl Parser {
    /// The tokens not yet consumed, in order.
    pub closed spec fn tokens(self) -> Seq<Token> {
        self.t@ + self.ts@
    }

    /// How many tokens stand ready in the look-ahead buffer.
    pub closed spec fn buffered(self) -> int {
        self.t@.len() as int
    }

    /// The source identifier used in diagnostics.
    pub closed spec fn fname(self) -> Seq<char> {
        self.file_name@
    }

    /// The prefix handler registry, in registration order.
    pub closed spec fn prefix_tab(self) -> Seq<(TokenType, PrefixParslet)> {
        self.prefixs@
    }

    /// The infix handler registry, in registration order.
    pub closed spec fn infix_tab(self) -> Seq<(TokenType, InfixParslet)> {
        self.infixs@
    }

    /// The prefix handler registered for a token type, if any.
    pub open spec fn prefix_of(self, tt: TokenType) -> Option<PrefixParslet> {
        tab_lookup(self.prefix_tab(), tt)
    }

    /// The infix handler registered for a token type, if any.
    pub open spec fn infix_of(self, tt: TokenType) -> Option<InfixParslet> {
        tab_lookup(self.infix_tab(), tt)
    }

    /// The binding precedence of the infix handler for a token type; 0 when
    /// none is registered.
    pub open spec fn precedence_of(self, tt: TokenType) -> int {
        match self.infix_of(tt) {
            Some(p) => p.spec_precedence(),
            None => 0,
        }
    }

    /// The model of the next token to be consumed: the first remaining
    /// token, or the end-of-file sentinel.
    pub open spec fn head_model(self) -> TokenModel {
        if self.tokens().len() > 0 {
            self.tokens()[0]@
        } else {
            eof_model()
        }
    }

    /// The sentinel is well formed, no handler is registered for the
    /// end-of-file type, prefix operator handlers carry a nonnegative
    /// precedence, and infix handlers a positive one.
    pub closed spec fn wf(self) -> bool {
        &&& self.eof@ == eof_model()
        &&& forall|i: int|
            0 <= i < self.prefixs@.len() ==> (#[trigger] self.prefixs@[i]).0
                != TokenType::EndOfFile && self.prefixs@[i].1.wf()
        &&& forall|i: int|
            0 <= i < self.infixs@.len() ==> (#[trigger] self.infixs@[i]).0 != TokenType::EndOfFile
                && self.infixs@[i].1.wf()
    }

    /// The registries and the source identifier are unchanged.
    pub open spec fn same_env(a: Parser, b: Parser) -> bool {
        &&& b.prefix_tab() == a.prefix_tab()
        &&& b.infix_tab() == a.infix_tab()
        &&& b.fname() == a.fname()
    }

    /// One token was consumed if any remained.
    pub open spec fn consumed_one(a: Parser, b: Parser) -> bool {
        if a.tokens().len() > 0 {
            b.tokens() == a.tokens().skip(1)
        } else {
            b.tokens() == a.tokens()
        }
    }

    /// A parser over the given token stream with empty registries.
    pub fn new(fln: &str, ts: TokenStream) -> (p: Parser)
        ensures
            p.wf(),
            p.tokens() == ts@,
            p.fname() == fln@,
            p.prefix_tab().len() == 0,
            p.infix_tab().len() == 0,
    {
        let eof = Token::new(TokenType::EndOfFile, "").with_line(-1);
        proof {
            reveal_strlit("");
            assert(""@.len() == 0);
            assert(eof@.text =~= Seq::<char>::empty());
        }
        let p = Parser {
            ts,
            file_name: fln.to_owned(),
            t: Vec::new(),
            prefixs: Vec::new(),
            infixs: Vec::new(),
            eof,
        };
        proof {
            assert(p.tokens() =~= p.ts@);
        }
        p
    }

    fn lookup_prefix(&self, tt: TokenType) -> (r: Option<PrefixParslet>)
        ensures
            r == self.prefix_of(tt),
    {
        let mut i: usize = self.prefixs.len();
        proof {
            assert(self.prefixs@.take(self.prefixs@.len() as int) =~= self.prefixs@);
        }
        while i > 0
            invariant
                i <= self.prefixs@.len(),
                tab_lookup(self.prefixs@, tt) == tab_lookup(self.prefixs@.take(i as int), tt),
            decreases i,
        {
            i = i - 1;
            proof {
                assert(self.prefixs@.take(i as int + 1).drop_last() =~= self.prefixs@.take(
                    i as int,
                ));
                assert(self.prefixs@.take(i as int + 1).last() == self.prefixs@[i as int]);
            }
            if self.prefixs[i].0 == tt {
                return Some(self.prefixs[i].1);
            }
        }
        None
    }

    fn lookup_infix(&self, tt: TokenType) -> (r: Option<InfixParslet>)
        ensures
            r == self.infix_of(tt),
    {
        let mut i: usize = self.infixs.len();
        proof {
            assert(self.infixs@.take(self.infixs@.len() as int) =~= self.infixs@);
        }
        while i > 0
            invariant
                i <= self.infixs@.len(),
                tab_lookup(self.infixs@, tt) == tab_lookup(self.infixs@.take(i as int), tt),
            decreases i,
        {
            i = i - 1;
            proof {
                assert(self.infixs@.take(i as int + 1).drop_last() =~= self.infixs@.take(i as int));
                assert(self.infixs@.take(i as int + 1).last() == self.infixs@[i as int]);
            }
            if self.infixs[i].0 == tt {
                return Some(self.infixs[i].1);
            }
        }
        None
    }

    /// Pulls tokens from the stream into the look-ahead buffer until `x` is
    /// in reach, and returns a copy of the token at offset `x`, or the
    /// end-of-file sentinel past the end.
    pub fn look_ahead(&mut self, x: usize) -> (tk: Token)
        requires
            old(self).wf(),
            x < usize::MAX,
        ensures
            final(self).wf(),
            Parser::same_env(*old(self), *final(self)),
            final(self).tokens() == old(self).tokens(),
            final(self).buffered() >= (if x + 1 <= old(self).tokens().len() {
                x + 1
            } else {
                old(self).tokens().len() as int
            }),
            (x as int) < old(self).tokens().len() ==> tk == old(self).tokens()[x as int],
            (x as int) >= old(self).tokens().len() ==> tk@ == eof_model(),
    {
        let ghost toks0 = self.tokens();
        let tlen = self.t.len();
        if tlen <= x {
            let mut drained = self.ts.read((x + 1) - tlen);
            self.t.append(&mut drained);
            proof {
                assert(self.tokens() =~= toks0);
            }
        }
        if x < self.t.len() {
            proof {
                assert(self.tokens()[x as int] == self.t@[x as int]);
            }
            self.t[x].clone()
        } else {
            proof {
                assert(self.tokens().len() == self.t@.len() + self.ts@.len());
                assert((x as int) >= self.tokens().len());
            }
            self.eof.clone()
        }
    }

    /// Removes and returns the next token; past the end of the stream it
    /// returns the end-of-file sentinel and consumes nothing.
    pub fn consume(&mut self) -> (tk: Token)
        requires
            old(self).wf(),
        ensures
            final(self).wf(),
            Parser::same_env(*old(self), *final(self)),
            old(self).tokens().len() > 0 ==> tk == old(self).tokens()[0] && final(self).tokens()
                == old(self).tokens().skip(1),
            old(self).tokens().len() == 0 ==> tk@ == eof_model() && final(self).tokens() == old(
                self,
            ).tokens(),
    {
        let ghost toks0 = self.tokens();
        let _ = self.look_ahead(0);
        if self.t.len() > 0 {
            let tk = self.t.remove(0);
            proof {
                assert(tk == toks0[0]);
                assert(self.tokens() =~= toks0.skip(1));
            }
            tk
        } else {
            proof {
                assert(toks0.len() == 0);
            }
            self.eof.clone()
        }
    }

    /// Consumes the next token exactly when it has the expected type.
    pub fn match_type(&mut self, expect: TokenType) -> (r: Option<Token>)
        requires
            old(self).wf(),
        ensures
            final(self).wf(),
            Parser::same_env(*old(self), *final(self)),
            old(self).head_model().tipe == expect ==> (r matches Some(tk) && tk@ == old(
                self,
            ).head_model() && Parser::consumed_one(*old(self), *final(self)) && (old(
                self,
            ).tokens().len() > 0 ==> tk == old(self).tokens()[0])),
            old(self).head_model().tipe != expect ==> (r is None && final(self).tokens() == old(
                self,
            ).tokens()),
    {
        let tok = self.look_ahead(0);
        if tok.get_type() != expect {
            return None;
        }
        Some(self.consume())
    }

    /// Consumes the next token, which must have the expected type; reports
    /// a type mismatch otherwise, consuming nothing.
    pub fn consume_type(&mut self, expect: TokenType) -> (r: Result<Token, ParseError>)
        requires
            old(self).wf(),
        ensures
            final(self).wf(),
            Parser::same_env(*old(self), *final(self)),
            match r {
                Ok(tk) => old(self).head_model().tipe == expect && tk@ == old(self).head_model()
                    && Parser::consumed_one(*old(self), *final(self)) && (old(
                    self,
                ).tokens().len() > 0 ==> tk == old(self).tokens()[0]),
                Err(e) => old(self).head_model().tipe != expect && final(self).tokens() == old(
                    self,
                ).tokens() && e.kind == (ParseErrorKind::TypeMismatch {
                    expected: expect,
                    found: old(self).head_model().tipe,
                }) && e.line as int == old(self).head_model().line && e.file@ == old(self).fname(),
            },
    {
        let tok = self.look_ahead(0);
        if tok.get_type() != expect {
            return Err(
                ParseError {
                    file: self.file_name.clone(),
                    line: tok.get_line(),
                    kind: ParseErrorKind::TypeMismatch { expected: expect, found: tok.get_type() },
                },
            );
        }
        let tk = self.consume();
        Ok(tk)
    }

    /// Whether the next token has the given type.
    fn head_is(&mut self, tt: TokenType) -> (r: bool)
        requires
            old(self).wf(),
        ensures
            final(self).wf(),
            Parser::same_env(*old(self), *final(self)),
            final(self).tokens() == old(self).tokens(),
            r == (old(self).head_model().tipe == tt),
    {
        let tok = self.look_ahead(0);
        tok.get_type() == tt
    }

    fn can_parse(&mut self) -> (r: bool)
        requires
            old(self).wf(),
        ensures
            final(self).wf(),
            Parser::same_env(*old(self), *final(self)),
            final(self).tokens() == old(self).tokens(),
            r == (old(self).tokens().len() > 0),
    {
        self.ts.len() > 0 || self.t.len() > 0
    }

    /// The binding precedence of the next token's infix handler, 0 when
    /// none is registered.
    fn get_precedence(&mut self) -> (p: i32)
        requires
            old(self).wf(),
        ensures
            final(self).wf(),
            Parser::same_env(*old(self), *final(self)),
            final(self).tokens() == old(self).tokens(),
            p as int == old(self).precedence_of(old(self).head_model().tipe),
    {
        let tok = self.look_ahead(0);
        match self.lookup_infix(tok.get_type()) {
            Some(plt) => plt.get_precedence(),
            None => 0,
        }
    }

    /// Registers a prefix handler; a later registration for the same token
    /// type shadows an earlier one.
    pub fn register_prefix(&mut self, tt: TokenType, p: PrefixParslet)
        requires
            old(self).wf(),
            tt != TokenType::EndOfFile,
            p.wf(),
        ensures
            final(self).wf(),
            final(self).prefix_tab() == old(self).prefix_tab().push((tt, p)),
            final(self).infix_tab() == old(self).infix_tab(),
            final(self).fname() == old(self).fname(),
            final(self).tokens() == old(self).tokens(),
    {
        self.prefixs.push((tt, p));
    }

    /// Registers an infix handler; a later registration for the same token
    /// type shadows an earlier one.
    pub fn register_infix(&mut self, tt: TokenType, p: InfixParslet)
        requires
            old(self).wf(),
            tt != TokenType::EndOfFile,
            p.wf(),
        ensures
            final(self).wf(),
            final(self).infix_tab() == old(self).infix_tab().push((tt, p)),
            final(self).prefix_tab() == old(self).prefix_tab(),
            final(self).fname() == old(self).fname(),
            final(self).tokens() == old(self).tokens(),
    {
        self.infixs.push((tt, p));
    }

    /// Registers a signed-prefix operator at the given precedence.
    fn prefix(&mut self, tt: TokenType, p: i32)
        requires
            old(self).wf(),
            tt != TokenType::EndOfFile,
            p >= 0,
        ensures
            final(self).wf(),
            final(self).prefix_tab() == old(self).prefix_tab().push(
                (tt, PrefixParslet::Op(PrefixOpParslet { precedence: p })),
            ),
            final(self).infix_tab() == old(self).infix_tab(),
            final(self).fname() == old(self).fname(),
            final(self).tokens() == old(self).tokens(),
    {
        self.register_prefix(tt, PrefixParslet::Op(PrefixOpParslet::new(p)))
    }

    /// Registers a left- or right-associative binary operator at the given
    /// precedence.
    fn binary(&mut self, tt: TokenType, p: i32, lr: bool)
        requires
            old(self).wf(),
            tt != TokenType::EndOfFile,
            p >= 1,
        ensures
            final(self).wf(),
            final(self).infix_tab() == old(self).infix_tab().push(
                (tt, InfixParslet::Binary(BinaryParslet { precedence: p, left_rec: lr })),
            ),
            final(self).prefix_tab() == old(self).prefix_tab(),
            final(self).fname() == old(self).fname(),
            final(self).tokens() == old(self).tokens(),
    {
        self.register_infix(tt, InfixParslet::Binary(BinaryParslet::new(p, lr)))
    }

    /// Registers the default grammar: signed prefixes, the literal and
    /// reference handlers, the bracket-led send, and the four binary
    /// operators with multiplication binding tighter than addition.
    pub fn setup_defaults(&mut self)
        requires
            old(self).wf(),
        ensures
            final(self).wf(),
            final(self).fname() == old(self).fname(),
            final(self).tokens() == old(self).tokens(),
            final(self).prefix_tab() == old(self).prefix_tab() + default_prefix_tab(),
            final(self).infix_tab() == old(self).infix_tab() + default_infix_tab(),
    {
        let ghost p0 = self.prefixs@;
        let ghost i0 = self.infixs@;
        self.prefix(TokenType::Minus, SIGN);
        self.prefix(TokenType::Plus, SIGN);
        self.register_prefix(TokenType::Integer, PrefixParslet::Integer(IntegerParslet::new()));
        self.register_prefix(TokenType::Float, PrefixParslet::Float(FloatParslet::new()));
        self.register_prefix(
            TokenType::Identifier,
            PrefixParslet::Reference(ReferenceParslet::new()),
        );
        self.register_prefix(TokenType::CString, PrefixParslet::CString(StringParslet::new()));
        self.register_prefix(TokenType::LBracket, PrefixParslet::Call(CallParslet::new()));
        self.binary(TokenType::Plus, ADDSUB, true);
        self.binary(TokenType::Minus, ADDSUB, true);
        self.binary(TokenType::Asterisk, MULDIV, true);
        self.binary(TokenType::Backslash, MULDIV, true);
        proof {
            assert(self.prefixs@ =~= p0 + default_prefix_tab());
            assert(self.infixs@ =~= i0 + default_infix_tab());
        }
    }
}


impl Parser {
    /// An error at the given line of this parser's source unit.
    pub(crate) fn error(&self, line: i32, kind: ParseErrorKind) -> (e: ParseError)
        ensures
            e.file@ == self.fname(),
            e.line == line,
            e.kind == kind,
    {
        ParseError { file: self.file_name.clone(), line, kind }
    }

    /// Parses `name : expression` — exactly `spec_idval` of the remaining
    /// tokens — and appends it to the list unless the name is already
    /// present; returns the name token and whether it was.
    #[verifier::loop_isolation(false)]
    fn parse_idval_and_add(&mut self, hshmap: &mut Vec<(String, Expression)>) -> (r: Result<
        (Token, bool),
        ParseError,
    >)
        requires
            old(self).wf(),
        ensures
            final(self).wf(),
            Parser::same_env(*old(self), *final(self)),
            final(self).tokens().len() <= old(self).tokens().len(),
            match r {
                Ok(p) => {
                    &&& final(self).tokens().len() < old(self).tokens().len()
                    &&& p.1 == crate::ast::has_key(old(hshmap)@, p.0@.text)
                    &&& (p.1 ==> final(hshmap)@ == old(hshmap)@)
                    &&& (!p.1 ==> {
                        &&& final(hshmap)@.len() == old(hshmap)@.len() + 1
                        &&& final(hshmap)@.take(old(hshmap)@.len() as int) == old(hshmap)@
                        &&& final(hshmap)@.last().0@ == p.0@.text
                    })
                },
                Err(_) => final(hshmap)@ == old(hshmap)@,
            },
            match spec_idval(
                old(self).prefix_tab(),
                old(self).infix_tab(),
                models_of(old(self).tokens()),
            ) {
                Some(pr) => r matches Ok(p) && models_of(final(self).tokens()) == pr.1 && p.0@.text
                    == pr.0.0 && (!p.1 ==> expr_matches(final(hshmap)@.last().1, pr.0.1)),
                None => r is Err,
            },
        decreases old(self).tokens().len(), 0int,
    {
        proof {
            lemma_head_tm(old(self).tokens());
        }
        let ghost ms0 = models_of(old(self).tokens());
        let name = match self.consume_type(TokenType::Identifier) {
            Ok(t) => t,
            Err(e) => {
                return Err(e);
            },
        };
        proof {
            lemma_models_skip(old(self).tokens(), 1);
            lemma_head_tm(self.tokens());
            assert(models_of(self.tokens()) == ms0.skip(1));
        }
        match self.consume_type(TokenType::Colon) {
            Ok(_) => (),
            Err(e) => {
                return Err(e);
            },
        }
        proof {
            lemma_models_skip(old(self).tokens().skip(1), 1);
            assert(models_of(self.tokens()) =~= ms0.skip(1).skip(1));
        }
        let val = match self.parse_expression(0) {
            Ok(Some(x)) => x,
            Ok(None) => {
                return Err(self.error(name.get_line(), ParseErrorKind::ExpressionExpected));
            },
            Err(e) => {
                return Err(e);
            },
        };
        let ks = name.get_string();
        let pe = key_present(hshmap, &ks);
        if !pe {
            hshmap.push((ks, val));
            proof {
                assert(hshmap@.take(hshmap@.len() - 1) =~= old(hshmap)@);
            }
        }
        Ok((name, pe))
    }

    /// Core precedence climbing: the result is exactly `spec_expression` of
    /// the remaining tokens at the given floor — `None`, consuming nothing,
    /// exactly when no prefix handler is registered for the leading token;
    /// on success no tighter-binding infix operator remains at the head.
    #[verifier::loop_isolation(false)]
    pub fn parse_expression(&mut self, precedence: i32) -> (r: Result<Option<Expression>, ParseError>)
        requires
            old(self).wf(),
            precedence >= 0,
        ensures
            final(self).wf(),
            Parser::same_env(*old(self), *final(self)),
            final(self).tokens().len() <= old(self).tokens().len(),
            old(self).prefix_of(old(self).head_model().tipe) is None <==> (r matches Ok(o) && o is None),
            (r matches Ok(o) && o is None) ==> final(self).tokens() == old(self).tokens(),
            (r matches Ok(o) && o is Some) ==> final(self).tokens().len() < old(
                self,
            ).tokens().len() && final(self).precedence_of(final(self).head_model().tipe)
                <= precedence as int,
            match spec_expression(
                old(self).prefix_tab(),
                old(self).infix_tab(),
                models_of(old(self).tokens()),
                precedence as int,
            ) {
                ExprOutcome::Empty => r matches Ok(o) && o is None,
                ExprOutcome::Parsed(m, rem) => r matches Ok(o) && (o matches Some(e)
                    && expr_matches(e, m)) && models_of(final(self).tokens()) == rem,
                ExprOutcome::Failed => r is Err,
            },
        decreases old(self).tokens().len(), 0int,
    {
        let ghost ptab = old(self).prefix_tab();
        let ghost itab = old(self).infix_tab();
        let ghost ms0 = models_of(old(self).tokens());
        proof {
            lemma_head_tm(old(self).tokens());
        }
        let tok = self.look_ahead(0);
        let pl = self.lookup_prefix(tok.get_type());
        let plt = match pl {
            None => {
                return Ok(None);
            },
            Some(p) => p,
        };
        proof {
            lemma_tab_lookup_entry(self.prefixs@, tok@.tipe, plt);
            if self.tokens().len() == 0 {
                assert(tok@.tipe == TokenType::EndOfFile);
                assert(false);
            }
        }
        let tok2 = self.consume();
        proof {
            lemma_models_skip(old(self).tokens(), 1);
            assert(models_of(self.tokens()) == ms0.skip(1));
        }
        let lres = plt.parse(self, tok2);
        let mut left = match lres {
            Ok(e) => e,
            Err(er) => {
                proof {
                    assert(spec_prefix(ptab, itab, plt, ms0[0], ms0.skip(1)) is None);
                }
                return Err(er);
            },
        };
        let ghost pres = spec_prefix(ptab, itab, plt, ms0[0], ms0.skip(1));
        let ghost mut left_m: ExprModel = pres->Some_0.0;
        proof {
            assert(pres is Some);
            assert(expr_matches(left, left_m));
            assert(models_of(self.tokens()) == pres->Some_0.1);
            assert(self.tokens().len() < old(self).tokens().len());
        }
        let mut gprec = self.get_precedence();
        while precedence < gprec
            invariant
                self.wf(),
                Parser::same_env(*old(self), *self),
                self.tokens().len() < old(self).tokens().len(),
                gprec as int == self.precedence_of(self.head_model().tipe),
                expr_matches(left, left_m),
                match spec_infix(ptab, itab, left_m, models_of(self.tokens()), precedence as int) {
                    Some((fm, frem)) => spec_expression(ptab, itab, ms0, precedence as int)
                        == ExprOutcome::Parsed(fm, frem),
                    None => spec_expression(ptab, itab, ms0, precedence as int)
                        == ExprOutcome::Failed,
                },
            decreases self.tokens().len(),
        {
            let ghost cur = self.tokens();
            let ghost mcur = models_of(cur);
            proof {
                lemma_head_tm(cur);
            }
            let ntok = self.look_ahead(0);
            let ip = self.lookup_infix(ntok.get_type());
            match ip {
                None => {
                    proof {
                        assert(false);
                    }
                },
                Some(iplt) => {
                    proof {
                        lemma_tab_lookup_entry(self.infixs@, ntok@.tipe, iplt);
                        if self.tokens().len() == 0 {
                            assert(ntok@.tipe == TokenType::EndOfFile);
                            assert(false);
                        }
                    }
                    let ntok2 = self.consume();
                    proof {
                        lemma_models_skip(cur, 1);
                        assert(models_of(self.tokens()) == mcur.skip(1));
                    }
                    let lres2 = iplt.parse(self, left, ntok2);
                    match lres2 {
                        Ok(e) => {
                            proof {
                                let sres = spec_expression(
                                    ptab,
                                    itab,
                                    mcur.skip(1),
                                    iplt.rhs_floor(),
                                );
                                assert(sres is Parsed);
                                let mr = sres->Parsed_0;
                                let rem = sres->Parsed_1;
                                let combined = ExprModel::BinaryM(
                                    mcur[0].line,
                                    mcur[0].tipe,
                                    Box::new(left_m),
                                    Box::new(mr),
                                );
                                assert(expr_matches(e, combined));
                                assert(spec_infix(ptab, itab, left_m, mcur, precedence as int)
                                    == spec_infix(ptab, itab, combined, rem, precedence as int));
                                left_m = combined;
                            }
                            left = e;
                        },
                        Err(er) => {
                            proof {
                                assert(spec_infix(ptab, itab, left_m, mcur, precedence as int)
                                    is None);
                            }
                            return Err(er);
                        },
                    }
                },
            }
            gprec = self.get_precedence();
        }
        proof {
            lemma_head_tm(self.tokens());
            assert(spec_infix(ptab, itab, left_m, models_of(self.tokens()), precedence as int)
                == Some((left_m, models_of(self.tokens()))));
        }
        Ok(Some(left))
    }

    /// Parses a message or call send — exactly `spec_message_call` of the
    /// remaining tokens: an optional leading `[`, a target identifier or
    /// struct identifier, named arguments with distinct names, and the
    /// closing `]`.
    #[verifier::loop_isolation(false)]
    pub fn parse_message_call(&mut self, c: bool) -> (r: Result<Expression, ParseError>)
        requires
            old(self).wf(),
        ensures
            final(self).wf(),
            Parser::same_env(*old(self), *final(self)),
            final(self).tokens().len() <= old(self).tokens().len(),
            r matches Ok(e) ==> ((e matches Expression::Message { target, args } && distinct_keys(
                args@,
            )) && final(self).tokens().len() < old(self).tokens().len()),
            match spec_message_call(
                old(self).prefix_tab(),
                old(self).infix_tab(),
                models_of(old(self).tokens()),
                c,
            ) {
                Some((m, rem)) => r matches Ok(e) && expr_matches(e, m) && models_of(
                    final(self).tokens(),
                ) == rem,
                None => r is Err,
            },
        decreases old(self).tokens().len(), 1int,
    {
        let ghost ptab = old(self).prefix_tab();
        let ghost itab = old(self).infix_tab();
        let ghost ms0 = models_of(old(self).tokens());
        proof {
            lemma_head_tm(old(self).tokens());
        }
        if c {
            let _ = self.match_type(TokenType::LBracket);
            proof {
                if old(self).tokens().len() > 0 && old(self).head_model().tipe
                    == TokenType::LBracket {
                    lemma_models_skip(old(self).tokens(), 1);
                }
            }
        }
        proof {
            assert(models_of(self.tokens()) == (if c && head_tm(ms0).tipe == TokenType::LBracket
                && ms0.len() > 0 {
                ms0.skip(1)
            } else {
                ms0
            }));
        }
        let ghost t1 = models_of(self.tokens());
        let ghost toks_t1 = self.tokens();
        proof {
            lemma_head_tm(self.tokens());
        }
        let target_name = match self.match_type(TokenType::Identifier) {
            Some(x) => x,
            None => match self.consume_type(TokenType::StructIdentifier) {
                Ok(x) => x,
                Err(e) => {
                    return Err(e);
                },
            },
        };
        proof {
            lemma_models_skip(toks_t1, 1);
            assert(models_of(self.tokens()) == t1.skip(1));
        }
        let ghost target_text = target_name@.text;
        let mut args: Vec<(String, Expression)> = Vec::new();
        let ghost mut acc_m: Seq<(Seq<char>, ExprModel)> = Seq::empty();
        proof {
            lemma_head_tm(self.tokens());
            assert(kv_expr_match(args@, acc_m));
        }
        let mut more = self.head_is(TokenType::Identifier);
        while more
            invariant
                self.wf(),
                Parser::same_env(*old(self), *self),
                self.tokens().len() < old(self).tokens().len(),
                distinct_keys(args@),
                kv_expr_match(args@, acc_m),
                more == (self.head_model().tipe == TokenType::Identifier),
                match spec_send_args(ptab, itab, models_of(self.tokens()), acc_m) {
                    Some((am, rem)) => spec_message_call(ptab, itab, ms0, c) == (if head_tm(
                        rem,
                    ).tipe == TokenType::RBracket && rem.len() > 0 {
                        Some((ExprModel::MessageM(target_text, am), rem.skip(1)))
                    } else {
                        None::<(ExprModel, Seq<TokenModel>)>
                    }),
                    None => spec_message_call(ptab, itab, ms0, c) is None,
                },
            decreases self.tokens().len(),
        {
            let ghost cur = self.tokens();
            let ghost mcur = models_of(cur);
            let ghost args0 = args@;
            let ghost acc0 = acc_m;
            proof {
                lemma_head_tm(cur);
            }
            let res = self.parse_idval_and_add(&mut args);
            match res {
                Ok(p) => {
                    proof {
                        assert(spec_idval(ptab, itab, mcur) is Some);
                        let pr = spec_idval(ptab, itab, mcur)->Some_0;
                        // Duplicate names agree between the list and its model.
                        assert(crate::ast::has_key(args0, p.0@.text) == has_model_key(
                            acc0,
                            pr.0.0,
                        )) by {
                            if crate::ast::has_key(args0, p.0@.text) {
                                let i = choose|i: int|
                                    0 <= i < args0.len() && (#[trigger] args0[i]).0@ == p.0@.text;
                                assert(acc0[i].0 == pr.0.0);
                            }
                            if has_model_key(acc0, pr.0.0) {
                                let i = choose|i: int|
                                    0 <= i < acc0.len() && (#[trigger] acc0[i]).0 == pr.0.0;
                                assert(args0[i].0@ == p.0@.text);
                            }
                        }
                    }
                    if p.1 {
                        return Err(
                            self.error(
                                p.0.get_line(),
                                ParseErrorKind::DuplicateName(p.0.get_string()),
                            ),
                        );
                    }
                    proof {
                        let pr = spec_idval(ptab, itab, mcur)->Some_0;
                        assert(args@ =~= args0.push(args@.last()));
                        crate::ast::lemma_distinct_push(args0, args@.last().0, args@.last().1);
                        acc_m = acc0.push(pr.0);
                        assert(kv_expr_match(args@, acc_m)) by {
                            assert forall|i: int| 0 <= i < args@.len() implies (
                            #[trigger] args@[i]).0@ == acc_m[i].0 && expr_matches(
                                args@[i].1,
                                acc_m[i].1,
                            ) by {
                                if i < args0.len() {
                                    assert(args@[i] == args0[i]);
                                    assert(acc_m[i] == acc0[i]);
                                }
                            }
                        }
                    }
                },
                Err(e) => {
                    return Err(e);
                },
            }
            let ghost t2 = models_of(self.tokens());
            let ghost toks_t2 = self.tokens();
            proof {
                lemma_head_tm(self.tokens());
            }
            let _ = self.match_type(TokenType::Comma);
            proof {
                if toks_t2.len() > 0 && head_tm(t2).tipe == TokenType::Comma {
                    lemma_models_skip(toks_t2, 1);
                }
                assert(models_of(self.tokens()) == (if head_tm(t2).tipe == TokenType::Comma
                    && t2.len() > 0 {
                    t2.skip(1)
                } else {
                    t2
                }));
            }
            more = self.head_is(TokenType::Identifier);
        }
        proof {
            lemma_head_tm(self.tokens());
            assert(spec_send_args(ptab, itab, models_of(self.tokens()), acc_m) == Some(
                (acc_m, models_of(self.tokens())),
            ));
        }
        let ghost t3 = models_of(self.tokens());
        let ghost toks_t3 = self.tokens();
        match self.consume_type(TokenType::RBracket) {
            Ok(_) => {},
            Err(e) => {
                return Err(e);
            },
        }
        proof {
            lemma_models_skip(toks_t3, 1);
            assert(models_of(self.tokens()) == t3.skip(1));
        }
        let e = Expression::Message { target: target_name.get_string(), args };
        proof {
            assert(expr_matches(e, ExprModel::MessageM(target_text, acc_m)));
        }
        Ok(e)
    }

}

/// Whether the key is already present in a name-keyed list.
fn key_present<T>(m: &Vec<(String, T)>, k: &String) -> (r: bool)
    ensures
        r == crate::ast::has_key(m@, k@),
{
    let mut i: usize = 0;
    while i < m.len()
        invariant
            i <= m@.len(),
            forall|j: int| 0 <= j < i ==> (#[trigger] m@[j]).0@ != k@,
        decreases m@.len() - i,
    {
        if *k == m[i].0 {
            return true;
        }
        i += 1;
    }
    false
}


/// The dot-joined module name readable at the front of `ms` after the
/// first struct identifier: the appended text and the tokens it takes.
pub open spec fn module_name_more(ms: Seq<TokenModel>) -> Option<(Seq<char>, int)>
    decreases ms.len(),
{
    if ms.len() >= 1 && ms[0].tipe == TokenType::Period {
        if ms.len() >= 2 && ms[1].tipe == TokenType::StructIdentifier {
            match module_name_more(ms.skip(2)) {
                Some(p) => Some((seq!['.'] + ms[1].text + p.0, 2 + p.1)),
                None => None,
            }
        } else {
            None
        }
    } else {
        Some((Seq::empty(), 0))
    }
}

/// The dotted module name readable at the front of `ms`: one or more
/// struct identifiers joined by periods, and the tokens consumed.
pub open spec fn module_name_parse(ms: Seq<TokenModel>) -> Option<(Seq<char>, int)> {
    if ms.len() >= 1 && ms[0].tipe == TokenType::StructIdentifier {
        match module_name_more(ms.skip(1)) {
            Some(p) => Some((ms[0].text + p.0, 1 + p.1)),
            None => None,
        }
    } else {
        None
    }
}

/// `let name [ : TypeName ] = expression`, the `let` keyword optional.
pub open spec fn spec_let(
    ptab: Seq<(TokenType, PrefixParslet)>,
    itab: Seq<(TokenType, InfixParslet)>,
    ms: Seq<TokenModel>,
) -> Option<(ExprModel, Seq<TokenModel>)>
    decreases ms.len(), 4int,
{
    let t0 = if head_tm(ms).tipe == TokenType::Let && ms.len() > 0 {
        ms.skip(1)
    } else {
        ms
    };
    if head_tm(t0).tipe == TokenType::Identifier && t0.len() > 0 {
        let name = t0[0].text;
        let t1 = t0.skip(1);
        if head_tm(t1).tipe == TokenType::Colon && t1.len() > 0 {
            if t1.len() >= 2 && t1[1].tipe == TokenType::StructIdentifier {
                spec_let_tail(ptab, itab, name, Some(t1[1].text), t1.skip(2))
            } else {
                None
            }
        } else {
            spec_let_tail(ptab, itab, name, None, t1)
        }
    } else {
        None
    }
}

/// The `= expression` tail of a let statement.
pub open spec fn spec_let_tail(
    ptab: Seq<(TokenType, PrefixParslet)>,
    itab: Seq<(TokenType, InfixParslet)>,
    name: Seq<char>,
    nty: Option<Seq<char>>,
    ms: Seq<TokenModel>,
) -> Option<(ExprModel, Seq<TokenModel>)>
    decreases ms.len(), 4int,
{
    if head_tm(ms).tipe == TokenType::Equal && ms.len() > 0 {
        match spec_expression(ptab, itab, ms.skip(1), 0) {
            ExprOutcome::Parsed(m, rem) => Some((ExprModel::LetM(name, nty, Box::new(m)), rem)),
            _ => None,
        }
    } else {
        None
    }
}

/// `StructName { name : expression , ... }`, braces optional as a whole.
pub open spec fn spec_new_object(
    ptab: Seq<(TokenType, PrefixParslet)>,
    itab: Seq<(TokenType, InfixParslet)>,
    ms: Seq<TokenModel>,
) -> Option<(ExprModel, Seq<TokenModel>)>
    decreases ms.len(), 4int,
{
    if head_tm(ms).tipe == TokenType::StructIdentifier && ms.len() > 0 {
        let st = ms[0].text;
        let t1 = ms.skip(1);
        if head_tm(t1).tipe == TokenType::LBrace && t1.len() > 0 {
            match spec_send_args(ptab, itab, t1.skip(1), Seq::empty()) {
                Some((mems, t2)) => if head_tm(t2).tipe == TokenType::RBrace && t2.len() > 0 {
                    Some((ExprModel::NewObjectM(st, mems), t2.skip(1)))
                } else {
                    None
                },
                None => None,
            }
        } else {
            Some((ExprModel::NewObjectM(st, Seq::empty()), t1))
        }
    } else {
        None
    }
}

/// A block: let statements, bracket-led sends and object constructions up
/// to the first token that starts none of these; a declaration keyword is
/// fatal.
pub open spec fn spec_block(
    ptab: Seq<(TokenType, PrefixParslet)>,
    itab: Seq<(TokenType, InfixParslet)>,
    ms: Seq<TokenModel>,
    acc: Seq<ExprModel>,
) -> Option<(Seq<ExprModel>, Seq<TokenModel>)>
    decreases ms.len(), 5int,
{
    let h = head_tm(ms).tipe;
    if h == TokenType::Module || h == TokenType::Struct || h == TokenType::Message || h
        == TokenType::Call {
        None
    } else if h == TokenType::Let {
        match spec_let(ptab, itab, ms) {
            Some((m, rem)) => if rem.len() < ms.len() {
                spec_block(ptab, itab, rem, acc.push(m))
            } else {
                None
            },
            None => None,
        }
    } else if h == TokenType::LBracket {
        match spec_message_call(ptab, itab, ms, true) {
            Some((m, rem)) => if rem.len() < ms.len() {
                spec_block(ptab, itab, rem, acc.push(m))
            } else {
                None
            },
            None => None,
        }
    } else if h == TokenType::StructIdentifier {
        match spec_new_object(ptab, itab, ms) {
            Some((m, rem)) => if rem.len() < ms.len() {
                spec_block(ptab, itab, rem, acc.push(m))
            } else {
                None
            },
            None => None,
        }
    } else {
        Some((acc, ms))
    }
}

/// The `name : TypeName` member run of a struct declaration, commas
/// optional; a repeated member name is fatal.
pub open spec fn spec_members(ms: Seq<TokenModel>, acc: Seq<(Seq<char>, Seq<char>)>) -> Option<
    (Seq<(Seq<char>, Seq<char>)>, Seq<TokenModel>),
>
    decreases ms.len(),
{
    if head_tm(ms).tipe != TokenType::Identifier {
        Some((acc, ms))
    } else if ms.len() >= 2 && ms[1].tipe == TokenType::Colon {
        if ms.len() >= 3 && ms[2].tipe == TokenType::StructIdentifier {
            if has_model_key(acc, ms[0].text) {
                None
            } else {
                let t3 = ms.skip(3);
                let t4 = if head_tm(t3).tipe == TokenType::Comma && t3.len() > 0 {
                    t3.skip(1)
                } else {
                    t3
                };
                spec_members(t4, acc.push((ms[0].text, ms[2].text)))
            }
        } else {
            None
        }
    } else {
        None
    }
}

/// `StructName { members }` after the `struct` keyword.
pub open spec fn spec_struct_decl(ms: Seq<TokenModel>) -> Option<(ExprModel, Seq<TokenModel>)> {
    if head_tm(ms).tipe == TokenType::StructIdentifier && ms.len() > 0 {
        let name = ms[0].text;
        let t1 = ms.skip(1);
        if head_tm(t1).tipe == TokenType::LBrace && t1.len() > 0 {
            match spec_members(t1.skip(1), Seq::empty()) {
                Some((mems, t2)) => if head_tm(t2).tipe == TokenType::RBrace && t2.len() > 0 {
                    Some((ExprModel::StructM(name, mems), t2.skip(1)))
                } else {
                    None
                },
                None => None,
            }
        } else {
            None
        }
    } else {
        None
    }
}

/// First index of `k` among the model pairs at or after `i`, or -1.
pub open spec fn model_key_idx(m: Seq<(Seq<char>, Seq<char>)>, k: Seq<char>, i: int) -> int
    decreases m.len() - i,
{
    if i < 0 || i >= m.len() {
        -1
    } else if m[i].0 == k {
        i
    } else {
        model_key_idx(m, k, i + 1)
    }
}

/// Binding `k` to `v`: overwrite the first entry with that name, else
/// append.
pub open spec fn insert_pair(m: Seq<(Seq<char>, Seq<char>)>, k: Seq<char>, v: Seq<char>) -> Seq<
    (Seq<char>, Seq<char>),
> {
    let i = model_key_idx(m, k, 0);
    if i < 0 {
        m.push((k, v))
    } else {
        m.update(i, (k, v))
    }
}

/// The `, name : TypeName` continuation run of a named argument list; a
/// repeated name overwrites its entry.
pub open spec fn spec_named_args(ms: Seq<TokenModel>, acc: Seq<(Seq<char>, Seq<char>)>) -> Option<
    (Seq<(Seq<char>, Seq<char>)>, Seq<TokenModel>),
>
    decreases ms.len(),
{
    if head_tm(ms).tipe == TokenType::Comma && ms.len() > 0 {
        if ms.len() >= 2 && ms[1].tipe == TokenType::Identifier {
            if ms.len() >= 3 && ms[2].tipe == TokenType::Colon {
                if ms.len() >= 4 && ms[3].tipe == TokenType::StructIdentifier {
                    spec_named_args(ms.skip(4), insert_pair(acc, ms[1].text, ms[3].text))
                } else {
                    None
                }
            } else {
                None
            }
        } else {
            None
        }
    } else {
        Some((acc, ms))
    }
}

/// The shared shape of message and call declarations, after the keyword:
/// the owning struct, the bracketed argument list (one bare name, or
/// `name : TypeName` pairs once a colon follows the first name), an
/// optional `-> TypeName`, and the braced body.
pub open spec fn spec_message_like(
    ptab: Seq<(TokenType, PrefixParslet)>,
    itab: Seq<(TokenType, InfixParslet)>,
    ms: Seq<TokenModel>,
) -> Option<((int, Seq<char>, ArgsModel, Seq<ExprModel>, Option<Seq<char>>), Seq<TokenModel>)>
    decreases ms.len(), 6int,
{
    if head_tm(ms).tipe == TokenType::StructIdentifier && ms.len() > 0 {
        let ln = ms[0].line;
        let bs = ms[0].text;
        let t1 = ms.skip(1);
        if head_tm(t1).tipe == TokenType::LBracket && t1.len() > 0 {
            let t2 = t1.skip(1);
            if head_tm(t2).tipe == TokenType::Identifier && t2.len() > 0 {
                let nm = t2[0].text;
                let t3 = t2.skip(1);
                if head_tm(t3).tipe == TokenType::Colon && t3.len() > 0 {
                    let t4 = t3.skip(1);
                    if head_tm(t4).tipe == TokenType::StructIdentifier && t4.len() > 0 {
                        match spec_named_args(t4.skip(1), insert_pair(Seq::empty(), nm, t4[0].text)) {
                            Some((am, t5)) => if t5.len() < ms.len() {
                                spec_decl_tail(ptab, itab, ln, bs, ArgsModel::NamedM(am), t5)
                            } else {
                                None
                            },
                            None => None,
                        }
                    } else {
                        None
                    }
                } else {
                    spec_decl_tail(ptab, itab, ln, bs, ArgsModel::UnaryM(nm), t3)
                }
            } else {
                None
            }
        } else {
            None
        }
    } else {
        None
    }
}

/// The `] [-> TypeName] { block }` tail of a message or call declaration.
pub open spec fn spec_decl_tail(
    ptab: Seq<(TokenType, PrefixParslet)>,
    itab: Seq<(TokenType, InfixParslet)>,
    ln: int,
    bs: Seq<char>,
    am: ArgsModel,
    ms: Seq<TokenModel>,
) -> Option<((int, Seq<char>, ArgsModel, Seq<ExprModel>, Option<Seq<char>>), Seq<TokenModel>)>
    decreases ms.len(), 5int,
{
    if head_tm(ms).tipe == TokenType::RBracket && ms.len() > 0 {
        let t1 = ms.skip(1);
        if head_tm(t1).tipe == TokenType::Arrow && t1.len() > 0 {
            if t1.len() >= 2 && t1[1].tipe == TokenType::StructIdentifier {
                spec_decl_body(ptab, itab, ln, bs, am, Some(t1[1].text), t1.skip(2))
            } else {
                None
            }
        } else {
            spec_decl_body(ptab, itab, ln, bs, am, None, t1)
        }
    } else {
        None
    }
}

/// The `{ block }` body of a message or call declaration.
pub open spec fn spec_decl_body(
    ptab: Seq<(TokenType, PrefixParslet)>,
    itab: Seq<(TokenType, InfixParslet)>,
    ln: int,
    bs: Seq<char>,
    am: ArgsModel,
    ret: Option<Seq<char>>,
    ms: Seq<TokenModel>,
) -> Option<((int, Seq<char>, ArgsModel, Seq<ExprModel>, Option<Seq<char>>), Seq<TokenModel>)>
    decreases ms.len(), 6int,
{
    if head_tm(ms).tipe == TokenType::LBrace && ms.len() > 0 {
        match spec_block(ptab, itab, ms.skip(1), Seq::empty()) {
            Some((body, t2)) => if head_tm(t2).tipe == TokenType::RBrace && t2.len() > 0 {
                Some(((ln, bs, am, body, ret), t2.skip(1)))
            } else {
                None
            },
            None => None,
        }
    } else {
        None
    }
}

/// `{ block }` after the main keyword.
pub open spec fn spec_main(
    ptab: Seq<(TokenType, PrefixParslet)>,
    itab: Seq<(TokenType, InfixParslet)>,
    ms: Seq<TokenModel>,
) -> Option<(ExprModel, Seq<TokenModel>)>
    decreases ms.len(), 6int,
{
    if head_tm(ms).tipe == TokenType::LBrace && ms.len() > 0 {
        let ln = ms[0].line;
        match spec_block(ptab, itab, ms.skip(1), Seq::empty()) {
            Some((body, t2)) => if head_tm(t2).tipe == TokenType::RBrace && t2.len() > 0 {
                Some((ExprModel::MainM(ln, body), t2.skip(1)))
            } else {
                None
            },
            None => None,
        }
    } else {
        None
    }
}

/// The whole top level: declarations dispatched on the leading token —
/// `call` and `main` recognized contextually as identifiers — until no
/// tokens remain.
pub open spec fn spec_top(
    ptab: Seq<(TokenType, PrefixParslet)>,
    itab: Seq<(TokenType, InfixParslet)>,
    ms: Seq<TokenModel>,
    acc: Seq<ExprModel>,
) -> Option<Seq<ExprModel>>
    decreases ms.len(), 7int,
{
    if ms.len() == 0 {
        Some(acc)
    } else {
        let tm = ms[0];
        let t1 = ms.skip(1);
        let sub: Option<(ExprModel, Seq<TokenModel>)> = if tm.tipe == TokenType::Module {
            match module_name_parse(t1) {
                Some(p) => Some((ExprModel::ModuleM(p.0), t1.skip(p.1))),
                None => None,
            }
        } else if tm.tipe == TokenType::Struct {
            spec_struct_decl(t1)
        } else if tm.tipe == TokenType::Message {
            match spec_message_like(ptab, itab, t1) {
                Some((t5, rem)) => Some(
                    (ExprModel::MessageDeclM(t5.0, t5.1, t5.2, t5.3, t5.4), rem),
                ),
                None => None,
            }
        } else if tm.tipe == TokenType::Call {
            match spec_message_like(ptab, itab, t1) {
                Some((t5, rem)) => Some((ExprModel::CallDeclM(t5.0, t5.1, t5.2, t5.3, t5.4), rem)),
                None => None,
            }
        } else if tm.tipe == TokenType::Main {
            spec_main(ptab, itab, t1)
        } else if tm.tipe == TokenType::Identifier && tm.text == "call"@ {
            match spec_message_like(ptab, itab, t1) {
                Some((t5, rem)) => Some((ExprModel::CallDeclM(t5.0, t5.1, t5.2, t5.3, t5.4), rem)),
                None => None,
            }
        } else if tm.tipe == TokenType::Identifier && tm.text == "main"@ {
            spec_main(ptab, itab, t1)
        } else {
            None
        };
        match sub {
            Some((m, rem)) => if rem.len() < ms.len() {
                spec_top(ptab, itab, rem, acc.push(m))
            } else {
                None
            },
            None => None,
        }
    }
}

fn find_key<T>(m: &Vec<(String, T)>, k: &String) -> (r: Option<usize>)
    ensures
        match r {
            Some(i) => (i as int) < m@.len() && m@[i as int].0@ == k@ && (forall|j: int|
                0 <= j < i ==> (#[trigger] m@[j]).0@ != k@),
            None => !crate::ast::has_key(m@, k@),
        },
{
    let mut i: usize = 0;
    while i < m.len()
        invariant
            i <= m@.len(),
            forall|j: int| 0 <= j < i ==> (#[trigger] m@[j]).0@ != k@,
        decreases m@.len() - i,
    {
        if *k == m[i].0 {
            return Some(i);
        }
        i += 1;
    }
    None
}

proof fn lemma_model_key_idx(mm: Seq<(Seq<char>, Seq<char>)>, k: Seq<char>, i: int)
    requires
        0 <= i <= mm.len(),
    ensures
        model_key_idx(mm, k, i) >= 0 ==> i <= model_key_idx(mm, k, i) < mm.len() && mm[model_key_idx(
            mm,
            k,
            i,
        )].0 == k && (forall|j: int| i <= j < model_key_idx(mm, k, i) ==> mm[j].0 != k),
        model_key_idx(mm, k, i) < 0 ==> forall|j: int| i <= j < mm.len() ==> mm[j].0 != k,
    decreases mm.len() - i,
{
    if i < mm.len() && mm[i].0 != k {
        lemma_model_key_idx(mm, k, i + 1);
    }
}

/// Binds `k` to `v`: overwrites the value of an existing entry with the
/// same name, else appends a new entry — exactly `insert_pair` on the
/// model.
fn map_insert(m: &mut Vec<(String, String)>, k: String, v: String)
    requires
        distinct_keys(old(m)@),
    ensures
        distinct_keys(final(m)@),
        forall|mm: Seq<(Seq<char>, Seq<char>)>| #[trigger] kv_text_match(old(m)@, mm)
            ==> kv_text_match(final(m)@, insert_pair(mm, k@, v@)),
{
    let ghost m0 = m@;
    match find_key(m, &k) {
        Some(i) => {
            let ghost kv = k@;
            let ghost vv = v@;
            let _ = m.remove(i);
            m.insert(i, (k, v));
            proof {
                assert(m@ =~= m0.update(i as int, m@[i as int]));
                assert(m@[i as int].0@ == kv && m@[i as int].1@ == vv);
                assert forall|a: int, b: int| 0 <= a < b < m@.len() implies (#[trigger] m@[a]).0@
                    != (#[trigger] m@[b]).0@ by {
                    assert(m@[a].0@ == m0[a].0@);
                    assert(m@[b].0@ == m0[b].0@);
                }
                assert forall|mm: Seq<(Seq<char>, Seq<char>)>| #[trigger] kv_text_match(m0, mm)
                    implies kv_text_match(m@, insert_pair(mm, kv, vv)) by {
                    lemma_model_key_idx(mm, kv, 0);
                    assert(mm[i as int].0 == m0[i as int].0@);
                    assert(model_key_idx(mm, kv, 0) == i as int) by {
                        if model_key_idx(mm, kv, 0) < 0 {
                            assert(mm[i as int].0 != kv);
                        } else {
                            let x = model_key_idx(mm, kv, 0);
                            if x < i as int {
                                assert(m0[x].0@ == mm[x].0);
                            }
                            if x > i as int {
                                assert(mm[i as int].0 != kv);
                            }
                        }
                    }
                    let mm2 = insert_pair(mm, kv, vv);
                    assert(mm2 == mm.update(i as int, (kv, vv)));
                    assert forall|j: int| 0 <= j < m@.len() implies (#[trigger] m@[j]).0@
                        == mm2[j].0 && m@[j].1@ == mm2[j].1 by {
                        if j != i as int {
                            assert(m@[j] == m0[j]);
                            assert(mm2[j] == mm[j]);
                        }
                    }
                }
            }
        },
        None => {
            let ghost kk = k;
            let ghost vv = v;
            m.push((k, v));
            proof {
                crate::ast::lemma_distinct_push(m0, kk, vv);
                assert forall|mm: Seq<(Seq<char>, Seq<char>)>| #[trigger] kv_text_match(m0, mm)
                    implies kv_text_match(m@, insert_pair(mm, kk@, vv@)) by {
                    lemma_model_key_idx(mm, kk@, 0);
                    assert(model_key_idx(mm, kk@, 0) < 0) by {
                        let x = model_key_idx(mm, kk@, 0);
                        if x >= 0 {
                            assert(m0[x].0@ == mm[x].0);
                            assert(crate::ast::has_key(m0, kk@));
                        }
                    }
                    let mm2 = insert_pair(mm, kk@, vv@);
                    assert(mm2 == mm.push((kk@, vv@)));
                    assert forall|j: int| 0 <= j < m@.len() implies (#[trigger] m@[j]).0@
                        == mm2[j].0 && m@[j].1@ == mm2[j].1 by {
                        if j < m0.len() {
                            assert(m@[j] == m0[j]);
                            assert(mm2[j] == mm[j]);
                        } else {
                            assert(m@[j] == (kk, vv));
                            assert(mm2[j] == (kk@, vv@));
                        }
                    }
                }
            }
        },
    }
}

impl Parser {
    /// Parses one or more dot-joined struct identifiers into a module
    /// declaration; the result is exactly `module_name_parse` of the
    /// remaining token models.
    #[verifier::loop_isolation(false)]
    fn parse_module_declaration(&mut self) -> (r: Result<Expression, ParseError>)
        requires
            old(self).wf(),
        ensures
            final(self).wf(),
            Parser::same_env(*old(self), *final(self)),
            final(self).tokens().len() <= old(self).tokens().len(),
            match module_name_parse(models_of(old(self).tokens())) {
                Some(p) => r matches Ok(e) && (e matches Expression::ModuleDeclaration(nm) && nm@
                    == p.0) && final(self).tokens() == old(self).tokens().skip(p.1) && 0 <= p.1
                    <= old(self).tokens().len(),
                None => r is Err,
            },
    {
        proof {
            lemma_head_tm(old(self).tokens());
        }
        let tok0 = match self.consume_type(TokenType::StructIdentifier) {
            Ok(t) => t,
            Err(e) => {
                return Err(e);
            },
        };
        let mut string = tok0.get_string();
        let ghost mut consumed: int = 1;
        proof {
            assert(self.tokens() =~= old(self).tokens().skip(1));
            lemma_models_skip(old(self).tokens(), 1);
            assert(models_of(old(self).tokens())[0] == old(self).tokens()[0]@);
        }
        let mut more = self.head_is(TokenType::Period);
        while more
            invariant
                self.wf(),
                Parser::same_env(*old(self), *self),
                1 <= consumed <= old(self).tokens().len(),
                self.tokens() == old(self).tokens().skip(consumed),
                more == (self.head_model().tipe == TokenType::Period),
                match module_name_more(models_of(self.tokens())) {
                    Some(p2) => module_name_parse(models_of(old(self).tokens())) == Some(
                        (string@ + p2.0, consumed + p2.1),
                    ),
                    None => module_name_parse(models_of(old(self).tokens())) is None,
                },
            decreases self.tokens().len(),
        {
            let ghost at_loop = self.tokens();
            let ghost m_at = models_of(at_loop);
            proof {
                lemma_head_tm(at_loop);
                assert(m_at.len() >= 1 && m_at[0].tipe == TokenType::Period);
            }
            let _ = self.match_type(TokenType::Period);
            proof {
                lemma_models_skip(at_loop, 1);
                lemma_head_tm(self.tokens());
            }
            let tok = match self.consume_type(TokenType::StructIdentifier) {
                Ok(t) => t,
                Err(e) => {
                    proof {
                        if m_at.len() >= 2 {
                            assert(m_at[1] == at_loop[1]@);
                            assert(m_at.skip(1)[0] == m_at[1]);
                        }
                        assert(module_name_more(m_at) is None);
                    }
                    return Err(e);
                },
            };
            proof {
                consumed = consumed + 2;
                assert(self.tokens() =~= at_loop.skip(2));
                assert(self.tokens() =~= old(self).tokens().skip(consumed));
                lemma_models_skip(at_loop, 2);
                assert(m_at.len() >= 2 && m_at[1].tipe == TokenType::StructIdentifier) by {
                    assert(m_at.skip(1)[0] == m_at[1]);
                    assert(m_at[1] == at_loop[1]@);
                }
                assert(m_at[1].text == tok@.text) by {
                    assert(at_loop.skip(1)[0] == at_loop[1]);
                }
            }
            string.append(".");
            let seg = tok.get_string();
            string.append(seg.as_str());
            proof {
                reveal_strlit(".");
                assert("."@ =~= seq!['.']);
            }
            more = self.head_is(TokenType::Period);
        }
        proof {
            lemma_head_tm(self.tokens());
            assert(module_name_more(models_of(self.tokens())) == Some(
                (Seq::<char>::empty(), 0int),
            ));
            assert(string@ + Seq::<char>::empty() =~= string@);
            assert(old(self).tokens().skip(consumed + 0) =~= self.tokens());
        }
        Ok(Expression::ModuleDeclaration(string))
    }

    /// Parses `name : TypeName` — succeeding exactly on that token shape —
    /// and appends it to the member list unless the name is already
    /// present; returns the name token and whether it was.
    fn parse_idtype_and_add(&mut self, hshmap: &mut Vec<(String, String)>) -> (r: Result<
        (Token, bool),
        ParseError,
    >)
        requires
            old(self).wf(),
        ensures
            final(self).wf(),
            Parser::same_env(*old(self), *final(self)),
            final(self).tokens().len() <= old(self).tokens().len(),
            match r {
                Ok(p) => {
                    &&& final(self).tokens().len() < old(self).tokens().len()
                    &&& p.1 == crate::ast::has_key(old(hshmap)@, p.0@.text)
                    &&& (p.1 ==> final(hshmap)@ == old(hshmap)@)
                    &&& (!p.1 ==> {
                        &&& final(hshmap)@.len() == old(hshmap)@.len() + 1
                        &&& final(hshmap)@.take(old(hshmap)@.len() as int) == old(hshmap)@
                        &&& final(hshmap)@.last().0@ == p.0@.text
                    })
                },
                Err(_) => final(hshmap)@ == old(hshmap)@,
            },
            r is Ok <==> (models_of(old(self).tokens()).len() >= 3 && models_of(
                old(self).tokens(),
            )[0].tipe == TokenType::Identifier && models_of(old(self).tokens())[1].tipe
                == TokenType::Colon && models_of(old(self).tokens())[2].tipe
                == TokenType::StructIdentifier),
            r matches Ok(p) ==> {
                &&& models_of(final(self).tokens()) == models_of(old(self).tokens()).skip(3)
                &&& p.0@.text == models_of(old(self).tokens())[0].text
                &&& (!p.1 ==> {
                    &&& final(hshmap)@.last().0@ == models_of(old(self).tokens())[0].text
                    &&& final(hshmap)@.last().1@ == models_of(old(self).tokens())[2].text
                })
            },
    {
        let ghost ms0 = models_of(old(self).tokens());
        proof {
            lemma_head_tm(old(self).tokens());
        }
        let name = match self.consume_type(TokenType::Identifier) {
            Ok(t) => t,
            Err(e) => {
                return Err(e);
            },
        };
        proof {
            lemma_models_skip(old(self).tokens(), 1);
            assert(models_of(self.tokens()) == ms0.skip(1));
            lemma_head_tm(self.tokens());
            assert(self.tokens().len() >= 1 ==> ms0.skip(1)[0] == ms0[1]);
        }
        match self.consume_type(TokenType::Colon) {
            Ok(_) => (),
            Err(e) => {
                return Err(e);
            },
        }
        proof {
            lemma_models_skip(old(self).tokens().skip(1), 1);
            assert(old(self).tokens().skip(1).skip(1) =~= old(self).tokens().skip(2));
            assert(models_of(self.tokens()) =~= ms0.skip(2));
            lemma_head_tm(self.tokens());
            assert(self.tokens().len() >= 1 ==> ms0.skip(2)[0] == ms0[2]);
        }
        let typ = match self.consume_type(TokenType::StructIdentifier) {
            Ok(t) => t,
            Err(e) => {
                return Err(e);
            },
        };
        proof {
            lemma_models_skip(old(self).tokens().skip(2), 1);
            assert(old(self).tokens().skip(2).skip(1) =~= old(self).tokens().skip(3));
            assert(models_of(self.tokens()) =~= ms0.skip(3));
        }
        let ks = name.get_string();
        let pe = key_present(hshmap, &ks);
        if !pe {
            hshmap.push((ks, typ.get_string()));
            proof {
                assert(hshmap@.take(hshmap@.len() - 1) =~= old(hshmap)@);
            }
        }
        Ok((name, pe))
    }

    /// Parses `StructName { name : TypeName , ... }` — exactly
    /// `spec_struct_decl` of the remaining tokens — into a struct
    /// declaration whose member names are distinct; a repeated member name
    /// is fatal.
    #[verifier::loop_isolation(false)]
    fn parse_struct_declaration(&mut self) -> (r: Result<Expression, ParseError>)
        requires
            old(self).wf(),
        ensures
            final(self).wf(),
            Parser::same_env(*old(self), *final(self)),
            final(self).tokens().len() <= old(self).tokens().len(),
            r matches Ok(e) ==> ((e matches Expression::StructDeclaration { name, members }
                && distinct_keys(members@) && name@ == old(self).tokens()[0]@.text) && old(
                self,
            ).tokens().len() > 0 && old(self).tokens()[0]@.tipe == TokenType::StructIdentifier),
            match spec_struct_decl(models_of(old(self).tokens())) {
                Some((m, rem)) => r matches Ok(e) && expr_matches(e, m) && models_of(
                    final(self).tokens(),
                ) == rem,
                None => r is Err,
            },
    {
        let ghost ms0 = models_of(old(self).tokens());
        proof {
            lemma_head_tm(old(self).tokens());
        }
        let sname = match self.consume_type(TokenType::StructIdentifier) {
            Ok(t) => t,
            Err(e) => {
                return Err(e);
            },
        };
        proof {
            lemma_models_skip(old(self).tokens(), 1);
            assert(models_of(self.tokens()) == ms0.skip(1));
            assert(ms0[0] == old(self).tokens()[0]@);
        }
        let ghost name_text = sname@.text;
        let ghost t1 = models_of(self.tokens());
        let ghost toks_t1 = self.tokens();
        proof {
            lemma_head_tm(toks_t1);
        }
        match self.consume_type(TokenType::LBrace) {
            Ok(_) => (),
            Err(e) => {
                return Err(e);
            },
        }
        proof {
            lemma_models_skip(toks_t1, 1);
            assert(models_of(self.tokens()) == t1.skip(1));
        }
        let mut members: Vec<(String, String)> = Vec::new();
        let ghost mut acc_m: Seq<(Seq<char>, Seq<char>)> = Seq::empty();
        proof {
            lemma_head_tm(self.tokens());
            assert(kv_text_match(members@, acc_m));
        }
        let mut more = self.head_is(TokenType::Identifier);
        while more
            invariant
                self.wf(),
                Parser::same_env(*old(self), *self),
                self.tokens().len() < old(self).tokens().len(),
                distinct_keys(members@),
                kv_text_match(members@, acc_m),
                more == (self.head_model().tipe == TokenType::Identifier),
                match spec_members(models_of(self.tokens()), acc_m) {
                    Some((mm, rem)) => spec_struct_decl(ms0) == (if head_tm(rem).tipe
                        == TokenType::RBrace && rem.len() > 0 {
                        Some((ExprModel::StructM(name_text, mm), rem.skip(1)))
                    } else {
                        None::<(ExprModel, Seq<TokenModel>)>
                    }),
                    None => spec_struct_decl(ms0) is None,
                },
            decreases self.tokens().len(),
        {
            let ghost cur = self.tokens();
            let ghost mcur = models_of(cur);
            let ghost mem0 = members@;
            let ghost acc0 = acc_m;
            proof {
                lemma_head_tm(cur);
            }
            let res = self.parse_idtype_and_add(&mut members);
            match res {
                Ok(p) => {
                    proof {
                        // Duplicate names agree between the list and its model.
                        assert(crate::ast::has_key(mem0, p.0@.text) == has_model_key(
                            acc0,
                            mcur[0].text,
                        )) by {
                            if crate::ast::has_key(mem0, p.0@.text) {
                                let i = choose|i: int|
                                    0 <= i < mem0.len() && (#[trigger] mem0[i]).0@ == p.0@.text;
                                assert(acc0[i].0 == mcur[0].text);
                            }
                            if has_model_key(acc0, mcur[0].text) {
                                let i = choose|i: int|
                                    0 <= i < acc0.len() && (#[trigger] acc0[i]).0
                                        == mcur[0].text;
                                assert(mem0[i].0@ == p.0@.text);
                            }
                        }
                    }
                    if p.1 {
                        return Err(
                            self.error(
                                p.0.get_line(),
                                ParseErrorKind::DuplicateName(p.0.get_string()),
                            ),
                        );
                    }
                    proof {
                        assert(members@ =~= mem0.push(members@.last()));
                        crate::ast::lemma_distinct_push(mem0, members@.last().0, members@.last().1);
                        acc_m = acc0.push((mcur[0].text, mcur[2].text));
                        assert(kv_text_match(members@, acc_m)) by {
                            assert forall|i: int| 0 <= i < members@.len() implies (
                            #[trigger] members@[i]).0@ == acc_m[i].0 && members@[i].1@
                                == acc_m[i].1 by {
                                if i < mem0.len() {
                                    assert(members@[i] == mem0[i]);
                                    assert(acc_m[i] == acc0[i]);
                                }
                            }
                        }
                    }
                },
                Err(e) => {
                    return Err(e);
                },
            }
            let ghost t2 = models_of(self.tokens());
            let ghost toks_t2 = self.tokens();
            proof {
                lemma_head_tm(toks_t2);
            }
            let _ = self.match_type(TokenType::Comma);
            proof {
                if toks_t2.len() > 0 && head_tm(t2).tipe == TokenType::Comma {
                    lemma_models_skip(toks_t2, 1);
                }
                assert(models_of(self.tokens()) == (if head_tm(t2).tipe == TokenType::Comma
                    && t2.len() > 0 {
                    t2.skip(1)
                } else {
                    t2
                }));
            }
            more = self.head_is(TokenType::Identifier);
        }
        proof {
            lemma_head_tm(self.tokens());
            assert(spec_members(models_of(self.tokens()), acc_m) == Some(
                (acc_m, models_of(self.tokens())),
            ));
        }
        let ghost t3 = models_of(self.tokens());
        let ghost toks_t3 = self.tokens();
        match self.consume_type(TokenType::RBrace) {
            Ok(_) => (),
            Err(e) => {
                return Err(e);
            },
        }
        proof {
            lemma_models_skip(toks_t3, 1);
            assert(models_of(self.tokens()) == t3.skip(1));
        }
        let e = Expression::StructDeclaration { name: sname.get_string(), members };
        proof {
            assert(expr_matches(e, ExprModel::StructM(name_text, acc_m)));
        }
        Ok(e)
    }

    /// Parses the `, name : TypeName` continuation run of a named argument
    /// list — exactly `spec_named_args` continuing from the entries modeled
    /// by `acc0`.
    #[verifier::loop_isolation(false)]
    fn parse_named_args(
        &mut self,
        args_map: &mut Vec<(String, String)>,
        acc0: Ghost<Seq<(Seq<char>, Seq<char>)>>,
    ) -> (r: Result<(), ParseError>)
        requires
            old(self).wf(),
            distinct_keys(old(args_map)@),
            kv_text_match(old(args_map)@, acc0@),
        ensures
            final(self).wf(),
            Parser::same_env(*old(self), *final(self)),
            final(self).tokens().len() <= old(self).tokens().len(),
            match spec_named_args(models_of(old(self).tokens()), acc0@) {
                Some((am, rem)) => r is Ok && distinct_keys(final(args_map)@) && kv_text_match(
                    final(args_map)@,
                    am,
                ) && models_of(final(self).tokens()) == rem && head_tm(rem).tipe
                    != TokenType::Comma,
                None => r is Err,
            },
    {
        let ghost mut acc_m = acc0@;
        proof {
            lemma_head_tm(self.tokens());
        }
        let mut more = self.head_is(TokenType::Comma);
        while more
            invariant
                self.wf(),
                Parser::same_env(*old(self), *self),
                self.tokens().len() <= old(self).tokens().len(),
                distinct_keys(args_map@),
                kv_text_match(args_map@, acc_m),
                more == (self.head_model().tipe == TokenType::Comma),
                match spec_named_args(models_of(self.tokens()), acc_m) {
                    Some((am, rem)) => spec_named_args(models_of(old(self).tokens()), acc0@)
                        == Some((am, rem)),
                    None => spec_named_args(models_of(old(self).tokens()), acc0@) is None,
                },
            decreases self.tokens().len(),
        {
            let ghost cur = self.tokens();
            let ghost mcur = models_of(cur);
            let ghost acc_at = acc_m;
            proof {
                lemma_head_tm(cur);
            }
            let _ = self.match_type(TokenType::Comma);
            proof {
                lemma_models_skip(cur, 1);
                assert(models_of(self.tokens()) == mcur.skip(1));
                lemma_head_tm(self.tokens());
                assert(self.tokens().len() >= 1 ==> mcur.skip(1)[0] == mcur[1]);
            }
            let nm = match self.consume_type(TokenType::Identifier) {
                Ok(t) => t,
                Err(e) => {
                    return Err(e);
                },
            };
            proof {
                lemma_models_skip(cur.skip(1), 1);
                assert(cur.skip(1).skip(1) =~= cur.skip(2));
                assert(models_of(self.tokens()) =~= mcur.skip(2));
                lemma_head_tm(self.tokens());
                assert(self.tokens().len() >= 1 ==> mcur.skip(2)[0] == mcur[2]);
            }
            match self.consume_type(TokenType::Colon) {
                Ok(_) => (),
                Err(e) => {
                    return Err(e);
                },
            }
            proof {
                lemma_models_skip(cur.skip(2), 1);
                assert(cur.skip(2).skip(1) =~= cur.skip(3));
                assert(models_of(self.tokens()) =~= mcur.skip(3));
                lemma_head_tm(self.tokens());
                assert(self.tokens().len() >= 1 ==> mcur.skip(3)[0] == mcur[3]);
            }
            let ty = match self.consume_type(TokenType::StructIdentifier) {
                Ok(t) => t,
                Err(e) => {
                    return Err(e);
                },
            };
            proof {
                lemma_models_skip(cur.skip(3), 1);
                assert(cur.skip(3).skip(1) =~= cur.skip(4));
                assert(models_of(self.tokens()) =~= mcur.skip(4));
            }
            map_insert(args_map, nm.get_string(), ty.get_string());
            proof {
                acc_m = insert_pair(acc_at, mcur[1].text, mcur[3].text);
                assert(kv_text_match(args_map@, acc_m));
            }
            more = self.head_is(TokenType::Comma);
        }
        proof {
            lemma_head_tm(self.tokens());
            assert(spec_named_args(models_of(self.tokens()), acc_m) == Some(
                (acc_m, models_of(self.tokens())),
            ));
        }
        Ok(())
    }

    /// Parses the shared shape of message and call declarations — exactly
    /// `spec_message_like` of the remaining tokens: the owning struct, the
    /// bracketed argument list (one bare name, or `name : TypeName` pairs
    /// once a colon follows the first name), an optional `-> TypeName`
    /// return annotation, and the braced body.
    #[verifier::loop_isolation(false)]
    #[verifier::rlimit(100)]
    fn parse_message_like_declaration(&mut self) -> (r: Result<
        (i32, String, MessageArgs, Vec<Expression>, Option<String>),
        ParseError,
    >)
        requires
            old(self).wf(),
        ensures
            final(self).wf(),
            Parser::same_env(*old(self), *final(self)),
            final(self).tokens().len() <= old(self).tokens().len(),
            r matches Ok(t) ==> {
                &&& old(self).tokens().len() >= 4
                &&& old(self).tokens()[0]@.tipe == TokenType::StructIdentifier
                &&& old(self).tokens()[1]@.tipe == TokenType::LBracket
                &&& old(self).tokens()[2]@.tipe == TokenType::Identifier
                &&& t.0 as int == old(self).tokens()[0]@.line
                &&& t.1@ == old(self).tokens()[0]@.text
                &&& ((t.2 matches MessageArgs::Unary(n)) <==> old(self).tokens()[3]@.tipe
                    != TokenType::Colon)
                &&& (t.2 matches MessageArgs::Unary(n) ==> n@ == old(self).tokens()[2]@.text)
                &&& (t.2 matches MessageArgs::Named(mm) ==> distinct_keys(mm@))
                &&& (forall|i: int| 0 <= i < t.3@.len() ==> is_block_item(#[trigger] t.3@[i]))
            },
            match spec_message_like(
                old(self).prefix_tab(),
                old(self).infix_tab(),
                models_of(old(self).tokens()),
            ) {
                Some((tm5, rem)) => r matches Ok(t) && t.0 as int == tm5.0 && t.1@ == tm5.1
                    && args_match(t.2, tm5.2) && exprs_match(t.3@, tm5.3) && opt_text_match(
                    t.4,
                    tm5.4,
                ) && models_of(final(self).tokens()) == rem,
                None => r is Err,
            },
    {
        let ghost ptab = old(self).prefix_tab();
        let ghost itab = old(self).infix_tab();
        let ghost ms0 = models_of(old(self).tokens());
        proof {
            lemma_head_tm(old(self).tokens());
        }
        let tstruct = match self.consume_type(TokenType::StructIdentifier) {
            Ok(t) => t,
            Err(e) => {
                return Err(e);
            },
        };
        proof {
            lemma_models_skip(old(self).tokens(), 1);
            assert(models_of(self.tokens()) == ms0.skip(1));
            assert(ms0[0] == old(self).tokens()[0]@);
            lemma_head_tm(self.tokens());
            assert(self.tokens().len() >= 1 ==> ms0.skip(1)[0] == ms0[1]);
        }
        let ghost ln0 = tstruct@.line;
        let ghost bs0 = tstruct@.text;
        match self.consume_type(TokenType::LBracket) {
            Ok(_) => (),
            Err(e) => {
                return Err(e);
            },
        }
        proof {
            lemma_models_skip(old(self).tokens().skip(1), 1);
            assert(old(self).tokens().skip(1).skip(1) =~= old(self).tokens().skip(2));
            assert(models_of(self.tokens()) =~= ms0.skip(2));
            lemma_head_tm(self.tokens());
            assert(self.tokens().len() >= 1 ==> ms0.skip(2)[0] == ms0[2]);
        }
        let name = match self.consume_type(TokenType::Identifier) {
            Ok(t) => t,
            Err(e) => {
                return Err(e);
            },
        };
        proof {
            lemma_models_skip(old(self).tokens().skip(2), 1);
            assert(old(self).tokens().skip(2).skip(1) =~= old(self).tokens().skip(3));
            assert(models_of(self.tokens()) =~= ms0.skip(3));
            assert(self.tokens() =~= old(self).tokens().skip(3));
        }
        let ghost nm0 = name@.text;
        let ghost t3m = models_of(self.tokens());
        let ghost toks_t3 = self.tokens();
        proof {
            lemma_head_tm(toks_t3);
        }
        let argname: MessageArgs;
        let ghost mut am_m: ArgsModel = ArgsModel::UnaryM(nm0);
        match self.match_type(TokenType::Colon) {
            Some(_) => {
                proof {
                    lemma_models_skip(toks_t3, 1);
                    assert(models_of(self.tokens()) == t3m.skip(1));
                    lemma_head_tm(self.tokens());
                }
                let ghost t4m = t3m.skip(1);
                let ghost toks_t4 = self.tokens();
                let ty0 = match self.consume_type(TokenType::StructIdentifier) {
                    Ok(t) => t,
                    Err(e) => {
                        return Err(e);
                    },
                };
                proof {
                    lemma_models_skip(toks_t4, 1);
                    assert(models_of(self.tokens()) == t4m.skip(1));
                }
                let mut args_map: Vec<(String, String)> = Vec::new();
                let ghost acc1: Seq<(Seq<char>, Seq<char>)> = insert_pair(
                    Seq::empty(),
                    nm0,
                    ty0@.text,
                );
                proof {
                    assert(kv_text_match(args_map@, Seq::empty()));
                }
                map_insert(&mut args_map, name.get_string(), ty0.get_string());
                proof {
                    assert(kv_text_match(args_map@, acc1));
                }
                match self.parse_named_args(&mut args_map, Ghost(acc1)) {
                    Ok(_) => (),
                    Err(e) => {
                        return Err(e);
                    },
                }
                let ghost acc_m = spec_named_args(t4m.skip(1), acc1)->Some_0.0;
                proof {
                    am_m = ArgsModel::NamedM(acc_m);
                }
                argname = MessageArgs::Named(args_map);
            },
            None => {
                proof {
                    am_m = ArgsModel::UnaryM(nm0);
                }
                argname = MessageArgs::Unary(name.get_string());
            },
        }
        proof {
            assert(spec_message_like(ptab, itab, ms0) == spec_decl_tail(
                ptab,
                itab,
                ln0,
                bs0,
                am_m,
                models_of(self.tokens()),
            ));
            lemma_head_tm(self.tokens());
        }
        let ghost trm = models_of(self.tokens());
        let ghost toks_tr = self.tokens();
        match self.consume_type(TokenType::RBracket) {
            Ok(_) => (),
            Err(e) => {
                return Err(e);
            },
        }
        proof {
            lemma_models_skip(toks_tr, 1);
            assert(models_of(self.tokens()) == trm.skip(1));
            lemma_head_tm(self.tokens());
            assert(self.tokens().len() >= 1 ==> trm.skip(1)[0] == trm[1]);
        }
        let ghost ta = models_of(self.tokens());
        let ghost toks_ta = self.tokens();
        let mut ret_type: Option<String> = None;
        let ghost mut ret_m: Option<Seq<char>> = None;
        match self.match_type(TokenType::Arrow) {
            Some(_) => {
                proof {
                    lemma_models_skip(toks_ta, 1);
                    assert(models_of(self.tokens()) == ta.skip(1));
                    lemma_head_tm(self.tokens());
                    assert(self.tokens().len() >= 1 ==> ta.skip(1)[0] == ta[1]);
                }
                let t = match self.consume_type(TokenType::StructIdentifier) {
                    Ok(t) => t,
                    Err(e) => {
                        return Err(e);
                    },
                };
                proof {
                    lemma_models_skip(toks_ta.skip(1), 1);
                    assert(toks_ta.skip(1).skip(1) =~= toks_ta.skip(2));
                    assert(models_of(self.tokens()) =~= ta.skip(2));
                    ret_m = Some(ta[1].text);
                    assert(toks_ta.skip(1)[0] == toks_ta[1]);
                    assert(ta[1] == toks_ta[1]@);
                }
                ret_type = Some(t.get_string());
            },
            None => {},
        }
        proof {
            assert(spec_message_like(ptab, itab, ms0) == spec_decl_body(
                ptab,
                itab,
                ln0,
                bs0,
                am_m,
                ret_m,
                models_of(self.tokens()),
            ));
            lemma_head_tm(self.tokens());
        }
        let ghost tb = models_of(self.tokens());
        let ghost toks_tb = self.tokens();
        match self.consume_type(TokenType::LBrace) {
            Ok(_) => (),
            Err(e) => {
                return Err(e);
            },
        }
        proof {
            lemma_models_skip(toks_tb, 1);
            assert(models_of(self.tokens()) == tb.skip(1));
        }
        let block = match self.parse_block() {
            Ok(b) => b,
            Err(e) => {
                return Err(e);
            },
        };
        let ghost sb = spec_block(ptab, itab, tb.skip(1), Seq::empty());
        proof {
            assert(sb is Some);
            lemma_head_tm(self.tokens());
        }
        let ghost tc = models_of(self.tokens());
        let ghost toks_tc = self.tokens();
        match self.consume_type(TokenType::RBrace) {
            Ok(_) => (),
            Err(e) => {
                return Err(e);
            },
        }
        proof {
            lemma_models_skip(toks_tc, 1);
            assert(models_of(self.tokens()) == tc.skip(1));
        }
        Ok((tstruct.get_line(), tstruct.get_string(), argname, block, ret_type))
    }

    /// Parses `StructName { name : expression , ... }`, the braces and
    /// initializers optional as a whole — exactly `spec_new_object` of the
    /// remaining tokens — into an object construction with distinct member
    /// names.
    #[verifier::loop_isolation(false)]
    fn parse_new_object(&mut self) -> (r: Result<Expression, ParseError>)
        requires
            old(self).wf(),
        ensures
            final(self).wf(),
            Parser::same_env(*old(self), *final(self)),
            final(self).tokens().len() <= old(self).tokens().len(),
            r matches Ok(e) ==> ((e matches Expression::NewObject { struct_type, members }
                && distinct_keys(members@)) && final(self).tokens().len() < old(
                self,
            ).tokens().len()),
            match spec_new_object(
                old(self).prefix_tab(),
                old(self).infix_tab(),
                models_of(old(self).tokens()),
            ) {
                Some((m, rem)) => r matches Ok(e) && expr_matches(e, m) && models_of(
                    final(self).tokens(),
                ) == rem,
                None => r is Err,
            },
    {
        let ghost ptab = old(self).prefix_tab();
        let ghost itab = old(self).infix_tab();
        let ghost ms0 = models_of(old(self).tokens());
        proof {
            lemma_head_tm(old(self).tokens());
        }
        let struct_name = match self.consume_type(TokenType::StructIdentifier) {
            Ok(t) => t,
            Err(e) => {
                return Err(e);
            },
        };
        proof {
            lemma_models_skip(old(self).tokens(), 1);
            assert(models_of(self.tokens()) == ms0.skip(1));
            assert(ms0[0] == old(self).tokens()[0]@);
        }
        let ghost st_text = struct_name@.text;
        let mut members: Vec<(String, Expression)> = Vec::new();
        let ghost mut acc_m: Seq<(Seq<char>, ExprModel)> = Seq::empty();
        let ghost t1 = models_of(self.tokens());
        let ghost toks_t1 = self.tokens();
        proof {
            lemma_head_tm(toks_t1);
            assert(kv_expr_match(members@, acc_m));
        }
        match self.match_type(TokenType::LBrace) {
            Some(_) => {
                proof {
                    lemma_models_skip(toks_t1, 1);
                    assert(models_of(self.tokens()) == t1.skip(1));
                    lemma_head_tm(self.tokens());
                    assert(kv_expr_match(members@, acc_m));
                }
                let mut more = self.head_is(TokenType::Identifier);
                while more
                    invariant
                        self.wf(),
                        Parser::same_env(*old(self), *self),
                        self.tokens().len() < old(self).tokens().len(),
                        distinct_keys(members@),
                        kv_expr_match(members@, acc_m),
                        more == (self.head_model().tipe == TokenType::Identifier),
                        match spec_send_args(ptab, itab, models_of(self.tokens()), acc_m) {
                            Some((am, rem)) => spec_new_object(ptab, itab, ms0) == (if head_tm(
                                rem,
                            ).tipe == TokenType::RBrace && rem.len() > 0 {
                                Some((ExprModel::NewObjectM(st_text, am), rem.skip(1)))
                            } else {
                                None::<(ExprModel, Seq<TokenModel>)>
                            }),
                            None => spec_new_object(ptab, itab, ms0) is None,
                        },
                    decreases self.tokens().len(),
                {
                    let ghost cur = self.tokens();
                    let ghost mcur = models_of(cur);
                    let ghost mem0 = members@;
                    let ghost acc0 = acc_m;
                    proof {
                        lemma_head_tm(cur);
                    }
                    let res = self.parse_idval_and_add(&mut members);
                    match res {
                        Ok(p) => {
                            proof {
                                assert(spec_idval(ptab, itab, mcur) is Some);
                                let pr = spec_idval(ptab, itab, mcur)->Some_0;
                                assert(crate::ast::has_key(mem0, p.0@.text) == has_model_key(
                                    acc0,
                                    pr.0.0,
                                )) by {
                                    if crate::ast::has_key(mem0, p.0@.text) {
                                        let i = choose|i: int|
                                            0 <= i < mem0.len() && (#[trigger] mem0[i]).0@
                                                == p.0@.text;
                                        assert(acc0[i].0 == pr.0.0);
                                    }
                                    if has_model_key(acc0, pr.0.0) {
                                        let i = choose|i: int|
                                            0 <= i < acc0.len() && (#[trigger] acc0[i]).0
                                                == pr.0.0;
                                        assert(mem0[i].0@ == p.0@.text);
                                    }
                                }
                            }
                            if p.1 {
                                return Err(
                                    self.error(
                                        p.0.get_line(),
                                        ParseErrorKind::DuplicateName(p.0.get_string()),
                                    ),
                                );
                            }
                            proof {
                                let pr = spec_idval(ptab, itab, mcur)->Some_0;
                                assert(members@ =~= mem0.push(members@.last()));
                                crate::ast::lemma_distinct_push(
                                    mem0,
                                    members@.last().0,
                                    members@.last().1,
                                );
                                acc_m = acc0.push(pr.0);
                                assert(kv_expr_match(members@, acc_m)) by {
                                    assert forall|i: int| 0 <= i < members@.len() implies (
                                    #[trigger] members@[i]).0@ == acc_m[i].0 && expr_matches(
                                        members@[i].1,
                                        acc_m[i].1,
                                    ) by {
                                        if i < mem0.len() {
                                            assert(members@[i] == mem0[i]);
                                            assert(acc_m[i] == acc0[i]);
                                        }
                                    }
                                }
                            }
                        },
                        Err(e) => {
                            return Err(e);
                        },
                    }
                    let ghost t2 = models_of(self.tokens());
                    let ghost toks_t2 = self.tokens();
                    proof {
                        lemma_head_tm(toks_t2);
                    }
                    let _ = self.match_type(TokenType::Comma);
                    proof {
                        if toks_t2.len() > 0 && head_tm(t2).tipe == TokenType::Comma {
                            lemma_models_skip(toks_t2, 1);
                        }
                        assert(models_of(self.tokens()) == (if head_tm(t2).tipe
                            == TokenType::Comma && t2.len() > 0 {
                            t2.skip(1)
                        } else {
                            t2
                        }));
                    }
                    more = self.head_is(TokenType::Identifier);
                }
                proof {
                    lemma_head_tm(self.tokens());
                    assert(spec_send_args(ptab, itab, models_of(self.tokens()), acc_m) == Some(
                        (acc_m, models_of(self.tokens())),
                    ));
                }
                let ghost t3 = models_of(self.tokens());
                let ghost toks_t3 = self.tokens();
                match self.consume_type(TokenType::RBrace) {
                    Ok(_) => (),
                    Err(e) => {
                        return Err(e);
                    },
                }
                proof {
                    lemma_models_skip(toks_t3, 1);
                    assert(models_of(self.tokens()) == t3.skip(1));
                }
            },
            None => {},
        }
        let e = Expression::NewObject { struct_type: struct_name.get_string(), members };
        proof {
            assert(expr_matches(e, ExprModel::NewObjectM(st_text, acc_m)));
        }
        Ok(e)
    }

    /// Parses a block — exactly `spec_block` of the remaining tokens: let
    /// statements, bracket-led sends and object constructions, up to the
    /// first token that starts none of these; a declaration keyword inside
    /// the block is fatal.
    #[verifier::loop_isolation(false)]
    fn parse_block(&mut self) -> (r: Result<Vec<Expression>, ParseError>)
        requires
            old(self).wf(),
        ensures
            final(self).wf(),
            Parser::same_env(*old(self), *final(self)),
            final(self).tokens().len() <= old(self).tokens().len(),
            r matches Ok(v) ==> (forall|i: int| 0 <= i < v@.len() ==> is_block_item(
                #[trigger] v@[i],
            )) && final(self).head_model().tipe != TokenType::Let && final(self).head_model().tipe
                != TokenType::LBracket && final(self).head_model().tipe
                != TokenType::StructIdentifier,
            match spec_block(
                old(self).prefix_tab(),
                old(self).infix_tab(),
                models_of(old(self).tokens()),
                Seq::empty(),
            ) {
                Some((bm, rem)) => r matches Ok(v) && exprs_match(v@, bm) && models_of(
                    final(self).tokens(),
                ) == rem,
                None => r is Err,
            },
    {
        let ghost ptab = old(self).prefix_tab();
        let ghost itab = old(self).infix_tab();
        let ghost ms0 = models_of(old(self).tokens());
        let mut block: Vec<Expression> = Vec::new();
        let ghost mut acc_m: Seq<ExprModel> = Seq::empty();
        let mut done = false;
        proof {
            assert(exprs_match(block@, acc_m));
        }
        while !done
            invariant
                self.wf(),
                Parser::same_env(*old(self), *self),
                self.tokens().len() <= old(self).tokens().len(),
                forall|i: int| 0 <= i < block@.len() ==> is_block_item(#[trigger] block@[i]),
                exprs_match(block@, acc_m),
                done ==> self.head_model().tipe != TokenType::Let && self.head_model().tipe
                    != TokenType::LBracket && self.head_model().tipe
                    != TokenType::StructIdentifier,
                match spec_block(ptab, itab, models_of(self.tokens()), acc_m) {
                    Some((bm, rem)) => spec_block(ptab, itab, ms0, Seq::empty()) == Some(
                        (bm, rem),
                    ),
                    None => spec_block(ptab, itab, ms0, Seq::empty()) is None,
                },
                done ==> spec_block(ptab, itab, models_of(self.tokens()), acc_m) == Some(
                    (acc_m, models_of(self.tokens())),
                ),
            decreases self.tokens().len(), (if done {
                0int
            } else {
                1int
            }),
        {
            let ghost cur = self.tokens();
            let ghost mcur = models_of(cur);
            let ghost blk0 = block@;
            let ghost acc0 = acc_m;
            proof {
                lemma_head_tm(cur);
            }
            let bt = self.look_ahead(0);
            match bt.get_type() {
                TokenType::Module | TokenType::Struct | TokenType::Message | TokenType::Call => {
                    return Err(self.error(bt.get_line(), ParseErrorKind::DeclarationInBlock));
                },
                TokenType::Let => {
                    match self.parse_let_statement() {
                        Ok(e) => {
                            proof {
                                let sres = spec_let(ptab, itab, mcur);
                                assert(sres is Some);
                                acc_m = acc0.push(sres->Some_0.0);
                            }
                            block.push(e);
                            proof {
                                assert(exprs_match(block@, acc_m)) by {
                                    assert forall|i: int| 0 <= i < block@.len() implies
                                        expr_matches(#[trigger] block@[i], acc_m[i]) by {
                                        if i < blk0.len() {
                                            assert(block@[i] == blk0[i]);
                                            assert(acc_m[i] == acc0[i]);
                                        }
                                    }
                                }
                            }
                        },
                        Err(e) => {
                            return Err(e);
                        },
                    }
                },
                TokenType::LBracket => {
                    match self.parse_message_call(true) {
                        Ok(e) => {
                            proof {
                                let sres = spec_message_call(ptab, itab, mcur, true);
                                assert(sres is Some);
                                acc_m = acc0.push(sres->Some_0.0);
                            }
                            block.push(e);
                            proof {
                                assert(exprs_match(block@, acc_m)) by {
                                    assert forall|i: int| 0 <= i < block@.len() implies
                                        expr_matches(#[trigger] block@[i], acc_m[i]) by {
                                        if i < blk0.len() {
                                            assert(block@[i] == blk0[i]);
                                            assert(acc_m[i] == acc0[i]);
                                        }
                                    }
                                }
                            }
                        },
                        Err(e) => {
                            return Err(e);
                        },
                    }
                },
                TokenType::StructIdentifier => {
                    match self.parse_new_object() {
                        Ok(e) => {
                            proof {
                                let sres = spec_new_object(ptab, itab, mcur);
                                assert(sres is Some);
                                acc_m = acc0.push(sres->Some_0.0);
                            }
                            block.push(e);
                            proof {
                                assert(exprs_match(block@, acc_m)) by {
                                    assert forall|i: int| 0 <= i < block@.len() implies
                                        expr_matches(#[trigger] block@[i], acc_m[i]) by {
                                        if i < blk0.len() {
                                            assert(block@[i] == blk0[i]);
                                            assert(acc_m[i] == acc0[i]);
                                        }
                                    }
                                }
                            }
                        },
                        Err(e) => {
                            return Err(e);
                        },
                    }
                },
                _ => {
                    done = true;
                },
            }
        }
        Ok(block)
    }

    /// Parses a message declaration: `spec_message_like` wrapped in the
    /// message node.
    fn parse_message_declaration(&mut self) -> (r: Result<Expression, ParseError>)
        requires
            old(self).wf(),
        ensures
            final(self).wf(),
            Parser::same_env(*old(self), *final(self)),
            final(self).tokens().len() <= old(self).tokens().len(),
            r matches Ok(e) ==> (e matches Expression::MessageDeclaration {
                line,
                bound_struct,
                args_or_name,
                body,
                ret_value,
            } && old(self).tokens().len() >= 4 && old(self).tokens()[0]@.tipe
                == TokenType::StructIdentifier && line as int == old(self).tokens()[0]@.line
                && bound_struct@ == old(self).tokens()[0]@.text && ((args_or_name
                matches MessageArgs::Unary(n)) <==> old(self).tokens()[3]@.tipe
                != TokenType::Colon)),
            match spec_message_like(
                old(self).prefix_tab(),
                old(self).infix_tab(),
                models_of(old(self).tokens()),
            ) {
                Some((tm5, rem)) => r matches Ok(e) && expr_matches(
                    e,
                    ExprModel::MessageDeclM(tm5.0, tm5.1, tm5.2, tm5.3, tm5.4),
                ) && models_of(final(self).tokens()) == rem,
                None => r is Err,
            },
    {
        let parts = match self.parse_message_like_declaration() {
            Ok(t) => t,
            Err(e) => {
                return Err(e);
            },
        };
        Ok(
            Expression::MessageDeclaration {
                line: parts.0,
                bound_struct: parts.1,
                args_or_name: parts.2,
                body: parts.3,
                ret_value: parts.4,
            },
        )
    }

    /// Parses a call declaration: the same shape under the other keyword.
    fn parse_call_declaration(&mut self) -> (r: Result<Expression, ParseError>)
        requires
            old(self).wf(),
        ensures
            final(self).wf(),
            Parser::same_env(*old(self), *final(self)),
            final(self).tokens().len() <= old(self).tokens().len(),
            r matches Ok(e) ==> (e matches Expression::CallDeclaration {
                line,
                bound_struct,
                args_or_name,
                body,
                ret_value,
            } && old(self).tokens().len() >= 4 && old(self).tokens()[0]@.tipe
                == TokenType::StructIdentifier && line as int == old(self).tokens()[0]@.line
                && bound_struct@ == old(self).tokens()[0]@.text && ((args_or_name
                matches MessageArgs::Unary(n)) <==> old(self).tokens()[3]@.tipe
                != TokenType::Colon)),
            match spec_message_like(
                old(self).prefix_tab(),
                old(self).infix_tab(),
                models_of(old(self).tokens()),
            ) {
                Some((tm5, rem)) => r matches Ok(e) && expr_matches(
                    e,
                    ExprModel::CallDeclM(tm5.0, tm5.1, tm5.2, tm5.3, tm5.4),
                ) && models_of(final(self).tokens()) == rem,
                None => r is Err,
            },
    {
        let parts = match self.parse_message_like_declaration() {
            Ok(t) => t,
            Err(e) => {
                return Err(e);
            },
        };
        Ok(
            Expression::CallDeclaration {
                line: parts.0,
                bound_struct: parts.1,
                args_or_name: parts.2,
                body: parts.3,
                ret_value: parts.4,
            },
        )
    }

    /// Parses `{ block }` — exactly `spec_main` of the remaining tokens —
    /// into the program entry declaration.
    #[verifier::loop_isolation(false)]
    fn parse_main_declaration(&mut self) -> (r: Result<Expression, ParseError>)
        requires
            old(self).wf(),
        ensures
            final(self).wf(),
            Parser::same_env(*old(self), *final(self)),
            final(self).tokens().len() <= old(self).tokens().len(),
            r matches Ok(e) ==> (e matches Expression::MainDeclaration { line, body } && old(
                self,
            ).tokens().len() > 0 && old(self).tokens()[0]@.tipe == TokenType::LBrace && line as int
                == old(self).tokens()[0]@.line),
            match spec_main(
                old(self).prefix_tab(),
                old(self).infix_tab(),
                models_of(old(self).tokens()),
            ) {
                Some((m, rem)) => r matches Ok(e) && expr_matches(e, m) && models_of(
                    final(self).tokens(),
                ) == rem,
                None => r is Err,
            },
    {
        let ghost ptab = old(self).prefix_tab();
        let ghost itab = old(self).infix_tab();
        let ghost ms0 = models_of(old(self).tokens());
        proof {
            lemma_head_tm(old(self).tokens());
        }
        let n = match self.consume_type(TokenType::LBrace) {
            Ok(t) => t,
            Err(e) => {
                return Err(e);
            },
        };
        proof {
            lemma_models_skip(old(self).tokens(), 1);
            assert(models_of(self.tokens()) == ms0.skip(1));
            assert(ms0[0] == old(self).tokens()[0]@);
        }
        let bl = match self.parse_block() {
            Ok(b) => b,
            Err(e) => {
                return Err(e);
            },
        };
        let ghost sb = spec_block(ptab, itab, ms0.skip(1), Seq::empty());
        proof {
            assert(sb is Some);
            lemma_head_tm(self.tokens());
        }
        let ghost tc = models_of(self.tokens());
        let ghost toks_tc = self.tokens();
        match self.consume_type(TokenType::RBrace) {
            Ok(_) => (),
            Err(e) => {
                return Err(e);
            },
        }
        proof {
            lemma_models_skip(toks_tc, 1);
            assert(models_of(self.tokens()) == tc.skip(1));
        }
        let e = Expression::MainDeclaration { line: n.get_line(), body: bl };
        proof {
            assert(expr_matches(e, ExprModel::MainM(ms0[0].line, sb->Some_0.0)));
        }
        Ok(e)
    }

    /// Parses `let name [ : TypeName ] = expression` — exactly `spec_let`
    /// of the remaining tokens.
    #[verifier::loop_isolation(false)]
    fn parse_let_statement(&mut self) -> (r: Result<Expression, ParseError>)
        requires
            old(self).wf(),
        ensures
            final(self).wf(),
            Parser::same_env(*old(self), *final(self)),
            final(self).tokens().len() <= old(self).tokens().len(),
            r matches Ok(e) ==> ((e matches Expression::LetStatement {
                bound_name,
                ntype,
                expression,
            }) && final(self).tokens().len() < old(self).tokens().len()),
            match spec_let(
                old(self).prefix_tab(),
                old(self).infix_tab(),
                models_of(old(self).tokens()),
            ) {
                Some((m, rem)) => r matches Ok(e) && expr_matches(e, m) && models_of(
                    final(self).tokens(),
                ) == rem,
                None => r is Err,
            },
    {
        let ghost ms0 = models_of(old(self).tokens());
        proof {
            lemma_head_tm(old(self).tokens());
        }
        let _ = self.match_type(TokenType::Let);
        proof {
            if old(self).tokens().len() > 0 && old(self).head_model().tipe == TokenType::Let {
                lemma_models_skip(old(self).tokens(), 1);
            }
            assert(models_of(self.tokens()) == (if head_tm(ms0).tipe == TokenType::Let
                && ms0.len() > 0 {
                ms0.skip(1)
            } else {
                ms0
            }));
        }
        let ghost t0 = models_of(self.tokens());
        let ghost toks_t0 = self.tokens();
        proof {
            lemma_head_tm(toks_t0);
        }
        let name = match self.consume_type(TokenType::Identifier) {
            Ok(t) => t,
            Err(e) => {
                return Err(e);
            },
        };
        proof {
            lemma_models_skip(toks_t0, 1);
            assert(models_of(self.tokens()) == t0.skip(1));
            assert(t0[0] == toks_t0[0]@);
        }
        let ghost t1 = models_of(self.tokens());
        let ghost toks_t1 = self.tokens();
        proof {
            lemma_head_tm(toks_t1);
        }
        let mut name_type: Option<String> = None;
        let ghost mut nty_m: Option<Seq<char>> = None;
        match self.match_type(TokenType::Colon) {
            Some(_) => {
                proof {
                    lemma_models_skip(toks_t1, 1);
                    lemma_head_tm(self.tokens());
                }
                let t = match self.consume_type(TokenType::StructIdentifier) {
                    Ok(t) => t,
                    Err(e) => {
                        proof {
                            if t1.len() >= 2 {
                                assert(t1.skip(1)[0] == t1[1]);
                                assert(t1[1] == toks_t1[1]@);
                            }
                            assert(spec_let(
                                old(self).prefix_tab(),
                                old(self).infix_tab(),
                                ms0,
                            ) is None);
                        }
                        return Err(e);
                    },
                };
                proof {
                    lemma_models_skip(toks_t1.skip(1), 1);
                    assert(toks_t1.skip(1).skip(1) =~= toks_t1.skip(2));
                    assert(models_of(self.tokens()) =~= t1.skip(2));
                    assert(t1.skip(1)[0] == t1[1]);
                    assert(t1[1] == toks_t1[1]@);
                    assert(toks_t1.skip(1)[0] == toks_t1[1]);
                    nty_m = Some(t1[1].text);
                }
                name_type = Some(t.get_string());
            },
            None => {},
        }
        let ghost t2 = models_of(self.tokens());
        let ghost toks_t2 = self.tokens();
        proof {
            lemma_head_tm(toks_t2);
            assert(spec_let(old(self).prefix_tab(), old(self).infix_tab(), ms0) == spec_let_tail(
                old(self).prefix_tab(),
                old(self).infix_tab(),
                t0[0].text,
                nty_m,
                t2,
            ));
        }
        match self.consume_type(TokenType::Equal) {
            Ok(_) => (),
            Err(e) => {
                return Err(e);
            },
        }
        proof {
            lemma_models_skip(toks_t2, 1);
            assert(models_of(self.tokens()) == t2.skip(1));
        }
        let expr = match self.parse_expression(0) {
            Ok(Some(x)) => x,
            Ok(None) => {
                return Err(self.error(name.get_line(), ParseErrorKind::ExpressionExpected));
            },
            Err(e) => {
                return Err(e);
            },
        };
        let e = Expression::LetStatement {
            bound_name: name.get_string(),
            ntype: name_type,
            expression: Box::new(expr),
        };
        proof {
            let sres = spec_expression(
                old(self).prefix_tab(),
                old(self).infix_tab(),
                t2.skip(1),
                0,
            );
            assert(sres is Parsed);
            assert(expr_matches(
                e,
                ExprModel::LetM(t0[0].text, nty_m, Box::new(sres->Parsed_0)),
            ));
        }
        Ok(e)
    }

    /// Parses every top-level declaration of the unit — exactly `spec_top`
    /// of the remaining tokens — dispatching on the leading keyword; the
    /// reserved spellings `call` and `main` are recognized contextually as
    /// plain identifiers.
    #[verifier::loop_isolation(false)]
    #[verifier::rlimit(100)]
    pub fn parse_top(&mut self) -> (r: Result<Vec<Expression>, ParseError>)
        requires
            old(self).wf(),
        ensures
            final(self).wf(),
            Parser::same_env(*old(self), *final(self)),
            final(self).tokens().len() <= old(self).tokens().len(),
            r matches Ok(v) ==> final(self).tokens().len() == 0 && (forall|i: int|
                0 <= i < v@.len() ==> is_top_decl(#[trigger] v@[i])),
            match spec_top(
                old(self).prefix_tab(),
                old(self).infix_tab(),
                models_of(old(self).tokens()),
                Seq::empty(),
            ) {
                Some(msq) => r matches Ok(v) && exprs_match(v@, msq),
                None => r is Err,
            },
    {
        let ghost ptab = old(self).prefix_tab();
        let ghost itab = old(self).infix_tab();
        let ghost ms0 = models_of(old(self).tokens());
        let mut ev: Vec<Expression> = Vec::new();
        let ghost mut acc_m: Seq<ExprModel> = Seq::empty();
        proof {
            assert(exprs_match(ev@, acc_m));
        }
        let mut go = self.can_parse();
        while go
            invariant
                self.wf(),
                Parser::same_env(*old(self), *self),
                self.tokens().len() <= old(self).tokens().len(),
                go == (self.tokens().len() > 0),
                forall|i: int| 0 <= i < ev@.len() ==> is_top_decl(#[trigger] ev@[i]),
                exprs_match(ev@, acc_m),
                match spec_top(ptab, itab, models_of(self.tokens()), acc_m) {
                    Some(msq) => spec_top(ptab, itab, ms0, Seq::empty()) == Some(msq),
                    None => spec_top(ptab, itab, ms0, Seq::empty()) is None,
                },
            decreases self.tokens().len(),
        {
            let ghost cur = self.tokens();
            let ghost mcur = models_of(cur);
            let ghost ev0 = ev@;
            let ghost acc0 = acc_m;
            let ctok = self.consume();
            proof {
                lemma_models_skip(cur, 1);
                assert(models_of(self.tokens()) == mcur.skip(1));
                assert(mcur[0] == cur[0]@);
            }
            let ghost t1 = mcur.skip(1);
            let e: Expression = match ctok.get_type() {
                TokenType::Module => {
                    match self.parse_module_declaration() {
                        Ok(x) => {
                            proof {
                                let p = module_name_parse(t1)->Some_0;
                                lemma_models_skip(cur.skip(1), p.1);
                                assert(models_of(self.tokens()) =~= t1.skip(p.1));
                                acc_m = acc0.push(ExprModel::ModuleM(p.0));
                            }
                            x
                        },
                        Err(er) => {
                            return Err(er);
                        },
                    }
                },
                TokenType::Struct => {
                    match self.parse_struct_declaration() {
                        Ok(x) => {
                            proof {
                                acc_m = acc0.push(spec_struct_decl(t1)->Some_0.0);
                            }
                            x
                        },
                        Err(er) => {
                            return Err(er);
                        },
                    }
                },
                TokenType::Message => {
                    match self.parse_message_declaration() {
                        Ok(x) => {
                            proof {
                                let t5 = spec_message_like(ptab, itab, t1)->Some_0.0;
                                acc_m = acc0.push(
                                    ExprModel::MessageDeclM(t5.0, t5.1, t5.2, t5.3, t5.4),
                                );
                            }
                            x
                        },
                        Err(er) => {
                            return Err(er);
                        },
                    }
                },
                TokenType::Call => {
                    match self.parse_call_declaration() {
                        Ok(x) => {
                            proof {
                                let t5 = spec_message_like(ptab, itab, t1)->Some_0.0;
                                acc_m = acc0.push(
                                    ExprModel::CallDeclM(t5.0, t5.1, t5.2, t5.3, t5.4),
                                );
                            }
                            x
                        },
                        Err(er) => {
                            return Err(er);
                        },
                    }
                },
                TokenType::Main => {
                    match self.parse_main_declaration() {
                        Ok(x) => {
                            proof {
                                acc_m = acc0.push(spec_main(ptab, itab, t1)->Some_0.0);
                            }
                            x
                        },
                        Err(er) => {
                            return Err(er);
                        },
                    }
                },
                TokenType::Identifier => {
                    let tx = ctok.get_string();
                    let callw = "call".to_owned();
                    let mainw = "main".to_owned();
                    if tx == callw {
                        match self.parse_call_declaration() {
                            Ok(x) => {
                                proof {
                                    let t5 = spec_message_like(ptab, itab, t1)->Some_0.0;
                                    acc_m = acc0.push(
                                        ExprModel::CallDeclM(t5.0, t5.1, t5.2, t5.3, t5.4),
                                    );
                                }
                                x
                            },
                            Err(er) => {
                                return Err(er);
                            },
                        }
                    } else if tx == mainw {
                        match self.parse_main_declaration() {
                            Ok(x) => {
                                proof {
                                    acc_m = acc0.push(spec_main(ptab, itab, t1)->Some_0.0);
                                }
                                x
                            },
                            Err(er) => {
                                return Err(er);
                            },
                        }
                    } else {
                        return Err(
                            self.error(ctok.get_line(), ParseErrorKind::CouldNotParse(tx)),
                        );
                    }
                },
                _ => {
                    return Err(
                        self.error(
                            ctok.get_line(),
                            ParseErrorKind::CouldNotParse(ctok.get_string()),
                        ),
                    );
                },
            };
            ev.push(e);
            proof {
                assert(exprs_match(ev@, acc_m)) by {
                    assert forall|i: int| 0 <= i < ev@.len() implies expr_matches(
                        #[trigger] ev@[i],
                        acc_m[i],
                    ) by {
                        if i < ev0.len() {
                            assert(ev@[i] == ev0[i]);
                            assert(acc_m[i] == acc0[i]);
                        }
                    }
                }
            }
            go = self.can_parse();
        }
        Ok(ev)
    }

}

} // verus!
