//! Token values and the ordered token buffer produced by the lexer and
//! consumed by the parser.

use vstd::prelude::*;

verus! {

/// Closed enumeration of lexical categories.  `Call` and `Main` are reserved
/// forms used by the parser; the lexer recognizes them contextually as plain
/// identifiers spelled `call` and `main`.
#[derive(Copy, Clone, Debug, PartialEq, Eq, Structural)]
pub enum TokenType {
    EndOfFile,
    Identifier,
    StructIdentifier,
    Integer,
    Float,
    CString,
    // Symbols
    LBracket,
    RBracket,
    LBrace,
    RBrace,
    Arrow,
    Minus,
    LessThan,
    GreaterThan,
    Equal,
    Plus,
    Asterisk,
    Backslash,
    Power,
    Comma,
    Colon,
    LParen,
    RParen,
    Period,
    // Keywords
    Module,
    Struct,
    Let,
    If,
    Inner,
    Message,
    Call,
    Main,
}

/// Mathematical model of a token: its category, the characters of its text,
/// and the 1-based source line it completed on (-1 marks the synthetic
/// end-of-file sentinel).
pub struct TokenModel {
    pub tipe: TokenType,
    pub text: Seq<char>,
    pub line: int,
}

/// An immutable token value: category, literal text, and source line.
#[derive(Debug)]
pub struct Token {
    pub tipe: TokenType,
    pub text: String,
    pub line: i32,
}

impl View for Token {
    type V = TokenModel;

    open spec fn view(&self) -> TokenModel {
        TokenModel { tipe: self.tipe, text: self.text@, line: self.line as int }
    }
}

impl Clone for Token {
    fn clone(&self) -> (t: Token)
        ensures
            t == *self,
    {
        Token { tipe: self.tipe, text: self.text.clone(), line: self.line }
    }
}

impl Token {
    /// A fresh token on line 0; the lexer stamps the real line with
    /// `with_line`.
    pub fn new(tipe: TokenType, text: &str) -> (t: Token)
        ensures
            t@.tipe == tipe,
            t@.text == text@,
            t@.line == 0,
    {
        Token { tipe, text: text.to_owned(), line: 0 }
    }

    /// A copy of this token carrying the given line number.
    pub fn with_line(&self, i: i32) -> (t: Token)
        ensures
            t@.tipe == self@.tipe,
            t@.text == self@.text,
            t@.line == i as int,
    {
        Token { tipe: self.tipe, text: self.text.clone(), line: i }
    }

    pub fn get_type(&self) -> (t: TokenType)
        ensures
            t == self@.tipe,
    {
        self.tipe
    }

    pub fn get_string(&self) -> (s: String)
        ensures
            s@ == self@.text,
    {
        self.text.clone()
    }

    pub fn get_line(&self) -> (l: i32)
        ensures
            l as int == self@.line,
    {
        self.line
    }
}

/// An ordered, append-at-back / consume-from-front buffer of tokens.
#[derive(Debug)]
pub struct TokenStream {
    pub toks: Vec<Token>,
}

impl View for TokenStream {
    type V = Seq<Token>;

    open spec fn view(&self) -> Seq<Token> {
        self.toks@
    }
}

impl Clone for TokenStream {
    fn clone(&self) -> (ts: TokenStream)
        ensures
            ts@ == self@,
    {
        let mut toks: Vec<Token> = Vec::new();
        let mut i: usize = 0;
        while i < self.toks.len()
            invariant
                i <= self.toks.len(),
                toks@ =~= self.toks@.take(i as int),
            decreases self.toks.len() - i,
        {
            toks.push(self.toks[i].clone());
            i += 1;
        }
        assert(toks@ =~= self.toks@);
        TokenStream { toks }
    }
}

impl TokenStream {
    pub fn new() -> (ts: TokenStream)
        ensures
            ts@ =~= Seq::<Token>::empty(),
    {
        TokenStream { toks: Vec::new() }
    }

    /// How many tokens are left to consume.
    pub fn len(&self) -> (n: usize)
        ensures
            n == self@.len(),
    {
        self.toks.len()
    }

    pub fn add(&mut self, t: Token)
        ensures
            final(self)@ == old(self)@.push(t),
    {
        self.toks.push(t)
    }

    /// Drains up to `size` tokens from the front, in order.
    pub fn read(&mut self, size: usize) -> (v: Vec<Token>)
        ensures
            v@ =~= old(self)@.take(read_count(old(self)@, size as int)),
            final(self)@ =~= old(self)@.skip(read_count(old(self)@, size as int)),
    {
        let mut v: Vec<Token> = Vec::new();
        let mut i: usize = 0;
        while i < size && self.toks.len() > 0
            invariant
                i <= size,
                i <= old(self)@.len(),
                i + self.toks@.len() == old(self)@.len(),
                v@ =~= old(self)@.take(i as int),
                self.toks@ =~= old(self)@.skip(i as int),
            decreases size - i,
        {
            v.push(self.toks.remove(0));
            i += 1;
        }
        proof {
            let k = read_count(old(self)@, size as int);
            assert(i as int == k);
        }
        v
    }
}

/// How many tokens a `read` of `size` takes from a buffer holding `s`.
pub open spec fn read_count(s: Seq<Token>, size: int) -> int {
    if size <= s.len() {
        size
    } else {
        s.len() as int
    }
}


/// The models of a token sequence, in order.
pub open spec fn models_of(s: Seq<Token>) -> Seq<TokenModel> {
    s.map_values(|t: Token| t@)
}

/// The model of the next token of a sequence, or the end-of-file sentinel
/// model `TokenModel { tipe: EndOfFile, text: empty, line: -1 }`.
pub open spec fn head_tm(ms: Seq<TokenModel>) -> TokenModel {
    if ms.len() > 0 {
        ms[0]
    } else {
        TokenModel { tipe: TokenType::EndOfFile, text: Seq::empty(), line: -1 }
    }
}

pub proof fn lemma_models_skip(s: Seq<Token>, k: int)
    requires
        0 <= k <= s.len(),
    ensures
        models_of(s.skip(k)) =~= models_of(s).skip(k),
{
}

} // verus!
