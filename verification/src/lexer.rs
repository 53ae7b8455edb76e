//! The character-driven state-machine lexer.
//!
//! `spec_lex` is the mathematical transition system: it consumes one
//! character per step, tracks the line counter and the token being
//! accumulated, and either produces the token models in source order or
//! stops at the first fatal condition.  `Lexer::process` is proved to return
//! exactly that outcome.

use vstd::prelude::*;
use crate::token::{Token, TokenStream, TokenType, TokenModel};
use crate::trie::{Trie, TrieError, char_index, index_from};

verus! {

/// The characters accepted as operator constituents, in slot order.
pub open spec fn accepted_ops() -> Seq<char> {
    seq!['{', '}', '-', '>', '[', ']', '<', '=', '+', '*', '/', ',', ':', '(', ')', '.']
}

/// The operator strings and their token types: every single accepted
/// character, plus the two-character forms `->` and `**`.
pub open spec fn op_type(q: Seq<char>) -> Option<TokenType> {
    if q == "."@ {
        Some(TokenType::Period)
    } else if q == ")"@ {
        Some(TokenType::RParen)
    } else if q == "("@ {
        Some(TokenType::LParen)
    } else if q == ":"@ {
        Some(TokenType::Colon)
    } else if q == ","@ {
        Some(TokenType::Comma)
    } else if q == "/"@ {
        Some(TokenType::Backslash)
    } else if q == "**"@ {
        Some(TokenType::Power)
    } else if q == "*"@ {
        Some(TokenType::Asterisk)
    } else if q == "+"@ {
        Some(TokenType::Plus)
    } else if q == "="@ {
        Some(TokenType::Equal)
    } else if q == ">"@ {
        Some(TokenType::GreaterThan)
    } else if q == "<"@ {
        Some(TokenType::LessThan)
    } else if q == "]"@ {
        Some(TokenType::RBracket)
    } else if q == "["@ {
        Some(TokenType::LBracket)
    } else if q == "-"@ {
        Some(TokenType::Minus)
    } else if q == "->"@ {
        Some(TokenType::Arrow)
    } else if q == "}"@ {
        Some(TokenType::RBrace)
    } else if q == "{"@ {
        Some(TokenType::LBrace)
    } else {
        None
    }
}

/// `q` is a nonempty prefix (proper or full) of some operator string: the
/// greedy scan may keep extending the current run.
pub open spec fn op_viable(q: Seq<char>) -> bool {
    q.len() > 0 && exists|k: Seq<char>| #[trigger] op_type(k) is Some && q.is_prefix_of(k)
}

/// The keyword table: spellings that lex as keyword tokens instead of plain
/// identifiers.
pub open spec fn keyword_type(w: Seq<char>) -> Option<TokenType> {
    if w == "module"@ {
        Some(TokenType::Module)
    } else if w == "struct"@ {
        Some(TokenType::Struct)
    } else if w == "let"@ {
        Some(TokenType::Let)
    } else if w == "if"@ {
        Some(TokenType::If)
    } else if w == "inner"@ {
        Some(TokenType::Inner)
    } else if w == "message"@ {
        Some(TokenType::Message)
    } else {
        None
    }
}

/// What an accumulated identifier lexes as: its keyword type, or Identifier.
pub open spec fn ident_type(w: Seq<char>) -> TokenType {
    match keyword_type(w) {
        Some(t) => t,
        None => TokenType::Identifier,
    }
}

pub open spec fn is_lower_char(c: char) -> bool {
    'a' as u32 <= c as u32 && c as u32 <= 'z' as u32
}

pub open spec fn is_upper_char(c: char) -> bool {
    'A' as u32 <= c as u32 && c as u32 <= 'Z' as u32
}

pub open spec fn is_digit_char(c: char) -> bool {
    '0' as u32 <= c as u32 && c as u32 <= '9' as u32
}

/// Characters that may continue an identifier.
pub open spec fn is_ident_char(c: char) -> bool {
    is_lower_char(c) || is_upper_char(c) || is_digit_char(c) || c == '_' || c == '!' || c == '?'
}

/// Characters that may continue a struct identifier.
pub open spec fn is_struct_ident_char(c: char) -> bool {
    is_lower_char(c) || is_upper_char(c) || is_digit_char(c) || c == '_'
}

/// The Unicode `White_Space` characters.
pub open spec fn is_whitespace_char(c: char) -> bool {
    ||| c == ' '
    ||| c == '\t'
    ||| c == '\n'
    ||| c == '\u{b}'
    ||| c == '\u{c}'
    ||| c == '\r'
    ||| c == '\u{85}'
    ||| c == '\u{a0}'
    ||| c == '\u{1680}'
    ||| c == '\u{2000}'
    ||| c == '\u{2001}'
    ||| c == '\u{2002}'
    ||| c == '\u{2003}'
    ||| c == '\u{2004}'
    ||| c == '\u{2005}'
    ||| c == '\u{2006}'
    ||| c == '\u{2007}'
    ||| c == '\u{2008}'
    ||| c == '\u{2009}'
    ||| c == '\u{200a}'
    ||| c == '\u{2028}'
    ||| c == '\u{2029}'
    ||| c == '\u{202f}'
    ||| c == '\u{205f}'
    ||| c == '\u{3000}'
}

/// The lexer's states.
#[derive(Copy, Clone, Debug)]
pub enum LexerState {
    /// Absorbs an optional `\n` after a `\r`.
    NewlineRN,
    Default,
    Identifier,
    StructIdentifier,
    Integer,
    Float,
    CString,
    Operator,
    OneLineComment,
}

/// A fatal lexical condition.
pub enum LexIssue {
    UnknownSymbol { line: int, symbol: char },
    UnmatchedOperator { line: int, text: Seq<char> },
}

/// A fatal lexical error: the source unit, the line, and what was found.
#[derive(Debug)]
pub struct LexError {
    pub file: String,
    pub line: i32,
    pub kind: LexErrorKind,
}

#[derive(Debug, PartialEq)]
pub enum LexErrorKind {
    /// A character that no rule accepts.
    UnknownSymbol(char),
    /// An operator run that matches no operator string.
    UnmatchedOperator(String),
}

pub open spec fn kind_model(k: LexErrorKind, line: int) -> LexIssue {
    match k {
        LexErrorKind::UnknownSymbol(c) => LexIssue::UnknownSymbol { line, symbol: c },
        LexErrorKind::UnmatchedOperator(s) => LexIssue::UnmatchedOperator { line, text: s@ },
    }
}

impl View for LexError {
    type V = LexIssue;

    open spec fn view(&self) -> LexIssue {
        kind_model(self.kind, self.line as int)
    }
}

/// The outcome of consuming one character.
pub struct StepRes {
    pub st: LexerState,
    pub data: Seq<char>,
    pub line: int,
    pub emit: Seq<TokenModel>,
    pub err: Option<LexIssue>,
}

pub open spec fn go(st: LexerState, data: Seq<char>, line: int) -> StepRes {
    StepRes { st, data, line, emit: Seq::empty(), err: None }
}

pub open spec fn fail(e: LexIssue, line: int) -> StepRes {
    StepRes { st: LexerState::Default, data: Seq::empty(), line, emit: Seq::empty(), err: Some(e) }
}

pub open spec fn emit_then(t: TokenModel, s: StepRes) -> StepRes {
    StepRes { st: s.st, data: s.data, line: s.line, emit: seq![t] + s.emit, err: s.err }
}

pub open spec fn tok(tipe: TokenType, text: Seq<char>, line: int) -> TokenModel {
    TokenModel { tipe, text, line }
}

/// Dispatch of one character from the `Default` state.
pub open spec fn default_step(c: char, line: int) -> StepRes {
    if is_lower_char(c) {
        go(LexerState::Identifier, seq![c], line)
    } else if is_upper_char(c) {
        go(LexerState::StructIdentifier, seq![c], line)
    } else if is_digit_char(c) {
        go(LexerState::Integer, seq![c], line)
    } else if c == '#' {
        go(LexerState::OneLineComment, Seq::empty(), line)
    } else if c == '\r' {
        go(LexerState::NewlineRN, Seq::empty(), line)
    } else if c == '\n' {
        go(LexerState::Default, Seq::empty(), line + 1)
    } else if c == ';' {
        go(LexerState::Default, Seq::empty(), line)
    } else if c == '"' {
        go(LexerState::CString, Seq::empty(), line)
    } else if accepted_ops().contains(c) {
        if op_viable(seq![c]) {
            go(LexerState::Operator, seq![c], line)
        } else {
            fail(LexIssue::UnmatchedOperator { line, text: seq![c] }, line)
        }
    } else if is_whitespace_char(c) {
        go(LexerState::Default, Seq::empty(), line)
    } else {
        fail(LexIssue::UnknownSymbol { line, symbol: c }, line)
    }
}

/// The full transition: consume `c` in state `st` with accumulated `data`.
pub open spec fn step(c: char, st: LexerState, data: Seq<char>, line: int) -> StepRes {
    match st {
        LexerState::Default => default_step(c, line),
        LexerState::NewlineRN => if c == '\n' {
            go(LexerState::Default, Seq::empty(), line + 1)
        } else {
            default_step(c, line)
        },
        LexerState::OneLineComment => if c == '\r' {
            go(LexerState::NewlineRN, Seq::empty(), line)
        } else if c == '\n' {
            go(LexerState::Default, Seq::empty(), line + 1)
        } else {
            go(LexerState::OneLineComment, data, line)
        },
        LexerState::Identifier => if is_ident_char(c) {
            go(LexerState::Identifier, data.push(c), line)
        } else {
            emit_then(tok(ident_type(data), data, line), default_step(c, line))
        },
        LexerState::StructIdentifier => if is_struct_ident_char(c) {
            go(LexerState::StructIdentifier, data.push(c), line)
        } else {
            emit_then(tok(TokenType::StructIdentifier, data, line), default_step(c, line))
        },
        LexerState::Integer => if is_digit_char(c) {
            go(LexerState::Integer, data.push(c), line)
        } else if c == '.' || c == 'e' {
            go(LexerState::Float, data.push(c), line)
        } else {
            emit_then(tok(TokenType::Integer, data, line), default_step(c, line))
        },
        LexerState::Float => if is_digit_char(c) {
            go(LexerState::Float, data.push(c), line)
        } else {
            emit_then(tok(TokenType::Float, data, line), default_step(c, line))
        },
        LexerState::CString => if c == '"' {
            emit_then(tok(TokenType::CString, data, line), go(LexerState::Default, Seq::empty(), line))
        } else if c == '/' {
            // Escape processing is reserved but not performed.
            go(LexerState::CString, data, line)
        } else {
            go(LexerState::CString, data.push(c), line)
        },
        LexerState::Operator => if op_viable(data.push(c)) {
            go(LexerState::Operator, data.push(c), line)
        } else if op_type(data) is Some {
            emit_then(tok(op_type(data)->Some_0, data, line), default_step(c, line))
        } else {
            fail(LexIssue::UnmatchedOperator { line, text: data.push(c) }, line)
        },
    }
}

/// What the end of input emits from each state.  An unterminated string
/// literal or an unresolved operator run yields no token.
pub open spec fn flush(st: LexerState, data: Seq<char>, line: int) -> Seq<TokenModel> {
    match st {
        LexerState::Identifier => seq![tok(ident_type(data), data, line)],
        LexerState::StructIdentifier => seq![tok(TokenType::StructIdentifier, data, line)],
        LexerState::Integer => seq![tok(TokenType::Integer, data, line)],
        LexerState::Float => seq![tok(TokenType::Float, data, line)],
        LexerState::Operator => if op_type(data) is Some {
            seq![tok(op_type(data)->Some_0, data, line)]
        } else {
            seq![]
        },
        _ => seq![],
    }
}

pub open spec fn lex_prepend(toks: Seq<TokenModel>, r: Result<Seq<TokenModel>, LexIssue>) -> Result<
    Seq<TokenModel>,
    LexIssue,
> {
    match r {
        Ok(s) => Ok(toks + s),
        Err(e) => Err(e),
    }
}

/// Lexing from position `pos` onward in state `st`.
pub open spec fn spec_lex(
    src: Seq<char>,
    pos: int,
    st: LexerState,
    data: Seq<char>,
    line: int,
) -> Result<Seq<TokenModel>, LexIssue>
    decreases src.len() - pos,
{
    if pos < 0 || pos >= src.len() {
        Ok(flush(st, data, line))
    } else {
        let s = step(src[pos], st, data, line);
        match s.err {
            Some(e) => Err(e),
            None => lex_prepend(s.emit, spec_lex(src, pos + 1, s.st, s.data, s.line)),
        }
    }
}

/// The tokens (or the fatal condition) of a whole source text, starting on
/// line `line0`.
pub open spec fn lex_total(src: Seq<char>, line0: int) -> Result<Seq<TokenModel>, LexIssue> {
    spec_lex(src, 0, LexerState::Default, Seq::empty(), line0)
}

/// The token models of a stream.
pub open spec fn stream_models(ts: TokenStream) -> Seq<TokenModel> {
    crate::token::models_of(ts@)
}


proof fn lemma_index_from_contains(alpha: Seq<char>, c: char, i: int)
    requires
        0 <= i <= alpha.len(),
    ensures
        index_from(alpha, c, i) >= 0 <==> exists|j: int| i <= j < alpha.len() && alpha[j] == c,
    decreases alpha.len() - i,
{
    if i < alpha.len() {
        if alpha[i] == c {
            assert(i <= i < alpha.len() && alpha[i] == c);
        } else {
            lemma_index_from_contains(alpha, c, i + 1);
            if index_from(alpha, c, i) >= 0 {
                let j = choose|j: int| i + 1 <= j < alpha.len() && alpha[j] == c;
                assert(i <= j < alpha.len() && alpha[j] == c);
            }
            if exists|j: int| i <= j < alpha.len() && alpha[j] == c {
                let j = choose|j: int| i <= j < alpha.len() && alpha[j] == c;
                assert(i + 1 <= j < alpha.len() && alpha[j] == c);
            }
        }
    }
}

proof fn lemma_ops_chars()
    ensures
        char_index(accepted_ops(), '{') >= 0,
        char_index(accepted_ops(), '}') >= 0,
        char_index(accepted_ops(), '-') >= 0,
        char_index(accepted_ops(), '>') >= 0,
        char_index(accepted_ops(), '[') >= 0,
        char_index(accepted_ops(), ']') >= 0,
        char_index(accepted_ops(), '<') >= 0,
        char_index(accepted_ops(), '=') >= 0,
        char_index(accepted_ops(), '+') >= 0,
        char_index(accepted_ops(), '*') >= 0,
        char_index(accepted_ops(), '/') >= 0,
        char_index(accepted_ops(), ',') >= 0,
        char_index(accepted_ops(), ':') >= 0,
        char_index(accepted_ops(), '(') >= 0,
        char_index(accepted_ops(), ')') >= 0,
        char_index(accepted_ops(), '.') >= 0,
{
    assert(accepted_ops()[0] == '{');
    assert(accepted_ops().contains('{'));
    lemma_index_from_contains(accepted_ops(), '{', 0);
    assert(accepted_ops()[1] == '}');
    assert(accepted_ops().contains('}'));
    lemma_index_from_contains(accepted_ops(), '}', 0);
    assert(accepted_ops()[2] == '-');
    assert(accepted_ops().contains('-'));
    lemma_index_from_contains(accepted_ops(), '-', 0);
    assert(accepted_ops()[3] == '>');
    assert(accepted_ops().contains('>'));
    lemma_index_from_contains(accepted_ops(), '>', 0);
    assert(accepted_ops()[4] == '[');
    assert(accepted_ops().contains('['));
    lemma_index_from_contains(accepted_ops(), '[', 0);
    assert(accepted_ops()[5] == ']');
    assert(accepted_ops().contains(']'));
    lemma_index_from_contains(accepted_ops(), ']', 0);
    assert(accepted_ops()[6] == '<');
    assert(accepted_ops().contains('<'));
    lemma_index_from_contains(accepted_ops(), '<', 0);
    assert(accepted_ops()[7] == '=');
    assert(accepted_ops().contains('='));
    lemma_index_from_contains(accepted_ops(), '=', 0);
    assert(accepted_ops()[8] == '+');
    assert(accepted_ops().contains('+'));
    lemma_index_from_contains(accepted_ops(), '+', 0);
    assert(accepted_ops()[9] == '*');
    assert(accepted_ops().contains('*'));
    lemma_index_from_contains(accepted_ops(), '*', 0);
    assert(accepted_ops()[10] == '/');
    assert(accepted_ops().contains('/'));
    lemma_index_from_contains(accepted_ops(), '/', 0);
    assert(accepted_ops()[11] == ',');
    assert(accepted_ops().contains(','));
    lemma_index_from_contains(accepted_ops(), ',', 0);
    assert(accepted_ops()[12] == ':');
    assert(accepted_ops().contains(':'));
    lemma_index_from_contains(accepted_ops(), ':', 0);
    assert(accepted_ops()[13] == '(');
    assert(accepted_ops().contains('('));
    lemma_index_from_contains(accepted_ops(), '(', 0);
    assert(accepted_ops()[14] == ')');
    assert(accepted_ops().contains(')'));
    lemma_index_from_contains(accepted_ops(), ')', 0);
    assert(accepted_ops()[15] == '.');
    assert(accepted_ops().contains('.'));
    lemma_index_from_contains(accepted_ops(), '.', 0);
}

proof fn lemma_single_viable()
    ensures
        forall|c: char| accepted_ops().contains(c) ==> op_viable(seq![c]),
{
    assert forall|c: char| accepted_ops().contains(c) implies op_viable(seq![c]) by {
        let j = choose|j: int| 0 <= j < accepted_ops().len() && accepted_ops()[j] == c;
        if j == 0 {
            reveal_strlit("{");
            assert(seq![c] =~= "{"@);
            assert(op_type(seq![c]) is Some);
            assert(seq![c].is_prefix_of(seq![c])) by {
                assert(seq![c] =~= seq![c].subrange(0, 1));
            }
            assert(op_viable(seq![c]));
        }
        if j == 1 {
            reveal_strlit("}");
            assert(seq![c] =~= "}"@);
            assert(op_type(seq![c]) is Some);
            assert(seq![c].is_prefix_of(seq![c])) by {
                assert(seq![c] =~= seq![c].subrange(0, 1));
            }
            assert(op_viable(seq![c]));
        }
        if j == 2 {
            reveal_strlit("-");
            assert(seq![c] =~= "-"@);
            assert(op_type(seq![c]) is Some);
            assert(seq![c].is_prefix_of(seq![c])) by {
                assert(seq![c] =~= seq![c].subrange(0, 1));
            }
            assert(op_viable(seq![c]));
        }
        if j == 3 {
            reveal_strlit(">");
            assert(seq![c] =~= ">"@);
            assert(op_type(seq![c]) is Some);
            assert(seq![c].is_prefix_of(seq![c])) by {
                assert(seq![c] =~= seq![c].subrange(0, 1));
            }
            assert(op_viable(seq![c]));
        }
        if j == 4 {
            reveal_strlit("[");
            assert(seq![c] =~= "["@);
            assert(op_type(seq![c]) is Some);
            assert(seq![c].is_prefix_of(seq![c])) by {
                assert(seq![c] =~= seq![c].subrange(0, 1));
            }
            assert(op_viable(seq![c]));
        }
        if j == 5 {
            reveal_strlit("]");
            assert(seq![c] =~= "]"@);
            assert(op_type(seq![c]) is Some);
            assert(seq![c].is_prefix_of(seq![c])) by {
                assert(seq![c] =~= seq![c].subrange(0, 1));
            }
            assert(op_viable(seq![c]));
        }
        if j == 6 {
            reveal_strlit("<");
            assert(seq![c] =~= "<"@);
            assert(op_type(seq![c]) is Some);
            assert(seq![c].is_prefix_of(seq![c])) by {
                assert(seq![c] =~= seq![c].subrange(0, 1));
            }
            assert(op_viable(seq![c]));
        }
        if j == 7 {
            reveal_strlit("=");
            assert(seq![c] =~= "="@);
            assert(op_type(seq![c]) is Some);
            assert(seq![c].is_prefix_of(seq![c])) by {
                assert(seq![c] =~= seq![c].subrange(0, 1));
            }
            assert(op_viable(seq![c]));
        }
        if j == 8 {
            reveal_strlit("+");
            assert(seq![c] =~= "+"@);
            assert(op_type(seq![c]) is Some);
            assert(seq![c].is_prefix_of(seq![c])) by {
                assert(seq![c] =~= seq![c].subrange(0, 1));
            }
            assert(op_viable(seq![c]));
        }
        if j == 9 {
            reveal_strlit("*");
            assert(seq![c] =~= "*"@);
            assert(op_type(seq![c]) is Some);
            assert(seq![c].is_prefix_of(seq![c])) by {
                assert(seq![c] =~= seq![c].subrange(0, 1));
            }
            assert(op_viable(seq![c]));
        }
        if j == 10 {
            reveal_strlit("/");
            assert(seq![c] =~= "/"@);
            assert(op_type(seq![c]) is Some);
            assert(seq![c].is_prefix_of(seq![c])) by {
                assert(seq![c] =~= seq![c].subrange(0, 1));
            }
            assert(op_viable(seq![c]));
        }
        if j == 11 {
            reveal_strlit(",");
            assert(seq![c] =~= ","@);
            assert(op_type(seq![c]) is Some);
            assert(seq![c].is_prefix_of(seq![c])) by {
                assert(seq![c] =~= seq![c].subrange(0, 1));
            }
            assert(op_viable(seq![c]));
        }
        if j == 12 {
            reveal_strlit(":");
            assert(seq![c] =~= ":"@);
            assert(op_type(seq![c]) is Some);
            assert(seq![c].is_prefix_of(seq![c])) by {
                assert(seq![c] =~= seq![c].subrange(0, 1));
            }
            assert(op_viable(seq![c]));
        }
        if j == 13 {
            reveal_strlit("(");
            assert(seq![c] =~= "("@);
            assert(op_type(seq![c]) is Some);
            assert(seq![c].is_prefix_of(seq![c])) by {
                assert(seq![c] =~= seq![c].subrange(0, 1));
            }
            assert(op_viable(seq![c]));
        }
        if j == 14 {
            reveal_strlit(")");
            assert(seq![c] =~= ")"@);
            assert(op_type(seq![c]) is Some);
            assert(seq![c].is_prefix_of(seq![c])) by {
                assert(seq![c] =~= seq![c].subrange(0, 1));
            }
            assert(op_viable(seq![c]));
        }
        if j == 15 {
            reveal_strlit(".");
            assert(seq![c] =~= "."@);
            assert(op_type(seq![c]) is Some);
            assert(seq![c].is_prefix_of(seq![c])) by {
                assert(seq![c] =~= seq![c].subrange(0, 1));
            }
            assert(op_viable(seq![c]));
        }
    }
}

/// A trie whose bindings are exactly the operator strings has the same
/// viability notion.
proof fn lemma_trie_viable_ops(t: Trie<TokenType>, q: Seq<char>)
    requires
        forall|k: Seq<char>| #[trigger] t.bound(k) == op_type(k),
    ensures
        t.viable(q) <==> op_viable(q),
{
    if t.viable(q) {
        let k = choose|k: Seq<char>| #[trigger] t.bound(k) is Some && q.is_prefix_of(k);
        assert(op_type(k) is Some && q.is_prefix_of(k));
    }
    if op_viable(q) {
        let k = choose|k: Seq<char>| #[trigger] op_type(k) is Some && q.is_prefix_of(k);
        assert(t.bound(k) is Some && q.is_prefix_of(k));
    }
}

fn is_lower(c: char) -> (r: bool)
    ensures
        r == is_lower_char(c),
{
    let u = c as u32;
    ('a' as u32) <= u && u <= ('z' as u32)
}

fn is_upper(c: char) -> (r: bool)
    ensures
        r == is_upper_char(c),
{
    let u = c as u32;
    ('A' as u32) <= u && u <= ('Z' as u32)
}

fn is_digit(c: char) -> (r: bool)
    ensures
        r == is_digit_char(c),
{
    let u = c as u32;
    ('0' as u32) <= u && u <= ('9' as u32)
}

fn is_ident(c: char) -> (r: bool)
    ensures
        r == is_ident_char(c),
{
    is_lower(c) || is_upper(c) || is_digit(c) || c == '_' || c == '!' || c == '?'
}

fn is_struct_ident(c: char) -> (r: bool)
    ensures
        r == is_struct_ident_char(c),
{
    is_lower(c) || is_upper(c) || is_digit(c) || c == '_'
}

fn is_whitespace(c: char) -> (r: bool)
    ensures
        r == is_whitespace_char(c),
{
    c == ' ' || c == '\t' || c == '\n' || c == '\u{b}' || c == '\u{c}' || c == '\r'
        || c == '\u{85}' || c == '\u{a0}' || c == '\u{1680}' || c == '\u{2000}'
        || c == '\u{2001}' || c == '\u{2002}' || c == '\u{2003}' || c == '\u{2004}'
        || c == '\u{2005}' || c == '\u{2006}' || c == '\u{2007}' || c == '\u{2008}'
        || c == '\u{2009}' || c == '\u{200a}' || c == '\u{2028}' || c == '\u{2029}'
        || c == '\u{202f}' || c == '\u{205f}' || c == '\u{3000}'
}

fn contains_char(v: &Vec<char>, c: char) -> (r: bool)
    ensures
        r == v@.contains(c),
{
    let mut i: usize = 0;
    while i < v.len()
        invariant
            i <= v@.len(),
            forall|j: int| 0 <= j < i ==> v@[j] != c,
        decreases v@.len() - i,
    {
        if v[i] == c {
            return true;
        }
        i += 1;
    }
    false
}

/// Relies on String's FromIterator over characters: collecting the
/// characters of `v` yields the string of exactly those characters in order.
#[verifier::external_body]
fn chars_to_string(v: &Vec<char>) -> (s: String)
    ensures
        s@ == v@,
{
    v.iter().collect()
}

fn copy_chars(v: &Vec<char>) -> (r: Vec<char>)
    ensures
        r@ == v@,
{
    let mut r: Vec<char> = Vec::new();
    let mut i: usize = 0;
    while i < v.len()
        invariant
            i <= v@.len(),
            r@ =~= v@.take(i as int),
        decreases v@.len() - i,
    {
        r.push(v[i]);
        i += 1;
    }
    proof {
        assert(r@ =~= v@);
    }
    r
}


fn one_char_vec(c: char) -> (v: Vec<char>)
    ensures
        v@ =~= seq![c],
{
    let mut v: Vec<char> = Vec::new();
    v.push(c);
    v
}

/// The keyword table the lexer carries, entry by entry.
pub open spec fn kw_table_ok(kws: Seq<(String, TokenType)>) -> bool {
    &&& kws.len() == 6
    &&& kws[0].0@ == "module"@ && kws[0].1 == TokenType::Module
    &&& kws[1].0@ == "struct"@ && kws[1].1 == TokenType::Struct
    &&& kws[2].0@ == "let"@ && kws[2].1 == TokenType::Let
    &&& kws[3].0@ == "if"@ && kws[3].1 == TokenType::If
    &&& kws[4].0@ == "inner"@ && kws[4].1 == TokenType::Inner
    &&& kws[5].0@ == "message"@ && kws[5].1 == TokenType::Message
}

fn lookup_keyword(kws: &Vec<(String, TokenType)>, w: &String) -> (ty: TokenType)
    requires
        kw_table_ok(kws@),
    ensures
        ty == ident_type(w@),
{
    let mut i: usize = 0;
    while i < kws.len()
        invariant
            kw_table_ok(kws@),
            i <= kws@.len(),
            forall|j: int| 0 <= j < i ==> w@ != kws@[j].0@,
        decreases kws@.len() - i,
    {
        if *w == kws[i].0 {
            return kws[i].1;
        }
        i += 1;
    }
    TokenType::Identifier
}

fn dispatch_default(accept: &Vec<char>, c: char, line: i32) -> (r: Result<
    (LexerState, Vec<char>, i32),
    LexErrorKind,
>)
    requires
        accept@ == accepted_ops(),
        line < i32::MAX,
    ensures
        match r {
            Ok(p) => {
                &&& default_step(c, line as int).st == p.0
                &&& default_step(c, line as int).data =~= p.1@
                &&& default_step(c, line as int).line == p.2 as int
                &&& default_step(c, line as int).emit =~= Seq::<TokenModel>::empty()
                &&& default_step(c, line as int).err is None
            },
            Err(k) => default_step(c, line as int).err == Some(kind_model(k, line as int)),
        },
{
    if is_lower(c) {
        Ok((LexerState::Identifier, one_char_vec(c), line))
    } else if is_upper(c) {
        Ok((LexerState::StructIdentifier, one_char_vec(c), line))
    } else if is_digit(c) {
        Ok((LexerState::Integer, one_char_vec(c), line))
    } else if c == '#' {
        Ok((LexerState::OneLineComment, Vec::new(), line))
    } else if c == '\r' {
        Ok((LexerState::NewlineRN, Vec::new(), line))
    } else if c == '\n' {
        Ok((LexerState::Default, Vec::new(), line + 1))
    } else if c == ';' {
        Ok((LexerState::Default, Vec::new(), line))
    } else if c == '"' {
        Ok((LexerState::CString, Vec::new(), line))
    } else if contains_char(accept, c) {
        proof {
            lemma_single_viable();
        }
        Ok((LexerState::Operator, one_char_vec(c), line))
    } else if is_whitespace(c) {
        Ok((LexerState::Default, Vec::new(), line))
    } else {
        Err(LexErrorKind::UnknownSymbol(c))
    }
}

/// Builds the operator trie: every accepted character as a one-character
/// operator, plus `->` and `**`.
#[verifier::rlimit(100)]
fn build_operator_trie(accept: &Vec<char>) -> (t: Trie<TokenType>)
    requires
        accept@ == accepted_ops(),
    ensures
        t.wf(),
        forall|q: Seq<char>| #[trigger] t.bound(q) == op_type(q),
{
    let alphabet = copy_chars(accept);
    let mut t: Trie<TokenType> = Trie::new(alphabet);
    proof {
        lemma_ops_chars();
        reveal_strlit("{");
        reveal_strlit("}");
        reveal_strlit("->");
        reveal_strlit("-");
        reveal_strlit("[");
        reveal_strlit("]");
        reveal_strlit("<");
        reveal_strlit(">");
        reveal_strlit("=");
        reveal_strlit("+");
        reveal_strlit("*");
        reveal_strlit("**");
        reveal_strlit("/");
        reveal_strlit(",");
        reveal_strlit(":");
        reveal_strlit("(");
        reveal_strlit(")");
        reveal_strlit(".");
    }
    t.add_string("{", TokenType::LBrace);
    t.add_string("}", TokenType::RBrace);
    t.add_string("->", TokenType::Arrow);
    t.add_string("-", TokenType::Minus);
    t.add_string("[", TokenType::LBracket);
    t.add_string("]", TokenType::RBracket);
    t.add_string("<", TokenType::LessThan);
    t.add_string(">", TokenType::GreaterThan);
    t.add_string("=", TokenType::Equal);
    t.add_string("+", TokenType::Plus);
    t.add_string("*", TokenType::Asterisk);
    t.add_string("**", TokenType::Power);
    t.add_string("/", TokenType::Backslash);
    t.add_string(",", TokenType::Comma);
    t.add_string(":", TokenType::Colon);
    t.add_string("(", TokenType::LParen);
    t.add_string(")", TokenType::RParen);
    t.add_string(".", TokenType::Period);
    proof {
        assert forall|q: Seq<char>| t.bound(q) == op_type(q) by {
            reveal_strlit("{");
            reveal_strlit("}");
            reveal_strlit("->");
            reveal_strlit("-");
            reveal_strlit("[");
            reveal_strlit("]");
            reveal_strlit("<");
            reveal_strlit(">");
            reveal_strlit("=");
            reveal_strlit("+");
            reveal_strlit("*");
            reveal_strlit("**");
            reveal_strlit("/");
            reveal_strlit(",");
            reveal_strlit(":");
            reveal_strlit("(");
            reveal_strlit(")");
            reveal_strlit(".");
        }
    }
    t
}

/// Turns source text into tokens: a state machine over the characters, with
/// greedy longest-match operator scanning through the trie.
pub struct Lexer {
    source_name: String,
    source: Vec<char>,
    keywords: Vec<(String, TokenType)>,
    accept_vec: Vec<char>,
    line: i32,
}

impl Lexer {
    /// The source text being lexed.
    pub closed spec fn src(self) -> Seq<char> {
        self.source@
    }

    /// The source identifier used in diagnostics.
    pub closed spec fn src_name(self) -> Seq<char> {
        self.source_name@
    }

    /// The current 1-based line counter.
    pub closed spec fn line_no(self) -> int {
        self.line as int
    }

    /// The keyword table and operator alphabet hold their fixed contents.
    pub closed spec fn wf(self) -> bool {
        &&& self.accept_vec@ == accepted_ops()
        &&& kw_table_ok(self.keywords@)
    }

    /// The line counter cannot overflow while lexing the source once.
    pub open spec fn line_ok(self) -> bool {
        &&& 1 <= self.line_no()
        &&& self.line_no() + self.src().len() <= i32::MAX as int
    }

    /// A lexer over one source unit, starting on line 1.
    pub fn new(name: &str, r: &str) -> (lx: Lexer)
        requires
            r@.len() + 1 <= i32::MAX as int,
        ensures
            lx.wf(),
            lx.line_ok(),
            lx.src() == r@,
            lx.src_name() == name@,
            lx.line_no() == 1,
    {
        let n = r.unicode_len();
        let mut source: Vec<char> = Vec::new();
        let mut i: usize = 0;
        while i < n
            invariant
                n == r@.len(),
                i <= n,
                source@ =~= r@.take(i as int),
            decreases n - i,
        {
            let c = r.get_char(i);
            source.push(c);
            proof {
                assert(source@ =~= r@.take(i as int + 1));
            }
            i += 1;
        }
        proof {
            assert(source@ =~= r@);
        }
        let mut keywords: Vec<(String, TokenType)> = Vec::new();
        keywords.push(("module".to_owned(), TokenType::Module));
        keywords.push(("struct".to_owned(), TokenType::Struct));
        keywords.push(("let".to_owned(), TokenType::Let));
        keywords.push(("if".to_owned(), TokenType::If));
        keywords.push(("inner".to_owned(), TokenType::Inner));
        keywords.push(("message".to_owned(), TokenType::Message));
        let mut accept_vec: Vec<char> = Vec::new();
        accept_vec.push('{');
        accept_vec.push('}');
        accept_vec.push('-');
        accept_vec.push('>');
        accept_vec.push('[');
        accept_vec.push(']');
        accept_vec.push('<');
        accept_vec.push('=');
        accept_vec.push('+');
        accept_vec.push('*');
        accept_vec.push('/');
        accept_vec.push(',');
        accept_vec.push(':');
        accept_vec.push('(');
        accept_vec.push(')');
        accept_vec.push('.');
        proof {
            assert(accept_vec@ =~= accepted_ops());
        }
        Lexer { source_name: name.to_owned(), source, keywords, accept_vec, line: 1 }
    }
}


impl Lexer {
    /// Runs the state machine over the whole source text and returns the
    /// token stream in source order, each token carrying the line it
    /// completed on — or the first fatal lexical error, carrying the source
    /// name, the line, and what was found.  The result is exactly
    /// `lex_total` of the source.
    #[verifier::loop_isolation(false)]
    #[verifier::rlimit(100)]
    pub fn process(&mut self) -> (r: Result<TokenStream, LexError>)
        requires
            old(self).wf(),
            old(self).line_ok(),
        ensures
            final(self).wf(),
            final(self).src() == old(self).src(),
            final(self).src_name() == old(self).src_name(),
            match lex_total(old(self).src(), old(self).line_no()) {
                Ok(models) => r is Ok && stream_models(r->Ok_0) =~= models,
                Err(e) => r is Err && r->Err_0@ == e && r->Err_0.file@ == old(self).src_name(),
            },
    {
        let ghost src = self.source@;
        let ghost name0 = self.source_name@;
        let ghost l0 = self.line as int;
        let t = build_operator_trie(&self.accept_vec);
        let mut ts = TokenStream::new();
        let mut state = LexerState::Default;
        let mut data: Vec<char> = Vec::new();
        let mut pos: usize = 0;
        proof {
            assert(stream_models(ts) =~= Seq::<TokenModel>::empty());
        }
        while pos < self.source.len()
            invariant
                self.wf(),
                self.source@ == src,
                self.source_name@ == name0,
                t.wf(),
                forall|q: Seq<char>| #[trigger] t.bound(q) == op_type(q),
                pos <= src.len(),
                1 <= l0,
                l0 <= self.line as int <= l0 + pos,
                l0 + src.len() <= i32::MAX as int,
                match spec_lex(src, pos as int, state, data@, self.line as int) {
                    Ok(m2) => lex_total(src, l0) == Ok::<Seq<TokenModel>, LexIssue>(
                        stream_models(ts) + m2,
                    ),
                    Err(e2) => lex_total(src, l0) == Err::<Seq<TokenModel>, LexIssue>(e2),
                },
            decreases src.len() - pos,
        {
            let c = self.source[pos];
            let ghost st0 = state;
            let ghost d0 = data@;
            let ghost ln0 = self.line as int;
            let ghost ts0 = ts;
            let ghost s = step(c, st0, d0, ln0);
            let ghost mut emitted: Seq<TokenModel> = Seq::empty();
            match state {
                LexerState::Default => {
                    match dispatch_default(&self.accept_vec, c, self.line) {
                        Ok(p) => {
                            state = p.0;
                            data = p.1;
                            self.line = p.2;
                        },
                        Err(k) => {
                            proof {
                                assert(s.err == Some(kind_model(k, ln0)));
                            }
                            return Err(
                                LexError {
                                    file: self.source_name.clone(),
                                    line: self.line,
                                    kind: k,
                                },
                            );
                        },
                    }
                },
                LexerState::NewlineRN => {
                    if c == '\n' {
                        self.line = self.line + 1;
                        state = LexerState::Default;
                        data = Vec::new();
                    } else {
                        match dispatch_default(&self.accept_vec, c, self.line) {
                            Ok(p) => {
                                state = p.0;
                                data = p.1;
                                self.line = p.2;
                            },
                            Err(k) => {
                                proof {
                                    assert(s.err == Some(kind_model(k, ln0)));
                                }
                                return Err(
                                    LexError {
                                        file: self.source_name.clone(),
                                        line: self.line,
                                        kind: k,
                                    },
                                );
                            },
                        }
                    }
                },
                LexerState::OneLineComment => {
                    if c == '\r' {
                        state = LexerState::NewlineRN;
                        data = Vec::new();
                    } else if c == '\n' {
                        self.line = self.line + 1;
                        state = LexerState::Default;
                        data = Vec::new();
                    }
                },
                LexerState::Identifier => {
                    if is_ident(c) {
                        data.push(c);
                    } else {
                        let text = chars_to_string(&data);
                        let ty = lookup_keyword(&self.keywords, &text);
                        ts.add(Token::new(ty, text.as_str()).with_line(self.line));
                        proof {
                            emitted = seq![tok(ident_type(d0), d0, ln0)];
                        }
                        match dispatch_default(&self.accept_vec, c, self.line) {
                            Ok(p) => {
                                state = p.0;
                                data = p.1;
                                self.line = p.2;
                            },
                            Err(k) => {
                                proof {
                                    assert(s.err == Some(kind_model(k, ln0)));
                                }
                                return Err(
                                    LexError {
                                        file: self.source_name.clone(),
                                        line: self.line,
                                        kind: k,
                                    },
                                );
                            },
                        }
                    }
                },
                LexerState::StructIdentifier => {
                    if is_struct_ident(c) {
                        data.push(c);
                    } else {
                        let text = chars_to_string(&data);
                        ts.add(
                            Token::new(TokenType::StructIdentifier, text.as_str()).with_line(
                                self.line,
                            ),
                        );
                        proof {
                            emitted = seq![tok(TokenType::StructIdentifier, d0, ln0)];
                        }
                        match dispatch_default(&self.accept_vec, c, self.line) {
                            Ok(p) => {
                                state = p.0;
                                data = p.1;
                                self.line = p.2;
                            },
                            Err(k) => {
                                proof {
                                    assert(s.err == Some(kind_model(k, ln0)));
                                }
                                return Err(
                                    LexError {
                                        file: self.source_name.clone(),
                                        line: self.line,
                                        kind: k,
                                    },
                                );
                            },
                        }
                    }
                },
                LexerState::Integer => {
                    if is_digit(c) {
                        data.push(c);
                    } else if c == '.' || c == 'e' {
                        data.push(c);
                        state = LexerState::Float;
                    } else {
                        let text = chars_to_string(&data);
                        ts.add(Token::new(TokenType::Integer, text.as_str()).with_line(self.line));
                        proof {
                            emitted = seq![tok(TokenType::Integer, d0, ln0)];
                        }
                        match dispatch_default(&self.accept_vec, c, self.line) {
                            Ok(p) => {
                                state = p.0;
                                data = p.1;
                                self.line = p.2;
                            },
                            Err(k) => {
                                proof {
                                    assert(s.err == Some(kind_model(k, ln0)));
                                }
                                return Err(
                                    LexError {
                                        file: self.source_name.clone(),
                                        line: self.line,
                                        kind: k,
                                    },
                                );
                            },
                        }
                    }
                },
                LexerState::Float => {
                    if is_digit(c) {
                        data.push(c);
                    } else {
                        let text = chars_to_string(&data);
                        ts.add(Token::new(TokenType::Float, text.as_str()).with_line(self.line));
                        proof {
                            emitted = seq![tok(TokenType::Float, d0, ln0)];
                        }
                        match dispatch_default(&self.accept_vec, c, self.line) {
                            Ok(p) => {
                                state = p.0;
                                data = p.1;
                                self.line = p.2;
                            },
                            Err(k) => {
                                proof {
                                    assert(s.err == Some(kind_model(k, ln0)));
                                }
                                return Err(
                                    LexError {
                                        file: self.source_name.clone(),
                                        line: self.line,
                                        kind: k,
                                    },
                                );
                            },
                        }
                    }
                },
                LexerState::CString => {
                    if c == '"' {
                        let text = chars_to_string(&data);
                        ts.add(Token::new(TokenType::CString, text.as_str()).with_line(self.line));
                        proof {
                            emitted = seq![tok(TokenType::CString, d0, ln0)];
                        }
                        state = LexerState::Default;
                        data = Vec::new();
                    } else if c == '/' {
                        // Escape processing is reserved but not performed.
                    } else {
                        data.push(c);
                    }
                },
                LexerState::Operator => {
                    data.push(c);
                    let probe = chars_to_string(&data);
                    let pr = t.search(probe.as_str());
                    proof {
                        crate::trie::lemma_search_viable(t, data@);
                        lemma_trie_viable_ops(t, data@);
                    }
                    let cont = match pr {
                        Ok(_) => true,
                        Err(TrieError::SubTrie) => true,
                        Err(_) => false,
                    };
                    if cont {
                        proof {
                            assert(op_viable(d0.push(c)));
                        }
                    } else {
                        let _ = data.pop();
                        proof {
                            assert(data@ =~= d0);
                        }
                        let text = chars_to_string(&data);
                        let res2 = t.search(text.as_str());
                        proof {
                            crate::trie::lemma_search_found(t, d0);
                        }
                        match res2 {
                            Ok(ty) => {
                                proof {
                                    assert(op_type(d0) == Some(ty));
                                }
                                ts.add(Token::new(ty, text.as_str()).with_line(self.line));
                                proof {
                                    emitted = seq![tok(ty, d0, ln0)];
                                }
                                match dispatch_default(&self.accept_vec, c, self.line) {
                                    Ok(p) => {
                                        state = p.0;
                                        data = p.1;
                                        self.line = p.2;
                                    },
                                    Err(k) => {
                                        proof {
                                            assert(s.err == Some(kind_model(k, ln0)));
                                        }
                                        return Err(
                                            LexError {
                                                file: self.source_name.clone(),
                                                line: self.line,
                                                kind: k,
                                            },
                                        );
                                    },
                                }
                            },
                            Err(_) => {
                                proof {
                                    assert(op_type(d0) is None);
                                    assert(s.err == Some(
                                        LexIssue::UnmatchedOperator { line: ln0, text: d0.push(c) },
                                    ));
                                }
                                data.push(c);
                                let etext = chars_to_string(&data);
                                return Err(
                                    LexError {
                                        file: self.source_name.clone(),
                                        line: self.line,
                                        kind: LexErrorKind::UnmatchedOperator(etext),
                                    },
                                );
                            },
                        }
                    }
                },
            }
            proof {
                assert(s.err is None);
                assert(s.st == state);
                assert(s.data =~= data@);
                assert(s.line == self.line as int);
                assert(s.emit =~= emitted);
                assert(s.line <= ln0 + 1);
                assert(stream_models(ts) =~= stream_models(ts0) + emitted);
                assert(spec_lex(src, pos as int, st0, d0, ln0) == lex_prepend(
                    s.emit,
                    spec_lex(src, pos as int + 1, s.st, s.data, s.line),
                ));
                match spec_lex(src, pos as int + 1, state, data@, self.line as int) {
                    Ok(m2) => {
                        assert(spec_lex(src, pos as int + 1, s.st, s.data, s.line) == Ok::<
                            Seq<TokenModel>,
                            LexIssue,
                        >(m2));
                        assert(spec_lex(src, pos as int, st0, d0, ln0) == Ok::<
                            Seq<TokenModel>,
                            LexIssue,
                        >(s.emit + m2));
                        assert(stream_models(ts0) + (s.emit + m2) =~= stream_models(ts) + m2);
                    },
                    Err(e2) => {
                        assert(spec_lex(src, pos as int, st0, d0, ln0) == Err::<
                            Seq<TokenModel>,
                            LexIssue,
                        >(e2));
                    },
                }
            }
            pos += 1;
        }
        // End of input: emit whatever token was pending.
        let ghost d_f = data@;
        let ghost ln_f = self.line as int;
        let ghost ts_f = ts;
        proof {
            assert(spec_lex(src, pos as int, state, d_f, ln_f) == Ok::<Seq<TokenModel>, LexIssue>(
                flush(state, d_f, ln_f),
            ));
        }
        match state {
            LexerState::Identifier => {
                let text = chars_to_string(&data);
                let ty = lookup_keyword(&self.keywords, &text);
                ts.add(Token::new(ty, text.as_str()).with_line(self.line));
                proof {
                    assert(stream_models(ts) =~= stream_models(ts_f) + flush(state, d_f, ln_f));
                }
            },
            LexerState::StructIdentifier => {
                let text = chars_to_string(&data);
                ts.add(Token::new(TokenType::StructIdentifier, text.as_str()).with_line(self.line));
                proof {
                    assert(stream_models(ts) =~= stream_models(ts_f) + flush(state, d_f, ln_f));
                }
            },
            LexerState::Integer => {
                let text = chars_to_string(&data);
                ts.add(Token::new(TokenType::Integer, text.as_str()).with_line(self.line));
                proof {
                    assert(stream_models(ts) =~= stream_models(ts_f) + flush(state, d_f, ln_f));
                }
            },
            LexerState::Float => {
                let text = chars_to_string(&data);
                ts.add(Token::new(TokenType::Float, text.as_str()).with_line(self.line));
                proof {
                    assert(stream_models(ts) =~= stream_models(ts_f) + flush(state, d_f, ln_f));
                }
            },
            LexerState::Operator => {
                let text = chars_to_string(&data);
                let res = t.search(text.as_str());
                proof {
                    crate::trie::lemma_search_found(t, d_f);
                }
                match res {
                    Ok(ty) => {
                        proof {
                            assert(op_type(d_f) == Some(ty));
                        }
                        ts.add(Token::new(ty, text.as_str()).with_line(self.line));
                        proof {
                            assert(stream_models(ts) =~= stream_models(ts_f) + flush(
                                state,
                                d_f,
                                ln_f,
                            ));
                        }
                    },
                    Err(_) => {
                        proof {
                            assert(op_type(d_f) is None);
                            assert(stream_models(ts) =~= stream_models(ts_f) + flush(
                                state,
                                d_f,
                                ln_f,
                            ));
                        }
                    },
                }
            },
            _ => {
                proof {
                    assert(stream_models(ts) =~= stream_models(ts_f) + flush(state, d_f, ln_f));
                }
            },
        }
        Ok(ts)
    }
}

} // verus!
