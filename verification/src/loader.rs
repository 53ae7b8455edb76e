//! Loading one source unit: lex, parse, require the module declaration
//! first, refuse a second one, wrap the remaining declarations into a
//! `Module`, and register it under its dotted name.  Classpath filtering of
//! discovered files lives here too; reading files stays outside.

use vstd::prelude::*;
use crate::ast::{Expression, ExprModel, expr_matches, exprs_match};
use crate::lexer::{Lexer, LexError, lex_total};
use crate::module::{Module, ModuleManager, RegistryError, segments};
use crate::parser::{Parser, ParseError, spec_top, default_prefix_tab, default_infix_tab};

verus! {

/// Why a source unit could not be loaded.
#[derive(Debug)]
pub enum LoadError {
    /// The lexer stopped on a fatal lexical error.
    Lex(LexError),
    /// The parser stopped on a fatal syntactic error.
    Parse(ParseError),
    /// The unit's first declaration is not a module declaration.
    NoModuleDeclaration,
    /// A second module declaration appeared in the same unit; carries its
    /// dotted name.
    DuplicateModuleDeclaration(String),
    /// A module is already registered under this unit's path.
    Registry(RegistryError),
}

/// Compiles one source unit and registers its module: the unit must open
/// with a module declaration, carry no second one, and its path must still
/// be free in the registry.  The outcome is exactly determined: `lex_total`
/// on the text, `spec_top` with the default registries on its tokens, the
/// module-declaration checks on the declaration list, and the registry
/// collision check.  On success returns the dotted module name, now bound
/// in the registry — and nothing else changed; on failure the registry is
/// unchanged.
#[verifier::loop_isolation(false)]
pub fn load_unit(name: &str, source: &str, mman: &mut ModuleManager) -> (r: Result<
    String,
    LoadError,
>)
    requires
        source@.len() + 1 <= i32::MAX as int,
    ensures
        match lex_total(source@, 1) {
            Err(le) => r matches Err(e2) && (e2 matches LoadError::Lex(e3) && e3@ == le),
            Ok(models) => match spec_top(
                default_prefix_tab(),
                default_infix_tab(),
                models,
                Seq::empty(),
            ) {
                None => r matches Err(e2) && e2 is Parse,
                Some(ms) => if ms.len() == 0 || !(ms[0] is ModuleM) {
                    r matches Err(e2) && e2 is NoModuleDeclaration
                } else if exists|i: int| 1 <= i < ms.len() && (#[trigger] ms[i]) is ModuleM {
                    r matches Err(e2) && e2 is DuplicateModuleDeclaration
                } else if old(mman).bound(segments(ms[0]->ModuleM_0)) is Some {
                    r matches Err(e2) && e2 is Registry
                } else {
                    r matches Ok(rn) && rn@ == ms[0]->ModuleM_0
                },
            },
        },
        match r {
            Ok(nm) => {
                &&& old(mman).bound(segments(nm@)) is None
                &&& (final(mman).bound(segments(nm@)) matches Some(m) && m.spec_name() == nm@)
                &&& forall|p: Seq<Seq<char>>|
                    p != segments(nm@) ==> #[trigger] final(mman).bound(p) == old(mman).bound(p)
            },
            Err(_) => forall|p: Seq<Seq<char>>|
                #[trigger] final(mman).bound(p) == old(mman).bound(p),
        },
{
    let mut lex = Lexer::new(name, source);
    let ts = match lex.process() {
        Ok(t) => t,
        Err(e) => {
            return Err(LoadError::Lex(e));
        },
    };
    let mut parser = Parser::new(name, ts);
    parser.setup_defaults();
    proof {
        assert(parser.prefix_tab() =~= default_prefix_tab());
        assert(parser.infix_tab() =~= default_infix_tab());
    }
    let module_code = match parser.parse_top() {
        Ok(v) => v,
        Err(e) => {
            return Err(LoadError::Parse(e));
        },
    };
    let ghost ms = spec_top(
        default_prefix_tab(),
        default_infix_tab(),
        lex_total(source@, 1)->Ok_0,
        Seq::empty(),
    )->Some_0;
    proof {
        assert(exprs_match(module_code@, ms));
    }
    let mut code = module_code;
    if code.len() == 0 {
        return Err(LoadError::NoModuleDeclaration);
    }
    let ghost code0 = code@;
    let first = code.remove(0);
    let mname: String = match first {
        Expression::ModuleDeclaration(nm) => nm,
        _ => {
            proof {
                assert(expr_matches(code0[0], ms[0]));
                assert(!(ms[0] is ModuleM));
            }
            return Err(LoadError::NoModuleDeclaration);
        },
    };
    proof {
        assert(expr_matches(code0[0], ms[0]));
        assert(ms[0] is ModuleM && mname@ == ms[0]->ModuleM_0);
        assert(code@ =~= code0.skip(1));
    }
    let mut i: usize = 0;
    while i < code.len()
        invariant
            code@ == code0.skip(1),
            exprs_match(code0, ms),
            i <= code@.len(),
            forall|j: int| 1 <= j < i + 1 ==> !((#[trigger] ms[j]) is ModuleM),
        decreases code@.len() - i,
    {
        proof {
            assert(expr_matches(code0[i as int + 1], ms[i as int + 1]));
            assert(code@[i as int] == code0[i as int + 1]);
        }
        match &code[i] {
            Expression::ModuleDeclaration(other) => {
                proof {
                    assert(ms[i as int + 1] is ModuleM);
                }
                return Err(LoadError::DuplicateModuleDeclaration(other.clone()));
            },
            _ => {
                proof {
                    assert(!(ms[i as int + 1] is ModuleM));
                }
            },
        }
        i += 1;
    }
    proof {
        assert(forall|j: int| 1 <= j < ms.len() ==> !((#[trigger] ms[j]) is ModuleM));
    }
    let nmod = Module::new(mname.as_str(), code);
    match mman.add_module(mname.as_str(), nmod) {
        Ok(_) => Ok(mname),
        Err(e) => Err(LoadError::Registry(e)),
    }
}

/// `e` names a directory at or above `a`, component by component.
pub open spec fn path_starts_with(a: Seq<String>, e: Seq<String>) -> bool {
    e.len() <= a.len() && forall|j: int| 0 <= j < e.len() ==> a[j]@ == (#[trigger] e[j])@
}

fn path_prefix(a: &Vec<String>, e: &Vec<String>) -> (r: bool)
    ensures
        r == path_starts_with(a@, e@),
{
    if e.len() > a.len() {
        return false;
    }
    let mut j: usize = 0;
    while j < e.len()
        invariant
            e@.len() <= a@.len(),
            j <= e@.len(),
            forall|k: int| 0 <= k < j ==> a@[k]@ == (#[trigger] e@[k])@,
        decreases e@.len() - j,
    {
        if !(a[j] == e[j]) {
            return false;
        }
        j += 1;
    }
    true
}

/// Keeps a discovered file exactly when no exclude path is a
/// component-wise prefix of it.
pub fn classpath_filtering(excludes: &Vec<Vec<String>>, a: &Vec<String>) -> (r: bool)
    ensures
        r == !(exists|i: int|
            0 <= i < excludes@.len() && path_starts_with(a@, (#[trigger] excludes@[i])@)),
{
    let mut i: usize = 0;
    while i < excludes.len()
        invariant
            i <= excludes@.len(),
            forall|k: int| 0 <= k < i ==> !path_starts_with(a@, (#[trigger] excludes@[k])@),
        decreases excludes@.len() - i,
    {
        if path_prefix(a, &excludes[i]) {
            return false;
        }
        i += 1;
    }
    true
}

} // verus!
