use vstd::prelude::*;
use crate::ids::{PoolId, ProductionId, SymbolId};

verus! {

/// A compiled grammar.
#[derive(Debug, Clone)]
pub struct GrammarIr {
    pub productions: Vec<Production>,
    pub symbols: Vec<Symbol>,
    pub start: ProductionId,
    /// Token pool entries, indexed by [`PoolId`]: the alternatives of lexer rules.
    pub token_pools: Vec<TokenPoolEntry>,
}

/// A lexer rule's expansion alternatives.
#[derive(Debug, Clone)]
pub struct TokenPoolEntry {
    pub name: String,
    pub alternatives: Vec<Alternative>,
}

#[derive(Debug, Clone)]
pub struct Production {
    pub id: ProductionId,
    pub name: String,
    pub alternatives: Vec<Alternative>,
    pub attrs: ProductionAttrs,
}

#[derive(Debug, Clone)]
pub struct Alternative {
    pub symbols: Vec<SymbolRef>,
    pub semantic_tag: Option<String>,
}

#[derive(Debug, Clone, Copy, PartialEq, Eq, Structural)]
pub struct SymbolRef {
    pub symbol: SymbolId,
    pub modifier: Modifier,
}

#[derive(Debug, Clone, Copy, PartialEq, Eq, Structural)]
pub enum Modifier {
    Once,
    Optional,
    ZeroOrMore { min: u32, max: u32 },
    OneOrMore { min: u32, max: u32 },
}

#[derive(Debug, Clone)]
pub enum Symbol {
    Terminal(TerminalKind),
    NonTerminal(ProductionId),
}

#[derive(Debug, Clone)]
pub enum TerminalKind {
    Literal(Vec<u8>),
    CharClass { ranges: Vec<(u8, u8)>, negated: bool },
    AnyByte,
    ByteRange(u8, u8),
    TokenPool(PoolId),
}

#[derive(Debug, Clone)]
pub struct ProductionAttrs {
    pub min_depth: u32,
    pub is_recursive: bool,
    pub token_kind: Option<String>,
    pub semantic_hook: Option<String>,
}

impl ProductionAttrs {
    /// Fresh attributes: unknown depth (`u32::MAX`), not recursive, no kind, no hook.
    pub fn new() -> (a: ProductionAttrs)
        ensures
            a.min_depth == u32::MAX,
            !a.is_recursive,
            a.token_kind is None,
            a.semantic_hook is None,
    {
        ProductionAttrs { min_depth: u32::MAX, is_recursive: false, token_kind: None, semantic_hook: None }
    }
}

impl Default for ProductionAttrs {
    fn default() -> (a: ProductionAttrs)
        ensures
            a.min_depth == u32::MAX,
            !a.is_recursive,
            a.token_kind is None,
            a.semantic_hook is None,
    {
        ProductionAttrs::new()
    }
}

/// Whether a symbol reference must be expanded at least once.
pub open spec fn required_spec(m: Modifier) -> bool {
    match m {
        Modifier::Optional => false,
        Modifier::ZeroOrMore { min, .. } => min > 0,
        _ => true,
    }
}

/// Whether a symbol reference must be expanded at least once.
pub fn is_required(m: &Modifier) -> (r: bool)
    ensures
        r == required_spec(*m),
{
    match m {
        Modifier::Optional => false,
        Modifier::ZeroOrMore { min, .. } => *min > 0,
        _ => true,
    }
}

} // verus!
