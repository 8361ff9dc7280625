use vstd::prelude::*;

verus! {

/// Index of a production in `GrammarIr::productions`.
#[derive(Debug, Clone, Copy, PartialEq, Eq, Hash, Structural)]
pub struct ProductionId(pub u32);

/// Index of a symbol in `GrammarIr::symbols`.
#[derive(Debug, Clone, Copy, PartialEq, Eq, Hash, Structural)]
pub struct SymbolId(pub u32);

/// Index of a token pool in `GrammarIr::token_pools`.
#[derive(Debug, Clone, Copy, PartialEq, Eq, Hash, Structural)]
pub struct PoolId(pub u32);

/// Index of a node in `Ast::nodes`.
#[derive(Debug, Clone, Copy, PartialEq, Eq, Hash, Structural)]
pub struct NodeId(pub u32);

} // verus!
