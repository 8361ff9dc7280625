use vstd::prelude::*;
use crate::ids::{ProductionId, SymbolId};
use vstd::string::StringExecFns;
use crate::text::{concat, decimal, decimal_spec};

verus! {

/// Why a generation or decoding run stopped.
#[derive(Debug, Clone, PartialEq, Eq, Structural)]
pub enum GenerateError {
    BudgetExhausted { kind: BudgetKind },
}

#[derive(Debug, Clone, Copy, PartialEq, Eq, Structural)]
pub enum BudgetKind {
    MaxDepth,
    MaxTotalNodes,
}

/// Why a grammar IR is not well formed.
#[derive(Debug, Clone, PartialEq, Eq, Structural)]
pub enum IrError {
    InvalidProductionRef(ProductionId),
    InvalidSymbolRef(SymbolId),
    EmptyAlternative { production: ProductionId },
    MissingStartProduction,
    MinDepthInconsistency { production: ProductionId },
}

pub open spec fn budget_text(k: BudgetKind) -> Seq<char> {
    match k {
        BudgetKind::MaxDepth => "max depth"@,
        BudgetKind::MaxTotalNodes => "max total nodes"@,
    }
}

pub open spec fn generate_error_text(e: GenerateError) -> Seq<char> {
    match e {
        GenerateError::BudgetExhausted { kind } => "budget exhausted: "@ + budget_text(kind),
    }
}

pub open spec fn ir_error_text(e: IrError) -> Seq<char> {
    match e {
        IrError::InvalidProductionRef(id) => "invalid production reference: "@ + decimal_spec(id.0 as nat),
        IrError::InvalidSymbolRef(id) => "invalid symbol reference: "@ + decimal_spec(id.0 as nat),
        IrError::EmptyAlternative { production } => "empty alternative in production "@ + decimal_spec(production.0 as nat),
        IrError::MissingStartProduction => "missing start production"@,
        IrError::MinDepthInconsistency { production } => "min depth inconsistency in production "@ + decimal_spec(production.0 as nat),
    }
}

impl BudgetKind {
    /// The budget's name, as printed.
    pub fn message(&self) -> (s: String)
        ensures
            s@ == budget_text(*self),
    {
        match self {
            BudgetKind::MaxDepth => String::from_str("max depth"),
            BudgetKind::MaxTotalNodes => String::from_str("max total nodes"),
        }
    }
}

impl GenerateError {
    /// The error as printed.
    pub fn message(&self) -> (s: String)
        ensures
            s@ == generate_error_text(*self),
    {
        match self {
            GenerateError::BudgetExhausted { kind } => {
                let k = kind.message();
                concat("budget exhausted: ", k.as_str())
            },
        }
    }
}

impl IrError {
    /// The error as printed.
    pub fn message(&self) -> (s: String)
        ensures
            s@ == ir_error_text(*self),
    {
        match self {
            IrError::InvalidProductionRef(id) => {
                let d = decimal(id.0 as u64);
                concat("invalid production reference: ", d.as_str())
            },
            IrError::InvalidSymbolRef(id) => {
                let d = decimal(id.0 as u64);
                concat("invalid symbol reference: ", d.as_str())
            },
            IrError::EmptyAlternative { production } => {
                let d = decimal(production.0 as u64);
                concat("empty alternative in production ", d.as_str())
            },
            IrError::MissingStartProduction => String::from_str("missing start production"),
            IrError::MinDepthInconsistency { production } => {
                let d = decimal(production.0 as u64);
                concat("min depth inconsistency in production ", d.as_str())
            },
        }
    }
}

} // verus!
