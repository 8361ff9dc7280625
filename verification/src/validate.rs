//! Structural validation of a grammar IR.
use vstd::prelude::*;
use crate::grammar::{GrammarIr, Production, Alternative, SymbolRef, Symbol};
use crate::error::IrError;

verus! {

/// The problem with one symbol reference, if any: an unknown symbol, or a
/// nonterminal naming an unknown production.
pub open spec fn symref_error(g: GrammarIr, sr: SymbolRef) -> Option<IrError> {
    if sr.symbol.0 >= g.symbols@.len() {
        Some(IrError::InvalidSymbolRef(sr.symbol))
    } else {
        match g.symbols@[sr.symbol.0 as int] {
            Symbol::NonTerminal(pid) => if pid.0 >= g.productions@.len() {
                Some(IrError::InvalidProductionRef(pid))
            } else {
                None
            },
            _ => None,
        }
    }
}

/// The first problem among `syms[k..]`.
pub open spec fn syms_error(g: GrammarIr, syms: Seq<SymbolRef>, k: int) -> Option<IrError>
    decreases syms.len() - k,
{
    if k < 0 || k >= syms.len() {
        None
    } else {
        match symref_error(g, syms[k]) {
            Some(e) => Some(e),
            None => syms_error(g, syms, k + 1),
        }
    }
}

/// The first problem among the alternatives `alts[k..]` of production `prod`.
pub open spec fn alts_error(g: GrammarIr, prod: Production, k: int) -> Option<IrError>
    decreases prod.alternatives@.len() - k,
{
    let alts = prod.alternatives@;
    if k < 0 || k >= alts.len() {
        None
    } else if alts[k].symbols@.len() == 0 {
        Some(IrError::EmptyAlternative { production: prod.id })
    } else {
        match syms_error(g, alts[k].symbols@, 0) {
            Some(e) => Some(e),
            None => alts_error(g, prod, k + 1),
        }
    }
}

/// The first problem of one production: no alternatives, or a bad alternative.
pub open spec fn prod_error(g: GrammarIr, prod: Production) -> Option<IrError> {
    if prod.alternatives@.len() == 0 {
        Some(IrError::EmptyAlternative { production: prod.id })
    } else {
        alts_error(g, prod, 0)
    }
}

/// The first problem among `productions[k..]`.
pub open spec fn prods_error(g: GrammarIr, k: int) -> Option<IrError>
    decreases g.productions@.len() - k,
{
    if k < 0 || k >= g.productions@.len() {
        None
    } else {
        match prod_error(g, g.productions@[k]) {
            Some(e) => Some(e),
            None => prods_error(g, k + 1),
        }
    }
}

/// The result of validation: the missing start production first, then the
/// first problem in production, alternative and symbol order.
pub open spec fn validate_spec(g: GrammarIr) -> Result<(), IrError> {
    if g.start.0 >= g.productions@.len() {
        Err(IrError::MissingStartProduction)
    } else {
        match prods_error(g, 0) {
            Some(e) => Err(e),
            None => Ok(()),
        }
    }
}

/// Every alternative has symbols and every reference names a known symbol and production.
pub open spec fn alt_well_formed(g: GrammarIr, alt: Alternative) -> bool {
    &&& alt.symbols@.len() > 0
    &&& forall|k: int| 0 <= k < alt.symbols@.len() ==> #[trigger] symref_error(g, alt.symbols@[k]) is None
}

pub open spec fn prod_well_formed(g: GrammarIr, prod: Production) -> bool {
    &&& prod.alternatives@.len() > 0
    &&& forall|a: int| 0 <= a < prod.alternatives@.len() ==> #[trigger] alt_well_formed(g, prod.alternatives@[a])
}

/// A grammar that validation accepts.
pub open spec fn ir_well_formed(g: GrammarIr) -> bool {
    &&& g.start.0 < g.productions@.len()
    &&& forall|i: int| 0 <= i < g.productions@.len() ==> #[trigger] prod_well_formed(g, g.productions@[i])
}

proof fn lemma_syms_error(g: GrammarIr, syms: Seq<SymbolRef>, k: int)
    requires
        0 <= k <= syms.len(),
    ensures
        syms_error(g, syms, k) is None <==> forall|j: int| k <= j < syms.len() ==> #[trigger] symref_error(g, syms[j]) is None,
    decreases syms.len() - k,
{
    if k < syms.len() {
        lemma_syms_error(g, syms, k + 1);
    }
}

proof fn lemma_alts_error(g: GrammarIr, prod: Production, k: int)
    requires
        0 <= k <= prod.alternatives@.len(),
    ensures
        alts_error(g, prod, k) is None <==> forall|j: int| k <= j < prod.alternatives@.len() ==> #[trigger] alt_well_formed(g, prod.alternatives@[j]),
    decreases prod.alternatives@.len() - k,
{
    let alts = prod.alternatives@;
    if k < alts.len() {
        lemma_alts_error(g, prod, k + 1);
        lemma_syms_error(g, alts[k].symbols@, 0);
        if alts_error(g, prod, k) is None {
            assert forall|j: int| k <= j < alts.len() implies #[trigger] alt_well_formed(g, alts[j]) by {
                if j > k {
                    assert(alt_well_formed(g, alts[j]));
                }
            }
        }
        if forall|j: int| k <= j < alts.len() ==> #[trigger] alt_well_formed(g, alts[j]) {
            assert(alt_well_formed(g, alts[k]));
            assert forall|j: int| k + 1 <= j < alts.len() implies #[trigger] alt_well_formed(g, alts[j]) by {
                assert(alt_well_formed(g, alts[j]));
            }
        }
    }
}

proof fn lemma_prods_error(g: GrammarIr, k: int)
    requires
        0 <= k <= g.productions@.len(),
    ensures
        prods_error(g, k) is None <==> forall|j: int| k <= j < g.productions@.len() ==> #[trigger] prod_well_formed(g, g.productions@[j]),
    decreases g.productions@.len() - k,
{
    let ps = g.productions@;
    if k < ps.len() {
        lemma_prods_error(g, k + 1);
        lemma_alts_error(g, ps[k], 0);
        if prods_error(g, k) is None {
            assert forall|j: int| k <= j < ps.len() implies #[trigger] prod_well_formed(g, ps[j]) by {
                if j > k {
                    assert(prod_well_formed(g, ps[j]));
                }
            }
        }
        if forall|j: int| k <= j < ps.len() ==> #[trigger] prod_well_formed(g, ps[j]) {
            assert(prod_well_formed(g, ps[k]));
            assert forall|j: int| k + 1 <= j < ps.len() implies #[trigger] prod_well_formed(g, ps[j]) by {
                assert(prod_well_formed(g, ps[j]));
            }
        }
    }
}

/// Validation accepts exactly the well-formed grammars.
pub proof fn lemma_validate_ok(g: GrammarIr)
    ensures
        validate_spec(g) is Ok <==> ir_well_formed(g),
{
    lemma_prods_error(g, 0);
}

impl GrammarIr {
    /// Check the start production, that every production and alternative is
    /// non-empty, and that every reference is in range; report the first problem.
    pub fn validate(&self) -> (r: Result<(), IrError>)
        ensures
            r == validate_spec(*self),
            r is Ok <==> ir_well_formed(*self),
    {
        proof {
            lemma_validate_ok(*self);
        }
        if self.start.0 as usize >= self.productions.len() {
            return Err(IrError::MissingStartProduction);
        }
        let mut i: usize = 0;
        while i < self.productions.len()
            invariant
                self.start.0 < self.productions@.len(),
                validate_spec(*self) is Ok <==> ir_well_formed(*self),
                0 <= i <= self.productions@.len(),
                prods_error(*self, 0) == prods_error(*self, i as int),
            decreases self.productions@.len() - i,
        {
            let prod = &self.productions[i];
            if prod.alternatives.len() == 0 {
                return Err(IrError::EmptyAlternative { production: prod.id });
            }
            let mut a: usize = 0;
            while a < prod.alternatives.len()
                invariant
                    0 <= i < self.productions@.len(),
                    *prod == self.productions@[i as int],
                    prod.alternatives@.len() > 0,
                    prods_error(*self, 0) == prods_error(*self, i as int),
                    self.start.0 < self.productions@.len(),
                    validate_spec(*self) is Ok <==> ir_well_formed(*self),
                    0 <= a <= prod.alternatives@.len(),
                    alts_error(*self, *prod, 0) == alts_error(*self, *prod, a as int),
                decreases prod.alternatives@.len() - a,
            {
                let alt = &prod.alternatives[a];
                if alt.symbols.len() == 0 {
                    return Err(IrError::EmptyAlternative { production: prod.id });
                }
                let mut k: usize = 0;
                while k < alt.symbols.len()
                    invariant
                        0 <= i < self.productions@.len(),
                        *prod == self.productions@[i as int],
                        prod.alternatives@.len() > 0,
                        prods_error(*self, 0) == prods_error(*self, i as int),
                        self.start.0 < self.productions@.len(),
                        validate_spec(*self) is Ok <==> ir_well_formed(*self),
                        0 <= a < prod.alternatives@.len(),
                        *alt == prod.alternatives@[a as int],
                        alt.symbols@.len() > 0,
                        alts_error(*self, *prod, 0) == alts_error(*self, *prod, a as int),
                        0 <= k <= alt.symbols@.len(),
                        syms_error(*self, alt.symbols@, 0) == syms_error(*self, alt.symbols@, k as int),
                    decreases alt.symbols@.len() - k,
                {
                    let sr = &alt.symbols[k];
                    if sr.symbol.0 as usize >= self.symbols.len() {
                        return Err(IrError::InvalidSymbolRef(sr.symbol));
                    }
                    if let Symbol::NonTerminal(pid) = &self.symbols[sr.symbol.0 as usize] {
                        if pid.0 as usize >= self.productions.len() {
                            return Err(IrError::InvalidProductionRef(*pid));
                        }
                    }
                    k += 1;
                }
                a += 1;
            }
            i += 1;
        }
        Ok(())
    }
}

} // verus!
