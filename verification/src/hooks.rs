//! Semantic hooks: domain layers may override the expansion of hooked
//! productions and of token pools, and observe production entry and exit.
use vstd::prelude::*;
use crate::ids::{PoolId, ProductionId};

verus! {

/// The bytes of an optional override.
pub open spec fn opt_bytes(r: Option<Vec<u8>>) -> Option<Seq<u8>> {
    match r {
        Some(v) => Some(v@),
        None => None,
    }
}

/// Intercepts generation decisions with domain-specific logic.
///
/// Each hook states, as a spec function, its next state and its answer; the
/// generator and the decoder are specified over these, so a hook must answer
/// the same way to the same question from the same state.
pub trait SemanticHooks: Sized {
    /// Next state and override for a production with a `semantic_hook` attribute.
    open spec fn production_spec(&self, hook_name: Seq<char>, tape_byte: u8, prod_id: ProductionId) -> (Self, Option<Seq<u8>>) {
        (*self, None)
    }

    /// Next state and override for a `TerminalKind::TokenPool`.
    open spec fn token_pool_spec(&self, pool_id: PoolId, tape_byte: u8) -> (Self, Option<Seq<u8>>) {
        (*self, None)
    }

    /// Next state on entry to a production.
    open spec fn enter_spec(&self, prod_id: ProductionId) -> Self {
        *self
    }

    /// Next state on exit from a production.
    open spec fn exit_spec(&self, prod_id: ProductionId) -> Self {
        *self
    }

    /// Return `Some(bytes)` to override the expansion, `None` to fall through.
    fn on_production(&mut self, hook_name: &str, tape_byte: u8, prod_id: ProductionId) -> (r: Option<Vec<u8>>)
        ensures
            (*final(self), opt_bytes(r)) == old(self).production_spec(hook_name@, tape_byte, prod_id),
    ;

    /// Return `Some(bytes)` to override the pool expansion, `None` to fall through.
    fn on_token_pool(&mut self, pool_id: PoolId, tape_byte: u8) -> (r: Option<Vec<u8>>)
        ensures
            (*final(self), opt_bytes(r)) == old(self).token_pool_spec(pool_id, tape_byte),
    ;

    /// Called on entry to every production expansion.
    fn enter_production(&mut self, prod_id: ProductionId)
        ensures
            *final(self) == old(self).enter_spec(prod_id),
    ;

    /// Called on exit from every production expansion.
    fn exit_production(&mut self, prod_id: ProductionId)
        ensures
            *final(self) == old(self).exit_spec(prod_id),
    ;
}

/// No hooks: nothing is overridden and no state changes.
impl SemanticHooks for () {
    open spec fn production_spec(&self, hook_name: Seq<char>, tape_byte: u8, prod_id: ProductionId) -> ((), Option<Seq<u8>>) {
        ((), None)
    }

    open spec fn token_pool_spec(&self, pool_id: PoolId, tape_byte: u8) -> ((), Option<Seq<u8>>) {
        ((), None)
    }

    open spec fn enter_spec(&self, prod_id: ProductionId) -> () {
        ()
    }

    open spec fn exit_spec(&self, prod_id: ProductionId) -> () {
        ()
    }

    fn on_production(&mut self, hook_name: &str, tape_byte: u8, prod_id: ProductionId) -> (r: Option<Vec<u8>>) {
        None
    }

    fn on_token_pool(&mut self, pool_id: PoolId, tape_byte: u8) -> (r: Option<Vec<u8>>) {
        None
    }

    fn enter_production(&mut self, prod_id: ProductionId) {
    }

    fn exit_production(&mut self, prod_id: ProductionId) {
    }
}

} // verus!
