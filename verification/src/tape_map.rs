use vstd::prelude::*;
use crate::ids::{NodeId, ProductionId};

verus! {

/// Where each production's decisions lie on the tape, and where modifier bytes lie.
#[derive(Debug, Clone)]
pub struct TapeMap {
    pub entries: Vec<TapeEntry>,
    pub modifier_bytes: Vec<ModifierByte>,
}

#[derive(Debug, Clone, Copy, PartialEq, Eq, Structural)]
pub struct TapeEntry {
    pub tape_offset: usize,
    pub tape_len: usize,
    pub node_id: NodeId,
    pub production_id: ProductionId,
}

/// Records the tape position of a modifier byte (Optional choice or Repetition count).
#[derive(Debug, Clone, Copy, PartialEq, Eq, Structural)]
pub enum ModifierByte {
    Optional { tape_offset: usize },
    Repetition { tape_offset: usize, min: u32, max: u32 },
}

impl TapeMap {
    pub fn new() -> (m: TapeMap)
        ensures
            m.entries@ == Seq::<TapeEntry>::empty(),
            m.modifier_bytes@ == Seq::<ModifierByte>::empty(),
    {
        TapeMap { entries: Vec::new(), modifier_bytes: Vec::new() }
    }

    pub fn with_capacity(n: usize) -> (m: TapeMap)
        ensures
            m.entries@ == Seq::<TapeEntry>::empty(),
            m.modifier_bytes@ == Seq::<ModifierByte>::empty(),
    {
        TapeMap { entries: Vec::with_capacity(n), modifier_bytes: Vec::new() }
    }

    pub fn push(&mut self, tape_offset: usize, tape_len: usize, node_id: NodeId, production_id: ProductionId)
        ensures
            final(self).entries@ == old(self).entries@.push(TapeEntry { tape_offset, tape_len, node_id, production_id }),
            final(self).modifier_bytes@ == old(self).modifier_bytes@,
    {
        self.entries.push(TapeEntry { tape_offset, tape_len, node_id, production_id });
    }

    pub fn push_optional(&mut self, tape_offset: usize)
        ensures
            final(self).entries@ == old(self).entries@,
            final(self).modifier_bytes@ == old(self).modifier_bytes@.push(ModifierByte::Optional { tape_offset }),
    {
        self.modifier_bytes.push(ModifierByte::Optional { tape_offset });
    }

    pub fn push_repetition(&mut self, tape_offset: usize, min: u32, max: u32)
        ensures
            final(self).entries@ == old(self).entries@,
            final(self).modifier_bytes@ == old(self).modifier_bytes@.push(ModifierByte::Repetition { tape_offset, min, max }),
    {
        self.modifier_bytes.push(ModifierByte::Repetition { tape_offset, min, max });
    }
}

impl Default for TapeMap {
    fn default() -> (m: TapeMap)
        ensures
            m.entries@ == Seq::<TapeEntry>::empty(),
            m.modifier_bytes@ == Seq::<ModifierByte>::empty(),
    {
        TapeMap::new()
    }
}

} // verus!
