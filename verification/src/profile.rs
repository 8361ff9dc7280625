use vstd::prelude::*;

verus! {

/// How far generated inputs may stray from the grammar; recorded in the tape header.
#[derive(Debug, Clone, Copy, PartialEq, Eq, Structural)]
pub enum ValidityMode {
    Strict,
    NearValid,
    Havoc,
}

/// The header byte that encodes a validity mode.
pub open spec fn mode_byte_spec(mode: ValidityMode) -> u8 {
    match mode {
        ValidityMode::Strict => 0,
        ValidityMode::NearValid => 1,
        ValidityMode::Havoc => 2,
    }
}

/// The validity mode that a header byte stands for (unknown bytes mean `Strict`).
pub open spec fn mode_of_byte_spec(b: u8) -> ValidityMode {
    if b == 1 {
        ValidityMode::NearValid
    } else if b == 2 {
        ValidityMode::Havoc
    } else {
        ValidityMode::Strict
    }
}

/// Encodes a validity mode as its header byte.
pub fn mode_byte(mode: ValidityMode) -> (b: u8)
    ensures
        b == mode_byte_spec(mode),
{
    match mode {
        ValidityMode::Strict => 0,
        ValidityMode::NearValid => 1,
        ValidityMode::Havoc => 2,
    }
}

/// Generation budgets and knobs.
#[derive(Debug)]
pub struct Profile {
    pub validity_mode: ValidityMode,
    pub max_depth: u32,
    pub max_total_nodes: u32,
    pub repetition_bounds: (u32, u32),
    pub dictionary: Vec<Vec<u8>>,
}

impl Profile {
    /// The default profile: strict, depth 20, 10 000 nodes, repetitions up to 5.
    pub fn default_profile() -> (p: Profile)
        ensures
            p.validity_mode == ValidityMode::Strict,
            p.max_depth == 20,
            p.max_total_nodes == 10_000,
            p.repetition_bounds == (0u32, 5u32),
            p.dictionary@.len() == 0,
    {
        Profile {
            validity_mode: ValidityMode::Strict,
            max_depth: 20,
            max_total_nodes: 10_000,
            repetition_bounds: (0, 5),
            dictionary: Vec::new(),
        }
    }

    /// A builder that starts from the default profile.
    pub fn builder() -> (b: ProfileBuilder)
        ensures
            b.0.validity_mode == ValidityMode::Strict,
            b.0.max_depth == 20,
            b.0.max_total_nodes == 10_000,
            b.0.repetition_bounds == (0u32, 5u32),
            b.0.dictionary@.len() == 0,
    {
        ProfileBuilder(Profile::default_profile())
    }
}

impl Default for Profile {
    fn default() -> (p: Profile)
        ensures
            p.validity_mode == ValidityMode::Strict,
            p.max_depth == 20,
            p.max_total_nodes == 10_000,
            p.repetition_bounds == (0u32, 5u32),
            p.dictionary@.len() == 0,
    {
        Profile::default_profile()
    }
}

/// Builder for [`Profile`]; each setter replaces one field.
pub struct ProfileBuilder(pub Profile);

impl ProfileBuilder {
    pub fn validity_mode(self, mode: ValidityMode) -> (b: ProfileBuilder)
        ensures
            b.0 == (Profile { validity_mode: mode, ..self.0 }),
    {
        let mut p = self.0;
        p.validity_mode = mode;
        ProfileBuilder(p)
    }

    pub fn max_depth(self, depth: u32) -> (b: ProfileBuilder)
        ensures
            b.0 == (Profile { max_depth: depth, ..self.0 }),
    {
        let mut p = self.0;
        p.max_depth = depth;
        ProfileBuilder(p)
    }

    pub fn max_total_nodes(self, nodes: u32) -> (b: ProfileBuilder)
        ensures
            b.0 == (Profile { max_total_nodes: nodes, ..self.0 }),
    {
        let mut p = self.0;
        p.max_total_nodes = nodes;
        ProfileBuilder(p)
    }

    pub fn repetition_bounds(self, min: u32, max: u32) -> (b: ProfileBuilder)
        ensures
            b.0 == (Profile { repetition_bounds: (min, max), ..self.0 }),
    {
        let mut p = self.0;
        p.repetition_bounds = (min, max);
        ProfileBuilder(p)
    }

    pub fn dictionary(self, dict: Vec<Vec<u8>>) -> (b: ProfileBuilder)
        ensures
            b.0 == (Profile { dictionary: dict, ..self.0 }),
    {
        let mut p = self.0;
        p.dictionary = dict;
        ProfileBuilder(p)
    }

    pub fn build(self) -> (p: Profile)
        ensures
            p == self.0,
    {
        self.0
    }
}

} // verus!
