//! The decision tape: a two-byte header (validity mode, reserved) followed by
//! one byte per decision.
use vstd::prelude::*;
use rand::rngs::SmallRng;
use crate::profile::{ValidityMode, mode_byte, mode_byte_spec, mode_of_byte_spec};
use crate::rng::random_below_u16;

verus! {

/// Control header size in bytes.
pub const HEADER_SIZE: usize = 2;

#[derive(Debug, Clone, PartialEq, Eq)]
pub struct DecisionTape {
    pub bytes: Vec<u8>,
}

/// The byte at offset `o`, or 0 past the end: a tape never runs out.
pub open spec fn byte_at(t: Seq<u8>, o: int) -> u8 {
    if 0 <= o < t.len() {
        t[o]
    } else {
        0
    }
}

/// The offset after one read at `o`.
pub open spec fn next_pos(t: Seq<u8>, o: int) -> int {
    if 0 <= o < t.len() {
        o + 1
    } else {
        o
    }
}

/// The value and next offset of a choice among `n` at offset `o`.
pub open spec fn choose_spec(t: Seq<u8>, o: int, n: int) -> (int, int) {
    if n <= 1 {
        (0, o)
    } else {
        ((byte_at(t, o) as int) % n, next_pos(t, o))
    }
}

/// The value and next offset of a repetition count in `[min, max]` at offset `o`.
pub open spec fn repetition_spec(t: Seq<u8>, o: int, min: int, max: int) -> (int, int) {
    if min >= max {
        (min, o)
    } else {
        (min + (byte_at(t, o) as int) % (max - min + 1), next_pos(t, o))
    }
}

/// `after` is `before` with one more byte, whose residue modulo `n` is `r`.
pub open spec fn appended_residue(before: Seq<u8>, after: Seq<u8>, n: int, r: int) -> bool {
    &&& after.len() == before.len() + 1
    &&& after.subrange(0, before.len() as int) == before
    &&& (after[before.len() as int] as int) % n == r
}

/// What recording the choice of `chosen` among `n` appends: nothing for
/// `n <= 1`, the byte `chosen` for `n >= 256`, a byte of residue `chosen` otherwise.
pub open spec fn wrote_choice(before: Seq<u8>, after: Seq<u8>, chosen: int, n: int) -> bool {
    &&& n <= 1 ==> after == before
    &&& n >= 256 ==> after == before.push(chosen as u8)
    &&& 2 <= n < 256 ==> appended_residue(before, after, n, chosen)
}

impl DecisionTape {
    /// An empty tape whose header records `validity_mode`.
    pub fn new(validity_mode: ValidityMode) -> (t: DecisionTape)
        ensures
            t.bytes@ == seq![mode_byte_spec(validity_mode), 0u8],
    {
        let mode_byte = mode_byte(validity_mode);
        let mut bytes = Vec::new();
        bytes.push(mode_byte);
        bytes.push(0);
        DecisionTape { bytes }
    }

    pub fn from_bytes(bytes: Vec<u8>) -> (t: DecisionTape)
        ensures
            t.bytes == bytes,
    {
        DecisionTape { bytes }
    }

    /// The mode recorded in the header; `Strict` for an empty tape.
    pub fn validity_mode(&self) -> (m: ValidityMode)
        ensures
            m == (if self.bytes@.len() == 0 {
                ValidityMode::Strict
            } else {
                mode_of_byte_spec(self.bytes@[0])
            }),
    {
        if self.bytes.len() == 0 {
            return ValidityMode::Strict;
        }
        let b = self.bytes[0];
        if b == 1 {
            ValidityMode::NearValid
        } else if b == 2 {
            ValidityMode::Havoc
        } else {
            ValidityMode::Strict
        }
    }
}

/// Reads decisions from a tape, past the header.
pub struct TapeReader<'a> {
    tape: &'a [u8],
    offset: usize,
}

impl<'a> TapeReader<'a> {
    pub closed spec fn tape(&self) -> Seq<u8> {
        self.tape@
    }

    pub closed spec fn pos(&self) -> int {
        self.offset as int
    }

    /// Readers start after the header.
    pub open spec fn wf(&self) -> bool {
        self.pos() >= HEADER_SIZE
    }

    pub fn new(tape: &'a [u8]) -> (r: TapeReader<'a>)
        ensures
            r.tape() == tape@,
            r.pos() == HEADER_SIZE,
            r.wf(),
    {
        TapeReader { tape, offset: HEADER_SIZE }
    }

    /// Read one byte; 0 once the tape is exhausted.
    pub fn read_byte(&mut self) -> (b: u8)
        ensures
            b == byte_at(old(self).tape(), old(self).pos()),
            final(self).tape() == old(self).tape(),
            final(self).pos() == next_pos(old(self).tape(), old(self).pos()),
            final(self).pos() >= old(self).pos(),
            old(self).wf() ==> final(self).wf(),
    {
        if self.offset < self.tape.len() {
            let b = self.tape[self.offset];
            self.offset += 1;
            b
        } else {
            0
        }
    }

    /// Choose among `n` alternatives: the next byte modulo `n` (no byte for `n <= 1`).
    pub fn choose_among(&mut self, n: usize) -> (c: usize)
        ensures
            (c as int, final(self).pos()) == choose_spec(old(self).tape(), old(self).pos(), n as int),
            final(self).pos() >= old(self).pos(),
            final(self).tape() == old(self).tape(),
            old(self).wf() ==> final(self).wf(),
            n > 1 ==> c < n,
            n <= 1 ==> c == 0,
    {
        if n <= 1 {
            return 0;
        }
        let b = self.read_byte() as usize;
        b % n
    }

    /// Choose a repetition count in `[min, max]`.
    pub fn repetition(&mut self, min: u32, max: u32) -> (c: u32)
        ensures
            (c as int, final(self).pos()) == repetition_spec(old(self).tape(), old(self).pos(), min as int, max as int),
            final(self).pos() >= old(self).pos(),
            final(self).tape() == old(self).tape(),
            old(self).wf() ==> final(self).wf(),
            min < max ==> min <= c <= max,
    {
        if min >= max {
            return min;
        }
        let range: u64 = (max - min) as u64 + 1;
        let b = self.read_byte() as u64;
        let off: u64 = b % range;
        assert(off < range);
        (min as u64 + off) as u32
    }

    /// Current offset.
    pub fn offset(&self) -> (o: usize)
        ensures
            o == self.pos(),
    {
        self.offset
    }
}

/// Records decisions after the header.
pub struct TapeWriter {
    bytes: Vec<u8>,
}

impl TapeWriter {
    pub closed spec fn bytes(&self) -> Seq<u8> {
        self.bytes@
    }

    pub fn new(validity_mode: ValidityMode) -> (w: TapeWriter)
        ensures
            w.bytes() == seq![mode_byte_spec(validity_mode), 0u8],
    {
        let mode_byte = mode_byte(validity_mode);
        let mut bytes = Vec::new();
        bytes.push(mode_byte);
        bytes.push(0);
        TapeWriter { bytes }
    }

    /// Record the choice of `chosen` among `n`: no byte when `n <= 1`, the
    /// byte `chosen` itself when `n >= 256`, and otherwise a random byte `b`
    /// with `b % n == chosen`.
    pub fn write_choice(&mut self, chosen: usize, n: usize, rng: &mut SmallRng)
        requires
            2 <= n < 256 ==> chosen < n,
        ensures
            wrote_choice(old(self).bytes(), final(self).bytes(), chosen as int, n as int),
    {
        if n <= 1 {
            return;
        }
        if n >= 256 {
            assert(self.bytes@.push(chosen as u8) == old(self).bytes@.push(chosen as u8));
            self.bytes.push(#[verifier::truncate] (chosen as u8));
            return;
        }
        let b = encode_residue_byte(chosen, n, rng);
        self.bytes.push(b);
        assert(self.bytes@.subrange(0, old(self).bytes@.len() as int) == old(self).bytes@);
    }

    /// Record a repetition count in `[min, max]`: no byte when `min >= max`,
    /// otherwise a byte `b` with `min + b % (max - min + 1) == count`.
    pub fn write_repetition(&mut self, count: u32, min: u32, max: u32, rng: &mut SmallRng)
        requires
            min < max ==> min <= count <= max,
            min < max ==> max - min < 256,
        ensures
            min >= max ==> final(self).bytes() == old(self).bytes(),
            min < max ==> wrote_choice(old(self).bytes(), final(self).bytes(), count - min, max - min + 1),
    {
        if min >= max {
            return;
        }
        let range = (max - min + 1) as usize;
        let offset = (count - min) as usize;
        let b = encode_residue_byte(offset, range, rng);
        self.bytes.push(b);
        assert(self.bytes@.subrange(0, old(self).bytes@.len() as int) == old(self).bytes@);
        proof {
            if range == 256 {
                vstd::arithmetic::div_mod::lemma_small_mod(b as nat, 256);
                assert(b as int == offset as int);
                assert(self.bytes@ == old(self).bytes@.push(offset as u8));
            }
        }
    }

    /// Current offset.
    pub fn offset(&self) -> (o: usize)
        ensures
            o == self.bytes().len(),
    {
        self.bytes.len()
    }

    pub fn finish(self) -> (t: DecisionTape)
        ensures
            t.bytes@ == self.bytes(),
    {
        DecisionTape { bytes: self.bytes }
    }
}

/// Every residue class below `n` has a representative `c + n*k < 256` for
/// `k` up to `256 / n + (c < 256 % n)` exclusive.
proof fn lemma_residue_in_byte(c: int, n: int, k: int)
    requires
        2 <= n <= 256,
        0 <= c < n,
        0 <= k < 256int / n + (if c < 256int % n { 1int } else { 0int }),
    ensures
        c + n * k < 256,
        (c + n * k) % n == c,
{
    let q = 256int / n;
    let r = 256int % n;
    vstd::arithmetic::div_mod::lemma_fundamental_div_mod(256, n);
    assert(256 == n * q + r);
    if c < r {
        vstd::arithmetic::mul::lemma_mul_inequality(k, q, n);
        assert(k * n <= q * n);
        assert(n * k == k * n) by (nonlinear_arith);
        assert(n * q == q * n) by (nonlinear_arith);
    } else {
        vstd::arithmetic::mul::lemma_mul_inequality(k, q - 1, n);
        assert(n * k == k * n) by (nonlinear_arith);
        assert((q - 1) * n == n * q - n) by (nonlinear_arith);
    }
    vstd::arithmetic::div_mod::lemma_mod_multiples_vanish(k, c, n);
    vstd::arithmetic::div_mod::lemma_small_mod(c as nat, n as nat);
}

/// Sample a byte `b` uniformly among those with `b % n == chosen`.
pub fn encode_residue_byte(chosen: usize, n: usize, rng: &mut SmallRng) -> (b: u8)
    requires
        2 <= n <= 256,
        chosen < n,
    ensures
        (b as int) % (n as int) == chosen as int,
{
    let n16 = n as u16;
    let c16 = chosen as u16;
    let extra: u16 = if c16 < 256u16 % n16 { 1 } else { 0 };
    assert(256u16 / n16 >= 1) by (nonlinear_arith)
        requires 2 <= n16 <= 256;
    let count = 256u16 / n16 + extra;
    let k = random_below_u16(rng, count);
    proof {
        lemma_residue_in_byte(c16 as int, n16 as int, k as int);
    }
    (c16 + n16 * k) as u8
}

// ── Tapes that agree with what was written ──

/// `w1` starts with `w0`.
pub open spec fn extends(w0: Seq<u8>, w1: Seq<u8>) -> bool {
    &&& w0.len() <= w1.len()
    &&& w1.subrange(0, w0.len() as int) == w0
}

/// `t` holds the bytes of `w` at offsets `a..b`.
pub open spec fn agrees(t: Seq<u8>, w: Seq<u8>, a: int, b: int) -> bool {
    &&& 0 <= a <= b <= w.len()
    &&& b <= t.len()
    &&& forall|o: int| a <= o < b ==> #[trigger] t[o] == w[o]
}

pub proof fn lemma_extends_trans(w0: Seq<u8>, w1: Seq<u8>, w2: Seq<u8>)
    requires
        extends(w0, w1),
        extends(w1, w2),
    ensures
        extends(w0, w2),
{
    assert(w2.subrange(0, w0.len() as int) =~= w1.subrange(0, w0.len() as int));
}

pub proof fn lemma_agrees_narrow(t: Seq<u8>, w0: Seq<u8>, w1: Seq<u8>, a: int, b: int)
    requires
        extends(w0, w1),
        agrees(t, w1, a, b),
        b <= w0.len(),
    ensures
        agrees(t, w0, a, b),
{
    assert forall|o: int| a <= o < b implies #[trigger] t[o] == w0[o] by {
        assert(w1.subrange(0, w0.len() as int)[o] == w1[o]);
    }
}

pub proof fn lemma_agrees_split(t: Seq<u8>, w: Seq<u8>, a: int, b: int, c: int)
    requires
        agrees(t, w, a, c),
        a <= b <= c,
    ensures
        agrees(t, w, a, b),
        agrees(t, w, b, c),
{
}

/// A tape agreeing with `w2` from `w0` on agrees with each of the two steps.
pub proof fn lemma_agrees_parts(t: Seq<u8>, w0: Seq<u8>, w1: Seq<u8>, w2: Seq<u8>)
    requires
        extends(w0, w1),
        extends(w1, w2),
        agrees(t, w2, w0.len() as int, w2.len() as int),
    ensures
        agrees(t, w1, w0.len() as int, w1.len() as int),
        agrees(t, w2, w1.len() as int, w2.len() as int),
{
    lemma_agrees_split(t, w2, w0.len() as int, w1.len() as int, w2.len() as int);
    lemma_agrees_narrow(t, w1, w2, w0.len() as int, w1.len() as int);
}

pub proof fn lemma_extends_refl(w: Seq<u8>)
    ensures
        extends(w, w),
{
    assert(w.subrange(0, w.len() as int) =~= w);
}

/// Recording a choice only appends.
pub proof fn lemma_wrote_extends(w0: Seq<u8>, w1: Seq<u8>, chosen: int, n: int)
    requires
        wrote_choice(w0, w1, chosen, n),
    ensures
        extends(w0, w1),
{
    if n <= 1 {
        lemma_extends_refl(w0);
    } else if n >= 256 {
        assert(w1.subrange(0, w0.len() as int) =~= w0);
    }
}

/// A recorded choice among at most 256 reads back as itself from any tape
/// that holds the recorded byte, and the read moves past that byte.
pub proof fn lemma_choice_roundtrip(t: Seq<u8>, w0: Seq<u8>, w1: Seq<u8>, chosen: int, n: int)
    requires
        wrote_choice(w0, w1, chosen, n),
        1 <= n <= 256,
        0 <= chosen < n,
        agrees(t, w1, w0.len() as int, w1.len() as int),
    ensures
        choose_spec(t, w0.len() as int, n) == (chosen, w1.len() as int),
        extends(w0, w1),
{
    let o = w0.len() as int;
    if n == 1 {
        assert(w1.subrange(0, o) =~= w0);
    } else if n == 256 {
        assert(w1 == w0.push(chosen as u8));
        assert(w1.len() == o + 1);
        assert(t[o] == w1[o]);
        assert(w1.subrange(0, o) =~= w0);
        vstd::arithmetic::div_mod::lemma_small_mod(chosen as nat, 256);
        assert(byte_at(t, o) == chosen as u8);
        assert(next_pos(t, o) == o + 1);
    } else {
        assert(w1.len() == o + 1);
        assert(t[o] == w1[o]);
        assert(byte_at(t, o) == w1[o]);
        assert(next_pos(t, o) == o + 1);
    }
}

/// A recorded repetition count (a range of at most 256) reads back as
/// itself from any tape that holds the recorded byte, and the read moves past it.
pub proof fn lemma_repetition_roundtrip(t: Seq<u8>, w0: Seq<u8>, w1: Seq<u8>, count: int, lo: int, hi: int)
    requires
        lo < hi ==> wrote_choice(w0, w1, count - lo, hi - lo + 1),
        lo >= hi ==> w1 == w0 && count == lo,
        lo < hi ==> lo <= count <= hi,
        hi - lo <= 255,
        agrees(t, w1, w0.len() as int, w1.len() as int),
    ensures
        repetition_spec(t, w0.len() as int, lo, hi) == (count, w1.len() as int),
        extends(w0, w1),
{
    if lo < hi {
        lemma_choice_roundtrip(t, w0, w1, count - lo, hi - lo + 1);
    } else {
        assert(w1.subrange(0, w0.len() as int) =~= w0);
    }
}


} // verus!
