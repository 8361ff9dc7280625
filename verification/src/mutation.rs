//! Mutation of decision tapes: tape-level operators that change bytes, and
//! structure-aware ones that use the tape map and the tree.
use vstd::prelude::*;
use rand::rngs::SmallRng;
use crate::ids::{NodeId, ProductionId};
use crate::ast::{Ast, AstV, NodeV, NodeKindV};
use crate::grammar::GrammarIr;
use crate::profile::Profile;
use crate::tape_map::{TapeMap, TapeEntry, ModifierByte};
use crate::generate::{generate_from, generate_ready};
use crate::rng::{random_below, random_below_u32, random_byte, random_coin, random_shift, random_in};

verus! {

// ── Per-input analysis ──

/// The number of nodes below `id`, itself included, looking at most `fuel`
/// levels down.
pub open spec fn tree_size(nodes: Seq<NodeV>, id: NodeId, fuel: nat) -> nat
    decreases fuel, 0nat, 0nat,
{
    if fuel == 0 || id.0 >= nodes.len() {
        0
    } else {
        1 + children_size(nodes, nodes[id.0 as int].children, 0, (fuel - 1) as nat)
    }
}

/// The sum of `tree_size` over `children[i..]`.
pub open spec fn children_size(nodes: Seq<NodeV>, children: Seq<NodeId>, i: int, fuel: nat) -> nat
    decreases fuel, 1nat, (if i < children.len() { children.len() - i } else { 0 }) as nat,
{
    if i < 0 || i >= children.len() {
        0
    } else {
        tree_size(nodes, children[i], fuel) + children_size(nodes, children, i + 1, fuel)
    }
}

/// Every node listed under production `p` is a node of the tree for `p`.
pub open spec fn listed_ok(nodes: Seq<NodeV>, lists: Seq<Seq<NodeId>>) -> bool {
    forall|p: int, k: int| 0 <= p < lists.len() && 0 <= k < lists[p].len() ==> {
        &&& (#[trigger] lists[p][k]).0 < nodes.len()
        &&& nodes[lists[p][k].0 as int].kind == NodeKindV::Production(ProductionId(p as u32))
    }
}

/// Every production node names one of `n_prods` productions.
pub open spec fn productions_below(nodes: Seq<NodeV>, n_prods: int) -> bool {
    forall|i: int| 0 <= i < nodes.len() ==> match (#[trigger] nodes[i]).kind {
        NodeKindV::Production(p) => p.0 < n_prods,
        _ => true,
    }
}

/// Per-input analysis for the mutation engine: the tape map with, from the
/// tree, the production nodes of each production, subtree sizes and depths.
pub struct MutationMeta {
    pub tape_map: TapeMap,
    /// For each production id, the production nodes with that id.
    pub nodes_by_production: Vec<Vec<NodeId>>,
    /// Subtree size (number of nodes) of each node.
    pub subtree_sizes: Vec<u32>,
    /// Depth of each node (the root is at 0).
    pub depths: Vec<u32>,
}

pub open spec fn lists_view(v: Seq<Vec<NodeId>>) -> Seq<Seq<NodeId>> {
    v.map_values(|l: Vec<NodeId>| l@)
}

proof fn lemma_size_parts(nodes: Seq<NodeV>, children: Seq<NodeId>, i: int, fuel: nat)
    requires
        0 <= i < children.len(),
    ensures
        tree_size(nodes, children[i], fuel) <= children_size(nodes, children, i, fuel),
        children_size(nodes, children, i + 1, fuel) <= children_size(nodes, children, i, fuel),
{
}

impl MutationMeta {
    /// Walk the tree from the root, recording the depth and subtree size of
    /// each node and listing production nodes by production.
    pub fn compute(ast: &Ast, tape_map: TapeMap, grammar: &GrammarIr) -> (m: MutationMeta)
        requires
            ast.nodes@.len() < u32::MAX,
            productions_below(ast@.nodes, grammar.productions@.len() as int),
            tree_size(ast@.nodes, ast.root, ast.nodes@.len() as nat) <= u32::MAX,
        ensures
            m.tape_map == tape_map,
            m.subtree_sizes@.len() == ast.nodes@.len(),
            m.depths@.len() == ast.nodes@.len(),
            m.nodes_by_production@.len() == grammar.productions@.len(),
            listed_ok(ast@.nodes, lists_view(m.nodes_by_production@)),
            ast.root.0 < ast.nodes@.len() ==> m.subtree_sizes@[ast.root.0 as int]
                == tree_size(ast@.nodes, ast.root, ast.nodes@.len() as nat),
    {
        let n_nodes = ast.nodes.len();
        let n_prods = grammar.productions.len();
        let mut subtree_sizes: Vec<u32> = Vec::new();
        let mut depths: Vec<u32> = Vec::new();
        while subtree_sizes.len() < n_nodes
            invariant
                subtree_sizes@.len() == depths@.len(),
                subtree_sizes@.len() <= n_nodes,
            decreases n_nodes - subtree_sizes@.len(),
        {
            subtree_sizes.push(0);
            depths.push(0);
        }
        let mut nodes_by_production: Vec<Vec<NodeId>> = Vec::new();
        while nodes_by_production.len() < n_prods
            invariant
                nodes_by_production@.len() <= n_prods,
                forall|p: int| 0 <= p < nodes_by_production@.len() ==> (#[trigger] nodes_by_production@[p])@.len() == 0,
            decreases n_prods - nodes_by_production@.len(),
        {
            nodes_by_production.push(Vec::new());
        }
        assert(listed_ok(ast@.nodes, lists_view(nodes_by_production@)));
        assert(ast@.nodes.len() == ast.nodes@.len());
        dfs(ast, ast.root, 0, n_nodes, &mut subtree_sizes, &mut depths, &mut nodes_by_production);
        MutationMeta { tape_map, nodes_by_production, subtree_sizes, depths }
    }
}

/// The depth-first walk below `id`, at depth `depth`, at most `fuel` levels
/// down; returns the subtree size.
fn dfs(ast: &Ast, id: NodeId, depth: u32, fuel: usize, sizes: &mut Vec<u32>, depths: &mut Vec<u32>, lists: &mut Vec<Vec<NodeId>>) -> (size: u32)
    requires
        old(sizes)@.len() == ast.nodes@.len(),
        old(depths)@.len() == ast.nodes@.len(),
        ast@.nodes.len() == ast.nodes@.len(),
        depth + fuel <= u32::MAX,
        productions_below(ast@.nodes, old(lists)@.len() as int),
        listed_ok(ast@.nodes, lists_view(old(lists)@)),
        tree_size(ast@.nodes, id, fuel as nat) <= u32::MAX,
    ensures
        final(sizes)@.len() == old(sizes)@.len(),
        final(depths)@.len() == old(depths)@.len(),
        final(lists)@.len() == old(lists)@.len(),
        listed_ok(ast@.nodes, lists_view(final(lists)@)),
        size == tree_size(ast@.nodes, id, fuel as nat),
        fuel > 0 && id.0 < ast.nodes@.len() ==> final(sizes)@[id.0 as int] == size,
    decreases fuel, 0nat,
{
    if fuel == 0 || id.0 as usize >= ast.nodes.len() {
        return 0;
    }
    let idx = id.0 as usize;
    depths.set(idx, depth);
    let node = &ast.nodes[idx];
    assert(ast@.nodes[idx as int] == node@);
    match &node.kind {
        crate::ast::AstNodeKind::Production(pid) => {
            let p = pid.0 as usize;
            let ghost before = lists@;
            assert(ast@.nodes[idx as int].kind == NodeKindV::Production(*pid));
            lists[p].push(id);
            proof {
                assert forall|q: int, k: int| 0 <= q < lists@.len() && 0 <= k < lists_view(lists@)[q].len() implies {
                    &&& (#[trigger] lists_view(lists@)[q][k]).0 < ast@.nodes.len()
                    &&& ast@.nodes[lists_view(lists@)[q][k].0 as int].kind == NodeKindV::Production(ProductionId(q as u32))
                } by {
                    if q != p || k < before[q]@.len() {
                        assert(lists_view(lists@)[q][k] == lists_view(before)[q][k]);
                    }
                }
            }
        },
        _ => {},
    }
    let children = &node.children;
    let mut size: u32 = 1;
    let mut k: usize = 0;
    while k < children.len()
        invariant
            0 <= k <= children@.len(),
            fuel > 0,
            idx < ast.nodes@.len(),
            *children == ast.nodes@[idx as int].children,
            children@ == ast@.nodes[idx as int].children,
            ast@.nodes.len() == ast.nodes@.len(),
            depth + fuel <= u32::MAX,
            sizes@.len() == ast.nodes@.len(),
            depths@.len() == ast.nodes@.len(),
            lists@.len() == old(lists)@.len(),
            productions_below(ast@.nodes, lists@.len() as int),
            listed_ok(ast@.nodes, lists_view(lists@)),
            tree_size(ast@.nodes, id, fuel as nat) <= u32::MAX,
            tree_size(ast@.nodes, id, fuel as nat) == 1 + children_size(ast@.nodes, children@, 0, (fuel - 1) as nat),
            size + children_size(ast@.nodes, children@, k as int, (fuel - 1) as nat)
                == 1 + children_size(ast@.nodes, children@, 0, (fuel - 1) as nat),
        decreases children@.len() - k,
    {
        proof {
            assert(decreases_to!(children => children@));
            lemma_size_parts(ast@.nodes, children@, k as int, (fuel - 1) as nat);
        }
        let child = children[k];
        let s = dfs(ast, child, depth + 1, fuel - 1, sizes, depths, lists);
        size = size + s;
        k += 1;
    }
    sizes.set(idx, size);
    size
}

// ── Operators ──

/// The mutation operators.
#[derive(Debug, Clone, Copy, PartialEq, Eq, Structural)]
pub enum MutationKind {
    PointMutate,
    RangeRerandomize,
    Splice,
    SubtreeRegenerate,
    ToggleOptional,
    PerturbRepetition,
}

/// An entry whose subtree can be regenerated: it has decisions, past the
/// header and the first body byte.
pub open spec fn regen_candidate(e: TapeEntry) -> bool {
    e.tape_len > 0 && e.tape_offset > 2
}

/// An optional's choice byte that lies on a tape of `len` bytes.
pub open spec fn optional_within(m: ModifierByte, len: int) -> bool {
    m matches ModifierByte::Optional { tape_offset } && tape_offset < len
}

/// A repetition's count byte that lies on a tape of `len` bytes.
pub open spec fn repetition_within(m: ModifierByte, len: int) -> bool {
    m matches ModifierByte::Repetition { tape_offset, .. } && tape_offset < len
}

/// Pick, by reservoir sampling in one pass, an entry that can be
/// regenerated; none when there is none.
fn pick_regen_entry(entries: &Vec<TapeEntry>, rng: &mut SmallRng) -> (r: Option<usize>)
    requires
        entries@.len() < u32::MAX,
    ensures
        r is None <==> forall|i: int| 0 <= i < entries@.len() ==> !regen_candidate(#[trigger] entries@[i]),
        r matches Some(i) ==> i < entries@.len() && regen_candidate(entries@[i as int]),
{
    let mut chosen: Option<usize> = None;
    let mut count: u32 = 0;
    let mut i: usize = 0;
    while i < entries.len()
        invariant
            0 <= i <= entries@.len(),
            entries@.len() < u32::MAX,
            count <= i,
            chosen is None <==> forall|j: int| 0 <= j < i ==> !regen_candidate(#[trigger] entries@[j]),
            chosen matches Some(j) ==> j < i && regen_candidate(entries@[j as int]),
            chosen is None ==> count == 0,
        decreases entries@.len() - i,
    {
        let e = entries[i];
        if e.tape_len > 0 && e.tape_offset > 2 {
            count += 1;
            if random_below_u32(rng, count) == 0 {
                chosen = Some(i);
            }
        }
        i += 1;
    }
    chosen
}

/// Pick, by reservoir sampling, a modifier byte on the tape: an optional's
/// when `optional`, else a repetition's.
fn pick_modifier(mbs: &Vec<ModifierByte>, tape_len: usize, optional: bool, rng: &mut SmallRng) -> (r: Option<usize>)
    requires
        mbs@.len() < u32::MAX,
    ensures
        r is None <==> forall|i: int| 0 <= i < mbs@.len() ==> !(if optional {
            optional_within(#[trigger] mbs@[i], tape_len as int)
        } else {
            repetition_within(mbs@[i], tape_len as int)
        }),
        r matches Some(i) ==> i < mbs@.len() && (if optional {
            optional_within(mbs@[i as int], tape_len as int)
        } else {
            repetition_within(mbs@[i as int], tape_len as int)
        }),
{
    let mut chosen: Option<usize> = None;
    let mut count: u32 = 0;
    let mut i: usize = 0;
    while i < mbs.len()
        invariant
            0 <= i <= mbs@.len(),
            mbs@.len() < u32::MAX,
            count <= i,
            chosen is None <==> forall|j: int| 0 <= j < i ==> !(if optional {
                optional_within(#[trigger] mbs@[j], tape_len as int)
            } else {
                repetition_within(mbs@[j], tape_len as int)
            }),
            chosen matches Some(j) ==> j < i && (if optional {
                optional_within(mbs@[j as int], tape_len as int)
            } else {
                repetition_within(mbs@[j as int], tape_len as int)
            }),
            chosen is None ==> count == 0,
        decreases mbs@.len() - i,
    {
        let hit = match mbs[i] {
            ModifierByte::Optional { tape_offset } => optional && tape_offset < tape_len,
            ModifierByte::Repetition { tape_offset, .. } => !optional && tape_offset < tape_len,
        };
        if hit {
            count += 1;
            if random_below_u32(rng, count) == 0 {
                chosen = Some(i);
            }
        }
        i += 1;
    }
    chosen
}

/// A point mutation of byte `x`: one bit flipped, or one added or taken
/// away (wrapping).
pub open spec fn point_variant(x: u8, b: u8) -> bool {
    ||| exists|k: u32| k < 8 && b == x ^ (1u8 << k)
    ||| b == ((x + 1) % 256) as u8
    ||| b == ((x + 255) % 256) as u8
}

/// Flip a random bit of, or add or take one from, a random body byte (past
/// the two header bytes).
pub fn point_mutate(tape: &mut [u8], rng: &mut SmallRng)
    ensures
        final(tape)@.len() == old(tape)@.len(),
        old(tape)@.len() <= 2 ==> final(tape)@ == old(tape)@,
        old(tape)@.len() > 2 ==> exists|i: int| 2 <= i < old(tape)@.len()
            && #[trigger] point_variant(old(tape)@[i], final(tape)@[i])
            && final(tape)@[i] != old(tape)@[i]
            && final(tape)@ == old(tape)@.update(i, final(tape)@[i]),
{
    if tape.len() <= 2 {
        return;
    }
    let idx = random_in(rng, 2, tape.len());
    let x = tape[idx];
    let b: u8 = if random_coin(rng) {
        let k = random_shift(rng);
        let sh = k as u32;
        let bit = 1u8 << sh;
        assert(x ^ bit == x ^ (1u8 << sh));
        assert(x ^ bit != x) by (bit_vector)
            requires
                sh < 8,
                bit == 1u8 << sh,
        ;
        x ^ bit
    } else if random_coin(rng) {
        x.wrapping_add(1)
    } else {
        x.wrapping_sub(1)
    };
    assert(point_variant(x, b));
    tape[idx] = b;
    assert(tape@ == old(tape)@.update(idx as int, b));
    assert(point_variant(old(tape)@[idx as int], tape@[idx as int]));
}

/// Fill the tape region of a random entry with random bytes; bytes outside
/// it stay.
pub fn range_rerandomize(tape: &mut [u8], meta: &MutationMeta, rng: &mut SmallRng)
    requires
        forall|i: int| 0 <= i < meta.tape_map.entries@.len()
            ==> (#[trigger] meta.tape_map.entries@[i]).tape_offset + meta.tape_map.entries@[i].tape_len <= usize::MAX,
    ensures
        final(tape)@.len() == old(tape)@.len(),
        meta.tape_map.entries@.len() == 0 ==> final(tape)@ == old(tape)@,
        meta.tape_map.entries@.len() > 0 ==> exists|e: int| 0 <= e < meta.tape_map.entries@.len()
            && forall|j: int| 0 <= j < old(tape)@.len() && !(#[trigger] meta.tape_map.entries@[e].tape_offset <= j
                < meta.tape_map.entries@[e].tape_offset + meta.tape_map.entries@[e].tape_len)
                ==> final(tape)@[j] == old(tape)@[j],
{
    let n = meta.tape_map.entries.len();
    if n == 0 {
        return;
    }
    let e = random_below(rng, n);
    let entry = meta.tape_map.entries[e];
    let start = entry.tape_offset;
    if start >= tape.len() {
        assert(forall|j: int| 0 <= j < old(tape)@.len() && !(entry.tape_offset <= j < entry.tape_offset + entry.tape_len)
            ==> tape@[j] == old(tape)@[j]);
        return;
    }
    let stop = start + entry.tape_len;
    let end = if stop < tape.len() { stop } else { tape.len() };
    let mut j: usize = start;
    while j < end
        invariant
            start <= j <= end,
            end <= tape@.len(),
            tape@.len() == old(tape)@.len(),
            forall|m: int| 0 <= m < tape@.len() && !(start <= m < j) ==> tape@[m] == old(tape)@[m],
        decreases end - j,
    {
        let b = random_byte(rng);
        tape[j] = b;
        j += 1;
    }
}

/// Flip the choice byte of a random optional on the tape (present to
/// absent or back); false, and no change, when there is none.
pub fn toggle_optional(tape: &mut [u8], meta: &MutationMeta, rng: &mut SmallRng) -> (r: bool)
    requires
        meta.tape_map.modifier_bytes@.len() < u32::MAX,
    ensures
        r <==> exists|i: int| 0 <= i < meta.tape_map.modifier_bytes@.len()
            && #[trigger] optional_within(meta.tape_map.modifier_bytes@[i], old(tape)@.len() as int),
        !r ==> final(tape)@ == old(tape)@,
        r ==> exists|i: int| 0 <= i < meta.tape_map.modifier_bytes@.len()
            && (#[trigger] meta.tape_map.modifier_bytes@[i] matches ModifierByte::Optional { tape_offset }
                && tape_offset < old(tape)@.len()
                && final(tape)@ == old(tape)@.update(tape_offset as int, old(tape)@[tape_offset as int] ^ 1)),
{
    let mbs = &meta.tape_map.modifier_bytes;
    match pick_modifier(mbs, tape.len(), true, rng) {
        None => false,
        Some(idx) => {
            match mbs[idx] {
                ModifierByte::Optional { tape_offset } => {
                    tape[tape_offset] = tape[tape_offset] ^ 1;
                    assert(optional_within(mbs@[idx as int], old(tape)@.len() as int));
                    true
                },
                ModifierByte::Repetition { .. } => {
                    assert(false);
                    false
                },
            }
        },
    }
}

/// The repetitions whose count a perturbation can nudge without an
/// overflow: ordered bounds, and a count that has a neighbour within `u32`.
pub open spec fn repetition_ok(min: u32, max: u32) -> bool {
    &&& min <= max
    &&& max > 0
    &&& min < u32::MAX
}

/// A repetition on the tape has bounds a perturbation can work with.
pub open spec fn repetition_fits(m: ModifierByte, len: int) -> bool {
    match m {
        ModifierByte::Repetition { tape_offset, min, max } => tape_offset < len ==> repetition_ok(min, max),
        _ => true,
    }
}

/// The count a repetition byte stands for.
pub open spec fn decoded_count(byte: u8, min: u32, max: u32) -> int {
    min + (byte as int) % (max - min + 1)
}

/// The count a perturbation moves to: one up (or down at the top) when
/// `up`, one down (or up at the bottom) otherwise.
pub open spec fn nudged_count(byte: u8, min: u32, max: u32, up: bool) -> int {
    let current = decoded_count(byte, min, max);
    if up {
        if current < max { current + 1 } else { current - 1 }
    } else {
        if current > min { current - 1 } else { current + 1 }
    }
}

/// The byte written for `count`: the old byte with its residue replaced
/// when that fits in a byte, else the count's offset itself.
pub open spec fn nudged_byte(byte: u8, min: u32, max: u32, count: int) -> int {
    let r = max - min + 1;
    let base = byte - (byte as int) % r;
    let off = count - min;
    if base + off <= 255 { base + off } else { off }
}

/// `after` is `before` with the byte of repetition `m` rewritten so that
/// it stands for the nudged count.
pub open spec fn perturbed(m: ModifierByte, before: Seq<u8>, after: Seq<u8>, up: bool) -> bool {
    match m {
        ModifierByte::Repetition { tape_offset, min, max } => {
            let b = before[tape_offset as int];
            let count = nudged_count(b, min, max, up);
            &&& tape_offset < before.len()
            &&& min <= count <= max
            &&& after.len() == before.len()
            &&& after == before.update(tape_offset as int, after[tape_offset as int])
            &&& after[tape_offset as int] as int == nudged_byte(b, min, max, count)
            &&& decoded_count(after[tape_offset as int], min, max) == count
        },
        _ => false,
    }
}

/// A repetition whose count can always move by one and be written back:
/// its bounds differ, and its byte is not at 255 when more than 256
/// counts are possible (the count after it would not fit in a byte).
pub open spec fn movable(m: ModifierByte, tape: Seq<u8>) -> bool {
    m matches ModifierByte::Repetition { min, max, tape_offset } && min < max
        && (max - min + 1 <= 256 || tape[tape_offset as int] < 255)
}

/// Nudge the count of a random repetition on the tape by one, within its
/// bounds, so that the byte decodes to the new count; false, and no
/// change, when there is none, the count cannot move, or the new count
/// does not fit in a byte.
pub fn perturb_repetition(tape: &mut [u8], meta: &MutationMeta, rng: &mut SmallRng) -> (r: bool)
    requires
        meta.tape_map.modifier_bytes@.len() < u32::MAX,
        forall|i: int| 0 <= i < meta.tape_map.modifier_bytes@.len()
            ==> repetition_fits(#[trigger] meta.tape_map.modifier_bytes@[i], old(tape)@.len() as int),
    ensures
        !r ==> final(tape)@ == old(tape)@,
        r ==> exists|i: int, up: bool| 0 <= i < meta.tape_map.modifier_bytes@.len()
            && #[trigger] perturbed(meta.tape_map.modifier_bytes@[i], old(tape)@, final(tape)@, up),
        (forall|i: int| 0 <= i < meta.tape_map.modifier_bytes@.len()
            ==> !repetition_within(#[trigger] meta.tape_map.modifier_bytes@[i], old(tape)@.len() as int)) ==> !r,
        (exists|i: int| 0 <= i < meta.tape_map.modifier_bytes@.len()
            && repetition_within(#[trigger] meta.tape_map.modifier_bytes@[i], old(tape)@.len() as int))
            && (forall|i: int| 0 <= i < meta.tape_map.modifier_bytes@.len()
                && repetition_within(#[trigger] meta.tape_map.modifier_bytes@[i], old(tape)@.len() as int)
                ==> movable(meta.tape_map.modifier_bytes@[i], old(tape)@)) ==> r,
{
    let mbs = &meta.tape_map.modifier_bytes;
    let idx = match pick_modifier(mbs, tape.len(), false, rng) {
        None => {
            return false;
        },
        Some(i) => i,
    };
    let (tape_offset, min, max) = match mbs[idx] {
        ModifierByte::Repetition { tape_offset, min, max } => (tape_offset, min, max),
        ModifierByte::Optional { .. } => {
            assert(false);
            return false;
        },
    };
    assert(repetition_within(mbs@[idx as int], old(tape)@.len() as int));
    let range: u64 = (max - min) as u64 + 1;
    let current_byte = tape[tape_offset];
    let rem: u64 = current_byte as u64 % range;
    let current_count: u32 = (min as u64 + rem) as u32;
    let up = random_coin(rng);
    let new_count = if up {
        if current_count < max {
            current_count + 1
        } else {
            current_count - 1
        }
    } else if current_count > min {
        current_count - 1
    } else {
        current_count + 1
    };
    assert(new_count == nudged_count(current_byte, min, max, up));
    if new_count < min || new_count > max {
        return false;
    }
    let offset: u64 = (new_count - min) as u64;
    assert(rem <= current_byte as u64) by (nonlinear_arith)
        requires
            range > 0,
            rem == (current_byte as u64) % range,
    ;
    let base: u64 = current_byte as u64 - rem;
    let nb: u64 = if base + offset <= 255 {
        base + offset
    } else if offset <= 255 {
        offset
    } else {
        proof {
            if movable(mbs@[idx as int], old(tape)@) {
                assert(range > 256);
                assert(current_byte < 255);
                assert(rem == current_byte);
            }
        }
        return false;
    };
    proof {
        let ri = range as int;
        vstd::arithmetic::div_mod::lemma_fundamental_div_mod(current_byte as int, ri);
        let q = (current_byte as int) / ri;
        assert(base == ri * q);
        if base + offset <= 255 {
            vstd::arithmetic::div_mod::lemma_mod_multiples_vanish(q, offset as int, ri);
        }
        vstd::arithmetic::div_mod::lemma_small_mod(offset as nat, ri as nat);
        assert(nb as int == nudged_byte(current_byte, min, max, new_count as int));
        assert(((nb as u8) as int) % ri == offset as int);
    }
    tape[tape_offset] = nb as u8;
    proof {
        if movable(mbs@[idx as int], old(tape)@) {
            assert(min < max);
            assert(min <= new_count <= max);
        }
    }
    assert(perturbed(mbs@[idx as int], old(tape)@, tape@, up));
    true
}

/// `after` is `before` with the region of entry `e` (cut at the end of the
/// tape) replaced by `body`.
pub open spec fn spliced(before: Seq<u8>, after: Seq<u8>, e: TapeEntry, body: Seq<u8>) -> bool {
    let start = e.tape_offset as int;
    let stop = e.tape_offset + e.tape_len;
    let end = if stop < before.len() { stop } else { before.len() as int };
    after == before.subrange(0, start) + body + before.subrange(end, before.len() as int)
}

/// Regenerate the subtree of a random entry: generate afresh from its
/// production and put the new decisions (the tape body, without header) in
/// place of the entry's region. False, and no change, when no entry can be
/// regenerated or generation fails.
pub fn subtree_regenerate(tape: &mut Vec<u8>, meta: &MutationMeta, grammar: &GrammarIr, profile: &Profile, rng: &mut SmallRng) -> (r: bool)
    requires
        generate_ready(*grammar, *profile),
        meta.tape_map.entries@.len() < u32::MAX,
        forall|i: int| 0 <= i < meta.tape_map.entries@.len() && regen_candidate(#[trigger] meta.tape_map.entries@[i]) ==> {
            &&& meta.tape_map.entries@[i].production_id.0 < grammar.productions@.len()
            &&& meta.tape_map.entries@[i].tape_offset <= old(tape)@.len()
            &&& meta.tape_map.entries@[i].tape_offset + meta.tape_map.entries@[i].tape_len <= usize::MAX
        },
    ensures
        (forall|i: int| 0 <= i < meta.tape_map.entries@.len() ==> !regen_candidate(#[trigger] meta.tape_map.entries@[i])) ==> !r,
        !r ==> final(tape)@ == old(tape)@,
        r ==> exists|i: int, body: Seq<u8>| 0 <= i < meta.tape_map.entries@.len()
            && regen_candidate(meta.tape_map.entries@[i])
            && #[trigger] spliced(old(tape)@, final(tape)@, meta.tape_map.entries@[i], body),
{
    let entries = &meta.tape_map.entries;
    let idx = match pick_regen_entry(entries, rng) {
        None => {
            return false;
        },
        Some(i) => i,
    };
    let entry = entries[idx];
    match generate_from(grammar, entry.production_id, profile, rng) {
        Ok((_ast, sub_tape, _map)) => {
            let start = entry.tape_offset;
            let stop = start + entry.tape_len;
            let end = if stop < tape.len() { stop } else { tape.len() };
            let mut out: Vec<u8> = Vec::new();
            let mut j: usize = 0;
            while j < start
                invariant
                    0 <= j <= start,
                    start <= tape@.len(),
                    out@ == tape@.subrange(0, j as int),
                decreases start - j,
            {
                out.push(tape[j]);
                assert(tape@.subrange(0, j as int + 1) =~= tape@.subrange(0, j as int).push(tape@[j as int]));
                j += 1;
            }
            let ghost head = out@;
            let mut k: usize = 2;
            while k < sub_tape.bytes.len()
                invariant
                    2 <= k <= sub_tape.bytes@.len(),
                    out@ == head + sub_tape.bytes@.subrange(2, k as int),
                decreases sub_tape.bytes@.len() - k,
            {
                out.push(sub_tape.bytes[k]);
                assert(head + sub_tape.bytes@.subrange(2, k as int + 1) =~= (head + sub_tape.bytes@.subrange(2, k as int)).push(sub_tape.bytes@[k as int]));
                k += 1;
            }
            let ghost mid = out@;
            let mut j: usize = end;
            while j < tape.len()
                invariant
                    end <= j <= tape@.len(),
                    out@ == mid + tape@.subrange(end as int, j as int),
                decreases tape@.len() - j,
            {
                out.push(tape[j]);
                assert(mid + tape@.subrange(end as int, j as int + 1) =~= (mid + tape@.subrange(end as int, j as int)).push(tape@[j as int]));
                j += 1;
            }
            let ghost body = sub_tape.bytes@.subrange(2, sub_tape.bytes@.len() as int);
            *tape = out;
            assert(spliced(old(tape)@, tape@, entries@[idx as int], body));
            true
        },
        Err(_) => false,
    }
}

} // verus!
