//! Corpus statistics: histograms of raw values, tree depth, and a
//! streaming collector of production and alternative hits.
use vstd::prelude::*;
use crate::ids::NodeId;
use crate::ast::{Ast, AstV, NodeV};
use crate::grammar::{GrammarIr, Production};
use crate::error::{GenerateError, BudgetKind};
use crate::tape::{DecisionTape, choose_spec};
use crate::tape_map::{TapeMap, TapeEntry};
use crate::text::{decimal, chars_of, string_of, decimal_spec};

verus! {

// ── Histograms ──

/// The smallest value (`u32::MAX` for none).
pub open spec fn seq_min(s: Seq<u32>) -> u32
    decreases s.len(),
{
    if s.len() == 0 {
        u32::MAX
    } else {
        let m = seq_min(s.drop_last());
        if s.last() < m { s.last() } else { m }
    }
}

/// The largest value (0 for none).
pub open spec fn seq_max(s: Seq<u32>) -> u32
    decreases s.len(),
{
    if s.len() == 0 {
        0
    } else {
        let m = seq_max(s.drop_last());
        if s.last() > m { s.last() } else { m }
    }
}

/// How many values fall in bucket `i`: `[lo + i * size, lo + (i + 1) * size)`.
pub open spec fn bucket_count(s: Seq<u32>, lo: u32, size: int, i: int) -> nat
    decreases s.len(),
{
    if s.len() == 0 {
        0
    } else {
        bucket_count(s.drop_last(), lo, size, i) + if (s.last() - lo) / size == i { 1nat } else { 0nat }
    }
}

pub open spec fn ceil_div(a: int, b: int) -> int {
    (a + b - 1) / b
}

/// The bucket width for `range` values over `n` buckets: at least 1.
pub open spec fn bucket_size_spec(range: int, n: int) -> int {
    let s = ceil_div(range, n);
    if s >= 1 { s } else { 1 }
}

/// Histogram with fixed-size buckets.
#[derive(Debug, Clone)]
pub struct Histogram {
    /// Each entry: (bucket lower bound, count).
    pub buckets: Vec<(u32, u64)>,
    pub min: u32,
    pub max: u32,
}

/// The histogram of `values` over about `n` buckets: one bucket when all
/// values are equal, else buckets of equal width from the smallest value.
pub open spec fn histogram_ok(values: Seq<u32>, n: int, h: Histogram) -> bool {
    if values.len() == 0 {
        h.buckets@.len() == 0 && h.min == u32::MAX && h.max == 0
    } else {
        let lo = seq_min(values);
        let hi = seq_max(values);
        &&& h.min == lo
        &&& h.max == hi
        &&& lo == hi ==> h.buckets@ == seq![(lo, values.len() as u64)]
        &&& lo != hi ==> {
            let size = bucket_size_spec(hi - lo + 1, n);
            &&& h.buckets@.len() == ceil_div(hi - lo + 1, size)
            &&& forall|i: int| 0 <= i < h.buckets@.len() ==> #[trigger] h.buckets@[i]
                == ((lo + i * size) as u32, bucket_count(values, lo, size, i) as u64)
        }
    }
}

proof fn lemma_min_max(s: Seq<u32>)
    requires
        s.len() > 0,
    ensures
        forall|k: int| 0 <= k < s.len() ==> seq_min(s) <= #[trigger] s[k] <= seq_max(s),
        seq_min(s) <= seq_max(s),
    decreases s.len(),
{
    if s.len() > 1 {
        lemma_min_max(s.drop_last());
        assert forall|k: int| 0 <= k < s.len() implies seq_min(s) <= #[trigger] s[k] <= seq_max(s) by {
            if k < s.len() - 1 {
                assert(s[k] == s.drop_last()[k]);
            }
        }
    }
}

proof fn lemma_bucket_count_bound(s: Seq<u32>, lo: u32, size: int, i: int)
    ensures
        bucket_count(s, lo, size, i) <= s.len(),
    decreases s.len(),
{
    if s.len() > 0 {
        lemma_bucket_count_bound(s.drop_last(), lo, size, i);
    }
}

/// Values below `range` fall in one of the `ceil(range / size)` buckets,
/// whose lower bounds stay below `range`.
proof fn lemma_bucket_index(x: int, range: int, size: int)
    requires
        0 <= x < range,
        size >= 1,
    ensures
        0 <= x / size < ceil_div(range, size),
        (ceil_div(range, size) - 1) * size < range,
{
    assert(0 <= x / size) by (nonlinear_arith)
        requires
            0 <= x,
            size >= 1,
    ;
    assert(x / size < (range + size - 1) / size) by (nonlinear_arith)
        requires
            0 <= x < range,
            size >= 1,
    ;
    assert(((range + size - 1) / size - 1) * size < range) by (nonlinear_arith)
        requires
            range >= 1,
            size >= 1,
    ;
}

/// The sum of the counts of `b`.
pub open spec fn bucket_total(b: Seq<(u32, u64)>) -> int
    decreases b.len(),
{
    if b.len() == 0 {
        0
    } else {
        bucket_total(b.drop_last()) + b.last().1
    }
}

/// The sum of `bucket_count` over buckets `0..k`.
pub open spec fn counts_sum(s: Seq<u32>, lo: u32, size: int, k: int) -> int
    decreases k,
{
    if k <= 0 {
        0
    } else {
        counts_sum(s, lo, size, k - 1) + bucket_count(s, lo, size, k - 1)
    }
}

/// How many values fall in one of the buckets `0..k`.
pub open spec fn in_buckets(s: Seq<u32>, lo: u32, size: int, k: int) -> int
    decreases s.len(),
{
    if s.len() == 0 {
        0
    } else {
        let i = (s.last() - lo) / size;
        in_buckets(s.drop_last(), lo, size, k) + if 0 <= i < k { 1int } else { 0int }
    }
}

proof fn lemma_counts_sum_step(s: Seq<u32>, lo: u32, size: int, k: int)
    requires
        s.len() > 0,
        k >= 0,
    ensures
        counts_sum(s, lo, size, k) == counts_sum(s.drop_last(), lo, size, k)
            + if 0 <= (s.last() - lo) / size < k { 1int } else { 0int },
    decreases k,
{
    if k > 0 {
        lemma_counts_sum_step(s, lo, size, k - 1);
    }
}

proof fn lemma_counts_sum_in_buckets(s: Seq<u32>, lo: u32, size: int, k: int)
    requires
        k >= 0,
    ensures
        counts_sum(s, lo, size, k) == in_buckets(s, lo, size, k),
    decreases s.len(),
{
    if s.len() == 0 {
        lemma_counts_sum_empty(s, lo, size, k);
    } else {
        lemma_counts_sum_step(s, lo, size, k);
        lemma_counts_sum_in_buckets(s.drop_last(), lo, size, k);
    }
}

proof fn lemma_counts_sum_empty(s: Seq<u32>, lo: u32, size: int, k: int)
    requires
        s.len() == 0,
        k >= 0,
    ensures
        counts_sum(s, lo, size, k) == 0,
    decreases k,
{
    if k > 0 {
        lemma_counts_sum_empty(s, lo, size, k - 1);
    }
}

proof fn lemma_all_in_buckets(s: Seq<u32>, lo: u32, size: int, k: int)
    requires
        forall|j: int| 0 <= j < s.len() ==> 0 <= (#[trigger] s[j] - lo) / size < k,
    ensures
        in_buckets(s, lo, size, k) == s.len(),
    decreases s.len(),
{
    if s.len() > 0 {
        assert forall|j: int| 0 <= j < s.drop_last().len() implies 0 <= (#[trigger] s.drop_last()[j] - lo) / size < k by {
            assert(s.drop_last()[j] == s[j]);
        }
        lemma_all_in_buckets(s.drop_last(), lo, size, k);
        assert(s.last() == s[s.len() - 1]);
    }
}

proof fn lemma_bucket_total_prefix(b: Seq<(u32, u64)>, s: Seq<u32>, lo: u32, size: int, k: int)
    requires
        0 <= k <= b.len(),
        forall|i: int| 0 <= i < b.len() ==> (#[trigger] b[i]).1 == bucket_count(s, lo, size, i),
    ensures
        bucket_total(b.take(k)) == counts_sum(s, lo, size, k),
    decreases k,
{
    if k > 0 {
        lemma_bucket_total_prefix(b, s, lo, size, k - 1);
        assert(b.take(k).drop_last() =~= b.take(k - 1));
    }
}

/// A histogram counts every value once: its bucket counts add up to the
/// number of values.
pub proof fn lemma_histogram_counts_every_value(values: Seq<u32>, n: int, h: Histogram)
    requires
        histogram_ok(values, n, h),
        values.len() <= u64::MAX,
    ensures
        bucket_total(h.buckets@) == values.len(),
{
    if values.len() == 0 {
    } else {
        let lo = seq_min(values);
        let hi = seq_max(values);
        lemma_min_max(values);
        if lo == hi {
            assert(h.buckets@.drop_last() =~= Seq::<(u32, u64)>::empty());
            assert(bucket_total(h.buckets@) == values.len()) by {
                reveal_with_fuel(bucket_total, 2);
            }
        } else {
            let size = bucket_size_spec(hi - lo + 1, n);
            let k = ceil_div(hi - lo + 1, size);
            let b = h.buckets@;
            assert forall|i: int| 0 <= i < b.len() implies (#[trigger] b[i]).1 == bucket_count(values, lo, size, i) by {
                lemma_bucket_count_bound(values, lo, size, i);
            }
            assert forall|j: int| 0 <= j < values.len() implies 0 <= (#[trigger] values[j] - lo) / size < k by {
                lemma_bucket_index(values[j] - lo, hi - lo + 1, size);
            }
            lemma_all_in_buckets(values, lo, size, k);
            lemma_counts_sum_in_buckets(values, lo, size, k);
            lemma_bucket_total_prefix(b, values, lo, size, k);
            assert(b.len() == k);
            assert(b.take(k) =~= b);
            assert(in_buckets(values, lo, size, k) == values.len());
            assert(counts_sum(values, lo, size, k) == values.len());
            assert(bucket_total(b) == values.len());
        }
    }
}

impl Histogram {
    /// The histogram of no values.
    pub fn new() -> (h: Histogram)
        ensures
            h.buckets@.len() == 0,
            h.min == u32::MAX,
            h.max == 0,
    {
        Histogram { buckets: Vec::new(), min: 0xffff_ffff, max: 0 }
    }

    /// Build histogram buckets from recorded raw values, about `n_buckets` of them.
    pub fn build_from_raw(values: &[u32], n_buckets: usize) -> (h: Histogram)
        requires
            values@.len() > 0 && seq_min(values@) != seq_max(values@) ==> n_buckets > 0,
            values@.len() > 0 ==> seq_max(values@) - seq_min(values@) < u32::MAX,
        ensures
            histogram_ok(values@, n_buckets as int, h),
    {
        if values.len() == 0 {
            return Histogram::new();
        }
        let mut min: u32 = values[0];
        let mut max: u32 = values[0];
        let mut j: usize = 1;
        assert(values@.take(1).drop_last() =~= Seq::<u32>::empty());
        assert(values@.take(1).last() == values@[0]);
        assert(seq_min(values@.take(1)) == values@[0]) by {
            reveal_with_fuel(seq_min, 2);
        }
        assert(seq_max(values@.take(1)) == values@[0]) by {
            reveal_with_fuel(seq_max, 2);
        }
        while j < values.len()
            invariant
                1 <= j <= values@.len(),
                min == seq_min(values@.take(j as int)),
                max == seq_max(values@.take(j as int)),
            decreases values@.len() - j,
        {
            assert(values@.take(j as int + 1).drop_last() =~= values@.take(j as int));
            if values[j] < min {
                min = values[j];
            }
            if values[j] > max {
                max = values[j];
            }
            j += 1;
        }
        assert(values@.take(values@.len() as int) =~= values@);
        proof {
            lemma_min_max(values@);
        }
        if min == max {
            let mut buckets: Vec<(u32, u64)> = Vec::new();
            buckets.push((min, values.len() as u64));
            return Histogram { buckets, min, max };
        }
        let range = max - min + 1;
        let r = range as usize;
        let q = r / n_buckets;
        assert(r % n_buckets != 0 ==> q < r) by (nonlinear_arith)
            requires
                n_buckets > 0,
                q == r / n_buckets,
        ;
        let up = if r % n_buckets == 0 { q } else { q + 1 };
        let bucket_size: usize = if up >= 1 { up } else { 1 };
        assert(up == ceil_div(r as int, n_buckets as int)) by (nonlinear_arith)
            requires
                n_buckets > 0,
                q == r / n_buckets,
                up == (if r % n_buckets == 0 { q as int } else { q + 1 }),
        ;
        let q2 = r / bucket_size;
        assert(r % bucket_size != 0 ==> q2 < r) by (nonlinear_arith)
            requires
                bucket_size > 0,
                q2 == r / bucket_size,
        ;
        let actual = if r % bucket_size == 0 { q2 } else { q2 + 1 };
        assert(actual == ceil_div(r as int, bucket_size as int)) by (nonlinear_arith)
            requires
                bucket_size > 0,
                q2 == r / bucket_size,
                actual == (if r % bucket_size == 0 { q2 as int } else { q2 + 1 }),
        ;
        let mut counts: Vec<u64> = Vec::new();
        while counts.len() < actual
            invariant
                counts@.len() <= actual,
                forall|i: int| 0 <= i < counts@.len() ==> counts@[i] == 0,
            decreases actual - counts@.len(),
        {
            counts.push(0);
        }
        let mut k: usize = 0;
        while k < values.len()
            invariant
                0 <= k <= values@.len(),
                counts@.len() == actual,
                bucket_size >= 1,
                min == seq_min(values@),
                max == seq_max(values@),
                range == max - min + 1,
                r == range,
                actual == ceil_div(r as int, bucket_size as int),
                forall|v: int| 0 <= v < values@.len() ==> min <= #[trigger] values@[v] <= max,
                forall|i: int| 0 <= i < actual ==> #[trigger] counts@[i]
                    == bucket_count(values@.take(k as int), min, bucket_size as int, i),
            decreases values@.len() - k,
        {
            let v = values[k];
            let idx = ((v - min) as usize) / bucket_size;
            proof {
                lemma_bucket_index((v - min) as int, r as int, bucket_size as int);
                assert(values@.take(k as int + 1).drop_last() =~= values@.take(k as int));
                assert(values@.take(k as int + 1).last() == v);
                lemma_bucket_count_bound(values@.take(k as int), min, bucket_size as int, idx as int);
            }
            counts.set(idx, counts[idx] + 1);
            k += 1;
        }
        assert(values@.take(values@.len() as int) =~= values@);
        let mut buckets: Vec<(u32, u64)> = Vec::new();
        let mut i: usize = 0;
        proof {
            lemma_bucket_index(0, r as int, bucket_size as int);
        }
        while i < actual
            invariant
                0 <= i <= actual,
                counts@.len() == actual,
                bucket_size >= 1,
                actual == ceil_div(r as int, bucket_size as int),
                (actual - 1) * bucket_size < r,
                r == max - min + 1,
                max <= u32::MAX,
                buckets@.len() == i,
                forall|b: int| 0 <= b < i ==> #[trigger] buckets@[b] == ((min + b * bucket_size) as u32, counts@[b]),
            decreases actual - i,
        {
            assert(i * bucket_size <= (actual - 1) * bucket_size) by (nonlinear_arith)
                requires
                    i < actual,
                    bucket_size >= 1,
            ;
            let lower = min + (i * bucket_size) as u32;
            buckets.push((lower, counts[i]));
            i += 1;
        }
        Histogram { buckets, min, max }
    }
}

// ── Tree depth ──

/// The number of nodes on the longest path from `id` down to a leaf,
/// looking at most `fuel` levels down.
pub open spec fn tree_depth(nodes: Seq<NodeV>, id: NodeId, fuel: nat) -> nat
    decreases fuel, 0nat, 0nat,
{
    if fuel == 0 || id.0 >= nodes.len() {
        0
    } else {
        1 + children_depth(nodes, nodes[id.0 as int].children, 0, (fuel - 1) as nat)
    }
}

/// The largest `tree_depth` among `children[i..]` (0 for none).
pub open spec fn children_depth(nodes: Seq<NodeV>, children: Seq<NodeId>, i: int, fuel: nat) -> nat
    decreases fuel, 1nat, (if i < children.len() { children.len() - i } else { 0 }) as nat,
{
    if i < 0 || i >= children.len() {
        0
    } else {
        let a = tree_depth(nodes, children[i], fuel);
        let b = children_depth(nodes, children, i + 1, fuel);
        if a >= b { a } else { b }
    }
}

proof fn lemma_depth_bound(nodes: Seq<NodeV>, id: NodeId, fuel: nat)
    ensures
        tree_depth(nodes, id, fuel) <= fuel,
    decreases fuel, 0nat, 0nat,
{
    if fuel > 0 && id.0 < nodes.len() {
        lemma_children_bound(nodes, nodes[id.0 as int].children, 0, (fuel - 1) as nat);
    }
}

proof fn lemma_children_bound(nodes: Seq<NodeV>, children: Seq<NodeId>, i: int, fuel: nat)
    ensures
        children_depth(nodes, children, i, fuel) <= fuel,
    decreases fuel, 1nat, (if i < children.len() { children.len() - i } else { 0 }) as nat,
{
    if 0 <= i < children.len() {
        lemma_depth_bound(nodes, children[i], fuel);
        lemma_children_bound(nodes, children, i + 1, fuel);
    }
}

fn depth_below(ast: &Ast, id: NodeId, fuel: usize) -> (d: u32)
    requires
        fuel < u32::MAX,
    ensures
        d == tree_depth(ast@.nodes, id, fuel as nat),
    decreases fuel, 0nat, 0nat,
{
    proof {
        lemma_depth_bound(ast@.nodes, id, fuel as nat);
    }
    if fuel == 0 || id.0 as usize >= ast.nodes.len() {
        return 0;
    }
    let node = &ast.nodes[id.0 as usize];
    assert(ast@.nodes[id.0 as int] == node@);
    let c = depth_among(ast, &node.children, 0, fuel - 1);
    1 + c
}

fn depth_among(ast: &Ast, children: &Vec<NodeId>, i: usize, fuel: usize) -> (d: u32)
    requires
        fuel < u32::MAX,
        i <= children@.len(),
    ensures
        d == children_depth(ast@.nodes, children@, i as int, fuel as nat),
    decreases fuel, 1nat, children@.len() - i,
{
    proof {
        lemma_children_bound(ast@.nodes, children@, i as int, fuel as nat);
    }
    if i >= children.len() {
        return 0;
    }
    let a = depth_below(ast, children[i], fuel);
    let b = depth_among(ast, children, i + 1, fuel);
    if a >= b { a } else { b }
}

/// The maximum depth of the tree: the number of nodes on its longest
/// root-to-leaf path (0 for an empty tree). A tree of `n` nodes is at most
/// `n` deep, so the walk looks at most that far.
pub fn compute_max_depth(ast: &Ast) -> (d: u32)
    requires
        ast.nodes@.len() < u32::MAX,
    ensures
        d == tree_depth(ast@.nodes, ast.root, ast.nodes@.len() as nat),
{
    depth_below(ast, ast.root, ast.nodes.len())
}

// ── Number formatting ──

/// Digits grouped in threes from the right, separated by commas.
pub open spec fn with_commas(d: Seq<char>) -> Seq<char>
    decreases d.len(),
{
    if d.len() <= 3 {
        d
    } else {
        with_commas(d.take(d.len() - 3)) + seq![','] + d.skip(d.len() - 3)
    }
}

fn group_digits(d: &Vec<char>, n: usize) -> (out: Vec<char>)
    requires
        n <= d@.len(),
    ensures
        out@ == with_commas(d@.take(n as int)),
    decreases n,
{
    if n <= 3 {
        let mut out: Vec<char> = Vec::new();
        let mut i: usize = 0;
        while i < n
            invariant
                0 <= i <= n,
                n <= d@.len(),
                out@ == d@.take(i as int),
            decreases n - i,
        {
            out.push(d[i]);
            assert(d@.take(i as int).push(d@[i as int]) =~= d@.take(i as int + 1));
            i += 1;
        }
        return out;
    }
    let mut out = group_digits(d, n - 3);
    assert(d@.take(n as int).take(n - 3) =~= d@.take(n - 3));
    out.push(',');
    let ghost head = out@;
    let mut i: usize = n - 3;
    while i < n
        invariant
            n > 3,
            n - 3 <= i <= n,
            n <= d@.len(),
            out@ == head + d@.subrange(n - 3, i as int),
        decreases n - i,
    {
        out.push(d[i]);
        assert(head + d@.subrange(n - 3, i as int + 1) =~= (head + d@.subrange(n - 3, i as int)).push(d@[i as int]));
        i += 1;
    }
    assert(d@.take(n as int).skip(n - 3) =~= d@.subrange(n - 3, n as int));
    out
}

/// A count with thousands separators: `1234567` is `1,234,567`.
pub fn fmt_num(n: u64) -> (s: String)
    ensures
        s@ == with_commas(decimal_spec(n as nat)),
{
    let digits = decimal(n);
    let d = chars_of(digits.as_str());
    let grouped = group_digits(&d, d.len());
    assert(d@.take(d@.len() as int) =~= d@);
    string_of(&grouped)
}


// ── Streaming collector ──

#[derive(Debug, Clone)]
pub struct AlternativeStats {
    pub index: usize,
    pub hit_count: u64,
}

#[derive(Debug, Clone)]
pub struct ProductionStats {
    pub name: String,
    pub production_id: u32,
    pub hit_count: u64,
    pub payload_hit_count: u64,
    pub alternatives: Vec<AlternativeStats>,
    pub has_semantic_hook: bool,
}

#[derive(Debug, Clone)]
pub struct FailureBreakdown {
    pub max_depth: u64,
    pub max_total_nodes: u64,
}

#[derive(Debug, Clone)]
pub struct CorpusStats {
    pub total_payloads: u64,
    pub failures: u64,
    pub failure_breakdown: FailureBreakdown,
    pub productions: Vec<ProductionStats>,
    pub depth_histogram: Histogram,
    pub node_count_histogram: Histogram,
}

/// Streaming collector: keeps counters and raw values, not the trees.
pub struct StatsCollector {
    total_payloads: u64,
    failures: u64,
    failures_max_depth: u64,
    failures_max_nodes: u64,
    /// Per-production hit count.
    prod_hits: Vec<u64>,
    /// Per-production count of payloads that used it.
    prod_payload_hits: Vec<u64>,
    /// Per-production, per-alternative hit count.
    alt_hits: Vec<Vec<u64>>,
    /// Per-payload presence flag per production.
    presence: Vec<bool>,
    /// Productions touched by the current payload (for a fast reset).
    touched: Vec<usize>,
    /// Raw depth values (compacted into a histogram at the end).
    depth_values: Vec<u32>,
    /// Raw node-count values.
    node_count_values: Vec<u32>,
    /// Which productions have semantic hooks (no alternative attribution).
    has_semantic_hook: Vec<bool>,
    /// Number of alternatives per production.
    n_alts: Vec<usize>,
    /// Tape map entries counted so far: a bound on every hit counter.
    hits_seen: u64,
}

/// What a collector has counted so far.
pub struct CollectorView {
    pub total: u64,
    pub failures: u64,
    pub failures_max_depth: u64,
    pub failures_max_nodes: u64,
    pub prod_hits: Seq<u64>,
    pub payload_hits: Seq<u64>,
    pub alt_hits: Seq<Seq<u64>>,
    pub depths: Seq<u32>,
    pub node_counts: Seq<u32>,
    pub hooks: Seq<bool>,
    pub n_alts: Seq<usize>,
}

impl View for StatsCollector {
    type V = CollectorView;

    closed spec fn view(&self) -> CollectorView {
        CollectorView {
            total: self.total_payloads,
            failures: self.failures,
            failures_max_depth: self.failures_max_depth,
            failures_max_nodes: self.failures_max_nodes,
            prod_hits: self.prod_hits@,
            payload_hits: self.prod_payload_hits@,
            alt_hits: self.alt_hits@.map_values(|r: Vec<u64>| r@),
            depths: self.depth_values@,
            node_counts: self.node_count_values@,
            hooks: self.has_semantic_hook@,
            n_alts: self.n_alts@,
        }
    }
}

/// The shape every collector keeps: one counter row per production, one
/// counter per alternative, and raw values that fit a histogram.
pub open spec fn view_wf(v: CollectorView) -> bool {
    let n = v.prod_hits.len();
    &&& v.payload_hits.len() == n
    &&& v.alt_hits.len() == n
    &&& v.hooks.len() == n
    &&& v.n_alts.len() == n
    &&& forall|p: int| 0 <= p < n ==> (#[trigger] v.alt_hits[p]).len() == v.n_alts[p]
    &&& forall|i: int| 0 <= i < v.depths.len() ==> #[trigger] v.depths[i] < u32::MAX
    &&& forall|i: int| 0 <= i < v.node_counts.len() ==> #[trigger] v.node_counts[i] < u32::MAX
    &&& counts_add_up(v)
}

/// The counters agree: every failure exhausted one budget; every payload
/// left one depth and one size; a production is in no more payloads than
/// it was hit, nor than there were payloads.
pub open spec fn counts_add_up(v: CollectorView) -> bool {
    &&& v.failures == v.failures_max_depth + v.failures_max_nodes
    &&& v.failures <= v.total
    &&& v.depths.len() == v.total - v.failures
    &&& v.node_counts.len() == v.total - v.failures
    &&& forall|p: int| 0 <= p < v.prod_hits.len() ==> #[trigger] v.payload_hits[p] <= v.prod_hits[p]
    &&& forall|p: int| 0 <= p < v.prod_hits.len() ==> #[trigger] v.payload_hits[p] + v.failures <= v.total
}

/// How many entries of `es` name production `p`.
pub open spec fn hits_of(es: Seq<TapeEntry>, p: int) -> nat
    decreases es.len(),
{
    if es.len() == 0 {
        0
    } else {
        hits_of(es.drop_last(), p) + if es.last().production_id.0 == p { 1nat } else { 0nat }
    }
}

/// The alternative an entry is counted under: none (-1) for a production
/// with a semantic hook or without alternatives, 0 for a single one, else
/// the residue of the entry's first decision byte.
pub open spec fn attributed_alt(e: TapeEntry, bytes: Seq<u8>, hooks: Seq<bool>, n_alts: Seq<usize>) -> int {
    let p = e.production_id.0 as int;
    if hooks[p] || n_alts[p] == 0 {
        -1
    } else if n_alts[p] == 1 {
        0
    } else {
        (bytes[e.tape_offset as int] as int) % (n_alts[p] as int)
    }
}

/// An entry of a production without a hook, with alternatives, is counted
/// under the alternative that decoding reads at the entry's offset: the raw
/// choice among the production's alternatives that `dec_body` takes from
/// the tape there.
pub proof fn lemma_counted_alternative_is_decoded_choice(e: TapeEntry, bytes: Seq<u8>, hooks: Seq<bool>, n_alts: Seq<usize>)
    requires
        0 <= e.production_id.0 < hooks.len(),
        hooks.len() == n_alts.len(),
        !hooks[e.production_id.0 as int],
        n_alts[e.production_id.0 as int] >= 1,
        e.tape_offset < bytes.len(),
    ensures
        attributed_alt(e, bytes, hooks, n_alts)
            == choose_spec(bytes, e.tape_offset as int, n_alts[e.production_id.0 as int] as int).0,
        0 <= attributed_alt(e, bytes, hooks, n_alts) < n_alts[e.production_id.0 as int],
{
}

/// How many entries of `es` are counted under alternative `a` of production `p`.
pub open spec fn alt_hits_of(es: Seq<TapeEntry>, bytes: Seq<u8>, hooks: Seq<bool>, n_alts: Seq<usize>, p: int, a: int) -> nat
    decreases es.len(),
{
    if es.len() == 0 {
        0
    } else {
        alt_hits_of(es.drop_last(), bytes, hooks, n_alts, p, a) + if es.last().production_id.0 == p
            && attributed_alt(es.last(), bytes, hooks, n_alts) == a { 1nat } else { 0nat }
    }
}

/// Every entry names a production of the collector, and lies on the tape
/// where its alternative is read from it.
pub open spec fn entries_fit(es: Seq<TapeEntry>, bytes: Seq<u8>, v: CollectorView) -> bool {
    forall|i: int| 0 <= i < es.len() ==> {
        let p = (#[trigger] es[i]).production_id.0 as int;
        &&& p < v.prod_hits.len()
        &&& (!v.hooks[p] && v.n_alts[p] > 1 ==> es[i].tape_offset < bytes.len())
    }
}

/// Every counter can take `m` more hits.
pub open spec fn counters_have_room(v: CollectorView, m: int) -> bool {
    &&& v.total < u64::MAX
    &&& forall|p: int| 0 <= p < v.prod_hits.len() ==> #[trigger] v.prod_hits[p] + m <= u64::MAX
    &&& forall|p: int| 0 <= p < v.payload_hits.len() ==> #[trigger] v.payload_hits[p] < u64::MAX
    &&& forall|p: int, a: int| 0 <= p < v.alt_hits.len() && 0 <= a < v.alt_hits[p].len()
        ==> #[trigger] v.alt_hits[p][a] + m <= u64::MAX
}

/// `after` is `before` with one generated payload counted: each entry
/// hits its production and its alternative, each production named at
/// least once gains a payload hit, and the depth and size of the tree are
/// recorded.
pub open spec fn payload_recorded(before: CollectorView, after: CollectorView, tree: AstV, bytes: Seq<u8>, es: Seq<TapeEntry>) -> bool {
    let n = before.prod_hits.len();
    &&& after.total == before.total + 1
    &&& after.failures == before.failures
    &&& after.failures_max_depth == before.failures_max_depth
    &&& after.failures_max_nodes == before.failures_max_nodes
    &&& after.hooks == before.hooks
    &&& after.n_alts == before.n_alts
    &&& after.prod_hits.len() == n
    &&& after.payload_hits.len() == n
    &&& after.alt_hits.len() == n
    &&& forall|p: int| 0 <= p < n ==> #[trigger] after.prod_hits[p] == before.prod_hits[p] + hits_of(es, p)
    &&& forall|p: int| 0 <= p < n ==> #[trigger] after.payload_hits[p]
        == before.payload_hits[p] + if hits_of(es, p) > 0 { 1int } else { 0int }
    &&& forall|p: int| 0 <= p < n ==> (#[trigger] after.alt_hits[p]).len() == before.alt_hits[p].len()
    &&& forall|p: int, a: int| 0 <= p < n && 0 <= a < before.alt_hits[p].len() ==> #[trigger] after.alt_hits[p][a]
        == before.alt_hits[p][a] + alt_hits_of(es, bytes, before.hooks, before.n_alts, p, a)
    &&& after.depths == before.depths.push(tree_depth(tree.nodes, tree.root, tree.nodes.len()) as u32)
    &&& after.node_counts == before.node_counts.push(tree.nodes.len() as u32)
}

proof fn lemma_hits_bound(es: Seq<TapeEntry>, p: int)
    ensures
        hits_of(es, p) <= es.len(),
    decreases es.len(),
{
    if es.len() > 0 {
        lemma_hits_bound(es.drop_last(), p);
    }
}

proof fn lemma_alt_hits_bound(es: Seq<TapeEntry>, bytes: Seq<u8>, hooks: Seq<bool>, n_alts: Seq<usize>, p: int, a: int)
    ensures
        alt_hits_of(es, bytes, hooks, n_alts, p, a) <= es.len(),
    decreases es.len(),
{
    if es.len() > 0 {
        lemma_alt_hits_bound(es.drop_last(), bytes, hooks, n_alts, p, a);
    }
}

impl StatsCollector {
    /// The collector is well formed: its view is, and between payloads no
    /// production is marked present.
    pub closed spec fn wf(&self) -> bool {
        &&& view_wf(self@)
        &&& self.presence@.len() == self.prod_hits@.len()
        &&& forall|p: int| 0 <= p < self.presence@.len() ==> !#[trigger] self.presence@[p]
        &&& self.touched@.len() == 0
        &&& forall|p: int| 0 <= p < self.prod_hits@.len() ==> #[trigger] self.prod_hits@[p] <= self.hits_seen
        &&& forall|p: int, a: int| 0 <= p < self.alt_hits@.len() && 0 <= a < self.alt_hits@[p]@.len()
            ==> #[trigger] self.alt_hits@[p]@[a] <= self.hits_seen
    }

    /// Room to count a payload with `m` tape map entries.
    pub closed spec fn room_for(&self, m: int) -> bool {
        &&& self.total_payloads < u64::MAX
        &&& self.hits_seen + m <= u64::MAX
    }

    /// Whether there is room to count a payload with `m` tape map entries.
    pub fn has_room(&self, m: usize) -> (b: bool)
        ensures
            b == self.room_for(m as int),
    {
        self.total_payloads < 0xffff_ffff_ffff_ffff && (m as u64) <= 0xffff_ffff_ffff_ffff - self.hits_seen
    }

    /// Whether a generated payload can be counted: its tree is small enough,
    /// its tape map fits the collector and the tape, and there is room.
    pub fn payload_fits(&self, ast: &Ast, tape: &DecisionTape, tape_map: &TapeMap) -> (b: bool)
        requires
            self.wf(),
        ensures
            b == (ast.nodes@.len() < u32::MAX && entries_fit(tape_map.entries@, tape.bytes@, self@)
                && self.room_for(tape_map.entries@.len() as int)),
    {
        if ast.nodes.len() >= 0xffff_ffff || !self.has_room(tape_map.entries.len()) {
            return false;
        }
        let n = self.prod_hits.len();
        let es = &tape_map.entries;
        let mut i: usize = 0;
        while i < es.len()
            invariant
                0 <= i <= es@.len(),
                es@ == tape_map.entries@,
                n == self@.prod_hits.len(),
                self.wf(),
                forall|k: int| 0 <= k < i ==> {
                    let p = (#[trigger] es@[k]).production_id.0 as int;
                    &&& p < self@.prod_hits.len()
                    &&& (!self@.hooks[p] && self@.n_alts[p] > 1 ==> es@[k].tape_offset < tape.bytes@.len())
                },
            decreases es@.len() - i,
        {
            let p = es[i].production_id.0 as usize;
            if p >= n {
                proof {
                    if entries_fit(tape_map.entries@, tape.bytes@, self@) {
                        let e = tape_map.entries@[i as int];
                        assert(e.production_id.0 < self@.prod_hits.len());
                    }
                }
                return false;
            }
            if !self.has_semantic_hook[p] && self.n_alts[p] > 1 && es[i].tape_offset >= tape.bytes.len() {
                proof {
                    if entries_fit(tape_map.entries@, tape.bytes@, self@) {
                        let e = tape_map.entries@[i as int];
                        assert(self@.hooks[p as int] == self.has_semantic_hook@[p as int]);
                        assert(self@.n_alts[p as int] == self.n_alts@[p as int]);
                        assert(e.tape_offset < tape.bytes@.len());
                    }
                }
                return false;
            }
            i += 1;
        }
        true
    }

    /// There is room for a failure.
    pub closed spec fn room_for_failure(&self) -> bool {
        self.total_payloads < u64::MAX
    }

    pub fn has_room_for_failure(&self) -> (b: bool)
        ensures
            b == self.room_for_failure(),
    {
        self.total_payloads < 0xffff_ffff_ffff_ffff
    }

    /// A fresh collector for the productions of `grammar`.
    pub fn new_with_capacity(grammar: &GrammarIr, expected_payloads: u64) -> (c: StatsCollector)
        ensures
            c.wf(),
            c@.total == 0,
            c@.failures == 0,
            c@.failures_max_depth == 0,
            c@.failures_max_nodes == 0,
            c@.prod_hits.len() == grammar.productions@.len(),
            forall|p: int| 0 <= p < grammar.productions@.len() ==> {
                &&& #[trigger] c@.prod_hits[p] == 0
                &&& c@.payload_hits[p] == 0
                &&& c@.hooks[p] == grammar.productions@[p].attrs.semantic_hook is Some
                &&& c@.n_alts[p] == grammar.productions@[p].alternatives@.len()
                &&& forall|a: int| 0 <= a < c@.alt_hits[p].len() ==> #[trigger] c@.alt_hits[p][a] == 0
            },
            c@.depths.len() == 0,
            c@.node_counts.len() == 0,
    {
        let n = grammar.productions.len();
        let mut prod_hits: Vec<u64> = Vec::new();
        let mut prod_payload_hits: Vec<u64> = Vec::new();
        let mut alt_hits: Vec<Vec<u64>> = Vec::new();
        let mut presence: Vec<bool> = Vec::new();
        let mut has_semantic_hook: Vec<bool> = Vec::new();
        let mut n_alts: Vec<usize> = Vec::new();
        let mut i: usize = 0;
        while i < n
            invariant
                0 <= i <= n,
                n == grammar.productions@.len(),
                prod_hits@.len() == i,
                prod_payload_hits@.len() == i,
                alt_hits@.len() == i,
                presence@.len() == i,
                has_semantic_hook@.len() == i,
                n_alts@.len() == i,
                forall|p: int| 0 <= p < i ==> #[trigger] prod_hits@[p] == 0,
                forall|p: int| 0 <= p < i ==> #[trigger] prod_payload_hits@[p] == 0,
                forall|p: int| 0 <= p < i ==> !#[trigger] presence@[p],
                forall|p: int| 0 <= p < i ==> #[trigger] has_semantic_hook@[p]
                    == grammar.productions@[p].attrs.semantic_hook is Some,
                forall|p: int| 0 <= p < i ==> #[trigger] n_alts@[p] == grammar.productions@[p].alternatives@.len(),
                forall|p: int| 0 <= p < i ==> (#[trigger] alt_hits@[p])@.len() == n_alts@[p],
                forall|p: int, a: int| 0 <= p < i && 0 <= a < alt_hits@[p]@.len() ==> #[trigger] alt_hits@[p]@[a] == 0,
            decreases n - i,
        {
            let prod = &grammar.productions[i];
            let k = prod.alternatives.len();
            let mut row: Vec<u64> = Vec::new();
            while row.len() < k
                invariant
                    row@.len() <= k,
                    forall|a: int| 0 <= a < row@.len() ==> #[trigger] row@[a] == 0,
                decreases k - row@.len(),
            {
                row.push(0);
            }
            prod_hits.push(0);
            prod_payload_hits.push(0);
            alt_hits.push(row);
            presence.push(false);
            has_semantic_hook.push(prod.attrs.semantic_hook.is_some());
            n_alts.push(k);
            i += 1;
        }
        let c = StatsCollector {
            total_payloads: 0,
            failures: 0,
            failures_max_depth: 0,
            failures_max_nodes: 0,
            prod_hits,
            prod_payload_hits,
            alt_hits,
            presence,
            touched: Vec::with_capacity(n),
            depth_values: Vec::with_capacity(expected_payloads as usize),
            node_count_values: Vec::with_capacity(expected_payloads as usize),
            has_semantic_hook,
            n_alts,
            hits_seen: 0,
        };
        assert forall|p: int| 0 <= p < n implies (#[trigger] c@.alt_hits[p]) == c.alt_hits@[p]@ by {}
        c
    }

    /// Count a run that stopped on `error`, by the budget it exhausted.
    pub fn record_failure(&mut self, error: &GenerateError)
        requires
            old(self).wf(),
            old(self).room_for_failure(),
        ensures
            final(self).wf(),
            final(self)@.total == old(self)@.total + 1,
            final(self)@.failures == old(self)@.failures + 1,
            final(self)@.failures_max_depth == old(self)@.failures_max_depth
                + if error.kind_of() == BudgetKind::MaxDepth { 1int } else { 0int },
            final(self)@.failures_max_nodes == old(self)@.failures_max_nodes
                + if error.kind_of() == BudgetKind::MaxTotalNodes { 1int } else { 0int },
            final(self)@.prod_hits == old(self)@.prod_hits,
            final(self)@.payload_hits == old(self)@.payload_hits,
            final(self)@.alt_hits == old(self)@.alt_hits,
            final(self)@.depths == old(self)@.depths,
            final(self)@.node_counts == old(self)@.node_counts,
            final(self)@.hooks == old(self)@.hooks,
            final(self)@.n_alts == old(self)@.n_alts,
    {
        self.total_payloads += 1;
        self.failures += 1;
        match error {
            GenerateError::BudgetExhausted { kind: BudgetKind::MaxDepth } => {
                self.failures_max_depth += 1;
            },
            GenerateError::BudgetExhausted { kind: BudgetKind::MaxTotalNodes } => {
                self.failures_max_nodes += 1;
            },
        }
        assert(self@.depths == old(self)@.depths);
        assert(self@.node_counts == old(self)@.node_counts);
        assert(self@.alt_hits == old(self)@.alt_hits);
    }
}

impl StatsCollector {
    /// Count one generated payload: the tree `ast`, the tape it was
    /// generated from, and the map of where each production's decisions lie
    /// on that tape.
    pub fn record_payload(&mut self, ast: &Ast, tape: &DecisionTape, tape_map: &TapeMap)
        requires
            old(self).wf(),
            ast.nodes@.len() < u32::MAX,
            entries_fit(tape_map.entries@, tape.bytes@, old(self)@),
            old(self).room_for(tape_map.entries@.len() as int),
        ensures
            final(self).wf(),
            payload_recorded(old(self)@, final(self)@, ast@, tape.bytes@, tape_map.entries@),
    {
        let ghost es = tape_map.entries@;
        let ghost bytes = tape.bytes@;
        let ghost n = old(self).prod_hits@.len();
        proof {
            assert forall|p: int| 0 <= p < n implies (#[trigger] old(self)@.alt_hits[p]) == old(self).alt_hits@[p]@ by {}
            assert(counters_have_room(old(self)@, es.len() as int));
        }
        self.total_payloads += 1;
        self.hits_seen = self.hits_seen + tape_map.entries.len() as u64;
        let mut k: usize = 0;
        while k < tape_map.entries.len()
            invariant
                0 <= k <= es.len(),
                es == tape_map.entries@,
                bytes == tape.bytes@,
                n == old(self).prod_hits@.len(),
                view_wf(old(self)@),
                entries_fit(es, bytes, old(self)@),
                counters_have_room(old(self)@, es.len() as int),
                forall|p: int| 0 <= p < n ==> (#[trigger] old(self)@.alt_hits[p]) == old(self).alt_hits@[p]@,
                self.total_payloads == old(self).total_payloads + 1,
                self.hits_seen == old(self).hits_seen + es.len(),
                self.failures == old(self).failures,
                self.failures_max_depth == old(self).failures_max_depth,
                self.failures_max_nodes == old(self).failures_max_nodes,
                self.has_semantic_hook@ == old(self).has_semantic_hook@,
                self.n_alts@ == old(self).n_alts@,
                self.depth_values@ == old(self).depth_values@,
                self.node_count_values@ == old(self).node_count_values@,
                self.prod_hits@.len() == n,
                self.prod_payload_hits@.len() == n,
                self.presence@.len() == n,
                self.alt_hits@.len() == n,
                forall|p: int| 0 <= p < n ==> (#[trigger] self.alt_hits@[p])@.len() == old(self).alt_hits@[p]@.len(),
                forall|p: int| 0 <= p < n ==> #[trigger] self.prod_hits@[p]
                    == old(self).prod_hits@[p] + hits_of(es.take(k as int), p),
                forall|p: int| 0 <= p < n ==> #[trigger] self.prod_payload_hits@[p]
                    == old(self).prod_payload_hits@[p] + if hits_of(es.take(k as int), p) > 0 { 1int } else { 0int },
                forall|p: int| 0 <= p < n ==> #[trigger] self.presence@[p] == (hits_of(es.take(k as int), p) > 0),
                forall|p: usize| (p as int) < n && self.presence@[p as int] ==> #[trigger] self.touched@.contains(p),
                forall|i: int| 0 <= i < self.touched@.len() ==> #[trigger] self.touched@[i] < n,
                forall|p: int, a: int| 0 <= p < n && 0 <= a < old(self).alt_hits@[p]@.len() ==> #[trigger] self.alt_hits@[p]@[a]
                    == old(self).alt_hits@[p]@[a] + alt_hits_of(es.take(k as int), bytes, old(self)@.hooks, old(self)@.n_alts, p, a),
            decreases es.len() - k,
        {
            let entry = tape_map.entries[k];
            let pid = entry.production_id.0 as usize;
            let ghost pre = es.take(k as int);
            let ghost post = es.take(k as int + 1);
            proof {
                assert(post.drop_last() =~= pre);
                assert(post.last() == entry);
                assert(es[k as int] == entry);
                lemma_hits_bound(pre, pid as int);
                assert forall|p: int| 0 <= p < n implies #[trigger] hits_of(post, p)
                    == hits_of(pre, p) + if p == pid { 1int } else { 0int } by {}
            }
            let h = self.prod_hits[pid];
            self.prod_hits.set(pid, h + 1);
            if !self.presence[pid] {
                self.presence.set(pid, true);
                let ph = self.prod_payload_hits[pid];
                self.prod_payload_hits.set(pid, ph + 1);
                let ghost t0 = self.touched@;
                self.touched.push(pid);
                proof {
                    assert forall|q: usize| (q as int) < n && self.presence@[q as int] implies #[trigger] self.touched@.contains(q) by {
                        if q == pid {
                            assert(self.touched@[t0.len() as int] == q);
                        } else {
                            assert(t0.contains(q));
                            let i = choose|i: int| 0 <= i < t0.len() && t0[i] == q;
                            assert(self.touched@[i] == q);
                        }
                    }
                }
            }
            let ghost alt: int = attributed_alt(entry, bytes, old(self)@.hooks, old(self)@.n_alts);
            proof {
                assert forall|p: int, a: int| 0 <= p < n && 0 <= a < old(self).alt_hits@[p]@.len() implies
                    #[trigger] alt_hits_of(post, bytes, old(self)@.hooks, old(self)@.n_alts, p, a)
                    == alt_hits_of(pre, bytes, old(self)@.hooks, old(self)@.n_alts, p, a)
                        + if p == pid && a == alt { 1int } else { 0int } by {}
            }
            if !self.has_semantic_hook[pid] {
                let n_a = self.n_alts[pid];
                if n_a > 0 {
                    let alt_idx: usize = if n_a > 1 {
                        let byte = tape.bytes[entry.tape_offset] as usize;
                        byte % n_a
                    } else {
                        0
                    };
                    assert(alt_idx == alt);
                    proof {
                        assert(old(self)@.alt_hits[pid as int] == old(self).alt_hits@[pid as int]@);
                        lemma_alt_hits_bound(pre, bytes, old(self)@.hooks, old(self)@.n_alts, pid as int, alt as int);
                    }
                    let mut row: Vec<u64> = Vec::new();
                    std::mem::swap(&mut row, &mut self.alt_hits[pid]);
                    let c = row[alt_idx];
                    row.set(alt_idx, c + 1);
                    std::mem::swap(&mut row, &mut self.alt_hits[pid]);
                }
            }
            k += 1;
        }
        assert(es.take(es.len() as int) =~= es);
        let ghost mid_presence = self.presence@;
        let ghost mid_touched = self.touched@;
        let ghost mid_hits = self.prod_hits@;
        let ghost mid_payload = self.prod_payload_hits@;
        let ghost mid_alt = self.alt_hits@;
        let n_exec = self.presence.len();
        let mut j: usize = 0;
        while j < self.touched.len()
            invariant
                0 <= j <= self.touched@.len(),
                self.presence@.len() == n,
                forall|i: int| 0 <= i < self.touched@.len() ==> #[trigger] self.touched@[i] < n,
                self.touched@ == mid_touched,
                self.prod_hits@ == mid_hits,
                self.prod_payload_hits@ == mid_payload,
                self.alt_hits@ == mid_alt,
                n == n_exec,
                mid_presence.len() == n,
                forall|p: usize| (p as int) < n && mid_presence[p as int] ==> #[trigger] mid_touched.contains(p),
                forall|p: int| 0 <= p < n && self.presence@[p] ==> #[trigger] mid_presence[p],
                forall|i: int| 0 <= i < j ==> !self.presence@[#[trigger] self.touched@[i] as int],
                // unchanged by the reset
                self.total_payloads == old(self).total_payloads + 1,
                self.hits_seen == old(self).hits_seen + es.len(),
                self.failures == old(self).failures,
                self.failures_max_depth == old(self).failures_max_depth,
                self.failures_max_nodes == old(self).failures_max_nodes,
                self.has_semantic_hook@ == old(self).has_semantic_hook@,
                self.n_alts@ == old(self).n_alts@,
                self.depth_values@ == old(self).depth_values@,
                self.node_count_values@ == old(self).node_count_values@,
                self.prod_hits@.len() == n,
                self.prod_payload_hits@.len() == n,
                self.alt_hits@.len() == n,
            decreases self.touched@.len() - j,
        {
            let p = self.touched[j];
            self.presence.set(p, false);
            j += 1;
        }
        proof {
            assert forall|p: int| 0 <= p < n implies !#[trigger] self.presence@[p] by {
                if self.presence@[p] {
                    assert(mid_presence[p]);
                    assert(mid_touched.contains(p as usize));
                    let i = choose|i: int| 0 <= i < self.touched@.len() && self.touched@[i] == p as usize;
                    assert(!self.presence@[self.touched@[i] as int]);
                }
            }
        }
        self.touched.clear();
        let max_depth = compute_max_depth(ast);
        proof {
            lemma_depth_bound(ast@.nodes, ast.root, ast@.nodes.len());
        }
        self.depth_values.push(max_depth);
        self.node_count_values.push(ast.nodes.len() as u32);
        proof {
            assert forall|p: int| 0 <= p < n implies (#[trigger] self@.alt_hits[p]) == self.alt_hits@[p]@ by {}
            assert(ast@.nodes.len() == ast.nodes@.len());
            assert forall|p: int| 0 <= p < n implies #[trigger] self.prod_hits@[p] <= self.hits_seen by {
                lemma_hits_bound(es, p);
            }
            assert forall|p: int, a: int| 0 <= p < self.alt_hits@.len() && 0 <= a < self.alt_hits@[p]@.len()
                implies #[trigger] self.alt_hits@[p]@[a] <= self.hits_seen by {
                lemma_alt_hits_bound(es, bytes, old(self)@.hooks, old(self)@.n_alts, p, a);
            }
            assert forall|p: int| 0 <= p < n implies (#[trigger] self@.alt_hits[p]).len() == self@.n_alts[p] by {
                assert(old(self)@.alt_hits[p] == old(self).alt_hits@[p]@);
            }
            assert forall|i: int| 0 <= i < self@.depths.len() implies #[trigger] self@.depths[i] < u32::MAX by {
                if i < old(self)@.depths.len() {
                    assert(self@.depths[i] == old(self)@.depths[i]);
                }
            }
            assert forall|i: int| 0 <= i < self@.node_counts.len() implies #[trigger] self@.node_counts[i] < u32::MAX by {
                if i < old(self)@.node_counts.len() {
                    assert(self@.node_counts[i] == old(self)@.node_counts[i]);
                }
            }
        }
    }
}

/// The statistics of production `i` of the grammar, `prod`, from what was counted.
pub open spec fn production_stats_ok(ps: ProductionStats, prod: Production, i: int, v: CollectorView) -> bool {
    &&& ps.name@ == prod.name@
    &&& ps.production_id == prod.id.0
    &&& ps.hit_count == v.prod_hits[i]
    &&& ps.payload_hit_count == v.payload_hits[i]
    &&& ps.has_semantic_hook == v.hooks[i]
    &&& ps.alternatives@.len() == prod.alternatives@.len()
    &&& forall|a: int| 0 <= a < ps.alternatives@.len() ==> {
        &&& (#[trigger] ps.alternatives@[a]).index == a
        &&& ps.alternatives@[a].hit_count == v.alt_hits[i][a]
    }
}

proof fn lemma_max_below(s: Seq<u32>, bound: int)
    requires
        forall|i: int| 0 <= i < s.len() ==> #[trigger] s[i] < bound,
        bound > 0,
    ensures
        seq_max(s) < bound,
    decreases s.len(),
{
    if s.len() > 0 {
        assert forall|i: int| 0 <= i < s.drop_last().len() implies #[trigger] s.drop_last()[i] < bound by {
            assert(s.drop_last()[i] == s[i]);
        }
        lemma_max_below(s.drop_last(), bound);
        assert(s.last() == s[s.len() - 1]);
    }
}

impl StatsCollector {
    /// The corpus statistics: counters per production and alternative, and
    /// histograms over twenty buckets of the tree depths and sizes.
    pub fn finalize(self, grammar: &GrammarIr) -> (c: CorpusStats)
        requires
            self.wf(),
            grammar.productions@.len() <= self@.prod_hits.len(),
            forall|p: int| 0 <= p < grammar.productions@.len()
                ==> (#[trigger] grammar.productions@[p]).alternatives@.len() <= self@.n_alts[p],
        ensures
            c.total_payloads == self@.total,
            c.failures == self@.failures,
            c.failure_breakdown.max_depth == self@.failures_max_depth,
            c.failure_breakdown.max_total_nodes == self@.failures_max_nodes,
            c.productions@.len() == grammar.productions@.len(),
            forall|i: int| 0 <= i < c.productions@.len() ==> production_stats_ok(
                #[trigger] c.productions@[i], grammar.productions@[i], i, self@),
            histogram_ok(self@.depths, 20, c.depth_histogram),
            histogram_ok(self@.node_counts, 20, c.node_count_histogram),
    {
        let ghost v = self@;
        let np = grammar.productions.len();
        let mut productions: Vec<ProductionStats> = Vec::new();
        let mut i: usize = 0;
        while i < np
            invariant
                0 <= i <= np,
                np == grammar.productions@.len(),
                v == self@,
                self.wf(),
                np <= v.prod_hits.len(),
                forall|p: int| 0 <= p < np
                    ==> (#[trigger] grammar.productions@[p]).alternatives@.len() <= v.n_alts[p],
                productions@.len() == i,
                forall|k: int| 0 <= k < i ==> production_stats_ok(
                    #[trigger] productions@[k], grammar.productions@[k], k, v),
            decreases np - i,
        {
            let prod = &grammar.productions[i];
            let na = prod.alternatives.len();
            proof {
                assert(grammar.productions@[i as int].alternatives@.len() <= v.n_alts[i as int]);
                assert(v.alt_hits[i as int] == self.alt_hits@[i as int]@);
            }
            let mut alternatives: Vec<AlternativeStats> = Vec::new();
            let mut ai: usize = 0;
            while ai < na
                invariant
                    0 <= ai <= na,
                    i < np,
                    v == self@,
                    self.wf(),
                    np <= v.prod_hits.len(),
                    na <= self.alt_hits@[i as int]@.len(),
                    v.alt_hits[i as int] == self.alt_hits@[i as int]@,
                    self.alt_hits@.len() == v.prod_hits.len(),
                    alternatives@.len() == ai,
                    forall|a: int| 0 <= a < ai ==> {
                        &&& (#[trigger] alternatives@[a]).index == a
                        &&& alternatives@[a].hit_count == v.alt_hits[i as int][a]
                    },
                decreases na - ai,
            {
                alternatives.push(AlternativeStats { index: ai, hit_count: self.alt_hits[i][ai] });
                ai += 1;
            }
            productions.push(ProductionStats {
                name: prod.name.clone(),
                production_id: prod.id.0,
                hit_count: self.prod_hits[i],
                payload_hit_count: self.prod_payload_hits[i],
                alternatives,
                has_semantic_hook: self.has_semantic_hook[i],
            });
            i += 1;
        }
        proof {
            if v.depths.len() > 0 {
                lemma_max_below(v.depths, u32::MAX as int);
                lemma_min_max(v.depths);
            }
            if v.node_counts.len() > 0 {
                lemma_max_below(v.node_counts, u32::MAX as int);
                lemma_min_max(v.node_counts);
            }
        }
        let depth_histogram = Histogram::build_from_raw(self.depth_values.as_slice(), 20);
        let node_count_histogram = Histogram::build_from_raw(self.node_count_values.as_slice(), 20);
        CorpusStats {
            total_payloads: self.total_payloads,
            failures: self.failures,
            failure_breakdown: FailureBreakdown {
                max_depth: self.failures_max_depth,
                max_total_nodes: self.failures_max_nodes,
            },
            productions,
            depth_histogram,
            node_count_histogram,
        }
    }
}

impl GenerateError {
    /// The budget a run exhausted.
    pub open spec fn kind_of(&self) -> BudgetKind {
        match self {
            GenerateError::BudgetExhausted { kind } => *kind,
        }
    }
}


// ── Display order ──

/// Production `x` comes before production `y` in the coverage table: more
/// hits first, and the earlier production first among equal hits.
pub open spec fn hit_order_before(ps: Seq<ProductionStats>, x: int, y: int) -> bool {
    ps[x].hit_count > ps[y].hit_count || (ps[x].hit_count == ps[y].hit_count && x < y)
}

/// The indices of the productions ordered by hit count, highest first,
/// keeping the order of the statistics among equal counts.
pub fn productions_by_hits(stats: &CorpusStats) -> (order: Vec<usize>)
    ensures
        order@.len() == stats.productions@.len(),
        forall|k: int| 0 <= k < order@.len() ==> order@[k] < stats.productions@.len(),
        forall|i: int, j: int| 0 <= i < j < order@.len()
            ==> hit_order_before(stats.productions@, order@[i] as int, order@[j] as int),
{
    let ps = &stats.productions;
    let n = ps.len();
    let mut order: Vec<usize> = Vec::new();
    let mut i: usize = 0;
    while i < n
        invariant
            n == ps@.len(),
            ps@ == stats.productions@,
            i <= n,
            order@.len() == i,
            forall|k: int| 0 <= k < order@.len() ==> order@[k] < i,
            forall|a: int, b: int| 0 <= a < b < order@.len()
                ==> hit_order_before(ps@, order@[a] as int, order@[b] as int),
        decreases n - i,
    {
        let h = ps[i].hit_count;
        let mut pos: usize = 0;
        while pos < order.len() && !(h > ps[order[pos]].hit_count)
            invariant
                n == ps@.len(),
                i < n,
                h == ps@[i as int].hit_count,
                pos <= order@.len(),
                order@.len() == i,
                forall|k: int| 0 <= k < order@.len() ==> order@[k] < i,
                forall|q: int| 0 <= q < pos ==> ps@[order@[q] as int].hit_count >= h,
            decreases order@.len() - pos,
        {
            pos += 1;
        }
        let ghost old_order = order@;
        order.insert(pos, i);
        proof {
            assert(order@ =~= old_order.take(pos as int).push(i).add(old_order.skip(pos as int)));
            assert forall|a: int, b: int| 0 <= a < b < order@.len()
                implies hit_order_before(ps@, order@[a] as int, order@[b] as int) by {
                if b < pos {
                    assert(order@[a] == old_order[a] && order@[b] == old_order[b]);
                } else if b == pos {
                    assert(order@[a] == old_order[a]);
                } else if a < pos {
                    assert(order@[a] == old_order[a] && order@[b] == old_order[b - 1]);
                } else if a == pos {
                    assert(order@[b] == old_order[b - 1]);
                    assert(h > ps@[old_order[pos as int] as int].hit_count);
                    if b - 1 > pos {
                        assert(hit_order_before(ps@, old_order[pos as int] as int, old_order[b - 1] as int));
                    }
                } else {
                    assert(order@[a] == old_order[a - 1] && order@[b] == old_order[b - 1]);
                }
            }
        }
        i += 1;
    }
    order
}

} // verus!
