//! Advice on the profile limits: when at least one payload in ten failed,
//! each limit whose overruns caused more than one payload in ten to fail is
//! raised, the limit with more overruns first.

use vstd::prelude::*;
use crate::profile::Profile;
use crate::stats::CorpusStats;
use crate::text::{decimal, decimal_spec, concat};

verus! {

/// Advice as shown to a user: the setting, why, and what it would change.
#[derive(Debug, Clone)]
pub struct Recommendation {
    pub flag: String,
    pub reason: String,
    pub estimated_impact: String,
}

/// A profile limit that a generation run can overrun.
#[derive(Debug, Clone, Copy, PartialEq, Eq, Structural)]
pub enum LimitFlag {
    /// `--max-depth`, raised threefold.
    MaxDepth,
    /// `--max-nodes`, raised tenfold.
    MaxNodes,
}

/// Raise `flag` from `current_value` to `new_value`: `cause_count` of the
/// `total_failures` failed payloads overran it.
#[derive(Debug, Clone, Copy, PartialEq, Eq, Structural)]
pub struct FlagAdvice {
    pub flag: LimitFlag,
    pub current_value: u32,
    pub new_value: u64,
    pub cause_count: u64,
    pub total_failures: u64,
}

/// The factor by which a limit is raised.
pub open spec fn multiplier(flag: LimitFlag) -> u64 {
    match flag {
        LimitFlag::MaxDepth => 3,
        LimitFlag::MaxNodes => 10,
    }
}

/// The advice for one limit, when its overruns exceed a tenth of the payloads.
pub open spec fn advice_for(flag: LimitFlag, cause: u64, total: u64, failures: u64, current: u32) -> Seq<FlagAdvice> {
    if cause * 10 > total {
        seq![FlagAdvice {
            flag,
            current_value: current,
            new_value: (current * multiplier(flag)) as u64,
            cause_count: cause,
            total_failures: failures,
        }]
    } else {
        seq![]
    }
}

/// No advice below one failure in ten payloads; otherwise the advice for
/// depth and for node count, the cause with more failures first (depth on a tie).
pub open spec fn advice_spec(stats: CorpusStats, profile: Profile) -> Seq<FlagAdvice> {
    let total = stats.total_payloads;
    let failures = stats.failures;
    let bd = stats.failure_breakdown;
    if total == 0 || failures * 10 < total {
        seq![]
    } else {
        let depth = advice_for(LimitFlag::MaxDepth, bd.max_depth, total, failures, profile.max_depth);
        let nodes = advice_for(LimitFlag::MaxNodes, bd.max_total_nodes, total, failures, profile.max_total_nodes);
        if bd.max_depth >= bd.max_total_nodes {
            depth + nodes
        } else {
            nodes + depth
        }
    }
}

fn advise_one(flag: LimitFlag, cause: u64, total: u64, failures: u64, current: u32) -> (r: Vec<FlagAdvice>)
    ensures
        r@ == advice_for(flag, cause, total, failures, current),
{
    let mut r: Vec<FlagAdvice> = Vec::new();
    if (cause as u128) * 10 > total as u128 {
        let m: u64 = match flag {
            LimitFlag::MaxDepth => 3,
            LimitFlag::MaxNodes => 10,
        };
        r.push(FlagAdvice {
            flag,
            current_value: current,
            new_value: current as u64 * m,
            cause_count: cause,
            total_failures: failures,
        });
    }
    assert(r@ =~= advice_for(flag, cause, total, failures, current));
    r
}

/// The limits to raise so that fewer payloads fail, most frequent cause first.
pub fn advise(stats: &CorpusStats, profile: &Profile) -> (r: Vec<FlagAdvice>)
    ensures
        r@ == advice_spec(*stats, *profile),
{
    let total = stats.total_payloads;
    let failures = stats.failures;
    if total == 0 || (failures as u128) * 10 < total as u128 {
        return Vec::new();
    }
    let bd = &stats.failure_breakdown;
    let mut depth = advise_one(LimitFlag::MaxDepth, bd.max_depth, total, failures, profile.max_depth);
    let mut nodes = advise_one(LimitFlag::MaxNodes, bd.max_total_nodes, total, failures, profile.max_total_nodes);
    if bd.max_depth >= bd.max_total_nodes {
        depth.append(&mut nodes);
        depth
    } else {
        nodes.append(&mut depth);
        nodes
    }
}

/// The command-line name of a limit.
pub open spec fn flag_name(flag: LimitFlag) -> Seq<char> {
    match flag {
        LimitFlag::MaxDepth => "--max-depth"@,
        LimitFlag::MaxNodes => "--max-nodes"@,
    }
}

/// The command-line setting that carries out the advice: the flag, a space
/// and the new value.
pub fn flag_text(a: &FlagAdvice) -> (s: String)
    ensures
        s@ == flag_name(a.flag) + " "@ + decimal_spec(a.new_value as nat),
{
    let name = match a.flag {
        LimitFlag::MaxDepth => "--max-depth ",
        LimitFlag::MaxNodes => "--max-nodes ",
    };
    let value = decimal(a.new_value);
    proof {
        reveal_strlit("--max-depth ");
        reveal_strlit("--max-nodes ");
        reveal_strlit("--max-depth");
        reveal_strlit("--max-nodes");
        reveal_strlit(" ");
        assert("--max-depth "@ =~= "--max-depth"@ + " "@);
        assert("--max-nodes "@ =~= "--max-nodes"@ + " "@);
    }
    concat(name, value.as_str())
}

} // verus!
