//! The parsed form of a grammar source, before it is built into IR.
use vstd::prelude::*;

verus! {

pub struct RawGrammar<I> {
    pub rules: Vec<RawRule<I>>,
}

pub struct RawRule<I> {
    pub name: String,
    pub alternatives: Vec<RawAlternative<I>>,
    pub line: usize,
    pub col: usize,
}

pub struct RawAlternative<I> {
    pub items: Vec<I>,
}

#[derive(Clone, Copy, PartialEq, Eq, Structural)]
pub enum RawQuantifier {
    Optional,
    ZeroOrMore,
    OneOrMore,
}

/// One item of a rule body, as the grammar front ends read it.
pub enum RawItem {
    /// A quoted string.
    Literal(String),
    /// A reference to a rule, with the line and column where it occurs.
    NonTerminal(String, usize, usize),
    /// A character class of byte ranges.
    CharClass { ranges: Vec<(u8, u8)>, negated: bool },
    /// Any single byte.
    AnyChar,
    /// Parenthesised alternatives.
    Group(Vec<RawAlternative<RawItem>>),
    /// An item under `?`, `*` or `+`.
    Quantified(Box<RawItem>, RawQuantifier),
    /// Bracketed alternatives: at most once.
    Optional(Vec<RawAlternative<RawItem>>),
    /// Braced alternatives: any number of times.
    Repeat(Vec<RawAlternative<RawItem>>),
    /// `n * item`: exactly `n` times.
    Factor(u32, Box<RawItem>),
}

/// An item as a value: text by its characters, groups as sequences of
/// alternatives, each a sequence of items.
pub enum ItemV {
    Literal(Seq<char>),
    NonTerminal(Seq<char>, usize, usize),
    CharClass(Seq<(u8, u8)>, bool),
    AnyChar,
    Group(Seq<Seq<ItemV>>),
    Quantified(Box<ItemV>, RawQuantifier),
    Optional(Seq<Seq<ItemV>>),
    Repeat(Seq<Seq<ItemV>>),
    Factor(u32, Box<ItemV>),
}

/// A rule as a value: its name, alternatives, and where its name stands.
pub struct RuleV {
    pub name: Seq<char>,
    pub alts: Seq<Seq<ItemV>>,
    pub line: usize,
    pub col: usize,
}

pub open spec fn item_view(i: RawItem) -> ItemV
    decreases i,
{
    match i {
        RawItem::Literal(s) => ItemV::Literal(s@),
        RawItem::NonTerminal(s, l, c) => ItemV::NonTerminal(s@, l, c),
        RawItem::CharClass { ranges, negated } => ItemV::CharClass(ranges@, negated),
        RawItem::AnyChar => ItemV::AnyChar,
        RawItem::Group(alts) => ItemV::Group(alts_view(alts@)),
        RawItem::Quantified(b, q) => ItemV::Quantified(Box::new(item_view(*b)), q),
        RawItem::Optional(alts) => ItemV::Optional(alts_view(alts@)),
        RawItem::Repeat(alts) => ItemV::Repeat(alts_view(alts@)),
        RawItem::Factor(n, b) => ItemV::Factor(n, Box::new(item_view(*b))),
    }
}

pub open spec fn items_view(items: Seq<RawItem>) -> Seq<ItemV>
    decreases items,
{
    if items.len() == 0 {
        seq![]
    } else {
        items_view(items.drop_last()).push(item_view(items.last()))
    }
}

pub open spec fn alts_view(alts: Seq<RawAlternative<RawItem>>) -> Seq<Seq<ItemV>>
    decreases alts,
{
    if alts.len() == 0 {
        seq![]
    } else {
        alts_view(alts.drop_last()).push(items_view(alts.last().items@))
    }
}

pub open spec fn rule_view(r: RawRule<RawItem>) -> RuleV {
    RuleV { name: r.name@, alts: alts_view(r.alternatives@), line: r.line, col: r.col }
}

pub open spec fn rules_view(rules: Seq<RawRule<RawItem>>) -> Seq<RuleV> {
    rules.map_values(|r: RawRule<RawItem>| rule_view(r))
}

} // verus!
