use vstd::prelude::*;
use crate::ids::{NodeId, ProductionId};

verus! {

#[derive(Debug, Clone)]
pub struct Ast {
    pub nodes: Vec<AstNode>,
    pub root: NodeId,
}

#[derive(Debug, Clone)]
pub struct AstNode {
    pub id: NodeId,
    pub kind: AstNodeKind,
    pub children: Vec<NodeId>,
}

#[derive(Debug, Clone)]
pub enum AstNodeKind {
    Production(ProductionId),
    Terminal(Vec<u8>),
}

/// The mathematical content of a node kind.
pub enum NodeKindV {
    Production(ProductionId),
    Terminal(Seq<u8>),
}

/// The mathematical content of a node.
pub struct NodeV {
    pub id: NodeId,
    pub kind: NodeKindV,
    pub children: Seq<NodeId>,
}

/// The mathematical content of a tree: its nodes and its root.
pub struct AstV {
    pub nodes: Seq<NodeV>,
    pub root: NodeId,
}

impl View for AstNodeKind {
    type V = NodeKindV;

    open spec fn view(&self) -> NodeKindV {
        match self {
            AstNodeKind::Production(p) => NodeKindV::Production(*p),
            AstNodeKind::Terminal(b) => NodeKindV::Terminal(b@),
        }
    }
}

impl View for AstNode {
    type V = NodeV;

    open spec fn view(&self) -> NodeV {
        NodeV { id: self.id, kind: self.kind@, children: self.children@ }
    }
}

pub open spec fn nodes_view(nodes: Seq<AstNode>) -> Seq<NodeV> {
    nodes.map_values(|n: AstNode| n@)
}

impl View for Ast {
    type V = AstV;

    open spec fn view(&self) -> AstV {
        AstV { nodes: nodes_view(self.nodes@), root: self.root }
    }
}

/// `nodes` with a fresh childless node of kind `kind` appended; its id is its index.
pub open spec fn new_node_spec(nodes: Seq<NodeV>, kind: NodeKindV) -> Seq<NodeV> {
    nodes.push(NodeV { id: NodeId(nodes.len() as u32), kind, children: seq![] })
}

/// `nodes` with `child` appended to the children of `parent`.
pub open spec fn add_child_spec(nodes: Seq<NodeV>, parent: NodeId, child: NodeId) -> Seq<NodeV> {
    let p = parent.0 as int;
    nodes.update(p, NodeV { children: nodes[p].children.push(child), ..nodes[p] })
}

/// The bytes of the terminals below `id`, left to right, descending at most `fuel` levels.
pub open spec fn flatten(nodes: Seq<NodeV>, id: NodeId, fuel: nat) -> Seq<u8>
    decreases fuel, 0nat, 0nat,
{
    if fuel == 0 || id.0 >= nodes.len() {
        seq![]
    } else {
        match nodes[id.0 as int].kind {
            NodeKindV::Terminal(b) => b,
            NodeKindV::Production(_) => flatten_children(nodes, nodes[id.0 as int].children, 0, (fuel - 1) as nat),
        }
    }
}

/// The concatenation of `flatten` over `children[i..]`.
pub open spec fn flatten_children(nodes: Seq<NodeV>, children: Seq<NodeId>, i: int, fuel: nat) -> Seq<u8>
    decreases fuel, 1nat, (if i < children.len() { children.len() - i } else { 0 }) as nat,
{
    if i >= children.len() || i < 0 {
        seq![]
    } else {
        flatten(nodes, children[i], fuel) + flatten_children(nodes, children, i + 1, fuel)
    }
}

proof fn lemma_nodes_view_push(nodes: Seq<AstNode>, n: AstNode)
    ensures
        nodes_view(nodes.push(n)) == nodes_view(nodes).push(n@),
{
    assert(nodes_view(nodes.push(n)) =~= nodes_view(nodes).push(n@));
}

impl Ast {
    /// Append a childless node of kind `kind`; its id is its index.
    pub fn new_node(&mut self, kind: AstNodeKind) -> (id: NodeId)
        ensures
            id == NodeId(old(self).nodes@.len() as u32),
            id.0 < final(self).nodes@.len(),
            final(self).nodes@.len() == old(self).nodes@.len() + 1,
            final(self)@ == (AstV { nodes: new_node_spec(old(self)@.nodes, kind@), ..old(self)@ }),
    {
        let l = self.nodes.len();
        assert((l as u32) <= l) by (bit_vector);
        let id = NodeId(l as u32);
        let node = AstNode { id, kind, children: Vec::new() };
        proof {
            lemma_nodes_view_push(self.nodes@, node);
        }
        self.nodes.push(node);
        id
    }

    /// Append `child` to the children of `parent`.
    pub fn add_child(&mut self, parent: NodeId, child: NodeId)
        requires
            parent.0 < old(self).nodes@.len(),
        ensures
            final(self)@ == (AstV { nodes: add_child_spec(old(self)@.nodes, parent, child), ..old(self)@ }),
            final(self).nodes@.len() == old(self).nodes@.len(),
    {
        let idx = parent.0 as usize;
        self.nodes[idx].children.push(child);
        assert(nodes_view(self.nodes@) =~= add_child_spec(nodes_view(old(self).nodes@), parent, child));
    }

    /// Flatten the tree to bytes by walking its terminal nodes in order.
    /// The walk descends at most `nodes.len()` levels, the height of any tree
    /// with that many nodes.
    pub fn serialize(&self) -> (out: Vec<u8>)
        ensures
            out@ == flatten(self@.nodes, self.root, self.nodes@.len() as nat),
    {
        let mut out = Vec::new();
        self.serialize_node(self.root, self.nodes.len(), &mut out);
        out
    }

    fn serialize_node(&self, node_id: NodeId, fuel: usize, out: &mut Vec<u8>)
        ensures
            final(out)@ == old(out)@ + flatten(self@.nodes, node_id, fuel as nat),
        decreases fuel, 0nat, 0nat,
    {
        if fuel == 0 || node_id.0 as usize >= self.nodes.len() {
            assert(old(out)@ + seq![] =~= old(out)@);
            return;
        }
        let node = &self.nodes[node_id.0 as usize];
        assert(self@.nodes[node_id.0 as int] == node@);
        match &node.kind {
            AstNodeKind::Terminal(bytes) => {
                out.extend_from_slice(bytes.as_slice());
                assert(out@ =~= old(out)@ + bytes@);
            },
            AstNodeKind::Production(_) => {
                self.serialize_children(&node.children, 0, fuel - 1, out);
            },
        }
    }

    fn serialize_children(&self, children: &Vec<NodeId>, i: usize, fuel: usize, out: &mut Vec<u8>)
        requires
            i <= children@.len(),
        ensures
            final(out)@ == old(out)@ + flatten_children(self@.nodes, children@, i as int, fuel as nat),
        decreases fuel, 1nat, children@.len() - i,
    {
        if i >= children.len() {
            assert(old(out)@ + seq![] =~= old(out)@);
            return;
        }
        let ghost before = out@;
        self.serialize_node(children[i], fuel, out);
        self.serialize_children(children, i + 1, fuel, out);
        assert(out@ =~= before + flatten_children(self@.nodes, children@, i as int, fuel as nat));
    }
}

} // verus!
