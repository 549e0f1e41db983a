//! The trie node codec and the partial-trie builder: proof-node bytes keyed
//! by their Keccak-256 hash, materialized into a sparse trie hanging from a
//! declared root hash. Subtrees off the proven paths stay as hash stubs.

use vstd::prelude::*;

use crate::access::clone_bytes;
use crate::collections::{plookup, BytesMap};
use crate::errors::WitnessError;
use crate::hashing::{keccak256, keccak_of};
use crate::rlp::{decode_node_items, item_view, items_view, spec_node_items, RlpItem};

verus! {

broadcast use vstd::seq::axiom_seq_index_decreases, vstd::std_specs::vec::axiom_vec_decreases_to_view;

/// A node of the sparse partial trie.
#[derive(Debug, PartialEq, Eq)]
pub enum TrieNode {
    /// An absent branch child.
    Empty,
    /// An unresolved subtree, standing in by its hash.
    Hash(Vec<u8>),
    /// Sixteen children and a terminator payload.
    Branch { children: Vec<TrieNode>, value: Vec<u8> },
    /// A shared path prefix over one child.
    Extension { nibbles: Vec<u8>, child: Box<TrieNode> },
    /// A path remainder and a stored value.
    Leaf { nibbles: Vec<u8>, value: Vec<u8> },
}

/// The mathematical shape of a trie node.
pub enum SpecNode {
    Empty,
    Hash(Seq<u8>),
    Branch(Seq<SpecNode>, Seq<u8>),
    Extension(Seq<u8>, Box<SpecNode>),
    Leaf(Seq<u8>, Seq<u8>),
}

pub open spec fn nodes_view(s: Seq<TrieNode>) -> Seq<SpecNode>
    decreases s,
{
    Seq::new(
        s.len(),
        |i: int| if 0 <= i < s.len() {
            node_view(s[i])
        } else {
            SpecNode::Empty
        },
    )
}

pub open spec fn node_view(n: TrieNode) -> SpecNode
    decreases n,
{
    match n {
        TrieNode::Empty => SpecNode::Empty,
        TrieNode::Hash(h) => SpecNode::Hash(h@),
        TrieNode::Branch { children, value } => SpecNode::Branch(nodes_view(children@), value@),
        TrieNode::Extension { nibbles, child } => SpecNode::Extension(
            nibbles@,
            Box::new(node_view(*child)),
        ),
        TrieNode::Leaf { nibbles, value } => SpecNode::Leaf(nibbles@, value@),
    }
}

/// The node bytes stored under a hash.
pub open spec fn store_get(s: Seq<(Vec<u8>, Vec<u8>)>, h: Seq<u8>) -> Option<Seq<u8>> {
    match plookup(s, h) {
        Some(v) => Some(v@),
        None => None,
    }
}

/// The nibbles packed two to a byte.
pub open spec fn hp_expand(s: Seq<u8>) -> Seq<u8> {
    Seq::new(2 * s.len(), |i: int| if i % 2 == 0 {
        s[i / 2] >> 4u8
    } else {
        s[i / 2] & 0xfu8
    })
}

/// Hex-prefix decoding of a path: the high nibble of the first byte carries
/// the leaf flag (2, 3) and the odd-length flag (1, 3); an odd path starts in
/// the low nibble of the first byte.
pub open spec fn hp_decode(p: Seq<u8>) -> Option<(bool, Seq<u8>)> {
    if p.len() == 0 {
        None
    } else {
        let flag = p[0] >> 4u8;
        if flag > 3 {
            None
        } else {
            let nibs = hp_expand(p.skip(1));
            let full = if flag == 1 || flag == 3 {
                seq![p[0] & 0xfu8] + nibs
            } else {
                nibs
            };
            Some((flag >= 2, full))
        }
    }
}

/// The node hanging from a hash: a stub when the store has no bytes for it,
/// else the decoding of those bytes. `fuel` bounds the depth; it is sized so
/// that no well-formed input ever runs out.
pub open spec fn spec_construct(h: Seq<u8>, nodes: Seq<(Vec<u8>, Vec<u8>)>, fuel: nat) -> Option<
    SpecNode,
>
    decreases fuel, 0nat, 0nat,
{
    match store_get(nodes, h) {
        None => Some(SpecNode::Hash(h)),
        Some(b) => if fuel == 0 {
            None
        } else {
            spec_decode(b, nodes, (fuel - 1) as nat)
        },
    }
}

/// A child reference: a 32-byte string is a hash to resolve against the
/// store; a nested list shorter than 32 bytes is the child's own encoding,
/// decoded in place. Anything else is malformed.
pub open spec fn spec_child(
    item: (bool, Seq<u8>),
    nodes: Seq<(Vec<u8>, Vec<u8>)>,
    fuel: nat,
) -> Option<SpecNode>
    decreases fuel, 1nat, 0nat,
{
    if item.0 {
        if item.1.len() == 32 {
            spec_construct(item.1, nodes, fuel)
        } else {
            None
        }
    } else {
        if item.1.len() < 32 {
            if fuel == 0 {
                None
            } else {
                spec_decode(item.1, nodes, (fuel - 1) as nat)
            }
        } else {
            None
        }
    }
}

/// The branch children from slot `i` on: an empty string is an absent child,
/// anything else is a child reference.
pub open spec fn spec_children(
    items: Seq<(bool, Seq<u8>)>,
    nodes: Seq<(Vec<u8>, Vec<u8>)>,
    fuel: nat,
    i: nat,
) -> Option<Seq<SpecNode>>
    decreases fuel, 2nat, 16 - i,
{
    if i >= 16 {
        Some(Seq::empty())
    } else {
        let it = items[i as int];
        let c = if it.0 && it.1.len() == 0 {
            Some(SpecNode::Empty)
        } else {
            spec_child(it, nodes, fuel)
        };
        match c {
            None => None,
            Some(cn) => match spec_children(items, nodes, fuel, i + 1) {
                None => None,
                Some(rest) => Some(seq![cn] + rest),
            },
        }
    }
}

/// The node a 17- or 2-item list denotes. Any other arity, an out-of-range
/// path prefix, or a malformed child is fatal.
pub open spec fn spec_decode_items(
    items: Seq<(bool, Seq<u8>)>,
    nodes: Seq<(Vec<u8>, Vec<u8>)>,
    fuel: nat,
) -> Option<SpecNode>
    decreases fuel, 3nat, 0nat,
{
    if items.len() == 17 {
        if !items[16].0 {
            None
        } else {
            match spec_children(items, nodes, fuel, 0) {
                None => None,
                Some(cs) => Some(SpecNode::Branch(cs, items[16].1)),
            }
        }
    } else if items.len() == 2 {
        if !items[0].0 {
            None
        } else {
            match hp_decode(items[0].1) {
                None => None,
                Some((is_leaf, nibs)) => if is_leaf {
                    if !items[1].0 {
                        None
                    } else {
                        Some(SpecNode::Leaf(nibs, items[1].1))
                    }
                } else {
                    match spec_child(items[1], nodes, fuel) {
                        None => None,
                        Some(c) => Some(SpecNode::Extension(nibs, Box::new(c))),
                    }
                },
            }
        }
    } else {
        None
    }
}

/// The node some bytes denote: their RLP item list, decoded.
pub open spec fn spec_decode(b: Seq<u8>, nodes: Seq<(Vec<u8>, Vec<u8>)>, fuel: nat) -> Option<
    SpecNode,
>
    decreases fuel, 4nat, 0nat,
{
    match spec_node_items(b) {
        None => None,
        Some(items) => spec_decode_items(items, nodes, fuel),
    }
}

/// Whether a node list's first item starts an extension node.
pub fn is_extension_node(path: &Vec<u8>) -> (r: bool)
    requires
        path@.len() > 0,
    ensures
        r == ((path@[0] >> 4u8) == 0 || (path@[0] >> 4u8) == 1),
{
    (path[0] >> 4) == 0 || (path[0] >> 4) == 1
}

/// Whether a node list's first item starts a leaf node.
pub fn is_leaf_node(path: &Vec<u8>) -> (r: bool)
    requires
        path@.len() > 0,
    ensures
        r == ((path@[0] >> 4u8) == 2 || (path@[0] >> 4u8) == 3),
{
    (path[0] >> 4) == 2 || (path[0] >> 4) == 3
}

/// Decodes a hex-prefix path into its leaf flag and nibbles.
fn decode_path(p: &Vec<u8>) -> (r: Option<(bool, Vec<u8>)>)
    ensures
        match r {
            Some((is_leaf, nibs)) => hp_decode(p@) == Some((is_leaf, nibs@)),
            None => hp_decode(p@) is None,
        },
{
    if p.len() == 0 {
        return None;
    }
    let flag = p[0] >> 4;
    if flag > 3 {
        return None;
    }
    let mut nibs: Vec<u8> = Vec::new();
    if flag == 1 || flag == 3 {
        nibs.push(p[0] & 0xf);
    }
    let ghost lead: Seq<u8> = if flag == 1 || flag == 3 {
        seq![p@[0] & 0xfu8]
    } else {
        Seq::empty()
    };
    proof {
        assert(nibs@ =~= lead);
    }
    let mut j: usize = 1;
    while j < p.len()
        invariant
            1 <= j <= p@.len(),
            nibs@ =~= lead + hp_expand(p@.skip(1)).subrange(0, 2 * (j - 1)),
        decreases p@.len() - j,
    {
        let ghost before = nibs@;
        nibs.push(p[j] >> 4);
        nibs.push(p[j] & 0xf);
        proof {
            assert(p@.skip(1)[j - 1] == p@[j as int]);
            assert(hp_expand(p@.skip(1))[2 * (j - 1)] == p@[j as int] >> 4u8);
            assert(hp_expand(p@.skip(1))[2 * (j - 1) + 1] == p@[j as int] & 0xfu8);
            assert(nibs@ =~= lead + hp_expand(p@.skip(1)).subrange(0, 2 * ((j + 1) - 1)));
        }
        j = j + 1;
    }
    proof {
        assert(hp_expand(p@.skip(1)).subrange(0, 2 * (p@.len() - 1)) =~= hp_expand(p@.skip(1)));
        assert(nibs@ =~= lead + hp_expand(p@.skip(1)));
    }
    Some((flag >= 2, nibs))
}

/// Resolves a trie from a root hash against the node store.
pub fn construct_partial_trie(hash: &Vec<u8>, nodes: &BytesMap, fuel: usize) -> (r: Result<
    TrieNode,
    WitnessError,
>)
    ensures
        match r {
            Ok(n) => spec_construct(hash@, nodes.items@, fuel as nat) == Some(node_view(n)),
            Err(e) => e == WitnessError::MalformedNode && spec_construct(
                hash@,
                nodes.items@,
                fuel as nat,
            ) is None,
        },
    decreases fuel, 0int, 0int,
{
    match nodes.get(hash) {
        None => Ok(TrieNode::Hash(clone_bytes(hash))),
        Some(bytes) => {
            if fuel == 0 {
                return Err(WitnessError::MalformedNode);
            }
            match decode_node_items(bytes) {
                None => Err(WitnessError::MalformedNode),
                Some(items) => decode_node(&items, nodes, fuel - 1),
            }
        },
    }
}

/// Resolves a child reference.
fn parse_child_node(item: &RlpItem, nodes: &BytesMap, fuel: usize) -> (r: Result<
    TrieNode,
    WitnessError,
>)
    ensures
        match r {
            Ok(n) => spec_child(item_view(*item), nodes.items@, fuel as nat) == Some(
                node_view(n),
            ),
            Err(e) => e == WitnessError::MalformedNode && spec_child(
                item_view(*item),
                nodes.items@,
                fuel as nat,
            ) is None,
        },
    decreases fuel, 1int, 0int,
{
    match item {
        RlpItem::Str(data) => {
            if data.len() == 32 {
                construct_partial_trie(data, nodes, fuel)
            } else {
                Err(WitnessError::MalformedNode)
            }
        },
        RlpItem::List(raw) => {
            if raw.len() < 32 {
                if fuel == 0 {
                    return Err(WitnessError::MalformedNode);
                }
                match decode_node_items(raw) {
                    None => Err(WitnessError::MalformedNode),
                    Some(items) => decode_node(&items, nodes, fuel - 1),
                }
            } else {
                Err(WitnessError::MalformedNode)
            }
        },
    }
}

/// Parses a branch node: sixteen child slots and the terminator payload.
fn parse_branch_node(items: &Vec<RlpItem>, nodes: &BytesMap, fuel: usize) -> (r: Result<
    TrieNode,
    WitnessError,
>)
    requires
        items@.len() == 17,
    ensures
        match r {
            Ok(n) => spec_decode_items(items_view(items@), nodes.items@, fuel as nat) == Some(
                node_view(n),
            ),
            Err(e) => e == WitnessError::MalformedNode && spec_decode_items(
                items_view(items@),
                nodes.items@,
                fuel as nat,
            ) is None,
        },
    decreases fuel, 2int, 0int,
{
    let ghost itemsv = items_view(items@);
    let value: Vec<u8> = match &items[16] {
        RlpItem::Str(v) => clone_bytes(v),
        RlpItem::List(_) => {
            return Err(WitnessError::MalformedNode);
        },
    };
    let mut children: Vec<TrieNode> = Vec::new();
    let mut i: usize = 0;
    while i < 16
        invariant
            items@.len() == 17,
            itemsv == items_view(items@),
            i <= 16,
            children@.len() == i,
            spec_children(itemsv, nodes.items@, fuel as nat, 0) == (match spec_children(
                itemsv,
                nodes.items@,
                fuel as nat,
                i as nat,
            ) {
                Some(rest) => Some(nodes_view(children@) + rest),
                None => None::<Seq<SpecNode>>,
            }),
        decreases 16 - i,
    {
        let ghost children0 = children@;
        let empty_str: bool = match &items[i] {
            RlpItem::Str(d) => d.len() == 0,
            RlpItem::List(_) => false,
        };
        if empty_str {
            children.push(TrieNode::Empty);
        } else {
            match parse_child_node(&items[i], nodes, fuel) {
                Ok(c) => {
                    children.push(c);
                },
                Err(e) => {
                    return Err(e);
                },
            }
        }
        proof {
            assert(children@ =~= children0.push(children@[children@.len() - 1]));
            assert(nodes_view(children@) =~= nodes_view(children0).push(
                node_view(children@[children@.len() - 1]),
            ));
            assert forall|rest: Seq<SpecNode>|
                nodes_view(children0) + (seq![node_view(children@[children@.len() - 1])] + rest)
                    =~= nodes_view(children@) + rest by {}
        }
        i = i + 1;
    }
    proof {
        assert(spec_children(itemsv, nodes.items@, fuel as nat, 16) == Some(
            Seq::<SpecNode>::empty(),
        ));
        assert(nodes_view(children@) + Seq::<SpecNode>::empty() =~= nodes_view(children@));
    }
    Ok(TrieNode::Branch { children, value })
}

/// Parses an extension node: a shared path prefix over one child reference.
fn parse_extension_node(items: &Vec<RlpItem>, nodes: &BytesMap, fuel: usize) -> (r: Result<
    TrieNode,
    WitnessError,
>)
    requires
        items@.len() == 2,
        items@[0] matches RlpItem::Str(p) && hp_decode(p@) is Some && !hp_decode(
            p@,
        ).unwrap().0,
    ensures
        match r {
            Ok(n) => spec_decode_items(items_view(items@), nodes.items@, fuel as nat) == Some(
                node_view(n),
            ),
            Err(e) => e == WitnessError::MalformedNode && spec_decode_items(
                items_view(items@),
                nodes.items@,
                fuel as nat,
            ) is None,
        },
    decreases fuel, 2int, 0int,
{
    let path: &Vec<u8> = match &items[0] {
        RlpItem::Str(p) => p,
        RlpItem::List(_) => {
            return Err(WitnessError::MalformedNode);
        },
    };
    let decoded = decode_path(path);
    match decoded {
        Some((_, nibbles)) => {
            match parse_child_node(&items[1], nodes, fuel) {
                Ok(c) => Ok(TrieNode::Extension { nibbles, child: Box::new(c) }),
                Err(e) => Err(e),
            }
        },
        None => Err(WitnessError::MalformedNode),
    }
}

/// Parses a leaf node: a path remainder and the stored value.
fn parse_leaf_node(items: &Vec<RlpItem>) -> (r: Result<TrieNode, WitnessError>)
    requires
        items@.len() == 2,
        items@[0] matches RlpItem::Str(p) && hp_decode(p@) is Some && hp_decode(p@).unwrap().0,
    ensures
        match r {
            Ok(n) => forall|nodes: Seq<(Vec<u8>, Vec<u8>)>, fuel: nat|
                spec_decode_items(items_view(items@), nodes, fuel) == Some(node_view(n)),
            Err(e) => e == WitnessError::MalformedNode && forall|
                nodes: Seq<(Vec<u8>, Vec<u8>)>,
                fuel: nat,
            |
                spec_decode_items(items_view(items@), nodes, fuel) is None,
        },
{
    let path: &Vec<u8> = match &items[0] {
        RlpItem::Str(p) => p,
        RlpItem::List(_) => {
            return Err(WitnessError::MalformedNode);
        },
    };
    let value: Vec<u8> = match &items[1] {
        RlpItem::Str(v) => clone_bytes(v),
        RlpItem::List(_) => {
            return Err(WitnessError::MalformedNode);
        },
    };
    match decode_path(path) {
        Some((_, nibbles)) => Ok(TrieNode::Leaf { nibbles, value }),
        None => Err(WitnessError::MalformedNode),
    }
}

/// Decodes a node from its RLP items: 17 is a branch, 2 is an extension or a
/// leaf by the path's first nibble, anything else is malformed.
fn decode_node(items: &Vec<RlpItem>, nodes: &BytesMap, fuel: usize) -> (r: Result<
    TrieNode,
    WitnessError,
>)
    ensures
        match r {
            Ok(n) => spec_decode_items(items_view(items@), nodes.items@, fuel as nat) == Some(
                node_view(n),
            ),
            Err(e) => e == WitnessError::MalformedNode && spec_decode_items(
                items_view(items@),
                nodes.items@,
                fuel as nat,
            ) is None,
        },
    decreases fuel, 3int, 0int,
{
    if items.len() == 17 {
        parse_branch_node(items, nodes, fuel)
    } else if items.len() == 2 {
        let path: &Vec<u8> = match &items[0] {
            RlpItem::Str(p) => p,
            RlpItem::List(_) => {
                return Err(WitnessError::MalformedNode);
            },
        };
        if path.len() == 0 {
            return Err(WitnessError::MalformedNode);
        }
        if is_extension_node(path) {
            parse_extension_node(items, nodes, fuel)
        } else if is_leaf_node(path) {
            parse_leaf_node(items)
        } else {
            Err(WitnessError::MalformedNode)
        }
    } else {
        Err(WitnessError::MalformedNode)
    }
}

/// The depth bound `build` hands the codec: deep enough that only an input
/// with a hash cycle, which hash addressing rules out, could exhaust it.
pub open spec fn build_fuel(n: nat) -> nat {
    if n + 130 <= usize::MAX {
        n + 130
    } else {
        usize::MAX as nat
    }
}

/// Accumulates proof-node bytes keyed by their hash, and materializes the
/// sparse trie hanging from a declared root hash.
pub struct PartialTrieBuilder {
    pub root: Vec<u8>,
    pub nodes: BytesMap,
}

impl PartialTrieBuilder {
    /// Every stored entry is keyed by the hash of its bytes.
    pub open spec fn hash_keyed(&self) -> bool {
        forall|i: int|
            0 <= i < self.nodes.items@.len() ==> #[trigger] self.nodes.items@[i].0@ == keccak_of(
                self.nodes.items@[i].1@,
            )
    }

    pub open spec fn wf(&self) -> bool {
        self.nodes.wf() && self.hash_keyed()
    }

    /// Creates a builder with the given root and starting nodes.
    pub fn new(root: Vec<u8>, nodes: BytesMap) -> (r: Self)
        requires
            nodes.wf(),
            forall|i: int|
                0 <= i < nodes.items@.len() ==> #[trigger] nodes.items@[i].0@ == keccak_of(
                    nodes.items@[i].1@,
                ),
        ensures
            r.wf(),
            r.root == root,
            r.nodes == nodes,
    {
        PartialTrieBuilder { root, nodes }
    }

    /// Inserts a proof: each node's bytes join the store under their
    /// Keccak-256 hash; re-insertion of a hash already present is a no-op.
    pub fn insert_proof(&mut self, proof: &Vec<Vec<u8>>)
        requires
            old(self).wf(),
        ensures
            final(self).wf(),
            final(self).root == old(self).root,
            forall|k: Seq<u8>|
                old(self).nodes.has_key(k) ==> final(self).nodes.spec_get(k) == old(
                    self,
                ).nodes.spec_get(k),
            forall|j: int|
                0 <= j < proof@.len() ==> final(self).nodes.has_key(
                    keccak_of(#[trigger] proof@[j]@),
                ),
            forall|j: int|
                0 <= j < proof@.len() && !old(self).nodes.has_key(keccak_of(#[trigger] proof@[j]@))
                    ==> exists|x: int|
                    0 <= x < proof@.len() && keccak_of(#[trigger] proof@[x]@) == keccak_of(
                        proof@[j]@,
                    ) && final(self).nodes.spec_get(keccak_of(proof@[j]@)) == Some(proof@[x]@),
            forall|k: Seq<u8>|
                #[trigger] final(self).nodes.has_key(k) ==> (old(self).nodes.has_key(k) || exists|
                    j: int,
                |
                    0 <= j < proof@.len() && k == keccak_of(proof@[j]@)),
    {
        let ghost nodes0 = self.nodes;
        let mut j: usize = 0;
        while j < proof.len()
            invariant
                self.nodes.wf(),
                self.hash_keyed(),
                self.root == old(self).root,
                j <= proof@.len(),
                forall|k: Seq<u8>|
                    nodes0.has_key(k) ==> self.nodes.spec_get(k) == nodes0.spec_get(k),
                forall|x: int|
                    0 <= x < j ==> self.nodes.has_key(keccak_of(#[trigger] proof@[x]@)),
                forall|x: int|
                    0 <= x < j && !nodes0.has_key(keccak_of(#[trigger] proof@[x]@)) ==> exists|
                        y: int,
                    |
                        0 <= y < j && keccak_of(#[trigger] proof@[y]@) == keccak_of(proof@[x]@)
                            && self.nodes.spec_get(keccak_of(proof@[x]@)) == Some(proof@[y]@),
                forall|k: Seq<u8>|
                    #[trigger] self.nodes.has_key(k) ==> (nodes0.has_key(k) || exists|x: int|
                        0 <= x < j && k == keccak_of(proof@[x]@)),
            decreases proof@.len() - j,
        {
            let ghost nodes_in = self.nodes;
            let hash = keccak256(proof[j].as_slice());
            let node = clone_bytes(&proof[j]);
            self.nodes.insert_if_absent(hash, node);
            proof {
                assert forall|i: int| 0 <= i < self.nodes.items@.len()
                    implies #[trigger] self.nodes.items@[i].0@ == keccak_of(
                    self.nodes.items@[i].1@,
                ) by {
                    if i < nodes_in.items@.len() {
                        assert(nodes_in.items@[i].0@ == keccak_of(nodes_in.items@[i].1@));
                    }
                }
                assert forall|x: int|
                    0 <= x < j + 1 && !nodes0.has_key(keccak_of(#[trigger] proof@[x]@))
                        implies exists|y: int|
                    0 <= y < j + 1 && keccak_of(#[trigger] proof@[y]@) == keccak_of(proof@[x]@)
                        && self.nodes.spec_get(keccak_of(proof@[x]@)) == Some(proof@[y]@) by {
                    let kx = keccak_of(proof@[x]@);
                    if x < j {
                        let y = choose|y: int|
                            0 <= y < j && keccak_of(#[trigger] proof@[y]@) == kx
                                && nodes_in.spec_get(kx) == Some(proof@[y]@);
                        assert(nodes_in.has_key(kx));
                        assert(self.nodes.spec_get(kx) == Some(proof@[y]@));
                    } else {
                        if nodes_in.has_key(kx) {
                            let y0 = choose|y0: int| 0 <= y0 < j && kx == keccak_of(proof@[y0]@);
                            let y = choose|y: int|
                                0 <= y < j && keccak_of(#[trigger] proof@[y]@) == keccak_of(
                                    proof@[y0]@,
                                ) && nodes_in.spec_get(keccak_of(proof@[y0]@)) == Some(
                                    proof@[y]@,
                                );
                            assert(self.nodes.spec_get(kx) == Some(proof@[y]@));
                        } else {
                            assert(self.nodes.spec_get(kx) == Some(proof@[x]@));
                        }
                    }
                }
                assert forall|k: Seq<u8>| #[trigger] self.nodes.has_key(k) implies (
                nodes0.has_key(k) || exists|x: int|
                    0 <= x < j + 1 && k == keccak_of(proof@[x]@)) by {
                    if !nodes0.has_key(k) {
                        if nodes_in.has_key(k) {
                            let x = choose|x: int| 0 <= x < j && k == keccak_of(proof@[x]@);
                            assert(0 <= x < j + 1 && k == keccak_of(proof@[x]@));
                        } else {
                            assert(k == keccak_of(proof@[j as int]@));
                        }
                    }
                }
            }
            j = j + 1;
        }
    }

    /// Materializes the trie: the declared root resolved against the stored
    /// nodes. A root with no stored bytes yields a lone hash stub.
    pub fn build(&self) -> (r: Result<TrieNode, WitnessError>)
        ensures
            match r {
                Ok(n) => spec_construct(
                    self.root@,
                    self.nodes.items@,
                    build_fuel(self.nodes.items@.len()),
                ) == Some(node_view(n)),
                Err(e) => e == WitnessError::MalformedNode && spec_construct(
                    self.root@,
                    self.nodes.items@,
                    build_fuel(self.nodes.items@.len()),
                ) is None,
            },
    {
        let len = self.nodes.len();
        let fuel = if len <= usize::MAX - 130 {
            len + 130
        } else {
            usize::MAX
        };
        construct_partial_trie(&self.root, &self.nodes, fuel)
    }
}

/// Root equivalence: what `build` resolves hangs from the declared root. If
/// the store holds bytes for the root they hash to exactly the declared root
/// hash; otherwise the built trie is the root's own hash stub.
pub proof fn lemma_root_equivalence(b: PartialTrieBuilder, n: SpecNode, fuel: nat)
    requires
        b.wf(),
        spec_construct(b.root@, b.nodes.items@, fuel) == Some(n),
    ensures
        match store_get(b.nodes.items@, b.root@) {
            None => n == SpecNode::Hash(b.root@),
            Some(bytes) => keccak_of(bytes) == b.root@,
        },
{
    match plookup(b.nodes.items@, b.root@) {
        None => {},
        Some(v) => {
            lemma_plookup_some_index(b.nodes.items@, b.root@);
        },
    }
}

/// A found value sits at some entry.
proof fn lemma_plookup_some_index(s: Seq<(Vec<u8>, Vec<u8>)>, k: Seq<u8>)
    requires
        plookup(s, k) is Some,
    ensures
        exists|i: int|
            0 <= i < s.len() && s[i].0@ == k && #[trigger] s[i].1 == plookup(s, k).unwrap(),
    decreases s.len(),
{
    if s.len() > 0 {
        if s[0].0@ == k {
            assert(s[0].1 == plookup(s, k).unwrap());
        } else {
            lemma_plookup_some_index(s.drop_first(), k);
            let i = choose|i: int|
                0 <= i < s.drop_first().len() && s.drop_first()[i].0@ == k
                    && #[trigger] s.drop_first()[i].1 == plookup(s.drop_first(), k).unwrap();
            assert(s[i + 1].0@ == k && s[i + 1].1 == plookup(s, k).unwrap());
        }
    }
}

} // verus!
