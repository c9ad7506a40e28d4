//! Trie nodes: leaves, branch nodes with a fixed-width pointer block, and
//! extensions; the child digests of a node.
use vstd::prelude::*;

use crate::digest::{Digest, DIGEST_LENGTH};

verus! {

/// Number of slots in a branch node's pointer block.
pub const POINTER_BLOCK_WIDTH: usize = 256;

/// A reference to a child node by its digest, tagged as a leaf or not.
#[derive(Clone, Copy, Debug, PartialEq, Eq)]
pub enum Pointer {
    LeafPointer(Digest),
    NodePointer(Digest),
}

/// The mathematical value of a pointer.
pub enum PointerModel {
    Leaf(Seq<u8>),
    Node(Seq<u8>),
}

impl PointerModel {
    /// The digest the pointer refers to.
    pub open spec fn target(self) -> Seq<u8> {
        match self {
            PointerModel::Leaf(d) => d,
            PointerModel::Node(d) => d,
        }
    }
}

impl View for Pointer {
    type V = PointerModel;

    open spec fn view(&self) -> PointerModel {
        match self {
            Pointer::LeafPointer(d) => PointerModel::Leaf(d@),
            Pointer::NodePointer(d) => PointerModel::Node(d@),
        }
    }
}

impl Pointer {
    /// The digest of the node pointed at.
    pub fn digest(&self) -> (r: Digest)
        ensures
            r@ == self@.target(),
    {
        match self {
            Pointer::LeafPointer(d) => *d,
            Pointer::NodePointer(d) => *d,
        }
    }
}

/// The slots of a branch node, one per possible next path byte.
#[derive(Clone, Debug, PartialEq, Eq)]
pub struct PointerBlock {
    pub slots: Vec<Option<Pointer>>,
}

/// The mathematical value of an optional pointer.
pub open spec fn slot_view(o: Option<Pointer>) -> Option<PointerModel> {
    match o {
        Some(p) => Some(p@),
        None => None,
    }
}

impl View for PointerBlock {
    type V = Seq<Option<PointerModel>>;

    open spec fn view(&self) -> Seq<Option<PointerModel>> {
        self.slots@.map_values(|o: Option<Pointer>| slot_view(o))
    }
}

impl PointerBlock {
    /// A pointer block with every slot empty.
    pub fn new() -> (r: PointerBlock)
        ensures
            r@.len() == POINTER_BLOCK_WIDTH,
            forall|i: int| 0 <= i < POINTER_BLOCK_WIDTH ==> r@[i] is None,
    {
        let mut slots: Vec<Option<Pointer>> = Vec::new();
        let mut i: usize = 0;
        while i < POINTER_BLOCK_WIDTH
            invariant
                i <= POINTER_BLOCK_WIDTH,
                slots@.len() == i,
                forall|j: int| 0 <= j < i ==> slots@[j] is None,
            decreases POINTER_BLOCK_WIDTH - i,
        {
            slots.push(None);
            i = i + 1;
        }
        PointerBlock { slots }
    }

    /// Sets slot `index` to `pointer`.
    pub fn set(&mut self, index: usize, pointer: Option<Pointer>)
        requires
            index < old(self)@.len(),
        ensures
            final(self)@ == old(self)@.update(index as int, slot_view(pointer)),
    {
        self.slots.set(index, pointer);
        assert(self@ =~= old(self)@.update(index as int, slot_view(pointer)));
    }
}

/// A trie node.
#[derive(Clone, Debug, PartialEq, Eq)]
pub enum Trie {
    /// A raw key and its raw value.
    Leaf { key: Vec<u8>, value: Vec<u8> },
    /// A branch node.
    Node { pointer_block: PointerBlock },
    /// A shared key-path prefix and a single child.
    Extension { affix: Vec<u8>, pointer: Pointer },
}

/// The mathematical value of a trie node.
pub enum TrieModel {
    Leaf { key: Seq<u8>, value: Seq<u8> },
    Node { slots: Seq<Option<PointerModel>> },
    Extension { affix: Seq<u8>, pointer: PointerModel },
}

impl View for Trie {
    type V = TrieModel;

    open spec fn view(&self) -> TrieModel {
        match self {
            Trie::Leaf { key, value } => TrieModel::Leaf { key: key@, value: value@ },
            Trie::Node { pointer_block } => TrieModel::Node { slots: pointer_block@ },
            Trie::Extension { affix, pointer } => TrieModel::Extension {
                affix: affix@,
                pointer: pointer@,
            },
        }
    }
}

/// The digests of the non-empty slots, in slot order.
pub open spec fn slot_children(s: Seq<Option<PointerModel>>) -> Seq<Seq<u8>>
    decreases s.len(),
{
    if s.len() == 0 {
        seq![]
    } else {
        match s.last() {
            Some(p) => slot_children(s.drop_last()).push(p.target()),
            None => slot_children(s.drop_last()),
        }
    }
}

/// The digests of a node's immediate children.
pub open spec fn children_of(t: TrieModel) -> Seq<Seq<u8>> {
    match t {
        TrieModel::Leaf { .. } => seq![],
        TrieModel::Node { slots } => slot_children(slots),
        TrieModel::Extension { pointer, .. } => seq![pointer.target()],
    }
}

/// Whether a length can be written as a four-byte length prefix.
pub open spec fn fits_u32(n: nat) -> bool {
    n <= u32::MAX
}

/// A node that can be encoded: its byte strings fit a length prefix and a
/// branch node has exactly one slot per next path byte.
pub open spec fn trie_wf(t: TrieModel) -> bool {
    match t {
        TrieModel::Leaf { key, value } => fits_u32(key.len()) && fits_u32(value.len()),
        TrieModel::Node { slots } => {
            &&& slots.len() == POINTER_BLOCK_WIDTH
            &&& forall|i: int| #![trigger slots[i]]
                0 <= i < slots.len() && slots[i] is Some ==> slots[i]->Some_0.target().len()
                    == DIGEST_LENGTH
        },
        TrieModel::Extension { affix, pointer } => fits_u32(affix.len())
            && pointer.target().len() == DIGEST_LENGTH,
    }
}

fn copy_bytes(b: &Vec<u8>) -> (r: Vec<u8>)
    ensures
        r@ == b@,
{
    let r = b.clone();
    assert(r@ =~= b@);
    r
}

impl Trie {
    /// A node equal to this one.
    pub fn duplicate(&self) -> (r: Trie)
        ensures
            r@ == self@,
    {
        match self {
            Trie::Leaf { key, value } => Trie::Leaf { key: copy_bytes(key), value: copy_bytes(value) },
            Trie::Extension { affix, pointer } => Trie::Extension {
                affix: copy_bytes(affix),
                pointer: *pointer,
            },
            Trie::Node { pointer_block } => {
                let slots = &pointer_block.slots;
                let mut copied: Vec<Option<Pointer>> = Vec::new();
                let mut i: usize = 0;
                while i < slots.len()
                    invariant
                        i <= slots@.len(),
                        copied@ == slots@.subrange(0, i as int),
                    decreases slots@.len() - i,
                {
                    copied.push(slots[i]);
                    i = i + 1;
                    assert(copied@ =~= slots@.subrange(0, i as int));
                }
                assert(copied@ =~= slots@);
                Trie::Node { pointer_block: PointerBlock { slots: copied } }
            },
        }
    }

    /// Whether the node can be encoded.
    pub open spec fn wf(&self) -> bool {
        trie_wf(self@)
    }

    /// Whether the node can be encoded: its byte strings fit a four-byte
    /// length and a branch node has one slot per next path byte.
    pub fn is_encodable(&self) -> (r: bool)
        ensures
            r == self.wf(),
    {
        match self {
            Trie::Leaf { key, value } => key.len() <= 0xffff_ffff && value.len() <= 0xffff_ffff,
            Trie::Node { pointer_block } => {
                proof {
                    assert forall|i: int|
                        0 <= i < pointer_block@.len() && pointer_block@[i] is Some implies (
                        #[trigger] pointer_block@[i])->Some_0.target().len() == DIGEST_LENGTH by {
                        let o = pointer_block.slots@[i];
                        assert(pointer_block@[i] == slot_view(o));
                        match o {
                            Some(Pointer::LeafPointer(d)) => assert(d@.len() == DIGEST_LENGTH),
                            Some(Pointer::NodePointer(d)) => assert(d@.len() == DIGEST_LENGTH),
                            None => {},
                        }
                    }
                }
                pointer_block.slots.len() == POINTER_BLOCK_WIDTH
            },
            Trie::Extension { affix, pointer } => {
                proof {
                    match pointer {
                        Pointer::LeafPointer(d) => assert(d@.len() == DIGEST_LENGTH),
                        Pointer::NodePointer(d) => assert(d@.len() == DIGEST_LENGTH),
                    }
                }
                affix.len() <= 0xffff_ffff
            },
        }
    }

    /// The digests of the node's immediate children: every non-empty slot of a
    /// branch node, the pointer of an extension, nothing for a leaf.
    pub fn children(&self) -> (r: Vec<Digest>)
        ensures
            r@.map_values(|d: Digest| d@) == children_of(self@),
    {
        match self {
            Trie::Leaf { .. } => {
                let r: Vec<Digest> = Vec::new();
                assert(r@.map_values(|d: Digest| d@) =~= children_of(self@));
                r
            },
            Trie::Extension { pointer, .. } => {
                let mut r: Vec<Digest> = Vec::new();
                r.push(pointer.digest());
                assert(r@.map_values(|d: Digest| d@) =~= children_of(self@));
                r
            },
            Trie::Node { pointer_block } => {
                let slots = &pointer_block.slots;
                let ghost sv = pointer_block@;
                let mut r: Vec<Digest> = Vec::new();
                let mut i: usize = 0;
                while i < slots.len()
                    invariant
                        i <= slots@.len(),
                        sv == slots@.map_values(|o: Option<Pointer>| slot_view(o)),
                        r@.map_values(|d: Digest| d@) == slot_children(sv.subrange(0, i as int)),
                    decreases slots@.len() - i,
                {
                    assert(sv.subrange(0, i + 1).drop_last() =~= sv.subrange(0, i as int));
                    match &slots[i] {
                        Some(p) => {
                            r.push(p.digest());
                        },
                        None => {},
                    }
                    assert(r@.map_values(|d: Digest| d@) =~= slot_children(
                        sv.subrange(0, i + 1),
                    ));
                    i = i + 1;
                }
                assert(sv.subrange(0, slots@.len() as int) =~= sv);
                r
            },
        }
    }
}

} // verus!
