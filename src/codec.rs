//! The canonical byte encoding of trie nodes.
//!
//! A leaf is tag `0`, then its key and its value, each as a four-byte
//! little-endian length followed by the bytes. A branch node is tag `1`, then
//! each of its slots: `0` for an empty one, `1` and a pointer otherwise. An
//! extension is tag `2`, its affix as a length-prefixed byte string, then its
//! pointer. A pointer is `0` (leaf) or `1` (node) followed by the digest.
use vstd::arithmetic::div_mod::{
    lemma_div_denominator, lemma_fundamental_div_mod, lemma_fundamental_div_mod_converse,
    lemma_multiply_divide_lt, lemma_small_mod,
};
use vstd::prelude::*;

use crate::digest::{blake2b_256, Digest, DIGEST_LENGTH};
use crate::trie::{
    fits_u32, slot_view, trie_wf, Pointer, PointerBlock, PointerModel, Trie, TrieModel,
    POINTER_BLOCK_WIDTH,
};

verus! {

/// The four little-endian bytes of `n`.
pub open spec fn u32_le(n: nat) -> Seq<u8> {
    seq![
        (n % 256) as u8,
        ((n / 256) % 256) as u8,
        ((n / 65536) % 256) as u8,
        ((n / 16777216) % 256) as u8,
    ]
}

/// A byte string preceded by its length.
pub open spec fn enc_bytes(b: Seq<u8>) -> Seq<u8> {
    u32_le(b.len()) + b
}

/// The encoding of a pointer.
pub open spec fn enc_pointer(p: PointerModel) -> Seq<u8> {
    match p {
        PointerModel::Leaf(d) => seq![0u8] + d,
        PointerModel::Node(d) => seq![1u8] + d,
    }
}

/// The encoding of one slot of a pointer block.
pub open spec fn enc_slot(o: Option<PointerModel>) -> Seq<u8> {
    match o {
        None => seq![0u8],
        Some(p) => seq![1u8] + enc_pointer(p),
    }
}

/// The encodings of the slots, one after the other.
pub open spec fn enc_slots(s: Seq<Option<PointerModel>>) -> Seq<u8>
    decreases s.len(),
{
    if s.len() == 0 {
        seq![]
    } else {
        enc_slots(s.drop_last()) + enc_slot(s.last())
    }
}

/// The canonical encoding of a trie node.
pub open spec fn encode(t: TrieModel) -> Seq<u8> {
    match t {
        TrieModel::Leaf { key, value } => seq![0u8] + enc_bytes(key) + enc_bytes(value),
        TrieModel::Node { slots } => seq![1u8] + enc_slots(slots),
        TrieModel::Extension { affix, pointer } => seq![2u8] + enc_bytes(affix) + enc_pointer(
            pointer,
        ),
    }
}

proof fn lemma_u32_le_of_bytes(b0: u8, b1: u8, b2: u8, b3: u8)
    ensures
        u32_le(b0 as nat + 256 * (b1 as nat) + 65536 * (b2 as nat) + 16777216 * (b3 as nat))
            == seq![b0, b1, b2, b3],
{
    let n: int = b0 as int + 256 * (b1 as int) + 65536 * (b2 as int) + 16777216 * (b3 as int);
    let n1: int = b1 as int + 256 * (b2 as int) + 65536 * (b3 as int);
    let n2: int = b2 as int + 256 * (b3 as int);
    lemma_fundamental_div_mod_converse(n, 256, n1, b0 as int);
    lemma_fundamental_div_mod_converse(n1, 256, n2, b1 as int);
    lemma_fundamental_div_mod_converse(n2, 256, b3 as int, b2 as int);
    lemma_fundamental_div_mod_converse(b3 as int, 256, 0, b3 as int);
    lemma_fundamental_div_mod_converse(n, 65536, n2, b0 as int + 256 * (b1 as int));
    lemma_fundamental_div_mod_converse(
        n,
        16777216,
        b3 as int,
        b0 as int + 256 * (b1 as int) + 65536 * (b2 as int),
    );
    assert(u32_le(n as nat) =~= seq![b0, b1, b2, b3]);
}

fn push_u32_le(out: &mut Vec<u8>, n: u32)
    ensures
        final(out)@ == old(out)@ + u32_le(n as nat),
{
    out.push((n % 256) as u8);
    out.push(((n / 256) % 256) as u8);
    out.push(((n / 65536) % 256) as u8);
    out.push(((n / 16777216) % 256) as u8);
    assert(final(out)@ =~= old(out)@ + u32_le(n as nat));
}

fn push_slice(out: &mut Vec<u8>, b: &[u8])
    ensures
        final(out)@ == old(out)@ + b@,
{
    let mut i: usize = 0;
    while i < b.len()
        invariant
            i <= b@.len(),
            out@ == old(out)@ + b@.subrange(0, i as int),
        decreases b@.len() - i,
    {
        out.push(b[i]);
        i = i + 1;
        assert(out@ =~= old(out)@ + b@.subrange(0, i as int));
    }
    assert(b@.subrange(0, b@.len() as int) =~= b@);
}

fn push_bytes(out: &mut Vec<u8>, b: &Vec<u8>)
    requires
        b@.len() <= u32::MAX,
    ensures
        final(out)@ == old(out)@ + enc_bytes(b@),
{
    push_u32_le(out, b.len() as u32);
    push_slice(out, b.as_slice());
    assert(final(out)@ =~= old(out)@ + enc_bytes(b@));
}

fn push_pointer(out: &mut Vec<u8>, p: &Pointer)
    ensures
        final(out)@ == old(out)@ + enc_pointer(p@),
{
    match p {
        Pointer::LeafPointer(d) => {
            out.push(0u8);
            push_slice(out, d.value.as_slice());
        },
        Pointer::NodePointer(d) => {
            out.push(1u8);
            push_slice(out, d.value.as_slice());
        },
    }
    assert(final(out)@ =~= old(out)@ + enc_pointer(p@));
}

/// The canonical encoding of `trie`.
pub fn to_bytes(trie: &Trie) -> (r: Vec<u8>)
    requires
        trie.wf(),
    ensures
        r@ == encode(trie@),
{
    let mut out: Vec<u8> = Vec::new();
    match trie {
        Trie::Leaf { key, value } => {
            out.push(0u8);
            push_bytes(&mut out, key);
            push_bytes(&mut out, value);
        },
        Trie::Node { pointer_block } => {
            out.push(1u8);
            let slots = &pointer_block.slots;
            let ghost sv = pointer_block@;
            let mut i: usize = 0;
            while i < slots.len()
                invariant
                    i <= slots@.len(),
                    sv == slots@.map_values(|o: Option<Pointer>| slot_view(o)),
                    out@ == seq![1u8] + enc_slots(sv.subrange(0, i as int)),
                decreases slots@.len() - i,
            {
                assert(sv.subrange(0, i + 1).drop_last() =~= sv.subrange(0, i as int));
                match &slots[i] {
                    Some(p) => {
                        out.push(1u8);
                        push_pointer(&mut out, p);
                    },
                    None => {
                        out.push(0u8);
                    },
                }
                assert(out@ =~= seq![1u8] + enc_slots(sv.subrange(0, i + 1)));
                i = i + 1;
            }
            assert(sv.subrange(0, slots@.len() as int) =~= sv);
        },
        Trie::Extension { affix, pointer } => {
            out.push(2u8);
            push_bytes(&mut out, affix);
            push_pointer(&mut out, pointer);
        },
    }
    assert(out@ =~= encode(trie@));
    out
}

/// A node whose encoding is `b`, if there is one.
pub open spec fn decoded(b: Seq<u8>) -> TrieModel {
    choose|t: TrieModel| trie_wf(t) && encode(t) == b
}

/// Whether `b` is the encoding of some encodable node.
pub open spec fn is_encoding(b: Seq<u8>) -> bool {
    exists|t: TrieModel| trie_wf(t) && encode(t) == b
}

proof fn lemma_u32_le_sum(n: nat)
    requires
        n <= u32::MAX,
    ensures
        n == u32_le(n)[0] as nat + 256 * (u32_le(n)[1] as nat) + 65536 * (u32_le(n)[2] as nat)
            + 16777216 * (u32_le(n)[3] as nat),
{
    let x = n as int;
    lemma_fundamental_div_mod(x, 256);
    lemma_fundamental_div_mod(x / 256, 256);
    lemma_div_denominator(x, 256, 256);
    lemma_fundamental_div_mod(x / 65536, 256);
    lemma_div_denominator(x, 65536, 256);
    lemma_multiply_divide_lt(x, 16777216, 256);
    lemma_small_mod((x / 16777216) as nat, 256);
}

proof fn lemma_u32_le_injective(a: nat, b: nat)
    requires
        a <= u32::MAX,
        b <= u32::MAX,
        u32_le(a) == u32_le(b),
    ensures
        a == b,
{
    lemma_u32_le_sum(a);
    lemma_u32_le_sum(b);
}

proof fn lemma_enc_slots_append(a: Seq<Option<PointerModel>>, c: Seq<Option<PointerModel>>)
    ensures
        enc_slots(a + c) == enc_slots(a) + enc_slots(c),
    decreases c.len(),
{
    if c.len() == 0 {
        assert(a + c =~= a);
        assert(enc_slots(c) =~= Seq::<u8>::empty());
        assert(enc_slots(a) + enc_slots(c) =~= enc_slots(a));
    } else {
        assert((a + c).drop_last() =~= a + c.drop_last());
        lemma_enc_slots_append(a, c.drop_last());
        assert(enc_slots(a + c) =~= enc_slots(a) + enc_slots(c));
    }
}

proof fn lemma_enc_bytes_prefix(a: Seq<u8>, c: Seq<u8>, x: Seq<u8>, y: Seq<u8>)
    requires
        a.len() <= u32::MAX,
        c.len() <= u32::MAX,
        enc_bytes(a) + x == enc_bytes(c) + y,
    ensures
        a == c,
        x == y,
{
    let l = enc_bytes(a) + x;
    let m = enc_bytes(c) + y;
    assert(l.subrange(0, 4) =~= u32_le(a.len()));
    assert(m.subrange(0, 4) =~= u32_le(c.len()));
    lemma_u32_le_injective(a.len(), c.len());
    assert(l.subrange(4, 4 + a.len() as int) =~= a);
    assert(m.subrange(4, 4 + c.len() as int) =~= c);
    assert(l.subrange(4 + a.len() as int, l.len() as int) =~= x);
    assert(m.subrange(4 + c.len() as int, m.len() as int) =~= y);
}

proof fn lemma_enc_pointer_prefix(p: PointerModel, q: PointerModel, x: Seq<u8>, y: Seq<u8>)
    requires
        p.target().len() == DIGEST_LENGTH,
        q.target().len() == DIGEST_LENGTH,
        enc_pointer(p) + x == enc_pointer(q) + y,
    ensures
        p == q,
        x == y,
{
    let l = enc_pointer(p) + x;
    let m = enc_pointer(q) + y;
    assert(l[0] == m[0]);
    assert(l.subrange(1, 1 + DIGEST_LENGTH) =~= p.target());
    assert(m.subrange(1, 1 + DIGEST_LENGTH) =~= q.target());
    assert(l.subrange(1 + DIGEST_LENGTH, l.len() as int) =~= x);
    assert(m.subrange(1 + DIGEST_LENGTH, m.len() as int) =~= y);
}

/// Every slot pointer of `s` refers to a digest-long target.
pub open spec fn slots_wf(s: Seq<Option<PointerModel>>) -> bool {
    forall|j: int| #![trigger s[j]]
        0 <= j < s.len() && s[j] is Some ==> s[j]->Some_0.target().len() == DIGEST_LENGTH
}

proof fn lemma_enc_slots_front(s: Seq<Option<PointerModel>>)
    requires
        s.len() > 0,
    ensures
        enc_slots(s) == enc_slot(s[0]) + enc_slots(s.drop_first()),
{
    let one = seq![s[0]];
    assert(s =~= one + s.drop_first());
    lemma_enc_slots_append(one, s.drop_first());
    assert(one.drop_last() =~= Seq::<Option<PointerModel>>::empty());
    assert(enc_slots(Seq::<Option<PointerModel>>::empty()) =~= Seq::<u8>::empty());
    assert(enc_slots(one) == enc_slots(one.drop_last()) + enc_slot(one.last()));
    assert(enc_slots(one) =~= enc_slot(s[0]));
}

proof fn lemma_enc_slots_injective(s: Seq<Option<PointerModel>>, t: Seq<Option<PointerModel>>)
    requires
        s.len() == t.len(),
        slots_wf(s),
        slots_wf(t),
        enc_slots(s) == enc_slots(t),
    ensures
        s == t,
    decreases s.len(),
{
    if s.len() > 0 {
        lemma_enc_slots_front(s);
        lemma_enc_slots_front(t);
        let x = enc_slots(s.drop_first());
        let y = enc_slots(t.drop_first());
        let l = enc_slot(s[0]) + x;
        let m = enc_slot(t[0]) + y;
        assert(l[0] == m[0]);
        match (s[0], t[0]) {
            (Some(p), Some(q)) => {
                assert(l.subrange(1, l.len() as int) =~= enc_pointer(p) + x);
                assert(m.subrange(1, m.len() as int) =~= enc_pointer(q) + y);
                lemma_enc_pointer_prefix(p, q, x, y);
            },
            (None, None) => {
                assert(l.subrange(1, l.len() as int) =~= x);
                assert(m.subrange(1, m.len() as int) =~= y);
            },
            _ => {},
        }
        assert(slots_wf(s.drop_first()));
        assert(slots_wf(t.drop_first()));
        lemma_enc_slots_injective(s.drop_first(), t.drop_first());
        assert(s =~= seq![s[0]] + s.drop_first());
        assert(t =~= seq![t[0]] + t.drop_first());
    } else {
        assert(s =~= t);
    }
}

/// The encoding is injective on encodable nodes.
pub proof fn lemma_encode_injective(a: TrieModel, c: TrieModel)
    requires
        trie_wf(a),
        trie_wf(c),
        encode(a) == encode(c),
    ensures
        a == c,
{
    lemma_encode_tag(a);
    lemma_encode_tag(c);
    let l = encode(a);
    match (a, c) {
        (TrieModel::Leaf { key: k1, value: v1 }, TrieModel::Leaf { key: k2, value: v2 }) => {
            assert(l.subrange(1, l.len() as int) =~= enc_bytes(k1) + enc_bytes(v1));
            assert(encode(c).subrange(1, l.len() as int) =~= enc_bytes(k2) + enc_bytes(v2));
            lemma_enc_bytes_prefix(k1, k2, enc_bytes(v1), enc_bytes(v2));
            lemma_enc_bytes_prefix(v1, v2, Seq::empty(), Seq::empty());
            assert(enc_bytes(v1) + Seq::<u8>::empty() =~= enc_bytes(v1));
            assert(enc_bytes(v2) + Seq::<u8>::empty() =~= enc_bytes(v2));
        },
        (TrieModel::Node { slots: s1 }, TrieModel::Node { slots: s2 }) => {
            assert(l.subrange(1, l.len() as int) =~= enc_slots(s1));
            assert(encode(c).subrange(1, l.len() as int) =~= enc_slots(s2));
            lemma_enc_slots_injective(s1, s2);
        },
        (
            TrieModel::Extension { affix: a1, pointer: pa },
            TrieModel::Extension { affix: a2, pointer: pc },
        ) => {
            assert(l.subrange(1, l.len() as int) =~= enc_bytes(a1) + enc_pointer(pa));
            assert(encode(c).subrange(1, l.len() as int) =~= enc_bytes(a2) + enc_pointer(pc));
            lemma_enc_bytes_prefix(a1, a2, enc_pointer(pa), enc_pointer(pc));
            assert(enc_pointer(pa) + Seq::<u8>::empty() =~= enc_pointer(pa));
            assert(enc_pointer(pc) + Seq::<u8>::empty() =~= enc_pointer(pc));
            lemma_enc_pointer_prefix(pa, pc, Seq::empty(), Seq::empty());
        },
        _ => {},
    }
}

/// Content addressing: nodes with the same encoding have the same digest,
/// are the same node, and are what decoding that encoding gives.
pub proof fn law_content_addressing(n1: TrieModel, n2: TrieModel)
    requires
        trie_wf(n1),
        trie_wf(n2),
        encode(n1) == encode(n2),
    ensures
        blake2b_256(encode(n1)) == blake2b_256(encode(n2)),
        n1 == n2,
        is_encoding(encode(n1)),
        decoded(encode(n1)) == n2,
{
    lemma_encode_injective(n1, n2);
    let t = decoded(encode(n1));
    assert(trie_wf(n1) && encode(n1) == encode(n1));
    lemma_encode_injective(t, n1);
}

/// Reads the four-byte length at `pos`.
fn read_u32_le(b: &[u8], pos: usize) -> (r: Option<u32>)
    requires
        pos <= b@.len(),
    ensures
        r is Some <==> pos + 4 <= b@.len(),
        r matches Some(n) ==> b@.subrange(pos as int, pos + 4) == u32_le(n as nat),
        r matches Some(n) ==> forall|m: nat|
            m <= u32::MAX && b@.subrange(pos as int, pos + 4) == #[trigger] u32_le(m) ==> n == m,
{
    if b.len() - pos < 4 {
        return None;
    }
    let b0 = b[pos];
    let b1 = b[pos + 1];
    let b2 = b[pos + 2];
    let b3 = b[pos + 3];
    let n: u32 = b0 as u32 + 256 * (b1 as u32) + 65536 * (b2 as u32) + 16777216 * (b3 as u32);
    proof {
        lemma_u32_le_of_bytes(b0, b1, b2, b3);
        assert(b@.subrange(pos as int, pos + 4) =~= seq![b0, b1, b2, b3]);
        assert forall|m: nat|
            m <= u32::MAX && b@.subrange(pos as int, pos + 4) == u32_le(m) implies n == m by {
            lemma_u32_le_injective(n as nat, m);
        }
    }
    Some(n)
}

/// Copies `len` bytes starting at `pos`.
fn read_slice(b: &[u8], pos: usize, len: usize) -> (r: Vec<u8>)
    requires
        pos + len <= b@.len(),
        b@.len() <= usize::MAX,
    ensures
        r@ == b@.subrange(pos as int, pos + len),
{
    let mut r: Vec<u8> = Vec::new();
    let mut i: usize = 0;
    while i < len
        invariant
            i <= len,
            pos + len <= b@.len(),
            b@.len() <= usize::MAX,
            r@ == b@.subrange(pos as int, pos + i),
        decreases len - i,
    {
        r.push(b[pos + i]);
        i = i + 1;
        assert(r@ =~= b@.subrange(pos as int, pos + i));
    }
    r
}

/// Whether the bytes of `b` from `pos` on begin with `prefix`.
pub open spec fn starts_with_at(b: Seq<u8>, pos: int, prefix: Seq<u8>) -> bool {
    pos + prefix.len() <= b.len() && b.subrange(pos, pos + prefix.len()) == prefix
}

/// Reads a length-prefixed byte string at `pos`; gives it and the position
/// after it.
fn read_bytes(b: &[u8], pos: usize) -> (r: Option<(Vec<u8>, usize)>)
    requires
        pos <= b@.len(),
    ensures
        r matches Some((v, end)) ==> pos <= end <= b@.len() && b@.subrange(pos as int, end as int)
            == enc_bytes(v@) && v@.len() <= u32::MAX,
        forall|v: Seq<u8>|
            v.len() <= u32::MAX && #[trigger] starts_with_at(b@, pos as int, enc_bytes(v)) ==> (r matches Some(
                (x, end),
            ) && x@ == v && end == pos + 4 + v.len()),
{
    let ghost exists_v = exists|v: Seq<u8>|
        v.len() <= u32::MAX && starts_with_at(b@, pos as int, enc_bytes(v));
    let ghost v0 = choose|v: Seq<u8>|
        v.len() <= u32::MAX && starts_with_at(b@, pos as int, enc_bytes(v));
    proof {
        if exists_v {
            assert(b@.subrange(pos as int, pos + 4) =~= enc_bytes(v0).subrange(0, 4));
            assert(enc_bytes(v0).subrange(0, 4) =~= u32_le(v0.len()));
        }
    }
    let n = read_u32_le(b, pos)?;
    if b.len() - (pos + 4) < n as usize {
        return None;
    }
    let v = read_slice(b, pos + 4, n as usize);
    let end = pos + 4 + n as usize;
    assert(b@.subrange(pos as int, end as int) =~= b@.subrange(pos as int, pos + 4) + v@);
    proof {
        assert forall|w: Seq<u8>|
            w.len() <= u32::MAX && starts_with_at(b@, pos as int, enc_bytes(w)) implies (v@ == w
            && end == pos + 4 + w.len()) by {
            assert(b@.subrange(pos as int, pos + 4) =~= enc_bytes(w).subrange(0, 4));
            assert(enc_bytes(w).subrange(0, 4) =~= u32_le(w.len()));
            assert(n == w.len());
            assert(v@ =~= enc_bytes(w).subrange(4, 4 + w.len() as int));
            assert(enc_bytes(w).subrange(4, 4 + w.len() as int) =~= w);
        }
    }
    Some((v, end))
}

/// Reads a digest at `pos`.
fn read_digest(b: &[u8], pos: usize) -> (r: Option<Digest>)
    requires
        pos <= b@.len(),
    ensures
        r is Some <==> pos + DIGEST_LENGTH <= b@.len(),
        r matches Some(d) ==> b@.subrange(pos as int, pos + DIGEST_LENGTH) == d@,
{
    if b.len() - pos < DIGEST_LENGTH {
        return None;
    }
    let mut value: [u8; 32] = [0u8; 32];
    let mut i: usize = 0;
    while i < DIGEST_LENGTH
        invariant
            i <= DIGEST_LENGTH,
            pos + DIGEST_LENGTH <= b@.len(),
            b@.len() <= usize::MAX,
            value@.len() == DIGEST_LENGTH,
            forall|j: int| 0 <= j < i ==> value@[j] == b@[pos + j],
        decreases DIGEST_LENGTH - i,
    {
        value[i] = b[pos + i];
        i = i + 1;
    }
    let d = Digest::from_raw(value);
    assert(b@.subrange(pos as int, pos + DIGEST_LENGTH) =~= d@);
    Some(d)
}

/// Reads a pointer at `pos`; gives it and the position after it.
fn read_pointer(b: &[u8], pos: usize) -> (r: Option<(Pointer, usize)>)
    requires
        pos <= b@.len(),
    ensures
        r matches Some((p, end)) ==> pos <= end <= b@.len() && b@.subrange(pos as int, end as int)
            == enc_pointer(p@) && p@.target().len() == DIGEST_LENGTH,
        forall|p: PointerModel|
            p.target().len() == DIGEST_LENGTH && #[trigger] starts_with_at(b@, pos as int, enc_pointer(p)) ==> (
            r matches Some((x, end)) && x@ == p && end == pos + 1 + DIGEST_LENGTH),
{
    if pos >= b.len() {
        proof {
            assert forall|p: PointerModel|
                p.target().len() == DIGEST_LENGTH && starts_with_at(
                    b@,
                    pos as int,
                    enc_pointer(p),
                ) implies false by {
                assert(enc_pointer(p).len() == 1 + DIGEST_LENGTH);
            }
        }
        return None;
    }
    let tag = b[pos];
    proof {
        assert forall|p: PointerModel|
            p.target().len() == DIGEST_LENGTH && starts_with_at(
                b@,
                pos as int,
                enc_pointer(p),
            ) implies pos + 1 + DIGEST_LENGTH <= b@.len() && b@.subrange(
            pos + 1,
            pos + 1 + DIGEST_LENGTH,
        ) == p.target() && tag == (if p is Leaf {
            0u8
        } else {
            1u8
        }) by {
            assert(b@.subrange(pos + 1, pos + 1 + DIGEST_LENGTH) =~= enc_pointer(p).subrange(
                1,
                1 + DIGEST_LENGTH,
            ));
            assert(enc_pointer(p).subrange(1, 1 + DIGEST_LENGTH) =~= p.target());
            assert(b@[pos as int] == b@.subrange(pos as int, pos + 1 + DIGEST_LENGTH)[0]);
        }
    }
    let d = read_digest(b, pos + 1)?;
    let end = pos + 1 + DIGEST_LENGTH;
    let p = if tag == 0 {
        Pointer::LeafPointer(d)
    } else if tag == 1 {
        Pointer::NodePointer(d)
    } else {
        return None;
    };
    assert(b@.subrange(pos as int, end as int) =~= enc_pointer(p@));
    Some((p, end))
}

proof fn lemma_encode_tag(t: TrieModel)
    ensures
        encode(t).len() > 0,
        encode(t)[0] == (match t {
            TrieModel::Leaf { .. } => 0u8,
            TrieModel::Node { .. } => 1u8,
            TrieModel::Extension { .. } => 2u8,
        }),
{
}

proof fn lemma_slot_at(b: Seq<u8>, ts: Seq<Option<PointerModel>>, i: int)
    requires
        b == seq![1u8] + enc_slots(ts),
        0 <= i < ts.len(),
    ensures
        ({
            let pos: int = 1 + enc_slots(ts.subrange(0, i)).len() as int;
            &&& starts_with_at(b, pos, enc_slot(ts[i]))
            &&& b[pos] == (if ts[i] is Some {
                1u8
            } else {
                0u8
            })
            &&& ts[i] matches Some(p) ==> starts_with_at(b, pos + 1, enc_pointer(p))
        }),
{
    let head = ts.subrange(0, i);
    let tail = ts.subrange(i + 1, ts.len() as int);
    let one = seq![ts[i]];
    assert(ts =~= head + one + tail);
    lemma_enc_slots_append(head + one, tail);
    lemma_enc_slots_append(head, one);
    assert(one.drop_last() =~= Seq::<Option<PointerModel>>::empty());
    assert(enc_slots(Seq::<Option<PointerModel>>::empty()) =~= Seq::<u8>::empty());
    assert(enc_slots(one) == enc_slots(one.drop_last()) + enc_slot(one.last()));
    assert(enc_slots(one) =~= enc_slot(ts[i]));
    let es = enc_slot(ts[i]);
    let pos: int = 1 + enc_slots(head).len() as int;
    assert(b =~= seq![1u8] + enc_slots(head) + es + enc_slots(tail));
    assert(b.subrange(pos, pos + es.len() as int) =~= es);
    assert(b[pos] == es[0]);
    if ts[i] is Some {
        let p = ts[i]->Some_0;
        assert(b.subrange(pos + 1, pos + 1 + enc_pointer(p).len() as int) =~= enc_pointer(p));
    }
}

/// Reads the slots of a pointer block, which start at position one.
fn read_slots(b: &[u8], Ghost(expect): Ghost<Option<Seq<Option<PointerModel>>>>) -> (r: Option<
    (Vec<Option<Pointer>>, usize),
>)
    requires
        b@.len() >= 1,
        b@[0] == 1u8,
        expect matches Some(ts) ==> ts.len() == POINTER_BLOCK_WIDTH && b@ == seq![1u8] + enc_slots(
            ts,
        ) && forall|j: int| #![trigger ts[j]]
            0 <= j < ts.len() && ts[j] is Some ==> ts[j]->Some_0.target().len() == DIGEST_LENGTH,
    ensures
        r matches Some((v, pos)) ==> {
            &&& 1 <= pos <= b@.len()
            &&& v@.len() == POINTER_BLOCK_WIDTH
            &&& b@.subrange(1, pos as int) == enc_slots(
                v@.map_values(|o: Option<Pointer>| slot_view(o)),
            )
            &&& forall|j: int| #![trigger v@[j]]
                0 <= j < v@.len() && v@[j] is Some ==> v@[j]->Some_0@.target().len()
                    == DIGEST_LENGTH
        },
        expect matches Some(ts) ==> (r matches Some((v, pos)) && v@.map_values(
            |o: Option<Pointer>| slot_view(o),
        ) == ts && pos == b@.len()),
{
    let _len = b.len();
    let mut slots: Vec<Option<Pointer>> = Vec::new();
    let mut pos: usize = 1;
    let mut i: usize = 0;
    proof {
        if expect is Some {
            assert(slots@.map_values(|o: Option<Pointer>| slot_view(o)) =~= expect->Some_0.subrange(
                0,
                0,
            ));
        }
    }
    while i < POINTER_BLOCK_WIDTH
        invariant
            i <= POINTER_BLOCK_WIDTH,
            1 <= pos <= b@.len(),
            b@.len() <= usize::MAX,
            slots@.len() == i,
            b@.subrange(1, pos as int) == enc_slots(slots@.map_values(|o: Option<Pointer>| slot_view(o))),
            forall|j: int| #![trigger slots@[j]]
                0 <= j < i && slots@[j] is Some ==> slots@[j]->Some_0@.target().len()
                    == DIGEST_LENGTH,
            expect matches Some(ts) ==> ts.len() == POINTER_BLOCK_WIDTH && b@ == seq![1u8]
                + enc_slots(ts) && forall|j: int| #![trigger ts[j]]
                0 <= j < ts.len() && ts[j] is Some ==> ts[j]->Some_0.target().len() == DIGEST_LENGTH,
            expect matches Some(ts) ==> slots@.map_values(|o: Option<Pointer>| slot_view(o))
                == ts.subrange(0, i as int),
        decreases POINTER_BLOCK_WIDTH - i,
    {
        let ghost prev = slots@;
        proof {
            if expect is Some {
                let ts = expect->Some_0;
                lemma_slot_at(b@, ts, i as int);
                assert(pos == 1 + enc_slots(ts.subrange(0, i as int)).len());
            }
        }
        if pos >= b.len() {
            return None;
        }
        let flag = b[pos];
        if flag == 0 {
            slots.push(None);
            pos = pos + 1;
        } else if flag == 1 {
            let (p, end) = read_pointer(b, pos + 1)?;
            slots.push(Some(p));
            assert(b@.subrange(pos - 1 + 1, end as int) =~= seq![1u8] + enc_pointer(p@));
            pos = end;
        } else {
            return None;
        }
        assert(slots@.map_values(|o: Option<Pointer>| slot_view(o)).drop_last()
            =~= prev.map_values(|o: Option<Pointer>| slot_view(o)));
        assert(b@.subrange(1, pos as int) =~= enc_slots(
            slots@.map_values(|o: Option<Pointer>| slot_view(o)),
        ));
        proof {
            if expect is Some {
                let ts = expect->Some_0;
                assert(slots@.map_values(|o: Option<Pointer>| slot_view(o)) =~= ts.subrange(
                    0,
                    i + 1,
                ));
            }
        }
        i = i + 1;
    }
    proof {
        if expect is Some {
            let ts = expect->Some_0;
            assert(ts.subrange(0, POINTER_BLOCK_WIDTH as int) =~= ts);
            assert(b@.subrange(1, b@.len() as int) =~= enc_slots(ts));
        }
    }
    Some((slots, pos))
}

fn decode_leaf(b: &[u8], Ghost(expect): Ghost<Option<(Seq<u8>, Seq<u8>)>>) -> (r: Option<Trie>)
    requires
        b@.len() >= 1,
        b@[0] == 0u8,
        expect matches Some((k, v)) ==> fits_u32(k.len()) && fits_u32(v.len()) && b@ == seq![0u8]
            + enc_bytes(k) + enc_bytes(v),
    ensures
        r matches Some(t) ==> t.wf() && encode(t@) == b@,
        expect matches Some((k, v)) ==> (r matches Some(t) && t@ == TrieModel::Leaf {
            key: k,
            value: v,
        }),
{
    proof {
        if expect is Some {
            let (k, v) = expect->Some_0;
            let ek = enc_bytes(k);
            assert(b@.subrange(1, 1 + ek.len() as int) =~= ek);
            assert(starts_with_at(b@, 1, ek));
        }
    }
    let (key, mid) = read_bytes(b, 1)?;
    proof {
        if expect is Some {
            let (k, v) = expect->Some_0;
            let ev = enc_bytes(v);
            assert(mid == 1 + enc_bytes(k).len());
            assert(b@.subrange(mid as int, mid + ev.len() as int) =~= ev);
            assert(starts_with_at(b@, mid as int, ev));
        }
    }
    let (value, end) = read_bytes(b, mid)?;
    if end != b.len() {
        return None;
    }
    assert(b@ =~= seq![0u8] + b@.subrange(1, mid as int) + b@.subrange(mid as int, end as int));
    Some(Trie::Leaf { key, value })
}

fn decode_extension(b: &[u8], Ghost(expect): Ghost<Option<(Seq<u8>, PointerModel)>>) -> (r: Option<
    Trie,
>)
    requires
        b@.len() >= 1,
        b@[0] == 2u8,
        expect matches Some((a, p)) ==> fits_u32(a.len()) && p.target().len() == DIGEST_LENGTH
            && b@ == seq![2u8] + enc_bytes(a) + enc_pointer(p),
    ensures
        r matches Some(t) ==> t.wf() && encode(t@) == b@,
        expect matches Some((a, p)) ==> (r matches Some(t) && t@ == TrieModel::Extension {
            affix: a,
            pointer: p,
        }),
{
    proof {
        if expect is Some {
            let (a, p) = expect->Some_0;
            let ea = enc_bytes(a);
            assert(b@.subrange(1, 1 + ea.len() as int) =~= ea);
            assert(starts_with_at(b@, 1, ea));
        }
    }
    let (affix, mid) = read_bytes(b, 1)?;
    proof {
        if expect is Some {
            let (a, p) = expect->Some_0;
            let ep = enc_pointer(p);
            assert(mid == 1 + enc_bytes(a).len());
            assert(b@.subrange(mid as int, mid + ep.len() as int) =~= ep);
            assert(starts_with_at(b@, mid as int, ep));
        }
    }
    let (pointer, end) = read_pointer(b, mid)?;
    if end != b.len() {
        return None;
    }
    assert(b@ =~= seq![2u8] + b@.subrange(1, mid as int) + b@.subrange(mid as int, end as int));
    Some(Trie::Extension { affix, pointer })
}

/// Decodes a node from its canonical encoding; fails unless the whole input
/// is the encoding of an encodable node, and then gives that node.
pub fn from_bytes(b: &[u8]) -> (r: Option<Trie>)
    ensures
        r matches Some(t) ==> t.wf() && encode(t@) == b@,
        is_encoding(b@) ==> (r matches Some(t) && t@ == decoded(b@)),
{
    let ghost ex = is_encoding(b@);
    let ghost t0 = decoded(b@);
    proof {
        if ex {
            lemma_encode_tag(t0);
        }
    }
    if b.len() == 0 {
        return None;
    }
    let tag = b[0];
    if tag == 0 {
        let ghost expect = if ex {
            Some((t0->Leaf_key, t0->Leaf_value))
        } else {
            None
        };
        decode_leaf(b, Ghost(expect))
    } else if tag == 1 {
        let ghost expect: Option<Seq<Option<PointerModel>>> = if ex {
            Some(t0->Node_slots)
        } else {
            None
        };
        let (slots, pos) = read_slots(b, Ghost(expect))?;
        if pos != b.len() {
            return None;
        }
        let t = Trie::Node { pointer_block: PointerBlock { slots } };
        assert(b@ =~= seq![1u8] + b@.subrange(1, pos as int));
        Some(t)
    } else if tag == 2 {
        let ghost expect = if ex {
            Some((t0->Extension_affix, t0->Extension_pointer))
        } else {
            None
        };
        decode_extension(b, Ghost(expect))
    } else {
        None
    }
}

} // verus!
