//! Identifiers of network connections and of the messages sent over them.
use vstd::prelude::*;

use crate::digest::{blake2b_256, Digest, DIGEST_LENGTH};

verus! {

/// The lowercase hexadecimal digits.
pub const HEX_DIGITS: &'static str = "0123456789abcdef";

/// Two lowercase hexadecimal digits for each byte, high nibble first.
pub open spec fn hex_lower(b: Seq<u8>) -> Seq<char>
    decreases b.len(),
{
    if b.len() == 0 {
        seq![]
    } else {
        hex_lower(b.drop_last()) + seq![
            HEX_DIGITS@[(b.last() / 16) as int],
            HEX_DIGITS@[(b.last() % 16) as int],
        ]
    }
}

proof fn lemma_hex_lower_len(b: Seq<u8>)
    ensures
        hex_lower(b).len() == 2 * b.len(),
    decreases b.len(),
{
    if b.len() > 0 {
        lemma_hex_lower_len(b.drop_last());
    }
}

/// Relies on base16::encode_lower: two lowercase hexadecimal digits for each
/// byte, high nibble first.
#[verifier::external_body]
fn encode_lower(b: &[u8]) -> (r: String)
    ensures
        r@ == hex_lower(b@),
{
    base16::encode_lower(b)
}

/// The identifier of one message on a connection.
#[derive(Clone, Copy, Debug, PartialEq, Eq)]
pub struct TraceId(pub [u8; 8]);

impl TraceId {
    /// The identifier as sixteen lowercase hexadecimal digits.
    pub fn to_string(&self) -> (r: String)
        ensures
            r@ == hex_lower(self.0@),
            r@.len() == 16,
    {
        proof {
            lemma_hex_lower_len(self.0@);
        }
        encode_lower(self.0.as_slice())
    }
}

/// Bytewise exclusive or of two equally long byte strings.
pub open spec fn xor_seq(a: Seq<u8>, b: Seq<u8>) -> Seq<u8> {
    Seq::new(a.len(), |i: int| a[i] ^ b[i])
}

/// Random data that both ends of a TLS connection share.
#[derive(Clone, Copy, Debug)]
pub struct TlsRandomData {
    pub combined_random: [u8; 12],
}

impl TlsRandomData {
    /// Combines the server and client nonces by exclusive or, so that neither
    /// is disclosed.
    pub fn combine(server_random: [u8; 12], client_random: [u8; 12]) -> (r: TlsRandomData)
        ensures
            r.combined_random@ == xor_seq(server_random@, client_random@),
    {
        let mut combined = server_random;
        let mut i: usize = 0;
        while i < 12
            invariant
                i <= 12,
                combined@.len() == 12,
                forall|j: int| 0 <= j < i ==> combined@[j] == server_random@[j] ^ client_random@[j],
                forall|j: int| i <= j < 12 ==> combined@[j] == server_random@[j],
            decreases 12 - i,
        {
            combined[i] = combined[i] ^ client_random[i];
            i = i + 1;
        }
        assert(combined@ =~= xor_seq(server_random@, client_random@));
        TlsRandomData { combined_random: combined }
    }
}

/// The identifier of a connection, the same on both of its ends.
#[derive(Clone, Copy, Debug, PartialEq, Eq)]
pub struct ConnectionId(pub [u8; 32]);

/// The connection identifier for shared random data and the hashes of the
/// two node identities.
pub open spec fn connection_id_of(random: Seq<u8>, our_id: Seq<u8>, their_id: Seq<u8>) -> Seq<u8> {
    Seq::new(
        DIGEST_LENGTH as nat,
        |i: int| blake2b_256(random)[i] ^ our_id[i] ^ their_id[i],
    )
}

/// The little-endian bytes of `n`.
pub open spec fn u64_le(n: nat) -> Seq<u8> {
    Seq::new(8, |i: int| ((n / pow256(i as nat)) % 256) as u8)
}

/// 256 to the power `i`.
pub open spec fn pow256(i: nat) -> nat
    decreases i,
{
    if i == 0 {
        1
    } else {
        256 * pow256((i - 1) as nat)
    }
}

/// The buffer hashed for a message: the connection identifier with the
/// direction flag in its first byte and the message count in bytes four to
/// eleven.
pub open spec fn trace_buffer(id: Seq<u8>, flag: u8, count: nat) -> Seq<u8> {
    Seq::new(
        id.len(),
        |i: int|
            if i == 0 {
                id[i] ^ flag
            } else if 4 <= i < 12 {
                id[i] ^ u64_le(count)[i - 4]
            } else {
                id[i]
            },
    )
}

impl ConnectionId {
    /// The identifier of a connection, from its random data and the hashes of
    /// the identities of its two nodes; swapping the nodes gives the same one.
    pub fn create(random_data: TlsRandomData, our_id: &[u8], their_id: &[u8]) -> (r: ConnectionId)
        requires
            our_id@.len() >= DIGEST_LENGTH,
            their_id@.len() >= DIGEST_LENGTH,
        ensures
            r.0@ == connection_id_of(random_data.combined_random@, our_id@, their_id@),
    {
        let hash = Digest::hash(random_data.combined_random.as_slice());
        let mut id = hash.value();
        let mut i: usize = 0;
        while i < DIGEST_LENGTH
            invariant
                i <= DIGEST_LENGTH,
                id@.len() == DIGEST_LENGTH,
                hash@ == blake2b_256(random_data.combined_random@),
                our_id@.len() >= DIGEST_LENGTH,
                their_id@.len() >= DIGEST_LENGTH,
                forall|j: int| 0 <= j < i ==> id@[j] == hash@[j] ^ our_id@[j] ^ their_id@[j],
                forall|j: int| i <= j < DIGEST_LENGTH ==> id@[j] == hash@[j],
            decreases DIGEST_LENGTH - i,
        {
            id[i] = id[i] ^ our_id[i] ^ their_id[i];
            i = i + 1;
        }
        assert(id@ =~= connection_id_of(random_data.combined_random@, our_id@, their_id@));
        ConnectionId(id)
    }

    /// The identifier of message number `count` in the direction `flag`: the
    /// first eight bytes of the hash of the trace buffer.
    pub fn create_trace_id(&self, flag: u8, count: u64) -> (r: TraceId)
        ensures
            r.0@ == blake2b_256(trace_buffer(self.0@, flag, count as nat)).subrange(0, 8),
    {
        let mut buffer = self.0;
        buffer[0] = buffer[0] ^ flag;
        let mut c: u64 = count;
        let mut i: usize = 0;
        assert(pow256(0) == 1);
        assert(count as nat / 1 == count as nat);
        while i < 8
            invariant
                i <= 8,
                buffer@.len() == DIGEST_LENGTH,
                c as nat == count as nat / pow256(i as nat),
                buffer@[0] == self.0@[0] ^ flag,
                forall|j: int| 4 <= j < 4 + i ==> buffer@[j] == self.0@[j] ^ u64_le(count as nat)[j - 4],
                forall|j: int| 1 <= j < 4 || 4 + i <= j < DIGEST_LENGTH ==> buffer@[j] == self.0@[j],
            decreases 8 - i,
        {
            proof {
                assert(pow256((i + 1) as nat) == 256 * pow256(i as nat));
                assert(pow256(i as nat) > 0) by {
                    lemma_pow256_pos(i as nat);
                }
                vstd::arithmetic::div_mod::lemma_div_denominator(
                    count as int,
                    pow256(i as nat) as int,
                    256,
                );
            }
            buffer[4 + i] = buffer[4 + i] ^ ((c % 256) as u8);
            c = c / 256;
            i = i + 1;
        }
        assert(buffer@ =~= trace_buffer(self.0@, flag, count as nat));
        let full_hash = Digest::hash(buffer.as_slice());
        let value = full_hash.value();
        let mut truncated: [u8; 8] = [0u8; 8];
        let mut k: usize = 0;
        while k < 8
            invariant
                k <= 8,
                value@.len() == DIGEST_LENGTH,
                truncated@.len() == 8,
                forall|j: int| 0 <= j < k ==> truncated@[j] == value@[j],
            decreases 8 - k,
        {
            truncated[k] = value[k];
            k = k + 1;
        }
        assert(truncated@ =~= value@.subrange(0, 8));
        TraceId(truncated)
    }

    /// The raw bytes of the identifier.
    pub fn as_bytes(&self) -> (r: &[u8])
        ensures
            r@ == self.0@,
    {
        self.0.as_slice()
    }
}

proof fn lemma_pow256_pos(i: nat)
    ensures
        pow256(i) > 0,
    decreases i,
{
    if i > 0 {
        lemma_pow256_pos((i - 1) as nat);
    }
}

/// The direction in which a message travels on a connection.
#[derive(Clone, Copy, Debug, PartialEq, Eq)]
pub enum Role {
    /// The node that opened the connection.
    Dialer,
    /// The node that accepted the connection.
    Listener,
}

/// Half of the bits set, to be mixed into the connection identifier.
pub const MAGIC_FLAG: u8 = 0b10101010;

impl Role {
    /// The flag for hashing incoming messages: the complement of the outgoing
    /// one.
    pub fn in_flag(self) -> (r: u8)
        ensures
            r == !self.out_flag_spec(),
    {
        !self.out_flag()
    }

    /// The flag for outgoing messages.
    pub open spec fn out_flag_spec(self) -> u8 {
        match self {
            Role::Dialer => MAGIC_FLAG,
            Role::Listener => !MAGIC_FLAG,
        }
    }

    /// The flag for hashing outgoing messages: the dialer's and the
    /// listener's are complements of each other.
    pub fn out_flag(self) -> (r: u8)
        ensures
            r == self.out_flag_spec(),
    {
        match self {
            Role::Dialer => MAGIC_FLAG,
            Role::Listener => !MAGIC_FLAG,
        }
    }
}

/// Both ends of a connection derive the same identifier, whichever node
/// each calls its own.
pub proof fn law_connection_id_symmetric(random: Seq<u8>, a: Seq<u8>, b: Seq<u8>)
    ensures
        connection_id_of(random, a, b) == connection_id_of(random, b, a),
{
    assert forall|i: int| 0 <= i < DIGEST_LENGTH implies #[trigger] connection_id_of(random, a, b)[i]
        == connection_id_of(random, b, a)[i] by {
        let x = blake2b_256(random)[i];
        let y = a[i];
        let z = b[i];
        assert(x ^ y ^ z == x ^ z ^ y) by (bit_vector);
    }
    assert(connection_id_of(random, a, b) =~= connection_id_of(random, b, a));
}

/// A message's sender and receiver use the same flag: the dialer's outgoing
/// flag is the listener's incoming one, and the other way round.
pub proof fn law_flags_match()
    ensures
        Role::Dialer.out_flag_spec() == !Role::Listener.out_flag_spec(),
        Role::Listener.out_flag_spec() == !Role::Dialer.out_flag_spec(),
{
    assert(!(!MAGIC_FLAG) == MAGIC_FLAG) by (bit_vector);
}

} // verus!
