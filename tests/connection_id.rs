use trie_store::connection_id::{ConnectionId, Role, TlsRandomData, TraceId};

#[test]
fn trace_id_has_16_character() {
    let data = [0, 1, 2, 3, 4, 5, 6, 7];

    let output = TraceId(data).to_string();

    assert_eq!(output.len(), 16);
}

#[test]
fn trace_id_is_lowercase_hex() {
    let data = [0x00, 0x01, 0x2a, 0xff, 0x10, 0x9b, 0xc3, 0x7e];
    assert_eq!(TraceId(data).to_string(), "00012aff109bc37e");
}

fn node_id(seed: u8) -> Vec<u8> {
    (0..64u32).map(|i| (i as u8).wrapping_mul(31).wrapping_add(seed)).collect()
}

#[test]
fn can_create_deterministic_trace_id() {
    let node_a = node_id(3);
    let node_b = node_id(101);

    let a_to_b_random = TlsRandomData::combine([7u8; 12], [1, 2, 3, 4, 5, 6, 7, 8, 9, 10, 11, 12]);
    let a_to_b = ConnectionId::create(a_to_b_random, &node_a, &node_b);
    let a_to_b_alt = ConnectionId::create(a_to_b_random, &node_b, &node_a);
    assert_eq!(a_to_b, a_to_b_alt);

    let b_to_a_random = TlsRandomData::combine([200u8; 12], [9u8; 12]);
    let b_to_a = ConnectionId::create(b_to_a_random, &node_b, &node_a);
    let b_to_a_alt = ConnectionId::create(b_to_a_random, &node_a, &node_b);
    assert_eq!(b_to_a, b_to_a_alt);

    assert_ne!(a_to_b, b_to_a);

    let msg_ab_0_on_a = a_to_b.create_trace_id(Role::Dialer.out_flag(), 0);
    let msg_ab_0_on_b = a_to_b.create_trace_id(Role::Listener.in_flag(), 0);
    assert_eq!(msg_ab_0_on_a, msg_ab_0_on_b);

    let msg_ab_1_on_a = a_to_b.create_trace_id(Role::Dialer.out_flag(), 1);
    let msg_ab_1_on_b = a_to_b.create_trace_id(Role::Listener.in_flag(), 1);
    assert_eq!(msg_ab_1_on_a, msg_ab_1_on_b);
    assert_ne!(msg_ab_0_on_a, msg_ab_1_on_a);

    let msg_ba_0_on_b = a_to_b.create_trace_id(Role::Listener.out_flag(), 0);
    let msg_ba_0_on_a = a_to_b.create_trace_id(Role::Dialer.in_flag(), 0);
    assert_eq!(msg_ba_0_on_b, msg_ba_0_on_a);
    assert_ne!(msg_ba_0_on_b, msg_ab_0_on_b);
}

#[test]
fn role_flags() {
    assert_eq!(Role::Dialer.out_flag(), 0b1010_1010);
    assert_eq!(Role::Listener.out_flag(), 0b0101_0101);
    assert_eq!(Role::Dialer.in_flag(), 0b0101_0101);
    assert_eq!(Role::Listener.in_flag(), 0b1010_1010);
}

#[test]
fn tls_random_data_is_xor_of_nonces() {
    let r = TlsRandomData::combine([0xff; 12], [0x0f, 0xf0, 0, 0, 0, 0, 0, 0, 0, 0, 0, 0xff]);
    assert_eq!(
        r.combined_random,
        [0xf0, 0x0f, 0xff, 0xff, 0xff, 0xff, 0xff, 0xff, 0xff, 0xff, 0xff, 0x00]
    );
}

#[test]
fn connection_id_bytes_differ_from_hash_input() {
    let zero = vec![0u8; 64];
    let random = TlsRandomData::combine([0u8; 12], [0u8; 12]);
    let id = ConnectionId::create(random, &zero, &zero);
    assert_eq!(id.as_bytes().len(), 32);
    assert_ne!(id.as_bytes(), &[0u8; 32][..]);
}
