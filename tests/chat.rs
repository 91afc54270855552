use streamchat::frame::{decode_frame, encode_frame, frame_length, u64_from_be_bytes, u64_to_be_bytes};
use streamchat::key_exchange::{
    compute_shared_secret, generate_keypair, KeyPair, DH_GENERATOR, DH_MODULUS,
};
use streamchat::keystream::{transform, Lcg};
use streamchat::modexp::mod_pow;
use streamchat::session::{
    inbound_message, outbound_line, outbound_message, Channel, Handshake, HandshakeAction,
    LineAction, Role, SessionError,
};

fn naive_mod_pow(b: u64, e: u64, m: u64) -> u64 {
    let mut acc: u64 = 1 % m;
    for _ in 0..e {
        acc = ((acc as u128 * b as u128) % m as u128) as u64;
    }
    acc
}

#[test]
fn modexp_matches_brute_force() {
    assert_eq!(mod_pow(5, 13, 97), naive_mod_pow(5, 13, 97));
    assert_eq!(mod_pow(5, 13, 97), 29);
    for b in 0..20u64 {
        for e in 0..40u64 {
            assert_eq!(mod_pow(b, e, 97), naive_mod_pow(b, e, 97));
        }
    }
}

#[test]
fn modexp_modulus_one_is_zero() {
    assert_eq!(mod_pow(0, 0, 1), 0);
    assert_eq!(mod_pow(12345, 678, 1), 0);
}

#[test]
fn modexp_zero_exponent_is_one() {
    assert_eq!(mod_pow(7, 0, 97), 1);
    assert_eq!(mod_pow(0, 0, DH_MODULUS), 1);
}

#[test]
fn modexp_wide_operands_do_not_overflow() {
    let m = u64::MAX;
    // (m - 1)^2 = m^2 - 2m + 1, which is 1 modulo m.
    assert_eq!(mod_pow(m - 1, 2, m), 1);
    assert_eq!(mod_pow(DH_MODULUS - 1, 2, DH_MODULUS), 1);
    assert_eq!(mod_pow(DH_MODULUS - 1, 3, DH_MODULUS), DH_MODULUS - 1);
}

#[test]
fn shared_secret_is_symmetric() {
    let p = 97u64;
    let g = 5u64;
    for a in 0..30u64 {
        for b in 0..30u64 {
            assert_eq!(mod_pow(mod_pow(g, a, p), b, p), mod_pow(mod_pow(g, b, p), a, p));
        }
    }
    let a = KeyPair::from_private(0x0123_4567_89AB_CDEF);
    let b = KeyPair::from_private(0xFEDC_BA98_7654_3210);
    assert_eq!(
        compute_shared_secret(b.public, a.private),
        compute_shared_secret(a.public, b.private)
    );
}

#[test]
fn keypair_public_value() {
    let k = KeyPair::from_private(10);
    assert_eq!(k.private, 10);
    assert_eq!(k.public, 1024);
    assert_eq!(k.public, mod_pow(DH_GENERATOR, 10, DH_MODULUS));
    let g = generate_keypair();
    assert_eq!(g.public, mod_pow(DH_GENERATOR, g.private, DH_MODULUS));
}

#[test]
fn keystream_first_bytes() {
    let mut k = Lcg::new(0);
    // state 12345 -> top byte 0
    assert_eq!(k.next_byte(), 0);
    assert_eq!(k.state, 12345);
    assert_eq!(k.position, 1);
    let next = (1103515245u64 * 12345 + 12345) % (1u64 << 32);
    assert_eq!(k.next_byte(), (next >> 24) as u8);
    assert_eq!(k.state as u64, next);
}

#[test]
fn keystream_seed_keeps_low_bits() {
    let a = Lcg::new(0xDEAD_BEEF_0000_0001);
    assert_eq!(a.state, 1);
    assert_eq!(a.position, 0);
    let mut x = Lcg::new(0xFFFF_FFFF_0000_0001);
    let mut y = Lcg::new(1);
    assert_eq!(x.take(32), y.take(32));
}

#[test]
fn keystream_is_deterministic() {
    let seed = 0x1234_5678_9ABC_DEF0u64;
    let mut a = Lcg::new(seed);
    let mut b = Lcg::new(seed);
    let bulk = a.take(100);
    let mut single = Vec::new();
    for _ in 0..100 {
        single.push(b.next_byte());
    }
    assert_eq!(bulk, single);
    assert_eq!(a.state, b.state);
    assert_eq!(a.position, 100);
    let mut c = Lcg::new(seed);
    let mut split = c.take(37);
    split.extend(c.take(63));
    assert_eq!(split, bulk);
}

#[test]
fn cipher_round_trip() {
    let x: Vec<u8> = (0..=255u8).chain(b"hello world".iter().copied()).collect();
    for seed in [0u64, 1, 42, u64::MAX, DH_MODULUS] {
        let c = transform(&x, &mut Lcg::new(seed));
        assert_eq!(c.len(), x.len());
        let back = transform(&c, &mut Lcg::new(seed));
        assert_eq!(back, x);
    }
    let empty: Vec<u8> = Vec::new();
    assert_eq!(transform(&empty, &mut Lcg::new(9)), empty);
}

#[test]
fn cipher_changes_the_bytes() {
    let x = b"hello".to_vec();
    let mut k = Lcg::new(77);
    let ks = Lcg::new(77).take(5);
    let c = transform(&x, &mut k);
    let expected: Vec<u8> = x.iter().zip(ks.iter()).map(|(a, b)| a ^ b).collect();
    assert_eq!(c, expected);
    assert_eq!(k.position, 5);
}

#[test]
fn cipher_after_prior_use_round_trips() {
    let mut sender = Lcg::new(5);
    let mut receiver = Lcg::new(5);
    for msg in [b"first".to_vec(), b"second message".to_vec(), vec![0u8; 3]] {
        let c = transform(&msg, &mut sender);
        assert_eq!(transform(&c, &mut receiver), msg);
    }
}

#[test]
fn frame_round_trip_lengths() {
    for n in [0usize, 1, 65536] {
        let payload: Vec<u8> = (0..n).map(|i| (i % 251) as u8).collect();
        let f = encode_frame(&payload);
        assert_eq!(f.len(), n + 4);
        assert_eq!(frame_length(&f) as usize, n);
        assert_eq!(decode_frame(&f), Some((payload, n + 4)));
    }
}

#[test]
fn frame_header_is_big_endian() {
    let f = encode_frame(&[9u8; 258]);
    assert_eq!(&f[0..4], &[0, 0, 1, 2]);
    assert_eq!(frame_length(&[0x01, 0x02, 0x03, 0x04]), 0x0102_0304);
}

#[test]
fn decode_frame_needs_the_whole_frame() {
    assert_eq!(decode_frame(&[]), None);
    assert_eq!(decode_frame(&[0, 0, 0]), None);
    assert_eq!(decode_frame(&[0, 0, 0, 3, 1, 2]), None);
    assert_eq!(decode_frame(&[0, 0, 0, 2, 7, 8, 9]), Some((vec![7, 8], 6)));
}

#[test]
fn u64_big_endian_bytes() {
    let b = u64_to_be_bytes(0x0102_0304_0506_0708);
    assert_eq!(b, vec![1, 2, 3, 4, 5, 6, 7, 8]);
    assert_eq!(u64_from_be_bytes(&b), 0x0102_0304_0506_0708);
    assert_eq!(u64_from_be_bytes(&u64_to_be_bytes(DH_MODULUS)), DH_MODULUS);
}

#[test]
fn handshake_rejects_bad_key_frame() {
    let mut h = Handshake::new(Role::Responder, KeyPair::from_private(3));
    assert!(matches!(h.next_action(), HandshakeAction::Receive));
    assert_eq!(h.on_frame(&[1, 2, 3]), Err(SessionError::HandshakeFailure));
    assert_eq!(h.peer_public, None);
    assert_eq!(h.on_frame(&[0, 0, 0, 0, 0, 0, 0, 5]), Ok(()));
    assert_eq!(h.peer_public, Some(5));
}

#[test]
fn handshake_order_by_role() {
    let k = KeyPair::from_private(3);
    let mut i = Handshake::new(Role::Initiator, KeyPair::from_private(3));
    match i.next_action() {
        HandshakeAction::Send(bytes) => {
            let mut expected = vec![0, 0, 0, 8];
            expected.extend(u64_to_be_bytes(k.public));
            assert_eq!(bytes, expected);
        }
        _ => panic!("the initiator sends first"),
    }
    i.on_sent();
    assert!(matches!(i.next_action(), HandshakeAction::Receive));
    let r = Handshake::new(Role::Responder, k);
    assert!(matches!(r.next_action(), HandshakeAction::Receive));
}

fn read_frame(buf: &[u8]) -> Vec<u8> {
    let (payload, used) = decode_frame(buf).expect("a whole frame");
    assert_eq!(used, buf.len());
    payload
}

fn run_handshake(a: &mut Handshake, b: &mut Handshake) -> (Channel, Channel) {
    loop {
        match (a.next_action(), b.next_action()) {
            (HandshakeAction::Complete(ca), HandshakeAction::Complete(cb)) => return (ca, cb),
            (HandshakeAction::Send(bytes), HandshakeAction::Receive) => {
                a.on_sent();
                b.on_frame(&read_frame(&bytes)).unwrap();
            }
            (HandshakeAction::Receive, HandshakeAction::Send(bytes)) => {
                b.on_sent();
                a.on_frame(&read_frame(&bytes)).unwrap();
            }
            (HandshakeAction::Send(bytes), HandshakeAction::Complete(_)) => {
                a.on_sent();
                let _ = bytes;
            }
            (HandshakeAction::Complete(_), HandshakeAction::Send(bytes)) => {
                b.on_sent();
                let _ = bytes;
            }
            _ => panic!("the two roles wait on each other"),
        }
    }
}

fn chat(sender: &mut Lcg, receiver: &mut Lcg, line: &str) -> Option<String> {
    match outbound_line(line, sender) {
        LineAction::Send(wire) => {
            let payload = read_frame(&wire);
            let plain = inbound_message(&payload, receiver);
            Some(String::from_utf8(plain).unwrap())
        }
        _ => None,
    }
}

#[test]
fn end_to_end_session() {
    let ka = KeyPair::from_private(0x1111_2222_3333_4444);
    let kb = KeyPair::from_private(0x9999_AAAA_BBBB_CCCC);
    let mut initiator = Handshake::new(Role::Initiator, ka);
    let mut responder = Handshake::new(Role::Responder, kb);
    let (mut ca, mut cb) = run_handshake(&mut initiator, &mut responder);
    assert_eq!(ca.secret, cb.secret);
    assert_eq!(initiator.peer_public, Some(kb.public));
    assert_eq!(responder.peer_public, Some(ka.public));

    let wire = match outbound_line("hello\n", &mut ca.outbound) {
        LineAction::Send(w) => w,
        _ => panic!("a message is sent"),
    };
    assert_ne!(&wire[4..], b"hello");
    let got = inbound_message(&read_frame(&wire), &mut cb.inbound);
    assert_eq!(got, b"hello".to_vec());

    assert_eq!(chat(&mut cb.outbound, &mut ca.inbound, "world"), Some("world".to_string()));
    assert_eq!(chat(&mut ca.outbound, &mut cb.inbound, "  second line  "), Some("second line".to_string()));

    let before = ca.outbound.state;
    assert!(matches!(outbound_line("quit\n", &mut ca.outbound), LineAction::Quit));
    assert_eq!(ca.outbound.state, before);
    assert!(matches!(outbound_line("exit", &mut cb.outbound), LineAction::Quit));
}

#[test]
fn empty_lines_are_ignored() {
    let mut k = Lcg::new(1);
    assert!(matches!(outbound_line("", &mut k), LineAction::Ignore));
    assert!(matches!(outbound_line("   \r\n", &mut k), LineAction::Ignore));
    assert!(matches!(outbound_message("", &mut k), LineAction::Ignore));
    assert_eq!(k.position, 0);
    assert!(matches!(outbound_message("quit", &mut k), LineAction::Quit));
    assert!(matches!(outbound_message(" quit", &mut k), LineAction::Send(_)));
    assert_eq!(k.position, 5);
}

#[test]
fn trimmed_line_is_what_is_sent() {
    let mut a = Lcg::new(8);
    let mut b = Lcg::new(8);
    let x = match outbound_line("\t hi there \n", &mut a) {
        LineAction::Send(w) => w,
        _ => panic!("sent"),
    };
    let y = match outbound_message("hi there", &mut b) {
        LineAction::Send(w) => w,
        _ => panic!("sent"),
    };
    assert_eq!(x, y);
    assert_eq!(x.len(), 4 + 8);
}

#[test]
fn utf8_lines_round_trip() {
    let mut a = Lcg::new(99);
    let mut b = Lcg::new(99);
    assert_eq!(chat(&mut a, &mut b, "héllo wörld ✓"), Some("héllo wörld ✓".to_string()));
}

#[test]
fn frame_followed_by_more_bytes() {
    let mut wire = encode_frame(b"abc");
    wire.extend(encode_frame(b"de"));
    let (first, used) = decode_frame(&wire).unwrap();
    assert_eq!(first, b"abc".to_vec());
    assert_eq!(used, 7);
    assert_eq!(decode_frame(&wire[used..]), Some((b"de".to_vec(), 6)));
}

#[test]
fn handshake_yields_fresh_channel() {
    let ka = KeyPair::from_private(77);
    let kb = KeyPair::from_private(1234567);
    let mut a = Handshake::new(Role::Initiator, ka);
    let mut b = Handshake::new(Role::Responder, kb);
    let (ca, cb) = run_handshake(&mut a, &mut b);
    let secret = compute_shared_secret(kb.public, ka.private);
    assert_eq!(ca.secret, secret);
    assert_eq!(cb.secret, secret);
    assert_eq!(ca.outbound, Lcg::new(secret));
    assert_eq!(ca.inbound, Lcg::new(secret));
    assert_eq!(cb.outbound.position, 0);
    let direct = Channel::new(secret);
    assert_eq!(direct.inbound, cb.inbound);
}
