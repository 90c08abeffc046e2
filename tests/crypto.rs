use entropy::crypto::Entropy;

#[test]
fn test_expected_bytes() {
    let pass = &[0u8; 64];
    let salt = b"Hello World";

    let mut secret_generator = Entropy::new(&pass[..64], salt);

    let output = secret_generator.get_bytes(31);
    assert_eq!(output.len(), 31);
    let output = secret_generator.get_bytes(32);
    assert_eq!(output.len(), 32);
    let output = secret_generator.get_bytes(64);
    assert_eq!(output.len(), 64);
    let output = secret_generator.get_bytes(65);
    assert_eq!(output.len(), 65);

    assert_eq!(secret_generator.consumed(), 224);
}

fn hex(bytes: &[u8]) -> String {
    let mut s = String::new();
    for b in bytes {
        s.push_str(&format!("{:02x}", b));
    }
    s
}

#[test]
fn first_block_is_hmac_of_salt() {
    let mut e = Entropy::new(b"Jefe", b"what do ya want for nothing?");
    let out = e.get_bytes(32);
    assert_eq!(
        hex(&out),
        "5bdcc146bf60754e6a042426089575c75a003f089d2739839dec58b964ec3843"
    );
}

#[test]
fn short_request_is_prefix_of_first_block() {
    let mut whole = Entropy::new(b"Jefe", b"what do ya want for nothing?");
    let mut part = Entropy::new(b"Jefe", b"what do ya want for nothing?");
    let full = whole.get_bytes(32);
    let head = part.get_bytes(5);
    assert_eq!(head, full[..5].to_vec());
    assert_eq!(part.consumed(), 32);
}

#[test]
fn successive_blocks_differ() {
    let mut e = Entropy::new(b"key", b"salt");
    let a = e.get_bytes(32);
    let b = e.get_bytes(32);
    assert_ne!(a, b);
    assert_eq!(e.consumed(), 64);
}

#[test]
fn zero_length_request_changes_nothing() {
    let mut e = Entropy::new(b"key", b"salt");
    let mut f = Entropy::new(b"key", b"salt");
    let out = e.get_bytes(0);
    assert!(out.is_empty());
    assert_eq!(e.consumed(), 0);
    assert_eq!(e.get_bytes(40), f.get_bytes(40));
}

#[test]
fn same_secret_and_salt_give_same_stream() {
    let mut a = Entropy::new(&[7u8; 20], b"salt");
    let mut b = Entropy::new(&[7u8; 20], b"salt");
    for len in [3usize, 32, 0, 70, 1] {
        assert_eq!(a.get_bytes(len), b.get_bytes(len));
    }
    assert_eq!(a.consumed(), b.consumed());
}

#[test]
fn different_salt_gives_different_stream() {
    let mut a = Entropy::new(b"key", b"salt-a");
    let mut b = Entropy::new(b"key", b"salt-b");
    assert_ne!(a.get_bytes(32), b.get_bytes(32));
}

#[test]
fn split_on_block_boundary_matches_single_request() {
    let mut split = Entropy::new(b"key", b"salt");
    let mut single = Entropy::new(b"key", b"salt");
    let mut joined = split.get_bytes(64);
    joined.extend(split.get_bytes(10));
    assert_eq!(joined, single.get_bytes(74));
    assert_eq!(split.consumed(), 96);
    assert_eq!(single.consumed(), 96);
}

#[test]
fn split_inside_a_block_diverges() {
    let mut split = Entropy::new(b"key", b"salt");
    let mut single = Entropy::new(b"key", b"salt");
    let mut joined = split.get_bytes(31);
    joined.extend(split.get_bytes(33));
    let whole = single.get_bytes(64);
    assert_eq!(joined[..31], whole[..31]);
    assert_ne!(joined, whole);
    assert_eq!(split.consumed(), 96);
    assert_eq!(single.consumed(), 64);
}

#[test]
fn counter_sums_whole_blocks() {
    let mut e = Entropy::new(b"key", b"salt");
    let lengths = [1usize, 33, 64, 0, 95, 96];
    let mut expected = 0usize;
    for len in lengths {
        let out = e.get_bytes(len);
        assert_eq!(out.len(), len);
        expected += (len + 31) / 32 * 32;
    }
    assert_eq!(expected, 32 + 64 + 64 + 0 + 96 + 96);
    assert_eq!(e.consumed(), expected);
}

#[test]
fn empty_secret_and_salt_are_accepted() {
    let mut e = Entropy::new(b"", b"");
    assert_eq!(e.get_bytes(7).len(), 7);
    assert_eq!(e.consumed(), 32);
}

#[test]
fn secret_longer_than_hash_block_is_accepted() {
    let mut long = Entropy::new(&[1u8; 100], b"salt");
    let mut short = Entropy::new(&[1u8; 64], b"salt");
    let out = long.get_bytes(32);
    assert_eq!(out.len(), 32);
    assert_ne!(out, short.get_bytes(32));
}
