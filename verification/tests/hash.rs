use asphaleia_storage::Sha256;

fn hex(bytes: &[u8]) -> String {
    let mut text = String::new();
    for b in bytes {
        text.push_str(&format!("{:02x}", b));
    }
    text
}

#[test]
fn sha256_of_abc_is_the_known_digest() {
    let digest = Sha256::new(b"abc");
    assert_eq!(
        hex(digest.as_bytes()),
        "ba7816bf8f01cfea414140de5dae2223b00361a396177a9cb410ff61f20015ad"
    );
}

#[test]
fn sha256_of_nothing_is_the_known_digest() {
    let digest = Sha256::new(b"");
    assert_eq!(
        hex(digest.as_bytes()),
        "e3b0c44298fc1c149afbf4c8996fb92427ae41e4649b934ca495991b7852b855"
    );
}

#[test]
fn digest_has_32_bytes_and_is_a_function_of_the_input() {
    let a = Sha256::new(b"test data");
    let b = Sha256::new(b"test data");
    let c = Sha256::new(b"test data 2");
    assert_eq!(a.as_bytes().len(), 32);
    assert!(a.same(&b));
    assert!(!a.same(&c));
    assert_eq!(a, b);
    assert_ne!(a, c);
}

#[test]
fn from_bytes_keeps_the_bytes() {
    let mut raw = [0u8; 32];
    raw[0] = 7;
    raw[31] = 9;
    let digest = Sha256::from_bytes(raw);
    assert_eq!(digest.as_bytes(), &raw);
}

#[test]
fn from_slice_wants_32_bytes() {
    assert!(Sha256::from_slice(&[1u8; 31]).is_none());
    assert!(Sha256::from_slice(&[1u8; 33]).is_none());
    let digest = Sha256::from_slice(&[1u8; 32]).unwrap();
    assert_eq!(digest.as_bytes(), &[1u8; 32]);
}

#[test]
fn order_is_lexicographic() {
    let mut low = [0u8; 32];
    let mut high = [0u8; 32];
    low[31] = 255;
    high[0] = 1;
    let low = Sha256::from_bytes(low);
    let high = Sha256::from_bytes(high);
    assert!(low.precedes(&high));
    assert!(!high.precedes(&low));
    assert!(!low.precedes(&low));
    assert!(low < high);
}

#[test]
fn order_is_decided_by_the_first_differing_byte() {
    let mut a = [5u8; 32];
    let mut b = [5u8; 32];
    a[10] = 1;
    a[11] = 200;
    b[10] = 2;
    b[11] = 0;
    assert!(Sha256::from_bytes(a).precedes(&Sha256::from_bytes(b)));
}
