use rsa_core::collisions::{count_collisions, find_collision_on};
use rsa_core::hashes::{binary_string, hex_string, Keccak256, Md5, Sha1, Sha256, Sha3_256, Sha512};
use rsa_core::traits::HashGenerator;

#[test]
fn known_digests_in_hex() {
    assert_eq!(
        Sha256.generate_hex(b"abc"),
        "ba7816bf8f01cfea414140de5dae2223b00361a396177a9cb410ff61f20015ad"
    );
    assert_eq!(Sha1.generate_hex(b"abc"), "a9993e364706816aba3e25717850c26c9cd0d89d");
    assert_eq!(Md5.generate_hex(b""), "d41d8cd98f00b204e9800998ecf8427e");
    assert_eq!(
        Sha3_256.generate_hex(b""),
        "a7ffc6f8bf1ed76651c14756a061d662f580ff4de43b49fa82d80a4b80f8434a"
    );
    assert_eq!(
        Keccak256.generate_hex(b""),
        "c5d2460186f7233c927e7db2dcc703c0e500b653ca82273b7bfad8045d85a470"
    );
    assert_eq!(Sha512.generate_hex(b"abc").len(), 128);
}

#[test]
fn binary_digest_matches_hex() {
    let bits = Sha256.generate(b"abc");
    assert_eq!(bits.len(), 256);
    assert!(bits.starts_with("10111010"));
    assert_eq!(Md5.name(), "MD-5");
    assert_eq!(Sha256.name(), "SHA2-256");
}

#[test]
fn digit_rendering() {
    assert_eq!(binary_string(&vec![0xba, 0x01]), "1011101000000001");
    assert_eq!(hex_string(&vec![0x0f, 0xa0, 0xff]), "0fa0ff");
    assert_eq!(binary_string(&vec![]), "");
}

#[test]
fn collisions_on_prefixes() {
    let hashes: Vec<String> = ["0011", "0010", "0111", "0011", "1"].iter().map(|s| s.to_string()).collect();
    let r = count_collisions(2, &hashes);
    assert_eq!(r, vec![("00".to_string(), 2), ("01".to_string(), 0), ("1".to_string(), 0)]);
    let r = count_collisions(4, &hashes);
    assert_eq!(
        r,
        vec![("0011".to_string(), 1), ("0010".to_string(), 0), ("0111".to_string(), 0), ("1".to_string(), 0)]
    );
}

struct FirstByte;

impl HashGenerator for FirstByte {
    fn generate(&mut self, message: &[u8]) -> String {
        format!("{:08b}", message.first().copied().unwrap_or(0))
    }

    fn generate_hex(&mut self, message: &[u8]) -> String {
        format!("{:02x}", message.first().copied().unwrap_or(0))
    }

    fn name(&self) -> &'static str {
        "first byte"
    }
}

#[test]
fn find_collision_on_uses_generator() {
    let dataset = ["a", "b", "a", "q"];
    let r = find_collision_on(8, &mut FirstByte, &dataset);
    assert_eq!(r, vec![("01100001".to_string(), 1), ("01100010".to_string(), 0), ("01110001".to_string(), 0)]);
    let r = find_collision_on(3, &mut FirstByte, &dataset);
    assert_eq!(r, vec![("011".to_string(), 3)]);
}

#[test]
fn contracted_renderings_match_the_generators() {
    assert_eq!(Sha256::hex(b"abc"), "ba7816bf8f01cfea414140de5dae2223b00361a396177a9cb410ff61f20015ad");
    assert_eq!(Sha256::binary(b"abc"), Sha256.generate(b"abc"));
    assert_eq!(Md5::hex(b""), Md5.generate_hex(b""));
}
