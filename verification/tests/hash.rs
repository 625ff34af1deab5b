use leaf::util::hash::{hash_bytes, hash_str};

#[test]
fn hash_of_empty_input() {
    assert_eq!(hash_bytes(&[]), "d41d8cd98f00b204e9800998ecf8427e");
    assert_eq!(hash_str(""), "d41d8cd98f00b204e9800998ecf8427e");
}

#[test]
fn hash_of_known_text() {
    assert_eq!(hash_str("abc"), "900150983cd24fb0d6963f7d28e17f72");
    assert_eq!(hash_bytes(b"hello world"), "5eb63bbbe01eeed093cb22bb8f5acdc3");
}
