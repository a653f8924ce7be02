use executor::{Digest, Digestible, Object, Transaction};

const D1: [u8; 32] = [
    0x1b, 0x74, 0x09, 0xcc, 0xf0, 0xd5, 0xa3, 0x4d, 0x3a, 0x77, 0xea, 0xab, 0xfa, 0x9f, 0xe2, 0x74,
    0x27, 0x65, 0x5b, 0xe9, 0x29, 0x71, 0x27, 0xee, 0x95, 0x22, 0xaa, 0x1b, 0xf4, 0x04, 0x6d, 0x4f,
];

const D2: [u8; 32] = [
    0x27, 0x74, 0x34, 0x03, 0xdd, 0x24, 0x14, 0x5f, 0x3a, 0xe7, 0x53, 0xdb, 0xce, 0x59, 0xc3, 0x45,
    0xe5, 0x25, 0x94, 0x24, 0x72, 0x81, 0xd7, 0xa6, 0xb7, 0xa6, 0x40, 0xc3, 0xfb, 0x20, 0x2f, 0xc3,
];

const D3: [u8; 32] = [
    0x91, 0x33, 0x46, 0xe2, 0xeb, 0x88, 0xe8, 0xee, 0xe2, 0xd2, 0x85, 0x25, 0x2d, 0xcb, 0xc3, 0x80,
    0x31, 0xb9, 0x10, 0xdd, 0x47, 0x6d, 0x41, 0xb8, 0xfc, 0x4d, 0x5b, 0xa1, 0xfd, 0x25, 0x49, 0xed,
];

const D4: [u8; 32] = [
    0x1a, 0x00, 0x47, 0xed, 0xa4, 0x02, 0x7b, 0x6a, 0x3e, 0x03, 0xcd, 0xf2, 0xa4, 0x10, 0x96, 0x46,
    0xc9, 0xe1, 0x5d, 0xa3, 0x0a, 0x1b, 0xb2, 0x67, 0xe8, 0x98, 0x52, 0x29, 0x37, 0x54, 0x75, 0xa8,
];

const EMPTY_AT_VERSION_1: [u8; 32] = [
    0x99, 0x12, 0x94, 0xf4, 0x34, 0x25, 0xa5, 0xb8, 0x0f, 0x8a, 0x59, 0x07, 0xca, 0x7c, 0xdb, 0xb6,
    0x11, 0x40, 0x12, 0x82, 0x58, 0x5a, 0x58, 0xbb, 0x41, 0x50, 0x77, 0x00, 0x54, 0x28, 0xe3, 0xb4,
];

const BYTES_1_2_3_AT_WIDE_VERSION: [u8; 32] = [
    0xe9, 0xe0, 0x55, 0xcf, 0x36, 0xaf, 0x5b, 0x70, 0x29, 0xe8, 0x6c, 0xc4, 0xea, 0x79, 0x49, 0x33,
    0x8e, 0xe7, 0x4e, 0xe0, 0x71, 0x6f, 0x11, 0x0d, 0xc2, 0x95, 0xfa, 0x81, 0x0a, 0x16, 0xc0, 0x73,
];

const BYTES_1_2_4: [u8; 32] = [
    0xcd, 0xcf, 0x79, 0xba, 0x12, 0x9b, 0x33, 0xa6, 0x31, 0x8d, 0x0d, 0x66, 0xb2, 0xc0, 0x62, 0xdf,
    0x57, 0xb2, 0xfd, 0x68, 0x90, 0x9a, 0x74, 0xda, 0x88, 0xf1, 0x34, 0x3e, 0x31, 0x7e, 0x8b, 0x47,
];

const NO_INPUTS_AT_TIME_5: [u8; 32] = [
    0x47, 0x0f, 0x58, 0x5f, 0x2f, 0x41, 0x2c, 0xa3, 0x80, 0x7f, 0x99, 0x64, 0x68, 0x56, 0x33, 0x35,
    0x0d, 0xa6, 0xf9, 0x20, 0xe3, 0xea, 0x3b, 0xa8, 0x34, 0x90, 0x1a, 0xe2, 0x6e, 0xa2, 0xa2, 0x8e,
];

const ONE_INPUT_AT_TIME_5: [u8; 32] = [
    0xed, 0x6c, 0xc7, 0x0f, 0x4f, 0xe8, 0xe7, 0xca, 0x42, 0x1c, 0x9b, 0xca, 0xa4, 0x21, 0x57, 0x8d,
    0x0f, 0xa8, 0xff, 0x63, 0xb5, 0x19, 0xaf, 0x7f, 0x57, 0xb5, 0x8e, 0x00, 0x56, 0x9b, 0xd7, 0xfe,
];

#[test]
fn empty_object_has_pinned_digest() {
    let object = Object::new(vec![]);
    assert_eq!(object.id, Digest(D1));
    assert_eq!(object.version, 0);
    assert!(object.content.is_empty());
}

#[test]
fn object_digest_depends_on_content() {
    let object = Object::new(vec![1, 2, 3]);
    assert_eq!(object.id, Digest(D2));
    assert_ne!(object.id, Digest(D1));
    assert_eq!(object.content, vec![1, 2, 3]);
}

#[test]
fn transaction_digest_depends_on_input_order() {
    let forward = Transaction::new(vec![Object::new(vec![]), Object::new(vec![1, 2, 3])], 5);
    let backward = Transaction::new(vec![Object::new(vec![1, 2, 3]), Object::new(vec![])], 5);
    assert_eq!(forward.id, Digest(D3));
    assert_eq!(backward.id, Digest(D4));
    assert_ne!(forward.id, backward.id);
    assert_eq!(forward.execution_time, 5);
    assert_eq!(forward.inputs.len(), 2);
    assert_eq!(forward.inputs[0].id, Digest(D1));
    assert_eq!(forward.inputs[1].id, Digest(D2));
}

#[test]
fn constructing_twice_gives_one_identifier() {
    let first = Object::new(vec![9, 8, 7, 6]);
    let second = Object::new(vec![9, 8, 7, 6]);
    assert_eq!(first.id, second.id);
    assert_eq!(first, second);

    let a = Transaction::new(vec![Object::new(vec![1]), Object::new(vec![2])], 11);
    let b = Transaction::new(vec![Object::new(vec![1]), Object::new(vec![2])], 11);
    assert_eq!(a.id, b.id);
}

#[test]
fn digest_of_a_constructed_entity_is_its_identifier() {
    let object = Object::new(vec![1, 2, 3]);
    assert_eq!(object.digest(), object.id);
    let transaction = Transaction::new(vec![object], 5);
    assert_eq!(transaction.digest(), transaction.id);
}

#[test]
fn changing_one_content_byte_changes_the_identifier() {
    let object = Object::new(vec![1, 2, 4]);
    assert_eq!(object.id, Digest(BYTES_1_2_4));
    assert_ne!(object.id, Digest(D2));
}

#[test]
fn changing_the_version_changes_the_identifier() {
    let bumped = Object { id: Digest([0; 32]), content: vec![], version: 1 };
    assert_eq!(bumped.digest(), Digest(EMPTY_AT_VERSION_1));
    assert_ne!(bumped.digest(), Digest(D1));
}

#[test]
fn version_is_hashed_as_little_endian_bytes() {
    let object = Object { id: Digest([0; 32]), content: vec![1, 2, 3], version: 0x0102_0304_0506_0708 };
    assert_eq!(object.digest(), Digest(BYTES_1_2_3_AT_WIDE_VERSION));
}

#[test]
fn digest_ignores_the_stored_identifier() {
    let a = Object { id: Digest([0; 32]), content: vec![1, 2, 3], version: 0 };
    let b = Object { id: Digest([0xff; 32]), content: vec![1, 2, 3], version: 0 };
    assert_eq!(a.digest(), Digest(D2));
    assert_eq!(b.digest(), Digest(D2));
}

#[test]
fn transaction_without_inputs_hashes_its_execution_time() {
    let transaction = Transaction::new(vec![], 5);
    assert_eq!(transaction.id, Digest(NO_INPUTS_AT_TIME_5));
    assert!(transaction.inputs.is_empty());
}

#[test]
fn transaction_digest_depends_on_execution_time() {
    let at_five = Transaction::new(vec![Object::new(vec![])], 5);
    let at_six = Transaction::new(vec![Object::new(vec![])], 6);
    assert_eq!(at_five.id, Digest(ONE_INPUT_AT_TIME_5));
    assert_ne!(at_five.id, at_six.id);
}

#[test]
fn transaction_digest_reads_input_identifiers_not_content() {
    let plain = Object::new(vec![]);
    let relabelled = Object { id: plain.id, content: vec![42; 100], version: 77 };
    let a = Transaction::new(vec![plain], 5);
    let b = Transaction::new(vec![relabelled], 5);
    assert_eq!(a.id, Digest(ONE_INPUT_AT_TIME_5));
    assert_eq!(b.id, a.id);
}

#[test]
fn swapping_inputs_with_one_identifier_keeps_the_digest() {
    let twin = Object::new(vec![5]);
    let other = Object { id: twin.id, content: vec![6], version: 0 };
    let a = Transaction::new(vec![twin.clone(), other.clone()], 1);
    let b = Transaction::new(vec![other, twin], 1);
    assert_eq!(a.id, b.id);
}
