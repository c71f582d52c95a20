//! The byte encodings: exact wire bytes, canonical round trips, decoder
//! rejections, and fingerprint stability.

use flicker::{
    Arg, Call, ConstArg, DataArg, GroupArg, PointerArg, ResultArg, SyscallInput,
};

#[test]
fn wire_encoding_is_stable() {
    // One call with a constant and a literal resource argument: the count
    // word, the syscall number, the constant, then the literal behind its
    // discriminant, all little-endian and fixed-width.
    let call = Call::new(
        5,
        vec![Arg::Const(ConstArg(0xdeadbeef)), Arg::Result(ResultArg::Literal(42))],
        None,
    );
    let input = SyscallInput::new(vec![call]);
    let bytes = input.target_bytes();
    let expected: Vec<u8> = vec![
        0x01, 0x00, 0x00, 0x00,  // call count
        0x05, 0x00, 0x00, 0x00,  // syscall number
        0xef, 0xbe, 0xad, 0xde, 0x00, 0x00, 0x00, 0x00,  // the constant
        0x01, 0x00, 0x00, 0x00,  // resource discriminant: literal
        0x2a, 0x00, 0x00, 0x00, 0x00, 0x00, 0x00, 0x00,  // the literal
    ];
    assert_eq!(bytes, expected);
}

#[test]
fn wire_encodes_every_argument_kind() {
    let pointee = Arg::Const(ConstArg(1));
    let call = Call::new(
        9,
        vec![
            Arg::Pointer(PointerArg::Addr(0)),
            Arg::Pointer(PointerArg::Data(Box::new(pointee))),
            Arg::Data(DataArg::In(vec![0xaa, 0xbb])),
            Arg::Data(DataArg::Out(3)),
            Arg::Group(GroupArg(vec![Arg::Const(ConstArg(7))])),
            Arg::Result(ResultArg::Ref(4)),
        ],
        Some(4),
    );
    let input = SyscallInput::new(vec![call]);
    let bytes = input.target_bytes();
    let expected: Vec<u8> = vec![
        0x01, 0x00, 0x00, 0x00,  // call count
        0x09, 0x00, 0x00, 0x00,  // syscall number
        0x00, 0x00, 0x00, 0x00,  // pointer discriminant: address
        0x00, 0x00, 0x00, 0x00, 0x00, 0x00, 0x00, 0x00,  // null address
        0x01, 0x00, 0x00, 0x00,  // pointer discriminant: pointee follows
        0x01, 0x00, 0x00, 0x00, 0x00, 0x00, 0x00, 0x00,  // the pointee
        0x02, 0x00, 0x00, 0x00, 0x00, 0x00, 0x00, 0x00,  // input length
        0xaa, 0xbb,  // input payload
        0x03, 0x00, 0x00, 0x00, 0x00, 0x00, 0x00, 0x00,  // output length
        0x07, 0x00, 0x00, 0x00, 0x00, 0x00, 0x00, 0x00,  // group member
        0x00, 0x00, 0x00, 0x00,  // resource discriminant: reference
        0x04, 0x00, 0x00, 0x00, 0x00, 0x00, 0x00, 0x00,  // the identifier
        0x04, 0x00, 0x00, 0x00, 0x00, 0x00, 0x00, 0x00,  // the produced id
    ];
    assert_eq!(bytes, expected);
}

fn sample_program() -> SyscallInput {
    let deep = Arg::Group(
        GroupArg(
            vec![
                Arg::Pointer(PointerArg::Data(Box::new(Arg::Data(DataArg::In(vec![1, 2, 3]))))),
                Arg::Result(ResultArg::Ref(0)),
                Arg::Group(GroupArg(vec![])),
            ],
        ),
    );
    let a = Call::new(1, vec![Arg::Data(DataArg::In(vec![46, 0]))], Some(0));
    let b = Call::new(2, vec![deep, Arg::Data(DataArg::Out(4096))], None);
    let c = Call::new(3, vec![], Some(1));
    SyscallInput::new(vec![a, b, c])
}

#[test]
fn canonical_round_trip() {
    // Canonical serialization followed by deserialization yields an equal
    // program, fingerprint included.
    let input = sample_program();
    let bytes = input.encode();
    let back = SyscallInput::decode(&bytes).unwrap();
    assert_eq!(back.len(), input.len());
    assert_eq!(back.encode(), bytes);
    assert_eq!(back.target_bytes(), input.target_bytes());
    assert_eq!(back.generate_name(None), input.generate_name(None));
    assert_eq!(back.generate_name(Some(12)), input.generate_name(Some(12)));
}

#[test]
fn decoder_rejects_garbage() {
    assert!(SyscallInput::decode(&vec![]).is_none());
    assert!(SyscallInput::decode(&vec![1, 2, 3]).is_none());
    // A count of one call but nothing after it
    assert!(SyscallInput::decode(&vec![1, 0, 0, 0, 0, 0, 0, 0]).is_none());
    // Trailing junk after a valid encoding
    let mut bytes = sample_program().encode();
    bytes.push(0);
    assert!(SyscallInput::decode(&bytes).is_none());
    // A corrupted argument tag
    let empty = SyscallInput::new(vec![Call::new(1, vec![Arg::Const(ConstArg(2))], None)]);
    let mut enc = empty.encode();
    enc[20] = 250;
    assert!(SyscallInput::decode(&enc).is_none());
}

#[test]
fn empty_program_round_trips() {
    let input = SyscallInput::new(vec![]);
    let bytes = input.encode();
    assert_eq!(bytes, vec![0u8; 8]);
    let back = SyscallInput::decode(&bytes).unwrap();
    assert_eq!(back.len(), 0);
}

#[test]
fn fingerprint_is_stable() {
    // The hash of no bytes is the offset basis; the hex rendering is
    // sixteen lower-case digits, most significant first.
    assert_eq!(flicker::fingerprint64(&vec![]), 0xcbf29ce484222325);
    assert_eq!(flicker::to_hex16(0), "0000000000000000");
    assert_eq!(flicker::to_hex16(0xcbf29ce484222325), "cbf29ce484222325");
    assert_eq!(flicker::to_hex16(0x0123456789abcdef), "0123456789abcdef");
    let one = flicker::fingerprint64(&vec![0x61]);
    let other = flicker::fingerprint64(&vec![0x62]);
    assert_ne!(one, other);
}

#[test]
fn names_differ_with_salt() {
    let input = sample_program();
    let plain = input.generate_name(None);
    let salted = input.generate_name(Some(1));
    assert_eq!(plain.len(), 16);
    assert_eq!(salted.len(), 16);
    assert_ne!(plain, salted);
}
