//! The type model: validating constructors, bitmask detection, sorting,
//! byte havoc bounds, and filename synthesis.

use flicker::{
    havoc_bytes, is_bitmask, mutate_buffer_length, rand_filename, ArrayType, BuildError,
    ByteBuffer, Context, Direction, FlagType, IntType, ResourceType, Rng, StringBuffer,
    SyscallMetadata, Type, TypeAttr, UnionType, MAX_BUFFER_LENGTH,
};

fn attr_in() -> TypeAttr {
    TypeAttr { dir: Direction::In, optional: false }
}

#[test]
fn bitmask_detection() {
    // True exactly for pairwise bit-disjoint value sets without zero.
    assert!(is_bitmask(&vec![1, 2, 4]));
    assert!(is_bitmask(&vec![8]));
    assert!(is_bitmask(&vec![1, 2, 4, 8, 16, 32]));
    assert!(!is_bitmask(&vec![1, 2, 3]));
    assert!(!is_bitmask(&vec![0, 1, 2]));
    assert!(!is_bitmask(&vec![]));
    assert!(!is_bitmask(&vec![3, 5]));
}

#[test]
fn flag_construction_sorts_and_marks() {
    let f = FlagType::new(attr_in(), vec![4, 1, 2]).unwrap();
    assert_eq!(f.values, vec![1, 2, 4]);
    assert!(f.is_bitmask);
    let g = FlagType::new(attr_in(), vec![3, 1]).unwrap();
    assert_eq!(g.values, vec![1, 3]);
    assert!(!g.is_bitmask);
    assert_eq!(FlagType::new(attr_in(), vec![]).unwrap_err(), BuildError::EmptyFlagValues);
}

#[test]
fn resource_construction_dedups() {
    let r = ResourceType::new(attr_in(), "fd".to_string(), vec![7, 3, 7, 1]).unwrap();
    assert_eq!(r.values, vec![1, 3, 7]);
    assert_eq!(
        ResourceType::new(attr_in(), "fd".to_string(), vec![]).unwrap_err(),
        BuildError::ResourceWithoutValues,
    );
}

#[test]
fn constructors_reject_bad_ranges() {
    assert_eq!(IntType::new(attr_in(), 0, None).unwrap_err(), BuildError::InvalidBits);
    assert_eq!(IntType::new(attr_in(), 32, Some((9, 3))).unwrap_err(), BuildError::InvalidRange);
    assert_eq!(
        IntType::new(attr_in(), 64, Some((0, u64::MAX))).unwrap_err(),
        BuildError::InvalidRange,
    );
    assert!(IntType::new(attr_in(), 32, Some((10, 20))).is_ok());
    assert_eq!(ByteBuffer::new(attr_in(), Some((5, 3))).unwrap_err(), BuildError::InvalidRange);
    assert_eq!(
        ByteBuffer::new(attr_in(), Some((0, MAX_BUFFER_LENGTH + 1))).unwrap_err(),
        BuildError::LengthOverCap,
    );
    assert!(ByteBuffer::new(attr_in(), Some((0, MAX_BUFFER_LENGTH))).is_ok());
    let elem = Type::Int(IntType::new(attr_in(), 8, None).unwrap());
    assert_eq!(
        ArrayType::new(attr_in(), elem, Some((2, 1))).unwrap_err(),
        BuildError::InvalidRange,
    );
    assert_eq!(UnionType::new(attr_in(), vec![]).unwrap_err(), BuildError::EmptyUnionFields);
    let long = vec![0u8; MAX_BUFFER_LENGTH as usize + 1];
    assert_eq!(
        StringBuffer::new(attr_in(), vec![long], false).unwrap_err(),
        BuildError::PresetStringTooLong,
    );
}

#[test]
fn sorting_values() {
    assert_eq!(flicker::sort_values(&vec![3, 1, 2]), vec![1, 2, 3]);
    assert_eq!(flicker::sort_values(&vec![]), Vec::<u64>::new());
    assert_eq!(flicker::sort_values(&vec![5, 5, 1]), vec![1, 5, 5]);
    assert_eq!(flicker::sort_dedup_values(&vec![3, 1, 3]), vec![1, 3]);
    assert!(flicker::check_sorted(&vec![1, 2, 2]));
    assert!(!flicker::check_sorted(&vec![2, 1]));
    assert!(flicker::check_sorted_unique(&vec![1, 2]));
    assert!(!flicker::check_sorted_unique(&vec![1, 1]));
}

#[test]
fn havoc_respects_declared_range() {
    // Buffer bounds: after havoc the payload fits the declared range, or
    // the buffer cap when none is declared.
    let mut rng = Rng::with_seed(11);
    for _ in 0..200 {
        let mut data = vec![1u8, 2, 3];
        havoc_bytes(&mut rng, &mut data, Some((2, 4)), false);
        assert!(2 <= data.len() && data.len() <= 4);
        let mut data2 = vec![0u8; 8];
        havoc_bytes(&mut rng, &mut data2, None, false);
        assert!(data2.len() <= MAX_BUFFER_LENGTH as usize);
        let mut data3 = vec![9u8; 4];
        havoc_bytes(&mut rng, &mut data3, Some((2, 4)), true);
        assert!(data3.iter().all(|b| *b != 0));
    }
}

#[test]
fn buffer_length_walk_stays_in_range() {
    let mut rng = Rng::with_seed(5);
    for _ in 0..500 {
        let n = mutate_buffer_length(&mut rng, 3, Some((2, 4)));
        assert!(2 <= n && n <= 4);
        let m = mutate_buffer_length(&mut rng, 100, None);
        assert!(m <= MAX_BUFFER_LENGTH);
    }
}

#[test]
fn filenames_respect_the_cleaned_directory() {
    // Fresh filenames grow under the current directory; since `.` cleans
    // to the current directory itself, no escape component is ever added
    // to it. A directory from the pool that does not clean to `.` is
    // sometimes escaped with a parent component.
    let meta = SyscallMetadata::new(vec![]);
    let plain = Context::new(meta.deep_clone());
    for seed in 0..2000u64 {
        let mut rng = Rng::with_seed(seed);
        let name = rand_filename(&mut rng, &plain);
        let s = String::from_utf8_lossy(&name).to_string();
        assert!(!s.contains(".."), "unexpected escape in {:?}", s);
        assert!(name.len() <= MAX_BUFFER_LENGTH as usize);
    }
    let mut pooled = Context::new(meta.deep_clone());
    pooled.add_filename(b"sub".to_vec());
    let mut escaped = false;
    for seed in 0..2000u64 {
        let mut rng = Rng::with_seed(seed);
        let name = rand_filename(&mut rng, &pooled);
        let s = String::from_utf8_lossy(&name).to_string();
        if s.contains("sub/..") {
            escaped = true;
            break;
        }
    }
    assert!(escaped);
}

#[test]
fn shaped_integers_fit_their_width() {
    let mut rng = Rng::with_seed(77);
    for _ in 0..500 {
        let v8 = flicker::rand_int(&mut rng, 8);
        assert!(v8 < 256);
        let v16 = flicker::rand_int(&mut rng, 16);
        assert!(v16 < 65536);
        let v32 = flicker::rand_int(&mut rng, 32);
        assert!(v32 < 0x1_0000_0000);
        let _ = flicker::rand_int(&mut rng, 64);
        let len = flicker::rand_buffer_length(&mut rng);
        assert!(len <= MAX_BUFFER_LENGTH);
        let alen = flicker::rand_array_length(&mut rng);
        assert!(alen <= flicker::MAX_ARRAY_LENGTH);
        let flen = flicker::rand_filename_length(&mut rng);
        assert!(flen <= MAX_BUFFER_LENGTH);
    }
}

#[test]
fn defaults_satisfy_their_types() {
    // The deterministic defaults: zero for integers, null pointers, the
    // first fallback for resources, the shortest admissible buffer.
    let int_ty = Type::Int(IntType::new(attr_in(), 32, None).unwrap());
    match int_ty.default_arg() {
        flicker::Arg::Const(flicker::ConstArg(v)) => assert_eq!(v, 0),
        other => panic!("unexpected default {:?}", other),
    }
    let res_ty = Type::Resource(
        ResourceType::new(attr_in(), "fd".to_string(), vec![7, 3]).unwrap(),
    );
    match res_ty.default_arg() {
        flicker::Arg::Result(flicker::ResultArg::Literal(v)) => assert_eq!(v, 3),
        other => panic!("unexpected default {:?}", other),
    }
    let buf_ty = Type::Buffer(flicker::BufferType::Byte(
        ByteBuffer::new(attr_in(), Some((2, 5))).unwrap(),
    ));
    match buf_ty.default_arg() {
        flicker::Arg::Data(flicker::DataArg::In(d)) => assert_eq!(d, vec![0, 0]),
        other => panic!("unexpected default {:?}", other),
    }
}
