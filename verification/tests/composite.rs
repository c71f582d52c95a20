//! Generation and mutation over composite types: structs, unions, arrays,
//! pointers, and the three buffer kinds, with the size caps observed.

use flicker::{
    Arg, ArrayType, BufferType, ByteBuffer, Context, DataArg, Direction, Field, FilenameBuffer,
    FlagType, IntType, PointerType, ResourceType, Rng, StringBuffer, StructType, Syscall,
    SyscallGenerator, SyscallMetadata, SyscallRandMutator, Type, TypeAttr, UnionType,
    MAX_ARRAY_LENGTH, MAX_BUFFER_LENGTH,
};

fn attr(dir: Direction, optional: bool) -> TypeAttr {
    TypeAttr { dir, optional }
}

fn composite_metadata() -> SyscallMetadata {
    let a_in = attr(Direction::In, false);
    let flag = Type::Flag(FlagType::new(a_in, vec![1, 2, 4, 8]).unwrap());
    let int_ranged = Type::Int(IntType::new(a_in, 16, Some((3, 9))).unwrap());
    let array = Type::Array(
        ArrayType::new(a_in, Type::Int(IntType::new(a_in, 8, None).unwrap()), Some((1, 4)))
            .unwrap(),
    );
    let string = Type::Buffer(BufferType::String(
        StringBuffer::new(a_in, vec![b"alpha".to_vec(), b"beta".to_vec()], false).unwrap(),
    ));
    let filename = Type::Buffer(BufferType::Filename(FilenameBuffer::new(a_in, false)));
    let bytes_in = Type::Buffer(BufferType::Byte(ByteBuffer::new(a_in, Some((2, 6))).unwrap()));
    let bytes_out = Type::Buffer(BufferType::Byte(
        ByteBuffer::new(attr(Direction::Out, false), None).unwrap(),
    ));
    let fd = Type::Resource(ResourceType::new(a_in, "fd".to_string(), vec![5]).unwrap());
    let record = Type::Struct(StructType::new(
        a_in,
        vec![
            Field { name: "kind".to_string(), ty: flag, dir: Direction::In },
            Field { name: "level".to_string(), ty: int_ranged, dir: Direction::In },
            Field { name: "items".to_string(), ty: array, dir: Direction::In },
        ],
    ));
    let choice = Type::Union(
        UnionType::new(
            a_in,
            vec![
                Field { name: "name".to_string(), ty: string, dir: Direction::In },
                Field { name: "path".to_string(), ty: filename, dir: Direction::In },
            ],
        ).unwrap(),
    );
    let pointer = Type::Pointer(PointerType::new(a_in, record));
    let maker = Syscall::new(
        40,
        "make".to_string(),
        vec![
            Field { name: "cfg".to_string(), ty: pointer, dir: Direction::In },
            Field { name: "which".to_string(), ty: choice, dir: Direction::In },
            Field { name: "payload".to_string(), ty: bytes_in, dir: Direction::In },
        ],
        Some(fd.deep_clone()),
    );
    let user = Syscall::new(
        41,
        "use_it".to_string(),
        vec![
            Field { name: "fd".to_string(), ty: fd, dir: Direction::In },
            Field { name: "sink".to_string(), ty: bytes_out, dir: Direction::Out },
        ],
        None,
    );
    SyscallMetadata::new(vec![maker, user])
}

fn check_arg_bounds(arg: &Arg) {
    match arg {
        Arg::Data(DataArg::In(d)) => assert!(d.len() <= MAX_BUFFER_LENGTH as usize),
        Arg::Data(DataArg::Out(n)) => assert!(*n <= MAX_BUFFER_LENGTH),
        Arg::Group(g) => {
            assert!(g.0.len() <= MAX_BUFFER_LENGTH as usize);
            for e in g.0.iter() {
                check_arg_bounds(e);
            }
        },
        Arg::Pointer(flicker::PointerArg::Data(b)) => check_arg_bounds(b),
        _ => {},
    }
}

#[test]
fn composite_generation_respects_caps() {
    let meta = composite_metadata();
    assert!(flicker::check_catalog(&meta));
    for seed in 0..60u64 {
        let ctx = Context::new(meta.deep_clone());
        let mut generator = SyscallGenerator::new(6, ctx);
        let mut rng = Rng::with_seed(seed);
        let input = generator.generate(&mut rng);
        assert!(input.len() <= 6);
        for i in 0..input.len() {
            let call = input.get(i);
            let syscall = meta.find_number(call.number()).unwrap();
            assert_eq!(call.args().len(), syscall.fields().len());
            for arg in call.args().iter() {
                check_arg_bounds(arg);
            }
        }
        // The composite program also survives a canonical round trip.
        let bytes = input.encode();
        let back = flicker::SyscallInput::decode(&bytes).unwrap();
        assert_eq!(back.encode(), bytes);
    }
}

#[test]
fn composite_mutation_respects_caps() {
    let meta = composite_metadata();
    let mutator = SyscallRandMutator::new(meta.deep_clone());
    for seed in 0..60u64 {
        let ctx = Context::new(meta.deep_clone());
        let mut generator = SyscallGenerator::new(5, ctx);
        let mut rng = Rng::with_seed(seed);
        let mut input = generator.generate(&mut rng);
        for _ in 0..4 {
            let _ = mutator.mutate(&mut rng, &mut input, 8);
        }
        assert!(input.len() <= 8);
        for i in 0..input.len() {
            let call = input.get(i);
            let syscall = meta.find_number(call.number()).unwrap();
            assert_eq!(call.args().len(), syscall.fields().len());
            for arg in call.args().iter() {
                check_arg_bounds(arg);
                if let Arg::Result(flicker::ResultArg::Ref(id)) = arg {
                    assert!((0..i).any(|j| input.get(j).result() == Some(*id)));
                }
            }
        }
    }
}

#[test]
fn array_lengths_follow_declared_range() {
    // A top-level array with a declared range: every generated group holds
    // between one and four elements; without a range, at most the cap.
    let a_in = attr(Direction::In, false);
    let elem = Type::Int(IntType::new(a_in, 8, None).unwrap());
    let ranged = Syscall::new(
        50,
        "ranged".to_string(),
        vec![
            Field {
                name: "xs".to_string(),
                ty: Type::Array(ArrayType::new(a_in, elem.deep_clone(), Some((1, 4))).unwrap()),
                dir: Direction::In,
            },
        ],
        None,
    );
    let free = Syscall::new(
        51,
        "free_len".to_string(),
        vec![
            Field {
                name: "xs".to_string(),
                ty: Type::Array(ArrayType::new(a_in, elem, None).unwrap()),
                dir: Direction::In,
            },
        ],
        None,
    );
    let meta = SyscallMetadata::new(vec![ranged, free]);
    for seed in 0..80u64 {
        let ctx = Context::new(meta.deep_clone());
        let mut generator = SyscallGenerator::new(2, ctx);
        let mut rng = Rng::with_seed(seed);
        let input = generator.generate(&mut rng);
        for i in 0..input.len() {
            let call = input.get(i);
            match &call.args()[0] {
                Arg::Group(g) => {
                    if call.number() == 50 {
                        assert!(1 <= g.0.len() && g.0.len() <= 4);
                    } else {
                        assert!(g.0.len() <= MAX_ARRAY_LENGTH as usize);
                    }
                },
                other => panic!("expected an aggregate, got {:?}", other),
            }
        }
    }
}
