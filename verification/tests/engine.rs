//! Generation and mutation behaviour over small hand-built catalogs.

use flicker::{
    Arg, BufferType, ByteBuffer, Call, ConstArg, Context, Direction, Field, FilenameBuffer,
    IntType, MutationResult, ResourceType, ResultArg, Rng, Syscall, SyscallGenerator,
    SyscallInput, SyscallInsertMutator, SyscallRemoveMutator, SyscallSpliceMutator, Type, TypeAttr,
};

fn attr_in() -> TypeAttr {
    TypeAttr { dir: Direction::In, optional: false }
}

fn attr_out() -> TypeAttr {
    TypeAttr { dir: Direction::Out, optional: false }
}

fn fd_type() -> Type {
    Type::Resource(ResourceType::new(attr_in(), "fd".to_string(), vec![99]).unwrap())
}

fn open_syscall() -> Syscall {
    let path = Field {
        name: "path".to_string(),
        ty: Type::Buffer(BufferType::Filename(FilenameBuffer::new(attr_in(), false))),
        dir: Direction::In,
    };
    Syscall::new(10, "open".to_string(), vec![path], Some(fd_type()))
}

fn read_syscall() -> Syscall {
    let fd = Field { name: "fd".to_string(), ty: fd_type(), dir: Direction::In };
    let buf = Field {
        name: "buf".to_string(),
        ty: Type::Buffer(BufferType::Byte(ByteBuffer::new(attr_out(), None).unwrap())),
        dir: Direction::Out,
    };
    Syscall::new(11, "read".to_string(), vec![fd, buf], None)
}

fn close_syscall() -> Syscall {
    let fd = Field { name: "fd".to_string(), ty: fd_type(), dir: Direction::In };
    Syscall::new(12, "close".to_string(), vec![fd], None)
}

fn orc_metadata() -> flicker::SyscallMetadata {
    flicker::SyscallMetadata::new(vec![open_syscall(), read_syscall(), close_syscall()])
}

fn first_result_ref(call: &Call) -> Option<u64> {
    match &call.args()[0] {
        Arg::Result(ResultArg::Ref(id)) => Some(*id),
        _ => None,
    }
}

#[test]
fn open_read_close_dataflow() {
    // With the strong bias toward reusing live resources, some small seed
    // yields exactly open -> read(fd) -> close(fd) with both consumers
    // referencing the opened descriptor.
    let meta = orc_metadata();
    assert!(flicker::check_catalog(&meta));
    let mut found = false;
    for seed in 0..400u64 {
        let ctx = Context::new(meta.deep_clone());
        let mut generator = SyscallGenerator::new(3, ctx);
        let mut rng = Rng::with_seed(seed);
        let input = generator.generate(&mut rng);
        if input.len() != 3 {
            continue;
        }
        let c0 = input.get(0);
        let c1 = input.get(1);
        let c2 = input.get(2);
        if c0.number() != 10 || c1.number() != 11 || c2.number() != 12 {
            continue;
        }
        let fd = match c0.result() {
            Some(id) => id,
            None => continue,
        };
        if first_result_ref(c1) == Some(fd) && first_result_ref(c2) == Some(fd) {
            // Serializing and deserializing returns an equal program.
            let bytes = input.encode();
            let back = SyscallInput::decode(&bytes).unwrap();
            assert_eq!(bytes, back.encode());
            assert_eq!(input.generate_name(None), back.generate_name(None));
            found = true;
            break;
        }
    }
    assert!(found);
}

#[test]
fn every_call_matches_its_fields() {
    // Well-formedness, checked concretely: every generated call names a
    // known syscall and carries exactly one argument per field.
    let meta = orc_metadata();
    for seed in 0..50u64 {
        let ctx = Context::new(meta.deep_clone());
        let mut generator = SyscallGenerator::new(6, ctx);
        let mut rng = Rng::with_seed(seed);
        let input = generator.generate(&mut rng);
        assert!(input.len() <= 6);
        for i in 0..input.len() {
            let call = input.get(i);
            let syscall = meta.find_number(call.number()).unwrap();
            assert_eq!(call.args().len(), syscall.fields().len());
        }
    }
}

#[test]
fn references_point_backward() {
    // Dataflow closure, checked concretely: every reference resolves to an
    // earlier call's result identifier.
    let meta = orc_metadata();
    for seed in 0..50u64 {
        let ctx = Context::new(meta.deep_clone());
        let mut generator = SyscallGenerator::new(8, ctx);
        let mut rng = Rng::with_seed(seed);
        let input = generator.generate(&mut rng);
        for i in 0..input.len() {
            let call = input.get(i);
            for arg in call.args().iter() {
                if let Arg::Result(ResultArg::Ref(id)) = arg {
                    let mut produced = false;
                    for j in 0..i {
                        if input.get(j).result() == Some(*id) {
                            produced = true;
                        }
                    }
                    assert!(produced);
                }
            }
        }
    }
}

#[test]
fn resource_fallback_without_producer() {
    // With close(fd) alone and nothing producing an fd, every program is
    // made of close calls whose argument is a fallback literal from the
    // resource's value set; no prerequisite calls appear.
    let meta = flicker::SyscallMetadata::new(vec![close_syscall()]);
    assert!(flicker::check_catalog(&meta));
    for seed in 0..50u64 {
        let ctx = Context::new(meta.deep_clone());
        let mut generator = SyscallGenerator::new(5, ctx);
        let mut rng = Rng::with_seed(seed);
        let input = generator.generate(&mut rng);
        for i in 0..input.len() {
            let call = input.get(i);
            assert_eq!(call.number(), 12);
            match &call.args()[0] {
                Arg::Result(ResultArg::Literal(v)) => assert_eq!(*v, 99),
                other => panic!("expected a fallback literal, got {:?}", other),
            }
        }
    }
}

#[test]
fn optional_field_defaults_half_the_time() {
    // An optional 32-bit integer field with range [10, 20]: about half the
    // draws take the deterministic default 0, the rest lie in the range.
    let probe = Syscall::new(
        20,
        "probe".to_string(),
        vec![
            Field {
                name: "level".to_string(),
                ty: Type::Int(
                    IntType::new(
                        TypeAttr { dir: Direction::In, optional: true },
                        32,
                        Some((10, 20)),
                    ).unwrap(),
                ),
                dir: Direction::In,
            },
        ],
        None,
    );
    let meta = flicker::SyscallMetadata::new(vec![probe]);
    let mut defaults = 0usize;
    let mut ranged = 0usize;
    for seed in 0..1000u64 {
        let ctx = Context::new(meta.deep_clone());
        let mut generator = SyscallGenerator::new(1, ctx);
        let mut rng = Rng::with_seed(seed);
        let input = generator.generate(&mut rng);
        assert_eq!(input.len(), 1);
        match &input.get(0).args()[0] {
            Arg::Const(ConstArg(v)) => {
                if *v == 0 {
                    defaults += 1;
                } else {
                    assert!(10 <= *v && *v <= 20);
                    ranged += 1;
                }
            },
            other => panic!("expected an integer argument, got {:?}", other),
        }
    }
    assert_eq!(defaults + ranged, 1000);
    assert!(defaults > 350 && defaults < 650);
}

#[test]
fn remove_rewires_references() {
    // Removing the producer replaces every later reference with the
    // resource type's default: its first fallback literal.
    let meta = orc_metadata();
    let open_call = Call::new(10, vec![Arg::Data(flicker::DataArg::In(vec![46, 0]))], Some(7));
    let read_call = Call::new(
        11,
        vec![Arg::Result(ResultArg::Ref(7)), Arg::Data(flicker::DataArg::Out(16))],
        None,
    );
    let close_call = Call::new(12, vec![Arg::Result(ResultArg::Ref(7))], None);
    let mut input = SyscallInput::new(vec![open_call, read_call, close_call]);
    input.remove(0, &meta);
    assert_eq!(input.len(), 2);
    assert_eq!(input.get(0).number(), 11);
    assert_eq!(input.get(1).number(), 12);
    match &input.get(0).args()[0] {
        Arg::Result(ResultArg::Literal(v)) => assert_eq!(*v, 99),
        other => panic!("expected the default literal, got {:?}", other),
    }
    match &input.get(1).args()[0] {
        Arg::Result(ResultArg::Literal(v)) => assert_eq!(*v, 99),
        other => panic!("expected the default literal, got {:?}", other),
    }
}

#[test]
fn remove_rewires_nested_references() {
    // This engine resolves the choice left open for Remove in favour of a
    // full rewrite: references to the removed resource are replaced at any
    // depth, inside groups and behind pointers, not only at top level.
    let meta = orc_metadata();
    let open_call = Call::new(10, vec![Arg::Data(flicker::DataArg::In(vec![46, 0]))], Some(3));
    let nested = Arg::Group(flicker::GroupArg(vec![
        Arg::Pointer(flicker::PointerArg::Data(Box::new(Arg::Result(ResultArg::Ref(3))))),
    ]));
    let user = Call::new(12, vec![nested], None);
    let mut input = SyscallInput::new(vec![open_call, user]);
    input.remove(0, &meta);
    assert_eq!(input.len(), 1);
    match &input.get(0).args()[0] {
        Arg::Group(g) => match &g.0[0] {
            Arg::Pointer(flicker::PointerArg::Data(b)) => match &**b {
                Arg::Result(ResultArg::Literal(v)) => assert_eq!(*v, 99),
                other => panic!("the nested reference must be rewired, got {:?}", other),
            },
            other => panic!("expected a pointer, got {:?}", other),
        },
        other => panic!("expected an aggregate, got {:?}", other),
    }
}

#[test]
fn remove_without_resources_only_deletes() {
    // A program without resource-producing calls: Remove deletes one call
    // and leaves every reference untouched.
    let meta = orc_metadata();
    let a = Call::new(12, vec![Arg::Result(ResultArg::Literal(99))], None);
    let b = Call::new(12, vec![Arg::Result(ResultArg::Ref(5))], None);
    let c = Call::new(12, vec![Arg::Result(ResultArg::Literal(1))], None);
    let mut input = SyscallInput::new(vec![a, b, c]);
    input.remove(0, &meta);
    assert_eq!(input.len(), 2);
    match &input.get(0).args()[0] {
        Arg::Result(ResultArg::Ref(id)) => assert_eq!(*id, 5),
        other => panic!("the reference must survive, got {:?}", other),
    }
    match &input.get(1).args()[0] {
        Arg::Result(ResultArg::Literal(v)) => assert_eq!(*v, 1),
        other => panic!("the literal must survive, got {:?}", other),
    }
}

fn nop_call(tag: u64) -> Call {
    Call::new(30, vec![Arg::Const(ConstArg(tag))], None)
}

fn const_tag(call: &Call) -> u64 {
    match &call.args()[0] {
        Arg::Const(ConstArg(v)) => *v,
        other => panic!("expected an integer argument, got {:?}", other),
    }
}

#[test]
fn splice_truncates_to_max_size() {
    // A program of five calls spliced at position three with a ten-call
    // program, bounded by eight: three old calls, then the other program's
    // prefix of five.
    let p: Vec<Call> = (0..5).map(nop_call).collect();
    let q: Vec<Call> = (100..110).map(nop_call).collect();
    let mut input = SyscallInput::new(p);
    input.splice(3, q);
    input.truncate(8);
    assert_eq!(input.len(), 8);
    for i in 0..3 {
        assert_eq!(const_tag(input.get(i)), i as u64);
    }
    for i in 3..8 {
        assert_eq!(const_tag(input.get(i)), 100 + (i as u64 - 3));
    }
}

#[test]
fn splice_mutator_respects_bounds() {
    let meta = orc_metadata();
    let mutator = SyscallSpliceMutator;
    for seed in 0..20u64 {
        let ctx = Context::new(meta.deep_clone());
        let mut generator = SyscallGenerator::new(5, ctx);
        let mut rng = Rng::with_seed(seed);
        let mut input = generator.generate(&mut rng);
        let other = {
            let ctx2 = Context::new(meta.deep_clone());
            let mut generator2 = SyscallGenerator::new(10, ctx2);
            generator2.generate(&mut rng)
        };
        let before = input.len();
        let r = mutator.mutate(&mut rng, &mut input, &other, 8);
        match r {
            MutationResult::Mutated => assert!(input.len() <= 8),
            MutationResult::Skipped => assert_eq!(input.len(), before),
        }
    }
}

#[test]
fn insert_mutator_respects_bounds() {
    let meta = orc_metadata();
    let mutator = SyscallInsertMutator::new(meta.deep_clone());
    for seed in 0..20u64 {
        let ctx = Context::new(meta.deep_clone());
        let mut generator = SyscallGenerator::new(5, ctx);
        let mut rng = Rng::with_seed(seed);
        let mut input = generator.generate(&mut rng);
        let before = input.len();
        let r = mutator.mutate(&mut rng, &mut input, 6);
        match r {
            MutationResult::Mutated => assert!(input.len() <= 6),
            MutationResult::Skipped => assert_eq!(input.len(), before),
        }
        // The result still satisfies well-formedness and dataflow.
        for i in 0..input.len() {
            let call = input.get(i);
            let syscall = meta.find_number(call.number()).unwrap();
            assert_eq!(call.args().len(), syscall.fields().len());
            for arg in call.args().iter() {
                if let Arg::Result(ResultArg::Ref(id)) = arg {
                    assert!((0..i).any(|j| input.get(j).result() == Some(*id)));
                }
            }
        }
    }
}

#[test]
fn rand_mutator_keeps_programs_well_formed() {
    let meta = orc_metadata();
    let mutator = flicker::SyscallRandMutator::new(meta.deep_clone());
    for seed in 0..30u64 {
        let ctx = Context::new(meta.deep_clone());
        let mut generator = SyscallGenerator::new(5, ctx);
        let mut rng = Rng::with_seed(seed);
        let mut input = generator.generate(&mut rng);
        let _ = mutator.mutate(&mut rng, &mut input, 8);
        assert!(input.len() <= 8);
        for i in 0..input.len() {
            let call = input.get(i);
            let syscall = meta.find_number(call.number()).unwrap();
            assert_eq!(call.args().len(), syscall.fields().len());
            for arg in call.args().iter() {
                if let Arg::Result(ResultArg::Ref(id)) = arg {
                    assert!((0..i).any(|j| input.get(j).result() == Some(*id)));
                }
            }
        }
    }
}

#[test]
fn remove_mutator_shrinks_by_one() {
    let meta = orc_metadata();
    let mutator = SyscallRemoveMutator::new(meta.deep_clone());
    let ctx = Context::new(meta.deep_clone());
    let mut generator = SyscallGenerator::new(5, ctx);
    let mut rng = Rng::with_seed(3);
    let mut input = generator.generate(&mut rng);
    let before = input.len();
    let r = mutator.mutate(&mut rng, &mut input);
    match r {
        MutationResult::Mutated => assert_eq!(input.len(), before - 1),
        MutationResult::Skipped => assert_eq!(before, 0),
    }
}

#[test]
fn generation_is_deterministic_per_seed() {
    // The same seed over the same catalog gives byte-identical programs;
    // the generator draws nothing from anywhere else.
    let meta = orc_metadata();
    for seed in [0u64, 1, 7, 42, 1234567] {
        let ctx1 = Context::new(meta.deep_clone());
        let mut g1 = SyscallGenerator::new(6, ctx1);
        let mut rng1 = Rng::with_seed(seed);
        let a = g1.generate(&mut rng1);
        let ctx2 = Context::new(meta.deep_clone());
        let mut g2 = SyscallGenerator::new(6, ctx2);
        let mut rng2 = Rng::with_seed(seed);
        let b = g2.generate(&mut rng2);
        assert_eq!(a.target_bytes(), b.target_bytes());
        assert_eq!(a.encode(), b.encode());
        assert_eq!(a.generate_name(None), b.generate_name(None));
    }
}

#[test]
fn generation_respects_max_calls() {
    let meta = orc_metadata();
    for seed in 0..30u64 {
        for max in [0usize, 1, 2, 5, 9] {
            let ctx = Context::new(meta.deep_clone());
            let mut generator = SyscallGenerator::new(max, ctx);
            let mut rng = Rng::with_seed(seed);
            let input = generator.generate(&mut rng);
            assert!(input.len() <= max);
        }
    }
}
