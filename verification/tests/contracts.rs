//! The sharpened operator contracts, exercised concretely: mutator skip
//! conditions, guaranteed flag change, filename NUL termination, preset
//! strings, and the executable program validators.

use flicker::{
    Arg, BufferType, Call, ConstArg, Context, DataArg, Direction, Field, FilenameBuffer, FlagType,
    IntType, MutationResult, ResourceType, ResultArg, Rng, StringBuffer, Syscall, SyscallGenerator,
    SyscallInput, SyscallInsertMutator, SyscallMetadata, SyscallRemoveMutator,
    SyscallSpliceMutator, Type, TypeAttr, MAX_BUFFER_LENGTH,
};

fn attr_in() -> TypeAttr {
    TypeAttr { dir: Direction::In, optional: false }
}

fn tiny_metadata() -> SyscallMetadata {
    let fd = Type::Resource(ResourceType::new(attr_in(), "fd".to_string(), vec![9]).unwrap());
    let close = Syscall::new(
        60,
        "close".to_string(),
        vec![Field { name: "fd".to_string(), ty: fd, dir: Direction::In }],
        None,
    );
    SyscallMetadata::new(vec![close])
}

#[test]
fn mutators_skip_exactly_when_stated() {
    let meta = tiny_metadata();
    let mut rng = Rng::with_seed(1);

    // Splice skips iff the input is empty or over the bound
    let splice = SyscallSpliceMutator;
    let donor = SyscallInput::new(vec![Call::new(
        60,
        vec![Arg::Result(ResultArg::Literal(9))],
        None,
    )]);
    let mut empty = SyscallInput::new(vec![]);
    assert_eq!(splice.mutate(&mut rng, &mut empty, &donor, 4), MutationResult::Skipped);
    let oversized_calls: Vec<Call> = (0..5)
        .map(|_| Call::new(60, vec![Arg::Result(ResultArg::Literal(9))], None))
        .collect();
    let mut oversized = SyscallInput::new(oversized_calls);
    assert_eq!(splice.mutate(&mut rng, &mut oversized, &donor, 4), MutationResult::Skipped);
    assert_eq!(oversized.len(), 5);
    let mut fitting = SyscallInput::new(vec![Call::new(
        60,
        vec![Arg::Result(ResultArg::Literal(9))],
        None,
    )]);
    assert_eq!(splice.mutate(&mut rng, &mut fitting, &donor, 4), MutationResult::Mutated);

    // Insert skips iff the input is already at the bound
    let insert = SyscallInsertMutator::new(meta.deep_clone());
    let mut full = SyscallInput::new(vec![Call::new(
        60,
        vec![Arg::Result(ResultArg::Literal(9))],
        None,
    )]);
    assert_eq!(insert.mutate(&mut rng, &mut full, 1), MutationResult::Skipped);
    assert_eq!(insert.mutate(&mut rng, &mut full, 2), MutationResult::Mutated);

    // Remove skips iff the input is empty
    let remove = SyscallRemoveMutator::new(meta.deep_clone());
    let mut none = SyscallInput::new(vec![]);
    assert_eq!(remove.mutate(&mut rng, &mut none), MutationResult::Skipped);
    let mut one = SyscallInput::new(vec![Call::new(
        60,
        vec![Arg::Result(ResultArg::Literal(9))],
        None,
    )]);
    assert_eq!(remove.mutate(&mut rng, &mut one), MutationResult::Mutated);
    assert_eq!(one.len(), 0);
}

#[test]
fn flag_mutation_always_changes_the_value() {
    // Even a single-valued flag set changes: the budgeted resampling ends
    // in a forced bit flip.
    let meta = SyscallMetadata::new(vec![]);
    let flag_ty = Type::Flag(FlagType::new(attr_in(), vec![4]).unwrap());
    for seed in 0..300u64 {
        let mut rng = Rng::with_seed(seed);
        let mut ctx = Context::new(meta.deep_clone());
        let (arg, calls) = flicker::mutate_arg(
            &mut rng,
            &mut ctx,
            &flag_ty,
            Arg::Const(ConstArg(4)),
            false,
        );
        assert!(calls.is_empty());
        match arg {
            Arg::Const(ConstArg(v)) => assert_ne!(v, 4),
            other => panic!("expected an integer argument, got {:?}", other),
        }
    }
}

#[test]
fn int_mutation_emits_no_calls_and_stays_const() {
    let meta = SyscallMetadata::new(vec![]);
    let int_ty = Type::Int(IntType::new(attr_in(), 32, Some((5, 9))).unwrap());
    for seed in 0..300u64 {
        let mut rng = Rng::with_seed(seed);
        let mut ctx = Context::new(meta.deep_clone());
        let (arg, calls) = flicker::mutate_arg(
            &mut rng,
            &mut ctx,
            &int_ty,
            Arg::Const(ConstArg(7)),
            false,
        );
        assert!(calls.is_empty());
        match arg {
            Arg::Const(ConstArg(v)) => {
                // A fresh in-range sample, a move by at most four, or a
                // single flipped bit below the width
                let in_range = 5 <= v && v <= 9;
                let moved = (1..=4u64).any(|k| {
                    v == 7u64.wrapping_add(k) || v == 7u64.wrapping_sub(k)
                });
                let flipped = (0..32u64).any(|s| v == 7 ^ (1u64 << s));
                assert!(in_range || moved || flipped, "stray value {v}");
            },
            other => panic!("expected an integer argument, got {:?}", other),
        }
    }
}

#[test]
fn filenames_end_in_nul_unless_capped() {
    let filename = Type::Buffer(BufferType::Filename(FilenameBuffer::new(attr_in(), false)));
    let touch = Syscall::new(
        61,
        "touch".to_string(),
        vec![Field { name: "path".to_string(), ty: filename, dir: Direction::In }],
        None,
    );
    let meta = SyscallMetadata::new(vec![touch]);
    for seed in 0..200u64 {
        let ctx = Context::new(meta.deep_clone());
        let mut generator = SyscallGenerator::new(2, ctx);
        let mut rng = Rng::with_seed(seed);
        let input = generator.generate(&mut rng);
        for i in 0..input.len() {
            match &input.get(i).args()[0] {
                Arg::Data(DataArg::In(d)) => {
                    assert!(
                        d.len() == MAX_BUFFER_LENGTH as usize || (!d.is_empty() && *d.last().unwrap() == 0),
                        "filename without NUL: {:?}",
                        d,
                    );
                },
                other => panic!("expected an input buffer, got {:?}", other),
            }
        }
    }
}

#[test]
fn preset_strings_come_from_the_presets() {
    let presets: Vec<Vec<u8>> = vec![b"alpha".to_vec(), b"beta".to_vec()];
    let string = Type::Buffer(BufferType::String(
        StringBuffer::new(attr_in(), presets.clone(), false).unwrap(),
    ));
    let say = Syscall::new(
        62,
        "say".to_string(),
        vec![Field { name: "word".to_string(), ty: string, dir: Direction::In }],
        None,
    );
    let meta = SyscallMetadata::new(vec![say]);
    for seed in 0..200u64 {
        let ctx = Context::new(meta.deep_clone());
        let mut generator = SyscallGenerator::new(1, ctx);
        let mut rng = Rng::with_seed(seed);
        let input = generator.generate(&mut rng);
        match &input.get(0).args()[0] {
            Arg::Data(DataArg::In(d)) => {
                let fits = presets.iter().any(|p| {
                    d == p || {
                        let mut q = p.clone();
                        q.push(0);
                        *d == q
                    }
                });
                assert!(fits, "payload not from the presets: {:?}", d);
            },
            other => panic!("expected an input buffer, got {:?}", other),
        }
    }
}

#[test]
fn validators_accept_generated_programs() {
    let meta = tiny_metadata();
    for seed in 0..50u64 {
        let ctx = Context::new(meta.deep_clone());
        let mut generator = SyscallGenerator::new(4, ctx);
        let mut rng = Rng::with_seed(seed);
        let input = generator.generate(&mut rng);
        assert!(flicker::check_program_wf(&input, &meta));
        assert!(flicker::check_dataflow(&input));
    }
}

#[test]
fn validators_reject_broken_programs() {
    let meta = tiny_metadata();
    // An unknown syscall number
    let unknown = SyscallInput::new(vec![Call::new(99, vec![], None)]);
    assert!(!flicker::check_program_wf(&unknown, &meta));
    // A wrong argument count
    let short = SyscallInput::new(vec![Call::new(60, vec![], None)]);
    assert!(!flicker::check_program_wf(&short, &meta));
    // A wrong argument kind
    let wrong = SyscallInput::new(vec![Call::new(60, vec![Arg::Const(ConstArg(1))], None)]);
    assert!(!flicker::check_program_wf(&wrong, &meta));
    // A result identifier on a syscall that returns nothing
    let stray = SyscallInput::new(vec![Call::new(
        60,
        vec![Arg::Result(ResultArg::Literal(9))],
        Some(3),
    )]);
    assert!(!flicker::check_program_wf(&stray, &meta));
    // A dangling reference
    let dangling = SyscallInput::new(vec![Call::new(
        60,
        vec![Arg::Result(ResultArg::Ref(5))],
        None,
    )]);
    assert!(flicker::check_program_wf(&dangling, &meta));
    assert!(!flicker::check_dataflow(&dangling));
    // A forward reference
    let forward = SyscallInput::new(vec![
        Call::new(60, vec![Arg::Result(ResultArg::Ref(0))], None),
        Call::new(60, vec![Arg::Result(ResultArg::Literal(9))], None),
    ]);
    assert!(!flicker::check_dataflow(&forward));
    // In-order references pass
    let fd = Type::Resource(ResourceType::new(attr_in(), "fd".to_string(), vec![9]).unwrap());
    let opener = Syscall::new(63, "acquire".to_string(), vec![], Some(fd));
    let meta2 = SyscallMetadata::new(vec![
        tiny_metadata().syscalls()[0].deep_clone(),
        opener,
    ]);
    let chained = SyscallInput::new(vec![
        Call::new(63, vec![], Some(0)),
        Call::new(60, vec![Arg::Result(ResultArg::Ref(0))], None),
    ]);
    assert!(flicker::check_program_wf(&chained, &meta2));
    assert!(flicker::check_dataflow(&chained));
}
