//! A typed-program engine for structure-aware kernel fuzzing: a data model
//! of system calls and arguments, a description-driven catalog, generation
//! and mutation of well-formed call sequences with closed resource
//! dataflow, and their canonical and wire byte encodings.

mod call;
mod codec;
mod construct;
mod context;
mod fingerprint;
mod generate;
mod input;
mod metadata;
mod mutate;
mod rand_util;
mod rng;
mod types;
mod validate;
mod wf;
mod wire;

pub use call::{
    arg_sizes_ok, call_sizes_ok, clone_args, clone_calls, lemma_arg_sizes_ok, lemma_call_sizes_ok,
    program_sizes_ok, Arg, ArgV, Call, CallV, ConstArg, DataArg, GroupArg, PointerArg, ResultArg,
};
pub use codec::{
    enc_arg, enc_call, enc_calls, lemma_canonical_round_trip, spec_decode, spec_encode,
};
pub use construct::{
    check_catalog, check_fields_wf, check_sorted, check_sorted_unique, is_bitmask,
    sort_dedup_values, sort_values, BuildError,
};
pub use context::{min_fresh_id, spec_replay, Context, ContextV, IndexAllocator};
pub use fingerprint::{fingerprint64, hash_bytes, hex16, name_bytes, to_hex16};
pub use generate::{
    arg_gen_ok, array_can_be_nonempty, catalog_ok, choose_fallback, filename_nul_ok, gen_post,
    generate_arg, generate_args, generate_call, generate_calls, has_compatible_creator,
    has_compatible_result, int_arg_ok, is_fallback, is_resource_named, rand_filename,
    string_from_presets, string_preset_ok, SyscallGenerator,
};
pub use input::{lemma_remove_without_resources, removed_program, rewrite_tail, SyscallInput};
pub use metadata::{metadata_wf, spec_find_number, syscall_wf, Syscall, SyscallMetadata, SyscallV};
pub use mutate::{
    havoc_bytes, int_mutation_ok, lemma_remove_preserves, mutate_arg, mutate_buffer_length,
    no_fields_call, MutationResult, SyscallInsertMutator, SyscallRandMutator, SyscallRemoveMutator,
    SyscallSpliceMutator,
};
pub use rand_util::{
    biased_high, punct_byte, rand_array_length, rand_buffer_length, rand_filename_length, rand_int,
    rand_string, MAX_ARRAY_LENGTH, MAX_BUFFER_LENGTH, PUNCT_COUNT,
};
pub use rng::Rng;
pub use types::{
    fields_wf, is_var_len, seq_sorted, seq_sorted_unique, spec_is_bitmask, type_wf, ArrayType,
    BufferType, ByteBuffer, Direction, Field, FieldV, FilenameBuffer, FlagType, IntType,
    PointerType, ResourceType, StringBuffer, StructType, Type, TypeAttr, TypeV, UnionType,
};
pub use wf::{
    arg_has_ref, arg_matches, call_has_ref, call_wf, dataflow_ok, numbers_unique, program_wf,
    replace_ref_arg, replace_ref_call, spec_default,
};
pub use validate::{check_arg_matches, check_call_wf, check_dataflow, check_program_wf, refs_bounded};
pub use wire::{wire_arg, wire_arg_bytes, wire_call, wire_call_bytes, wire_program, ToExecBytes};
