//! A verified core for driving a large conformance test binary against an
//! evolving software-under-test.
//!
//! The library holds the logic worth proving: a string-interning pool with
//! stable handles, a hierarchical test suite over it, a weighted
//! history-aware sampler, the revision model with its textual forms, the
//! build log with its replayable state machine and single-builder
//! coordinator, and the runner state machine that turns the binary's
//! line-oriented output into per-test events. Everything that touches the
//! outside world — files, processes, timers, the terminal — lives in the
//! unverified application around it, which feeds plain values in and takes
//! plain values out.


mod buildlog;
mod builds;
mod errors;
mod runner;
mod string_pool;
mod suite;
mod sut;
mod text;
mod timefmt;
mod vulkancts;
mod utils;

pub use buildlog::{
    contents_json_bytes, entry_json_bytes, lemma_entry_json_injective, parse_entry, rev_from_json,
    rev_json_bytes, rev_to_json, serialize_entry, BuildLogContents, BuildLogEntry,
};
pub use builds::{
    apply_record, apply_rejects, apply_rel, is_fresh_state, lemma_single_builder, replay_chain,
    BuildCoordinator, BuildMgrConfig, BuildMgrState, BuildPoll, BuildRecord, BuildStatus,
};
pub use errors::Error;
pub use runner::{
    chars_end_with, chars_start_with, lemma_runner_event_order, parse_result_line,
    parse_test_start, sat_sub_u64, stdout_line_post, trim_chars, unwrap_parens, variant_token,
    DeqpError, DeqpEvent, EvKind, ExitInfo, LineEvent, RunnerPhase, RunnerState, TestResult,
    TestResultType,
};
pub use string_pool::{lemma_put_idempotent, put_spec, Idx, Pool, Ref};
pub use suite::{
    count_in, join_path, lemma_put_get_name_roundtrip, lemma_split_join,
    lemma_put_prefix_refused, lemma_suite_put_idempotent, prefix_test_conflict, put_room,
    sample_step_spec,
    sampler_overflow, seg_empty_err, spec_freq,
    spec_test_weight, split_path, suite_put_spec, weights_through, Sampler, Suite, TestRef,
};
pub use sut::{
    hash_hex_bytes, hex_val, rev_eq, rev_matches, ModuleRevision, Revision, SoftwareUnderTest,
    SutBranch,
};
pub use text::{ascii_chars, dec_bytes, dec_chars};
pub use timefmt::{format_rfc3339, rfc3339_bytes, Date, Timestamp};
pub use utils::{
    error, intersperse, leading_ws, spec_intersperse, trailing_ws, trim_ws, try_forward,
    ByteSliceExt,
};
pub use vulkancts::{add_caselist_lines, caselist_view};
