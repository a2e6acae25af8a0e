//! Fixed-width descriptor rings and bounded payload leases.
mod arena;
mod checksum;
pub use arena::{
    claim_defect, claim_direction_role, header_matches, law_arenas_are_opened_as_they_were_made,
    law_arenas_can_be_opened_at_any_time, law_descriptor_ring_is_fifo, law_descriptors_are_counted,
    law_new_arenas_have_both_roles, law_pushes_and_pops_are_told, law_roles_are_claimed_once,
    law_roles_are_free_until_claimed, law_slots_are_separate, law_slots_take_up_to_their_length,
    open_defect, splice, spliced, Arena,
    DirectionRole, PopStep, PushStep, Words, ARENA_MAGIC, CONSUMER_CLAIM, PRODUCER_CLAIM,
    RELEASE_ARENA_FLAG, ROLE_CLAIM_MASK,
};
mod direction;
pub use direction::{
    data_direction, law_arenas_have_numbers_of_their_own, law_exact_transfers_report_the_shape,
    parts_defect, release_direction, reopen_defect, Direction, DirectionConfig, DirectionHandle, EndpointOptions, TransferReport,
    DEFAULT_TIMEOUT_NANOS,
};
mod drive;
pub use drive::{answered, consume_step, listens, produce_step, ConsumeStep, ProduceStep};
mod frame;
pub use checksum::{
    checksum, checksum_of, checksum_scalar, checksum_wide, differ_in_word, finalize_checksum,
    finalized, finished, fold_checksum, folded, law_a_corrupted_word_is_detected,
    law_stream_checksums_depend_on_every_chunk,
};
pub mod laws;
mod layout;
mod loopback;
mod shape;
pub use loopback::{
    count_of, direction_defect, law_sink_holds_a_prefix, law_slots_are_reused_after_release,
    law_transfers_are_faithful, law_transfers_do_not_stall, zeroed, Loopback, Plan,
};
pub use layout::{
    align_up, aligned, arena_layout, arena_len, descriptor_capacity, descriptors_for,
    is_power_of_two, layout_defect, payload_start, CACHE_LINE, DATA_EVENT_OFFSET, HEADER_LEN,
    HEAD_OFFSET, ROLE_CLAIMS_OFFSET, SPACE_EVENT_OFFSET, TAIL_OFFSET,
};
pub use frame::{
    field, flags_of, frame_flags, law_decoding_undoes_encoding, law_encodings_are_unique,
    law_frames_have_fixed_places, law_frames_tell_kind_and_flow, lemma_frame_len, Frame, Kind,
    FRAME_LEN, FRAME_MAGIC, STREAM_FLAG, VERSION,
};
pub use shape::{
    chunk_meta, div_ceil, div_ceil_u64, law_a_slot_and_generation_name_one_chunk,
    law_chunks_partition_the_stream, law_every_chunk_is_describable, lease_of, lemma_div_ceil,
    ChunkMeta, StreamFlow, StreamShape,
};
mod validate;
pub use validate::{
    announces_some, carries, complete_frame, data_frame, releases_exactly, releases_some,
    validate_chunk, validate_complete, validate_dynamic_chunk, validate_dynamic_complete,
    validate_dynamic_release, validate_release,
};
mod transfer;
pub use transfer::{
    exact_total, law_chunks_are_released_after_writing, law_consumers_respect_the_ceiling,
    lemma_exact_total, Consume, ConsumePhase, Ending, Produce, ProducePhase,
};
mod wait;
pub use wait::{
    after_wait, peer_closed, read_chunk, wait_budget, Peek, ReadOutcome, ReadStep,
    LIVENESS_POLL_NANOS,
};
