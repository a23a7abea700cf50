//! How many boards, hands and chunks there are.
use vstd::prelude::*;
use crate::arith::ceil_quotient_is_least;
use crate::plan::{
    boards_on, choose2_spec, chunk_size_of, chunks_of, combos_on, runouts_on, slot_size, CfrStorageConfig,
};
use crate::tree::Street;

verus! {

/// A thing more makes a pair more with each that was there.
pub proof fn pairs_grow_by_one_each(count: int)
    requires
        count >= 0,
    ensures
        choose2_spec(0) == 0,
        choose2_spec(count + 1) == choose2_spec(count) + count,
{
    assert((count + 1) * count == count * (count - 1) + 2 * count) by (nonlinear_arith);
}

/// A street later there is a board for every card off the board, as many runouts fewer for each board, and one card
/// less to hold.
pub proof fn streets_deal_one_card(street: Street)
    ensures
        boards_on(street) * runouts_on(street) == boards_on(Street::River),
        boards_on(Street::Flop) == 1,
        boards_on(Street::Turn) == (52 - 3) * boards_on(Street::Flop),
        boards_on(Street::River) == (52 - 4) * boards_on(Street::Turn),
        combos_on(Street::Flop) == choose2_spec(52 - 3),
        combos_on(Street::Turn) == choose2_spec(52 - 4),
        combos_on(Street::River) == choose2_spec(52 - 5),
{
}

/// Chunks hold all bytes, there are as few of them as chunks of the target size, or of a slot if that is larger,
/// can be, and none is larger than the others need.
pub proof fn chunks_hold_all_bytes(bytes: int, config: CfrStorageConfig)
    requires
        bytes > 0,
        slot_size(config) > 0,
    ensures
        ({
            let target = if config.chunk_target_bytes >= slot_size(config) {
                config.chunk_target_bytes as int
            } else {
                slot_size(config)
            };
            let chunks = chunks_of(bytes, config);
            let size = chunk_size_of(bytes, config);
            &&& chunks >= 1
            &&& (chunks - 1) * target < bytes <= chunks * target
            &&& (size - 1) * chunks < bytes <= size * chunks
            &&& size <= target
        }),
{
    let target = if config.chunk_target_bytes >= slot_size(config) {
        config.chunk_target_bytes as int
    } else {
        slot_size(config)
    };
    let chunks = chunks_of(bytes, config);
    let size = chunk_size_of(bytes, config);
    ceil_quotient_is_least(bytes, target);
    assert(chunks >= 1) by (nonlinear_arith)
        requires
            bytes <= chunks * target,
            bytes > 0,
            target > 0,
    ;
    ceil_quotient_is_least(bytes, chunks);
    assert(size <= target) by (nonlinear_arith)
        requires
            (size - 1) * chunks < bytes,
            bytes <= chunks * target,
            chunks >= 1,
    ;
}

} // verus!
