//! A fixed-capacity streaming down-sampling buffer.
//!
//! Observations arrive one at a time; the reservoir keeps at most `N` of
//! them so that the retained ones are an (approximately) evenly spaced
//! subsequence of everything seen so far.  As the stream grows, the
//! acceptance rate halves on a fixed schedule, so memory stays bounded
//! while the buffer keeps representing the whole history.

mod buf;
mod item;
mod iter;
mod math;
mod rate;

pub use buf::direct_rank_slot;
pub use buf::direct_rank_tag;
pub use buf::is_chronological;
pub use buf::is_sorting_permutation;
pub use buf::lemma_chronological_unique;
pub use buf::lemma_direct_rank_tag_increasing;
pub use buf::lemma_len_is_min_seen_capacity;
pub use buf::lemma_reservoir_invariants;
pub use buf::spaced_rank_tag;
pub use buf::view_spacing;
pub use buf::SamplingOutcome;
pub use buf::SamplingReservoir;
pub use item::InitializedItem;
pub use item::Item;
pub use iter::cycle_index;
pub use iter::cycle_length;
pub use iter::cyclic_slot;
pub use iter::group_number;
pub use iter::group_offset;
pub use iter::group_size;
pub use iter::lemma_reverse_round_trip;
pub use iter::pattern_base;
pub use iter::pattern_exponent;
pub use iter::pattern_step;
pub use iter::slot_at;
pub use iter::InfinitySamplerIndexer;
pub use iter::ReverseInfinitySamplerIndexer;
pub use math::accepted_below;
pub use math::accepts;
pub use math::bit_length;
pub use math::counter_bits;
pub use math::divisor_counter;
pub use math::divisor_exponent;
pub use math::lemma_acceptance_forms_agree;
pub use math::lemma_fire_iff;
pub use math::lemma_divisor_test_agrees;
pub use math::lemma_retained_count;
pub use math::log2;
pub use math::schedule_fires;
pub use math::storage_index;
pub use math::valid_capacity;
pub use rate::SamplingRate;
