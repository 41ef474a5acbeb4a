//! Core of a small live-telemetry backend: per-core utilization samples are
//! paired with text fragments picked from a fixed corpus by a fold-into-range
//! indexing rule, assembled into snapshots, and fanned out to subscribers
//! through a latest-value broadcaster.

mod codec;
mod corpus;
mod fanout;
mod selector;
mod session;
mod snapshot;

pub use codec::dec_digits;
pub use codec::decode_snapshot;
pub use codec::encode_snapshot;
pub use codec::esc;
pub use codec::esc_byte;
pub use codec::lemma_num_text_injective;
pub use codec::lemma_snap_json_injective;
pub use codec::lemma_str_json_injective;
pub use codec::num_text;
pub use codec::snap_json;
pub use codec::str_json;
pub use codec::trim_zeros;
pub use corpus::Corpus;
pub use corpus::first_dot;
pub use corpus::split_dots;
pub use fanout::Broadcaster;
pub use fanout::FanoutView;
pub use fanout::SlotView;
pub use fanout::lemma_latest_value;
pub use fanout::lemma_uniform_delivery;
pub use fanout::publish_rel;
pub use fanout::slot_ok;
pub use fanout::wf_fanout;
pub use selector::chosen_fragment;
pub use selector::default_fragment;
pub use selector::default_fragment_spec;
pub use selector::fold_index;
pub use selector::fold_spec;
pub use selector::lemma_chosen_sound;
pub use selector::lemma_deterministic_when_long;
pub use selector::lemma_fold_in_range;
pub use selector::lemma_one_draw_suffices;
pub use selector::lemma_select_sound;
pub use selector::max_attempts;
pub use selector::select_fragment;
pub use selector::select_spec;
pub use selector::select_with_draws;
pub use selector::step_index_spec;
pub use selector::trimmed;
pub use selector::trimmed_len;
pub use session::SessionAction;
pub use session::session_step;
pub use snapshot::SnapView;
pub use snapshot::Snapshot;
pub use snapshot::make_snapshot;
