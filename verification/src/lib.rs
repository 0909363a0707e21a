//! Core scheduling and dependency-injection runtime for a data-oriented
//! application framework.
//!
//! Systems (user procedures) are registered at totally ordered phase keys,
//! declare read/write access to typed resources, and are executed phase by
//! phase over a shared resource store. Event queues with a one-bit age and a
//! deferred command buffer are serviced around the `TICK` boundary.
//!
//! The store maps run-time keys to one value type the embedding chooses —
//! normally an enum over its resources — so a lookup can never yield a
//! value of the wrong type, and a missing resource surfaces as an absent
//! lookup to the system that asked; the scheduler's own fatal conditions
//! are the phase-key and aliasing errors.

mod access;
mod bimap;
mod components;
mod driver;
mod errors;
mod event;
mod phase;
mod plugins;
mod scheduler;
mod store;
mod system;
mod time;
mod world;

pub use access::Access;
pub use access::AccessDecl;
pub use access::AccessTable;
pub use access::declare_step;
pub use access::declare_all;
pub use bimap::BiMap;
pub use components::LabelComponent;
pub use components::ToggleButtonComponent;
pub use components::Delay;
pub use components::TimedButtonComponent;
pub use components::WindowDimensions;
pub use components::BindGroupType;
pub use components::PipelineType;
pub use components::Resources;
pub use driver::PlatformEvent;
pub use driver::DriverAction;
pub use driver::dispatch_platform_event;
pub use errors::SchedulerError;
pub use plugins::PluginId;
pub use plugins::PluginRegistry;
pub use time::Time;
pub use time::Tick;
pub use time::Accumulator;
pub use time::Accumulators;
pub use time::update_time;
pub use time::update_tick_count;
pub use event::Event;
pub use event::EventQueue;
pub use event::EventQueueHandler;
pub use event::EventReader;
pub use event::EventWriter;
pub use event::swept;
pub use event::aged;
pub use event::lemma_one_tick_lifetime;
pub use event::lemma_fresh_events_survive;
pub use event::lemma_push_visible;
pub use store::ResourceStore;
pub use store::lemma_insert_overwrites;
pub use scheduler::Scheduler;
pub use scheduler::PhaseBucket;
pub use scheduler::RunLog;
pub use scheduler::phase_in_range;
pub use scheduler::flat_decls;
pub use scheduler::bucket_ok;
pub use scheduler::bucket_log;
pub use scheduler::planned;
pub use scheduler::count_keys_below;
pub use scheduler::has_key;
pub use scheduler::keys_sorted;
pub use scheduler::lemma_planned_ordered;
pub use scheduler::lemma_planned_complete;
pub use scheduler::lemma_planned_entries_valid;
pub use scheduler::lemma_same_phase_alias;
pub use scheduler::lemma_reads_never_conflict;
pub use scheduler::lemma_distinct_keys_ok;
pub use scheduler::lemma_cross_phase_writer_reader;
pub use system::System;
pub use system::IntoSystem;
pub use system::SystemParam;
pub use system::FunctionSystem;
pub use system::Res;
pub use system::ResMut;
pub use system::RefWorld;
pub use system::MutWorld;
pub use system::WORLD_RESOURCE_KEY;
pub use world::CommandBuffer;
pub use world::world_values;
pub use world::world_entity_count;
pub use world::world_reserved_count;
pub use phase::PhaseKey;
pub use phase::START_BITS;
pub use phase::TICK_BITS;
pub use phase::END_BITS;
pub use phase::EXIT_BITS;
pub use phase::PHASE_LIMIT_BITS;
pub use phase::bits_is_nan;
pub use phase::bits_in_phase_range;
pub use phase::canonical_bits;
