//! Hexencer: the data model, editing rules and sequencing decisions of a MIDI
//! sequencer, with their contracts.

pub mod text;
pub mod tick;
pub mod common;
pub mod midi_message;
pub mod instrument;
pub mod event;
pub mod note;
pub mod midi_event;
pub mod trig;
pub mod event_list;
pub mod tick_order;
pub mod clip;
pub mod track;
pub mod project;
pub mod data_layer;
pub mod sequencer;
pub mod midi_engine;
pub mod demo_sequencer;
pub mod gesture;
pub mod app_state;
pub mod clip_laws;
pub mod project_laws;
