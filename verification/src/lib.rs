//! A Git-aware file tracker: which files of a project are tracked, and which
//! events their changes give rise to.

pub mod aux_watch;
pub mod batch;
pub mod batch_laws;
pub mod course_laws;
pub mod event_laws;
pub mod events;
pub mod laws;
pub mod options;
pub mod order;
pub mod path;
pub mod path_laws;
pub mod path_set;
pub mod prelude;
pub mod readiness;
pub mod rule_laws;
pub mod rules;
pub mod state;
pub mod state_laws;
pub mod text;
pub mod track;
pub mod tracker;
pub mod view_laws;
