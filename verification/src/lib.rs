pub mod event;
pub mod glob;
pub mod query;
pub mod queue;
pub mod registry;
pub mod scan;
pub mod strutil;
pub mod tagger;
pub mod taggers;
