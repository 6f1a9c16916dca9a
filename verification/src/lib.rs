//! Deterministic, bounded interpretations over explicitly selected code facts.
pub mod control;
pub mod envelope;
pub mod model;
pub mod decimal;
pub mod text;
pub mod observation;
pub mod trace;
pub mod limits;
pub mod fixtures;
pub mod output;
pub mod syntax;
pub mod configuration;
pub mod inheritance;
pub mod evidence;
pub mod listing;
pub mod compiler;
pub mod reach;
pub mod complexity;
pub mod flow;
pub mod facts;
pub mod dataflow;
pub mod discovery;
pub mod statistics;
pub mod graph;
pub mod options;
pub mod capture;
pub mod bundle;
