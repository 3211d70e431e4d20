//! A deterministic rhythmic sequencer: exact step notation, Euclidean and Boolean rhythm
//! expressions, return-group clocks, and the wire and dispatch rules of its MIDI edge.
pub mod authoring;
pub mod control;
pub mod desktop;
pub mod music;
pub mod playback;
pub mod player;
pub mod text;
pub mod update;
