//! Verified core of a realtime voice changer.
//!
//! Microphone audio goes block by block through a window that three networks convert
//! ([`engine`]); the converted windows are stitched into a continuous output ([`stream`]).
//! [`live`] runs this between two rings of the sound server ([`audio`]) and feeds a virtual
//! microphone ([`virtmic`]); [`offline`] converts recordings; [`gui`] is what the control
//! window decides.
pub mod arith;
pub mod audio;
pub mod dsp;
pub mod engine;
pub mod exact;
pub mod gui;
pub mod live;
pub mod nodes;
pub mod noise;
pub mod offline;
pub mod pitch;
pub mod stats;
pub mod stream;
pub mod text;
pub mod virtmic;
pub mod wav;
