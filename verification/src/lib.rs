//! A stack-based patch language for a live audio-processing graph.
//!
//! Patch text is tokenized and evaluated word by word; primitive words stand
//! for external processor units with named ports, compound words expand to
//! further patch text. The interpreter keeps a stack of live output ports,
//! tracks each unit's transitive inputs, and garbage-collects units that are
//! no longer reachable from the stack. All effects on the outside world
//! (spawning unit processes, connecting ports of the audio server) are
//! returned to the caller as explicit actions, so the whole decision logic
//! is verified here while an unverified driver performs the actions.

pub mod names;
pub mod numeric;
pub mod osc;
pub mod readiness;
pub mod spawn;
pub mod stack;
pub mod text;
pub mod tokens;
pub mod vocab;
