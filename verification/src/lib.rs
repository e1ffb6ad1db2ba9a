//! Polyrhythmic scheduling for heterogeneous agent fleets.
pub mod alignment;
pub mod arith;
pub mod beat;
pub mod seq_facts;
pub mod cycle;
pub mod decimal;
pub mod groove;
pub mod groups;
pub mod polyrhythm;
pub mod schedule;
pub mod syncopation;

pub use crate::alignment::{detect_alignments, find_alignments, CycleAlignment};
pub use crate::arith::{gcd, lcm};
pub use crate::beat::{Beat, FULL_LEVEL, TICKS_PER_BEAT};
pub use crate::cycle::RhythmicCycle;
pub use crate::groove::groove_point;
pub use crate::polyrhythm::Polyrhythm;
pub use crate::schedule::{PolyrhythmicScheduler, ScheduledTask, TaskTemplates};
pub use crate::syncopation::{Ratio, SyncopationDetector, SyncopationEvent};
