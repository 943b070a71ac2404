//! A simulation kit for distributed lease messaging.
//!
//! A [`scenario`] describes nodes, links, leases and a script; the [`engine`] runs
//! it, deterministically for a seed, and reports events and [`frame`]s. [`demos`]
//! are ready-made scenarios. On top of the engine, a [`run`] records frames at a
//! fixed pace, the [`playground`] builds scenarios from knobs, and the
//! [`walkthrough`] names the demos and says when each is over; [`stage`] and
//! [`grants`] say what there is to draw.
//!
//! What a run does is modelled in [`sim`], and every function of the engine is
//! proved to do that. The laws of the model stand in their own modules: [`outset`],
//! [`progress`] and [`history`] on how a run begins and goes on, [`effects`], [`tending`],
//! [`delivery`] and [`commits`] on all that can happen in it, thing by thing,
//! [`protocol`] on single messages, [`polling`] on what lapses, [`safety`],
//! [`exchange`], [`crossing`] and [`once`] on the promise behind a lease, [`mail`] on what
//! becomes of messages, [`report`] on what the events and the frames tell, [`pacing`] on
//! renews, [`revoking`] on revokes, [`health`] on leases that nothing disturbs, [`cutoff`]
//! on leases that cannot come up, and [`writing`] on writes.

pub mod clock;
pub mod commits;
pub mod content;
pub mod crossing;
pub mod cutoff;
pub mod delivery;
pub mod demos;
pub mod dist;
pub mod effects;
pub mod engine;
pub mod event;
pub mod exchange;
pub mod frame;
pub mod grants;
pub mod health;
pub mod history;
pub mod mail;
pub mod milestone;
pub mod moves;
pub mod once;
pub mod outset;
pub mod pacing;
pub mod playground;
pub mod polling;
pub mod prob;
pub mod progress;
pub mod protocol;
pub mod report;
pub mod revoking;
pub mod rng;
pub mod rounding;
pub mod run;
pub mod safety;
pub mod scenario;
pub mod sim;
pub mod stage;
pub mod tending;
pub mod text;
pub mod timeline;
pub mod topology;
pub mod upkeep;
pub mod walkthrough;
pub mod writing;

pub use clock::{Clock, Time};
pub use dist::Dist;
pub use engine::Engine;
pub use event::{Command, Event, EventKind, LeaseId, LeaseStatus, MsgFate, MsgKind, NodeId};
pub use frame::{Frame, LeaseBar, MsgShape, NodeShape, NodeViz};
pub use rng::Rng;
pub use scenario::{LeaseParams, LinkConfig, NodeConfig, Scenario};
