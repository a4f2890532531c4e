//! Shortcut-driven screen magnification: the compilation of textual shortcut
//! descriptions into input-event matchers, the zoom state machine with its
//! dead-zone viewport transform, and the dispatch of hotkey and pointer events.
//!
//! Zoom factors are held in thousandths (`1000` is the unmagnified screen) and
//! times in milliseconds, so that every rule is stated over integers.
//!
//! The library decides and the host acts. The host reads the configuration
//! into a [`RawConfig`], compiles it with [`Config::new`], binds the keys that
//! [`Config::hotkeys`] lists and hands the table to an [`Engine`]. From then on
//! it passes every hotkey and pointer event, with the time, to
//! [`Engine::dispatch`] and does what the [`Reaction`] says: pass the event on
//! or consume it, queue a trigger, stop, or compute the viewport with
//! [`Magnifier::update`] and show it.

pub mod combination;
pub mod config;
pub mod dispatch;
pub mod error;
pub mod magnifier;
pub mod raw;

pub use combination::{Button, Combination, Modifiers};
pub use config::{Action, Config, Hotkey, Shortcut};
pub use dispatch::{Engine, Event, PointerMessage, Reaction};
pub use error::{ConfigError, ErrorKind};
pub use magnifier::{Effect, Magnifier, Transform};
pub use raw::{RawConfig, RawShortcut};
