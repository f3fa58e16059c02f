//! The core of a review client for Anki collections on the reMarkable Paper Pro.
//!
//! Everything here computes on plain values: the session and its screens, the
//! whiteboard and its ink, gestures and pen events, the messages to the panel
//! server, the HTML around cards, formulas, and what the deck list and the review
//! log say. Sockets, files, rendering and the collection itself are left to the
//! program around it.
//!
//! - [`session`] decides what a touch does; [`ui`] knows where the buttons are.
//! - [`whiteboard`], [`ink`] and [`compose`] paint, on the buffers of [`frame`].
//! - [`chrome`] and [`backend`] write HTML; [`mathrender`], [`raster`] and
//!   [`data_uri`] turn formulas into images.
//! - [`decks`] lists decks, and [`backend`] judges statistics and syncs.
//! - [`pen`], [`gesture`] and [`qtfb`] read and write what the devices speak.
//! - [`text`] has what all of them need of strings.

pub mod backend;
pub mod chrome;
pub mod compose;
pub mod data_uri;
pub mod decks;
pub mod frame;
pub mod gesture;
pub mod ink;
pub mod mathrender;
pub mod pen;
pub mod qtfb;
pub mod raster;
pub mod session;
pub mod text;
pub mod ui;
pub mod whiteboard;
