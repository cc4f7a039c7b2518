//! The logic of a controller overlay: a layout of buttons, sticks and gauges, what a controller
//! reports for them, and how that becomes an image, a stream of images for a browser, or the
//! state of a controller skin.
//!
//! - [`scalar`] and [`arith`] are single-precision arithmetic on bit patterns, [`text`] is text.
//! - [`layout`] is what there is to draw, [`origin`] where a minimized layout comes to lie,
//!   [`gamepad`] ties a layout to a source of reports, and [`xinput`] is one such source.
//! - [`live`] shows a layout that was read again.
//! - [`render`] says what an image shows and [`label`] where the text of a button goes; [`canvas`]
//!   holds the pixels.
//! - [`web`] decides what clients are sent, with [`skin`], [`page`] and [`pages`] for the contents.
//! - [`cli`] and [`watch`] are for the program around it: its arguments, its choice of a
//!   controller, and when it reads its layout again.
//!
//! What all of this comes to is stated in modules of laws, by numbers, places and texts:
//!
//! - [`precision`] says how far arithmetic can be off.
//! - [`reach`] and [`fitting`] are about what a layout covers, [`drawn`] about what is drawn for each
//!   of its items, and [`lettered`] about the text of its buttons.
//! - [`reported`] is about what a controller's reports mean, and [`told`] about what an event of the
//!   skin view says of them.
//! - [`served`] and [`spelled`] are about what clients get, [`flags`] and [`chosen`] about what a
//!   command line and an entered id ask for.

pub mod arith;
pub mod canvas;
pub mod chosen;
pub mod cli;
pub mod drawn;
pub mod fitting;
pub mod flags;
pub mod gamepad;
pub mod label;
pub mod layout;
pub mod lettered;
pub mod live;
pub mod origin;
pub mod page;
pub mod pages;
pub mod precision;
pub mod reach;
pub mod render;
pub mod reported;
pub mod scalar;
pub mod served;
pub mod skin;
pub mod spelled;
pub mod text;
pub mod told;
pub mod watch;
pub mod web;
pub mod xinput;
