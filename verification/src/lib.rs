//! Verified core of a small date-countdown suite: a calendar model, the
//! countdown rules of a chat bot, the routing and JSON rendering of a
//! dates HTTP service, and the display helpers of a dates web page.

pub mod api;
pub mod bot;
pub mod calendar;
pub mod clock;
pub mod dates;
pub mod manager;
pub mod text;
