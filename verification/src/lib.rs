//! Verified core of a Google Calendar meeting reminder daemon: the rules that
//! decide which meetings count, when to remind and when to open a join link,
//! how the OAuth redirect is read and when the access token is renewed.

pub mod auth;
pub mod calendar;
pub mod cli;
pub mod daemon;
pub mod next;
pub mod notify;
pub mod text;
pub mod time;
