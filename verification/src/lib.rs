//! Calendar-pattern scheduling and a crash-safe durable store for a lecture
//! cancellation notifier, together with the pure parsing and formatting
//! logic the notifier needs: notices (kind, date, periods, title, lecturer),
//! their text formats, and the subscription bookkeeping.

pub mod config;
pub mod dates;
pub mod notices;
pub mod schedule;
pub mod scraper;
pub mod store;
pub mod text;
pub mod util;

pub use notices::{
    dec_chars, dec_string, digit_char, groups_chars, has_u8, kyuko_eq, opt_string_eq,
    periods_chars, push_dec, sorted_strict_u8, Kyuko, Periods,
};
