//! Relative volume changes: a change expression such as `+0.1` or `-5%` is
//! parsed into a [`Change`], applied to the current volume, and the outcome
//! is clamped to the allowed range and rounded to hundredths.
//!
//! All quantities are exact decimals ([`Decimal`]): a mantissa and a count of
//! fractional digits. The [`backend`] module reads volumes from what the
//! audio-control tools print, and writes the arguments they take.
pub mod decimal;
pub mod numeral;
pub mod change;
pub mod volume;
pub mod backend;

pub use decimal::Decimal;
pub use change::{Change, ParseError};
pub use volume::{clamp_round, new_volume, MAX_VOLUME_HUNDREDTHS};
pub use backend::{
    QueryError,
    pactl_volume_text,
    volume_from_pactl_number,
    volume_from_pactl_output,
    volume_from_wpctl_output,
    wpctl_volume_text,
};
