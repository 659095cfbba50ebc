//! Tracks a family of files that recur, under date-stamped names, across
//! monthly (or daily) directory snapshots.  A path template containing the
//! placeholders `{yyyy}`, `{mm}` and `{dd}` is resolved into concrete
//! per-period directories; the files found there are normalized so that the
//! date-derived substrings of their names become placeholders again, which
//! yields a cross-period identity key; records sharing a key are grouped
//! into per-identity time series.

pub mod chars;
pub mod collect;
pub mod digits;
pub mod discover;
pub mod group;
pub mod ident;
pub mod normalize;
pub mod pattern;
pub mod period;
pub mod replace;
pub mod stamp;
pub mod template;

pub use collect::{FileInfo, RawEntry, build_record, collect_records};
pub use discover::{DiscoverError, discover_periods, period_from_captures};
pub use group::{IdentityGroup, group_records};
pub use ident::{sanitize_id, sanitize_id_base};
pub use normalize::{normalize_filename, normalize_rel_path};
pub use pattern::{build_period_pattern, discovery_plan};
pub use period::{Period, parse_iso_date, sort_periods};
pub use stamp::{CivilTime, datetime_str_to_iso8601_jst, format_minute, round_up_minute};
pub use template::resolve_template;
