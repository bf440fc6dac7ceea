//! An intrusion-prevention core: it turns freshly appended log bytes into
//! lines, classifies each line as benign or hostile, counts hostile events
//! per network address over a sliding window, and maintains a time-bounded
//! blocklist that can be persisted and reloaded.
//!
//! Everything that decides — parsing, classification, window accounting,
//! blocklist expiry, the persistence format, rotation detection — lives here
//! and is verified. File handles, process spawning and change notification
//! stay with the embedding program, which feeds plain values in and carries
//! the returned actions out.

pub mod scan;

pub mod table;

pub mod reader;

pub mod guard;

pub mod blocklist;

pub mod rules;

pub mod parse_logs;

pub mod source;

pub mod clock;

pub use guard::Action;
pub use guard::GuardTracker;
pub use parse_logs::Log;
pub use parse_logs::parse_apache;
pub use parse_logs::parse_ssh;
pub use reader::TailReader;
pub use rules::is_bad_apache;
pub use rules::is_bad_ssh;
pub use source::LogSource;
