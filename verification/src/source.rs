//! Which log format a watched path carries, and the per-format dispatch
//! to its parse and classification pair. The variant set is closed: the
//! authentication log is recognized by its fixed path, every other
//! watched file is a web-access log.

use vstd::prelude::*;

verus! {

use crate::parse_logs::{parse_apache, parse_ssh, parse_apache_spec, parse_ssh_spec, Log, view_opt, LogV};
use crate::rules::{is_bad_apache, is_bad_ssh, spec_is_bad_apache, spec_is_bad_ssh};
use crate::scan::{bytes_eq, pat};
use vstd::string::StringSliceAdditionalSpecFns;
use vstd::utf8::encode_utf8;

/// One watched log file and the format of its lines.
#[derive(Debug, Clone)]
pub enum LogSource {
    Apache(String),
    Ssh(String),
}

impl LogSource {
    pub open spec fn is_ssh_source(&self) -> bool {
        matches!(self, LogSource::Ssh(_))
    }

    /// The bytes of the watched path.
    pub open spec fn path_bytes(&self) -> Seq<u8> {
        match self {
            LogSource::Apache(p) => encode_utf8(p@),
            LogSource::Ssh(p) => encode_utf8(p@),
        }
    }

    /// Classify a path: the system authentication log is the one
    /// authentication source; everything else is a web-access log.
    pub fn from_path(path: &str) -> (r: LogSource)
        ensures
            r.path_bytes() == path.spec_bytes(),
            r.is_ssh_source() == (path.spec_bytes() == pat("/var/log/auth.log")),
    {
        if bytes_eq(path.as_bytes(), "/var/log/auth.log".as_bytes()) {
            LogSource::Ssh(path.to_owned())
        } else {
            LogSource::Apache(path.to_owned())
        }
    }

    pub fn path(&self) -> (r: &str)
        ensures
            r.spec_bytes() == self.path_bytes(),
    {
        match self {
            LogSource::Apache(p) => p.as_str(),
            LogSource::Ssh(p) => p.as_str(),
        }
    }

    /// The tag this source puts in front of diagnostic messages.
    pub fn prefix(&self) -> (r: &'static str)
        ensures
            self.is_ssh_source() ==> r@ == "SSH"@,
            !self.is_ssh_source() ==> r@ == "APACHE"@,
    {
        match self {
            LogSource::Apache(_) => "APACHE",
            LogSource::Ssh(_) => "SSH",
        }
    }

    /// Parse one line in this source's format.
    pub fn parse(&self, line: &str) -> (r: Option<Log>)
        ensures
            self.is_ssh_source() ==> view_opt(r) == parse_ssh_spec(line.spec_bytes()),
            !self.is_ssh_source() ==> view_opt(r) == parse_apache_spec(line.spec_bytes()),
    {
        match self {
            LogSource::Apache(_) => parse_apache(line),
            LogSource::Ssh(_) => parse_ssh(line),
        }
    }

    /// Classify the extracted target or message in this source's format.
    pub fn is_bad(&self, msg: &str) -> (r: bool)
        ensures
            self.is_ssh_source() ==> r == spec_is_bad_ssh(msg.spec_bytes()),
            !self.is_ssh_source() ==> r == spec_is_bad_apache(msg.spec_bytes()),
    {
        match self {
            LogSource::Apache(_) => is_bad_apache(msg),
            LogSource::Ssh(_) => is_bad_ssh(msg),
        }
    }
}

} // verus!
