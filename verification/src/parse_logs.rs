//! Line parsers for the two log formats.
//!
//! The web-access parser recognizes the structured form of an access-log
//! line — client, two ident fields, a bracketed timestamp, a quoted
//! request with method and target, a status and a size — and extracts the
//! client address and the request target. A line outside that form still
//! yields its first whitespace-delimited token as the address with the
//! target marked malformed, itself a classification signal; only a line
//! with no leading token at all is a parse failure.
//!
//! The authentication parser accepts only daemon lines and recognizes the
//! two abuse signals verbatim, taking the address from the ` from `
//! token that follows the signal phrase.

use vstd::prelude::*;

verus! {

use crate::scan::{
    byte_pos, byte_pos_exec, clone_bytes, contains_lit, contains_pat, digit_end, digit_end_exec,
    find_pat, lemma_find_pat_absent, lemma_find_pat_at, find_lit, lit_at, pat, run_end,
    spec_is_ws, sub_vec, token_end, token_end_exec, ws_end, ws_end_exec,
};
use vstd::string::StringSliceAdditionalSpecFns;

/// A classified log event: the byte strings it carries are slices of the
/// line it was parsed from.
#[derive(Debug, PartialEq, Eq)]
pub enum Log {
    Apache { ip: Vec<u8>, path: Vec<u8> },
    Ssh { ip: Vec<u8>, msg: Vec<u8> },
}

/// The mathematical shape of a log event.
pub enum LogV {
    Apache { ip: Seq<u8>, path: Seq<u8> },
    Ssh { ip: Seq<u8>, msg: Seq<u8> },
}

impl View for Log {
    type V = LogV;

    open spec fn view(&self) -> LogV {
        match self {
            Log::Apache { ip, path } => LogV::Apache { ip: ip@, path: path@ },
            Log::Ssh { ip, msg } => LogV::Ssh { ip: ip@, msg: msg@ },
        }
    }
}

pub open spec fn view_opt(r: Option<Log>) -> Option<LogV> {
    match r {
        Some(l) => Some(l@),
        None => None,
    }
}

/// End of the maximal run of request-target bytes from `i`: neither
/// whitespace nor a quote.
pub open spec fn path_end(s: Seq<u8>, i: int) -> int {
    run_end(s, i, |x: u8| !spec_is_ws(x) && x != 34)
}

fn path_end_exec(s: &[u8], i: usize) -> (r: usize)
    requires
        i <= s@.len(),
    ensures
        r == path_end(s@, i as int),
        i <= r <= s@.len(),
{
    let mut j: usize = i;
    while j < s.len() && !crate::scan::is_ws(s[j]) && s[j] != 34
        invariant
            i <= j <= s@.len(),
            path_end(s@, i as int) == path_end(s@, j as int),
        decreases s@.len() - j,
    {
        j = j + 1;
    }
    j
}

/// The structured form of a web-access line: where the client token ends
/// and where the request target sits. `None` when the line is not in the
/// structured form.
pub open spec fn apache_fields(b: Seq<u8>) -> Option<(int, int, int)> {
    let t1 = token_end(b, 0);
    let t2 = token_end(b, t1 + 1);
    let t3 = token_end(b, t2 + 1);
    if !(t1 > 0 && t1 < b.len() && b[t1] == 32) {
        None
    } else if !(t2 > t1 + 1 && t2 < b.len() && b[t2] == 32) {
        None
    } else if !(t3 > t2 + 1 && t3 < b.len() && b[t3] == 32) {
        None
    } else if !(t3 + 1 < b.len() && b[t3 + 1] == 91) {
        None
    } else {
        let q = t3 + 2 + byte_pos(b.skip(t3 + 2), 93);
        if !(q + 2 < b.len() && b[q] == 93 && b[q + 1] == 32 && b[q + 2] == 34) {
            None
        } else {
            let m = token_end(b, q + 3);
            if !(m > q + 3 && m < b.len() && b[m] == 32) {
                None
            } else {
                let p0 = m + 1;
                let pe = path_end(b, p0);
                let qq = pe + byte_pos(b.skip(pe), 34);
                if !(pe > p0 && qq + 1 < b.len() && b[qq] == 34 && b[qq + 1] == 32) {
                    None
                } else {
                    let d1 = digit_end(b, qq + 2);
                    let d2 = digit_end(b, d1 + 1);
                    if !(d1 > qq + 2 && d1 < b.len() && b[d1] == 32) {
                        None
                    } else if !(d2 > d1 + 1 && d2 < b.len() && b[d2] == 32) {
                        None
                    } else {
                        Some((t1, p0, pe))
                    }
                }
            }
        }
    }
}

/// What parsing a web-access line yields: the structured fields, or the
/// degraded form with the first token as the address and the target
/// marked malformed, or nothing when no token exists.
pub open spec fn parse_apache_spec(b: Seq<u8>) -> Option<LogV> {
    match apache_fields(b) {
        Some(f) => Some(LogV::Apache { ip: b.take(f.0), path: b.subrange(f.1, f.2) }),
        None => {
            let w = ws_end(b, 0);
            if w == b.len() {
                None
            } else {
                Some(
                    LogV::Apache {
                        ip: b.subrange(w, token_end(b, w)),
                        path: pat("<malformed>"),
                    },
                )
            }
        },
    }
}

fn apache_fields_exec(b: &[u8]) -> (r: Option<(usize, usize, usize)>)
    ensures
        (match (r, apache_fields(b@)) {
            (Some(t), Some(f)) => t.0 == f.0 && t.1 == f.1 && t.2 == f.2 && t.0 <= b@.len()
                && t.1 <= t.2 <= b@.len(),
            (None, None) => true,
            _ => false,
        }),
{
    let n = b.len();
    let t1 = token_end_exec(b, 0);
    if !(t1 > 0 && t1 < n && b[t1] == 32) {
        return None;
    }
    let t2 = token_end_exec(b, t1 + 1);
    if !(t2 > t1 + 1 && t2 < n && b[t2] == 32) {
        return None;
    }
    let t3 = token_end_exec(b, t2 + 1);
    if !(t3 > t2 + 1 && t3 < n && b[t3] == 32) {
        return None;
    }
    if !(t3 + 1 < n && b[t3 + 1] == 91) {
        return None;
    }
    let brest = vstd::slice::slice_subrange(b, t3 + 2, n);
    proof {
        assert(brest@ =~= b@.skip(t3 + 2));
    }
    let q = t3 + 2 + byte_pos_exec(brest, 93);
    if !(q < n && q + 1 < n && q + 2 < n && b[q] == 93 && b[q + 1] == 32 && b[q + 2] == 34) {
        return None;
    }
    let m = token_end_exec(b, q + 3);
    if !(m > q + 3 && m < n && b[m] == 32) {
        return None;
    }
    let p0 = m + 1;
    let pe = path_end_exec(b, p0);
    let prest = vstd::slice::slice_subrange(b, pe, n);
    proof {
        assert(prest@ =~= b@.skip(pe as int));
    }
    let qq = pe + byte_pos_exec(prest, 34);
    if !(pe > p0 && qq < n && qq + 1 < n && b[qq] == 34 && b[qq + 1] == 32) {
        return None;
    }
    let d1 = digit_end_exec(b, qq + 2);
    if !(d1 > qq + 2 && d1 < n && b[d1] == 32) {
        return None;
    }
    let d2 = digit_end_exec(b, d1 + 1);
    if !(d2 > d1 + 1 && d2 < n && b[d2] == 32) {
        return None;
    }
    Some((t1, p0, pe))
}

/// Parse one web-access line.
pub fn parse_apache(line: &str) -> (r: Option<Log>)
    ensures
        view_opt(r) == parse_apache_spec(line.spec_bytes()),
{
    let b = line.as_bytes();
    match apache_fields_exec(b) {
        Some(t) => {
            let (t1, p0, pe) = t;
            Some(Log::Apache { ip: sub_vec(b, 0, t1), path: sub_vec(b, p0, pe) })
        },
        None => {
            let w = ws_end_exec(b, 0);
            if w == b.len() {
                None
            } else {
                let te = token_end_exec(b, w);
                Some(
                    Log::Apache {
                        ip: sub_vec(b, w, te),
                        path: clone_bytes("<malformed>".as_bytes()),
                    },
                )
            }
        },
    }
}

/// The address an authentication line names: the bytes between the first
/// ` from ` token and the next space.
pub open spec fn ssh_extract(b: Seq<u8>) -> Option<Seq<u8>> {
    let f = find_pat(b, pat(" from "));
    if f < 0 {
        None
    } else {
        let r0 = f + pat(" from ").len();
        let sp = r0 + byte_pos(b.skip(r0), 32);
        if sp < b.len() {
            Some(b.subrange(r0, sp))
        } else {
            None
        }
    }
}

/// What parsing an authentication line yields: an event only for daemon
/// lines that carry one of the two abuse signals and name an address;
/// anything else is no event.
pub open spec fn parse_ssh_spec(b: Seq<u8>) -> Option<LogV> {
    if !contains_pat(b, pat("sshd")) {
        None
    } else {
        match ssh_extract(b) {
            Some(ip) => if contains_pat(b, pat("Failed password")) {
                Some(LogV::Ssh { ip, msg: pat("Failed password") })
            } else if contains_pat(b, pat("Invalid user")) {
                Some(LogV::Ssh { ip, msg: pat("Invalid user") })
            } else {
                None
            },
            None => None,
        }
    }
}

/// Parse one authentication line.
pub fn parse_ssh(line: &str) -> (r: Option<Log>)
    ensures
        view_opt(r) == parse_ssh_spec(line.spec_bytes()),
{
    let b = line.as_bytes();
    if !contains_lit(b, "sshd") {
        return None;
    }
    match find_lit(b, " from ") {
        None => {
            proof {
                lemma_find_pat_absent(b@, pat(" from "));
            }
            None
        },
        Some(f) => {
            proof {
                lemma_find_pat_at(b@, pat(" from "), f as int);
            }
            let n = b.len();
            assert(f + pat(" from ").len() <= n);
            let r0 = f + " from ".len();
            let rest = vstd::slice::slice_subrange(b, r0, n);
            proof {
                assert(rest@ =~= b@.skip(r0 as int));
            }
            let sp = r0 + byte_pos_exec(rest, 32);
            if sp < n {
                let ip = sub_vec(b, r0, sp);
                if contains_lit(b, "Failed password") {
                    Some(Log::Ssh { ip, msg: clone_bytes("Failed password".as_bytes()) })
                } else if contains_lit(b, "Invalid user") {
                    Some(Log::Ssh { ip, msg: clone_bytes("Invalid user".as_bytes()) })
                } else {
                    None
                }
            } else {
                None
            }
        },
    }
}

} // verus!
