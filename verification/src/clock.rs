//! Timestamp rendering for the diagnostic log: a Unix time becomes a
//! `YYYY-MM-DD HH:MM:SS` line prefix. The calendar breakdown itself comes
//! from an outside library through one trusted call; the formatting of
//! the components is verified exactly.

use vstd::prelude::*;

verus! {

/// The civil calendar breakdown of a Unix timestamp in UTC, as the
/// outside library computes it: year, month, day, hour, minute, second.
pub uninterp spec fn civil_of(secs: u64) -> Seq<int>;

/// Relies on time::OffsetDateTime::from_unix_timestamp and its component
/// accessors year, month, day, hour, minute and second: the breakdown in
/// UTC depends on the timestamp alone; each component is documented to
/// lie in its calendar range; and every timestamp up to the end of year
/// 9999 converts successfully.
#[verifier::external_body]
fn civil_from_unix(secs: u64) -> (r: Option<(i32, u8, u8, u8, u8, u8)>)
    ensures
        (r matches Some(c) ==> civil_of(secs) == seq![
            c.0 as int,
            c.1 as int,
            c.2 as int,
            c.3 as int,
            c.4 as int,
            c.5 as int,
        ]),
        (r matches Some(c) ==> 1970 <= c.0 <= 9999 && 1 <= c.1 <= 12 && 1 <= c.2 <= 31 && c.3
            < 24 && c.4 < 60 && c.5 < 60),
        secs <= 253402300799 ==> r is Some,
{
    let signed = match i64::try_from(secs) {
        Ok(v) => v,
        Err(_) => return None,
    };
    match time::OffsetDateTime::from_unix_timestamp(signed) {
        Ok(t) => Some((t.year(), t.month() as u8, t.day(), t.hour(), t.minute(), t.second())),
        Err(_) => None,
    }
}

pub open spec fn digit_char(d: int) -> char {
    if d == 0 {
        '0'
    } else if d == 1 {
        '1'
    } else if d == 2 {
        '2'
    } else if d == 3 {
        '3'
    } else if d == 4 {
        '4'
    } else if d == 5 {
        '5'
    } else if d == 6 {
        '6'
    } else if d == 7 {
        '7'
    } else if d == 8 {
        '8'
    } else {
        '9'
    }
}

/// Two decimal digits, zero-padded.
pub open spec fn pad2(n: int) -> Seq<char> {
    seq![digit_char(n / 10 % 10), digit_char(n % 10)]
}

/// Four decimal digits, zero-padded.
pub open spec fn pad4(n: int) -> Seq<char> {
    seq![digit_char(n / 1000 % 10), digit_char(n / 100 % 10), digit_char(n / 10 % 10), digit_char(
        n % 10,
    )]
}

/// The rendered form of a calendar breakdown.
pub open spec fn civil_chars(y: int, mo: int, d: int, h: int, mi: int, s: int) -> Seq<char> {
    pad4(y) + seq!['-'] + pad2(mo) + seq!['-'] + pad2(d) + seq![' '] + pad2(h) + seq![':'] + pad2(
        mi,
    ) + seq![':'] + pad2(s)
}

/// The rendered form of the breakdown sequence a timestamp yields.
pub open spec fn civil_string(c: Seq<int>) -> Seq<char> {
    civil_chars(c[0], c[1], c[2], c[3], c[4], c[5])
}

fn digit_str(d: u8) -> (r: &'static str)
    requires
        d < 10,
    ensures
        r@ == seq![digit_char(d as int)],
{
    let r: &'static str = match d {
        0 => "0",
        1 => "1",
        2 => "2",
        3 => "3",
        4 => "4",
        5 => "5",
        6 => "6",
        7 => "7",
        8 => "8",
        _ => "9",
    };
    proof {
        reveal_strlit("0");
        reveal_strlit("1");
        reveal_strlit("2");
        reveal_strlit("3");
        reveal_strlit("4");
        reveal_strlit("5");
        reveal_strlit("6");
        reveal_strlit("7");
        reveal_strlit("8");
        reveal_strlit("9");
        assert(r@ =~= seq![digit_char(d as int)]);
    }
    r
}

fn push_pad2(out: &mut String, n: u8)
    requires
        n < 100,
    ensures
        final(out)@ == old(out)@ + pad2(n as int),
{
    out.append(digit_str(n / 10));
    out.append(digit_str(n % 10));
    proof {
        assert(n as int / 10 % 10 == n as int / 10);
        assert(old(out)@ + seq![digit_char(n as int / 10)] + seq![digit_char(n as int % 10)]
            =~= old(out)@ + pad2(n as int));
    }
}

fn push_pad4(out: &mut String, n: u16)
    requires
        n < 10000,
    ensures
        final(out)@ == old(out)@ + pad4(n as int),
{
    out.append(digit_str(((n / 1000) % 10) as u8));
    out.append(digit_str(((n / 100) % 10) as u8));
    out.append(digit_str(((n / 10) % 10) as u8));
    out.append(digit_str((n % 10) as u8));
    proof {
        assert(old(out)@ + seq![digit_char(n as int / 1000 % 10)] + seq![
            digit_char(n as int / 100 % 10),
        ] + seq![digit_char(n as int / 10 % 10)] + seq![digit_char(n as int % 10)] =~= old(out)@
            + pad4(n as int));
    }
}

/// Render a calendar breakdown as `YYYY-MM-DD HH:MM:SS`.
pub fn format_civil(y: u16, mo: u8, d: u8, h: u8, mi: u8, s: u8) -> (r: String)
    requires
        y < 10000,
        mo < 100,
        d < 100,
        h < 100,
        mi < 100,
        s < 100,
    ensures
        r@ == civil_chars(y as int, mo as int, d as int, h as int, mi as int, s as int),
{
    let mut out = String::new();
    push_pad4(&mut out, y);
    out.append("-");
    push_pad2(&mut out, mo);
    out.append("-");
    push_pad2(&mut out, d);
    out.append(" ");
    push_pad2(&mut out, h);
    out.append(":");
    push_pad2(&mut out, mi);
    out.append(":");
    push_pad2(&mut out, s);
    proof {
        reveal_strlit("-");
        reveal_strlit(" ");
        reveal_strlit(":");
        assert(out@ =~= civil_chars(y as int, mo as int, d as int, h as int, mi as int, s as int));
    }
    out
}

/// Render the timestamp a Unix time denotes. Any representable clock
/// reading renders exactly; a reading past year 9999 falls back to the
/// epoch rendering.
pub fn format_unix(secs: u64) -> (r: String)
    ensures
        secs <= 253402300799 ==> r@ == civil_string(civil_of(secs)),
        r@ == civil_string(civil_of(secs)) || r@ == civil_chars(1970, 1, 1, 0, 0, 0),
{
    match civil_from_unix(secs) {
        Some(c) => {
            let (y, mo, d, h, mi, s) = c;
            let r = format_civil(y as u16, mo, d, h, mi, s);
            proof {
                assert(civil_string(civil_of(secs)) == civil_chars(
                    y as int,
                    mo as int,
                    d as int,
                    h as int,
                    mi as int,
                    s as int,
                ));
            }
            r
        },
        None => format_civil(1970, 1, 1, 0, 0, 0),
    }
}

/// One diagnostic log line: the rendered timestamp in brackets, the
/// message, and a line terminator.
pub fn log_line(secs: u64, msg: &str) -> (r: String)
    ensures
        (secs <= 253402300799 ==> r@ == "["@ + civil_string(civil_of(secs)) + "] "@ + msg@
            + "\n"@),
        (exists|ts: Seq<char>|
            (ts == civil_string(civil_of(secs)) || ts == civil_chars(1970, 1, 1, 0, 0, 0)) && r@
                == "["@ + ts + "] "@ + msg@ + "\n"@),
{
    let ts = format_unix(secs);
    let mut out = String::new();
    out.append("[");
    out.append(ts.as_str());
    out.append("] ");
    out.append(msg);
    out.append("\n");
    proof {
        let tsv = ts@;
        assert(out@ =~= "["@ + tsv + "] "@ + msg@ + "\n"@);
        assert((tsv == civil_string(civil_of(secs)) || tsv == civil_chars(1970, 1, 1, 0, 0, 0))
            && out@ == "["@ + tsv + "] "@ + msg@ + "\n"@);
    }
    out
}

} // verus!
