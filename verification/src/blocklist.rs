//! The blocklist file format: one line per blocked address, written
//! `address=unblockUnixTimestamp`. Decimal printing and parsing, ASCII
//! whitespace and quote trimming, and the parse of one line, each with an
//! exact spec.

use vstd::prelude::*;

verus! {

use crate::scan::{byte_pos, run_end, spec_is_digit, spec_is_ws, ws_end};
use crate::scan::{byte_pos_exec, is_ws, sub_vec, ws_end_exec};

/// The decimal digits of `n`, most significant first.
pub open spec fn dec_str(n: nat) -> Seq<u8>
    decreases n,
{
    if n < 10 {
        seq![(48 + n) as u8]
    } else {
        dec_str(n / 10).push((48 + (n % 10)) as u8)
    }
}

/// The value of a digit string read as a decimal number.
pub open spec fn dec_val(s: Seq<u8>) -> int
    decreases s.len(),
{
    if s.len() == 0 {
        0
    } else {
        dec_val(s.drop_last()) * 10 + (s.last() - 48)
    }
}

pub open spec fn all_digits(s: Seq<u8>) -> bool {
    forall|i: int| 0 <= i < s.len() ==> spec_is_digit(s[i])
}

/// What parsing an unsigned decimal accepts: a nonempty all-digit string
/// whose value fits.
pub open spec fn parse_u64_spec(s: Seq<u8>) -> Option<u64> {
    if s.len() > 0 && all_digits(s) && dec_val(s) <= u64::MAX {
        Some(dec_val(s) as u64)
    } else {
        None
    }
}

pub proof fn lemma_dec_val_nonneg(s: Seq<u8>)
    requires
        all_digits(s),
    ensures
        dec_val(s) >= 0,
    decreases s.len(),
{
    if s.len() > 0 {
        assert(all_digits(s.drop_last())) by {
            assert(forall|i: int|
                0 <= i < s.drop_last().len() ==> s.drop_last()[i] == s[i]);
        }
        lemma_dec_val_nonneg(s.drop_last());
    }
}

/// A digit string is worth at least any of its prefixes.
pub proof fn lemma_dec_val_prefix(s: Seq<u8>, j: int)
    requires
        all_digits(s),
        0 <= j <= s.len(),
    ensures
        dec_val(s.take(j)) <= dec_val(s),
    decreases s.len() - j,
{
    if j == s.len() {
        assert(s.take(j) =~= s);
    } else {
        lemma_dec_val_prefix(s, j + 1);
        assert(s.take(j + 1).drop_last() =~= s.take(j));
        assert(s.take(j + 1).last() == s[j]);
        assert(all_digits(s.take(j))) by {
            assert(forall|i: int| 0 <= i < j ==> s.take(j)[i] == s[i]);
        }
        lemma_dec_val_nonneg(s.take(j));
        assert(dec_val(s.take(j + 1)) == dec_val(s.take(j)) * 10 + (s[j] - 48));
        assert(dec_val(s.take(j)) * 10 >= dec_val(s.take(j))) by {
            lemma_dec_val_nonneg(s.take(j));
        }
    }
}

/// Printing a number yields digits that parse back to it.
pub proof fn lemma_dec_str_val(n: nat)
    ensures
        dec_str(n).len() >= 1,
        all_digits(dec_str(n)),
        dec_val(dec_str(n)) == n,
    decreases n,
{
    if n < 10 {
        let s = dec_str(n);
        assert(s == seq![(48 + n) as u8]);
        assert(s.len() == 1 && s[0] == (48 + n) as u8);
        assert(48 + n < 256);
        assert((48 + n) as u8 == 48 + n);
        assert(s.last() == (48 + n) as u8);
        assert(s.drop_last() =~= Seq::<u8>::empty());
        assert(dec_val(s.drop_last()) == 0);
        assert(dec_val(s) == dec_val(s.drop_last()) * 10 + (s.last() - 48));
    } else {
        lemma_dec_str_val(n / 10);
        let s = dec_str(n);
        let h = dec_str(n / 10);
        assert(s == h.push((48 + (n % 10)) as u8));
        assert(s.drop_last() =~= h);
        assert(s.last() == (48 + (n % 10)) as u8);
        assert(all_digits(s)) by {
            assert(forall|i: int| 0 <= i < h.len() ==> s[i] == h[i]);
        }
        assert(dec_val(s) == dec_val(h) * 10 + (n % 10));
        assert(n == (n / 10) * 10 + (n % 10)) by {
            vstd::arithmetic::div_mod::lemma_fundamental_div_mod(n as int, 10);
        }
    }
}

/// Print `n` in decimal.
pub fn u64_to_dec(n: u64) -> (r: Vec<u8>)
    ensures
        r@ == dec_str(n as nat),
    decreases n,
{
    if n < 10 {
        let mut v: Vec<u8> = Vec::new();
        v.push(48 + (n as u8));
        proof {
            assert(v@ =~= dec_str(n as nat));
        }
        v
    } else {
        let mut v = u64_to_dec(n / 10);
        v.push(48 + ((n % 10) as u8));
        v
    }
}

/// Parse an unsigned decimal, rejecting anything but digits and any value
/// that does not fit.
pub fn parse_u64(s: &[u8]) -> (r: Option<u64>)
    ensures
        r == parse_u64_spec(s@),
{
    let n = s.len();
    if n == 0 {
        return None;
    }
    let mut acc: u64 = 0;
    let mut i: usize = 0;
    proof {
        assert(s@.take(0) =~= Seq::<u8>::empty());
    }
    while i < n
        invariant
            i <= n,
            n == s@.len(),
            all_digits(s@.take(i as int)),
            acc == dec_val(s@.take(i as int)),
        decreases n - i,
    {
        let b = s[i];
        proof {
            assert(s@.take(i + 1) =~= s@.take(i as int).push(b));
            assert(s@.take(i + 1).drop_last() =~= s@.take(i as int));
        }
        if !(48 <= b && b <= 57) {
            assert(!all_digits(s@)) by {
                assert(!spec_is_digit(s@[i as int]));
            }
            return None;
        }
        assert(all_digits(s@.take(i + 1))) by {
            assert(forall|j: int|
                0 <= j < i ==> s@.take(i + 1)[j] == s@.take(i as int)[j]);
        }
        let d = (b - 48) as u64;
        let step = match acc.checked_mul(10) {
            Some(x) => x.checked_add(d),
            None => None,
        };
        match step {
            Some(y) => {
                acc = y;
            },
            None => {
                proof {
                    assert(dec_val(s@.take(i + 1)) == acc * 10 + d);
                    if all_digits(s@) {
                        lemma_dec_val_prefix(s@, i + 1);
                        assert(dec_val(s@) > u64::MAX);
                    }
                }
                return None;
            },
        }
        i = i + 1;
    }
    proof {
        assert(s@.take(n as int) =~= s@);
    }
    Some(acc)
}

/// Trailing whitespace removed.
pub open spec fn trim_end(l: Seq<u8>) -> Seq<u8>
    decreases l.len(),
{
    if l.len() > 0 && spec_is_ws(l.last()) {
        trim_end(l.drop_last())
    } else {
        l
    }
}

/// Leading and trailing whitespace removed.
pub open spec fn trim(l: Seq<u8>) -> Seq<u8> {
    trim_end(l.skip(ws_end(l, 0)))
}

pub fn trim_exec(s: &[u8]) -> (r: Vec<u8>)
    ensures
        r@ == trim(s@),
{
    let a = ws_end_exec(s, 0);
    let mut e: usize = s.len();
    proof {
        assert(s@.skip(a as int) =~= s@.subrange(a as int, s@.len() as int));
    }
    while e > a && is_ws(s[e - 1])
        invariant
            a <= e <= s@.len(),
            trim_end(s@.subrange(a as int, s@.len() as int)) == trim_end(
                s@.subrange(a as int, e as int),
            ),
        decreases e,
    {
        proof {
            assert(s@.subrange(a as int, e as int).drop_last() =~= s@.subrange(
                a as int,
                e - 1,
            ));
            assert(s@.subrange(a as int, e as int).last() == s@[e - 1]);
        }
        e = e - 1;
    }
    proof {
        let sub = s@.subrange(a as int, e as int);
        if e > a {
            assert(sub.last() == s@[e - 1]);
            assert(!spec_is_ws(sub.last()));
        }
        assert(trim_end(sub) == sub);
    }
    sub_vec(s, a, e)
}

/// A quote byte.
pub open spec fn qb() -> u8 {
    34
}

/// Trailing quotes removed.
pub open spec fn trim_q_end(l: Seq<u8>) -> Seq<u8>
    decreases l.len(),
{
    if l.len() > 0 && l.last() == qb() {
        trim_q_end(l.drop_last())
    } else {
        l
    }
}

/// Leading and trailing quote characters removed.
pub open spec fn trim_quotes(l: Seq<u8>) -> Seq<u8> {
    trim_q_end(l.skip(run_end(l, 0, |b: u8| b == qb())))
}

pub fn trim_quotes_exec(s: &[u8]) -> (r: Vec<u8>)
    ensures
        r@ == trim_quotes(s@),
{
    let mut a: usize = 0;
    while a < s.len() && s[a] == 34
        invariant
            a <= s@.len(),
            run_end(s@, 0, |b: u8| b == qb()) == run_end(s@, a as int, |b: u8| b == qb()),
        decreases s@.len() - a,
    {
        a = a + 1;
    }
    let mut e: usize = s.len();
    proof {
        assert(s@.skip(a as int) =~= s@.subrange(a as int, s@.len() as int));
    }
    while e > a && s[e - 1] == 34
        invariant
            a <= e <= s@.len(),
            trim_q_end(s@.subrange(a as int, s@.len() as int)) == trim_q_end(
                s@.subrange(a as int, e as int),
            ),
        decreases e,
    {
        proof {
            assert(s@.subrange(a as int, e as int).drop_last() =~= s@.subrange(
                a as int,
                e - 1,
            ));
            assert(s@.subrange(a as int, e as int).last() == s@[e - 1]);
        }
        e = e - 1;
    }
    proof {
        let sub = s@.subrange(a as int, e as int);
        if e > a {
            assert(sub.last() == s@[e - 1]);
        }
        assert(trim_q_end(sub) == sub);
    }
    sub_vec(s, a, e)
}

/// What one blocklist line means: the part before the first `=` is the
/// address (whitespace-trimmed); the rest, trimmed of whitespace and
/// quotes, must parse as the unblock timestamp. A line without `=` or
/// without a valid number carries nothing.
pub open spec fn parse_line_spec(l: Seq<u8>) -> Option<(Seq<u8>, u64)> {
    let e = byte_pos(l, 61);
    if e == l.len() {
        None
    } else {
        let ip = trim(l.take(e));
        let v = trim_quotes(trim(l.skip(e + 1)));
        match parse_u64_spec(v) {
            Some(ts) => Some((ip, ts)),
            None => None,
        }
    }
}

pub fn parse_blocklist_line(l: &[u8]) -> (r: Option<(Vec<u8>, u64)>)
    ensures
        r is Some <==> parse_line_spec(l@) is Some,
        r matches Some(p) ==> (parse_line_spec(l@) matches Some(q) && p.0@ == q.0 && p.1 == q.1),
{
    let e = byte_pos_exec(l, 61);
    if e == l.len() {
        return None;
    }
    proof {
        crate::scan::lemma_run_end(l@, 0, |x: u8| x != 61);
    }
    let ip_part = vstd::slice::slice_subrange(l, 0, e);
    proof {
        assert(ip_part@ =~= l@.take(e as int));
    }
    let ip = trim_exec(ip_part);
    let v_part = vstd::slice::slice_subrange(l, e + 1, l.len());
    proof {
        assert(v_part@ =~= l@.skip(e + 1));
    }
    let t1 = trim_exec(v_part);
    let t2 = trim_quotes_exec(t1.as_slice());
    match parse_u64(t2.as_slice()) {
        Some(ts) => Some((ip, ts)),
        None => None,
    }
}

/// One line of the blocklist file for one entry.
pub open spec fn encode_entry(e: (Seq<u8>, u64)) -> Seq<u8> {
    e.0 + seq![61u8] + dec_str(e.1 as nat) + seq![10u8]
}

/// The whole blocklist file: entries in order, one line each.
pub open spec fn encode_blocks(bs: Seq<(Seq<u8>, u64)>) -> Seq<u8>
    decreases bs.len(),
{
    if bs.len() == 0 {
        Seq::empty()
    } else {
        encode_entry(bs[0]) + encode_blocks(bs.drop_first())
    }
}

pub proof fn lemma_encode_push(bs: Seq<(Seq<u8>, u64)>, e: (Seq<u8>, u64))
    ensures
        encode_blocks(bs.push(e)) == encode_blocks(bs) + encode_entry(e),
    decreases bs.len(),
{
    let p = bs.push(e);
    if bs.len() == 0 {
        assert(p[0] == e);
        assert(p.drop_first() =~= Seq::<(Seq<u8>, u64)>::empty());
        assert(encode_blocks(p.drop_first()) == Seq::<u8>::empty());
        assert(encode_blocks(p) == encode_entry(e) + Seq::<u8>::empty());
        assert(encode_entry(e) + Seq::<u8>::empty() =~= encode_entry(e));
        assert(encode_blocks(bs) == Seq::<u8>::empty());
        assert(encode_blocks(bs) + encode_entry(e) =~= encode_entry(e));
    } else {
        assert(p[0] == bs[0]);
        assert(p.drop_first() =~= bs.drop_first().push(e));
        lemma_encode_push(bs.drop_first(), e);
        assert(encode_blocks(p) == encode_entry(bs[0]) + encode_blocks(p.drop_first()));
        assert(encode_blocks(p.drop_first()) == encode_blocks(bs.drop_first()) + encode_entry(e));
        assert(encode_entry(bs[0]) + (encode_blocks(bs.drop_first()) + encode_entry(e)) =~= (
        encode_entry(bs[0]) + encode_blocks(bs.drop_first())) + encode_entry(e));
        assert(encode_blocks(bs) == encode_entry(bs[0]) + encode_blocks(bs.drop_first()));
    }
}

/// An address that the file format carries faithfully: no whitespace and
/// no `=` among its bytes.
pub open spec fn valid_addr(a: Seq<u8>) -> bool {
    forall|i: int| 0 <= i < a.len() ==> !spec_is_ws(a[i]) && a[i] != 61
}

/// An entry's line without its terminator.
pub open spec fn line_body(e: (Seq<u8>, u64)) -> Seq<u8> {
    e.0 + seq![61u8] + dec_str(e.1 as nat)
}

/// Trimming does nothing to a string with no whitespace.
pub proof fn lemma_trim_id(a: Seq<u8>)
    requires
        forall|i: int| 0 <= i < a.len() ==> !spec_is_ws(a[i]),
    ensures
        trim(a) == a,
{
    crate::scan::lemma_run_end(a, 0, |b: u8| spec_is_ws(b));
    let w = ws_end(a, 0);
    if w > 0 {
        assert(spec_is_ws(a[0]));
    }
    assert(w == 0);
    assert(a.skip(0) =~= a);
    if a.len() > 0 {
        assert(!spec_is_ws(a.last()));
    }
    assert(trim_end(a) == a);
}

/// Quote-trimming does nothing to an all-digit string.
pub proof fn lemma_trim_quotes_digits(a: Seq<u8>)
    requires
        all_digits(a),
    ensures
        trim_quotes(a) == a,
{
    crate::scan::lemma_run_end(a, 0, |b: u8| b == qb());
    let w = run_end(a, 0, |b: u8| b == qb());
    if w > 0 {
        assert(a[0] == qb());
        assert(spec_is_digit(a[0]));
    }
    assert(w == 0);
    assert(a.skip(0) =~= a);
    if a.len() > 0 {
        assert(spec_is_digit(a.last()));
        assert(a.last() != qb());
    }
    assert(trim_q_end(a) == a);
}

/// An entry's own line parses back to the entry.
pub proof fn lemma_parse_line_body(e: (Seq<u8>, u64))
    requires
        valid_addr(e.0),
    ensures
        parse_line_spec(line_body(e)) == Some((e.0, e.1)),
{
    let l = line_body(e);
    let d = dec_str(e.1 as nat);
    lemma_dec_str_val(e.1 as nat);
    let n0 = e.0.len() as int;
    assert forall|i: int| 0 <= i < n0 implies l[i] != 61 by {
        assert(l[i] == e.0[i]);
    }
    assert(l[n0] == 61);
    crate::scan::lemma_byte_pos_at(l, 61, n0);
    assert(byte_pos(l, 61) == n0);
    assert(l.take(n0) =~= e.0);
    lemma_trim_id(e.0);
    assert(l.skip(n0 + 1) =~= d);
    assert forall|i: int| 0 <= i < d.len() implies !spec_is_ws(d[i]) by {
        assert(spec_is_digit(d[i]));
    }
    lemma_trim_id(d);
    lemma_trim_quotes_digits(d);
    assert(parse_u64_spec(d) == Some(e.1)) by {
        assert(dec_val(d) == e.1);
    }
}

/// The lines of an encoded blocklist are exactly the entries' line bodies.
pub proof fn lemma_lines_of_encode(bs: Seq<(Seq<u8>, u64)>)
    requires
        forall|i: int| 0 <= i < bs.len() ==> valid_addr(#[trigger] bs[i].0),
    ensures
        crate::reader::all_lines(encode_blocks(bs)) == bs.map_values(
            |e: (Seq<u8>, u64)| line_body(e),
        ),
    decreases bs.len(),
{
    let d = encode_blocks(bs);
    lemma_encode_complete(bs);
    assert(crate::reader::complete_len(d) == d.len());
    if bs.len() == 0 {
        assert(d.len() == 0);
        assert(bs.map_values(|e: (Seq<u8>, u64)| line_body(e)) =~= Seq::<Seq<u8>>::empty());
    } else {
        let e0 = bs[0];
        let body = line_body(e0);
        let rest = encode_blocks(bs.drop_first());
        assert(d == encode_entry(e0) + rest);
        assert(d =~= body + seq![10u8] + rest);
        lemma_dec_str_val(e0.1 as nat);
        assert forall|i: int| 0 <= i < body.len() implies body[i] != 10 by {
            if i < e0.0.len() {
                assert(body[i] == e0.0[i]);
                assert(!spec_is_ws(e0.0[i]));
            } else if i == e0.0.len() {
                assert(body[i] == 61);
            } else {
                assert(body[i] == dec_str(e0.1 as nat)[i - e0.0.len() - 1]);
                assert(spec_is_digit(body[i]));
            }
        }
        assert(d[body.len() as int] == 10);
        assert forall|i: int| 0 <= i < body.len() implies d[i] == body[i] by {}
        crate::reader::lemma_first_nl_at(d, body.len() as int);
        assert(d.len() > 0);
        assert(crate::reader::split_lines(d) == crate::reader::split_lines(
            d.subrange(body.len() as int + 1, d.len() as int),
        ).insert(0, crate::reader::strip_cr(d.subrange(0, body.len() as int))));
        assert(d.subrange(0, body.len() as int) =~= body);
        assert(d.subrange(body.len() as int + 1, d.len() as int) =~= rest);
        assert(crate::reader::strip_cr(body) == body) by {
            assert(body.len() > 0);
            assert(spec_is_digit(body.last())) by {
                let dd = dec_str(e0.1 as nat);
                assert(body.last() == dd[dd.len() - 1]);
            }
        }
        assert forall|i: int| 0 <= i < bs.drop_first().len() implies valid_addr(
            #[trigger] bs.drop_first()[i].0,
        ) by {
            assert(bs.drop_first()[i] == bs[i + 1]);
        }
        lemma_lines_of_encode(bs.drop_first());
        assert(crate::reader::all_lines(rest) == crate::reader::split_lines(rest)) by {
            lemma_encode_complete(bs.drop_first());
            assert(crate::reader::complete_len(rest) == rest.len());
        }
        assert(crate::reader::split_lines(rest) == bs.drop_first().map_values(
            |e: (Seq<u8>, u64)| line_body(e),
        ));
        assert(crate::reader::split_lines(d) =~= bs.map_values(
            |e: (Seq<u8>, u64)| line_body(e),
        ));
    }
}

/// An encoded blocklist is empty or ends with a line terminator.
pub proof fn lemma_encode_complete(bs: Seq<(Seq<u8>, u64)>)
    ensures
        encode_blocks(bs).len() == 0 || encode_blocks(bs).last() == 10,
    decreases bs.len(),
{
    if bs.len() > 0 {
        let d = encode_blocks(bs);
        let rest = encode_blocks(bs.drop_first());
        lemma_encode_complete(bs.drop_first());
        assert(d == encode_entry(bs[0]) + rest);
        if rest.len() == 0 {
            assert(d =~= encode_entry(bs[0]));
            assert(encode_entry(bs[0]).last() == 10);
        } else {
            assert(d.last() == rest.last());
        }
    }
}

/// Print one entry's line.
pub fn encode_entry_exec(ip: &[u8], until: u64) -> (r: Vec<u8>)
    ensures
        r@ == encode_entry((ip@, until)),
{
    let mut r = crate::scan::clone_bytes(ip);
    r.push(61);
    let mut d = u64_to_dec(until);
    r.append(&mut d);
    r.push(10);
    proof {
        assert(r@ =~= encode_entry((ip@, until)));
    }
    r
}

} // verus!
