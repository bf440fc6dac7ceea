//! Byte-level scanning primitives shared by the line parsers and the abuse
//! rule set: literal matching, first-occurrence search, character classes,
//! maximal runs and ASCII lowercasing, each proved against a spec function.

use vstd::prelude::*;

verus! {

use vstd::string::StringSliceAdditionalSpecFns;

/// ASCII whitespace, the separator class used by the log-line grammars.
pub open spec fn spec_is_ws(b: u8) -> bool {
    b == 32 || b == 9 || b == 10 || b == 13 || b == 11 || b == 12
}

pub fn is_ws(b: u8) -> (r: bool)
    ensures
        r == spec_is_ws(b),
{
    b == 32 || b == 9 || b == 10 || b == 13 || b == 11 || b == 12
}

/// A word character in the boundary sense: letters, digits, underscore.
pub open spec fn spec_is_word(b: u8) -> bool {
    (97 <= b <= 122) || (65 <= b <= 90) || (48 <= b <= 57) || b == 95
}

pub fn is_word(b: u8) -> (r: bool)
    ensures
        r == spec_is_word(b),
{
    (97 <= b && b <= 122) || (65 <= b && b <= 90) || (48 <= b && b <= 57) || b == 95
}

pub open spec fn spec_is_digit(b: u8) -> bool {
    48 <= b <= 57
}

pub fn is_digit(b: u8) -> (r: bool)
    ensures
        r == spec_is_digit(b),
{
    48 <= b && b <= 57
}

/// The run class of a rule suffix: letters, digits, underscore or hyphen.
pub open spec fn spec_is_ext(b: u8) -> bool {
    spec_is_word(b) || b == 45
}

pub fn is_ext(b: u8) -> (r: bool)
    ensures
        r == spec_is_ext(b),
{
    is_word(b) || b == 45
}

pub open spec fn lower_byte(b: u8) -> u8 {
    if 65 <= b <= 90 {
        (b + 32) as u8
    } else {
        b
    }
}

pub open spec fn lower_bytes(s: Seq<u8>) -> Seq<u8> {
    s.map_values(|b: u8| lower_byte(b))
}

/// ASCII-lowercase a byte string.
pub fn to_lower(s: &[u8]) -> (r: Vec<u8>)
    ensures
        r@ == lower_bytes(s@),
{
    let mut r: Vec<u8> = Vec::new();
    let mut i: usize = 0;
    while i < s.len()
        invariant
            i <= s@.len(),
            r@ == lower_bytes(s@.take(i as int)),
        decreases s@.len() - i,
    {
        let b = s[i];
        if 65 <= b && b <= 90 {
            r.push(b + 32);
        } else {
            r.push(b);
        }
        assert(s@.take(i + 1) =~= s@.take(i as int).push(s@[i as int]));
        assert(lower_bytes(s@.take(i + 1)) =~= lower_bytes(s@.take(i as int)).push(
            lower_byte(s@[i as int]),
        ));
        i = i + 1;
    }
    assert(s@.take(s@.len() as int) =~= s@);
    r
}

/// The literal `pat` occurs in `s` starting at position `i`.
pub open spec fn lit_at(s: Seq<u8>, i: int, pat: Seq<u8>) -> bool {
    &&& 0 <= i
    &&& i + pat.len() <= s.len()
    &&& s.subrange(i, i + pat.len()) == pat
}

/// The bytes of a pattern written as a string literal.
pub open spec fn pat(p: &str) -> Seq<u8> {
    p.spec_bytes()
}

pub fn bytes_eq(a: &[u8], b: &[u8]) -> (r: bool)
    ensures
        r == (a@ == b@),
{
    if a.len() != b.len() {
        assert(a@ != b@);
        return false;
    }
    let mut i: usize = 0;
    while i < a.len()
        invariant
            a@.len() == b@.len(),
            i <= a@.len(),
            forall|j: int| 0 <= j < i ==> a@[j] == b@[j],
        decreases a@.len() - i,
    {
        if a[i] != b[i] {
            return false;
        }
        i = i + 1;
    }
    assert(a@ =~= b@);
    true
}

/// Does `pat` occur in `s` at position `i`?
pub fn lit_at_exec(s: &[u8], i: usize, p: &str) -> (r: bool)
    ensures
        r == lit_at(s@, i as int, pat(p)),
{
    let pb = p.as_bytes();
    if i > s.len() || pb.len() > s.len() - i {
        return false;
    }
    let mut j: usize = 0;
    while j < pb.len()
        invariant
            i + pb@.len() <= s@.len(),
            s@.len() <= usize::MAX,
            j <= pb@.len(),
            pb@ == pat(p),
            forall|k: int| 0 <= k < j ==> s@[i + k] == pb@[k],
        decreases pb@.len() - j,
    {
        if s[i + j] != pb[j] {
            assert(s@.subrange(i as int, i + pb@.len())[j as int] != pb@[j as int]);
            return false;
        }
        j = j + 1;
    }
    assert(s@.subrange(i as int, i + pb@.len()) =~= pb@);
    true
}

/// `pat` occurs somewhere in `s`.
pub open spec fn contains_pat(s: Seq<u8>, p: Seq<u8>) -> bool {
    exists|i: int| lit_at(s, i, p)
}

pub fn contains_lit(s: &[u8], p: &str) -> (r: bool)
    ensures
        r == contains_pat(s@, pat(p)),
{
    match find_lit(s, p) {
        Some(_) => true,
        None => false,
    }
}

pub fn find_lit(s: &[u8], p: &str) -> (r: Option<usize>)
    ensures
        match r {
            Some(i) => lit_at(s@, i as int, pat(p)) && (forall|j: int|
                0 <= j < i ==> !lit_at(s@, j, pat(p))),
            None => !contains_pat(s@, pat(p)),
        },
{
    let mut i: usize = 0;
    loop
        invariant
            i <= s@.len(),
            forall|j: int| 0 <= j < i ==> !lit_at(s@, j, pat(p)),
        decreases s@.len() - i,
    {
        if lit_at_exec(s, i, p) {
            return Some(i);
        }
        if i == s.len() {
            assert(forall|j: int| j > s@.len() ==> !lit_at(s@, j, pat(p)));
            return None;
        }
        i = i + 1;
    }
}

/// The end of the maximal run of bytes satisfying `cls` that starts at `i`.
pub open spec fn run_end(s: Seq<u8>, i: int, cls: spec_fn(u8) -> bool) -> int
    decreases s.len() - i,
{
    if i < 0 {
        i
    } else if i < s.len() && cls(s[i]) {
        run_end(s, i + 1, cls)
    } else {
        i
    }
}

pub proof fn lemma_run_end(s: Seq<u8>, i: int, cls: spec_fn(u8) -> bool)
    requires
        0 <= i <= s.len(),
    ensures
        i <= run_end(s, i, cls) <= s.len(),
        forall|j: int| i <= j < run_end(s, i, cls) ==> cls(s[j]),
        run_end(s, i, cls) < s.len() ==> !cls(s[run_end(s, i, cls)]),
    decreases s.len() - i,
{
    if i < s.len() && cls(s[i]) {
        lemma_run_end(s, i + 1, cls);
    }
}

/// End of the maximal whitespace run from `i`.
pub open spec fn ws_end(s: Seq<u8>, i: int) -> int {
    run_end(s, i, |b: u8| spec_is_ws(b))
}

/// End of the maximal non-whitespace run from `i`.
pub open spec fn token_end(s: Seq<u8>, i: int) -> int {
    run_end(s, i, |b: u8| !spec_is_ws(b))
}

/// End of the maximal digit run from `i`.
pub open spec fn digit_end(s: Seq<u8>, i: int) -> int {
    run_end(s, i, |b: u8| spec_is_digit(b))
}

/// End of the maximal run of word/hyphen bytes from `i`.
pub open spec fn ext_end(s: Seq<u8>, i: int) -> int {
    run_end(s, i, |b: u8| spec_is_ext(b))
}

pub fn ws_end_exec(s: &[u8], i: usize) -> (r: usize)
    requires
        i <= s@.len(),
    ensures
        r == ws_end(s@, i as int),
        i <= r <= s@.len(),
{
    let mut j: usize = i;
    while j < s.len() && is_ws(s[j])
        invariant
            i <= j <= s@.len(),
            ws_end(s@, i as int) == ws_end(s@, j as int),
        decreases s@.len() - j,
    {
        j = j + 1;
    }
    j
}

pub fn token_end_exec(s: &[u8], i: usize) -> (r: usize)
    requires
        i <= s@.len(),
    ensures
        r == token_end(s@, i as int),
        i <= r <= s@.len(),
{
    let mut j: usize = i;
    while j < s.len() && !is_ws(s[j])
        invariant
            i <= j <= s@.len(),
            token_end(s@, i as int) == token_end(s@, j as int),
        decreases s@.len() - j,
    {
        j = j + 1;
    }
    j
}

pub fn digit_end_exec(s: &[u8], i: usize) -> (r: usize)
    requires
        i <= s@.len(),
    ensures
        r == digit_end(s@, i as int),
        i <= r <= s@.len(),
{
    let mut j: usize = i;
    while j < s.len() && is_digit(s[j])
        invariant
            i <= j <= s@.len(),
            digit_end(s@, i as int) == digit_end(s@, j as int),
        decreases s@.len() - j,
    {
        j = j + 1;
    }
    j
}

pub fn ext_end_exec(s: &[u8], i: usize) -> (r: usize)
    requires
        i <= s@.len(),
    ensures
        r == ext_end(s@, i as int),
        i <= r <= s@.len(),
{
    let mut j: usize = i;
    while j < s.len() && is_ext(s[j])
        invariant
            i <= j <= s@.len(),
            ext_end(s@, i as int) == ext_end(s@, j as int),
        decreases s@.len() - j,
    {
        j = j + 1;
    }
    j
}

/// Copy `s[i..j]` into a fresh vector.
pub fn sub_vec(s: &[u8], i: usize, j: usize) -> (r: Vec<u8>)
    requires
        i <= j <= s@.len(),
    ensures
        r@ == s@.subrange(i as int, j as int),
{
    let mut r: Vec<u8> = Vec::new();
    let mut k: usize = i;
    while k < j
        invariant
            i <= k <= j <= s@.len(),
            r@ == s@.subrange(i as int, k as int),
        decreases j - k,
    {
        r.push(s[k]);
        assert(s@.subrange(i as int, k + 1) =~= s@.subrange(i as int, k as int).push(
            s@[k as int],
        ));
        k = k + 1;
    }
    r
}

} // verus!

verus! {

/// Position of the first occurrence of `p` in `s`, or `-1` if none.
pub open spec fn find_pat(s: Seq<u8>, p: Seq<u8>) -> int
    decreases s.len(),
{
    if lit_at(s, 0, p) {
        0
    } else if s.len() == 0 {
        -1
    } else {
        let r = find_pat(s.drop_first(), p);
        if r < 0 {
            -1
        } else {
            1 + r
        }
    }
}

pub proof fn lemma_find_pat_at(s: Seq<u8>, p: Seq<u8>, j: int)
    requires
        lit_at(s, j, p),
        forall|i: int| 0 <= i < j ==> !lit_at(s, i, p),
    ensures
        find_pat(s, p) == j,
    decreases s.len(),
{
    if j == 0 {
    } else {
        assert(!lit_at(s, 0, p));
        assert(s.len() > 0);
        let t = s.drop_first();
        assert(lit_at(t, j - 1, p)) by {
            assert(t.subrange(j - 1, j - 1 + p.len() as int) =~= s.subrange(
                j,
                j + p.len() as int,
            ));
        }
        assert forall|i: int| 0 <= i < j - 1 implies !lit_at(t, i, p) by {
            if lit_at(t, i, p) {
                assert(s.subrange(i + 1, i + 1 + p.len() as int) =~= t.subrange(
                    i,
                    i + p.len() as int,
                ));
                assert(lit_at(s, i + 1, p));
            }
        }
        lemma_find_pat_at(t, p, j - 1);
    }
}

pub proof fn lemma_find_pat_absent(s: Seq<u8>, p: Seq<u8>)
    requires
        !contains_pat(s, p),
    ensures
        find_pat(s, p) == -1,
    decreases s.len(),
{
    assert(!lit_at(s, 0, p));
    if s.len() > 0 {
        let t = s.drop_first();
        assert(!contains_pat(t, p)) by {
            if contains_pat(t, p) {
                let i = choose|i: int| lit_at(t, i, p);
                assert(s.subrange(i + 1, i + 1 + p.len() as int) =~= t.subrange(
                    i,
                    i + p.len() as int,
                ));
                assert(lit_at(s, i + 1, p));
            }
        }
        lemma_find_pat_absent(t, p);
    }
}

/// Position of the first occurrence of byte `b` in `s`, or `s.len()`.
pub open spec fn byte_pos(s: Seq<u8>, b: u8) -> int
    decreases s.len(),
{
    if s.len() == 0 {
        0
    } else if s[0] == b {
        0
    } else {
        1 + byte_pos(s.drop_first(), b)
    }
}

pub proof fn lemma_byte_pos(s: Seq<u8>, b: u8)
    ensures
        0 <= byte_pos(s, b) <= s.len(),
        forall|i: int| 0 <= i < byte_pos(s, b) ==> s[i] != b,
        byte_pos(s, b) < s.len() ==> s[byte_pos(s, b)] == b,
    decreases s.len(),
{
    if s.len() > 0 && s[0] != b {
        let t = s.drop_first();
        lemma_byte_pos(t, b);
        assert(forall|i: int| 0 <= i < t.len() ==> t[i] == s[i + 1]);
        assert forall|i: int| 0 <= i < byte_pos(s, b) implies s[i] != b by {
            if i > 0 {
                assert(t[i - 1] != b);
                assert(s[i] == t[i - 1]);
            }
        }
    }
}

pub proof fn lemma_byte_pos_at(s: Seq<u8>, b: u8, j: int)
    requires
        0 <= j <= s.len(),
        forall|i: int| 0 <= i < j ==> s[i] != b,
        j < s.len() ==> s[j] == b,
    ensures
        byte_pos(s, b) == j,
    decreases s.len(),
{
    if s.len() > 0 && s[0] != b {
        assert(j > 0);
        let t = s.drop_first();
        assert(forall|i: int| 0 <= i < t.len() ==> t[i] == s[i + 1]);
        lemma_byte_pos_at(t, b, j - 1);
    }
}

pub fn byte_pos_exec(s: &[u8], b: u8) -> (r: usize)
    ensures
        r == byte_pos(s@, b),
        r <= s@.len(),
{
    let mut j: usize = 0;
    while j < s.len() && s[j] != b
        invariant
            j <= s@.len(),
            forall|i: int| 0 <= i < j ==> s@[i] != b,
        decreases s@.len() - j,
    {
        j = j + 1;
    }
    proof {
        lemma_byte_pos_at(s@, b, j as int);
    }
    j
}

/// Copy a byte slice into an owned vector.
pub fn clone_bytes(s: &[u8]) -> (r: Vec<u8>)
    ensures
        r@ == s@,
{
    vstd::slice::slice_to_vec(s)
}

} // verus!
