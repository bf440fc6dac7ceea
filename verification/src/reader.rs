//! Rotation-safe incremental consumption of an append-only file.
//!
//! The reader keeps only plain state: the byte offset already consumed and
//! the identity (inode-equivalent) of the file it was reading. The embedding
//! program stats and reads the file and hands the bytes in; the decisions —
//! when to reset after rotation or truncation, which bytes form complete
//! lines, how far the offset may advance — are made and proved here.
//!
//! A trailing line with no terminator is not delivered and the offset stays
//! pinned to its start, so the bytes are seen again once the line completes.

use vstd::prelude::*;

verus! {

use crate::scan::run_end;

/// Bytes of a line terminator.
pub open spec fn nl() -> u8 {
    10
}

pub open spec fn cr() -> u8 {
    13
}

/// Length of the complete region of `d`: everything up to and including the
/// last line terminator (0 when `d` holds no terminator).
pub open spec fn complete_len(d: Seq<u8>) -> int
    decreases d.len(),
{
    if d.len() == 0 {
        0
    } else if d.last() == nl() {
        d.len() as int
    } else {
        complete_len(d.drop_last())
    }
}

/// A line with its terminator removed, dropping one trailing carriage return.
pub open spec fn strip_cr(l: Seq<u8>) -> Seq<u8> {
    if l.len() > 0 && l.last() == cr() {
        l.drop_last()
    } else {
        l
    }
}

/// First position of a line terminator in `c`, or `c.len()` if none.
pub open spec fn first_nl(c: Seq<u8>) -> int {
    run_end(c, 0, |b: u8| b != nl())
}

/// `c` consists of whole lines: it is empty or ends with a terminator.
pub open spec fn is_complete(c: Seq<u8>) -> bool {
    c.len() == 0 || c.last() == nl()
}

/// The lines of a complete region, in order, without their terminators.
pub open spec fn split_lines(c: Seq<u8>) -> Seq<Seq<u8>>
    decreases c.len(),
{
    if c.len() == 0 {
        Seq::empty()
    } else {
        let e = first_nl(c);
        if 0 <= e < c.len() {
            split_lines(c.subrange(e + 1, c.len() as int)).insert(
                0,
                strip_cr(c.subrange(0, e)),
            )
        } else {
            seq![strip_cr(c)]
        }
    }
}

/// `complete_len` is the unique cut that sits right after a terminator and
/// has no terminator after it.
proof fn lemma_complete_len_unique(d: Seq<u8>, c: int)
    requires
        0 <= c <= d.len(),
        c == 0 || d[c - 1] == nl(),
        forall|j: int| c <= j < d.len() ==> d[j] != nl(),
    ensures
        complete_len(d) == c,
    decreases d.len(),
{
    if d.len() == 0 {
    } else if d.last() == nl() {
        if c < d.len() {
            assert(d[d.len() - 1] != nl());
        }
    } else {
        assert(c < d.len());
        lemma_complete_len_unique(d.drop_last(), c);
    }
}

/// Extending a sequence beyond an interior stop point of a run does not move
/// the run's end.
proof fn lemma_run_end_extend(c: Seq<u8>, x: Seq<u8>, cls: spec_fn(u8) -> bool, i: int)
    requires
        0 <= i <= c.len(),
        run_end(c, i, cls) < c.len(),
    ensures
        run_end(c + x, i, cls) == run_end(c, i, cls),
    decreases c.len() - i,
{
    crate::scan::lemma_run_end(c, i, cls);
    if i < c.len() && cls(c[i]) {
        assert((c + x)[i] == c[i]);
        lemma_run_end_extend(c, x, cls, i + 1);
    } else {
        assert(!cls((c + x)[i]));
    }
}

/// Appending one more terminated line to a complete region appends one more
/// entry to its split.
proof fn lemma_split_append(c: Seq<u8>, line: Seq<u8>)
    requires
        is_complete(c),
        forall|j: int| 0 <= j < line.len() ==> line[j] != nl(),
    ensures
        split_lines(c + line.push(nl())) == split_lines(c).push(strip_cr(line)),
    decreases c.len(),
{
    let w = line.push(nl());
    let t = c + w;
    if c.len() == 0 {
        assert(t =~= w);
        assert(first_nl(w) == line.len()) by {
            crate::scan::lemma_run_end(w, 0, |b: u8| b != nl());
            let e = run_end(w, 0, |b: u8| b != nl());
            assert(w[line.len() as int] == nl());
            assert(e <= line.len());
            if e < line.len() {
                assert(w[e] == line[e]);
            }
        }
        let e = first_nl(w);
        assert(0 <= e < w.len());
        let sub = w.subrange(e + 1, w.len() as int);
        assert(sub =~= Seq::<u8>::empty());
        assert(split_lines(sub) =~= Seq::<Seq<u8>>::empty());
        assert(w.subrange(0, e) =~= line);
        assert(split_lines(w) == split_lines(sub).insert(0, strip_cr(w.subrange(0, e))));
        assert(split_lines(w) =~= seq![strip_cr(line)]);
        assert(split_lines(c) =~= Seq::<Seq<u8>>::empty());
        assert(split_lines(c).push(strip_cr(line)) =~= seq![strip_cr(line)]);
    } else {
        let e = first_nl(c);
        assert(c.last() == nl());
        crate::scan::lemma_run_end(c, 0, |b: u8| b != nl());
        assert(e < c.len()) by {
            if e == c.len() {
                assert(c[c.len() - 1] != nl());
            }
        }
        lemma_run_end_extend(c, w, |b: u8| b != nl(), 0);
        assert(first_nl(t) == e);
        assert(t.subrange(0, e) =~= c.subrange(0, e));
        let crest = c.subrange(e + 1, c.len() as int);
        assert(t.subrange(e + 1, t.len() as int) =~= crest + w);
        assert(is_complete(crest)) by {
            if crest.len() > 0 {
                assert(crest.last() == c.last());
            }
        }
        lemma_split_append(crest, line);
        assert(split_lines(t) == split_lines(crest + w).insert(0, strip_cr(c.subrange(0, e))));
        assert(split_lines(crest).push(strip_cr(line)).insert(0, strip_cr(c.subrange(0, e)))
            =~= split_lines(crest).insert(0, strip_cr(c.subrange(0, e))).push(strip_cr(line)));
    }
}

/// Pin down `first_nl` from the bytes themselves.
pub proof fn lemma_first_nl_at(c: Seq<u8>, j: int)
    requires
        0 <= j <= c.len(),
        forall|i: int| 0 <= i < j ==> c[i] != nl(),
        j < c.len() ==> c[j] == nl(),
    ensures
        first_nl(c) == j,
{
    crate::scan::lemma_run_end(c, 0, |b: u8| b != nl());
    let e = first_nl(c);
    if e < j {
        assert(c[e] != nl());
    }
    if j < e {
        assert(c[j] != nl());
    }
}

/// Every line of `d`, including a trailing unterminated one: what reading
/// a whole file line by line yields. Terminated lines lose their
/// terminator and one trailing carriage return; a trailing line without a
/// terminator is taken as it stands.
pub open spec fn all_lines(d: Seq<u8>) -> Seq<Seq<u8>> {
    let c = complete_len(d);
    if c == d.len() {
        split_lines(d)
    } else {
        split_lines(d.take(c)).push(d.skip(c))
    }
}

/// Split a whole buffer into its lines, as `all_lines` describes.
pub fn split_all(data: &[u8]) -> (lines: Vec<Vec<u8>>)
    ensures
        lines@.map_values(|l: Vec<u8>| l@) == all_lines(data@),
{
    let mut lines: Vec<Vec<u8>> = Vec::new();
    let n = data.len();
    let mut start: usize = 0;
    let mut i: usize = 0;
    proof {
        assert(data@.take(0) =~= Seq::<u8>::empty());
        assert(lines@.map_values(|l: Vec<u8>| l@) =~= Seq::<Seq<u8>>::empty());
    }
    while i < n
        invariant
            n == data@.len(),
            n <= usize::MAX,
            start <= i <= data@.len(),
            start == 0 || data@[start - 1] == nl(),
            forall|j: int| start <= j < i ==> data@[j] != nl(),
            is_complete(data@.take(start as int)),
            lines@.map_values(|l: Vec<u8>| l@) == split_lines(data@.take(start as int)),
        decreases data@.len() - i,
    {
        if data[i] == 10 {
            let mut line = crate::scan::sub_vec(data, start, i);
            if line.len() > 0 && line[line.len() - 1] == 13 {
                let ghost before = line@;
                line.pop();
                assert(line@ =~= before.drop_last());
            }
            let ghost old_lines = lines@;
            proof {
                let c = data@.take(start as int);
                let raw = data@.subrange(start as int, i as int);
                lemma_split_append(c, raw);
                assert(c + raw.push(nl()) =~= data@.take(i + 1));
                assert(line@ == strip_cr(raw));
            }
            lines.push(line);
            start = i + 1;
            proof {
                assert(lines@ == old_lines.push(line));
                assert(lines@.map_values(|l: Vec<u8>| l@) =~= old_lines.map_values(
                    |l: Vec<u8>| l@,
                ).push(line@));
            }
        }
        i = i + 1;
    }
    proof {
        lemma_complete_len_unique(data@, start as int);
    }
    if start < n {
        let tail = crate::scan::sub_vec(data, start, n);
        let ghost old_lines = lines@;
        proof {
            assert(tail@ =~= data@.skip(start as int));
        }
        lines.push(tail);
        proof {
            assert(lines@ == old_lines.push(tail));
            assert(lines@.map_values(|l: Vec<u8>| l@) =~= old_lines.map_values(
                |l: Vec<u8>| l@,
            ).push(tail@));
        }
    } else {
        proof {
            assert(data@.take(start as int) =~= data@);
        }
    }
    lines
}

/// Incremental reading state for one watched file.
pub struct TailReader {
    offset: u64,
    identity: u64,
}

impl TailReader {
    /// The byte offset already consumed.
    pub closed spec fn spec_offset(self) -> u64 {
        self.offset
    }

    /// The identity of the file the offset refers to.
    pub closed spec fn spec_identity(self) -> u64 {
        self.identity
    }

    /// Start tailing a file that currently has the given identity and size.
    /// Historical content is not delivered: consumption starts at end of
    /// file.
    pub fn new(identity: u64, size: u64) -> (r: TailReader)
        ensures
            r.spec_offset() == size,
            r.spec_identity() == identity,
    {
        TailReader { offset: size, identity }
    }

    /// The file at the watched path was observed with this identity and
    /// size. Detects replacement (identity change) and truncation (size
    /// below the consumed offset) and resets; returns the offset the next
    /// read must start from, and whether a reset happened.
    pub fn prepare_read(&mut self, identity: u64, size: u64) -> (r: (u64, bool))
        ensures
            r.1 == (identity != old(self).spec_identity() || size < old(self).spec_offset()),
            final(self).spec_identity() == identity,
            final(self).spec_offset() == if r.1 {
                0u64
            } else {
                old(self).spec_offset()
            },
            r.0 == final(self).spec_offset(),
    {
        let rotated = identity != self.identity || size < self.offset;
        if rotated {
            self.offset = 0;
        }
        self.identity = identity;
        (self.offset, rotated)
    }

    /// Consume the bytes `data`, read from the file starting at the consumed
    /// offset. Returns every complete line in order, terminators removed and
    /// one trailing carriage return per line dropped; the offset advances to
    /// just past the last terminator, so a trailing partial line is neither
    /// delivered nor skipped.
    pub fn consume(&mut self, data: &[u8]) -> (lines: Vec<Vec<u8>>)
        requires
            old(self).spec_offset() + data@.len() <= u64::MAX,
        ensures
            final(self).spec_identity() == old(self).spec_identity(),
            final(self).spec_offset() == old(self).spec_offset() + complete_len(data@),
            lines@.map_values(|l: Vec<u8>| l@) == split_lines(data@.take(complete_len(data@))),
    {
        let mut lines: Vec<Vec<u8>> = Vec::new();
        let n = data.len();
        let mut start: usize = 0;
        let mut i: usize = 0;
        proof {
            assert(data@.take(0) =~= Seq::<u8>::empty());
            assert(lines@.map_values(|l: Vec<u8>| l@) =~= Seq::<Seq<u8>>::empty());
        }
        while i < n
            invariant
                n == data@.len(),
                n <= usize::MAX,
                start <= i <= data@.len(),
                start == 0 || data@[start - 1] == nl(),
                forall|j: int| start <= j < i ==> data@[j] != nl(),
                is_complete(data@.take(start as int)),
                lines@.map_values(|l: Vec<u8>| l@) == split_lines(data@.take(start as int)),
            decreases data@.len() - i,
        {
            if data[i] == 10 {
                let mut line = crate::scan::sub_vec(data, start, i);
                if line.len() > 0 && line[line.len() - 1] == 13 {
                    let ghost before = line@;
                    line.pop();
                    assert(line@ =~= before.drop_last());
                }
                let ghost old_lines = lines@;
                proof {
                    let c = data@.take(start as int);
                    let raw = data@.subrange(start as int, i as int);
                    lemma_split_append(c, raw);
                    assert(c + raw.push(nl()) =~= data@.take(i + 1));
                    assert(line@ == strip_cr(raw));
                }
                lines.push(line);
                start = i + 1;
                proof {
                    assert(lines@ == old_lines.push(line));
                    assert(lines@.map_values(|l: Vec<u8>| l@) =~= old_lines.map_values(
                        |l: Vec<u8>| l@,
                    ).push(line@));
                }
            }
            i = i + 1;
        }
        proof {
            lemma_complete_len_unique(data@, start as int);
        }
        self.offset = self.offset + (start as u64);
        lines
    }
}

} // verus!
