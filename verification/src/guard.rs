//! The attempt tracker and blocklist: per-address sliding-window counters,
//! the active blocklist with absolute expiry instants, and the enforcement
//! actions the embedding program must carry out.
//!
//! Every operation takes the current time as a plain seconds value and is
//! specified as a pure transition on the tracker's model: the association
//! sequences of windows and block entries plus the queue of pending ban and
//! unban actions. Enforcement itself (packet-filter commands) and file
//! writes happen outside; this module only decides.

use vstd::prelude::*;

verus! {

use crate::blocklist::parse_blocklist_line;
use crate::table::{distinct_keys, has_key, keep, lookup, remove_key, upsert};
use crate::table::{
    lemma_keep_push, lemma_lookup_absent, lemma_lookup_at, lemma_remove_key_absent,
    lemma_remove_key_at, lemma_remove_key_distinct, lemma_upsert_absent, lemma_upsert_at,
    lemma_upsert_distinct,
};

/// An enforcement step owed to the packet filter.
#[derive(Debug, PartialEq, Eq)]
pub enum Action {
    Ban(Vec<u8>),
    Unban(Vec<u8>),
}

impl View for Action {
    type V = (bool, Seq<u8>);

    open spec fn view(&self) -> (bool, Seq<u8>) {
        match self {
            Action::Ban(ip) => (true, ip@),
            Action::Unban(ip) => (false, ip@),
        }
    }
}

pub struct AttemptEntry {
    pub ip: Vec<u8>,
    pub times: Vec<u64>,
}

pub struct BlockEntry {
    pub ip: Vec<u8>,
    pub until: u64,
}

/// The tracker's mathematical state.
#[verifier::ext_equal]
pub struct TrackerModel {
    /// Address -> timestamps of recent abusive events, insertion order.
    pub attempts: Seq<(Seq<u8>, Seq<u64>)>,
    /// Address -> absolute unblock instant.
    pub blocks: Seq<(Seq<u8>, u64)>,
    /// Enforcement actions decided but not yet taken out: `true` is a ban.
    pub pending: Seq<(bool, Seq<u8>)>,
    pub threshold: u64,
    pub window: u64,
    pub block_duration: u64,
}

impl TrackerModel {
    pub open spec fn wf(self) -> bool {
        distinct_keys(self.attempts) && distinct_keys(self.blocks)
    }

    /// The address is blocked at `now`: its entry expires later than `now`.
    pub open spec fn blocked_at(self, ip: Seq<u8>, now: u64) -> bool {
        match lookup(self.blocks, ip) {
            Some(u) => now < u,
            None => false,
        }
    }

    pub open spec fn window_of(self, ip: Seq<u8>) -> Seq<u64> {
        match lookup(self.attempts, ip) {
            Some(ts) => ts,
            None => Seq::empty(),
        }
    }
}

/// A timestamp still counts at `now` under window length `w`.
pub open spec fn in_window(t: u64, now: u64, w: u64) -> bool {
    now <= t + w
}

/// Drop the timestamps that have aged out.
pub open spec fn prune(ts: Seq<u64>, now: u64, w: u64) -> Seq<u64> {
    keep(ts, |t: u64| in_window(t, now, w))
}

/// The window the address holds right after an attempt at `now` is
/// recorded: the fresh timestamp appended, stale ones dropped.
pub open spec fn window_after(m: TrackerModel, ip: Seq<u8>, now: u64) -> Seq<u64> {
    prune(m.window_of(ip).push(now), now, m.window)
}

/// An attempt at `now` makes the address reach the block threshold.
pub open spec fn triggers(m: TrackerModel, ip: Seq<u8>, now: u64) -> bool {
    window_after(m, ip, now).len() >= m.threshold
}

/// The transition made by `register_attempt`.
pub open spec fn register_spec(m: TrackerModel, ip: Seq<u8>, now: u64) -> TrackerModel {
    if triggers(m, ip, now) {
        TrackerModel {
            attempts: remove_key(m.attempts, ip),
            blocks: upsert(m.blocks, ip, (now + m.block_duration) as u64),
            pending: m.pending.push((true, ip)),
            ..m
        }
    } else {
        TrackerModel { attempts: upsert(m.attempts, ip, window_after(m, ip, now)), ..m }
    }
}

/// The answer and transition made by `is_blocked`: an expired entry is
/// removed and its unban becomes pending; a live entry answers true.
pub open spec fn query_spec(m: TrackerModel, ip: Seq<u8>, now: u64) -> (bool, TrackerModel) {
    match lookup(m.blocks, ip) {
        None => (false, m),
        Some(u) => if now < u {
            (true, m)
        } else {
            (
                false,
                TrackerModel {
                    blocks: remove_key(m.blocks, ip),
                    pending: m.pending.push((false, ip)),
                    ..m
                },
            )
        },
    }
}

pub open spec fn prune_entry(e: (Seq<u8>, Seq<u64>), now: u64, w: u64) -> (Seq<u8>, Seq<u64>) {
    (e.0, prune(e.1, now, w))
}

/// Windows after maintenance: stale timestamps dropped, emptied addresses
/// forgotten.
pub open spec fn cleanup_attempts(s: Seq<(Seq<u8>, Seq<u64>)>, now: u64, w: u64) -> Seq<
    (Seq<u8>, Seq<u64>),
> {
    keep(
        s.map_values(|e: (Seq<u8>, Seq<u64>)| prune_entry(e, now, w)),
        |e: (Seq<u8>, Seq<u64>)| e.1.len() > 0,
    )
}

/// The transition made by `cleanup`: expired blocks leave and their unbans
/// become pending, in blocklist order.
pub open spec fn cleanup_spec(m: TrackerModel, now: u64) -> TrackerModel {
    TrackerModel {
        attempts: cleanup_attempts(m.attempts, now, m.window),
        blocks: keep(m.blocks, |e: (Seq<u8>, u64)| now < e.1),
        pending: m.pending + keep(m.blocks, |e: (Seq<u8>, u64)| now >= e.1).map_values(
            |e: (Seq<u8>, u64)| (false, e.0),
        ),
        ..m
    }
}

/// Shared mutable core of the daemon: sliding-window counters and the
/// time-bounded blocklist.
pub struct GuardTracker {
    attempts: Vec<AttemptEntry>,
    blocklist: Vec<BlockEntry>,
    pending: Vec<Action>,
    threshold: u64,
    window: u64,
    block_duration: u64,
}

impl View for GuardTracker {
    type V = TrackerModel;

    closed spec fn view(&self) -> TrackerModel {
        TrackerModel {
            attempts: self.attempts@.map_values(|e: AttemptEntry| (e.ip@, e.times@)),
            blocks: self.blocklist@.map_values(|e: BlockEntry| (e.ip@, e.until)),
            pending: self.pending@.map_values(|a: Action| a@),
            threshold: self.threshold,
            window: self.window,
            block_duration: self.block_duration,
        }
    }
}

impl GuardTracker {
    /// A fresh tracker with the given policy: `threshold` qualifying events
    /// within `window` seconds block an address for `block_duration`
    /// seconds.
    pub fn new(threshold: u64, window: u64, block_duration: u64) -> (r: GuardTracker)
        ensures
            r@.wf(),
            r@.attempts == Seq::<(Seq<u8>, Seq<u64>)>::empty(),
            r@.blocks == Seq::<(Seq<u8>, u64)>::empty(),
            r@.pending == Seq::<(bool, Seq<u8>)>::empty(),
            r@.threshold == threshold,
            r@.window == window,
            r@.block_duration == block_duration,
    {
        let r = GuardTracker {
            attempts: Vec::new(),
            blocklist: Vec::new(),
            pending: Vec::new(),
            threshold,
            window,
            block_duration,
        };
        proof {
            assert(r@.attempts =~= Seq::<(Seq<u8>, Seq<u64>)>::empty());
            assert(r@.blocks =~= Seq::<(Seq<u8>, u64)>::empty());
            assert(r@.pending =~= Seq::<(bool, Seq<u8>)>::empty());
        }
        r
    }

    /// Hand out the enforcement actions decided since the last call, in
    /// the order they were decided, and forget them.
    pub fn take_actions(&mut self) -> (acts: Vec<Action>)
        ensures
            (acts@.map_values(|a: Action| a@) == old(self)@.pending),
            (final(self)@ == (TrackerModel {
                pending: Seq::<(bool, Seq<u8>)>::empty(),
                ..old(self)@
            })),
            (old(self)@.wf() ==> final(self)@.wf()),
    {
        let mut acts: Vec<Action> = Vec::new();
        core::mem::swap(&mut self.pending, &mut acts);
        proof {
            assert(self@.pending =~= Seq::<(bool, Seq<u8>)>::empty());
            assert(self@ =~= TrackerModel { pending: Seq::<(bool, Seq<u8>)>::empty(), ..old(
                self,
            )@ });
        }
        acts
    }

    /// Is the address blocked at `now`? An entry that has expired is
    /// removed, its unban becomes pending, and the answer is false, so an
    /// address is never reported blocked past its term.
    pub fn is_blocked(&mut self, ip: &[u8], now: u64) -> (r: bool)
        requires
            old(self)@.wf(),
        ensures
            final(self)@.wf(),
            r == query_spec(old(self)@, ip@, now).0,
            final(self)@ == query_spec(old(self)@, ip@, now).1,
            r == old(self)@.blocked_at(ip@, now),
    {
        let ghost m = self@;
        let n = self.blocklist.len();
        let mut j: usize = 0;
        while j < n
            invariant
                n == self.blocklist@.len(),
                j <= n,
                self == old(self),
                m == self@,
                m.wf(),
                forall|i: int| 0 <= i < j ==> m.blocks[i].0 != ip@,
            decreases n - j,
        {
            assert(m.blocks[j as int] == (self.blocklist@[j as int].ip@, self.blocklist@[
                j as int].until));
            if crate::scan::bytes_eq(self.blocklist[j].ip.as_slice(), ip) {
                let until = self.blocklist[j].until;
                proof {
                    lemma_lookup_at(m.blocks, ip@, j as int);
                }
                if now < until {
                    return true;
                }
                let e = self.blocklist.remove(j);
                self.pending.push(Action::Unban(e.ip));
                proof {
                    lemma_remove_key_at(m.blocks, ip@, j as int);
                    lemma_remove_key_distinct(m.blocks, ip@);
                    assert(self.blocklist@.map_values(|en: BlockEntry| (en.ip@, en.until)) =~= m
                        .blocks.remove(j as int));
                    assert(self.pending@.map_values(|a: Action| a@) =~= m.pending.push(
                        (false, ip@),
                    ));
                    assert(self@ =~= query_spec(m, ip@, now).1);
                }
                return false;
            }
            j = j + 1;
        }
        proof {
            lemma_lookup_absent(m.blocks, ip@);
        }
        false
    }

    /// Record an abusive event from the address at `now`. If at least
    /// `threshold` events now sit within the window, the address moves to
    /// the blocklist until `now + block_duration`, its window is forgotten,
    /// and a ban becomes pending.
    pub fn register_attempt(&mut self, ip: &[u8], now: u64)
        requires
            old(self)@.wf(),
            now + old(self)@.block_duration <= u64::MAX,
        ensures
            final(self)@.wf(),
            final(self)@ == register_spec(old(self)@, ip@, now),
    {
        let ghost m = self@;
        let found = find_attempt(&self.attempts, ip);
        let mut wtimes: Vec<u64>;
        match found {
            Some(j) => {
                proof {
                    assert(m.attempts[j as int] == (self.attempts@[j as int].ip@, self.attempts@[
                        j as int].times@));
                    assert forall|i: int| 0 <= i < j implies m.attempts[i].0 != ip@ by {
                        assert(m.attempts[i] == (self.attempts@[i].ip@, self.attempts@[i].times@));
                    }
                    lemma_lookup_at(m.attempts, ip@, j as int);
                }
                wtimes = prune_times(&self.attempts[j].times, now, self.window);
            },
            None => {
                proof {
                    assert forall|i: int| 0 <= i < m.attempts.len() implies m.attempts[i].0
                        != ip@ by {
                        assert(m.attempts[i] == (self.attempts@[i].ip@, self.attempts@[i].times@));
                    }
                    lemma_lookup_absent(m.attempts, ip@);
                }
                wtimes = Vec::new();
                proof {
                    assert(m.window_of(ip@) =~= Seq::<u64>::empty());
                    assert(wtimes@ =~= prune(m.window_of(ip@), now, m.window));
                }
            },
        }
        wtimes.push(now);
        proof {
            lemma_keep_push(m.window_of(ip@), |t: u64| in_window(t, now, m.window), now);
            assert(in_window(now, now, m.window));
            assert(wtimes@ == window_after(m, ip@, now));
        }
        if (wtimes.len() as u64) >= self.threshold {
            assert(triggers(m, ip@, now));
            match found {
                Some(j) => {
                    let ghost pre = self.attempts@;
                    self.attempts.remove(j);
                    proof {
                        lemma_remove_key_at(m.attempts, ip@, j as int);
                        assert(self.attempts@.map_values(|e: AttemptEntry| (e.ip@, e.times@)) =~= m
                            .attempts.remove(j as int));
                    }
                },
                None => {
                    proof {
                        lemma_remove_key_absent(m.attempts, ip@);
                    }
                },
            }
            let until = now + self.block_duration;
            match find_block(&self.blocklist, ip) {
                Some(jb) => {
                    proof {
                        assert(m.blocks[jb as int] == (self.blocklist@[jb as int].ip@, self
                            .blocklist@[jb as int].until));
                        assert forall|i: int| 0 <= i < jb implies m.blocks[i].0 != ip@ by {
                            assert(m.blocks[i] == (self.blocklist@[i].ip@, self.blocklist@[
                                i].until));
                        }
                        lemma_upsert_at(m.blocks, ip@, until, jb as int);
                    }
                    self.blocklist.remove(jb);
                    self.blocklist.insert(jb, BlockEntry { ip: crate::scan::clone_bytes(ip), until });
                    proof {
                        assert(self.blocklist@.map_values(|e: BlockEntry| (e.ip@, e.until)) =~= m
                            .blocks.update(jb as int, (ip@, until)));
                    }
                },
                None => {
                    proof {
                        assert forall|i: int| 0 <= i < m.blocks.len() implies m.blocks[i].0
                            != ip@ by {
                            assert(m.blocks[i] == (self.blocklist@[i].ip@, self.blocklist@[
                                i].until));
                        }
                        lemma_upsert_absent(m.blocks, ip@, until);
                    }
                    self.blocklist.push(BlockEntry { ip: crate::scan::clone_bytes(ip), until });
                    proof {
                        assert(self.blocklist@.map_values(|e: BlockEntry| (e.ip@, e.until)) =~= m
                            .blocks.push((ip@, until)));
                    }
                },
            }
            self.pending.push(Action::Ban(crate::scan::clone_bytes(ip)));
            proof {
                lemma_remove_key_distinct(m.attempts, ip@);
                lemma_upsert_distinct(m.blocks, ip@, until);
                assert(self.pending@.map_values(|a: Action| a@) =~= m.pending.push((true, ip@)));
                assert(self@ =~= register_spec(m, ip@, now));
            }
        } else {
            assert(!triggers(m, ip@, now));
            match found {
                Some(j) => {
                    proof {
                        lemma_upsert_at(m.attempts, ip@, wtimes@, j as int);
                    }
                    self.attempts.remove(j);
                    self.attempts.insert(
                        j,
                        AttemptEntry { ip: crate::scan::clone_bytes(ip), times: wtimes },
                    );
                    proof {
                        assert(self.attempts@.map_values(|e: AttemptEntry| (e.ip@, e.times@)) =~= m
                            .attempts.update(j as int, (ip@, window_after(m, ip@, now))));
                    }
                },
                None => {
                    proof {
                        lemma_upsert_absent(m.attempts, ip@, wtimes@);
                    }
                    self.attempts.push(
                        AttemptEntry { ip: crate::scan::clone_bytes(ip), times: wtimes },
                    );
                    proof {
                        assert(self.attempts@.map_values(|e: AttemptEntry| (e.ip@, e.times@)) =~= m
                            .attempts.push((ip@, window_after(m, ip@, now))));
                    }
                },
            }
            proof {
                lemma_upsert_distinct(m.attempts, ip@, window_after(m, ip@, now));
                assert(self@ =~= register_spec(m, ip@, now));
            }
        }
    }

    /// Maintenance: drop aged-out timestamps, forget addresses whose window
    /// emptied, remove expired block entries and queue their unbans.
    pub fn cleanup(&mut self, now: u64)
        requires
            old(self)@.wf(),
        ensures
            final(self)@.wf(),
            final(self)@ == cleanup_spec(old(self)@, now),
    {
        let ghost m = self@;
        let w = self.window;
        let nb = self.blocklist.len();
        let mut keptb: Vec<BlockEntry> = Vec::new();
        let mut i: usize = 0;
        proof {
            assert(m.blocks.take(0) =~= Seq::<(Seq<u8>, u64)>::empty());
            assert(keptb@.map_values(|e: BlockEntry| (e.ip@, e.until)) =~= keep(
                m.blocks.take(0),
                |e: (Seq<u8>, u64)| now < e.1,
            ));
            assert(self.pending@.map_values(|a: Action| a@) =~= m.pending + keep(
                m.blocks.take(0),
                |e: (Seq<u8>, u64)| now >= e.1,
            ).map_values(|e: (Seq<u8>, u64)| (false, e.0)));
        }
        while i < nb
            invariant
                i <= nb,
                nb == self.blocklist@.len(),
                self.blocklist == old(self).blocklist,
                self.attempts == old(self).attempts,
                self.threshold == old(self).threshold,
                self.window == old(self).window,
                self.block_duration == old(self).block_duration,
                m == old(self)@,
                m.blocks == self.blocklist@.map_values(|e: BlockEntry| (e.ip@, e.until)),
                keptb@.map_values(|e: BlockEntry| (e.ip@, e.until)) == keep(
                    m.blocks.take(i as int),
                    |e: (Seq<u8>, u64)| now < e.1,
                ),
                self.pending@.map_values(|a: Action| a@) == m.pending + keep(
                    m.blocks.take(i as int),
                    |e: (Seq<u8>, u64)| now >= e.1,
                ).map_values(|e: (Seq<u8>, u64)| (false, e.0)),
            decreases nb - i,
        {
            let ghost kb = keptb@;
            let ghost pd = self.pending@;
            proof {
                assert(m.blocks[i as int] == (self.blocklist@[i as int].ip@, self.blocklist@[
                    i as int].until));
                assert(m.blocks.take(i + 1) =~= m.blocks.take(i as int).push(m.blocks[i as int]));
                lemma_keep_push(m.blocks.take(i as int), |e: (Seq<u8>, u64)| now < e.1, m.blocks[
                    i as int]);
                lemma_keep_push(m.blocks.take(i as int), |e: (Seq<u8>, u64)| now >= e.1, m.blocks[
                    i as int]);
            }
            let until = self.blocklist[i].until;
            if now < until {
                keptb.push(
                    BlockEntry {
                        ip: crate::scan::clone_bytes(self.blocklist[i].ip.as_slice()),
                        until,
                    },
                );
                proof {
                    assert(keptb@.map_values(|e: BlockEntry| (e.ip@, e.until)) =~= kb.map_values(
                        |e: BlockEntry| (e.ip@, e.until),
                    ).push(m.blocks[i as int]));
                }
            } else {
                self.pending.push(
                    Action::Unban(crate::scan::clone_bytes(self.blocklist[i].ip.as_slice())),
                );
                proof {
                    assert(self.pending@.map_values(|a: Action| a@) =~= pd.map_values(
                        |a: Action| a@,
                    ).push((false, m.blocks[i as int].0)));
                    assert(keep(m.blocks.take(i + 1), |e: (Seq<u8>, u64)| now >= e.1).map_values(
                        |e: (Seq<u8>, u64)| (false, e.0),
                    ) =~= keep(m.blocks.take(i as int), |e: (Seq<u8>, u64)| now >= e.1).map_values(
                        |e: (Seq<u8>, u64)| (false, e.0),
                    ).push((false, m.blocks[i as int].0)));
                }
            }
            i = i + 1;
        }
        self.blocklist = keptb;
        proof {
            assert(m.blocks.take(nb as int) =~= m.blocks);
        }
        let na = self.attempts.len();
        let mut kepta: Vec<AttemptEntry> = Vec::new();
        let ghost ma = m.attempts.map_values(|e: (Seq<u8>, Seq<u64>)| prune_entry(e, now, w));
        let mut j: usize = 0;
        proof {
            assert(ma.take(0) =~= Seq::<(Seq<u8>, Seq<u64>)>::empty());
            assert(kepta@.map_values(|e: AttemptEntry| (e.ip@, e.times@)) =~= keep(
                ma.take(0),
                |e: (Seq<u8>, Seq<u64>)| e.1.len() > 0,
            ));
        }
        while j < na
            invariant
                j <= na,
                na == self.attempts@.len(),
                self.attempts == old(self).attempts,
                w == m.window,
                m.attempts == self.attempts@.map_values(|e: AttemptEntry| (e.ip@, e.times@)),
                ma == m.attempts.map_values(|e: (Seq<u8>, Seq<u64>)| prune_entry(e, now, w)),
                kepta@.map_values(|e: AttemptEntry| (e.ip@, e.times@)) == keep(
                    ma.take(j as int),
                    |e: (Seq<u8>, Seq<u64>)| e.1.len() > 0,
                ),
            decreases na - j,
        {
            let ghost ka = kepta@;
            proof {
                assert(m.attempts[j as int] == (self.attempts@[j as int].ip@, self.attempts@[
                    j as int].times@));
                assert(ma[j as int] == prune_entry(m.attempts[j as int], now, w));
                assert(ma.take(j + 1) =~= ma.take(j as int).push(ma[j as int]));
                lemma_keep_push(ma.take(j as int), |e: (Seq<u8>, Seq<u64>)| e.1.len() > 0, ma[
                    j as int]);
            }
            let pruned = prune_times(&self.attempts[j].times, now, w);
            if pruned.len() > 0 {
                kepta.push(
                    AttemptEntry {
                        ip: crate::scan::clone_bytes(self.attempts[j].ip.as_slice()),
                        times: pruned,
                    },
                );
                proof {
                    assert(kepta@.map_values(|e: AttemptEntry| (e.ip@, e.times@)) =~= ka.map_values(
                        |e: AttemptEntry| (e.ip@, e.times@),
                    ).push(ma[j as int]));
                }
            }
            j = j + 1;
        }
        self.attempts = kepta;
        proof {
            assert(ma.take(na as int) =~= ma);
            assert(distinct_keys(ma)) by {
                assert forall|a: int, b: int| 0 <= a < b < ma.len() implies ma[a].0 != ma[b].0 by {
                    assert(ma[a] == prune_entry(m.attempts[a], now, w));
                    assert(ma[b] == prune_entry(m.attempts[b], now, w));
                }
            }
            crate::table::lemma_keep_keyed_distinct(ma, |e: (Seq<u8>, Seq<u64>)| e.1.len() > 0);
            crate::table::lemma_keep_keyed_distinct(m.blocks, |e: (Seq<u8>, u64)| now < e.1);
            assert(self@ =~= cleanup_spec(m, now));
        }
    }
}

/// The effect of one blocklist file line on the block table: a line that
/// parses to a still-future entry is merged (last writer wins), anything
/// else is skipped.
pub open spec fn apply_line(bs: Seq<(Seq<u8>, u64)>, l: Seq<u8>, now: u64) -> Seq<(Seq<u8>, u64)> {
    match crate::blocklist::parse_line_spec(l) {
        Some(p) => if p.1 > now {
            upsert(bs, p.0, p.1)
        } else {
            bs
        },
        None => bs,
    }
}

/// The effect of loading a whole file, line by line.
pub open spec fn load_fold(bs: Seq<(Seq<u8>, u64)>, lines: Seq<Seq<u8>>, now: u64) -> Seq<
    (Seq<u8>, u64),
>
    decreases lines.len(),
{
    if lines.len() == 0 {
        bs
    } else {
        load_fold(apply_line(bs, lines[0], now), lines.drop_first(), now)
    }
}

pub proof fn lemma_load_fold_snoc(bs: Seq<(Seq<u8>, u64)>, lines: Seq<Seq<u8>>, l: Seq<u8>, now: u64)
    ensures
        load_fold(bs, lines.push(l), now) == apply_line(load_fold(bs, lines, now), l, now),
    decreases lines.len(),
{
    let p = lines.push(l);
    if lines.len() == 0 {
        assert(p[0] == l);
        assert(p.drop_first() =~= Seq::<Seq<u8>>::empty());
        assert(load_fold(bs, p, now) == load_fold(apply_line(bs, l, now), p.drop_first(), now));
        assert(load_fold(apply_line(bs, l, now), p.drop_first(), now) == apply_line(
            bs,
            l,
            now,
        ));
        assert(load_fold(bs, lines, now) == bs);
    } else {
        assert(p[0] == lines[0]);
        assert(p.drop_first() =~= lines.drop_first().push(l));
        let a = apply_line(bs, lines[0], now);
        lemma_load_fold_snoc(a, lines.drop_first(), l, now);
        assert(load_fold(bs, p, now) == load_fold(a, p.drop_first(), now));
        assert(load_fold(a, lines.drop_first().push(l), now) == apply_line(
            load_fold(a, lines.drop_first(), now),
            l,
            now,
        ));
        assert(load_fold(bs, lines, now) == load_fold(a, lines.drop_first(), now));
    }
}

impl GuardTracker {
    /// Render the blocklist file's full contents: every block entry, in
    /// order, one `address=timestamp` line each. Writing it to disk is the
    /// embedding program's part.
    pub fn save_blocklist(&self) -> (out: Vec<u8>)
        ensures
            out@ == crate::blocklist::encode_blocks(self@.blocks),
    {
        let mut out: Vec<u8> = Vec::new();
        let ghost bs = self@.blocks;
        let n = self.blocklist.len();
        let mut i: usize = 0;
        proof {
            assert(bs.take(0) =~= Seq::<(Seq<u8>, u64)>::empty());
            assert(out@ =~= crate::blocklist::encode_blocks(bs.take(0)));
        }
        while i < n
            invariant
                i <= n,
                n == self.blocklist@.len(),
                bs == self@.blocks,
                out@ == crate::blocklist::encode_blocks(bs.take(i as int)),
            decreases n - i,
        {
            proof {
                assert(bs[i as int] == (self.blocklist@[i as int].ip@, self.blocklist@[
                    i as int].until));
                assert(bs.take(i + 1) =~= bs.take(i as int).push(bs[i as int]));
                crate::blocklist::lemma_encode_push(bs.take(i as int), bs[i as int]);
            }
            let mut line = crate::blocklist::encode_entry_exec(
                self.blocklist[i].ip.as_slice(),
                self.blocklist[i].until,
            );
            out.append(&mut line);
            i = i + 1;
        }
        proof {
            assert(bs.take(n as int) =~= bs);
        }
        out
    }

    /// Merge the entries of a persisted blocklist file whose expiry still
    /// lies in the future; stale or unreadable lines are skipped silently.
    pub fn load_blocklist(&mut self, content: &[u8], now: u64)
        requires
            old(self)@.wf(),
        ensures
            final(self)@.wf(),
            (final(self)@ == (TrackerModel {
                blocks: load_fold(
                    old(self)@.blocks,
                    crate::reader::all_lines(content@),
                    now,
                ),
                ..old(self)@
            })),
    {
        let ghost m = self@;
        let lines = crate::reader::split_all(content);
        let ghost lv = lines@.map_values(|x: Vec<u8>| x@);
        let n = lines.len();
        let mut i: usize = 0;
        proof {
            assert(lv.take(0) =~= Seq::<Seq<u8>>::empty());
        }
        while i < n
            invariant
                i <= n,
                n == lines@.len(),
                lv == lines@.map_values(|x: Vec<u8>| x@),
                self.attempts == old(self).attempts,
                self.pending == old(self).pending,
                self.threshold == old(self).threshold,
                self.window == old(self).window,
                self.block_duration == old(self).block_duration,
                m == old(self)@,
                self@.blocks == load_fold(m.blocks, lv.take(i as int), now),
                distinct_keys(self@.blocks),
            decreases n - i,
        {
            let ghost cur = self@.blocks;
            proof {
                assert(lv.take(i + 1) =~= lv.take(i as int).push(lv[i as int]));
                lemma_load_fold_snoc(m.blocks, lv.take(i as int), lv[i as int], now);
                assert(lines@[i as int]@ == lv[i as int]);
            }
            match parse_blocklist_line(lines[i].as_slice()) {
                Some(pair) => {
                    if pair.1 > now {
                        let (ipv, ts) = pair;
                        match find_block(&self.blocklist, ipv.as_slice()) {
                            Some(jb) => {
                                proof {
                                    assert(cur[jb as int] == (self.blocklist@[jb as int].ip@, self
                                        .blocklist@[jb as int].until));
                                    assert forall|k: int| 0 <= k < jb implies cur[k].0
                                        != ipv@ by {
                                        assert(cur[k] == (self.blocklist@[k].ip@, self.blocklist@[
                                            k].until));
                                    }
                                    lemma_upsert_at(cur, ipv@, ts, jb as int);
                                    lemma_upsert_distinct(cur, ipv@, ts);
                                }
                                self.blocklist.remove(jb);
                                self.blocklist.insert(jb, BlockEntry { ip: ipv, until: ts });
                                proof {
                                    assert(self.blocklist@.map_values(
                                        |e: BlockEntry| (e.ip@, e.until),
                                    ) =~= cur.update(jb as int, (ipv@, ts)));
                                }
                            },
                            None => {
                                proof {
                                    assert forall|k: int| 0 <= k < cur.len() implies cur[k].0
                                        != ipv@ by {
                                        assert(cur[k] == (self.blocklist@[k].ip@, self.blocklist@[
                                            k].until));
                                    }
                                    lemma_upsert_absent(cur, ipv@, ts);
                                    lemma_upsert_distinct(cur, ipv@, ts);
                                }
                                self.blocklist.push(BlockEntry { ip: ipv, until: ts });
                                proof {
                                    assert(self.blocklist@.map_values(
                                        |e: BlockEntry| (e.ip@, e.until),
                                    ) =~= cur.push((ipv@, ts)));
                                }
                            },
                        }
                    }
                },
                None => {},
            }
            i = i + 1;
        }
        proof {
            assert(lv.take(n as int) =~= lv);
            assert(lv == crate::reader::all_lines(content@));
            assert(self@ =~= (TrackerModel {
                blocks: load_fold(m.blocks, crate::reader::all_lines(content@), now),
                ..m
            }));
        }
    }
}

/// Once an attempt makes the count of events within the window reach the
/// threshold, the address is blocked at once, and every query strictly
/// before `blockDuration` has elapsed still answers blocked and leaves the
/// tracker unchanged.
pub proof fn lemma_threshold_blocks(m: TrackerModel, ip: Seq<u8>, now: u64, later: u64)
    requires
        m.wf(),
        triggers(m, ip, now),
        now + m.block_duration <= u64::MAX,
        now <= later < now + m.block_duration,
    ensures
        lookup(register_spec(m, ip, now).blocks, ip) == Some((now + m.block_duration) as u64),
        register_spec(m, ip, now).blocked_at(ip, later),
        query_spec(register_spec(m, ip, now), ip, later).0,
        query_spec(register_spec(m, ip, now), ip, later).1 == register_spec(m, ip, now),
        cleanup_spec(register_spec(m, ip, now), later).blocked_at(ip, later),
{
    let until = (now + m.block_duration) as u64;
    let m2 = register_spec(m, ip, now);
    crate::table::lemma_lookup_upsert(m.blocks, ip, until, ip);
    assert(lookup(m2.blocks, ip) == Some(until));
    lemma_upsert_distinct(m.blocks, ip, until);
    crate::table::lemma_lookup_keep(m2.blocks, |e: (Seq<u8>, u64)| later < e.1, ip);
}

/// The model after a whole run of attempts from one address, in order.
pub open spec fn register_all(m: TrackerModel, ip: Seq<u8>, ts: Seq<u64>) -> TrackerModel
    decreases ts.len(),
{
    if ts.len() == 0 {
        m
    } else {
        register_all(register_spec(m, ip, ts[0]), ip, ts.drop_first())
    }
}

pub proof fn lemma_register_all_snoc(m: TrackerModel, ip: Seq<u8>, ts: Seq<u64>, t: u64)
    ensures
        register_all(m, ip, ts.push(t)) == register_spec(register_all(m, ip, ts), ip, t),
    decreases ts.len(),
{
    let p = ts.push(t);
    if ts.len() == 0 {
        assert(p[0] == t);
        assert(p.drop_first() =~= Seq::<u64>::empty());
        assert(register_all(m, ip, p) == register_all(register_spec(m, ip, t), ip, p.drop_first()));
    } else {
        assert(p[0] == ts[0]);
        assert(p.drop_first() =~= ts.drop_first().push(t));
        lemma_register_all_snoc(register_spec(m, ip, ts[0]), ip, ts.drop_first(), t);
    }
}

pub open spec fn nondecreasing(ts: Seq<u64>) -> bool {
    forall|i: int, j: int| 0 <= i <= j < ts.len() ==> ts[i] <= ts[j]
}

/// For any sequence of attempts from one address at nondecreasing times:
/// as long as the count of attempts within the trailing window stays
/// under the threshold, the tracker holds exactly the attempts still in
/// the window and blocks nothing new; the moment that count reaches the
/// threshold, the address is blocked until the triggering attempt's time
/// plus the block term.
pub proof fn lemma_attempt_run(m: TrackerModel, ip: Seq<u8>, ts: Seq<u64>)
    requires
        m.wf(),
        ts.len() >= 1,
        nondecreasing(ts),
        lookup(m.attempts, ip) is None,
        forall|k: int|
            1 <= k < ts.len() ==> prune(ts.take(k), ts[k - 1], m.window).len() < m.threshold,
    ensures
        (prune(ts, ts.last(), m.window).len() < m.threshold ==> register_all(
            m,
            ip,
            ts,
        ).window_of(ip) == prune(ts, ts.last(), m.window) && register_all(m, ip, ts).blocks
            == m.blocks),
        (prune(ts, ts.last(), m.window).len() >= m.threshold ==> lookup(
            register_all(m, ip, ts).blocks,
            ip,
        ) == Some((ts.last() + m.block_duration) as u64)),
    decreases ts.len(),
{
    let w = m.window;
    let t = ts.last();
    let ts0 = ts.drop_last();
    let mlast = register_all(m, ip, ts0);
    assert(ts0.push(t) =~= ts);
    lemma_register_all_snoc(m, ip, ts0, t);
    assert(register_all(m, ip, ts) == register_spec(mlast, ip, t));
    if ts.len() == 1 {
        assert(ts0.len() == 0);
        assert(mlast == m);
        assert(m.window_of(ip) =~= Seq::<u64>::empty());
        assert(window_after(m, ip, t) == prune(Seq::<u64>::empty().push(t), t, w));
        assert(Seq::<u64>::empty().push(t) =~= ts);
    } else {
        let tprev = ts[ts.len() - 2];
        assert(ts0.last() == tprev);
        assert(nondecreasing(ts0)) by {
            assert(forall|i: int, j: int|
                0 <= i <= j < ts0.len() ==> ts0[i] == ts[i] && ts0[j] == ts[j]);
        }
        assert forall|k: int| 1 <= k < ts0.len() implies prune(ts0.take(k), ts0[k - 1], w).len()
            < m.threshold by {
            assert(ts0.take(k) =~= ts.take(k));
            assert(ts0[k - 1] == ts[k - 1]);
        }
        assert(prune(ts0, tprev, w).len() < m.threshold) by {
            assert(ts.take(ts.len() - 1) =~= ts0);
        }
        lemma_attempt_run(m, ip, ts0);
        assert(mlast.window_of(ip) == prune(ts0, tprev, w));
        assert(mlast.blocks == m.blocks);
        assert(mlast.window == w && mlast.threshold == m.threshold && mlast.block_duration
            == m.block_duration) by {
            lemma_register_all_policy(m, ip, ts0);
        }
        // One more attempt at `t`: pruning at `t` subsumes the earlier
        // pruning at `tprev`, so the window is exactly the in-window part
        // of the whole run.
        assert(tprev <= t);
        crate::table::lemma_keep_absorb(
            ts0,
            |x: u64| in_window(x, tprev, w),
            |x: u64| in_window(x, t, w),
        );
        crate::table::lemma_keep_push(prune(ts0, tprev, w), |x: u64| in_window(x, t, w), t);
        crate::table::lemma_keep_push(ts0, |x: u64| in_window(x, t, w), t);
        assert(in_window(t, t, w));
        assert(window_after(mlast, ip, t) == prune(ts0, t, w).push(t));
        assert(prune(ts, t, w) == prune(ts0, t, w).push(t));
    }
    assert(window_after(mlast, ip, t) == prune(ts, t, w));
    let f = register_spec(mlast, ip, t);
    if prune(ts, t, w).len() < m.threshold {
        assert(!triggers(mlast, ip, t));
        crate::table::lemma_lookup_upsert(mlast.attempts, ip, window_after(mlast, ip, t), ip);
    } else {
        assert(triggers(mlast, ip, t));
        crate::table::lemma_lookup_upsert(
            mlast.blocks,
            ip,
            (t + mlast.block_duration) as u64,
            ip,
        );
    }
}

/// A run of attempts never changes the configured policy.
pub proof fn lemma_register_all_policy(m: TrackerModel, ip: Seq<u8>, ts: Seq<u64>)
    ensures
        register_all(m, ip, ts).window == m.window,
        register_all(m, ip, ts).threshold == m.threshold,
        register_all(m, ip, ts).block_duration == m.block_duration,
    decreases ts.len(),
{
    if ts.len() > 0 {
        lemma_register_all_policy(register_spec(m, ip, ts[0]), ip, ts.drop_first());
    }
}

/// A query on an expired entry answers false and removes the entry: a
/// second immediate query also answers false and has no further effect.
pub proof fn lemma_expired_query(m: TrackerModel, ip: Seq<u8>, now: u64)
    requires
        m.wf(),
        (lookup(m.blocks, ip) matches Some(u) && u <= now),
    ensures
        !query_spec(m, ip, now).0,
        lookup(query_spec(m, ip, now).1.blocks, ip) is None,
        !query_spec(query_spec(m, ip, now).1, ip, now).0,
        query_spec(query_spec(m, ip, now).1, ip, now).1 == query_spec(m, ip, now).1,
{
    crate::table::lemma_lookup_remove(m.blocks, ip, ip);
}

proof fn lemma_load_fold_bodies(
    acc: Seq<(Seq<u8>, u64)>,
    bs: Seq<(Seq<u8>, u64)>,
    now: u64,
)
    requires
        distinct_keys(bs),
        forall|i: int| 0 <= i < bs.len() ==> crate::blocklist::valid_addr(#[trigger] bs[i].0),
        forall|k: Seq<u8>| #[trigger] has_key(bs, k) ==> !has_key(acc, k),
    ensures
        load_fold(
            acc,
            bs.map_values(|e: (Seq<u8>, u64)| crate::blocklist::line_body(e)),
            now,
        ) == acc + keep(bs, |e: (Seq<u8>, u64)| e.1 > now),
    decreases bs.len(),
{
    let lines = bs.map_values(|e: (Seq<u8>, u64)| crate::blocklist::line_body(e));
    if bs.len() == 0 {
        assert(lines.len() == 0);
        assert(acc + keep(bs, |e: (Seq<u8>, u64)| e.1 > now) =~= acc);
    } else {
        let e0 = bs[0];
        let t = bs.drop_first();
        assert(lines[0] == crate::blocklist::line_body(e0));
        assert(lines.drop_first() =~= t.map_values(
            |e: (Seq<u8>, u64)| crate::blocklist::line_body(e),
        )) by {
            assert forall|i: int| 0 <= i < t.len() implies lines.drop_first()[i]
                == t.map_values(|e: (Seq<u8>, u64)| crate::blocklist::line_body(e))[i] by {
                assert(lines.drop_first()[i] == lines[i + 1]);
                assert(t[i] == bs[i + 1]);
            }
        }
        crate::blocklist::lemma_parse_line_body(e0);
        assert(crate::blocklist::parse_line_spec(lines[0]) == Some((e0.0, e0.1)));
        assert(distinct_keys(t)) by {
            assert forall|i: int, j: int| 0 <= i < j < t.len() implies t[i].0 != t[j].0 by {
                assert(t[i] == bs[i + 1] && t[j] == bs[j + 1]);
            }
        }
        assert(forall|i: int|
            0 <= i < t.len() ==> crate::blocklist::valid_addr(#[trigger] t[i].0));
        assert(!has_key(t, e0.0)) by {
            if has_key(t, e0.0) {
                let i = choose|i: int| 0 <= i < t.len() && t[i].0 == e0.0;
                assert(bs[i + 1].0 == e0.0);
            }
        }
        if e0.1 > now {
            assert(!has_key(acc, e0.0)) by {
                assert(has_key(bs, e0.0));
            }
            assert forall|i: int| 0 <= i < acc.len() implies acc[i].0 != e0.0 by {
                if acc[i].0 == e0.0 {
                    assert(has_key(acc, e0.0));
                }
            }
            lemma_upsert_absent(acc, e0.0, e0.1);
            let acc2 = acc.push((e0.0, e0.1));
            assert(apply_line(acc, lines[0], now) == acc2);
            assert forall|k: Seq<u8>| #[trigger] has_key(t, k) implies !has_key(acc2, k) by {
                let i = choose|i: int| 0 <= i < t.len() && t[i].0 == k;
                assert(bs[i + 1].0 == k);
                assert(has_key(bs, k));
                assert(!has_key(acc, k));
                assert(k != e0.0);
                if has_key(acc2, k) {
                    let j = choose|j: int| 0 <= j < acc2.len() && acc2[j].0 == k;
                    if j < acc.len() {
                        assert(acc[j].0 == k);
                        assert(has_key(acc, k));
                    } else {
                        assert(acc2[j] == (e0.0, e0.1));
                    }
                }
            }
            lemma_load_fold_bodies(acc2, t, now);
            assert(acc2 =~= acc.push(e0));
            assert(keep(bs, |e: (Seq<u8>, u64)| e.1 > now) == seq![e0] + keep(
                t,
                |e: (Seq<u8>, u64)| e.1 > now,
            ));
            assert(acc.push(e0) + keep(t, |e: (Seq<u8>, u64)| e.1 > now) =~= acc + (seq![e0]
                + keep(t, |e: (Seq<u8>, u64)| e.1 > now)));
        } else {
            assert(apply_line(acc, lines[0], now) == acc);
            assert forall|k: Seq<u8>| #[trigger] has_key(t, k) implies !has_key(acc, k) by {
                let i = choose|i: int| 0 <= i < t.len() && t[i].0 == k;
                assert(bs[i + 1].0 == k);
                assert(has_key(bs, k));
            }
            lemma_load_fold_bodies(acc, t, now);
            assert(keep(bs, |e: (Seq<u8>, u64)| e.1 > now) == keep(
                t,
                |e: (Seq<u8>, u64)| e.1 > now,
            ));
        }
    }
}

/// A saved blocklist, loaded into an empty tracker at time `now`, yields
/// exactly the entries whose expiry still lies in the future, in their
/// saved order; entries already expired at load time are absent.
pub proof fn lemma_save_load_round_trip(bs: Seq<(Seq<u8>, u64)>, now: u64)
    requires
        distinct_keys(bs),
        forall|i: int| 0 <= i < bs.len() ==> crate::blocklist::valid_addr(#[trigger] bs[i].0),
    ensures
        load_fold(
            Seq::empty(),
            crate::reader::all_lines(crate::blocklist::encode_blocks(bs)),
            now,
        ) == keep(bs, |e: (Seq<u8>, u64)| e.1 > now),
{
    crate::blocklist::lemma_lines_of_encode(bs);
    assert forall|k: Seq<u8>| #[trigger] has_key(bs, k) implies !has_key(
        Seq::<(Seq<u8>, u64)>::empty(),
        k,
    ) by {
        if has_key(Seq::<(Seq<u8>, u64)>::empty(), k) {
            let i = choose|i: int|
                0 <= i < Seq::<(Seq<u8>, u64)>::empty().len() && Seq::<(
                    Seq<u8>,
                    u64,
                )>::empty()[i].0 == k;
        }
    }
    lemma_load_fold_bodies(Seq::empty(), bs, now);
    assert(Seq::<(Seq<u8>, u64)>::empty() + keep(bs, |e: (Seq<u8>, u64)| e.1 > now) =~= keep(
        bs,
        |e: (Seq<u8>, u64)| e.1 > now,
    ));
}

/// First index whose entry carries the address, scanning forward.
fn find_attempt(v: &Vec<AttemptEntry>, ip: &[u8]) -> (r: Option<usize>)
    ensures
        match r {
            Some(j) => j < v@.len() && v@[j as int].ip@ == ip@ && (forall|i: int|
                0 <= i < j ==> v@[i].ip@ != ip@),
            None => forall|i: int| 0 <= i < v@.len() ==> v@[i].ip@ != ip@,
        },
{
    let n = v.len();
    let mut j: usize = 0;
    while j < n
        invariant
            j <= n,
            n == v@.len(),
            forall|i: int| 0 <= i < j ==> v@[i].ip@ != ip@,
        decreases n - j,
    {
        if crate::scan::bytes_eq(v[j].ip.as_slice(), ip) {
            return Some(j);
        }
        j = j + 1;
    }
    None
}

/// First index whose entry carries the address, scanning forward.
fn find_block(v: &Vec<BlockEntry>, ip: &[u8]) -> (r: Option<usize>)
    ensures
        match r {
            Some(j) => j < v@.len() && v@[j as int].ip@ == ip@ && (forall|i: int|
                0 <= i < j ==> v@[i].ip@ != ip@),
            None => forall|i: int| 0 <= i < v@.len() ==> v@[i].ip@ != ip@,
        },
{
    let n = v.len();
    let mut j: usize = 0;
    while j < n
        invariant
            j <= n,
            n == v@.len(),
            forall|i: int| 0 <= i < j ==> v@[i].ip@ != ip@,
        decreases n - j,
    {
        if crate::scan::bytes_eq(v[j].ip.as_slice(), ip) {
            return Some(j);
        }
        j = j + 1;
    }
    None
}

fn in_window_exec(t: u64, now: u64, w: u64) -> (r: bool)
    ensures
        r == in_window(t, now, w),
{
    if now <= t {
        true
    } else {
        now - t <= w
    }
}

/// The in-window subsequence of a timestamp list.
fn prune_times(ts: &Vec<u64>, now: u64, w: u64) -> (r: Vec<u64>)
    ensures
        r@ == prune(ts@, now, w),
{
    let mut r: Vec<u64> = Vec::new();
    let n = ts.len();
    let mut i: usize = 0;
    proof {
        assert(ts@.take(0) =~= Seq::<u64>::empty());
        assert(r@ =~= prune(ts@.take(0), now, w));
    }
    while i < n
        invariant
            i <= n,
            n == ts@.len(),
            r@ == prune(ts@.take(i as int), now, w),
        decreases n - i,
    {
        let t = ts[i];
        proof {
            assert(ts@.take(i + 1) =~= ts@.take(i as int).push(t));
            lemma_keep_push(ts@.take(i as int), |x: u64| in_window(x, now, w), t);
        }
        if in_window_exec(t, now, w) {
            r.push(t);
        }
        i = i + 1;
    }
    proof {
        assert(ts@.take(n as int) =~= ts@);
    }
    r
}

} // verus!
