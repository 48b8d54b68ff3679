//! A simple set-associative cache without coherence.
//!
//! Reads that hit a line with its data are answered at once; reads of a
//! line that is being filled wait for the fill; other reads allocate a line,
//! taking the next way of the set in turn, and go on to memory. Writes
//! invalidate the line and go on to memory. When a fill returns, the line
//! holds its data and the reads that waited for it are answered.
use vstd::prelude::*;

use crate::cache::coherency_manager::{CoherenceMessage, response_of};
use crate::cache::contents::AccessKind;
use crate::error::ModelError;

verus! {

/// The configuration of a set-associative cache.
#[derive(Clone, Copy, Debug)]
pub struct CacheConfig {
    line_size_bytes: usize,
    bw_bytes_per_cycle: usize,
    num_sets: usize,
    num_ways: usize,
    delay_ticks: usize,
}

/// What a cache configuration is.
pub struct CacheConfigModel {
    pub line_size_bytes: usize,
    pub bw_bytes_per_cycle: usize,
    pub num_sets: usize,
    pub num_ways: usize,
    pub delay_ticks: usize,
}

impl View for CacheConfig {
    type V = CacheConfigModel;

    closed spec fn view(&self) -> CacheConfigModel {
        CacheConfigModel {
            line_size_bytes: self.line_size_bytes,
            bw_bytes_per_cycle: self.bw_bytes_per_cycle,
            num_sets: self.num_sets,
            num_ways: self.num_ways,
            delay_ticks: self.delay_ticks,
        }
    }
}

impl CacheConfig {
    /// A cache configuration.
    pub fn new(line_size_bytes: usize, bw_bytes_per_cycle: usize, num_sets: usize, num_ways: usize, delay_ticks: usize) -> (config: Self)
        ensures
            config@ == (CacheConfigModel { line_size_bytes, bw_bytes_per_cycle, num_sets, num_ways, delay_ticks }),
    {
        CacheConfig { line_size_bytes, bw_bytes_per_cycle, num_sets, num_ways, delay_ticks }
    }
}

/// What a line of the cache holds.
#[derive(Clone, Copy, Debug, PartialEq, Eq, Structural)]
pub enum EntryState {
    Available,
    Allocated,
    ValidData,
}

/// A way of a set: its state and the tag of the line it holds.
#[derive(Clone, Copy, Debug, PartialEq, Eq, Structural)]
pub struct CacheEntry {
    pub state: EntryState,
    pub tag: u64,
}

/// The bytes read and written through the cache, and its hits and misses.
#[derive(Clone, Copy, Debug, PartialEq, Eq, Structural)]
pub struct SimpleCacheMetrics {
    pub payload_bytes_read: usize,
    pub payload_bytes_written: usize,
    pub num_hits: usize,
    pub num_misses: usize,
}

/// Where a message goes: on to memory, or back to the device.
#[derive(Clone, Copy, Debug, PartialEq, Eq, Structural)]
pub enum SimpleCacheAction {
    ToMemory(CoherenceMessage),
    ToDevice(CoherenceMessage),
}

/// What a cache is: its geometry, its ways set by set, the way each set
/// takes next, the reads that wait for a fill with the tag and set they
/// wait on, and its counters.
pub struct SimpleCacheModel {
    pub line_size: nat,
    pub num_sets: nat,
    pub num_ways: nat,
    pub entries: Seq<CacheEntry>,
    pub next_way: Seq<usize>,
    pub waiting: Seq<(u64, usize, CoherenceMessage)>,
    pub metrics: SimpleCacheMetrics,
}

/// The set of the line holding `addr`.
pub open spec fn set_of(m: SimpleCacheModel, addr: u64) -> usize {
    ((addr as nat / m.line_size) % m.num_sets) as usize
}

/// The tag of the line holding `addr`.
pub open spec fn tag_of(m: SimpleCacheModel, addr: u64) -> u64 {
    (addr as nat / m.line_size / m.num_sets) as u64
}

/// Way `w` of set `s`.
pub open spec fn way(m: SimpleCacheModel, s: nat, w: nat) -> CacheEntry {
    m.entries[(s * m.num_ways + w) as int]
}

/// The first way from `w` on of set `s` with tag `t`, held (not available)
/// where `held` asks for it.
pub open spec fn find_way_from(m: SimpleCacheModel, s: nat, t: u64, held: bool, w: nat) -> Option<nat>
    decreases m.num_ways - w,
{
    if w >= m.num_ways {
        None
    } else if way(m, s, w).tag == t && (!held || way(m, s, w).state != EntryState::Available) {
        Some(w)
    } else {
        find_way_from(m, s, t, held, w + 1)
    }
}

/// The state of the line holding `addr`, if a way holds it.
pub open spec fn entry_state(m: SimpleCacheModel, addr: u64) -> Option<EntryState> {
    match find_way_from(m, set_of(m, addr) as nat, tag_of(m, addr), true, 0) {
        Some(w) => Some(way(m, set_of(m, addr) as nat, w).state),
        None => None,
    }
}

/// The cache with way `w` of set `s` replaced.
pub open spec fn with_way(m: SimpleCacheModel, s: nat, w: nat, e: CacheEntry) -> SimpleCacheModel {
    SimpleCacheModel { entries: m.entries.update((s * m.num_ways + w) as int, e), ..m }
}

/// A line allocated for `addr` in the way its set takes next; the set
/// takes the following way next time.
pub open spec fn allocated_for(m: SimpleCacheModel, addr: u64) -> SimpleCacheModel {
    let s = set_of(m, addr) as nat;
    let w = m.next_way[s as int] as nat;
    let m1 = with_way(m, s, w, CacheEntry { state: EntryState::Allocated, tag: tag_of(m, addr) });
    SimpleCacheModel { next_way: m.next_way.update(s as int, ((w + 1) % m.num_ways) as usize), ..m1 }
}

/// The first held way of the line of `addr` marked as holding its data.
pub open spec fn filled(m: SimpleCacheModel, addr: u64) -> SimpleCacheModel {
    let s = set_of(m, addr) as nat;
    match find_way_from(m, s, tag_of(m, addr), true, 0) {
        Some(w) => with_way(m, s, w, CacheEntry { state: EntryState::ValidData, tag: way(m, s, w).tag }),
        None => m,
    }
}

/// The first way with the tag of `addr`, whatever its state, made
/// available again.
pub open spec fn invalidated(m: SimpleCacheModel, addr: u64) -> SimpleCacheModel {
    let s = set_of(m, addr) as nat;
    match find_way_from(m, s, tag_of(m, addr), false, 0) {
        Some(w) => with_way(m, s, w, CacheEntry { state: EntryState::Available, tag: 0 }),
        None => m,
    }
}

/// The waiting reads on tag `t` in set `s`, in the order they came.
pub open spec fn matching_waiters(ws: Seq<(u64, usize, CoherenceMessage)>, t: u64, s: usize) -> Seq<CoherenceMessage>
    decreases ws.len(),
{
    if ws.len() == 0 {
        Seq::empty()
    } else {
        let rest = matching_waiters(ws.drop_last(), t, s);
        if ws.last().0 == t && ws.last().1 == s {
            rest.push(ws.last().2)
        } else {
            rest
        }
    }
}

/// The waiting reads on other lines, in the order they came.
pub open spec fn other_waiters(ws: Seq<(u64, usize, CoherenceMessage)>, t: u64, s: usize) -> Seq<(u64, usize, CoherenceMessage)>
    decreases ws.len(),
{
    if ws.len() == 0 {
        Seq::empty()
    } else {
        let rest = other_waiters(ws.drop_last(), t, s);
        if ws.last().0 == t && ws.last().1 == s {
            rest
        } else {
            rest.push(ws.last())
        }
    }
}

/// The counters with `f` applied.
pub open spec fn with_metrics(m: SimpleCacheModel, metrics: SimpleCacheMetrics) -> SimpleCacheModel {
    SimpleCacheModel { metrics, ..m }
}

/// The counters that handling a request from the device adds to fit.
pub open spec fn request_fits(m: SimpleCacheModel, r: CoherenceMessage) -> bool {
    match r.access_type {
        AccessKind::ReadRequest => m.metrics.payload_bytes_read + r.access_size_bytes <= usize::MAX && m.metrics.num_hits
            < usize::MAX && m.metrics.num_misses < usize::MAX,
        AccessKind::WriteRequest | AccessKind::WriteNonPostedRequest => m.metrics.payload_bytes_written + r.access_size_bytes
            <= usize::MAX,
        _ => true,
    }
}

/// What handling a request from the device does: the cache afterwards and
/// where messages go, in order.
pub open spec fn simple_request(m: SimpleCacheModel, r: CoherenceMessage) -> Result<(SimpleCacheModel, Seq<SimpleCacheAction>), ModelError> {
    let addr = r.dst_addr;
    let c = m.metrics;
    match r.access_type {
        AccessKind::Control => Ok((invalidated(m, addr), Seq::empty())),
        AccessKind::ReadRequest => {
            let read = SimpleCacheMetrics { payload_bytes_read: (c.payload_bytes_read + r.access_size_bytes) as usize, ..c };
            match entry_state(m, addr) {
                Some(EntryState::ValidData) => Ok((
                    with_metrics(m, SimpleCacheMetrics { num_hits: (c.num_hits + 1) as usize, ..read }),
                    seq![SimpleCacheAction::ToDevice(response_of(r)->Ok_0)],
                )),
                Some(EntryState::Allocated) => Ok((
                    with_metrics(
                        SimpleCacheModel { waiting: m.waiting.push((tag_of(m, addr), set_of(m, addr), r)), ..m },
                        SimpleCacheMetrics { num_hits: (c.num_hits + 1) as usize, ..read },
                    ),
                    Seq::empty(),
                )),
                _ => Ok((
                    with_metrics(allocated_for(m, addr), SimpleCacheMetrics { num_misses: (c.num_misses + 1) as usize, ..read }),
                    seq![SimpleCacheAction::ToMemory(r)],
                )),
            }
        },
        AccessKind::WriteRequest | AccessKind::WriteNonPostedRequest => Ok((
            with_metrics(
                invalidated(m, addr),
                SimpleCacheMetrics { payload_bytes_written: (c.payload_bytes_written + r.access_size_bytes) as usize, ..c },
            ),
            seq![SimpleCacheAction::ToMemory(r)],
        )),
        _ => Err(ModelError::UnsupportedDeviceAccess),
    }
}

/// The answers to the waiting reads, in order.
pub open spec fn answers(ws: Seq<CoherenceMessage>) -> Seq<SimpleCacheAction> {
    ws.map_values(|w: CoherenceMessage| SimpleCacheAction::ToDevice(response_of(w)->Ok_0))
}

/// What handling a message from memory does: a fill marks its line as
/// holding data and is passed on to the device, followed by the answers to
/// the reads that waited for it; control messages are dropped.
pub open spec fn simple_response(m: SimpleCacheModel, a: CoherenceMessage) -> Result<(SimpleCacheModel, Seq<SimpleCacheAction>), ModelError> {
    match a.access_type {
        AccessKind::Control => Ok((m, Seq::empty())),
        AccessKind::ReadResponse => {
            let m1 = filled(m, a.dst_addr);
            let t = tag_of(m, a.dst_addr);
            let s = set_of(m, a.dst_addr);
            Ok((
                SimpleCacheModel { waiting: other_waiters(m.waiting, t, s), ..m1 },
                seq![SimpleCacheAction::ToDevice(a)] + answers(matching_waiters(m.waiting, t, s)),
            ))
        },
        _ => Err(ModelError::UnsupportedResponseAccess),
    }
}

/// Only reads wait for a fill.
pub open spec fn waiters_are_reads(ws: Seq<(u64, usize, CoherenceMessage)>) -> bool {
    forall|i: int| 0 <= i < ws.len() ==> (#[trigger] ws[i]).2.access_type == AccessKind::ReadRequest
}

/// The cache's geometry fits and each set's next way is one of its ways;
/// only reads wait for a fill.
pub open spec fn simple_cache_wf(m: SimpleCacheModel) -> bool {
    &&& m.line_size >= 1
    &&& m.num_sets >= 1
    &&& m.num_ways >= 1
    &&& m.num_sets * m.num_ways <= usize::MAX
    &&& m.entries.len() == m.num_sets * m.num_ways
    &&& m.next_way.len() == m.num_sets
    &&& forall|s: int| 0 <= s < m.num_sets ==> #[trigger] m.next_way[s] < m.num_ways
    &&& waiters_are_reads(m.waiting)
}

/// A simple set-associative cache.
pub struct Cache {
    config: CacheConfig,
    entries: Vec<CacheEntry>,
    next_way: Vec<usize>,
    waiting: Vec<(u64, usize, CoherenceMessage)>,
    metrics: SimpleCacheMetrics,
}

impl View for Cache {
    type V = SimpleCacheModel;

    closed spec fn view(&self) -> SimpleCacheModel {
        SimpleCacheModel {
            line_size: self.config.line_size_bytes as nat,
            num_sets: self.config.num_sets as nat,
            num_ways: self.config.num_ways as nat,
            entries: self.entries@,
            next_way: self.next_way@,
            waiting: self.waiting@,
            metrics: self.metrics,
        }
    }
}

impl Cache {
    /// The cache's geometry fits and each set's next way is one of its
    /// ways; only reads wait for a fill.
    pub open spec fn wf(&self) -> bool {
        simple_cache_wf(self@)
    }

    /// An empty cache: every way available, every set starting at its
    /// first way, nothing waiting and nothing counted.
    pub fn new(config: CacheConfig) -> (cache: Self)
        requires
            config@.line_size_bytes >= 1,
            config@.num_sets >= 1,
            config@.num_ways >= 1,
            config@.num_sets * config@.num_ways <= usize::MAX,
        ensures
            cache.wf(),
            cache@.line_size == config@.line_size_bytes,
            cache@.num_sets == config@.num_sets,
            cache@.num_ways == config@.num_ways,
            cache@.entries == Seq::new(
                (config@.num_sets * config@.num_ways) as nat,
                |i: int| CacheEntry { state: EntryState::Available, tag: 0 },
            ),
            cache@.next_way == Seq::new(config@.num_sets as nat, |i: int| 0usize),
            cache@.waiting.len() == 0,
            cache@.metrics == (SimpleCacheMetrics { payload_bytes_read: 0, payload_bytes_written: 0, num_hits: 0, num_misses: 0 }),
    {
        let n = config.num_sets * config.num_ways;
        let mut entries: Vec<CacheEntry> = Vec::new();
        let mut i: usize = 0;
        while i < n
            invariant
                i <= n,
                entries@ == Seq::new(i as nat, |k: int| CacheEntry { state: EntryState::Available, tag: 0 }),
            decreases n - i,
        {
            entries.push(CacheEntry { state: EntryState::Available, tag: 0 });
            i = i + 1;
            assert(entries@ =~= Seq::new(i as nat, |k: int| CacheEntry { state: EntryState::Available, tag: 0 }));
        }
        let mut next_way: Vec<usize> = Vec::new();
        let mut j: usize = 0;
        while j < config.num_sets
            invariant
                j <= config.num_sets,
                next_way@ == Seq::new(j as nat, |k: int| 0usize),
            decreases config.num_sets - j,
        {
            next_way.push(0);
            j = j + 1;
            assert(next_way@ =~= Seq::new(j as nat, |k: int| 0usize));
        }
        let cache = Cache {
            config,
            entries,
            next_way,
            waiting: Vec::new(),
            metrics: SimpleCacheMetrics { payload_bytes_read: 0, payload_bytes_written: 0, num_hits: 0, num_misses: 0 },
        };
        assert(cache@.waiting =~= Seq::<(u64, usize, CoherenceMessage)>::empty());
        cache
    }

    /// The counters.
    pub fn metrics(&self) -> (metrics: SimpleCacheMetrics)
        ensures
            metrics == self@.metrics,
    {
        self.metrics
    }

    /// The payload bytes of the reads the cache has served.
    pub fn payload_bytes_read(&self) -> (n: usize)
        ensures
            n == self@.metrics.payload_bytes_read,
    {
        self.metrics.payload_bytes_read
    }

    /// The payload bytes of the writes the cache has passed on.
    pub fn payload_bytes_written(&self) -> (n: usize)
        ensures
            n == self@.metrics.payload_bytes_written,
    {
        self.metrics.payload_bytes_written
    }

    /// The reads that found their line.
    pub fn num_hits(&self) -> (n: usize)
        ensures
            n == self@.metrics.num_hits,
    {
        self.metrics.num_hits
    }

    /// The reads that allocated a line.
    pub fn num_misses(&self) -> (n: usize)
        ensures
            n == self@.metrics.num_misses,
    {
        self.metrics.num_misses
    }

    /// The tag and set of the line holding `addr`.
    fn tag_and_index_for_addr(&self, addr: u64) -> (line: (u64, usize))
        requires
            self.wf(),
        ensures
            line.0 == tag_of(self@, addr),
            line.1 == set_of(self@, addr),
            line.1 < self@.num_sets,
    {
        let line = self.config.line_size_bytes as u64;
        let sets = self.config.num_sets as u64;
        let line_index = addr / line;
        proof {
            vstd::arithmetic::div_mod::lemma_mod_bound(line_index as int, sets as int);
        }
        ((line_index / sets), (line_index % sets) as usize)
    }

    /// The first way of set `s` with tag `t`, held where `held` asks.
    fn find_way(&self, s: usize, t: u64, held: bool) -> (found: Option<usize>)
        requires
            self.wf(),
            s < self@.num_sets,
        ensures
            match found {
                Some(w) => find_way_from(self@, s as nat, t, held, 0) == Some(w as nat) && w < self@.num_ways,
                None => find_way_from(self@, s as nat, t, held, 0) is None,
            },
    {
        let ways = self.config.num_ways;
        let mut w: usize = 0;
        while w < ways
            invariant
                self.wf(),
                s < self@.num_sets,
                ways == self@.num_ways,
                w <= ways,
                find_way_from(self@, s as nat, t, held, 0) == find_way_from(self@, s as nat, t, held, w as nat),
            decreases ways - w,
        {
            proof {
                assert(s * ways + w < self@.num_sets * ways) by (nonlinear_arith)
                    requires
                        s < self@.num_sets,
                        w < ways,
                ;
            }
            let e = self.entries[s * ways + w];
            if e.tag == t && (!held || e.state != EntryState::Available) {
                return Some(w);
            }
            w = w + 1;
        }
        None
    }

    /// Replace way `w` of set `s`.
    fn set_way(&mut self, s: usize, w: usize, e: CacheEntry)
        requires
            old(self).wf(),
            s < old(self)@.num_sets,
            w < old(self)@.num_ways,
        ensures
            final(self).wf(),
            final(self)@ == with_way(old(self)@, s as nat, w as nat, e),
    {
        proof {
            assert(s * self@.num_ways + w < self@.num_sets * self@.num_ways) by (nonlinear_arith)
                requires
                    s < self@.num_sets,
                    w < self@.num_ways,
            ;
        }
        let i = s * self.config.num_ways + w;
        self.entries.set(i, e);
    }

    /// The state of the line holding `addr`, if a way holds it.
    pub fn state_for(&self, addr: u64) -> (state: Option<EntryState>)
        requires
            self.wf(),
        ensures
            state == entry_state(self@, addr),
    {
        let (t, s) = self.tag_and_index_for_addr(addr);
        match self.find_way(s, t, true) {
            Some(w) => {
                proof {
                    assert(s * self@.num_ways + w < self@.num_sets * self@.num_ways) by (nonlinear_arith)
                        requires
                            s < self@.num_sets,
                            w < self@.num_ways,
                    ;
                }
                Some(self.entries[s * self.config.num_ways + w].state)
            },
            None => None,
        }
    }

    /// Allocate a line for `addr` in the way its set takes next.
    pub fn allocate(&mut self, addr: u64)
        requires
            old(self).wf(),
        ensures
            final(self).wf(),
            final(self)@ == allocated_for(old(self)@, addr),
    {
        let (t, s) = self.tag_and_index_for_addr(addr);
        let w = self.next_way[s];
        let ways = self.config.num_ways;
        self.set_way(s, w, CacheEntry { state: EntryState::Allocated, tag: t });
        proof {
            vstd::arithmetic::div_mod::lemma_mod_bound((w + 1) as int, ways as int);
        }
        self.next_way.set(s, (w + 1) % ways);
        proof {
            assert forall|k: int| 0 <= k < self@.num_sets implies #[trigger] self@.next_way[k] < self@.num_ways by {}
        }
    }

    /// Mark the line of `addr` as holding its data.
    pub fn set_data_valid(&mut self, addr: u64)
        requires
            old(self).wf(),
        ensures
            final(self).wf(),
            final(self)@ == filled(old(self)@, addr),
    {
        let (t, s) = self.tag_and_index_for_addr(addr);
        match self.find_way(s, t, true) {
            Some(w) => {
                proof {
                    assert(s * self@.num_ways + w < self@.num_sets * self@.num_ways) by (nonlinear_arith)
                        requires
                            s < self@.num_sets,
                            w < self@.num_ways,
                    ;
                }
                let tag = self.entries[s * self.config.num_ways + w].tag;
                self.set_way(s, w, CacheEntry { state: EntryState::ValidData, tag });
            },
            None => {},
        }
    }

    /// Make the first way with the tag of `addr` available again.
    pub fn invalidate(&mut self, addr: u64)
        requires
            old(self).wf(),
        ensures
            final(self).wf(),
            final(self)@ == invalidated(old(self)@, addr),
    {
        let (t, s) = self.tag_and_index_for_addr(addr);
        match self.find_way(s, t, false) {
            Some(w) => {
                self.set_way(s, w, CacheEntry { state: EntryState::Available, tag: 0 });
            },
            None => {},
        }
    }

    /// Take the reads waiting on tag `t` in set `s`, in order, leaving the
    /// others waiting in order.
    fn take_waiters(&mut self, t: u64, s: usize) -> (taken: Vec<CoherenceMessage>)
        requires
            old(self).wf(),
        ensures
            final(self).wf(),
            final(self)@ == (SimpleCacheModel { waiting: other_waiters(old(self)@.waiting, t, s), ..old(self)@ }),
            taken@ == matching_waiters(old(self)@.waiting, t, s),
    {
        let ghost ws = self.waiting@;
        let mut matching: Vec<CoherenceMessage> = Vec::new();
        let mut others: Vec<(u64, usize, CoherenceMessage)> = Vec::new();
        let mut i: usize = 0;
        while i < self.waiting.len()
            invariant
                self@ == old(self)@,
                self.waiting@ == ws,
                i <= ws.len(),
                matching@ == matching_waiters(ws.take(i as int), t, s),
                others@ == other_waiters(ws.take(i as int), t, s),
                waiters_are_reads(others@),
                waiters_are_reads(ws),
            decreases ws.len() - i,
        {
            let w = self.waiting[i];
            proof {
                assert(ws.take(i + 1).drop_last() =~= ws.take(i as int));
                assert(ws.take(i + 1).last() == ws[i as int]);
            }
            if w.0 == t && w.1 == s {
                matching.push(w.2);
            } else {
                others.push(w);
                proof {
                    assert forall|k: int| 0 <= k < others@.len() implies (#[trigger] others@[k]).2.access_type == AccessKind::ReadRequest by {
                        if k == others@.len() - 1 {
                            assert(others@[k] == ws[i as int]);
                        }
                    }
                }
            }
            i = i + 1;
        }
        proof {
            assert(ws.take(ws.len() as int) =~= ws);
        }
        self.waiting = others;
        matching
    }

    /// Handle a request from the device; give where messages go, in order.
    pub fn handle_request(&mut self, request: CoherenceMessage) -> (result: Result<Vec<SimpleCacheAction>, ModelError>)
        requires
            old(self).wf(),
            request_fits(old(self)@, request),
        ensures
            match simple_request(old(self)@, request) {
                Ok((m, out)) => (result matches Ok(actions) && actions@ == out) && final(self)@ == m && final(self).wf(),
                Err(e) => result == Err::<Vec<SimpleCacheAction>, ModelError>(e) && final(self)@ == old(self)@,
            },
    {
        let addr = request.dst_addr;
        let mut out: Vec<SimpleCacheAction> = Vec::new();
        match request.access_type {
            AccessKind::Control => {
                self.invalidate(addr);
                assert(out@ =~= Seq::<SimpleCacheAction>::empty());
                Ok(out)
            },
            AccessKind::ReadRequest => {
                let state = self.state_for(addr);
                self.metrics.payload_bytes_read = self.metrics.payload_bytes_read + request.access_size_bytes;
                match state {
                    Some(EntryState::ValidData) => {
                        let response = match request.to_response() {
                            Ok(r) => r,
                            Err(e) => return Err(e),
                        };
                        out.push(SimpleCacheAction::ToDevice(response));
                        self.metrics.num_hits = self.metrics.num_hits + 1;
                        assert(out@ =~= seq![SimpleCacheAction::ToDevice(response)]);
                        Ok(out)
                    },
                    Some(EntryState::Allocated) => {
                        let (t, s) = self.tag_and_index_for_addr(addr);
                        self.waiting.push((t, s, request));
                        self.metrics.num_hits = self.metrics.num_hits + 1;
                        proof {
                            assert forall|k: int| 0 <= k < self@.waiting.len() implies (#[trigger] self@.waiting[k]).2.access_type
                                == AccessKind::ReadRequest by {
                                if k < old(self)@.waiting.len() {
                                    assert(self@.waiting[k] == old(self)@.waiting[k]);
                                }
                            }
                        }
                        assert(out@ =~= Seq::<SimpleCacheAction>::empty());
                        Ok(out)
                    },
                    _ => {
                        self.allocate(addr);
                        out.push(SimpleCacheAction::ToMemory(request));
                        self.metrics.num_misses = self.metrics.num_misses + 1;
                        assert(out@ =~= seq![SimpleCacheAction::ToMemory(request)]);
                        Ok(out)
                    },
                }
            },
            AccessKind::WriteRequest | AccessKind::WriteNonPostedRequest => {
                self.invalidate(addr);
                self.metrics.payload_bytes_written = self.metrics.payload_bytes_written + request.access_size_bytes;
                out.push(SimpleCacheAction::ToMemory(request));
                assert(out@ =~= seq![SimpleCacheAction::ToMemory(request)]);
                Ok(out)
            },
            _ => Err(ModelError::UnsupportedDeviceAccess),
        }
    }

    /// Handle a message from memory; give where messages go, in order.
    pub fn handle_response(&mut self, access: CoherenceMessage) -> (result: Result<Vec<SimpleCacheAction>, ModelError>)
        requires
            old(self).wf(),
        ensures
            match simple_response(old(self)@, access) {
                Ok((m, out)) => (result matches Ok(actions) && actions@ == out) && final(self)@ == m && final(self).wf(),
                Err(e) => result == Err::<Vec<SimpleCacheAction>, ModelError>(e) && final(self)@ == old(self)@,
            },
    {
        let mut out: Vec<SimpleCacheAction> = Vec::new();
        match access.access_type {
            AccessKind::Control => {
                assert(out@ =~= Seq::<SimpleCacheAction>::empty());
                Ok(out)
            },
            AccessKind::ReadResponse => {
                let (t, s) = self.tag_and_index_for_addr(access.dst_addr);
                let ghost before = self@;
                self.set_data_valid(access.dst_addr);
                let matching = self.take_waiters(t, s);
                out.push(SimpleCacheAction::ToDevice(access));
                let mut i: usize = 0;
                proof {
                    lemma_matching_are_reads(before.waiting, t, s);
                }
                while i < matching.len()
                    invariant
                        i <= matching@.len(),
                        matching@ == matching_waiters(before.waiting, t, s),
                        forall|k: int| 0 <= k < matching@.len() ==> (#[trigger] matching@[k]).access_type == AccessKind::ReadRequest,
                        out@ == seq![SimpleCacheAction::ToDevice(access)] + answers(matching@.take(i as int)),
                    decreases matching@.len() - i,
                {
                    let r = match matching[i].to_response() {
                        Ok(r) => r,
                        Err(e) => {
                            proof {
                                assert(matching@[i as int].access_type == AccessKind::ReadRequest);
                            }
                            return Err(e);
                        },
                    };
                    out.push(SimpleCacheAction::ToDevice(r));
                    proof {
                        assert(answers(matching@.take(i + 1)) =~= answers(matching@.take(i as int)).push(
                            SimpleCacheAction::ToDevice(r),
                        ));
                        assert(out@ =~= seq![SimpleCacheAction::ToDevice(access)] + answers(matching@.take(i + 1)));
                    }
                    i = i + 1;
                }
                proof {
                    assert(matching@.take(matching@.len() as int) =~= matching@);
                }
                Ok(out)
            },
            _ => Err(ModelError::UnsupportedResponseAccess),
        }
    }
}

/// The reads waiting on a line are reads.
proof fn lemma_matching_are_reads(ws: Seq<(u64, usize, CoherenceMessage)>, t: u64, s: usize)
    requires
        waiters_are_reads(ws),
    ensures
        forall|k: int|
            0 <= k < matching_waiters(ws, t, s).len() ==> (#[trigger] matching_waiters(ws, t, s)[k]).access_type
                == AccessKind::ReadRequest,
    decreases ws.len(),
{
    if ws.len() > 0 {
        let d = ws.drop_last();
        assert(waiters_are_reads(d)) by {
            assert forall|k: int| 0 <= k < d.len() implies (#[trigger] d[k]).2.access_type == AccessKind::ReadRequest by {
                assert(d[k] == ws[k]);
            }
        }
        lemma_matching_are_reads(d, t, s);
        assert(ws.last() == ws[ws.len() - 1]);
    }
}

/// Way `w` of set `s` holds tag `t`, and is held where `held` asks.
pub open spec fn way_matches(m: SimpleCacheModel, s: nat, w: nat, t: u64, held: bool) -> bool {
    way(m, s, w).tag == t && (!held || way(m, s, w).state != EntryState::Available)
}

proof fn lemma_find_none(m: SimpleCacheModel, s: nat, t: u64, held: bool, k: nat)
    requires
        find_way_from(m, s, t, held, k) is None,
    ensures
        forall|j: nat| k <= j < m.num_ways ==> !#[trigger] way_matches(m, s, j, t, held),
    decreases m.num_ways - k,
{
    if k < m.num_ways {
        lemma_find_none(m, s, t, held, k + 1);
    }
}

proof fn lemma_find_first(m: SimpleCacheModel, s: nat, t: u64, held: bool, k: nat, w: nat)
    requires
        k <= w < m.num_ways,
        way_matches(m, s, w, t, held),
        forall|j: nat| k <= j < w ==> !#[trigger] way_matches(m, s, j, t, held),
    ensures
        find_way_from(m, s, t, held, k) == Some(w),
    decreases w - k,
{
    if k < w {
        assert(!way_matches(m, s, k, t, held));
        lemma_find_first(m, s, t, held, k + 1, w);
    }
}

/// Ways other than the one replaced keep what they held.
proof fn lemma_with_way_other(m: SimpleCacheModel, s: nat, w: nat, e: CacheEntry, j: nat)
    requires
        simple_cache_wf(m),
        s < m.num_sets,
        w < m.num_ways,
        j < m.num_ways,
        j != w,
    ensures
        way(with_way(m, s, w, e), s, j) == way(m, s, j),
        way(with_way(m, s, w, e), s, w) == e,
{
    assert(s * m.num_ways + w < m.num_sets * m.num_ways) by (nonlinear_arith)
        requires
            s < m.num_sets,
            w < m.num_ways,
    ;
    assert(s * m.num_ways + j < m.num_sets * m.num_ways) by (nonlinear_arith)
        requires
            s < m.num_sets,
            j < m.num_ways,
    ;
}

/// A read that misses allocates a line that then reads as being filled,
/// and once its fill arrives, as holding its data.
pub proof fn lemma_miss_then_fill(m: SimpleCacheModel, addr: u64)
    requires
        simple_cache_wf(m),
        entry_state(m, addr) is None,
    ensures
        entry_state(allocated_for(m, addr), addr) == Some(EntryState::Allocated),
        entry_state(filled(allocated_for(m, addr), addr), addr) == Some(EntryState::ValidData),
{
    let s = set_of(m, addr) as nat;
    let t = tag_of(m, addr);
    vstd::arithmetic::div_mod::lemma_mod_bound((addr as nat / m.line_size) as int, m.num_sets as int);
    let w = m.next_way[s as int] as nat;
    let m1 = allocated_for(m, addr);
    let e = CacheEntry { state: EntryState::Allocated, tag: t };
    lemma_find_none(m, s, t, true, 0);
    assert forall|j: nat| 0 <= j < w implies !#[trigger] way_matches(m1, s, j, t, true) by {
        lemma_with_way_other(m, s, w, e, j);
        assert(!way_matches(m, s, j, t, true));
    }
    assert(s * m.num_ways + w < m.num_sets * m.num_ways) by (nonlinear_arith)
        requires
            s < m.num_sets,
            w < m.num_ways,
    ;
    assert(way(m1, s, w) == e);
    lemma_find_first(m1, s, t, true, 0, w);
    assert(set_of(m1, addr) == set_of(m, addr) && tag_of(m1, addr) == tag_of(m, addr));
    let m2 = filled(m1, addr);
    let e2 = CacheEntry { state: EntryState::ValidData, tag: t };
    assert(m1.entries.len() == m.entries.len());
    assert(simple_cache_wf(m1)) by {
        assert forall|k: int| 0 <= k < m1.num_sets implies #[trigger] m1.next_way[k] < m1.num_ways by {
            vstd::arithmetic::div_mod::lemma_mod_bound((w + 1) as int, m.num_ways as int);
        }
    }
    assert(m2 == with_way(m1, s, w, e2));
    assert forall|j: nat| 0 <= j < w implies !#[trigger] way_matches(m2, s, j, t, true) by {
        lemma_with_way_other(m1, s, w, e2, j);
        assert(!way_matches(m1, s, j, t, true));
    }
    assert(way(m2, s, w) == e2) by {
        assert(s * m.num_ways + w < m.num_sets * m.num_ways) by (nonlinear_arith)
            requires
                s < m.num_sets,
                w < m.num_ways,
        ;
    }
    lemma_find_first(m2, s, t, true, 0, w);
}

/// In the set of `addr`, every way holding its line is the first way that
/// carries its tag.
pub open spec fn line_held_first(m: SimpleCacheModel, addr: u64) -> bool {
    let s = set_of(m, addr) as nat;
    let t = tag_of(m, addr);
    forall|w: nat| w < m.num_ways && #[trigger] way_matches(m, s, w, t, true) ==> find_way_from(m, s, t, false, 0) == Some(w)
}

/// A write from the device, posted or not, drops the line it writes and is
/// passed on to memory: afterwards the cache holds no line for the address,
/// so a read of it that follows misses and goes to memory. This holds
/// wherever the line's way is the first of its set carrying its tag.
pub proof fn lemma_write_drops_line(m: SimpleCacheModel, write: CoherenceMessage, read: CoherenceMessage)
    requires
        simple_cache_wf(m),
        write.access_type == AccessKind::WriteRequest || write.access_type == AccessKind::WriteNonPostedRequest,
        line_held_first(m, write.dst_addr),
        read.access_type == AccessKind::ReadRequest,
        read.dst_addr == write.dst_addr,
    ensures
        simple_request(m, write) matches Ok((m1, out)) && {
            &&& out == seq![SimpleCacheAction::ToMemory(write)]
            &&& entry_state(m1, write.dst_addr) is None
            &&& simple_request(m1, read) matches Ok((_, out2)) && out2 == seq![SimpleCacheAction::ToMemory(read)]
        },
{
    let addr = write.dst_addr;
    let s = set_of(m, addr) as nat;
    let t = tag_of(m, addr);
    vstd::arithmetic::div_mod::lemma_mod_bound((addr as nat / m.line_size) as int, m.num_sets as int);
    let m0 = invalidated(m, addr);
    match find_way_from(m, s, t, false, 0) {
        Some(w0) => {
            lemma_find_some(m, s, t, false, 0);
            let e = CacheEntry { state: EntryState::Available, tag: 0 };
            assert(m0 == with_way(m, s, w0, e));
            assert forall|j: nat| 0 <= j < m.num_ways implies !#[trigger] way_matches(m0, s, j, t, true) by {
                if j == w0 {
                    assert(s * m.num_ways + w0 < m.num_sets * m.num_ways) by (nonlinear_arith)
                        requires
                            s < m.num_sets,
                            w0 < m.num_ways,
                    ;
                    assert(way(m0, s, w0) == e);
                } else {
                    lemma_with_way_other(m, s, w0, e, j);
                    if way_matches(m, s, j, t, true) {
                        assert(find_way_from(m, s, t, false, 0) == Some(j));
                    }
                }
            }
        },
        None => {
            lemma_find_none(m, s, t, false, 0);
            assert forall|j: nat| 0 <= j < m.num_ways implies !#[trigger] way_matches(m0, s, j, t, true) by {
                assert(!way_matches(m, s, j, t, false));
            }
        },
    }
    let m1 = simple_request(m, write)->Ok_0.0;
    assert(m1.entries == m0.entries && m1.num_ways == m0.num_ways && m1.line_size == m.line_size && m1.num_sets == m.num_sets);
    assert forall|j: nat| 0 <= j < m1.num_ways implies !#[trigger] way_matches(m1, s, j, t, true) by {
        assert(way(m1, s, j) == way(m0, s, j));
        assert(!way_matches(m0, s, j, t, true));
    }
    lemma_find_all_none(m1, s, t, true, 0);
    assert(entry_state(m1, addr) is None);
}

/// A way found from `k` on matches and lies in range.
proof fn lemma_find_some(m: SimpleCacheModel, s: nat, t: u64, held: bool, k: nat)
    requires
        find_way_from(m, s, t, held, k) is Some,
    ensures
        k <= find_way_from(m, s, t, held, k)->Some_0 < m.num_ways,
        way_matches(m, s, find_way_from(m, s, t, held, k)->Some_0, t, held),
    decreases m.num_ways - k,
{
    if k < m.num_ways && !(way(m, s, k).tag == t && (!held || way(m, s, k).state != EntryState::Available)) {
        lemma_find_some(m, s, t, held, k + 1);
    }
}

/// Where no way from `k` on matches, none is found.
proof fn lemma_find_all_none(m: SimpleCacheModel, s: nat, t: u64, held: bool, k: nat)
    requires
        forall|j: nat| k <= j < m.num_ways ==> !#[trigger] way_matches(m, s, j, t, held),
    ensures
        find_way_from(m, s, t, held, k) is None,
    decreases m.num_ways - k,
{
    if k < m.num_ways {
        assert(!way_matches(m, s, k, t, held));
        lemma_find_all_none(m, s, t, held, k + 1);
    }
}

} // verus!
