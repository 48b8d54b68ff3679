//! The contents of a coherent set-associative cache: the state and tag of
//! each way, the round-robin victim of each set, and the requests that wait
//! on lines.
use std::collections::VecDeque;

use vstd::prelude::*;

use crate::cache::config::{CacheConfig, map_regions};
use crate::cache::line_state::{
    CacheEntry, GrantExclusiveClean, GrantExclusiveModified, InvalidateLine, LineState, LineStateTransition,
    allocated, evictable,
};
use crate::cache::coherency_manager::CoherenceMessage;
use crate::error::ModelError;
use crate::memory::memory_map::{DeviceId, MemoryRegion, lookup_result};

verus! {

/// The kind of a memory access.
#[derive(Clone, Copy, Debug, PartialEq, Eq, Structural)]
pub enum AccessKind {
    Control,
    ReadRequest,
    WriteRequest,
    WriteNonPostedRequest,
    ReadResponse,
    WriteNonPostedResponse,
    BarrierRequest,
    BarrierResponse,
}

/// A request waiting on a line, with the line's tag and set.
pub type LineWaiter = (u64, usize, CoherenceMessage);

/// What allocating a line gives.
#[derive(Clone, Copy, Debug, PartialEq, Eq, Structural)]
pub enum AllocateResult {
    /// The line has a way.
    Allocated,
    /// Every way is busy and the next victim holds modified data at this
    /// address, which must be written back first.
    NeedsWriteback { evicted_modified_addr: u64 },
    /// Every way is busy.
    Blocked,
}

impl AllocateResult {
    /// Whether the line got a way.
    pub fn is_allocated(&self) -> (b: bool)
        ensures
            b == (*self is Allocated),
    {
        match self {
            AllocateResult::Allocated => true,
            _ => false,
        }
    }

    /// Whether every way was busy without a modified victim.
    pub fn is_blocked(&self) -> (b: bool)
        ensures
            b == (*self is Blocked),
    {
        match self {
            AllocateResult::Blocked => true,
            _ => false,
        }
    }
}

/// The contents of a coherent cache.
pub struct CacheContents {
    config: CacheConfig,
    entries: Vec<CacheEntry>,
    lru_indices: Vec<usize>,
    pending_line_waiters: Vec<LineWaiter>,
    pending_nonposted_completions: Vec<LineWaiter>,
    pending_noallocate_completions: Vec<CoherenceMessage>,
    blocked_device_requests: VecDeque<CoherenceMessage>,
    active_barrier: Option<CoherenceMessage>,
    barrier_forwarded: bool,
}

/// What the contents of a cache are.
pub struct CacheContentsModel {
    pub line_size: nat,
    pub num_sets: nat,
    pub num_ways: nat,
    pub device_id: DeviceId,
    pub memory_map: Seq<MemoryRegion>,
    pub coherency_map: Option<Seq<MemoryRegion>>,
    pub bw_bytes_per_cycle: nat,
    /// The ways of each set, set after set.
    pub entries: Seq<CacheEntry>,
    /// The next victim of each set.
    pub lru: Seq<usize>,
    pub line_waiters: Seq<LineWaiter>,
    pub nonposted_completions: Seq<LineWaiter>,
    pub noallocate_completions: Seq<CoherenceMessage>,
    pub blocked: Seq<CoherenceMessage>,
    pub active_barrier: Option<CoherenceMessage>,
    pub barrier_forwarded: bool,
}

impl View for CacheContents {
    type V = CacheContentsModel;

    closed spec fn view(&self) -> CacheContentsModel {
        CacheContentsModel {
            line_size: self.config.line_size_bytes as nat,
            num_sets: self.config.num_sets as nat,
            num_ways: self.config.num_ways as nat,
            device_id: self.config.device_id,
            memory_map: (*self.config.memory_map)@,
            coherency_map: map_regions(self.config.coherency_manager_memory_map),
            bw_bytes_per_cycle: self.config.bw_bytes_per_cycle as nat,
            entries: self.entries@,
            lru: self.lru_indices@,
            line_waiters: self.pending_line_waiters@,
            nonposted_completions: self.pending_nonposted_completions@,
            noallocate_completions: self.pending_noallocate_completions@,
            blocked: self.blocked_device_requests@,
            active_barrier: self.active_barrier,
            barrier_forwarded: self.barrier_forwarded,
        }
    }
}

/// The tag of the line holding `addr`.
pub open spec fn line_tag(c: CacheContentsModel, addr: u64) -> u64 {
    (addr as nat / c.line_size / c.num_sets) as u64
}

/// The set of the line holding `addr`.
pub open spec fn line_set(c: CacheContentsModel, addr: u64) -> usize {
    ((addr as nat / c.line_size) % c.num_sets) as usize
}

/// The first address of the line with this tag in this set.
pub open spec fn line_addr(c: CacheContentsModel, tag: u64, set: nat) -> nat {
    ((tag as nat) * c.num_sets + set) * c.line_size
}

/// Way `w` of set `s`.
pub open spec fn entry_at(c: CacheContentsModel, s: nat, w: nat) -> CacheEntry {
    c.entries[(s * c.num_ways + w) as int]
}

/// A way holds the line with this tag.
pub open spec fn holds(e: CacheEntry, tag: u64) -> bool {
    e.line_state != LineState::Invalid && e.tag == tag
}

/// The first way among the first `k` of set `s` that holds the line with
/// this tag.
pub open spec fn first_holding(c: CacheContentsModel, s: nat, tag: u64, k: nat) -> Option<nat>
    decreases k,
{
    if k == 0 {
        None
    } else {
        match first_holding(c, s, tag, (k - 1) as nat) {
            Some(w) => Some(w),
            None => if holds(entry_at(c, s, (k - 1) as nat), tag) {
                Some((k - 1) as nat)
            } else {
                None
            },
        }
    }
}

/// The way of set `s` that holds the line with this tag, if any.
pub open spec fn way_of(c: CacheContentsModel, s: nat, tag: u64) -> Option<nat> {
    first_holding(c, s, tag, c.num_ways)
}

/// The state of the line holding `addr`, if the cache holds it.
pub open spec fn state_of(c: CacheContentsModel, addr: u64) -> Option<LineState> {
    let s = line_set(c, addr) as nat;
    match way_of(c, s, line_tag(c, addr)) {
        Some(w) => Some(entry_at(c, s, w).line_state),
        None => None,
    }
}

/// The way `o` places after the next victim of set `s`, round robin.
pub open spec fn way_after_victim(c: CacheContentsModel, s: nat, o: nat) -> nat {
    ((c.lru[s as int] + o) % (c.num_ways as int)) as nat
}

/// A way may take a new line under transition `T`.
pub open spec fn reusable<T: LineStateTransition>(e: CacheEntry) -> bool {
    evictable(e.line_state) && T::accepts(e.line_state)
}

/// The first of the first `k` ways, counted round robin from the next
/// victim of set `s`, that may take a new line under `T`.
pub open spec fn first_reusable<T: LineStateTransition>(c: CacheContentsModel, s: nat, k: nat) -> Option<nat>
    decreases k,
{
    if k == 0 {
        None
    } else {
        match first_reusable::<T>(c, s, (k - 1) as nat) {
            Some(w) => Some(w),
            None => if reusable::<T>(entry_at(c, s, way_after_victim(c, s, (k - 1) as nat))) {
                Some(way_after_victim(c, s, (k - 1) as nat))
            } else {
                None
            },
        }
    }
}

/// The way a line at `addr` goes to under transition `T`: its own way where
/// the transition applies there, else the first reusable way round robin.
pub open spec fn allocation_way<T: LineStateTransition>(c: CacheContentsModel, addr: u64) -> Option<nat> {
    let s = line_set(c, addr) as nat;
    match way_of(c, s, line_tag(c, addr)) {
        Some(w) if T::accepts(entry_at(c, s, w).line_state) => Some(w),
        _ => first_reusable::<T>(c, s, c.num_ways),
    }
}

/// The tags of the ways that hold lines are those of real addresses.
pub open spec fn tags_fit(c: CacheContentsModel) -> bool {
    forall|s: nat, w: nat|
        s < c.num_sets && w < c.num_ways && #[trigger] entry_at(c, s, w).line_state != LineState::Invalid ==> line_addr(
            c,
            entry_at(c, s, w).tag,
            s,
        ) <= u64::MAX
}

spec fn model_wf(c: CacheContentsModel) -> bool {
    &&& c.line_size >= 1
    &&& c.num_sets >= 1
    &&& c.num_ways >= 1
    &&& c.entries.len() == c.num_sets * c.num_ways
    &&& c.entries.len() <= usize::MAX
    &&& c.lru.len() == c.num_sets
    &&& forall|s: int| 0 <= s < c.num_sets ==> #[trigger] c.lru[s] < c.num_ways
    &&& tags_fit(c)
}

/// What `model_wf` reads is left alone: the sizes, the entries and the
/// victims.
proof fn lemma_wf_frame(a: CacheContentsModel, b: CacheContentsModel)
    requires
        model_wf(a),
        b.line_size == a.line_size,
        b.num_sets == a.num_sets,
        b.num_ways == a.num_ways,
        b.entries == a.entries,
        b.lru == a.lru,
    ensures
        model_wf(b),
{
    assert forall|s: nat, w: nat|
        s < b.num_sets && w < b.num_ways && #[trigger] entry_at(b, s, w).line_state != LineState::Invalid implies line_addr(
        b,
        entry_at(b, s, w).tag,
        s,
    ) <= u64::MAX by {
        assert(entry_at(b, s, w) == entry_at(a, s, w));
    }
}

impl CacheContents {
    /// The cache has ways and sets, an entry for each way of each set, a
    /// next victim among the ways of each set, and tags of real addresses.
    pub closed spec fn wf(&self) -> bool {
        model_wf(self@)
    }

    /// Empty contents for a cache of this configuration: every line
    /// invalid, every victim the first way.
    pub fn new(config: CacheConfig) -> (contents: Self)
        requires
            config.line_size_bytes >= 1,
            config.num_sets >= 1,
            config.num_ways >= 1,
            config.num_sets * config.num_ways <= usize::MAX,
        ensures
            contents@.line_size == config.line_size_bytes,
            contents@.num_sets == config.num_sets,
            contents@.num_ways == config.num_ways,
            contents@.device_id == config.device_id,
            contents@.memory_map == (*config.memory_map)@,
            contents@.coherency_map == map_regions(config.coherency_manager_memory_map),
            contents@.bw_bytes_per_cycle == config.bw_bytes_per_cycle,
            forall|i: int| 0 <= i < contents@.entries.len() ==> contents@.entries[i] == (CacheEntry { line_state: LineState::Invalid, tag: 0 }),
            forall|s: int| 0 <= s < contents@.lru.len() ==> contents@.lru[s] == 0,
            contents@.line_waiters.len() == 0,
            contents@.nonposted_completions.len() == 0,
            contents@.noallocate_completions.len() == 0,
            contents@.blocked.len() == 0,
            contents@.active_barrier is None,
            !contents@.barrier_forwarded,
            contents.wf(),
    {
        let total = config.num_sets * config.num_ways;
        let mut entries: Vec<CacheEntry> = Vec::new();
        let mut i: usize = 0;
        while i < total
            invariant
                i <= total,
                entries@.len() == i,
                forall|j: int| 0 <= j < i ==> entries@[j] == (CacheEntry { line_state: LineState::Invalid, tag: 0 }),
            decreases total - i,
        {
            entries.push(CacheEntry::default());
            i = i + 1;
        }
        let mut lru_indices: Vec<usize> = Vec::new();
        let mut s: usize = 0;
        while s < config.num_sets
            invariant
                s <= config.num_sets,
                lru_indices@.len() == s,
                forall|j: int| 0 <= j < s ==> lru_indices@[j] == 0,
            decreases config.num_sets - s,
        {
            lru_indices.push(0);
            s = s + 1;
        }
        proof {
            assert forall|s: nat, w: nat| s < config.num_sets && w < config.num_ways implies (#[trigger] entries@[(s * config.num_ways + w) as int]).line_state == LineState::Invalid by {
                assert(s * config.num_ways + w < config.num_sets * config.num_ways) by (nonlinear_arith)
                    requires s < config.num_sets, w < config.num_ways;
            }
        }
        let contents = CacheContents {
            config,
            entries,
            lru_indices,
            pending_line_waiters: Vec::new(),
            pending_nonposted_completions: Vec::new(),
            pending_noallocate_completions: Vec::new(),
            blocked_device_requests: VecDeque::new(),
            active_barrier: None,
            barrier_forwarded: false,
        };
        proof {
            let c = contents@;
            assert forall|s: nat, w: nat| s < c.num_sets && w < c.num_ways implies #[trigger] entry_at(c, s, w).line_state == LineState::Invalid by {
                assert(s * c.num_ways + w < c.num_sets * c.num_ways) by (nonlinear_arith)
                    requires s < c.num_sets, w < c.num_ways;
            }
        }
        contents
    }

    /// The tag and set of the line holding `addr`.
    pub fn tag_and_set_index_for_addr(&self, addr: u64) -> (line: (u64, usize))
        requires
            self.wf(),
        ensures
            line.0 == line_tag(self@, addr),
            line.1 == line_set(self@, addr),
            line.1 < self@.num_sets,
            line_addr(self@, line.0, line.1 as nat) <= addr,
    {
        let line = self.config.line_size_bytes as u64;
        let sets = self.config.num_sets as u64;
        let line_index = addr / line;
        let set_index = (line_index % sets) as usize;
        let tag = line_index / sets;
        proof {
            let c = self@;
            vstd::arithmetic::div_mod::lemma_fundamental_div_mod(line_index as int, sets as int);
            vstd::arithmetic::div_mod::lemma_fundamental_div_mod(addr as int, line as int);
            vstd::arithmetic::div_mod::lemma_div_denominator(addr as int, line as int, sets as int);
            assert((tag * sets + set_index) * line <= addr) by (nonlinear_arith)
                requires line_index == sets * tag + set_index, addr == line * line_index + (addr as int) % (line as int),
                    (addr as int) % (line as int) >= 0;
        }
        (tag, set_index)
    }

    /// The first address of the line with this tag in this set.
    fn addr_for_tag_and_set_index(&self, tag: u64, set_index: usize) -> (addr: u64)
        requires
            self.wf(),
            line_addr(self@, tag, set_index as nat) <= u64::MAX,
        ensures
            addr == line_addr(self@, tag, set_index as nat),
    {
        proof {
            let c = self@;
            assert(tag * c.num_sets <= tag * c.num_sets + set_index);
            assert(tag * c.num_sets + set_index <= (tag * c.num_sets + set_index) * c.line_size) by (nonlinear_arith)
                requires c.line_size >= 1;
        }
        ((tag * self.config.num_sets as u64) + set_index as u64) * self.config.line_size_bytes as u64
    }

    /// The way of set `set_index` that holds the line with this tag, if any.
    pub fn find_way(&self, tag: u64, set_index: usize) -> (way: Option<usize>)
        requires
            self.wf(),
            set_index < self@.num_sets,
        ensures
            match way {
                Some(w) => way_of(self@, set_index as nat, tag) == Some(w as nat),
                None => way_of(self@, set_index as nat, tag) is None,
            },
    {
        let ways = self.config.num_ways;
        let mut i: usize = 0;
        while i < ways
            invariant
                i <= ways,
                ways == self@.num_ways,
                set_index < self@.num_sets,
                self@.entries.len() == self@.num_sets * self@.num_ways,
                self@.entries.len() <= usize::MAX,
                first_holding(self@, set_index as nat, tag, i as nat) is None,
            decreases ways - i,
        {
            proof {
                assert(set_index * ways + i < self@.num_sets * ways) by (nonlinear_arith)
                    requires set_index < self@.num_sets, i < ways;
            }
            let e = self.entries[set_index * ways + i];
            if e.line_state != LineState::Invalid && e.tag == tag {
                proof {
                    lemma_first_holding_stable(self@, set_index as nat, tag, (i + 1) as nat, self@.num_ways);
                }
                return Some(i);
            }
            i = i + 1;
        }
        None
    }

    /// The state of the line holding `addr`, if the cache holds it.
    pub fn state_for(&self, addr: u64) -> (state: Option<LineState>)
        requires
            self.wf(),
        ensures
            state == state_of(self@, addr),
    {
        let (tag, set_index) = self.tag_and_set_index_for_addr(addr);
        match self.find_way(tag, set_index) {
            Some(w) => {
                proof {
                    lemma_first_holding_bound(self@, set_index as nat, tag, self@.num_ways);
                    assert(set_index * self@.num_ways + w < self@.num_sets * self@.num_ways) by (nonlinear_arith)
                        requires set_index < self@.num_sets, w < self@.num_ways;
                }
                Some(self.entries[set_index * self.config.num_ways + w].line_state)
            },
            None => None,
        }
    }

    /// Whether the line holding `addr` holds modified data.
    pub fn is_modified(&self, addr: u64) -> (modified: bool)
        requires
            self.wf(),
        ensures
            modified == (state_of(self@, addr) == Some(LineState::Modified)),
    {
        match self.state_for(addr) {
            Some(LineState::Modified) => true,
            _ => false,
        }
    }

    /// The id of the cache's device.
    pub fn device_id(&self) -> (id: DeviceId)
        ensures
            id == self@.device_id,
    {
        self.config.device_id
    }

    /// The cache's bandwidth in bytes per cycle.
    pub fn bw_bytes_per_cycle(&self) -> (bw: usize)
        ensures
            bw == self@.bw_bytes_per_cycle,
    {
        self.config.bw_bytes_per_cycle
    }
}

/// A way found among the first `k` stays the one found among more.
proof fn lemma_first_holding_stable(c: CacheContentsModel, s: nat, tag: u64, k: nat, n: nat)
    requires
        k <= n,
        first_holding(c, s, tag, k) is Some,
    ensures
        first_holding(c, s, tag, n) == first_holding(c, s, tag, k),
    decreases n - k,
{
    if k < n {
        lemma_first_holding_stable(c, s, tag, k + 1, n);
    }
}

/// A way found among the first `k` is one of them and holds the line.
proof fn lemma_first_holding_bound(c: CacheContentsModel, s: nat, tag: u64, k: nat)
    ensures
        first_holding(c, s, tag, k) matches Some(w) ==> w < k && holds(entry_at(c, s, w), tag),
    decreases k,
{
    if k > 0 {
        lemma_first_holding_bound(c, s, tag, (k - 1) as nat);
    }
}

/// The index of way `w` of set `s` among all the entries.
pub open spec fn entry_index(c: CacheContentsModel, s: nat, w: nat) -> int {
    (s * c.num_ways + w) as int
}

/// What allocating the line at `addr` under transition `T` gives.
pub open spec fn allocate_result<T: LineStateTransition>(c: CacheContentsModel, addr: u64) -> AllocateResult {
    let s = line_set(c, addr) as nat;
    match allocation_way::<T>(c, addr) {
        Some(_) => AllocateResult::Allocated,
        None => {
            let victim = entry_at(c, s, c.lru[s as int] as nat);
            if victim.line_state == LineState::Modified {
                AllocateResult::NeedsWriteback { evicted_modified_addr: line_addr(c, victim.tag, s) as u64 }
            } else {
                AllocateResult::Blocked
            }
        },
    }
}

/// The contents after allocating the line at `addr` under transition `T`:
/// the chosen way takes the line's tag and the transition's state, and the
/// set's next victim is the way after it.
pub open spec fn after_allocate<T: LineStateTransition>(c: CacheContentsModel, addr: u64) -> CacheContentsModel {
    let s = line_set(c, addr) as nat;
    match allocation_way::<T>(c, addr) {
        Some(w) => CacheContentsModel {
            entries: c.entries.update(entry_index(c, s, w), CacheEntry { line_state: T::target(), tag: line_tag(c, addr) }),
            lru: c.lru.update(s as int, ((w + 1) % c.num_ways) as usize),
            ..c
        },
        None => c,
    }
}

/// The contents with way `w` of set `s` replaced.
pub open spec fn with_entry(c: CacheContentsModel, s: nat, w: nat, e: CacheEntry) -> CacheContentsModel {
    CacheContentsModel { entries: c.entries.update(entry_index(c, s, w), e), ..c }
}

/// The first way among the first `k` of set `s` whose tag is `tag`,
/// whatever its state.
pub open spec fn first_tagged(c: CacheContentsModel, s: nat, tag: u64, k: nat) -> Option<nat>
    decreases k,
{
    if k == 0 {
        None
    } else {
        match first_tagged(c, s, tag, (k - 1) as nat) {
            Some(w) => Some(w),
            None => if entry_at(c, s, (k - 1) as nat).tag == tag {
                Some((k - 1) as nat)
            } else {
                None
            },
        }
    }
}

/// At most one way of each set holds each line.
pub open spec fn lines_unique(c: CacheContentsModel) -> bool {
    forall|s: nat, w1: nat, w2: nat|
        s < c.num_sets && w1 < c.num_ways && w2 < c.num_ways && holds(#[trigger] entry_at(c, s, w1), entry_at(c, s, w2).tag)
            && #[trigger] entry_at(c, s, w2).line_state != LineState::Invalid ==> w1 == w2
}

proof fn lemma_first_holding_none(c: CacheContentsModel, s: nat, tag: u64, k: nat)
    ensures
        first_holding(c, s, tag, k) is None <==> forall|w: nat| w < k ==> !holds(#[trigger] entry_at(c, s, w), tag),
    decreases k,
{
    if k > 0 {
        lemma_first_holding_none(c, s, tag, (k - 1) as nat);
        if first_holding(c, s, tag, k) is None {
            assert forall|w: nat| w < k implies !holds(#[trigger] entry_at(c, s, w), tag) by {
                if w < k - 1 {
                } else {
                    assert(w == k - 1);
                }
            }
        }
    }
}

proof fn lemma_first_tagged_bound(c: CacheContentsModel, s: nat, tag: u64, k: nat)
    ensures
        first_tagged(c, s, tag, k) matches Some(w) ==> w < k && entry_at(c, s, w).tag == tag,
    decreases k,
{
    if k > 0 {
        lemma_first_tagged_bound(c, s, tag, (k - 1) as nat);
    }
}

proof fn lemma_first_tagged_stable(c: CacheContentsModel, s: nat, tag: u64, k: nat, n: nat)
    requires
        k <= n,
        first_tagged(c, s, tag, k) is Some,
    ensures
        first_tagged(c, s, tag, n) == first_tagged(c, s, tag, k),
    decreases n - k,
{
    if k < n {
        lemma_first_tagged_stable(c, s, tag, k + 1, n);
    }
}

proof fn lemma_first_reusable_bound<T: LineStateTransition>(c: CacheContentsModel, s: nat, k: nat)
    requires
        c.num_ways >= 1,
    ensures
        first_reusable::<T>(c, s, k) matches Some(w) ==> w < c.num_ways && reusable::<T>(entry_at(c, s, w)),
    decreases k,
{
    if k > 0 {
        lemma_first_reusable_bound::<T>(c, s, (k - 1) as nat);
    }
}

proof fn lemma_first_reusable_stable<T: LineStateTransition>(c: CacheContentsModel, s: nat, k: nat, n: nat)
    requires
        k <= n,
        first_reusable::<T>(c, s, k) is Some,
    ensures
        first_reusable::<T>(c, s, n) == first_reusable::<T>(c, s, k),
    decreases n - k,
{
    if k < n {
        lemma_first_reusable_stable::<T>(c, s, k + 1, n);
    }
}

/// Way `w` of set `s` is one of the entries.
proof fn lemma_index(c: CacheContentsModel, s: nat, w: nat)
    requires
        s < c.num_sets,
        w < c.num_ways,
        c.entries.len() == c.num_sets * c.num_ways,
        c.entries.len() <= usize::MAX,
    ensures
        0 <= entry_index(c, s, w) < c.entries.len(),
        entry_index(c, s, w) <= usize::MAX,
{
    assert(s * c.num_ways + w < c.num_sets * c.num_ways) by (nonlinear_arith)
        requires s < c.num_sets, w < c.num_ways;
}

impl CacheContents {

    /// The first way of a set, counted round robin from its next victim,
    /// that may take a new line under transition `T`.
    fn next_evictable_way<T: LineStateTransition>(&self, set_index: usize) -> (way: Option<usize>)
        requires
            self.wf(),
            set_index < self@.num_sets,
        ensures
            match way {
                Some(w) => first_reusable::<T>(self@, set_index as nat, self@.num_ways) == Some(w as nat),
                None => first_reusable::<T>(self@, set_index as nat, self@.num_ways) is None,
            },
    {
        let ways = self.config.num_ways;
        let lru = self.lru_indices[set_index];
        let mut offset: usize = 0;
        while offset < ways
            invariant
                self.wf(),
                offset <= ways,
                ways == self@.num_ways,
                ways >= 1,
                set_index < self@.num_sets,
                lru == self@.lru[set_index as int],
                lru < ways,
                first_reusable::<T>(self@, set_index as nat, offset as nat) is None,
            decreases ways - offset,
        {
            let room = ways - lru;
            let way = if offset < room { lru + offset } else { offset - room };
            proof {
                if offset < room {
                    vstd::arithmetic::div_mod::lemma_fundamental_div_mod_converse(lru + offset, ways as int, 0, lru + offset);
                } else {
                    vstd::arithmetic::div_mod::lemma_fundamental_div_mod_converse(lru + offset, ways as int, 1, lru + offset - ways);
                }
                assert(way == way_after_victim(self@, set_index as nat, offset as nat));
                lemma_index(self@, set_index as nat, way as nat);
            }
            let entry = self.entries[set_index * ways + way];
            if entry.line_state.is_evictable() && entry.can_apply::<T>() {
                proof {
                    lemma_first_reusable_stable::<T>(self@, set_index as nat, (offset + 1) as nat, self@.num_ways);
                }
                return Some(way);
            }
            offset = offset + 1;
        }
        None
    }

    /// Allocate a way for the line at `addr` under transition `T`: the
    /// line's own way where the transition applies there, else the first
    /// reusable way round robin from the set's next victim.
    pub fn allocate<T: LineStateTransition>(&mut self, addr: u64) -> (result: AllocateResult)
        requires
            old(self).wf(),
        ensures
            result == allocate_result::<T>(old(self)@, addr),
            final(self)@ == after_allocate::<T>(old(self)@, addr),
            final(self).wf(),
    {
        let ghost c = self@;
        let (tag, set_index) = self.tag_and_set_index_for_addr(addr);
        let ways = self.config.num_ways;
        let existing = match self.find_way(tag, set_index) {
            Some(w) => {
                proof {
                    lemma_first_holding_bound(c, set_index as nat, tag, c.num_ways);
                    lemma_index(self@, set_index as nat, w as nat);
                }
                if self.entries[set_index * ways + w].can_apply::<T>() {
                    Some(w)
                } else {
                    None
                }
            },
            None => None,
        };
        let insert_index = match existing {
            Some(w) => Some(w),
            None => self.next_evictable_way::<T>(set_index),
        };
        proof {
            lemma_first_reusable_bound::<T>(c, set_index as nat, c.num_ways);
        }
        match insert_index {
            Some(w) => {
                assert(allocation_way::<T>(c, addr) == Some(w as nat));
                proof {
                    lemma_index(self@, set_index as nat, w as nat);
                    lemma_first_holding_bound(c, set_index as nat, tag, c.num_ways);
                }
                let index = set_index * ways + w;
                let mut entry = self.entries[index];
                entry.tag = tag;
                entry.apply::<T>();
                assert(entry == (CacheEntry { line_state: T::target(), tag }));
                self.lru_indices.set(set_index, (w + 1) % ways);
                self.entries.set(index, entry);
                proof {
                    let n = self@;
                    assert forall|s: nat, v: nat| s < n.num_sets && v < n.num_ways && #[trigger] entry_at(n, s, v).line_state != LineState::Invalid
                        implies line_addr(n, entry_at(n, s, v).tag, s) <= u64::MAX by {
                        lemma_index(self@, s, v);
                        if entry_index(n, s, v) == index as int {
                            assert(s * ways + v == set_index * ways + w);
                            lemma_same_index(s, v, set_index as nat, w as nat, ways as nat);
                        } else {
                            assert(entry_at(n, s, v) == entry_at(c, s, v));
                        }
                    }
                }
                AllocateResult::Allocated
            },
            None => {
                assert(allocation_way::<T>(c, addr) is None);
                let victim_index = self.lru_indices[set_index];
                proof {
                    lemma_index(self@, set_index as nat, victim_index as nat);
                }
                let victim = self.entries[set_index * ways + victim_index];
                if victim.line_state == LineState::Modified {
                    let evicted_modified_addr = self.addr_for_tag_and_set_index(victim.tag, set_index);
                    return AllocateResult::NeedsWriteback { evicted_modified_addr };
                }
                AllocateResult::Blocked
            },
        }
    }
}

/// Equal flat indices of ways in range name the same set and way.
proof fn lemma_same_index(s1: nat, w1: nat, s2: nat, w2: nat, ways: nat)
    requires
        w1 < ways,
        w2 < ways,
        s1 * ways + w1 == s2 * ways + w2,
    ensures
        s1 == s2,
        w1 == w2,
{
    if s1 < s2 {
        assert(s1 * ways + w1 < s2 * ways) by (nonlinear_arith) requires s1 < s2, w1 < ways;
    } else if s1 > s2 {
        assert(s2 * ways + w2 < s1 * ways) by (nonlinear_arith) requires s2 < s1, w2 < ways;
    }
}

/// The contents after transition `T` on the line at `addr`: the way that
/// holds it takes the transition's state where the transition applies.
pub open spec fn after_transition<T: LineStateTransition>(c: CacheContentsModel, addr: u64) -> CacheContentsModel {
    let s = line_set(c, addr) as nat;
    match way_of(c, s, line_tag(c, addr)) {
        Some(w) if T::accepts(entry_at(c, s, w).line_state) => with_entry(
            c,
            s,
            w,
            CacheEntry { line_state: T::target(), tag: entry_at(c, s, w).tag },
        ),
        _ => c,
    }
}

/// Transition `T` applies to the line at `addr`.
pub open spec fn transition_applies<T: LineStateTransition>(c: CacheContentsModel, addr: u64) -> bool {
    let s = line_set(c, addr) as nat;
    match way_of(c, s, line_tag(c, addr)) {
        Some(w) => T::accepts(entry_at(c, s, w).line_state),
        None => false,
    }
}

/// The contents after dropping the line at `addr` from the first way whose
/// tag matches, whatever its state; the tag of a dropped line is cleared.
pub open spec fn after_invalidate(c: CacheContentsModel, addr: u64) -> CacheContentsModel {
    let s = line_set(c, addr) as nat;
    match first_tagged(c, s, line_tag(c, addr), c.num_ways) {
        Some(w) => if entry_at(c, s, w).line_state != LineState::Invalid {
            with_entry(c, s, w, CacheEntry { line_state: LineState::Invalid, tag: 0 })
        } else {
            c
        },
        None => c,
    }
}

/// The contents after evicting the modified line at `addr`.
pub open spec fn after_evict(c: CacheContentsModel, addr: u64) -> CacheContentsModel {
    let s = line_set(c, addr) as nat;
    if state_of(c, addr) == Some(LineState::Modified) {
        with_entry(c, s, way_of(c, s, line_tag(c, addr))->Some_0, CacheEntry { line_state: LineState::Invalid, tag: 0 })
    } else {
        c
    }
}

impl CacheContents {
    /// Put entry `e` in way `w` of set `s`, keeping the contents well formed
    /// when `e` holds no line or one of a real address in that set.
    fn set_entry(&mut self, s: usize, w: usize, e: CacheEntry)
        requires
            old(self).wf(),
            s < old(self)@.num_sets,
            w < old(self)@.num_ways,
            e.line_state != LineState::Invalid ==> line_addr(old(self)@, e.tag, s as nat) <= u64::MAX,
        ensures
            final(self).wf(),
            final(self)@ == with_entry(old(self)@, s as nat, w as nat, e),
    {
        let ghost c = self@;
        proof {
            lemma_index(c, s as nat, w as nat);
        }
        let ways = self.config.num_ways;
        let index = s * ways + w;
        self.entries.set(index, e);
        proof {
            let n = self@;
            assert(n == with_entry(c, s as nat, w as nat, e));
            assert forall|s2: nat, v: nat| s2 < n.num_sets && v < n.num_ways && #[trigger] entry_at(n, s2, v).line_state != LineState::Invalid
                implies line_addr(n, entry_at(n, s2, v).tag, s2) <= u64::MAX by {
                lemma_index(c, s2, v);
                if entry_index(n, s2, v) == index as int {
                    lemma_same_index(s2, v, s as nat, w as nat, ways as nat);
                } else {
                    assert(entry_at(n, s2, v) == entry_at(c, s2, v));
                }
            }
        }
    }

    /// Drop the modified line at `addr` once written back; says whether
    /// there was one.
    pub fn evict_modified(&mut self, addr: u64) -> (evicted: bool)
        requires
            old(self).wf(),
        ensures
            evicted == (state_of(old(self)@, addr) == Some(LineState::Modified)),
            final(self)@ == after_evict(old(self)@, addr),
            final(self).wf(),
    {
        let ghost c = self@;
        let (tag, set_index) = self.tag_and_set_index_for_addr(addr);
        let way = match self.find_way(tag, set_index) {
            Some(w) => w,
            None => return false,
        };
        proof {
            lemma_first_holding_bound(c, set_index as nat, tag, c.num_ways);
            lemma_index(c, set_index as nat, way as nat);
        }
        let mut entry = self.entries[set_index * self.config.num_ways + way];
        if entry.line_state != LineState::Modified {
            return false;
        }
        if entry.apply::<InvalidateLine>() {
            entry.tag = 0;
            self.set_entry(set_index, way, entry);
            return true;
        }
        false
    }

    /// Apply transition `T` to the line at `addr` where the cache holds it
    /// and the transition applies; says whether it did.
    pub fn transition<T: LineStateTransition>(&mut self, addr: u64) -> (applied: bool)
        requires
            old(self).wf(),
        ensures
            applied == transition_applies::<T>(old(self)@, addr),
            final(self)@ == after_transition::<T>(old(self)@, addr),
            final(self).wf(),
    {
        let ghost c = self@;
        let (tag, set_index) = self.tag_and_set_index_for_addr(addr);
        let way = match self.find_way(tag, set_index) {
            Some(w) => w,
            None => return false,
        };
        proof {
            lemma_first_holding_bound(c, set_index as nat, tag, c.num_ways);
            lemma_index(c, set_index as nat, way as nat);
        }
        let mut entry = self.entries[set_index * self.config.num_ways + way];
        let applied = entry.apply::<T>();
        if applied {
            self.set_entry(set_index, way, entry);
        }
        applied
    }

    /// Complete an exclusive fill of the line at `addr`, with modified or
    /// clean data; says whether the line was waiting for it.
    pub fn grant_exclusive(&mut self, addr: u64, modified: bool) -> (applied: bool)
        requires
            old(self).wf(),
        ensures
            modified ==> applied == transition_applies::<GrantExclusiveModified>(old(self)@, addr)
                && final(self)@ == after_transition::<GrantExclusiveModified>(old(self)@, addr),
            !modified ==> applied == transition_applies::<GrantExclusiveClean>(old(self)@, addr)
                && final(self)@ == after_transition::<GrantExclusiveClean>(old(self)@, addr),
            final(self).wf(),
    {
        if modified {
            self.transition::<GrantExclusiveModified>(addr)
        } else {
            self.transition::<GrantExclusiveClean>(addr)
        }
    }

    /// Drop the line at `addr` from the first way whose tag matches.
    pub fn invalidate(&mut self, addr: u64)
        requires
            old(self).wf(),
        ensures
            final(self)@ == after_invalidate(old(self)@, addr),
            final(self).wf(),
    {
        let ghost c = self@;
        let (tag, set_index) = self.tag_and_set_index_for_addr(addr);
        let ways = self.config.num_ways;
        let mut i: usize = 0;
        while i < ways
            invariant
                self.wf(),
                self@ == c,
                c == old(self)@,
                i <= ways,
                ways == c.num_ways,
                set_index < c.num_sets,
                first_tagged(c, set_index as nat, tag, i as nat) is None,
                tag == line_tag(c, addr),
                set_index == line_set(c, addr),
            decreases ways - i,
        {
            proof {
                lemma_index(c, set_index as nat, i as nat);
            }
            let mut entry = self.entries[set_index * ways + i];
            if entry.tag == tag {
                proof {
                    lemma_first_tagged_stable(c, set_index as nat, tag, (i + 1) as nat, c.num_ways);
                }
                if entry.apply::<InvalidateLine>() {
                    entry.tag = 0;
                    self.set_entry(set_index, i, entry);
                }
                return;
            }
            i = i + 1;
        }
    }

    /// Whether some line waits for its fill.
    pub fn has_allocated_lines(&self) -> (any: bool)
        ensures
            any == exists|i: int| 0 <= i < self@.entries.len() && allocated(#[trigger] self@.entries[i].line_state),
    {
        let mut i: usize = 0;
        while i < self.entries.len()
            invariant
                i <= self@.entries.len(),
                forall|j: int| 0 <= j < i ==> !allocated(#[trigger] self@.entries[j].line_state),
            decreases self@.entries.len() - i,
        {
            if self.entries[i].line_state.is_allocated() {
                return true;
            }
            i = i + 1;
        }
        false
    }

    /// Whether some line waits for its fill or some request waits for a
    /// line or a completion.
    pub fn has_outstanding_work(&self) -> (any: bool)
        ensures
            any == ((exists|i: int| 0 <= i < self@.entries.len() && allocated(#[trigger] self@.entries[i].line_state))
                || self@.line_waiters.len() > 0 || self@.nonposted_completions.len() > 0 || self@.noallocate_completions.len() > 0),
    {
        self.has_allocated_lines() || self.pending_line_waiters.len() > 0 || self.pending_nonposted_completions.len() > 0
            || self.pending_noallocate_completions.len() > 0
    }

    /// Whether the cache takes part in coherence.
    pub fn is_coherent(&self) -> (coherent: bool)
        ensures
            coherent == (self@.coherency_map is Some),
    {
        self.config.coherency_manager_memory_map.is_some()
    }

    /// The coherency manager responsible for `addr`.
    pub fn coherency_manager_device_id_for_addr(&self, addr: u64) -> (result: Result<DeviceId, ModelError>)
        ensures
            match self@.coherency_map {
                None => result == Err::<DeviceId, ModelError>(ModelError::NoCoherencyManagerMap),
                Some(regions) => match lookup_result(regions, addr) {
                    Some((device, _)) => result == Ok::<DeviceId, ModelError>(device),
                    None => result == Err::<DeviceId, ModelError>(ModelError::NoCoherencyManagerForAddress { address: addr }),
                },
            },
    {
        match &self.config.coherency_manager_memory_map {
            Some(memory_map) => match memory_map.lookup(addr) {
                Some((device_id, _)) => Ok(device_id),
                None => Err(ModelError::NoCoherencyManagerForAddress { address: addr }),
            },
            None => Err(ModelError::NoCoherencyManagerMap),
        }
    }

    /// The device that requests for `addr` go to: its coherency manager in a
    /// coherent cache, its backing memory otherwise.
    pub fn device_id_for_addr(&self, addr: u64) -> (result: Result<DeviceId, ModelError>)
        ensures
            match self@.coherency_map {
                Some(regions) => match lookup_result(regions, addr) {
                    Some((device, _)) => result == Ok::<DeviceId, ModelError>(device),
                    None => result == Err::<DeviceId, ModelError>(ModelError::NoCoherencyManagerForAddress { address: addr }),
                },
                None => match lookup_result(self@.memory_map, addr) {
                    Some((device, _)) => result == Ok::<DeviceId, ModelError>(device),
                    None => result == Err::<DeviceId, ModelError>(ModelError::NoBackingMemoryForAddress { address: addr }),
                },
            },
    {
        if self.is_coherent() {
            return self.coherency_manager_device_id_for_addr(addr);
        }
        match self.config.memory_map.lookup(addr) {
            Some((device_id, _)) => Ok(device_id),
            None => Err(ModelError::NoBackingMemoryForAddress { address: addr }),
        }
    }
}

/// A waiter is taken: with `except`, a waiter on another line of the same
/// set; otherwise a waiter on the same line.
pub open spec fn waiter_selected(w: LineWaiter, tag: u64, set: usize, except: bool) -> bool {
    if except {
        w.1 == set && w.0 != tag
    } else {
        w.0 == tag && w.1 == set
    }
}

/// The requests of the waiters that are taken, in order.
pub open spec fn selected_waiters(ws: Seq<LineWaiter>, tag: u64, set: usize, except: bool) -> Seq<CoherenceMessage>
    decreases ws.len(),
{
    if ws.len() == 0 {
        Seq::empty()
    } else {
        let before = selected_waiters(ws.drop_last(), tag, set, except);
        if waiter_selected(ws.last(), tag, set, except) {
            before.push(ws.last().2)
        } else {
            before
        }
    }
}

/// The waiters that stay, in order.
pub open spec fn kept_waiters(ws: Seq<LineWaiter>, tag: u64, set: usize, except: bool) -> Seq<LineWaiter>
    decreases ws.len(),
{
    if ws.len() == 0 {
        Seq::empty()
    } else {
        let before = kept_waiters(ws.drop_last(), tag, set, except);
        if waiter_selected(ws.last(), tag, set, except) {
            before
        } else {
            before.push(ws.last())
        }
    }
}

/// Some request waits for a write on the line with this tag and set.
pub open spec fn write_waits(ws: Seq<LineWaiter>, tag: u64, set: usize) -> bool {
    exists|i: int|
        0 <= i < ws.len() && (#[trigger] ws[i]).0 == tag && ws[i].1 == set && (ws[i].2.access_type == AccessKind::WriteRequest
            || ws[i].2.access_type == AccessKind::WriteNonPostedRequest)
}

/// The position of the first request with this id among the first `k`.
pub open spec fn first_with_id(ps: Seq<CoherenceMessage>, id: u64, k: nat) -> Option<nat>
    decreases k,
{
    if k == 0 {
        None
    } else {
        match first_with_id(ps, id, (k - 1) as nat) {
            Some(i) => Some(i),
            None => if ps[k - 1].id == id {
                Some((k - 1) as nat)
            } else {
                None
            },
        }
    }
}

proof fn lemma_first_with_id_stable(ps: Seq<CoherenceMessage>, id: u64, k: nat, n: nat)
    requires
        k <= n,
        first_with_id(ps, id, k) is Some,
    ensures
        first_with_id(ps, id, n) == first_with_id(ps, id, k),
    decreases n - k,
{
    if k < n {
        lemma_first_with_id_stable(ps, id, k + 1, n);
    }
}

/// Split the waiters into those taken and those that stay; `None`, with
/// nothing changed, when none is taken.
fn take_pending_for_line(pending: &mut Vec<LineWaiter>, tag: u64, set: usize, except: bool) -> (taken: Option<Vec<CoherenceMessage>>)
    ensures
        selected_waiters(old(pending)@, tag, set, except).len() == 0 ==> taken is None && final(pending)@ == old(pending)@,
        selected_waiters(old(pending)@, tag, set, except).len() > 0 ==> (taken matches Some(t) && t@ == selected_waiters(
            old(pending)@,
            tag,
            set,
            except,
        )) && final(pending)@ == kept_waiters(old(pending)@, tag, set, except),
{
    let mut matching: Vec<CoherenceMessage> = Vec::new();
    let mut not_matching: Vec<LineWaiter> = Vec::new();
    let mut i: usize = 0;
    while i < pending.len()
        invariant
            i <= pending@.len(),
            pending@ == old(pending)@,
            matching@ == selected_waiters(pending@.take(i as int), tag, set, except),
            not_matching@ == kept_waiters(pending@.take(i as int), tag, set, except),
        decreases pending@.len() - i,
    {
        let w = pending[i];
        proof {
            assert(pending@.take(i + 1).drop_last() =~= pending@.take(i as int));
        }
        let selected = if except { w.1 == set && w.0 != tag } else { w.0 == tag && w.1 == set };
        if selected {
            matching.push(w.2);
        } else {
            not_matching.push(w);
        }
        i = i + 1;
    }
    assert(pending@.take(pending@.len() as int) =~= pending@);
    if matching.len() == 0 {
        return None;
    }
    *pending = not_matching;
    Some(matching)
}

impl CacheContents {
    /// Hold a request until its line is filled.
    pub fn add_pending_line_waiter(&mut self, request: CoherenceMessage)
        requires
            old(self).wf(),
        ensures
            final(self).wf(),
            final(self)@ == (CacheContentsModel {
                line_waiters: old(self)@.line_waiters.push(
                    (line_tag(old(self)@, request.dst_addr), line_set(old(self)@, request.dst_addr), request),
                ),
                ..old(self)@
            }),
    {
        let (tag, set_index) = self.tag_and_set_index_for_addr(request.dst_addr);
        self.pending_line_waiters.push((tag, set_index, request));
        proof { lemma_wf_frame(old(self)@, self@); }
    }

    /// Hold a non-posted write until its line is granted.
    pub fn add_pending_nonposted_completion(&mut self, request: CoherenceMessage)
        requires
            old(self).wf(),
        ensures
            final(self).wf(),
            final(self)@ == (CacheContentsModel {
                nonposted_completions: old(self)@.nonposted_completions.push(
                    (line_tag(old(self)@, request.dst_addr), line_set(old(self)@, request.dst_addr), request),
                ),
                ..old(self)@
            }),
    {
        let (tag, set_index) = self.tag_and_set_index_for_addr(request.dst_addr);
        self.pending_nonposted_completions.push((tag, set_index, request));
        proof { lemma_wf_frame(old(self)@, self@); }
    }

    /// Hold a request that bypasses allocation until it completes.
    pub fn add_pending_noallocate_completion(&mut self, request: CoherenceMessage)
        requires
            old(self).wf(),
        ensures
            final(self).wf(),
            final(self)@ == (CacheContentsModel {
                noallocate_completions: old(self)@.noallocate_completions.push(request),
                ..old(self)@
            }),
    {
        self.pending_noallocate_completions.push(request);
        proof { lemma_wf_frame(old(self)@, self@); }
    }

    /// Hold a write that waits for exclusive access: a non-posted write
    /// until its completion, another write until its line is filled.
    pub fn add_pending_exclusive_write(&mut self, request: CoherenceMessage)
        requires
            old(self).wf(),
        ensures
            final(self).wf(),
            request.access_type == AccessKind::WriteNonPostedRequest ==> final(self)@ == (CacheContentsModel {
                nonposted_completions: old(self)@.nonposted_completions.push(
                    (line_tag(old(self)@, request.dst_addr), line_set(old(self)@, request.dst_addr), request),
                ),
                ..old(self)@
            }),
            request.access_type != AccessKind::WriteNonPostedRequest ==> final(self)@ == (CacheContentsModel {
                line_waiters: old(self)@.line_waiters.push(
                    (line_tag(old(self)@, request.dst_addr), line_set(old(self)@, request.dst_addr), request),
                ),
                ..old(self)@
            }),
    {
        if request.access_type == AccessKind::WriteNonPostedRequest {
            self.add_pending_nonposted_completion(request);
        } else {
            self.add_pending_line_waiter(request);
        }
    }

    /// Take the requests waiting on the line of a response; `None` when
    /// none waits.
    pub fn take_pending_line_waiters(&mut self, response: &CoherenceMessage) -> (taken: Option<Vec<CoherenceMessage>>)
        requires
            old(self).wf(),
        ensures
            final(self).wf(),
            ({
                let c = old(self)@;
                let tag = line_tag(c, response.dst_addr);
                let set = line_set(c, response.dst_addr);
                &&& selected_waiters(c.line_waiters, tag, set, false).len() == 0 ==> taken is None && final(self)@ == c
                &&& selected_waiters(c.line_waiters, tag, set, false).len() > 0 ==> (taken matches Some(t) && t@ == selected_waiters(
                    c.line_waiters,
                    tag,
                    set,
                    false,
                )) && final(self)@ == (CacheContentsModel { line_waiters: kept_waiters(c.line_waiters, tag, set, false), ..c })
            }),
    {
        let (tag, set_index) = self.tag_and_set_index_for_addr(response.dst_addr);
        let taken = take_pending_for_line(&mut self.pending_line_waiters, tag, set_index, false);
        proof { lemma_wf_frame(old(self)@, self@); }
        taken
    }

    /// Take the non-posted writes waiting on the line of a response; `None`
    /// when none waits.
    pub fn take_pending_nonposted_completions(&mut self, response: &CoherenceMessage) -> (taken: Option<Vec<CoherenceMessage>>)
        requires
            old(self).wf(),
        ensures
            final(self).wf(),
            ({
                let c = old(self)@;
                let tag = line_tag(c, response.dst_addr);
                let set = line_set(c, response.dst_addr);
                &&& selected_waiters(c.nonposted_completions, tag, set, false).len() == 0 ==> taken is None && final(self)@ == c
                &&& selected_waiters(c.nonposted_completions, tag, set, false).len() > 0 ==> (taken matches Some(t) && t@
                    == selected_waiters(c.nonposted_completions, tag, set, false)) && final(self)@ == (CacheContentsModel {
                    nonposted_completions: kept_waiters(c.nonposted_completions, tag, set, false),
                    ..c
                })
            }),
    {
        let (tag, set_index) = self.tag_and_set_index_for_addr(response.dst_addr);
        let taken = take_pending_for_line(&mut self.pending_nonposted_completions, tag, set_index, false);
        proof { lemma_wf_frame(old(self)@, self@); }
        taken
    }

    /// Take the requests waiting on other lines of the set of `addr` than
    /// the one with tag `skip_tag`; `None` when none waits.
    pub fn take_pending_line_waiters_for_index_except_tag(&mut self, addr: u64, skip_tag: u64) -> (taken: Option<Vec<CoherenceMessage>>)
        requires
            old(self).wf(),
        ensures
            final(self).wf(),
            ({
                let c = old(self)@;
                let set = line_set(c, addr);
                &&& selected_waiters(c.line_waiters, skip_tag, set, true).len() == 0 ==> taken is None && final(self)@ == c
                &&& selected_waiters(c.line_waiters, skip_tag, set, true).len() > 0 ==> (taken matches Some(t) && t@ == selected_waiters(
                    c.line_waiters,
                    skip_tag,
                    set,
                    true,
                )) && final(self)@ == (CacheContentsModel { line_waiters: kept_waiters(c.line_waiters, skip_tag, set, true), ..c })
            }),
    {
        let (_, set_index) = self.tag_and_set_index_for_addr(addr);
        let taken = take_pending_for_line(&mut self.pending_line_waiters, skip_tag, set_index, true);
        proof { lemma_wf_frame(old(self)@, self@); }
        taken
    }

    /// Take the request, among those that bypass allocation, that a response
    /// completes.
    pub fn take_pending_noallocate_completion(&mut self, response: &CoherenceMessage) -> (taken: Option<CoherenceMessage>)
        requires
            old(self).wf(),
        ensures
            final(self).wf(),
            ({
                let c = old(self)@;
                match first_with_id(c.noallocate_completions, response.id, c.noallocate_completions.len()) {
                    Some(i) => taken == Some(c.noallocate_completions[i as int]) && final(self)@ == (CacheContentsModel {
                        noallocate_completions: c.noallocate_completions.remove(i as int),
                        ..c
                    }),
                    None => taken is None && final(self)@ == c,
                }
            }),
    {
        let ghost c = self@;
        let mut i: usize = 0;
        while i < self.pending_noallocate_completions.len()
            invariant
                self@ == c,
                c == old(self)@,
                self.wf(),
                i <= c.noallocate_completions.len(),
                first_with_id(c.noallocate_completions, response.id, i as nat) is None,
            decreases c.noallocate_completions.len() - i,
        {
            if self.pending_noallocate_completions[i].id == response.id {
                proof {
                    assert(first_with_id(c.noallocate_completions, response.id, (i + 1) as nat) == Some(i as nat));
                    lemma_first_with_id_stable(c.noallocate_completions, response.id, (i + 1) as nat, c.noallocate_completions.len());
                }
                let request = self.pending_noallocate_completions.remove(i);
                proof {
                    lemma_wf_frame(c, self@);
                    assert(self@ == (CacheContentsModel { noallocate_completions: c.noallocate_completions.remove(i as int), ..c }));
                }
                return Some(request);
            }
            i = i + 1;
        }
        None
    }

    /// Whether a write waits on the line holding `addr`.
    pub fn has_pending_write_for_addr(&self, addr: u64) -> (waits: bool)
        requires
            self.wf(),
        ensures
            waits == (write_waits(self@.line_waiters, line_tag(self@, addr), line_set(self@, addr)) || write_waits(
                self@.nonposted_completions,
                line_tag(self@, addr),
                line_set(self@, addr),
            )),
    {
        let (tag, set_index) = self.tag_and_set_index_for_addr(addr);
        pending_write_in(self.pending_line_waiters.as_slice(), tag, set_index) || pending_write_in(
            self.pending_nonposted_completions.as_slice(),
            tag,
            set_index,
        )
    }

    /// Hold a request behind the active barrier.
    pub fn queue_blocked_device_request(&mut self, request: CoherenceMessage)
        requires
            old(self).wf(),
        ensures
            final(self).wf(),
            final(self)@ == (CacheContentsModel { blocked: old(self)@.blocked.push(request), ..old(self)@ }),
    {
        self.blocked_device_requests.push_back(request);
        proof { lemma_wf_frame(old(self)@, self@); }
    }

    /// Release the oldest request held behind a barrier.
    pub fn take_next_blocked_device_request(&mut self) -> (request: Option<CoherenceMessage>)
        requires
            old(self).wf(),
        ensures
            final(self).wf(),
            old(self)@.blocked.len() == 0 ==> request is None && final(self)@ == old(self)@,
            old(self)@.blocked.len() > 0 ==> request == Some(old(self)@.blocked[0]) && final(self)@ == (CacheContentsModel {
                blocked: old(self)@.blocked.drop_first(),
                ..old(self)@
            }),
    {
        let request = self.blocked_device_requests.pop_front();
        proof {
            lemma_wf_frame(old(self)@, self@);
            if old(self)@.blocked.len() > 0 {
                assert(old(self)@.blocked.subrange(1, old(self)@.blocked.len() as int) =~= old(self)@.blocked.drop_first());
            }
        }
        request
    }

    /// Whether a barrier is active.
    pub fn has_active_barrier(&self) -> (active: bool)
        ensures
            active == (self@.active_barrier is Some),
    {
        self.active_barrier.is_some()
    }

    /// Make a barrier active; it is not yet forwarded.
    pub fn set_active_barrier(&mut self, request: CoherenceMessage)
        requires
            old(self).wf(),
        ensures
            final(self).wf(),
            final(self)@ == (CacheContentsModel { active_barrier: Some(request), barrier_forwarded: false, ..old(self)@ }),
    {
        self.active_barrier = Some(request);
        self.barrier_forwarded = false;
        proof { lemma_wf_frame(old(self)@, self@); }
    }

    /// Record that the active barrier was forwarded.
    pub fn mark_barrier_forwarded(&mut self)
        requires
            old(self).wf(),
        ensures
            final(self).wf(),
            final(self)@ == (CacheContentsModel { barrier_forwarded: true, ..old(self)@ }),
    {
        self.barrier_forwarded = true;
        proof { lemma_wf_frame(old(self)@, self@); }
    }

    /// Whether the active barrier was forwarded.
    pub fn barrier_forwarded(&self) -> (forwarded: bool)
        ensures
            forwarded == self@.barrier_forwarded,
    {
        self.barrier_forwarded
    }

    /// The active barrier, if any.
    pub fn active_barrier(&self) -> (barrier: Option<CoherenceMessage>)
        ensures
            barrier == self@.active_barrier,
    {
        self.active_barrier
    }

    /// End the active barrier and give it back.
    pub fn clear_active_barrier(&mut self) -> (barrier: Option<CoherenceMessage>)
        requires
            old(self).wf(),
        ensures
            final(self).wf(),
            barrier == old(self)@.active_barrier,
            final(self)@ == (CacheContentsModel { active_barrier: None, barrier_forwarded: false, ..old(self)@ }),
    {
        self.barrier_forwarded = false;
        let barrier = self.active_barrier.take();
        proof { lemma_wf_frame(old(self)@, self@); }
        barrier
    }
}

/// Whether a write waits on the line with this tag and set.
fn pending_write_in(waiters: &[LineWaiter], tag: u64, set_index: usize) -> (waits: bool)
    ensures
        waits == write_waits(waiters@, tag, set_index),
{
    let mut i: usize = 0;
    while i < waiters.len()
        invariant
            i <= waiters@.len(),
            forall|j: int| 0 <= j < i ==> !((#[trigger] waiters@[j]).0 == tag && waiters@[j].1 == set_index && (waiters@[j].2.access_type
                == AccessKind::WriteRequest || waiters@[j].2.access_type == AccessKind::WriteNonPostedRequest)),
        decreases waiters@.len() - i,
    {
        let w = waiters[i];
        if w.0 == tag && w.1 == set_index && (w.2.access_type == AccessKind::WriteRequest || w.2.access_type == AccessKind::WriteNonPostedRequest) {
            return true;
        }
        i = i + 1;
    }
    false
}

} // verus!

verus! {

/// The way found first holds the line, and no way before it does.
proof fn lemma_first_holding_prefix(c: CacheContentsModel, s: nat, tag: u64, k: nat)
    ensures
        first_holding(c, s, tag, k) matches Some(w) ==> first_holding(c, s, tag, w) is None,
    decreases k,
{
    if k > 0 {
        lemma_first_holding_prefix(c, s, tag, (k - 1) as nat);
    }
}

/// A way that holds the line, with none before it that does, is the one
/// found.
proof fn lemma_first_holding_is(c: CacheContentsModel, s: nat, tag: u64, w: nat, k: nat)
    requires
        w < k,
        holds(entry_at(c, s, w), tag),
        forall|v: nat| v < w ==> !holds(#[trigger] entry_at(c, s, v), tag),
    ensures
        first_holding(c, s, tag, k) == Some(w),
{
    lemma_first_holding_none(c, s, tag, w);
    assert(first_holding(c, s, tag, w + 1) == Some(w));
    lemma_first_holding_stable(c, s, tag, w + 1, k);
}

/// Sets whose ways agree find the same way.
pub(crate) proof fn lemma_first_holding_same(a: CacheContentsModel, b: CacheContentsModel, s: nat, tag: u64, k: nat)
    requires
        forall|v: nat| v < k ==> #[trigger] entry_at(a, s, v) == entry_at(b, s, v),
    ensures
        first_holding(a, s, tag, k) == first_holding(b, s, tag, k),
    decreases k,
{
    if k > 0 {
        lemma_first_holding_same(a, b, s, tag, (k - 1) as nat);
        assert(entry_at(a, s, (k - 1) as nat) == entry_at(b, s, (k - 1) as nat));
    }
}

/// The set of a line is one of the cache's sets.
proof fn lemma_line_set_bound(c: CacheContentsModel, addr: u64)
    requires
        c.line_size >= 1,
        c.num_sets >= 1,
        c.num_sets <= usize::MAX,
    ensures
        line_set(c, addr) as nat == (addr as nat / c.line_size) % c.num_sets,
        line_set(c, addr) < c.num_sets,
{
    vstd::arithmetic::div_mod::lemma_mod_bound((addr as nat / c.line_size) as int, c.num_sets as int);
}

/// Replacing one way of a set leaves every other way of every set alone.
proof fn lemma_other_ways(c: CacheContentsModel, n: CacheContentsModel, s: nat, w: nat, e: CacheEntry, s2: nat, v: nat)
    requires
        model_wf(c),
        s < c.num_sets,
        w < c.num_ways,
        s2 < c.num_sets,
        v < c.num_ways,
        n.num_ways == c.num_ways,
        n.entries == c.entries.update(entry_index(c, s, w), e),
    ensures
        (s2 != s || v != w) ==> entry_at(n, s2, v) == entry_at(c, s2, v),
        entry_at(n, s, w) == e,
{
    lemma_index(c, s, w);
    lemma_index(c, s2, v);
    if s2 != s || v != w {
        if entry_index(c, s2, v) == entry_index(c, s, w) {
            lemma_same_index(s2, v, s, w, c.num_ways);
        }
    }
}

/// A line that is allocated, in a cache that did not hold it or held it in
/// a way the allocation applies to, is afterwards in the allocation's
/// state; the lines of every other set keep their state.
pub proof fn lemma_allocate_then_state<T: LineStateTransition>(contents: &CacheContents, addr: u64, other: u64)
    requires
        contents.wf(),
        allocate_result::<T>(contents@, addr) is Allocated,
        T::target() != LineState::Invalid,
        way_of(contents@, line_set(contents@, addr) as nat, line_tag(contents@, addr)) matches Some(w) ==> T::accepts(
            entry_at(contents@, line_set(contents@, addr) as nat, w).line_state,
        ),
    ensures
        state_of(after_allocate::<T>(contents@, addr), addr) == Some(T::target()),
        line_set(contents@, other) != line_set(contents@, addr) ==> state_of(after_allocate::<T>(contents@, addr), other)
            == state_of(contents@, other),
{
    let c = contents@;
    let n = after_allocate::<T>(c, addr);
    let s = line_set(c, addr) as nat;
    let tag = line_tag(c, addr);
    lemma_line_set_bound(c, addr);
    lemma_line_set_bound(c, other);
    lemma_first_holding_bound(c, s, tag, c.num_ways);
    lemma_first_reusable_bound::<T>(c, s, c.num_ways);
    let w = allocation_way::<T>(c, addr)->Some_0;
    assert(w < c.num_ways);
    let e = CacheEntry { line_state: T::target(), tag };
    assert forall|v: nat| v < c.num_ways && v != w implies #[trigger] entry_at(n, s, v) == entry_at(c, s, v) by {
        lemma_other_ways(c, n, s, w, e, s, v);
    }
    lemma_other_ways(c, n, s, w, e, s, w);
    lemma_first_holding_prefix(c, s, tag, c.num_ways);
    match way_of(c, s, tag) {
        Some(w0) => {
            assert(w0 == w);
            lemma_first_holding_none(c, s, tag, w);
        },
        None => {
            lemma_first_holding_none(c, s, tag, c.num_ways);
        },
    }
    assert forall|v: nat| v < w implies !holds(#[trigger] entry_at(n, s, v), tag) by {
        assert(entry_at(n, s, v) == entry_at(c, s, v));
    }
    lemma_first_holding_is(n, s, tag, w, n.num_ways);
    if line_set(c, other) != line_set(c, addr) {
        let s2 = line_set(c, other) as nat;
        assert forall|v: nat| v < c.num_ways implies #[trigger] entry_at(c, s2, v) == entry_at(n, s2, v) by {
            lemma_other_ways(c, n, s, w, e, s2, v);
        }
        lemma_first_holding_same(c, n, s2, line_tag(c, other), c.num_ways);
        lemma_first_holding_bound(c, s2, line_tag(c, other), c.num_ways);
        assert(line_set(n, other) == line_set(c, other) && line_tag(n, other) == line_tag(c, other));
        if let Some(w2) = way_of(c, s2, line_tag(c, other)) {
            assert(entry_at(c, s2, w2) == entry_at(n, s2, w2));
        }
    }
}

/// A transition that applies to a held line, and leads to a state that
/// holds it, leaves the line in that state.
pub proof fn lemma_transition_then_state<T: LineStateTransition>(contents: &CacheContents, addr: u64)
    requires
        contents.wf(),
        transition_applies::<T>(contents@, addr),
        T::target() != LineState::Invalid,
    ensures
        state_of(after_transition::<T>(contents@, addr), addr) == Some(T::target()),
{
    let c = contents@;
    let n = after_transition::<T>(c, addr);
    let s = line_set(c, addr) as nat;
    let tag = line_tag(c, addr);
    lemma_line_set_bound(c, addr);
    lemma_first_holding_bound(c, s, tag, c.num_ways);
    lemma_first_holding_prefix(c, s, tag, c.num_ways);
    let w = way_of(c, s, tag)->Some_0;
    let e = CacheEntry { line_state: T::target(), tag: entry_at(c, s, w).tag };
    lemma_first_holding_none(c, s, tag, w);
    lemma_other_ways(c, n, s, w, e, s, w);
    assert forall|v: nat| v < w implies !holds(#[trigger] entry_at(n, s, v), tag) by {
        lemma_other_ways(c, n, s, w, e, s, v);
    }
    lemma_first_holding_is(n, s, tag, w, n.num_ways);
}

/// No empty way of the line's set carries the line's tag.
pub open spec fn no_stale_tag(c: CacheContentsModel, addr: u64) -> bool {
    forall|v: nat|
        v < c.num_ways && (#[trigger] entry_at(c, line_set(c, addr) as nat, v)).line_state == LineState::Invalid
            ==> entry_at(c, line_set(c, addr) as nat, v).tag != line_tag(c, addr)
}

/// Dropping a way that held the line leaves the line held nowhere when no
/// other way held it.
proof fn lemma_dropped_not_held(c: CacheContentsModel, n: CacheContentsModel, addr: u64, w: nat)
    requires
        model_wf(c),
        lines_unique(c),
        line_set(c, addr) < c.num_sets,
        w < c.num_ways,
        holds(entry_at(c, line_set(c, addr) as nat, w), line_tag(c, addr)),
        n == with_entry(c, line_set(c, addr) as nat, w, CacheEntry { line_state: LineState::Invalid, tag: 0 }),
    ensures
        state_of(n, addr) is None,
{
    let s = line_set(c, addr) as nat;
    let tag = line_tag(c, addr);
    let e = CacheEntry { line_state: LineState::Invalid, tag: 0 };
    assert forall|v: nat| v < n.num_ways implies !holds(#[trigger] entry_at(n, s, v), tag) by {
        lemma_other_ways(c, n, s, w, e, s, v);
        if v != w && holds(entry_at(c, s, v), tag) {
            assert(holds(entry_at(c, s, v), entry_at(c, s, w).tag));
            assert(entry_at(c, s, w).line_state != LineState::Invalid);
        }
    }
    lemma_first_holding_none(n, s, tag, n.num_ways);
}

/// Invalidating a line, in a cache where each line has at most one way and
/// no empty way of its set carries its tag, leaves the line held nowhere.
pub proof fn lemma_invalidate_then_absent(contents: &CacheContents, addr: u64)
    requires
        contents.wf(),
        lines_unique(contents@),
        no_stale_tag(contents@, addr),
    ensures
        state_of(after_invalidate(contents@, addr), addr) is None,
{
    let c = contents@;
    let s = line_set(c, addr) as nat;
    let tag = line_tag(c, addr);
    lemma_line_set_bound(c, addr);
    lemma_first_tagged_bound(c, s, tag, c.num_ways);
    match first_tagged(c, s, tag, c.num_ways) {
        Some(w) => {
            assert(entry_at(c, s, w).line_state != LineState::Invalid);
            lemma_dropped_not_held(c, after_invalidate(c, addr), addr, w);
        },
        None => {
            assert forall|v: nat| v < c.num_ways implies !holds(#[trigger] entry_at(c, s, v), tag) by {
                lemma_first_tagged_none(c, s, tag, c.num_ways, v);
            }
            lemma_first_holding_none(c, s, tag, c.num_ways);
        },
    }
}

/// No way among the first `k` has the tag when none is found.
proof fn lemma_first_tagged_none(c: CacheContentsModel, s: nat, tag: u64, k: nat, v: nat)
    requires
        first_tagged(c, s, tag, k) is None,
        v < k,
    ensures
        entry_at(c, s, v).tag != tag,
    decreases k,
{
    if v < k - 1 {
        lemma_first_tagged_none(c, s, tag, (k - 1) as nat, v);
    }
}

/// Evicting a modified line, in a cache where each line has at most one
/// way, leaves the line held nowhere.
pub proof fn lemma_evict_then_absent(contents: &CacheContents, addr: u64)
    requires
        contents.wf(),
        lines_unique(contents@),
        state_of(contents@, addr) == Some(LineState::Modified),
    ensures
        state_of(after_evict(contents@, addr), addr) is None,
{
    let c = contents@;
    let s = line_set(c, addr) as nat;
    let tag = line_tag(c, addr);
    lemma_line_set_bound(c, addr);
    lemma_first_holding_bound(c, s, tag, c.num_ways);
    let w = way_of(c, s, tag)->Some_0;
    lemma_dropped_not_held(c, after_evict(c, addr), addr, w);
}

} // verus!

verus! {

/// A line the cache holds is in a state other than invalid.
pub proof fn lemma_state_of_held(c: CacheContentsModel, addr: u64)
    ensures
        state_of(c, addr) matches Some(s) ==> s != LineState::Invalid,
{
    lemma_first_holding_bound(c, line_set(c, addr) as nat, line_tag(c, addr), c.num_ways);
}

} // verus!
