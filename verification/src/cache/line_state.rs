//! The states of a coherent cache line and the transitions between them.
use vstd::prelude::*;

verus! {

/// The state of a cache line.
#[derive(Clone, Copy, Debug, PartialEq, Eq, Structural)]
pub enum LineState {
    Invalid,
    AllocatedShared,
    AllocatedExclusive,
    Shared,
    Exclusive,
    Modified,
}

impl Default for LineState {
    fn default() -> (state: Self)
        ensures
            state == LineState::Invalid,
    {
        LineState::Invalid
    }
}

/// A line waiting for its fill.
pub open spec fn allocated(s: LineState) -> bool {
    s == LineState::AllocatedShared || s == LineState::AllocatedExclusive
}

/// A line whose way may be reused.
pub open spec fn evictable(s: LineState) -> bool {
    s == LineState::Invalid || s == LineState::Shared || s == LineState::Exclusive
}

/// A line that serves reads.
pub open spec fn read_hit(s: LineState) -> bool {
    s == LineState::Shared || s == LineState::Exclusive || s == LineState::Modified
}

/// A line that serves writes.
pub open spec fn write_hit(s: LineState) -> bool {
    s == LineState::Exclusive || s == LineState::Modified
}

/// The name of a line state.
pub open spec fn line_state_name(x: LineState) -> Seq<char> {
    match x {
        LineState::Invalid => "Invalid"@,
        LineState::AllocatedShared => "AllocatedShared"@,
        LineState::AllocatedExclusive => "AllocatedExclusive"@,
        LineState::Shared => "Shared"@,
        LineState::Exclusive => "Exclusive"@,
        LineState::Modified => "Modified"@,
    }
}

impl LineState {
    /// Whether the line waits for its fill.
    pub fn is_allocated(self) -> (b: bool)
        ensures
            b == allocated(self),
    {
        match self {
            LineState::AllocatedShared | LineState::AllocatedExclusive => true,
            _ => false,
        }
    }

    /// Whether the line's way may be reused.
    pub fn is_evictable(self) -> (b: bool)
        ensures
            b == evictable(self),
    {
        match self {
            LineState::Invalid | LineState::Shared | LineState::Exclusive => true,
            _ => false,
        }
    }

    /// Whether the line serves reads.
    pub fn can_read_hit(self) -> (b: bool)
        ensures
            b == read_hit(self),
    {
        match self {
            LineState::Shared | LineState::Exclusive | LineState::Modified => true,
            _ => false,
        }
    }

    /// Whether the line serves writes.
    pub fn can_write_hit(self) -> (b: bool)
        ensures
            b == write_hit(self),
    {
        match self {
            LineState::Exclusive | LineState::Modified => true,
            _ => false,
        }
    }

    /// The name of the state.
    pub fn as_str(self) -> (name: &'static str)
        ensures
            name@ == line_state_name(self),
    {
        match self {
            LineState::Invalid => "Invalid",
            LineState::AllocatedShared => "AllocatedShared",
            LineState::AllocatedExclusive => "AllocatedExclusive",
            LineState::Shared => "Shared",
            LineState::Exclusive => "Exclusive",
            LineState::Modified => "Modified",
        }
    }
}

/// Every line that serves writes also serves reads, and a line waiting for
/// its fill serves neither and cannot be evicted.
pub proof fn lemma_line_state_predicates(s: LineState)
    ensures
        write_hit(s) ==> read_hit(s),
        allocated(s) ==> !read_hit(s) && !write_hit(s) && !evictable(s),
{
}

/// A transition of a line's state: the states it applies to and the state
/// it leads to.
pub trait LineStateTransition {
    /// Whether the transition applies to a line in state `s`.
    spec fn accepts(s: LineState) -> bool;

    /// The state the transition leads to.
    spec fn target() -> LineState;

    /// Whether the transition applies to a line in state `s`.
    fn applies_to(s: LineState) -> (b: bool)
        ensures
            b == Self::accepts(s);

    /// The state the transition leads to.
    fn to_state() -> (s: LineState)
        ensures
            s == Self::target();
}

/// Allocate a line for a shared fill.
pub struct AllocateShared;
/// Allocate a line for an exclusive fill.
pub struct AllocateExclusive;
/// Complete a shared fill.
pub struct GrantShared;
/// Complete an exclusive fill with clean data.
pub struct GrantExclusiveClean;
/// Complete an exclusive fill with modified data.
pub struct GrantExclusiveModified;
/// Write to a line held exclusively.
pub struct LocalWriteModified;
/// Drop a line.
pub struct InvalidateLine;

impl LineStateTransition for AllocateShared {
    open spec fn accepts(s: LineState) -> bool {
        evictable(s)
    }

    open spec fn target() -> LineState {
        LineState::AllocatedShared
    }

    fn applies_to(s: LineState) -> (b: bool) {
        s.is_evictable()
    }

    fn to_state() -> (s: LineState) {
        LineState::AllocatedShared
    }
}

impl LineStateTransition for AllocateExclusive {
    open spec fn accepts(s: LineState) -> bool {
        evictable(s)
    }

    open spec fn target() -> LineState {
        LineState::AllocatedExclusive
    }

    fn applies_to(s: LineState) -> (b: bool) {
        s.is_evictable()
    }

    fn to_state() -> (s: LineState) {
        LineState::AllocatedExclusive
    }
}

impl LineStateTransition for GrantShared {
    open spec fn accepts(s: LineState) -> bool {
        s == LineState::AllocatedShared
    }

    open spec fn target() -> LineState {
        LineState::Shared
    }

    fn applies_to(s: LineState) -> (b: bool) {
        s == LineState::AllocatedShared
    }

    fn to_state() -> (s: LineState) {
        LineState::Shared
    }
}

impl LineStateTransition for GrantExclusiveClean {
    open spec fn accepts(s: LineState) -> bool {
        allocated(s)
    }

    open spec fn target() -> LineState {
        LineState::Exclusive
    }

    fn applies_to(s: LineState) -> (b: bool) {
        s.is_allocated()
    }

    fn to_state() -> (s: LineState) {
        LineState::Exclusive
    }
}

impl LineStateTransition for GrantExclusiveModified {
    open spec fn accepts(s: LineState) -> bool {
        allocated(s)
    }

    open spec fn target() -> LineState {
        LineState::Modified
    }

    fn applies_to(s: LineState) -> (b: bool) {
        s.is_allocated()
    }

    fn to_state() -> (s: LineState) {
        LineState::Modified
    }
}

impl LineStateTransition for LocalWriteModified {
    open spec fn accepts(s: LineState) -> bool {
        write_hit(s)
    }

    open spec fn target() -> LineState {
        LineState::Modified
    }

    fn applies_to(s: LineState) -> (b: bool) {
        s.can_write_hit()
    }

    fn to_state() -> (s: LineState) {
        LineState::Modified
    }
}

impl LineStateTransition for InvalidateLine {
    open spec fn accepts(s: LineState) -> bool {
        s != LineState::Invalid
    }

    open spec fn target() -> LineState {
        LineState::Invalid
    }

    fn applies_to(s: LineState) -> (b: bool) {
        s != LineState::Invalid
    }

    fn to_state() -> (s: LineState) {
        LineState::Invalid
    }
}

/// One way of a cache set: the line's state and its tag.
#[derive(Clone, Copy, Debug, PartialEq, Eq, Structural)]
pub struct CacheEntry {
    pub line_state: LineState,
    pub tag: u64,
}

impl Default for CacheEntry {
    fn default() -> (entry: Self)
        ensures
            entry == (CacheEntry { line_state: LineState::Invalid, tag: 0 }),
    {
        CacheEntry { line_state: LineState::Invalid, tag: 0 }
    }
}

impl CacheEntry {
    /// Whether transition `T` applies to this entry's line.
    pub fn can_apply<T: LineStateTransition>(&self) -> (b: bool)
        ensures
            b == T::accepts(self.line_state),
    {
        T::applies_to(self.line_state)
    }

    /// Apply transition `T` where it applies; says whether it did. The tag
    /// is kept.
    pub fn apply<T: LineStateTransition>(&mut self) -> (applied: bool)
        ensures
            applied == T::accepts(old(self).line_state),
            final(self).line_state == if applied { T::target() } else { old(self).line_state },
            final(self).tag == old(self).tag,
    {
        if !self.can_apply::<T>() {
            return false;
        }
        self.line_state = T::to_state();
        true
    }
}

/// The lifecycle of a line: it is filled only after being allocated, and
/// written only while held exclusively.
pub proof fn lemma_transition_sources()
    ensures
        forall|s: LineState| #[trigger] GrantShared::accepts(s) ==> allocated(s),
        forall|s: LineState| #[trigger] GrantExclusiveClean::accepts(s) ==> allocated(s),
        forall|s: LineState| #[trigger] GrantExclusiveModified::accepts(s) ==> allocated(s),
        forall|s: LineState| #[trigger] LocalWriteModified::accepts(s) ==> write_hit(s),
        forall|s: LineState| #[trigger] AllocateShared::accepts(s) ==> evictable(s),
        forall|s: LineState| #[trigger] AllocateExclusive::accepts(s) ==> evictable(s),
{
}

} // verus!
