//! Lanes for reporting activities that may overlap in time: an activity
//! takes the first lane that is idle, and a new lane only when every lane
//! is busy.
use vstd::prelude::*;

verus! {

/// The first idle lane, or the number of lanes when all are busy.
pub open spec fn first_idle(lanes: Seq<bool>) -> nat
    decreases lanes.len(),
{
    if lanes.len() == 0 {
        0
    } else if first_idle(lanes.drop_last()) < lanes.len() - 1 {
        first_idle(lanes.drop_last())
    } else if lanes.last() {
        lanes.len()
    } else {
        (lanes.len() - 1) as nat
    }
}

/// The lanes after an activity begins on the first idle lane, or on a new
/// one.
pub open spec fn after_begin(lanes: Seq<bool>) -> Seq<bool> {
    let i = first_idle(lanes);
    if i < lanes.len() {
        lanes.update(i as int, true)
    } else {
        lanes.push(true)
    }
}

/// The first idle lane is idle, or there is none, and every lane before it
/// is busy.
pub proof fn lemma_first_idle(lanes: Seq<bool>)
    ensures
        first_idle(lanes) <= lanes.len(),
        first_idle(lanes) < lanes.len() ==> !lanes[first_idle(lanes) as int],
        forall|j: int| 0 <= j < first_idle(lanes) ==> #[trigger] lanes[j],
    decreases lanes.len(),
{
    if lanes.len() > 0 {
        let d = lanes.drop_last();
        lemma_first_idle(d);
        assert forall|j: int| 0 <= j < d.len() implies d[j] == #[trigger] lanes[j] by {}
        if first_idle(d) < d.len() {
            assert(lanes[first_idle(d) as int] == d[first_idle(d) as int]);
            assert forall|j: int| 0 <= j < first_idle(lanes) implies #[trigger] lanes[j] by {
                assert(d[j] == lanes[j]);
            }
        } else {
            assert forall|j: int| 0 <= j < first_idle(lanes) implies #[trigger] lanes[j] by {
                if j < d.len() {
                    assert(d[j] == lanes[j]);
                }
            }
        }
    }
}

/// Which lanes of an activity track are busy.
pub struct ActivityLanes {
    active: Vec<bool>,
}

impl View for ActivityLanes {
    type V = Seq<bool>;

    closed spec fn view(&self) -> Seq<bool> {
        self.active@
    }
}

impl ActivityLanes {
    /// A track without lanes.
    pub fn new() -> (lanes: Self)
        ensures
            lanes@ == Seq::<bool>::empty(),
    {
        ActivityLanes { active: Vec::new() }
    }

    /// The number of lanes.
    pub fn num_lanes(&self) -> (n: usize)
        ensures
            n == self@.len(),
    {
        self.active.len()
    }

    /// Whether a lane is busy.
    pub fn is_active(&self, lane: usize) -> (active: bool)
        requires
            lane < self@.len(),
        ensures
            active == self@[lane as int],
    {
        self.active[lane]
    }

    /// Begin an activity on the first idle lane, adding a lane when every
    /// lane is busy; return the lane.
    pub fn begin(&mut self) -> (lane: usize)
        requires
            old(self)@.len() < usize::MAX,
        ensures
            lane == first_idle(old(self)@),
            final(self)@ == after_begin(old(self)@),
    {
        proof {
            lemma_first_idle(self@);
        }
        let mut i: usize = 0;
        while i < self.active.len()
            invariant
                i <= self.active@.len(),
                self@ == old(self)@,
                i <= first_idle(self@),
                forall|j: int| 0 <= j < first_idle(self@) ==> #[trigger] self@[j],
                first_idle(self@) < self@.len() ==> !self@[first_idle(self@) as int],
            decreases self.active@.len() - i,
        {
            if !self.active[i] {
                self.active.set(i, true);
                return i;
            }
            i = i + 1;
        }
        self.active.push(true);
        i
    }

    /// End the activity on a lane, which becomes idle.
    pub fn end(&mut self, lane: usize)
        requires
            lane < old(self)@.len(),
        ensures
            final(self)@ == old(self)@.update(lane as int, false),
    {
        self.active.set(lane, false);
    }
}

/// An activity never shares a lane: the lane it takes was idle or is new,
/// and is busy afterwards; the other lanes are as they were.
pub proof fn lemma_begin_takes_an_idle_lane(lanes: Seq<bool>)
    ensures
        first_idle(lanes) < lanes.len() ==> !lanes[first_idle(lanes) as int],
        after_begin(lanes)[first_idle(lanes) as int],
        after_begin(lanes).len() == if first_idle(lanes) < lanes.len() { lanes.len() } else { lanes.len() + 1 },
        forall|j: int| 0 <= j < lanes.len() && j != first_idle(lanes) ==> #[trigger] after_begin(lanes)[j] == lanes[j],
{
    lemma_first_idle(lanes);
}

/// A lane that is ended is the one the next activity takes, when every lane
/// before it is busy.
pub proof fn lemma_ended_lane_is_reused(lanes: Seq<bool>, lane: int)
    requires
        0 <= lane < lanes.len(),
        forall|j: int| 0 <= j < lane ==> #[trigger] lanes[j],
    ensures
        first_idle(lanes.update(lane, false)) == lane,
{
    let l = lanes.update(lane, false);
    lemma_first_idle(l);
    if first_idle(l) < lane {
        assert(l[first_idle(l) as int] == lanes[first_idle(l) as int]);
    }
    if first_idle(l) > lane {
        assert(l[lane]);
    }
}

} // verus!
