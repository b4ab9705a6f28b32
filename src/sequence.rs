//! Registered tap sequences and the matcher that compares observed taps
//! against them.
use vstd::prelude::*;

use crate::state::TapEvent;
use crate::types::{same_category, TapDuration};
use std::collections::VecDeque;

verus! {

/// An ordered list of tap categories that, once observed in full, completes
/// a gesture.
#[derive(Debug, Clone)]
pub struct TapSequence {
    pub sequence: Vec<TapDuration>,
}

/// A registered sequence and the action bound to it. The detector never
/// looks inside the action; it reports which binding completed.
#[derive(Clone)]
pub struct PatternAction<A> {
    pub sequence: TapSequence,
    pub action: A,
}

/// The categories of a run of observed taps, in order.
pub open spec fn event_categories(events: Seq<TapEvent>) -> Seq<TapDuration> {
    events.map_values(|e: TapEvent| e.tap.tap_type)
}

/// `observed` spells `pattern`: same length, same categories in order.
pub open spec fn categories_equal(observed: Seq<TapDuration>, pattern: Seq<TapDuration>) -> bool {
    &&& observed.len() == pattern.len()
    &&& forall|i: int| 0 <= i < observed.len() ==> same_category(#[trigger] observed[i], pattern[i])
}

/// `pattern` is strictly longer than `observed` and starts with it.
pub open spec fn extends(pattern: Seq<TapDuration>, observed: Seq<TapDuration>) -> bool {
    &&& pattern.len() > observed.len()
    &&& forall|i: int| 0 <= i < observed.len() ==> same_category(pattern[i], #[trigger] observed[i])
}

impl TapSequence {
    pub fn new(sequence: Vec<TapDuration>) -> (r: TapSequence)
        ensures
            r.sequence@ == sequence@,
    {
        TapSequence { sequence }
    }

    /// Whether the observed taps spell exactly this sequence.
    pub fn matches(&self, events: &VecDeque<TapEvent>) -> (r: bool)
        ensures
            r == categories_equal(event_categories(events@), self.sequence@),
    {
        if events.len() != self.sequence.len() {
            return false;
        }
        let mut i: usize = 0;
        while i < events.len()
            invariant
                events@.len() == self.sequence@.len(),
                i <= events@.len(),
                forall|j: int| 0 <= j < i ==> same_category(#[trigger] event_categories(events@)[j], self.sequence@[j]),
            decreases events@.len() - i,
        {
            if !events[i].tap.tap_type.same_as(&self.sequence[i]) {
                assert(!same_category(event_categories(events@)[i as int], self.sequence@[i as int]));
                return false;
            }
            i = i + 1;
        }
        true
    }

    /// Whether this sequence is strictly longer than the observed taps and
    /// begins with them.
    pub fn extends_events(&self, events: &VecDeque<TapEvent>) -> (r: bool)
        ensures
            r == extends(self.sequence@, event_categories(events@)),
    {
        if self.sequence.len() <= events.len() {
            return false;
        }
        let mut i: usize = 0;
        while i < events.len()
            invariant
                self.sequence@.len() > events@.len(),
                i <= events@.len(),
                forall|j: int| 0 <= j < i ==> same_category(self.sequence@[j], #[trigger] event_categories(events@)[j]),
            decreases events@.len() - i,
        {
            if !self.sequence[i].same_as(&events[i].tap.tap_type) {
                assert(!same_category(self.sequence@[i as int], event_categories(events@)[i as int]));
                return false;
            }
            i = i + 1;
        }
        true
    }
}

} // verus!
