//! Tap categories, duration ranges, taps, and the duration classifier.
use vstd::prelude::*;
use vstd::string::StringSliceAdditionalSpecFns;

verus! {

/// The category of a completed tap, decided by how long the key was held.
#[derive(Debug, Clone, Copy, Hash)]
pub enum TapDuration {
    Short,
    Long,
    Custom(&'static str),
}

/// Category identity: the built-in categories by variant, custom bands by
/// the text of their name.
pub open spec fn same_category(a: TapDuration, b: TapDuration) -> bool {
    match (a, b) {
        (TapDuration::Short, TapDuration::Short) => true,
        (TapDuration::Long, TapDuration::Long) => true,
        (TapDuration::Custom(x), TapDuration::Custom(y)) => x.spec_bytes() == y.spec_bytes(),
        _ => false,
    }
}

/// Byte-wise comparison of two names.
fn same_name(x: &str, y: &str) -> (r: bool)
    ensures
        r == (x.spec_bytes() == y.spec_bytes()),
{
    let a = x.as_bytes();
    let b = y.as_bytes();
    if a.len() != b.len() {
        assert(a@.len() != b@.len());
        return false;
    }
    let mut i: usize = 0;
    while i < a.len()
        invariant
            a@ == x.spec_bytes(),
            b@ == y.spec_bytes(),
            a@.len() == b@.len(),
            i <= a@.len(),
            forall|j: int| 0 <= j < i ==> a@[j] == b@[j],
        decreases a@.len() - i,
    {
        if a[i] != b[i] {
            assert(a@[i as int] != b@[i as int]);
            return false;
        }
        i = i + 1;
    }
    assert(a@ =~= b@);
    true
}

impl TapDuration {
    /// Whether two categories are the same category.
    pub fn same_as(&self, other: &TapDuration) -> (r: bool)
        ensures
            r == same_category(*self, *other),
    {
        match (self, other) {
            (TapDuration::Short, TapDuration::Short) => true,
            (TapDuration::Long, TapDuration::Long) => true,
            (TapDuration::Custom(x), TapDuration::Custom(y)) => same_name(x, y),
            _ => false,
        }
    }
}

impl PartialEq for TapDuration {
    fn eq(&self, other: &TapDuration) -> (r: bool) {
        self.same_as(other)
    }
}

impl Eq for TapDuration {}

impl vstd::std_specs::cmp::PartialEqSpecImpl for TapDuration {
    open spec fn obeys_eq_spec() -> bool {
        true
    }

    open spec fn eq_spec(&self, other: &TapDuration) -> bool {
        same_category(*self, *other)
    }
}

/// An inclusive band of press durations, in milliseconds, and the category
/// that a press inside it receives.
#[derive(Debug, Clone, Copy, PartialEq)]
pub struct TapRange {
    pub min_duration: u64,
    pub max_duration: u64,
    pub tap_type: TapDuration,
}

/// The longest press that the default short band accepts, in milliseconds.
pub const SHORT_TAP_MAX_MS: u64 = 300;

impl TapRange {
    pub fn new(min_duration: u64, max_duration: u64, tap_type: TapDuration) -> (r: TapRange)
        ensures
            r.min_duration == min_duration,
            r.max_duration == max_duration,
            r.tap_type == tap_type,
    {
        TapRange { min_duration, max_duration, tap_type }
    }

    /// The default short band: 0 to 300 ms.
    pub open spec fn short_spec() -> TapRange {
        TapRange { min_duration: 0, max_duration: SHORT_TAP_MAX_MS, tap_type: TapDuration::Short }
    }

    /// The default long band: from 301 ms on, without an upper end.
    pub open spec fn long_spec() -> TapRange {
        TapRange { min_duration: (SHORT_TAP_MAX_MS + 1) as u64, max_duration: u64::MAX, tap_type: TapDuration::Long }
    }

    /// The default short band: 0 to 300 ms.
    pub fn short() -> (r: TapRange)
        ensures
            r == TapRange::short_spec(),
    {
        TapRange::new(0, SHORT_TAP_MAX_MS, TapDuration::Short)
    }

    /// The default long band: from 301 ms on, without an upper end.
    pub fn long() -> (r: TapRange)
        ensures
            r == TapRange::long_spec(),
    {
        TapRange::new(SHORT_TAP_MAX_MS + 1, u64::MAX, TapDuration::Long)
    }

    /// Whether a press of `duration` milliseconds falls inside this band.
    pub fn contains(&self, duration: u64) -> (r: bool)
        ensures
            r == in_range(duration, *self),
    {
        self.min_duration <= duration && duration <= self.max_duration
    }
}

pub open spec fn in_range(d: u64, r: TapRange) -> bool {
    r.min_duration <= d <= r.max_duration
}

/// The category of the first band, in order, that contains `d`.
pub open spec fn first_match(d: u64, ranges: Seq<TapRange>) -> Option<TapDuration>
    decreases ranges.len(),
{
    if ranges.len() == 0 {
        None
    } else if in_range(d, ranges[0]) {
        Some(ranges[0].tap_type)
    } else {
        first_match(d, ranges.drop_first())
    }
}

/// The category of a press of `d` milliseconds: the first band that holds it
/// decides, and the first band's category stands in when none does.
pub open spec fn classify(d: u64, ranges: Seq<TapRange>) -> TapDuration
    recommends
        ranges.len() > 0,
{
    match first_match(d, ranges) {
        Some(c) => c,
        None => ranges[0].tap_type,
    }
}

/// No duration lies in two different bands.
pub open spec fn non_overlapping(ranges: Seq<TapRange>) -> bool {
    forall|j: int, k: int, d: u64|
        0 <= j < ranges.len() && 0 <= k < ranges.len() && j != k && #[trigger] in_range(d, ranges[j])
            ==> !#[trigger] in_range(d, ranges[k])
}

/// Classifies a press of `duration` milliseconds against `ranges`, in order.
pub fn classify_duration(duration: u64, ranges: &Vec<TapRange>) -> (r: TapDuration)
    requires
        ranges@.len() > 0,
    ensures
        r == classify(duration, ranges@),
{
    let mut i: usize = 0;
    assert(ranges@.subrange(0, ranges@.len() as int) =~= ranges@);
    while i < ranges.len()
        invariant
            i <= ranges@.len(),
            first_match(duration, ranges@) == first_match(duration, ranges@.subrange(i as int, ranges@.len() as int)),
        decreases ranges@.len() - i,
    {
        proof {
            let rest = ranges@.subrange(i as int, ranges@.len() as int);
            assert(rest.drop_first() =~= ranges@.subrange(i + 1, ranges@.len() as int));
        }
        if ranges[i].contains(duration) {
            return ranges[i].tap_type;
        }
        i = i + 1;
    }
    assert(ranges@.subrange(i as int, ranges@.len() as int).len() == 0);
    ranges[0].tap_type
}

proof fn lemma_first_match_at(d: u64, ranges: Seq<TapRange>, i: int)
    requires
        0 <= i < ranges.len(),
        in_range(d, ranges[i]),
        forall|j: int| 0 <= j < i ==> !in_range(d, #[trigger] ranges[j]),
    ensures
        first_match(d, ranges) == Some(ranges[i].tap_type),
    decreases i,
{
    if i > 0 {
        assert(!in_range(d, ranges[0]));
        let rest = ranges.drop_first();
        assert forall|j: int| 0 <= j < i - 1 implies !in_range(d, #[trigger] rest[j]) by {
            assert(rest[j] == ranges[j + 1]);
        }
        lemma_first_match_at(d, rest, i - 1);
    }
}

proof fn lemma_first_match_none(d: u64, ranges: Seq<TapRange>)
    requires
        forall|j: int| 0 <= j < ranges.len() ==> !in_range(d, #[trigger] ranges[j]),
    ensures
        first_match(d, ranges) is None,
    decreases ranges.len(),
{
    if ranges.len() > 0 {
        let rest = ranges.drop_first();
        assert forall|j: int| 0 <= j < rest.len() implies !in_range(d, #[trigger] rest[j]) by {
            assert(rest[j] == ranges[j + 1]);
        }
        lemma_first_match_none(d, rest);
    }
}

/// With bands that do not overlap, a duration inside a band receives that
/// band's category; a duration outside every band receives the first band's.
pub proof fn lemma_classify_non_overlapping(d: u64, ranges: Seq<TapRange>)
    requires
        ranges.len() > 0,
        non_overlapping(ranges),
    ensures
        forall|i: int| 0 <= i < ranges.len() && #[trigger] in_range(d, ranges[i])
            ==> classify(d, ranges) == ranges[i].tap_type,
        (forall|i: int| 0 <= i < ranges.len() ==> !#[trigger] in_range(d, ranges[i]))
            ==> classify(d, ranges) == ranges[0].tap_type,
{
    assert forall|i: int| 0 <= i < ranges.len() && #[trigger] in_range(d, ranges[i])
        implies classify(d, ranges) == ranges[i].tap_type by {
        assert forall|j: int| 0 <= j < i implies !in_range(d, #[trigger] ranges[j]) by {
            if in_range(d, ranges[j]) {
                assert(!in_range(d, ranges[i]));
            }
        }
        lemma_first_match_at(d, ranges, i);
    }
    if forall|i: int| 0 <= i < ranges.len() ==> !#[trigger] in_range(d, ranges[i]) {
        lemma_first_match_none(d, ranges);
    }
}

/// One completed press/release cycle: how long the key was held, in
/// milliseconds, the pressure read at release, and its category.
#[derive(Debug, Clone, Copy)]
pub struct Tap {
    pub duration: u64,
    pub pressure: u32,
    pub tap_type: TapDuration,
}

impl PartialEq for Tap {
    fn eq(&self, other: &Tap) -> (r: bool) {
        self.duration == other.duration && self.pressure == other.pressure && self.tap_type.same_as(
            &other.tap_type,
        )
    }
}

impl vstd::std_specs::cmp::PartialEqSpecImpl for Tap {
    open spec fn obeys_eq_spec() -> bool {
        true
    }

    open spec fn eq_spec(&self, other: &Tap) -> bool {
        &&& self.duration == other.duration
        &&& self.pressure == other.pressure
        &&& same_category(self.tap_type, other.tap_type)
    }
}

} // verus!
