//! Values that may differ from step to step.

use vstd::prelude::*;

verus! {

/// Index of a reveal state of a slide. The first step is 0.
pub type Step = u32;

/// A value that is either the same at every step, or changes at chosen steps.
///
/// In `Steps`, each entry `(k, v)` says that the value is `v` from step `k` on,
/// until an entry with a greater key takes over. Before the first key the value
/// is `fallback`. Where a key occurs twice, the later entry counts.
#[derive(Debug, Clone, PartialEq, Eq)]
pub enum StepValue<T> {
    Const(T),
    Steps { entries: Vec<(Step, T)>, fallback: T },
}

/// Index of the entry that is in force at `step`: the one with the greatest key
/// not above `step` (the last of them, where keys repeat); `None` where every
/// key is above `step`.
pub open spec fn active_index<T>(entries: Seq<(Step, T)>, step: Step) -> Option<int>
    decreases entries.len(),
{
    if entries.len() == 0 {
        None
    } else {
        let before = active_index(entries.drop_last(), step);
        let last = entries.len() - 1;
        if entries[last].0 <= step && (before matches Some(i) ==> entries[i].0 <= entries[last].0) {
            Some(last)
        } else {
            before
        }
    }
}

/// Greatest key among `entries`, 0 where there is none.
pub open spec fn max_key<T>(entries: Seq<(Step, T)>) -> Step
    decreases entries.len(),
{
    if entries.len() == 0 {
        0
    } else {
        let before = max_key(entries.drop_last());
        if entries.last().0 > before {
            entries.last().0
        } else {
            before
        }
    }
}

/// `active_index` picks, among the entries whose key is at most `step`, one with
/// the greatest key, and the last of those.
pub proof fn lemma_active_index<T>(entries: Seq<(Step, T)>, step: Step)
    ensures
        match active_index(entries, step) {
            Some(i) => {
                &&& 0 <= i < entries.len()
                &&& entries[i].0 <= step
                &&& forall|j: int|
                    0 <= j < entries.len() && entries[j].0 <= step ==> entries[j].0
                        <= entries[i].0
                &&& forall|j: int| i < j < entries.len() ==> entries[j].0 != entries[i].0
            },
            None => forall|j: int| 0 <= j < entries.len() ==> entries[j].0 > step,
        },
    decreases entries.len(),
{
    if entries.len() > 0 {
        let init = entries.drop_last();
        lemma_active_index(init, step);
        assert forall|j: int| 0 <= j < init.len() implies init[j] == entries[j] by {}
        match active_index(entries, step) {
            Some(i) => {
                assert forall|j: int|
                    0 <= j < entries.len() && entries[j].0 <= step implies entries[j].0
                    <= entries[i].0 by {
                    if j < init.len() {
                        assert(init[j].0 <= step);
                    }
                }
                assert forall|j: int| i < j < entries.len() implies entries[j].0
                    != entries[i].0 by {
                    if j < init.len() {
                        assert(init[j] == entries[j]);
                    }
                }
            },
            None => {
                assert forall|j: int| 0 <= j < entries.len() implies entries[j].0 > step by {
                    if j < init.len() {
                        assert(init[j].0 > step);
                    }
                }
            },
        }
    }
}

/// Every key is at most `max_key`, and `max_key` is a key unless it is 0.
pub proof fn lemma_max_key<T>(entries: Seq<(Step, T)>)
    ensures
        forall|j: int| 0 <= j < entries.len() ==> entries[j].0 <= max_key(entries),
        max_key(entries) == 0 || exists|j: int| 0 <= j < entries.len() && entries[j].0 == max_key(entries),
    decreases entries.len(),
{
    if entries.len() > 0 {
        let init = entries.drop_last();
        lemma_max_key(init);
        assert forall|j: int| 0 <= j < entries.len() implies entries[j].0 <= max_key(entries) by {
            if j < init.len() {
                assert(init[j].0 <= max_key(init));
            }
        }
        if max_key(entries) != 0 {
            if entries.last().0 > max_key(init) {
                assert(entries[entries.len() - 1].0 == max_key(entries));
            } else {
                let j = choose|j: int| 0 <= j < init.len() && init[j].0 == max_key(init);
                assert(entries[j].0 == max_key(entries));
            }
        }
    }
}

/// Two steps with no key between them (above the first, up to the second) have
/// the same entry in force.
pub proof fn lemma_active_index_stable<T>(entries: Seq<(Step, T)>, s1: Step, s2: Step)
    requires
        s1 <= s2,
        forall|j: int| 0 <= j < entries.len() ==> !(s1 < (#[trigger] entries[j]).0 <= s2),
    ensures
        active_index(entries, s1) == active_index(entries, s2),
    decreases entries.len(),
{
    if entries.len() > 0 {
        let init = entries.drop_last();
        assert forall|j: int| 0 <= j < init.len() implies !(s1 < (#[trigger] init[j]).0 <= s2) by {
            assert(init[j] == entries[j]);
        }
        lemma_active_index_stable(init, s1, s2);
    }
}

impl<T> StepValue<T> {
    /// The entries, in the order in which they were given; none for a constant.
    pub open spec fn entries(&self) -> Seq<(Step, T)> {
        match self {
            StepValue::Const(_) => Seq::empty(),
            StepValue::Steps { entries, .. } => entries@,
        }
    }

    /// The value before the first key; for a constant, the constant.
    pub open spec fn fallback(&self) -> T {
        match self {
            StepValue::Const(v) => *v,
            StepValue::Steps { fallback, .. } => *fallback,
        }
    }

    /// The value in force at `step`.
    pub open spec fn value_at(&self, step: Step) -> T {
        match active_index(self.entries(), step) {
            Some(i) => self.entries()[i].1,
            None => self.fallback(),
        }
    }

    /// The greatest step at which the value changes, 0 where it never does.
    pub open spec fn max_step(&self) -> Step {
        max_key(self.entries())
    }

    /// A value that is `value` at every step.
    pub fn new_const(value: T) -> (r: Self)
        ensures
            r == StepValue::Const(value),
            forall|step: Step| r.value_at(step) == value,
    {
        StepValue::Const(value)
    }

    /// A value that is `fallback` until the first key of `entries`, and then
    /// follows them.
    pub fn new_steps(entries: Vec<(Step, T)>, fallback: T) -> (r: Self)
        ensures
            r == (StepValue::Steps { entries, fallback }),
            r.entries() == entries@,
            r.fallback() == fallback,
    {
        StepValue::Steps { entries, fallback }
    }

    /// The value in force at `step`. Every step has one: a step beyond the last
    /// key repeats the last value, a step before the first key has the fallback.
    pub fn at_step(&self, step: Step) -> (r: &T)
        ensures
            *r == self.value_at(step),
            self is Const ==> *r == self->Const_0,
            (forall|j: int| 0 <= j < self.entries().len() ==> self.entries()[j].0 > step) ==> *r
                == self.fallback(),
            forall|j: int|
                0 <= j < self.entries().len() && self.entries()[j].0 <= step ==> exists|i: int|
                    0 <= i < self.entries().len() && #[trigger] self.entries()[i].0 <= step
                        && self.entries()[j].0 <= self.entries()[i].0 && *r == self.entries()[i].1,
    {
        proof {
            lemma_active_index(self.entries(), step);
        }
        match self {
            StepValue::Const(v) => v,
            StepValue::Steps { entries, fallback } => {
                let mut best: Option<usize> = None;
                let mut i: usize = 0;
                while i < entries.len()
                    invariant
                        i <= entries.len(),
                        match best {
                            Some(b) => active_index(entries@.take(i as int), step) == Some(
                                b as int,
                            ) && b < i,
                            None => active_index(entries@.take(i as int), step) is None,
                        },
                    decreases entries.len() - i,
                {
                    proof {
                        assert(entries@.take(i + 1).drop_last() =~= entries@.take(i as int));
                    }
                    let take_it = entries[i].0 <= step && match best {
                        Some(b) => entries[b].0 <= entries[i].0,
                        None => true,
                    };
                    if take_it {
                        best = Some(i);
                    }
                    i += 1;
                }
                proof {
                    assert(entries@.take(i as int) =~= entries@);
                }
                match best {
                    Some(b) => &entries[b].1,
                    None => fallback,
                }
            },
        }
    }

    /// The greatest step at which the value changes, 0 where it never does.
    pub fn last_step(&self) -> (r: Step)
        ensures
            r == self.max_step(),
            forall|j: int| 0 <= j < self.entries().len() ==> self.entries()[j].0 <= r,
    {
        proof {
            lemma_max_key(self.entries());
        }
        match self {
            StepValue::Const(_) => 0,
            StepValue::Steps { entries, .. } => {
                let mut best: Step = 0;
                let mut i: usize = 0;
                while i < entries.len()
                    invariant
                        i <= entries.len(),
                        best == max_key(entries@.take(i as int)),
                    decreases entries.len() - i,
                {
                    proof {
                        assert(entries@.take(i + 1).drop_last() =~= entries@.take(i as int));
                    }
                    if entries[i].0 > best {
                        best = entries[i].0;
                    }
                    i += 1;
                }
                proof {
                    assert(entries@.take(i as int) =~= entries@);
                }
                best
            },
        }
    }

    /// A constant has the same value at every step.
    pub proof fn law_const(&self, step: Step)
        requires
            self is Const,
        ensures
            self.value_at(step) == self->Const_0,
    {
    }

    /// Forward fill: where no key lies above `s1` and at most `s2`, the value at
    /// `s2` is the value at `s1`.
    pub proof fn law_forward_fill(&self, s1: Step, s2: Step)
        requires
            s1 <= s2,
            forall|j: int|
                0 <= j < self.entries().len() ==> !(s1 < (#[trigger] self.entries()[j]).0 <= s2),
        ensures
            self.value_at(s2) == self.value_at(s1),
    {
        lemma_active_index_stable(self.entries(), s1, s2);
    }

    /// Freeze at the last state: from the greatest key on, the value no longer
    /// changes.
    pub proof fn law_freeze_after_last(&self, step: Step)
        requires
            step >= self.max_step(),
        ensures
            self.value_at(step) == self.value_at(self.max_step()),
    {
        lemma_max_key(self.entries());
        lemma_active_index_stable(self.entries(), self.max_step(), step);
    }

    /// Before the first key the value is the fallback.
    pub proof fn law_fallback_before_first(&self, step: Step)
        requires
            forall|j: int| 0 <= j < self.entries().len() ==> self.entries()[j].0 > step,
        ensures
            self.value_at(step) == self.fallback(),
    {
        lemma_active_index(self.entries(), step);
    }

    /// At a key that occurs once, the value is the one given with it, and it
    /// stays until the next greater key.
    pub proof fn law_value_from_key(&self, i: int, step: Step)
        requires
            0 <= i < self.entries().len(),
            self.entries()[i].0 <= step,
            forall|j: int|
                0 <= j < self.entries().len() && j != i ==> self.entries()[j].0
                    < self.entries()[i].0 || self.entries()[j].0 > step,
        ensures
            self.value_at(step) == self.entries()[i].1,
    {
        lemma_active_index(self.entries(), step);
    }
}

} // verus!
