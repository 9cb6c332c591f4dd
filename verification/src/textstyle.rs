//! Named text styles, their scopes, and how a name is resolved at a box.

use crate::color::Color;
use crate::stepvalue::{active_index, lemma_active_index, lemma_max_key, max_key, Step, StepValue};
use vstd::prelude::*;
use vstd::string::*;

verus! {

/// A text style of which only some fields are set, so that it can be laid over
/// another one.
#[derive(Debug, Clone, PartialEq, Eq)]
pub struct PartialTextStyle {
    pub font: Option<String>,
    pub size: Option<u32>,
    pub color: Option<Color>,
    pub weight: Option<u16>,
}

/// A text style with every field set.
#[derive(Debug, Clone, PartialEq, Eq)]
pub struct TextStyle {
    pub font: String,
    pub size: u32,
    pub color: Color,
    pub weight: u16,
}

impl PartialTextStyle {
    /// The style that sets nothing.
    pub open spec fn unset() -> Self {
        PartialTextStyle { font: None, size: None, color: None, weight: None }
    }

    /// `self` with `over` laid on top: field by field, what `over` sets wins,
    /// what it leaves open is kept.
    pub open spec fn overlay(self, over: Self) -> Self {
        PartialTextStyle {
            font: if over.font is Some {
                over.font
            } else {
                self.font
            },
            size: if over.size is Some {
                over.size
            } else {
                self.size
            },
            color: if over.color is Some {
                over.color
            } else {
                self.color
            },
            weight: if over.weight is Some {
                over.weight
            } else {
                self.weight
            },
        }
    }

    pub fn empty() -> (r: Self)
        ensures
            r == Self::unset(),
    {
        PartialTextStyle { font: None, size: None, color: None, weight: None }
    }

    /// A copy of the style.
    pub fn duplicate(&self) -> (r: Self)
        ensures
            r == *self,
    {
        let font = match &self.font {
            Some(f) => Some(f.clone()),
            None => None,
        };
        PartialTextStyle { font, size: self.size, color: self.color, weight: self.weight }
    }

    /// `self` with `over` laid on top.
    pub fn merged_with(&self, over: &PartialTextStyle) -> (r: Self)
        ensures
            r == self.overlay(*over),
    {
        let font = match &over.font {
            Some(f) => Some(f.clone()),
            None => match &self.font {
                Some(f) => Some(f.clone()),
                None => None,
            },
        };
        let size = match over.size {
            Some(s) => Some(s),
            None => self.size,
        };
        let color = match over.color {
            Some(c) => Some(c),
            None => self.color,
        };
        let weight = match over.weight {
            Some(w) => Some(w),
            None => self.weight,
        };
        PartialTextStyle { font, size, color, weight }
    }

    /// Fields merge, they do not replace: a field that `over` leaves open keeps
    /// the value below it, a field that it sets takes the new value.
    pub proof fn law_overlay_merges_fields(self, over: Self)
        ensures
            over.font is None ==> self.overlay(over).font == self.font,
            over.font is Some ==> self.overlay(over).font == over.font,
            over.size is None ==> self.overlay(over).size == self.size,
            over.size is Some ==> self.overlay(over).size == over.size,
            over.color is None ==> self.overlay(over).color == self.color,
            over.color is Some ==> self.overlay(over).color == over.color,
            over.weight is None ==> self.overlay(over).weight == self.weight,
            over.weight is Some ==> self.overlay(over).weight == over.weight,
            self.overlay(Self::unset()) == self,
            Self::unset().overlay(over) == over,
    {
    }

    /// Laying styles over one another is associative.
    pub proof fn law_overlay_associative(self, b: Self, c: Self)
        ensures
            self.overlay(b).overlay(c) == self.overlay(b.overlay(c)),
    {
    }
}

impl TextStyle {
    /// `self` with the fields that `partial` sets replaced by them.
    pub open spec fn completed(self, partial: PartialTextStyle) -> TextStyle {
        TextStyle {
            font: match partial.font {
                Some(f) => f,
                None => self.font,
            },
            size: match partial.size {
                Some(s) => s,
                None => self.size,
            },
            color: match partial.color {
                Some(c) => c,
                None => self.color,
            },
            weight: match partial.weight {
                Some(w) => w,
                None => self.weight,
            },
        }
    }

    /// The partial style that sets every field as `self` has it.
    pub open spec fn as_partial(self) -> PartialTextStyle {
        PartialTextStyle {
            font: Some(self.font),
            size: Some(self.size),
            color: Some(self.color),
            weight: Some(self.weight),
        }
    }

    /// A copy of the style.
    pub fn duplicate(&self) -> (r: Self)
        ensures
            r == *self,
    {
        TextStyle {
            font: self.font.clone(),
            size: self.size,
            color: self.color,
            weight: self.weight,
        }
    }

    /// `self` with the fields that `partial` sets replaced by them.
    pub fn complete(&self, partial: &PartialTextStyle) -> (r: TextStyle)
        ensures
            r == self.completed(*partial),
    {
        let font = match &partial.font {
            Some(f) => f.clone(),
            None => self.font.clone(),
        };
        let size = match partial.size {
            Some(s) => s,
            None => self.size,
        };
        let color = match partial.color {
            Some(c) => c,
            None => self.color,
        };
        let weight = match partial.weight {
            Some(w) => w,
            None => self.weight,
        };
        TextStyle { font, size, color, weight }
    }

    /// The partial style that sets every field as `self` has it.
    pub fn to_partial(&self) -> (r: PartialTextStyle)
        ensures
            r == self.as_partial(),
    {
        PartialTextStyle {
            font: Some(self.font.clone()),
            size: Some(self.size),
            color: Some(self.color),
            weight: Some(self.weight),
        }
    }
}

/// One entry of a scope: a style name and the stepped style given under it.
pub type NamedStyle = (String, StepValue<PartialTextStyle>);

/// Index of the first entry with the given name.
pub open spec fn find_name(entries: Seq<NamedStyle>, name: Seq<char>) -> Option<int>
    decreases entries.len(),
{
    if entries.len() == 0 {
        None
    } else {
        match find_name(entries.drop_last(), name) {
            Some(i) => Some(i),
            None => if entries.last().0@ == name {
                Some(entries.len() - 1)
            } else {
                None
            },
        }
    }
}

/// `find_name` gives the first entry of that name, and `None` only where no
/// entry has it.
pub proof fn lemma_find_name(entries: Seq<NamedStyle>, name: Seq<char>)
    ensures
        match find_name(entries, name) {
            Some(i) => 0 <= i < entries.len() && entries[i].0@ == name && forall|j: int|
                0 <= j < i ==> (#[trigger] entries[j]).0@ != name,
            None => forall|j: int| 0 <= j < entries.len() ==> (#[trigger] entries[j]).0@ != name,
        },
    decreases entries.len(),
{
    if entries.len() > 0 {
        let init = entries.drop_last();
        lemma_find_name(init, name);
        assert forall|j: int| 0 <= j < init.len() implies init[j] == entries[j] by {}
        match find_name(entries, name) {
            Some(i) => {
                assert forall|j: int| 0 <= j < i implies (#[trigger] entries[j]).0@ != name by {
                    assert(init[j].0@ != name);
                }
            },
            None => {
                assert forall|j: int| 0 <= j < entries.len() implies (#[trigger] entries[j]).0@
                    != name by {
                    if j < init.len() {
                        assert(init[j].0@ != name);
                    }
                }
            },
        }
    }
}

/// Greatest step at which any style among `entries` changes.
pub open spec fn styles_max_step(entries: Seq<NamedStyle>) -> Step
    decreases entries.len(),
{
    if entries.len() == 0 {
        0
    } else {
        let before = styles_max_step(entries.drop_last());
        if entries.last().1.max_step() > before {
            entries.last().1.max_step()
        } else {
            before
        }
    }
}

/// The styles among `entries` change at no step beyond `styles_max_step`, and
/// that bound is no greater than any bound on each of them.
pub proof fn lemma_styles_max_step(entries: Seq<NamedStyle>, bound: Step)
    ensures
        forall|i: int|
            0 <= i < entries.len() ==> (#[trigger] entries[i]).1.max_step() <= styles_max_step(
                entries,
            ),
        (forall|i: int| 0 <= i < entries.len() ==> (#[trigger] entries[i]).1.max_step() <= bound)
            ==> styles_max_step(entries) <= bound,
    decreases entries.len(),
{
    if entries.len() > 0 {
        let init = entries.drop_last();
        lemma_styles_max_step(init, bound);
        assert forall|i: int| 0 <= i < entries.len() implies (#[trigger] entries[i]).1.max_step()
            <= styles_max_step(entries) by {
            if i < init.len() {
                assert(init[i] == entries[i]);
            }
        }
        if forall|i: int| 0 <= i < entries.len() ==> (#[trigger] entries[i]).1.max_step() <= bound {
            assert forall|i: int| 0 <= i < init.len() implies (#[trigger] init[i]).1.max_step()
                <= bound by {
                assert(init[i] == entries[i]);
            }
            assert(entries[entries.len() - 1].1.max_step() <= bound);
        }
    }
}

/// A scope of named styles: what one box, one slide or the deck defines.
#[derive(Debug, Clone, PartialEq, Eq)]
pub struct StyleMap {
    pub entries: Vec<NamedStyle>,
}

impl StyleMap {
    /// The stepped style that the scope gives under `name`, if it gives one.
    pub open spec fn lookup(&self, name: Seq<char>) -> Option<StepValue<PartialTextStyle>> {
        match find_name(self.entries@, name) {
            Some(i) => Some(self.entries@[i].1),
            None => None,
        }
    }

    /// Greatest step at which a style of the scope changes, 0 where none does.
    pub open spec fn max_step(&self) -> Step {
        styles_max_step(self.entries@)
    }

    /// A scope that defines nothing.
    pub fn new() -> (r: Self)
        ensures
            r.entries@.len() == 0,
            forall|name: Seq<char>| r.lookup(name) is None,
    {
        StyleMap { entries: Vec::new() }
    }

    /// Index of the entry with the given name.
    pub fn position(&self, name: &String) -> (r: Option<usize>)
        ensures
            match r {
                Some(i) => find_name(self.entries@, name@) == Some(i as int)
                    && i < self.entries@.len(),
                None => find_name(self.entries@, name@) is None,
            },
    {
        proof {
            lemma_find_name(self.entries@, name@);
        }
        let mut i: usize = 0;
        while i < self.entries.len()
            invariant
                i <= self.entries.len(),
                find_name(self.entries@.take(i as int), name@) is None,
            decreases self.entries.len() - i,
        {
            proof {
                assert(self.entries@.take(i + 1).drop_last() =~= self.entries@.take(i as int));
                lemma_find_name(self.entries@.take(i + 1), name@);
            }
            if self.entries[i].0 == *name {
                proof {
                    let full = self.entries@;
                    lemma_find_name(full, name@);
                    lemma_find_name(full.take(i as int), name@);
                    assert(full[i as int].0@ == name@);
                    let found = find_name(full, name@);
                    assert(found is Some);
                    let k = found->Some_0;
                    if k < i {
                        assert(full.take(i as int)[k] == full[k]);
                    }
                    assert(k == i);
                }
                return Some(i);
            }
            i += 1;
        }
        proof {
            assert(self.entries@.take(i as int) =~= self.entries@);
        }
        None
    }

    /// The stepped style given under `name`.
    pub fn get_style(&self, name: &String) -> (r: Option<&StepValue<PartialTextStyle>>)
        ensures
            match r {
                Some(s) => self.lookup(name@) == Some(*s),
                None => self.lookup(name@) is None,
            },
    {
        match self.position(name) {
            Some(i) => Some(&self.entries[i].1),
            None => None,
        }
    }

    /// Gives `style` under `name`, in place of what the scope gave under that
    /// name before. Other names keep their styles.
    pub fn set_style(&mut self, name: String, style: StepValue<PartialTextStyle>)
        ensures
            final(self).lookup(name@) == Some(style),
            forall|other: Seq<char>|
                other != name@ ==> #[trigger] final(self).lookup(other) == old(self).lookup(other),
            final(self).max_step() <= old(self).max_step() || final(self).max_step()
                <= style.max_step(),
            final(self).entries@.len() == if old(self).lookup(name@) is Some {
                old(self).entries@.len()
            } else {
                old(self).entries@.len() + 1
            },
    {
        let ghost before = self.entries@;
        let ghost bound = if old(self).max_step() >= style.max_step() {
            old(self).max_step()
        } else {
            style.max_step()
        };
        proof {
            lemma_styles_max_step(before, bound);
        }
        match self.position(&name) {
            Some(i) => {
                self.entries[i] = (name, style);
                proof {
                    let after = self.entries@;
                    lemma_find_name(before, name@);
                    lemma_find_name(after, name@);
                    assert(after[i as int].0@ == name@);
                    assert forall|j: int| 0 <= j < i implies (#[trigger] after[j]).0@ != name@ by {
                        assert(after[j] == before[j]);
                    }
                    assert(find_name(after, name@) == Some(i as int));
                    assert(before[i as int].0@ == name@);
                    assert forall|j: int| 0 <= j < after.len() implies (#[trigger] after[j]).1.max_step()
                        <= bound by {
                        if j != i {
                            assert(after[j] == before[j]);
                        }
                    }
                    lemma_styles_max_step(after, bound);
                    assert forall|other: Seq<char>| other != name@ implies final(self).lookup(other)
                        == old(self).lookup(other) by {
                        lemma_same_names_same_lookup(before, after, i as int, other);
                    }
                }
            },
            None => {
                self.entries.push((name, style));
                proof {
                    let after = self.entries@;
                    assert(after.drop_last() =~= before);
                    assert(find_name(after, name@) == Some(after.len() - 1));
                    assert forall|other: Seq<char>| other != name@ implies final(self).lookup(other)
                        == old(self).lookup(other) by {
                        lemma_find_name(before, other);
                        assert(find_name(after, other) == find_name(before, other));
                        if let Some(k) = find_name(before, other) {
                            assert(after[k] == before[k]);
                        }
                    }
                }
            },
        }
    }

    /// Greatest step at which a style of the scope changes, 0 where none does.
    pub fn last_step(&self) -> (r: Step)
        ensures
            r == self.max_step(),
    {
        let mut best: Step = 0;
        let mut i: usize = 0;
        while i < self.entries.len()
            invariant
                i <= self.entries.len(),
                best == styles_max_step(self.entries@.take(i as int)),
            decreases self.entries.len() - i,
        {
            proof {
                assert(self.entries@.take(i + 1).drop_last() =~= self.entries@.take(i as int));
            }
            let s = self.entries[i].1.last_step();
            if s > best {
                best = s;
            }
            i += 1;
        }
        proof {
            assert(self.entries@.take(i as int) =~= self.entries@);
        }
        best
    }
}

/// Replacing the style of entry `i` while keeping its name changes no lookup
/// under another name.
proof fn lemma_same_names_same_lookup(
    before: Seq<NamedStyle>,
    after: Seq<NamedStyle>,
    i: int,
    other: Seq<char>,
)
    requires
        0 <= i < before.len(),
        after.len() == before.len(),
        after[i].0@ == before[i].0@,
        before[i].0@ != other,
        forall|j: int| 0 <= j < before.len() && j != i ==> after[j] == before[j],
    ensures
        find_name(after, other) == find_name(before, other),
        find_name(before, other) matches Some(k) ==> after[k] == before[k],
{
    lemma_find_name(before, other);
    lemma_find_name(after, other);
    match find_name(before, other) {
        Some(k) => {
            assert(after[k] == before[k]);
            match find_name(after, other) {
                Some(k2) => {
                    if k2 < k {
                        assert(before[k2].0@ != other);
                        assert(after[k2] == before[k2] || k2 == i);
                    }
                    if k < k2 {
                        assert(after[k].0@ != other);
                    }
                },
                None => {
                    assert(after[k].0@ != other);
                },
            }
        },
        None => {
            match find_name(after, other) {
                Some(k2) => {
                    assert(before[k2].0@ != other);
                    assert(after[k2] == before[k2] || k2 == i);
                },
                None => {},
            }
        },
    }
}

/// For each key of `keys`, what `below` and `over` give at that key, merged
/// with `over` on top.
pub open spec fn merged_entries(
    keys: Seq<(Step, PartialTextStyle)>,
    below: StepValue<PartialTextStyle>,
    over: StepValue<PartialTextStyle>,
) -> Seq<(Step, PartialTextStyle)> {
    Seq::new(
        keys.len(),
        |i: int| (keys[i].0, below.value_at(keys[i].0).overlay(over.value_at(keys[i].0))),
    )
}

/// `merged` is `below` with `over` laid on top: at every step its value is the
/// value of `below` with the value of `over` laid over it, field by field.
pub open spec fn is_merge_of(
    merged: StepValue<PartialTextStyle>,
    below: StepValue<PartialTextStyle>,
    over: StepValue<PartialTextStyle>,
) -> bool {
    forall|step: Step| #[trigger]
        merged.value_at(step) == below.value_at(step).overlay(over.value_at(step))
}

/// Two stepped styles with the same entries and the same fallback.
pub open spec fn alike(a: StepValue<PartialTextStyle>, b: StepValue<PartialTextStyle>) -> bool {
    a.entries() == b.entries() && a.fallback() == b.fallback()
}

/// A stepped value whose entries are the merged entries at the keys of both
/// values, and whose fallback is the merged fallback, is the merge at every
/// step, and changes at no step at which neither of the two changes.
pub proof fn lemma_merged_entries(
    merged: StepValue<PartialTextStyle>,
    below: StepValue<PartialTextStyle>,
    over: StepValue<PartialTextStyle>,
)
    requires
        merged.entries() == merged_entries(below.entries() + over.entries(), below, over),
        merged.fallback() == below.fallback().overlay(over.fallback()),
    ensures
        is_merge_of(merged, below, over),
        merged.max_step() <= below.max_step() || merged.max_step() <= over.max_step(),
{
    let keys = below.entries() + over.entries();
    let n = below.entries().len() as int;
    assert forall|step: Step| #[trigger]
        merged.value_at(step) == below.value_at(step).overlay(over.value_at(step)) by {
        lemma_active_index(merged.entries(), step);
        match active_index(merged.entries(), step) {
            None => {
                assert forall|j: int| 0 <= j < below.entries().len() implies (
                #[trigger] below.entries()[j]).0 > step by {
                    assert(merged.entries()[j].0 == keys[j].0);
                }
                assert forall|j: int| 0 <= j < over.entries().len() implies (
                #[trigger] over.entries()[j]).0 > step by {
                    assert(merged.entries()[n + j].0 == keys[n + j].0);
                }
                below.law_fallback_before_first(step);
                over.law_fallback_before_first(step);
            },
            Some(i) => {
                let key = merged.entries()[i].0;
                assert(key == keys[i].0);
                assert forall|j: int| 0 <= j < below.entries().len() implies !(key < (
                #[trigger] below.entries()[j]).0 <= step) by {
                    assert(merged.entries()[j].0 == keys[j].0);
                }
                assert forall|j: int| 0 <= j < over.entries().len() implies !(key < (
                #[trigger] over.entries()[j]).0 <= step) by {
                    assert(merged.entries()[n + j].0 == keys[n + j].0);
                }
                below.law_forward_fill(key, step);
                over.law_forward_fill(key, step);
            },
        }
    }
    lemma_max_key(merged.entries());
    lemma_max_key(below.entries());
    lemma_max_key(over.entries());
    if merged.max_step() != 0 {
        let j = choose|j: int|
            0 <= j < merged.entries().len() && merged.entries()[j].0 == max_key(merged.entries());
        assert(merged.entries()[j].0 == keys[j].0);
        if j < n {
            assert(keys[j] == below.entries()[j]);
        } else {
            assert(keys[j] == over.entries()[j - n]);
        }
    }
}

/// Appends to `out`, for each key of `keys`, what `below` and `over` give at
/// that key, merged.
fn push_merged(
    keys: &StepValue<PartialTextStyle>,
    below: &StepValue<PartialTextStyle>,
    over: &StepValue<PartialTextStyle>,
    out: &mut Vec<(Step, PartialTextStyle)>,
)
    ensures
        final(out)@ == old(out)@ + merged_entries(keys.entries(), *below, *over),
{
    match keys {
        StepValue::Const(_) => {
            proof {
                assert(out@ =~= old(out)@ + merged_entries(keys.entries(), *below, *over));
            }
        },
        StepValue::Steps { entries, .. } => {
            let mut i: usize = 0;
            while i < entries.len()
                invariant
                    i <= entries.len(),
                    keys.entries() == entries@,
                    out@ == old(out)@ + merged_entries(entries@.take(i as int), *below, *over),
                decreases entries.len() - i,
            {
                let key = entries[i].0;
                out.push((key, below.at_step(key).merged_with(over.at_step(key))));
                proof {
                    assert(out@ =~= old(out)@ + merged_entries(
                        entries@.take(i + 1),
                        *below,
                        *over,
                    ));
                }
                i += 1;
            }
            proof {
                assert(entries@.take(i as int) =~= entries@);
            }
        },
    }
}

/// `below` with `over` laid on top, step by step and field by field.
pub fn merge_stepped(below: &StepValue<PartialTextStyle>, over: &StepValue<PartialTextStyle>) -> (r:
    StepValue<PartialTextStyle>)
    ensures
        is_merge_of(r, *below, *over),
        r.max_step() <= below.max_step() || r.max_step() <= over.max_step(),
{
    let fallback = match below {
        StepValue::Const(b) => match over {
            StepValue::Const(o) => b.merged_with(o),
            StepValue::Steps { fallback: o, .. } => b.merged_with(o),
        },
        StepValue::Steps { fallback: b, .. } => match over {
            StepValue::Const(o) => b.merged_with(o),
            StepValue::Steps { fallback: o, .. } => b.merged_with(o),
        },
    };
    let mut entries: Vec<(Step, PartialTextStyle)> = Vec::new();
    push_merged(below, below, over, &mut entries);
    push_merged(over, below, over, &mut entries);
    let r = StepValue::Steps { entries, fallback };
    proof {
        assert(r.entries() =~= merged_entries(below.entries() + over.entries(), *below, *over));
        lemma_merged_entries(r, *below, *over);
    }
    r
}

/// A copy of a stepped style.
pub fn duplicate_stepped(style: &StepValue<PartialTextStyle>) -> (r: StepValue<PartialTextStyle>)
    ensures
        alike(r, *style),
{
    match style {
        StepValue::Const(v) => StepValue::Const(v.duplicate()),
        StepValue::Steps { entries, fallback } => {
            let mut copy: Vec<(Step, PartialTextStyle)> = Vec::new();
            let mut i: usize = 0;
            while i < entries.len()
                invariant
                    i <= entries.len(),
                    copy@ == entries@.take(i as int),
                decreases entries.len() - i,
            {
                copy.push((entries[i].0, entries[i].1.duplicate()));
                proof {
                    assert(copy@ =~= entries@.take(i + 1));
                }
                i += 1;
            }
            proof {
                assert(entries@.take(i as int) =~= entries@);
            }
            StepValue::Steps { entries: copy, fallback: fallback.duplicate() }
        },
    }
}

/// Two scopes that give the same styles under the same names, in the same
/// order.
pub open spec fn same_styles(a: Seq<NamedStyle>, b: Seq<NamedStyle>) -> bool {
    &&& a.len() == b.len()
    &&& forall|i: int|
        0 <= i < a.len() ==> (#[trigger] a[i]).0@ == b[i].0@ && alike(a[i].1, b[i].1)
}

/// Scopes with the same styles answer every lookup alike, and change at the
/// same steps.
pub proof fn lemma_same_styles(a: Seq<NamedStyle>, b: Seq<NamedStyle>, name: Seq<char>)
    requires
        same_styles(a, b),
    ensures
        find_name(a, name) == find_name(b, name),
        find_name(a, name) matches Some(i) ==> alike(a[i].1, b[i].1),
        styles_max_step(a) == styles_max_step(b),
    decreases a.len(),
{
    if a.len() > 0 {
        assert(a[a.len() - 1].0@ == b[a.len() - 1].0@);
        assert(alike(a.last().1, b.last().1));
        assert forall|i: int| 0 <= i < a.len() - 1 implies (#[trigger] a.drop_last()[i]).0@
            == b.drop_last()[i].0@ && alike(a.drop_last()[i].1, b.drop_last()[i].1) by {
            assert(a[i].0@ == b[i].0@);
        }
        lemma_same_styles(a.drop_last(), b.drop_last(), name);
        if let Some(i) = find_name(a.drop_last(), name) {
            lemma_find_name(a.drop_last(), name);
            assert(a.drop_last()[i] == a[i]);
            assert(b.drop_last()[i] == b[i]);
        }
    }
}

impl StyleMap {
    /// Whether the scope gives a style under `name`.
    pub open spec fn knows(&self, name: Seq<char>) -> bool {
        self.lookup(name) is Some
    }

    /// The style of that name at `step`: `default` with the scope's style of
    /// that name laid over it; `None` where the scope does not know the name.
    pub open spec fn resolved(&self, default: TextStyle, name: Seq<char>, step: Step) -> Option<
        TextStyle,
    > {
        match self.lookup(name) {
            Some(style) => Some(default.completed(style.value_at(step))),
            None => None,
        }
    }

    /// The scope gives, under each name, a style that is like the one that
    /// `other` gives under it.
    pub open spec fn same_as(&self, other: StyleMap) -> bool {
        same_styles(self.entries@, other.entries@)
    }

    /// A snapshot answers as the scope it was taken from: it knows the same
    /// names, resolves each to the same style at every step, and changes at
    /// the same steps.
    pub proof fn law_snapshot_answers_alike(
        &self,
        other: StyleMap,
        default: TextStyle,
        name: Seq<char>,
        step: Step,
    )
        requires
            self.same_as(other),
        ensures
            self.knows(name) == other.knows(name),
            self.resolved(default, name, step) == other.resolved(default, name, step),
            self.max_step() == other.max_step(),
    {
        lemma_same_styles(self.entries@, other.entries@, name);
    }

    /// A copy of the scope: the snapshot that a new holder starts from. What
    /// is later given in one of the two does not show in the other.
    pub fn duplicate(&self) -> (r: Self)
        ensures
            r.same_as(*self),
            r.max_step() == self.max_step(),
    {
        let mut copy: Vec<NamedStyle> = Vec::new();
        let mut i: usize = 0;
        while i < self.entries.len()
            invariant
                i <= self.entries.len(),
                same_styles(copy@, self.entries@.take(i as int)),
            decreases self.entries.len() - i,
        {
            copy.push((self.entries[i].0.clone(), duplicate_stepped(&self.entries[i].1)));
            i += 1;
        }
        proof {
            assert(self.entries@.take(i as int) =~= self.entries@);
            lemma_same_styles(copy@, self.entries@, Seq::empty());
        }
        StyleMap { entries: copy }
    }

    /// Lays `style` over what the scope gives under `name`, field by field
    /// and step by step; where the scope gives nothing under the name, it
    /// gives `style` from now on. Other names keep their styles.
    pub fn update_style(&mut self, name: String, style: StepValue<PartialTextStyle>)
        ensures
            match old(self).lookup(name@) {
                Some(below) => final(self).lookup(name@) matches Some(merged) && is_merge_of(
                    merged,
                    below,
                    style,
                ),
                None => final(self).lookup(name@) == Some(style),
            },
            forall|other: Seq<char>|
                other != name@ ==> #[trigger] final(self).lookup(other) == old(self).lookup(other),
            final(self).max_step() <= old(self).max_step() || final(self).max_step()
                <= style.max_step(),
    {
        proof {
            lemma_find_name(self.entries@, name@);
            lemma_styles_max_step(self.entries@, 0);
        }
        let merged = match self.get_style(&name) {
            Some(below) => merge_stepped(below, &style),
            None => style,
        };
        self.set_style(name, merged);
    }
}

/// Resolves the style `name` at `step` in a scope: the scope's style of that
/// name over `default`. `None` means that the name is unknown.
pub fn resolve_style(scope: &StyleMap, default: &TextStyle, name: &String, step: Step) -> (r:
    Option<TextStyle>)
    ensures
        r == scope.resolved(*default, name@, step),
        r is Some <==> scope.knows(name@),
{
    match scope.get_style(name) {
        Some(style) => Some(default.complete(style.at_step(step))),
        None => None,
    }
}

} // verus!
