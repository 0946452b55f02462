//! Units of the service manager that have appeared, and the control groups
//! that they name.

use crate::cgroup;
use crate::cgroup::{unit_cgroup, CGroup};
use crate::text;
use vstd::prelude::*;

verus! {

// ---------------------------------------------------------------------------
// The queue
// ---------------------------------------------------------------------------

/// The units that have appeared and still have to be seen to, by their object
/// paths, each once.
#[derive(Debug)]
pub struct UnitQueue {
    units: Vec<String>,
}

impl View for UnitQueue {
    type V = Seq<Seq<char>>;

    closed spec fn view(&self) -> Seq<Seq<char>> {
        text::texts(self.units@)
    }
}

/// The queue after a unit has appeared.
pub open spec fn with_unit(queue: Seq<Seq<char>>, unit: Seq<char>) -> Seq<Seq<char>> {
    if queue.contains(unit) {
        queue
    } else {
        queue.push(unit)
    }
}

/// The queue after a unit has gone.
pub open spec fn without_unit(queue: Seq<Seq<char>>, unit: Seq<char>) -> Seq<Seq<char>>
    decreases queue.len(),
{
    if queue.len() == 0 {
        seq![]
    } else if queue.last() == unit {
        without_unit(queue.drop_last(), unit)
    } else {
        without_unit(queue.drop_last(), unit).push(queue.last())
    }
}

impl UnitQueue {
    /// The empty queue.
    pub fn new() -> (queue: UnitQueue)
        ensures
            queue@ == Seq::<Seq<char>>::empty(),
    {
        UnitQueue { units: Vec::new() }
    }

    /// The units that are to be seen to.
    pub fn units(&self) -> (units: &Vec<String>)
        ensures
            text::texts(units@) == self@,
    {
        &self.units
    }

    /// A unit has appeared.
    pub fn unit_new(&mut self, unit: String)
        ensures
            final(self)@ == with_unit(old(self)@, unit@),
            old(self)@.no_duplicates() ==> final(self)@.no_duplicates(),
    {
        proof {
            if self@.no_duplicates() {
                queue_is_a_set(self@, unit@, unit@);
            }
        }
        let mut i: usize = 0;
        while i < self.units.len()
            invariant
                i <= self.units.len(),
                *self == *old(self),
                forall|j: int| 0 <= j < i ==> self@[j] != unit@,
            decreases self.units.len() - i,
        {
            assert(self@[i as int] == self.units@[i as int]@);
            if self.units[i] == unit {
                assert(self@.contains(unit@));
                return;
            }
            i += 1;
        }
        self.units.push(unit);
        assert(self@ == old(self)@.push(unit@));
    }

    /// A unit has gone.
    pub fn unit_removed(&mut self, unit: &str)
        ensures
            final(self)@ == without_unit(old(self)@, unit@),
            old(self)@.no_duplicates() ==> final(self)@.no_duplicates(),
    {
        proof {
            if self@.no_duplicates() {
                queue_is_a_set(self@, unit@, unit@);
            }
        }
        let unit = unit.to_owned();
        let mut kept: Vec<String> = Vec::new();
        let mut i: usize = 0;
        assert(text::texts(kept@) == without_unit(self@.take(0), unit@));
        while i < self.units.len()
            invariant
                i <= self.units.len(),
                *self == *old(self),
                text::texts(kept@) == without_unit(self@.take(i as int), unit@),
            decreases self.units.len() - i,
        {
            assert(self@.take(i + 1).drop_last() == self@.take(i as int));
            assert(self@.take(i + 1).last() == self.units@[i as int]@);
            if self.units[i] != unit {
                let ghost before = kept@;
                kept.push(self.units[i].clone());
                assert(text::texts(kept@) == text::texts(before).push(self.units@[i as int]@));
            }
            i += 1;
        }
        assert(self@.take(i as int) == self@);
        self.units = kept;
    }

    /// Hands out the units that are to be seen to and empties the queue.
    pub fn take_all(&mut self) -> (units: Vec<String>)
        ensures
            text::texts(units@) == old(self)@,
            final(self)@ == Seq::<Seq<char>>::empty(),
    {
        let mut units: Vec<String> = Vec::new();
        std::mem::swap(&mut units, &mut self.units);
        units
    }
}

// ---------------------------------------------------------------------------
// Control groups of units
// ---------------------------------------------------------------------------

/// How many kinds of units have a control group.
pub const UNIT_KINDS: usize = 4;

/// The interface of a kind of units that have a control group.
pub open spec fn interface(kind: int) -> Seq<char> {
    if kind == 0 {
        "org.freedesktop.systemd1.Service"@
    } else if kind == 1 {
        "org.freedesktop.systemd1.Scope"@
    } else if kind == 2 {
        "org.freedesktop.systemd1.Slice"@
    } else {
        "org.freedesktop.systemd1.Socket"@
    }
}

/// What is to be done about a unit.
#[derive(Debug)]
pub enum UnitStep {
    /// The control group is to be asked for through the interface of that kind.
    Ask(usize),
    /// The unit has that control group.
    Found(CGroup),
    /// The unit has no control group.
    Unknown,
}

/// The interface of a kind of units, if there is one of that number.
pub fn unit_interface(kind: usize) -> (name: Option<&'static str>)
    ensures
        match name {
            Some(name) => kind < UNIT_KINDS && name@ == interface(kind as int),
            None => kind >= UNIT_KINDS,
        },
{
    if kind == 0 {
        Some("org.freedesktop.systemd1.Service")
    } else if kind == 1 {
        Some("org.freedesktop.systemd1.Scope")
    } else if kind == 2 {
        Some("org.freedesktop.systemd1.Slice")
    } else if kind == 3 {
        Some("org.freedesktop.systemd1.Socket")
    } else {
        None
    }
}

/// Decides what follows when a unit was asked for its control group through
/// the interface of a kind, with the path that came back, if one did. The
/// kinds are gone through in order, and the first that answers counts.
pub fn handle_new_unit(kind: usize, control_group: Option<&str>) -> (step: UnitStep)
    ensures
        match control_group {
            Some(path) => step matches UnitStep::Found(g) && g@ == cgroup::cgroup_at(
                cgroup::CGROUP_ROOT@ + path@,
            ),
            None => if kind < UNIT_KINDS - 1 {
                step == UnitStep::Ask((kind + 1) as usize)
            } else {
                step is Unknown
            },
        },
{
    match control_group {
        Some(path) => UnitStep::Found(unit_cgroup(path)),
        None => {
            if kind < UNIT_KINDS - 1 {
                UnitStep::Ask(kind + 1)
            } else {
                UnitStep::Unknown
            }
        },
    }
}

// ---------------------------------------------------------------------------
// Laws
// ---------------------------------------------------------------------------

proof fn lemma_without_contains(queue: Seq<Seq<char>>, unit: Seq<char>, other: Seq<char>)
    ensures
        without_unit(queue, unit).contains(other) == (queue.contains(other) && other != unit),
    decreases queue.len(),
{
    if queue.len() > 0 {
        let rest = queue.drop_last();
        lemma_without_contains(rest, unit, other);
        let kept = without_unit(rest, unit);
        assert(queue == rest.push(queue.last()));
        assert(queue.contains(other) == (rest.contains(other) || other == queue.last())) by {
            if rest.contains(other) {
                let k = choose|k: int| 0 <= k < rest.len() && rest[k] == other;
                assert(queue[k] == other);
            }
            assert(queue[queue.len() - 1] == queue.last());
        }
        let more = kept.push(queue.last());
        assert(more.contains(other) == (kept.contains(other) || other == queue.last())) by {
            if kept.contains(other) {
                let k = choose|k: int| 0 <= k < kept.len() && kept[k] == other;
                assert(more[k] == other);
            }
            assert(more[kept.len() as int] == queue.last());
        }
    }
}

/// A queue holds exactly the units that have appeared and not gone since, and
/// each once.
pub proof fn queue_is_a_set(queue: Seq<Seq<char>>, unit: Seq<char>, other: Seq<char>)
    requires
        queue.no_duplicates(),
    ensures
        with_unit(queue, unit).contains(other) == (queue.contains(other) || other == unit),
        with_unit(queue, unit).no_duplicates(),
        without_unit(queue, unit).contains(other) == (queue.contains(other) && other != unit),
        without_unit(queue, unit).no_duplicates(),
    decreases queue.len(),
{
    lemma_without_contains(queue, unit, other);
    let more = queue.push(unit);
    assert(more[queue.len() as int] == unit);
    if queue.contains(other) {
        let k = choose|k: int| 0 <= k < queue.len() && queue[k] == other;
        assert(more[k] == other);
    }
    if queue.len() > 0 {
        let rest = queue.drop_last();
        queue_is_a_set(rest, unit, other);
        lemma_without_contains(rest, unit, queue.last());
    }
}

/// Units stay in the order in which they appeared: a new one is the last, and
/// one that goes leaves the others as they were.
pub proof fn units_keep_their_order(a: Seq<Seq<char>>, b: Seq<Seq<char>>, unit: Seq<char>)
    ensures
        a.contains(unit) ==> with_unit(a, unit) == a,
        !a.contains(unit) ==> with_unit(a, unit) == a + seq![unit],
        without_unit(a + b, unit) == without_unit(a, unit) + without_unit(b, unit),
        !a.contains(unit) ==> without_unit(a, unit) == a,
        !a.contains(unit) && !b.contains(unit) ==> without_unit(a + seq![unit] + b, unit) == a + b,
{
    lemma_without_parts(a, b, unit);
    lemma_without_parts(a, seq![unit], unit);
    lemma_without_parts(a + seq![unit], b, unit);
    let one = seq![unit];
    assert(one.drop_last() == Seq::<Seq<char>>::empty());
    reveal_with_fuel(without_unit, 2);
    if !a.contains(unit) {
        lemma_without_none(a, unit);
    }
    if !b.contains(unit) {
        lemma_without_none(b, unit);
    }
}

proof fn lemma_without_parts(a: Seq<Seq<char>>, b: Seq<Seq<char>>, unit: Seq<char>)
    ensures
        without_unit(a + b, unit) == without_unit(a, unit) + without_unit(b, unit),
    decreases b.len(),
{
    if b.len() == 0 {
        assert(a + b == a);
    } else {
        assert((a + b).drop_last() == a + b.drop_last());
        assert((a + b).last() == b.last());
        lemma_without_parts(a, b.drop_last(), unit);
        assert(without_unit(a + b, unit) == without_unit(a, unit) + without_unit(b, unit));
    }
}

proof fn lemma_without_none(queue: Seq<Seq<char>>, unit: Seq<char>)
    requires
        !queue.contains(unit),
    ensures
        without_unit(queue, unit) == queue,
    decreases queue.len(),
{
    if queue.len() > 0 {
        let rest = queue.drop_last();
        assert(queue.contains(queue[queue.len() - 1]));
        assert forall|i: int| 0 <= i < rest.len() implies rest[i] != unit by {
            assert(queue.contains(queue[i]));
        }
        lemma_without_none(rest, unit);
        assert(rest.push(queue.last()) == queue);
    }
}

/// Services are asked about first, then scopes, slices and sockets.
pub proof fn kinds_are_asked_about_in_order()
    ensures
        UNIT_KINDS == 4,
        interface(0) == "org.freedesktop.systemd1.Service"@,
        interface(1) == "org.freedesktop.systemd1.Scope"@,
        interface(2) == "org.freedesktop.systemd1.Slice"@,
        interface(3) == "org.freedesktop.systemd1.Socket"@,
{
}

} // verus!
