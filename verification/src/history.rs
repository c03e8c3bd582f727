//! Back and forward navigation history for a single browsing context (one tab).

use crate::model::{same_place, Location, Place};
use vstd::prelude::*;

verus! {

/// The places of a list of locations.
pub open spec fn places(v: Seq<Location>) -> Seq<Place> {
    v.map_values(|l: Location| l@)
}

/// A browser-style history: a current location with back and forward stacks.
/// Navigating to a new location clears the forward stack.
#[derive(Debug)]
pub struct History {
    pub back: Vec<Location>,
    pub forward: Vec<Location>,
    pub current: Location,
}

/// A history as plain values; the top of each stack is its last element.
pub ghost struct Trail {
    pub back: Seq<Place>,
    pub forward: Seq<Place>,
    pub current: Place,
}

impl View for History {
    type V = Trail;

    open spec fn view(&self) -> Trail {
        Trail { back: places(self.back@), forward: places(self.forward@), current: self.current@ }
    }
}

impl Trail {
    /// After navigating to `to`.
    pub open spec fn visited(self, to: Place) -> Trail {
        if same_place(to, self.current) {
            self
        } else {
            Trail { back: self.back.push(self.current), forward: seq![], current: to }
        }
    }

    /// After one step back.
    pub open spec fn stepped_back(self) -> Trail {
        if self.back.len() == 0 {
            self
        } else {
            Trail {
                back: self.back.drop_last(),
                forward: self.forward.push(self.current),
                current: self.back.last(),
            }
        }
    }

    /// After one step forward.
    pub open spec fn stepped_forward(self) -> Trail {
        if self.forward.len() == 0 {
            self
        } else {
            Trail {
                back: self.back.push(self.current),
                forward: self.forward.drop_last(),
                current: self.forward.last(),
            }
        }
    }
}

impl History {
    /// A history that begins at `start`.
    pub fn new(start: Location) -> (r: History)
        ensures
            r@ == (Trail { back: seq![], forward: seq![], current: start@ }),
            r.current == start,
    {
        let r = History { back: Vec::new(), forward: Vec::new(), current: start };
        assert(r@.back =~= Seq::<Place>::empty());
        assert(r@.forward =~= Seq::<Place>::empty());
        r
    }

    /// The current location.
    pub fn current(&self) -> (r: &Location)
        ensures
            *r == self.current,
    {
        &self.current
    }

    /// Navigate to a new location. Nothing happens if it is the current one.
    pub fn navigate(&mut self, to: Location)
        ensures
            final(self)@ == old(self)@.visited(to@),
            same_place(to@, old(self)@.current) ==> *final(self) == *old(self),
    {
        if to == self.current {
            return;
        }
        let ghost was = self@;
        let mut previous = to;
        core::mem::swap(&mut self.current, &mut previous);
        self.back.push(previous);
        self.forward.clear();
        assert(self@.back =~= was.back.push(was.current));
        assert(self@.forward =~= Seq::<Place>::empty());
    }

    /// Whether there is somewhere to go back to.
    pub fn can_go_back(&self) -> (r: bool)
        ensures
            r == (self@.back.len() > 0),
    {
        self.back.len() > 0
    }

    /// Whether there is somewhere to go forward to.
    pub fn can_go_forward(&self) -> (r: bool)
        ensures
            r == (self@.forward.len() > 0),
    {
        self.forward.len() > 0
    }

    /// Move one step back, returning the new current location.
    pub fn go_back(&mut self) -> (r: Option<Location>)
        ensures
            final(self)@ == old(self)@.stepped_back(),
            match r {
                Some(l) => old(self)@.back.len() > 0 && l == final(self).current,
                None => old(self)@.back.len() == 0 && *final(self) == *old(self),
            },
    {
        let ghost was = self@;
        if self.back.len() == 0 {
            return None;
        }
        match self.back.pop() {
            Some(target) => {
                let mut previous = target;
                core::mem::swap(&mut self.current, &mut previous);
                self.forward.push(previous);
                assert(self@.back =~= was.back.drop_last());
                assert(self@.forward =~= was.forward.push(was.current));
                Some(self.current.clone())
            },
            None => None,
        }
    }

    /// Move one step forward, returning the new current location.
    pub fn go_forward(&mut self) -> (r: Option<Location>)
        ensures
            final(self)@ == old(self)@.stepped_forward(),
            match r {
                Some(l) => old(self)@.forward.len() > 0 && l == final(self).current,
                None => old(self)@.forward.len() == 0 && *final(self) == *old(self),
            },
    {
        let ghost was = self@;
        if self.forward.len() == 0 {
            return None;
        }
        match self.forward.pop() {
            Some(target) => {
                let mut previous = target;
                core::mem::swap(&mut self.current, &mut previous);
                self.back.push(previous);
                assert(self@.forward =~= was.forward.drop_last());
                assert(self@.back =~= was.back.push(was.current));
                Some(self.current.clone())
            },
            None => None,
        }
    }
}

/// Back and forward undo each other.
pub proof fn law_back_and_forward_are_inverse(t: Trail)
    ensures
        t.back.len() > 0 ==> t.stepped_back().stepped_forward() == t,
        t.forward.len() > 0 ==> t.stepped_forward().stepped_back() == t,
{
    if t.back.len() > 0 {
        assert(t.stepped_back().stepped_forward().back =~= t.back);
        assert(t.stepped_back().stepped_forward().forward =~= t.forward);
    }
    if t.forward.len() > 0 {
        assert(t.stepped_forward().stepped_back().back =~= t.back);
        assert(t.stepped_forward().stepped_back().forward =~= t.forward);
    }
}

/// Going back after a visit to another place leads to where it started, and a visit
/// leaves nothing to go forward to.
pub proof fn law_back_undoes_a_visit(t: Trail, to: Place)
    requires
        !same_place(to, t.current),
    ensures
        t.visited(to).current == to,
        t.visited(to).forward.len() == 0,
        t.visited(to).stepped_back().current == t.current,
        t.visited(to).stepped_back().back == t.back,
        t.visited(to).stepped_back().forward == seq![to],
{
    assert(t.visited(to).stepped_back().back =~= t.back);
    assert(t.visited(to).stepped_back().forward =~= seq![to]);
}

/// Stepping never loses a place: the trail from the oldest to the newest stays.
pub proof fn law_stepping_keeps_the_trail(t: Trail)
    ensures
        t.stepped_back().back.len() + t.stepped_back().forward.len() == t.back.len()
            + t.forward.len(),
        t.stepped_forward().back.len() + t.stepped_forward().forward.len() == t.back.len()
            + t.forward.len(),
{
}

} // verus!
