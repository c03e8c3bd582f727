//! Multi-selection state for the file list.
//!
//! The anchor is the pivot a Shift-range extends from, and the lead is the focused row
//! that the arrow keys move and that rename and open act on.

use vstd::prelude::*;

verus! {

/// The selected rows, with the anchor and the lead.
#[derive(Debug)]
pub struct Selection {
    /// The selected indices, ascending and without repetition.
    pub items: Vec<usize>,
    pub anchor: Option<usize>,
    pub lead: Option<usize>,
}

/// A selection as plain values.
pub ghost struct Picked {
    pub items: Set<usize>,
    pub anchor: Option<usize>,
    pub lead: Option<usize>,
}

/// Whether `s` is ascending without repetition.
pub open spec fn ascending(s: Seq<usize>) -> bool {
    forall|i: int, j: int| 0 <= i < j < s.len() ==> #[trigger] s[i] < #[trigger] s[j]
}

/// The indices from `lo` to `hi`, both included.
pub open spec fn run(lo: usize, hi: usize) -> Set<usize> {
    Set::new(|i: usize| lo <= i <= hi)
}

/// `i`, unless it is not below `len`.
pub open spec fn below(i: Option<usize>, len: usize) -> Option<usize> {
    match i {
        Some(k) => if k < len {
            Some(k)
        } else {
            None
        },
        None => None,
    }
}

impl View for Selection {
    type V = Picked;

    open spec fn view(&self) -> Picked {
        Picked { items: self.items@.to_set(), anchor: self.anchor, lead: self.lead }
    }
}

impl Picked {
    /// Nothing selected.
    pub open spec fn none() -> Picked {
        Picked { items: Set::empty(), anchor: None, lead: None }
    }

    /// Exactly one row.
    pub open spec fn only(index: usize) -> Picked {
        Picked { items: Set::empty().insert(index), anchor: Some(index), lead: Some(index) }
    }

    /// With one row's membership flipped.
    pub open spec fn toggled(self, index: usize) -> Picked {
        Picked {
            items: if self.items.contains(index) {
                self.items.remove(index)
            } else {
                self.items.insert(index)
            },
            anchor: Some(index),
            lead: Some(index),
        }
    }

    /// The run from the anchor to `index`.
    pub open spec fn ranged(self, index: usize) -> Picked {
        let anchor = match self.anchor {
            Some(a) => a,
            None => index,
        };
        Picked {
            items: if anchor <= index {
                run(anchor, index)
            } else {
                run(index, anchor)
            },
            anchor: Some(anchor),
            lead: Some(index),
        }
    }

    /// With the focus moved.
    pub open spec fn focused(self, index: usize) -> Picked {
        Picked { items: self.items, anchor: Some(index), lead: Some(index) }
    }

    /// Every row below `len`.
    pub open spec fn all(self, len: usize) -> Picked {
        let fresh = self.lead is None && len > 0;
        Picked {
            items: Set::new(|i: usize| i < len),
            anchor: if fresh {
                Some(0)
            } else {
                self.anchor
            },
            lead: if fresh {
                Some(0)
            } else {
                self.lead
            },
        }
    }

    /// Only what is below `len`.
    pub open spec fn retained(self, len: usize) -> Picked {
        Picked {
            items: self.items.filter(|i: usize| i < len),
            anchor: below(self.anchor, len),
            lead: below(self.lead, len),
        }
    }

    /// Whether no index reaches `len`.
    pub open spec fn within(self, len: int) -> bool {
        &&& forall|i: usize| self.items.contains(i) ==> i < len
        &&& self.anchor is Some ==> self.anchor->0 < len
        &&& self.lead is Some ==> self.lead->0 < len
    }
}

impl Default for Selection {
    fn default() -> (r: Selection)
        ensures
            r.wf(),
            r@ == Picked::none(),
    {
        let r = Selection { items: Vec::new(), anchor: None, lead: None };
        assert(r@.items =~= Set::empty());
        r
    }
}

impl Clone for Selection {
    fn clone(&self) -> (r: Selection)
        ensures
            r.items@ == self.items@,
            r.anchor == self.anchor,
            r.lead == self.lead,
    {
        Selection { items: copy_indices(&self.items), anchor: self.anchor, lead: self.lead }
    }
}

fn copy_indices(v: &Vec<usize>) -> (r: Vec<usize>)
    ensures
        r@ == v@,
{
    let mut out: Vec<usize> = Vec::new();
    for i in 0..v.len()
        invariant
            out@ == v@.take(i as int),
    {
        out.push(v[i]);
    }
    assert(v@.take(v@.len() as int) =~= v@);
    out
}

impl Selection {
    /// The indices are kept ascending without repetition.
    pub open spec fn wf(&self) -> bool {
        ascending(self.items@)
    }

    /// Whether nothing is selected.
    pub fn is_empty(&self) -> (r: bool)
        requires
            self.wf(),
        ensures
            r == (self@.items == Set::<usize>::empty()),
    {
        proof {
            if self.items@.len() == 0 {
                assert(self@.items =~= Set::<usize>::empty());
            } else {
                assert(self@.items.contains(self.items@[0]));
            }
        }
        self.items.len() == 0
    }

    /// How many rows are selected.
    pub fn len(&self) -> (r: usize)
        requires
            self.wf(),
        ensures
            r == self@.items.len(),
    {
        proof {
            assert(self.items@.no_duplicates());
            self.items@.unique_seq_to_set();
        }
        self.items.len()
    }

    /// Where `index` stands among the selected indices, or would stand.
    fn position(&self, index: usize) -> (r: usize)
        requires
            self.wf(),
        ensures
            r <= self.items@.len(),
            forall|k: int| 0 <= k < r ==> #[trigger] self.items@[k] < index,
            forall|k: int| r <= k < self.items@.len() ==> #[trigger] self.items@[k] >= index,
            self@.items.contains(index) == (r < self.items@.len() && self.items@[r as int]
                == index),
    {
        let mut i: usize = self.items.len();
        while i > 0 && self.items[i - 1] >= index
            invariant
                i <= self.items@.len(),
                self.wf(),
                forall|k: int| i <= k < self.items@.len() ==> #[trigger] self.items@[k] >= index,
            decreases i,
        {
            i -= 1;
        }
        proof {
            assert forall|k: int| 0 <= k < i implies #[trigger] self.items@[k] < index by {
                if k < i - 1 {
                    assert(self.items@[k] < self.items@[i - 1]);
                }
            }
            if i < self.items@.len() && self.items@[i as int] == index {
                assert(self@.items.contains(self.items@[i as int]));
            } else if self@.items.contains(index) {
                let k = choose|k: int| 0 <= k < self.items@.len() && self.items@[k] == index;
                assert(k >= i);
                if k > i {
                    assert(self.items@[i as int] < self.items@[k]);
                }
            }
        }
        i
    }

    /// Whether `index` is selected.
    pub fn contains(&self, index: usize) -> (r: bool)
        requires
            self.wf(),
        ensures
            r == self@.items.contains(index),
    {
        let i: usize = self.position(index);
        i < self.items.len() && self.items[i] == index
    }

    /// The focused row.
    pub fn lead(&self) -> (r: Option<usize>)
        ensures
            r == self.lead,
    {
        self.lead
    }

    /// The selected indices, ascending.
    pub fn iter(&self) -> (r: Vec<usize>)
        requires
            self.wf(),
        ensures
            r@ == self.items@,
            ascending(r@),
            r@.to_set() == self@.items,
    {
        copy_indices(&self.items)
    }

    /// The lone selected index, if exactly one row is selected.
    pub fn single(&self) -> (r: Option<usize>)
        requires
            self.wf(),
        ensures
            match r {
                Some(i) => self@.items == Set::<usize>::empty().insert(i),
                None => self@.items.len() != 1,
            },
    {
        if self.len() == 1 {
            proof {
                assert(self@.items.len() == 1);
                assert(self.items@.no_duplicates());
                self.items@.unique_seq_to_set();
                assert(self.items@.len() == 1);
                assert(self@.items =~= Set::<usize>::empty().insert(self.items@[0])) by {
                    assert forall|x: usize| self@.items.contains(x) implies x
                        == self.items@[0] by {}
                    assert(self@.items.contains(self.items@[0]));
                }
            }
            Some(self.items[0])
        } else {
            None
        }
    }

    /// Select nothing.
    pub fn clear(&mut self)
        ensures
            final(self).wf(),
            final(self)@ == Picked::none(),
    {
        self.items = Vec::new();
        self.anchor = None;
        self.lead = None;
        assert(self@.items =~= Set::empty());
    }

    /// Select exactly `index`.
    pub fn select_one(&mut self, index: usize)
        ensures
            final(self).wf(),
            final(self)@ == Picked::only(index),
    {
        let mut items: Vec<usize> = Vec::new();
        items.push(index);
        self.items = items;
        self.anchor = Some(index);
        self.lead = Some(index);
        assert(self.items@[0] == index);
        assert(self@.items =~= Set::empty().insert(index));
    }

    fn insert(&mut self, index: usize)
        requires
            old(self).wf(),
        ensures
            final(self).wf(),
            final(self)@.items == old(self)@.items.insert(index),
            final(self).anchor == old(self).anchor,
            final(self).lead == old(self).lead,
    {
        let i: usize = self.position(index);
        let ghost was = self.items@;
        if i < self.items.len() && self.items[i] == index {
            assert(self@.items =~= old(self)@.items.insert(index));
            return;
        }
        self.items.insert(i, index);
        proof {
            let now = self.items@;
            assert(now =~= was.insert(i as int, index));
            assert forall|x: usize| now.to_set().contains(x) == was.to_set().insert(
                index,
            ).contains(x) by {
                if x == index {
                    assert(now[i as int] == x);
                } else if was.to_set().contains(x) {
                    let k = choose|k: int| 0 <= k < was.len() && was[k] == x;
                    if k < i {
                        assert(now[k] == x);
                    } else {
                        assert(now[k + 1] == x);
                    }
                } else if now.to_set().contains(x) {
                    let k = choose|k: int| 0 <= k < now.len() && now[k] == x;
                    if k < i {
                        assert(was[k] == x);
                    } else if k > i {
                        assert(was[k - 1] == x);
                    }
                }
            }
            assert(self@.items =~= old(self)@.items.insert(index));
        }
    }

    fn remove(&mut self, index: usize)
        requires
            old(self).wf(),
        ensures
            final(self).wf(),
            final(self)@.items == old(self)@.items.remove(index),
            final(self).anchor == old(self).anchor,
            final(self).lead == old(self).lead,
    {
        let i: usize = self.position(index);
        let ghost was = self.items@;
        if !(i < self.items.len() && self.items[i] == index) {
            assert(self@.items =~= old(self)@.items.remove(index));
            return;
        }
        let _ = self.items.remove(i);
        proof {
            let now = self.items@;
            assert(now =~= was.remove(i as int));
            assert forall|x: usize| now.to_set().contains(x) == was.to_set().remove(
                index,
            ).contains(x) by {
                if now.to_set().contains(x) {
                    let k = choose|k: int| 0 <= k < now.len() && now[k] == x;
                    if k < i {
                        assert(was[k] == x);
                        assert(was[k] < was[i as int]);
                    } else {
                        assert(was[k + 1] == x);
                        assert(was[i as int] < was[k + 1]);
                    }
                } else if was.to_set().contains(x) && x != index {
                    let k = choose|k: int| 0 <= k < was.len() && was[k] == x;
                    if k < i {
                        assert(now[k] == x);
                    } else {
                        assert(now[k - 1] == x);
                    }
                }
            }
            assert(self@.items =~= old(self)@.items.remove(index));
        }
    }

    /// Toggle the membership of `index`; it becomes both anchor and lead.
    pub fn toggle(&mut self, index: usize)
        requires
            old(self).wf(),
        ensures
            final(self).wf(),
            final(self)@ == old(self)@.toggled(index),
    {
        if self.contains(index) {
            self.remove(index);
        } else {
            self.insert(index);
        }
        self.anchor = Some(index);
        self.lead = Some(index);
    }

    /// Replace the selection with the contiguous run from the anchor to `index`. The
    /// anchor stays put; only the lead moves.
    pub fn select_range(&mut self, index: usize)
        ensures
            final(self).wf(),
            final(self)@ == old(self)@.ranged(index),
    {
        let anchor: usize = match self.anchor {
            Some(a) => a,
            None => index,
        };
        let lo: usize = if anchor <= index {
            anchor
        } else {
            index
        };
        let hi: usize = if anchor <= index {
            index
        } else {
            anchor
        };
        let mut items: Vec<usize> = Vec::new();
        let mut i: usize = lo;
        while i < hi
            invariant
                lo <= i <= hi,
                items@.len() == i - lo,
                forall|k: int| 0 <= k < items@.len() ==> #[trigger] items@[k] == lo + k,
            decreases hi - i,
        {
            items.push(i);
            i += 1;
        }
        items.push(hi);
        self.items = items;
        self.anchor = Some(anchor);
        self.lead = Some(index);
        proof {
            assert forall|x: usize| self@.items.contains(x) == run(lo, hi).contains(x) by {
                if lo <= x <= hi {
                    assert(self.items@[x - lo] == x);
                }
            }
            assert(self@.items =~= run(lo, hi));
        }
    }

    /// Move the focus to `index` without changing what is selected.
    pub fn move_lead(&mut self, index: usize)
        requires
            old(self).wf(),
        ensures
            final(self).wf(),
            final(self)@ == old(self)@.focused(index),
    {
        self.lead = Some(index);
        self.anchor = Some(index);
    }

    /// Replace the selection with exactly `indices`. The lead and the anchor become the
    /// lowest of them.
    pub fn set_many(&mut self, indices: &[usize])
        ensures
            final(self).wf(),
            final(self)@.items == indices@.to_set(),
            final(self).lead == final(self).anchor,
            match final(self).lead {
                Some(first) => indices@.contains(first) && forall|k: int|
                    0 <= k < indices@.len() ==> first <= #[trigger] indices@[k],
                None => indices@.len() == 0,
            },
    {
        self.items = Vec::new();
        assert(self@.items =~= indices@.take(0).to_set());
        for i in 0..indices.len()
            invariant
                self.wf(),
                self@.items == indices@.take(i as int).to_set(),
        {
            self.insert(indices[i]);
            proof {
                let t = indices@.take(i + 1);
                assert(t =~= indices@.take(i as int).push(indices@[i as int]));
                assert forall|x: usize| t.to_set().contains(x) == indices@.take(
                    i as int,
                ).to_set().insert(indices@[i as int]).contains(x) by {
                    if x == indices@[i as int] {
                        assert(t[i as int] == x);
                    } else if indices@.take(i as int).contains(x) {
                        let k = choose|k: int|
                            0 <= k < i && indices@.take(i as int)[k] == x;
                        assert(t[k] == x);
                    } else if t.contains(x) {
                        let k = choose|k: int| 0 <= k < i + 1 && t[k] == x;
                        assert(indices@.take(i as int)[k] == x);
                    }
                }
                assert(self@.items =~= t.to_set());
            }
        }
        assert(indices@.take(indices@.len() as int) =~= indices@);
        let first: Option<usize> = if self.items.len() > 0 {
            Some(self.items[0])
        } else {
            None
        };
        proof {
            if self.items@.len() > 0 {
                assert(self@.items.contains(self.items@[0]));
                assert forall|k: int| 0 <= k < indices@.len() implies self.items@[0]
                    <= #[trigger] indices@[k] by {
                    assert(self@.items.contains(indices@[k]));
                    let j = choose|j: int|
                        0 <= j < self.items@.len() && self.items@[j] == indices@[k];
                    if j > 0 {
                        assert(self.items@[0] < self.items@[j]);
                    }
                }
            } else if indices@.len() > 0 {
                assert(self@.items.contains(indices@[0]));
            }
        }
        self.anchor = first;
        self.lead = first;
    }

    /// Select every row below `len`, leaving the lead where it is.
    pub fn select_all(&mut self, len: usize)
        ensures
            final(self).wf(),
            final(self)@ == old(self)@.all(len),
    {
        let mut items: Vec<usize> = Vec::new();
        for i in 0..len
            invariant
                items@.len() == i,
                forall|k: int| 0 <= k < items@.len() ==> #[trigger] items@[k] == k,
        {
            items.push(i);
        }
        self.items = items;
        if self.lead.is_none() && len > 0 {
            self.lead = Some(0);
            self.anchor = Some(0);
        }
        proof {
            let all = Set::new(|i: usize| i < len);
            assert forall|x: usize| self@.items.contains(x) == all.contains(x) by {
                if x < len {
                    assert(self.items@[x as int] == x);
                }
            }
            assert(self@.items =~= all);
        }
    }

    /// Drop any index that is not below `len`.
    pub fn retain_below(&mut self, len: usize)
        requires
            old(self).wf(),
        ensures
            final(self).wf(),
            final(self)@ == old(self)@.retained(len),
            final(self)@.within(len as int),
    {
        let i: usize = self.position(len);
        let ghost was = self.items@;
        self.items.truncate(i);
        if let Some(a) = self.anchor {
            if a >= len {
                self.anchor = None;
            }
        }
        if let Some(l) = self.lead {
            if l >= len {
                self.lead = None;
            }
        }
        proof {
            let now = self.items@;
            let kept = old(self)@.items.filter(|i: usize| i < len);
            assert forall|x: usize| now.to_set().contains(x) == kept.contains(x) by {
                if now.to_set().contains(x) {
                    let k = choose|k: int| 0 <= k < now.len() && now[k] == x;
                    assert(was[k] == x);
                } else if kept.contains(x) {
                    let k = choose|k: int| 0 <= k < was.len() && was[k] == x;
                    assert(k < i);
                    assert(now[k] == x);
                }
            }
            assert(self@.items =~= kept);
        }
    }
}

/// Toggling a row twice selects what was selected before.
pub proof fn law_toggle_twice_restores(p: Picked, index: usize)
    ensures
        p.toggled(index).toggled(index).items == p.items,
{
    assert(p.toggled(index).toggled(index).items =~= p.items);
}

/// A range from a fixed anchor does not depend on the ranges selected before it.
pub proof fn law_ranges_replace_each_other(p: Picked, i: usize, j: usize)
    requires
        p.anchor is Some,
    ensures
        p.ranged(i).ranged(j) == p.ranged(j),
        p.ranged(i).anchor == p.anchor,
{
}

/// Once clipped to a list's length, a selection stays in bounds however it is clipped
/// again to the same length, and clipping changes nothing that was in bounds.
pub proof fn law_retaining_is_stable(p: Picked, len: usize)
    ensures
        p.retained(len).within(len as int),
        p.retained(len).retained(len) == p.retained(len),
        p.within(len as int) ==> p.retained(len) == p,
{
    assert(p.retained(len).retained(len).items =~= p.retained(len).items);
    if p.within(len as int) {
        assert(p.retained(len).items =~= p.items);
    }
}

} // verus!
