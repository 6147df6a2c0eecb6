//! The objects a ray is inside of, while it travels through a scene.
//!
//! Walking the intersections of a ray in order of time of impact, each intersection with an object
//! either enters the object (when the ray was not inside it) or exits it. The refractive index on
//! each side of an intersection is that of the object entered last, or of the vacuum when there is
//! none.

use vstd::prelude::*;

use super::world::ObjectHandle;

verus! {

/// The objects a ray is currently inside of, in the order in which it entered them.
#[derive(Debug, Clone)]
pub struct Containers {
    entered: Vec<ObjectHandle>,
}

/// `handles` holds no handle twice.
pub open spec fn distinct(handles: Seq<ObjectHandle>) -> bool {
    forall|i: int, j: int|
        0 <= i < handles.len() && 0 <= j < handles.len() && i != j ==> handles[i] != handles[j]
}

/// Holds for every handle but `handle`.
pub open spec fn other_than(handle: ObjectHandle) -> spec_fn(ObjectHandle) -> bool {
    |e: ObjectHandle| e != handle
}

/// The containers after the ray crosses the surface of object `handle`: it exits the object if it
/// was inside it, and enters it otherwise.
pub open spec fn crossed(entered: Seq<ObjectHandle>, handle: ObjectHandle) -> Seq<ObjectHandle> {
    if entered.contains(handle) {
        entered.filter(other_than(handle))
    } else {
        entered.push(handle)
    }
}

impl Containers {
    /// The objects entered, oldest first.
    pub closed spec fn entered(self) -> Seq<ObjectHandle> {
        self.entered@
    }

    /// No object is entered twice.
    pub closed spec fn wf(self) -> bool {
        distinct(self.entered@)
    }

    /// Creates the containers of a ray that is inside no object.
    pub fn new() -> (c: Self)
        ensures
            c.wf(),
            c.entered() == Seq::<ObjectHandle>::empty(),
    {
        Containers { entered: Vec::new() }
    }

    /// Returns whether the ray is inside object `handle`.
    pub fn contains(&self, handle: ObjectHandle) -> (inside: bool)
        ensures
            inside == self.entered().contains(handle),
    {
        let mut i: usize = 0;
        while i < self.entered.len()
            invariant
                i <= self.entered@.len(),
                forall|k: int| 0 <= k < i ==> self.entered@[k] != handle,
            decreases self.entered@.len() - i,
        {
            if self.entered[i] == handle {
                return true;
            }
            i = i + 1;
        }
        false
    }

    /// Records that the ray crosses the surface of object `handle`.
    pub fn cross(&mut self, handle: ObjectHandle)
        requires
            old(self).wf(),
        ensures
            final(self).wf(),
            final(self).entered() == crossed(old(self).entered(), handle),
    {
        if self.contains(handle) {
            let mut kept: Vec<ObjectHandle> = Vec::new();
            let mut i: usize = 0;
            while i < self.entered.len()
                invariant
                    i <= self.entered@.len(),
                    kept@ == self.entered@.take(i as int).filter(other_than(handle)),
                decreases self.entered@.len() - i,
            {
                let e = self.entered[i];
                proof {
                    assert(self.entered@.take(i + 1) =~= self.entered@.take(i as int).push(e));
                    self.entered@.take(i as int).lemma_filter_push(e, other_than(handle));
                }
                if e != handle {
                    kept.push(e);
                }
                i = i + 1;
            }
            proof {
                assert(self.entered@.take(i as int) =~= self.entered@);
            }
            self.entered = kept;
        } else {
            self.entered.push(handle);
        }
        proof {
            lemma_crossed_distinct(old(self).entered@, handle);
        }
    }

    /// Returns the object the ray entered last, if it is inside any.
    pub fn current(&self) -> (last: Option<ObjectHandle>)
        ensures
            last == if self.entered().len() == 0 {
                None::<ObjectHandle>
            } else {
                Some(self.entered().last())
            },
    {
        let n = self.entered.len();
        if n == 0 {
            None
        } else {
            Some(self.entered[n - 1])
        }
    }
}

/// Keeping some of the handles of a sequence without repeats gives a sequence without repeats.
proof fn lemma_filter_distinct(handles: Seq<ObjectHandle>, keep: spec_fn(ObjectHandle) -> bool)
    requires
        distinct(handles),
    ensures
        distinct(handles.filter(keep)),
    decreases handles.len(),
{
    reveal(Seq::filter);
    if handles.len() > 0 {
        let rest = handles.drop_last();
        assert(distinct(rest));
        lemma_filter_distinct(rest, keep);
        if keep(handles.last()) {
            let kept = rest.filter(keep);
            assert forall|i: int| 0 <= i < kept.len() implies kept[i] != handles.last() by {
                assert(kept.contains(kept[i]));
                rest.lemma_filter_contains_rev(keep, kept[i]);
            }
        }
    }
}

/// Crossing a surface never makes a ray inside the same object twice.
pub proof fn lemma_crossed_distinct(entered: Seq<ObjectHandle>, handle: ObjectHandle)
    requires
        distinct(entered),
    ensures
        distinct(crossed(entered, handle)),
{
    if entered.contains(handle) {
        lemma_filter_distinct(entered, other_than(handle));
    }
}

/// Crossing the surface of an object takes a ray out of it when it was inside, and into it
/// otherwise.
pub proof fn lemma_crossed_toggles(entered: Seq<ObjectHandle>, handle: ObjectHandle)
    ensures
        crossed(entered, handle).contains(handle) == !entered.contains(handle),
{
    if entered.contains(handle) {
        if entered.filter(other_than(handle)).contains(handle) {
            entered.lemma_filter_pred(
                other_than(handle),
                choose|i: int|
                    0 <= i < entered.filter(other_than(handle)).len() && entered.filter(
                        other_than(handle),
                    )[i] == handle,
            );
        }
    } else {
        assert(entered.push(handle)[entered.len() as int] == handle);
    }
}

/// Entering an object and then exiting it leaves the ray inside the same objects as before.
pub proof fn lemma_enter_then_exit(entered: Seq<ObjectHandle>, handle: ObjectHandle)
    requires
        !entered.contains(handle),
    ensures
        crossed(crossed(entered, handle), handle) == entered,
{
    let pushed = entered.push(handle);
    assert(pushed[entered.len() as int] == handle);
    assert(pushed.contains(handle));
    entered.lemma_filter_push(handle, other_than(handle));
    lemma_filter_keeps_all(entered, handle);
}

/// Removing a handle that a sequence does not hold leaves the sequence unchanged.
proof fn lemma_filter_keeps_all(handles: Seq<ObjectHandle>, handle: ObjectHandle)
    requires
        !handles.contains(handle),
    ensures
        handles.filter(other_than(handle)) == handles,
    decreases handles.len(),
{
    reveal(Seq::filter);
    if handles.len() > 0 {
        let rest = handles.drop_last();
        assert(!rest.contains(handle)) by {
            if rest.contains(handle) {
                let i = choose|i: int| 0 <= i < rest.len() && rest[i] == handle;
                assert(handles[i] == handle);
            }
        }
        lemma_filter_keeps_all(rest, handle);
        assert(handles.last() != handle) by {
            if handles.last() == handle {
                assert(handles[handles.len() - 1] == handle);
            }
        }
        assert(rest.push(handles.last()) =~= handles);
    }
}

/// Removing the one occurrence of `handle`, at position `p`, keeps the other handles in order.
proof fn lemma_filter_removes_at(handles: Seq<ObjectHandle>, handle: ObjectHandle, p: int)
    requires
        0 <= p < handles.len(),
        handles[p] == handle,
        forall|q: int| 0 <= q < handles.len() && q != p ==> handles[q] != handle,
    ensures
        handles.filter(other_than(handle)) == handles.remove(p),
    decreases handles.len(),
{
    reveal(Seq::filter);
    let rest = handles.drop_last();
    if p == handles.len() - 1 {
        assert(!rest.contains(handle)) by {
            if rest.contains(handle) {
                let i = choose|i: int| 0 <= i < rest.len() && rest[i] == handle;
                assert(handles[i] == handle);
            }
        }
        lemma_filter_keeps_all(rest, handle);
        assert(handles.remove(p) =~= rest);
    } else {
        lemma_filter_removes_at(rest, handle, p);
        assert(handles.last() != handle) by {
            assert(handles[handles.len() - 1] != handle);
        }
        assert(rest.remove(p).push(handles.last()) =~= handles.remove(p));
    }
}

/// Crossing the surface of an object the ray is inside of removes exactly that object and keeps
/// the others in their order of entry; crossing the surface of any other object enters it last.
pub proof fn lemma_crossed_keeps_order(entered: Seq<ObjectHandle>, handle: ObjectHandle, p: int)
    requires
        distinct(entered),
    ensures
        0 <= p < entered.len() && entered[p] == handle ==> crossed(entered, handle)
            == entered.remove(p),
        !entered.contains(handle) ==> crossed(entered, handle) == entered.push(handle),
{
    if 0 <= p < entered.len() && entered[p] == handle {
        assert(entered.contains(handle));
        lemma_filter_removes_at(entered, handle, p);
    }
}

} // verus!
