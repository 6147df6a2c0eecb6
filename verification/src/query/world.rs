//! A container of collidable objects and light sources.

use vstd::prelude::*;

use itertools::Itertools;
use vstd::std_specs::cmp::PartialEqSpec;
use vstd::std_specs::iter::IteratorSpec;

verus! {

broadcast use {vstd::std_specs::slice::axiom_spec_slice_iter, vstd::std_specs::vec::axiom_spec_into_iter};

/// A handle to an object in a world.
#[derive(Debug, Clone, Copy, PartialEq, Eq, Structural)]
pub struct ObjectHandle(u32);

impl ObjectHandle {
    /// The position of the handled object among the world's objects.
    pub closed spec fn index(self) -> nat {
        self.0 as nat
    }

    /// Handles of the same object are equal.
    pub proof fn lemma_index_injective(self, other: Self)
        ensures
            self.index() == other.index() <==> self == other,
    {
    }
}

/// A container of collidable objects and of the lights that illuminate them.
///
/// Objects are identified by handles, which are their positions in the order of addition.
#[derive(Debug)]
pub struct World<O, L> {
    objects: Vec<O>,
    lights: Vec<L>,
}

impl<O, L> World<O, L> {
    /// The objects, in the order in which they were added.
    pub closed spec fn object_seq(self) -> Seq<O> {
        self.objects@
    }

    /// The light sources, in the order in which they were added.
    pub closed spec fn light_seq(self) -> Seq<L> {
        self.lights@
    }

    /// Creates an empty world.
    pub fn new() -> (w: Self)
        ensures
            w.object_seq() == Seq::<O>::empty(),
            w.light_seq() == Seq::<L>::empty(),
    {
        World { objects: Vec::new(), lights: Vec::new() }
    }

    /// Creates a world lit by `lights` and holding `objects`: each light, then each object, is
    /// added in order, so that the `i`-th object gets the handle of index `i`.
    ///
    /// A world holds at most `u32::MAX` objects, so that each has a handle.
    pub fn from_parts(lights: Vec<L>, objects: Vec<O>) -> (w: Self)
        requires
            objects@.len() <= u32::MAX,
        ensures
            w.light_seq() == lights@,
            w.object_seq() == objects@,
    {
        let ghost all_lights = lights@;
        let ghost all_objects = objects@;
        let mut world = World::new();
        for light in it: lights
            invariant
                it.seq() == all_lights,
                world.light_seq() == all_lights.take(it.index() as int),
                world.object_seq() == Seq::<O>::empty(),
        {
            world.add_light(light);
            proof {
                assert(all_lights.take(it.index() + 1) =~= all_lights.take(it.index() as int).push(light));
            }
        }
        for object in it: objects
            invariant
                it.seq() == all_objects,
                all_objects.len() <= u32::MAX,
                world.light_seq() == all_lights,
                world.object_seq() == all_objects.take(it.index() as int),
        {
            world.add(object);
            proof {
                assert(all_objects.take(it.index() + 1) =~= all_objects.take(it.index() as int).push(object));
            }
        }
        world
    }

    /// Adds an object to this world and returns its handle.
    ///
    /// A world holds at most `u32::MAX` objects, so that each has a handle.
    pub fn add(&mut self, object: O) -> (h: ObjectHandle)
        requires
            old(self).object_seq().len() < u32::MAX,
        ensures
            final(self).object_seq() == old(self).object_seq().push(object),
            final(self).light_seq() == old(self).light_seq(),
            h.index() == old(self).object_seq().len(),
    {
        self.objects.push(object);
        ObjectHandle((self.objects.len() - 1) as u32)
    }

    /// Returns a reference to the object identified by this handle, or `None` if the world has
    /// no such object.
    pub fn get(&self, handle: ObjectHandle) -> (o: Option<&O>)
        ensures
            o == if handle.index() < self.object_seq().len() {
                Some(&self.object_seq()[handle.index() as int])
            } else {
                None::<&O>
            },
    {
        let i = handle.0 as usize;
        if i < self.objects.len() {
            Some(&self.objects[i])
        } else {
            None
        }
    }

    /// Returns a mutable reference to the object identified by this handle, or `None` if the
    /// world has no such object.
    pub fn get_mut(&mut self, handle: ObjectHandle) -> (o: Option<&mut O>)
        ensures
            final(self).light_seq() == old(self).light_seq(),
            match o {
                Some(r) => {
                    &&& handle.index() < old(self).object_seq().len()
                    &&& *r == old(self).object_seq()[handle.index() as int]
                    &&& final(self).object_seq() == old(self).object_seq().update(
                        handle.index() as int,
                        *final(r),
                    )
                },
                None => {
                    &&& handle.index() >= old(self).object_seq().len()
                    &&& final(self).object_seq() == old(self).object_seq()
                },
            },
    {
        let i = handle.0 as usize;
        if i < self.objects.len() {
            Some(&mut self.objects[i])
        } else {
            None
        }
    }

    /// Returns an iterator over this world's objects.
    pub fn objects(&self) -> (it: std::slice::Iter<'_, O>)
        ensures
            it.remaining() == self.object_seq().map_values(|o: O| &o),
    {
        let it = self.objects.as_slice().iter();
        proof {
            assert(self.objects@.as_ref() =~= self.object_seq().map_values(|o: O| &o));
        }
        it
    }

    /// Returns this world's objects for modification, in place.
    pub fn objects_mut(&mut self) -> (objects: &mut [O])
        ensures
            objects@ == old(self).object_seq(),
            final(self).object_seq() == final(objects)@,
            final(self).light_seq() == old(self).light_seq(),
    {
        self.objects.as_mut_slice()
    }

    /// Adds a new light source to this world.
    pub fn add_light(&mut self, light: L)
        ensures
            final(self).light_seq() == old(self).light_seq().push(light),
            final(self).object_seq() == old(self).object_seq(),
    {
        self.lights.push(light);
    }

    /// Returns an iterator over this world's lights.
    pub fn lights(&self) -> (it: std::slice::Iter<'_, L>)
        ensures
            it.remaining() == self.light_seq().map_values(|l: L| &l),
    {
        let it = self.lights.as_slice().iter();
        proof {
            assert(self.lights@.as_ref() =~= self.light_seq().map_values(|l: L| &l));
        }
        it
    }

    /// Returns this world's lights for modification, in place.
    pub fn lights_mut(&mut self) -> (lights: &mut [L])
        ensures
            lights@ == old(self).light_seq(),
            final(self).light_seq() == final(lights)@,
            final(self).object_seq() == old(self).object_seq(),
    {
        self.lights.as_mut_slice()
    }

    /// Returns the handles of all the objects of this world, in order.
    pub fn handles(&self) -> (hs: Vec<ObjectHandle>)
        requires
            self.object_seq().len() <= u32::MAX,
        ensures
            hs@.len() == self.object_seq().len(),
            forall|i: int| 0 <= i < hs@.len() ==> #[trigger] hs@[i].index() == i,
    {
        let mut hs: Vec<ObjectHandle> = Vec::new();
        let n = self.objects.len();
        let mut i: usize = 0;
        while i < n
            invariant
                i <= n,
                n == self.object_seq().len(),
                n <= u32::MAX,
                hs@.len() == i,
                forall|k: int| 0 <= k < hs@.len() ==> #[trigger] hs@[k].index() == k,
            decreases n - i,
        {
            hs.push(ObjectHandle(i as u32));
            i = i + 1;
        }
        hs
    }
}

/// Position `pos` holds the first light of `lights` equal to `target`, equality being that of
/// the lights' specification of `==`.
pub open spec fn first_equal<L: PartialEqSpec>(lights: Seq<L>, target: L, pos: int) -> bool {
    &&& 0 <= pos < lights.len()
    &&& lights[pos].eq_spec(&target)
    &&& forall|q: int| 0 <= q < pos ==> !#[trigger] lights[q].eq_spec(&target)
}

impl<O, L: PartialEq> World<O, L> {
    /// Removes the first light equal to `light` from this world, if there is one.
    pub fn remove_light(&mut self, light: &L)
        ensures
            final(self).object_seq() == old(self).object_seq(),
            final(self).light_seq() == old(self).light_seq() || exists|p: int|
                0 <= p < old(self).light_seq().len() && final(self).light_seq() == old(
                    self,
                ).light_seq().remove(p),
            L::obeys_eq_spec() ==> {
                if exists|p: int| first_equal(old(self).light_seq(), *light, p) {
                    let p = choose|p: int| first_equal(old(self).light_seq(), *light, p);
                    final(self).light_seq() == old(self).light_seq().remove(p)
                } else {
                    final(self).light_seq() == old(self).light_seq()
                }
            },
    {
        let found = position_of(&self.lights, light);
        match found {
            Some(p) => {
                proof {
                    if L::obeys_eq_spec() {
                        assert(first_equal(self.lights@, *light, p as int));
                        assert forall|q: int| first_equal(self.lights@, *light, q) implies q == p by {
                            if q < p {
                                assert(!self.lights@[q].eq_spec(light));
                            } else if q > p {
                                assert(!self.lights@[p as int].eq_spec(light));
                            }
                        }
                    }
                }
                self.lights.remove(p);
            },
            None => {},
        }
    }
}

/// Compares two lights with `==`.
fn same_light<L: PartialEq>(a: &L, b: &L) -> (eq: bool)
    ensures
        L::obeys_eq_spec() ==> eq == a.eq_spec(b),
{
    *a == *b
}

/// Finds the position of the first light equal to `light`.
///
/// Trusted: `Itertools::find_position` returns the index of the first element for which the
/// predicate holds, or `None` when there is none. The predicate is [`same_light`]; what `==`
/// answers is only known for types whose `==` follows its specification, so the other cases
/// state only that a position found is within bounds.
#[verifier::external_body]
fn position_of<L: PartialEq>(lights: &Vec<L>, light: &L) -> (pos: Option<usize>)
    ensures
        pos matches Some(p) ==> p < lights@.len(),
        L::obeys_eq_spec() ==> match pos {
            Some(p) => first_equal(lights@, *light, p as int),
            None => forall|q: int| 0 <= q < lights@.len() ==> !#[trigger] lights@[q].eq_spec(light),
        },
{
    lights.iter().find_position(|l| same_light(*l, light)).map(|(p, _)| p)
}

/// The handle returned when adding an object finds that object, and the objects added before
/// keep their handles.
pub proof fn lemma_get_after_add<O, L>(before: World<O, L>, after: World<O, L>, object: O, h: ObjectHandle)
    requires
        after.object_seq() == before.object_seq().push(object),
        h.index() == before.object_seq().len(),
    ensures
        h.index() < after.object_seq().len(),
        after.object_seq()[h.index() as int] == object,
        forall|k: int| 0 <= k < before.object_seq().len() ==> #[trigger] after.object_seq()[k] == before.object_seq()[k],
{
}

} // verus!
