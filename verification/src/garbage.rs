//! Objects that became unreachable, and the bags that collect them.
use vstd::prelude::*;

verus! {

/// What an unlinked object consists of, so that its memory can be freed later.
#[derive(Clone, Copy, Debug, PartialEq, Eq, Structural)]
pub enum Kind {
    /// Entries of the list of participating threads.
    Thread,
    /// Elements of another type, which the number stands for.
    Value(usize),
}

/// An unlinked object: `count` elements of a type, allocated at an address.
#[derive(Clone, Copy, Debug, PartialEq, Eq, Structural)]
pub struct Object {
    pub addr: usize,
    pub count: usize,
    pub kind: Kind,
}

impl Object {
    /// The entry of a thread that has exited.
    pub open spec fn spec_thread(addr: usize) -> Object {
        Object { addr, count: 1, kind: Kind::Thread }
    }

    /// Returns the entry of a thread that has exited, as an object.
    pub fn thread(addr: usize) -> (object: Object)
        ensures
            object.addr == addr,
            object.count == 1,
            object.kind == Kind::Thread,
            object == Object::spec_thread(addr),
    {
        Object { addr, count: 1, kind: Kind::Thread }
    }
}

/// The object that stands for an entry is one entry, at the address of that entry.
pub proof fn law_thread_object(addr: usize)
    ensures
        Object::spec_thread(addr).addr == addr,
        Object::spec_thread(addr).count == 1,
        Object::spec_thread(addr).kind == Kind::Thread,
{
}

/// A bag of unlinked objects, in the order in which they were unlinked.
///
/// A bag has room for a fixed number of objects.
pub struct Bag {
    objects: Vec<Object>,
    capacity: usize,
}

impl View for Bag {
    type V = Seq<Object>;

    closed spec fn view(&self) -> Seq<Object> {
        self.objects@
    }
}

impl Bag {
    /// The number of objects that the bag has room for.
    pub closed spec fn spec_capacity(&self) -> nat {
        self.capacity as nat
    }

    /// Returns an empty bag with room for `capacity` objects.
    pub fn new(capacity: usize) -> (bag: Bag)
        ensures
            bag@ == Seq::<Object>::empty(),
            bag.spec_capacity() == capacity,
    {
        Bag { objects: Vec::new(), capacity }
    }

    /// Inserts an object unless the bag is full, and tells whether it did.
    pub fn try_insert(&mut self, object: Object) -> (inserted: bool)
        ensures
            inserted == (old(self)@.len() < old(self).spec_capacity()),
            final(self)@ == (if inserted {
                old(self)@.push(object)
            } else {
                old(self)@
            }),
            final(self).spec_capacity() == old(self).spec_capacity(),
    {
        if self.objects.len() < self.capacity {
            self.objects.push(object);
            true
        } else {
            false
        }
    }

    /// Tells whether the bag has no room for another object.
    pub fn is_full(&self) -> (full: bool)
        ensures
            full == (self@.len() >= self.spec_capacity()),
    {
        self.objects.len() >= self.capacity
    }

    /// Returns the number of objects that the bag has room for.
    pub fn capacity(&self) -> (capacity: usize)
        ensures
            capacity == self.spec_capacity(),
    {
        self.capacity
    }

    /// Returns the objects in the bag.
    pub fn objects(&self) -> (objects: &Vec<Object>)
        ensures
            objects@ == self@,
    {
        &self.objects
    }
}

} // verus!
