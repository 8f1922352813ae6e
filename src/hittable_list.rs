//! The flat list of a scene's objects.
use vstd::prelude::*;

verus! {

/// The objects of a scene, in the order they were added. An object is named
/// by its position in the list.
pub struct HittableList<T> {
    objects: Vec<T>,
}

impl<T> View for HittableList<T> {
    type V = Seq<T>;

    closed spec fn view(&self) -> Seq<T> {
        self.objects@
    }
}

impl<T> HittableList<T> {
    pub fn new(objects: Vec<T>) -> (r: HittableList<T>)
        ensures
            r@ == objects@,
    {
        HittableList { objects }
    }

    /// Appends `object` after the others.
    pub fn add(&mut self, object: T)
        ensures
            final(self)@ == old(self)@.push(object),
    {
        self.objects.push(object);
    }

    pub fn len(&self) -> (r: usize)
        ensures
            r == self@.len(),
    {
        self.objects.len()
    }

    pub fn objects(&self) -> (r: &Vec<T>)
        ensures
            r@ == self@,
    {
        &self.objects
    }

    pub fn into_inner(self) -> (r: Vec<T>)
        ensures
            r@ == self@,
    {
        self.objects
    }
}

} // verus!
