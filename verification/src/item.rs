//! One cell of a reservoir's buffer: either empty, or a value tagged
//! with the global observation index at which it was written.  No
//! sentinel value of `T` is ever needed.

use vstd::prelude::*;

verus! {

/// A single item in a reservoir's buffer, tracking the insertion index
/// of the value it holds, if any.
#[derive(Clone)]
pub struct Item<T> {
    entry: Option<(usize, T)>,
}

/// An [`Item`] that is known to hold a value, together with the index at
/// which that value was inserted.
pub struct InitializedItem<T> {
    insertion_index: usize,
    value: T,
}

impl<T> Item<T> {
    /// The tagged value this item holds, if any.
    pub closed spec fn entry_spec(&self) -> Option<(usize, T)> {
        self.entry
    }

    /// Creates an empty item.
    pub fn empty() -> (r: Self)
        ensures
            r.entry_spec() is None,
    {
        Self { entry: None }
    }

    /// Takes the value out of the item, leaving it empty.
    pub fn take(&mut self) -> (r: Option<T>)
        ensures
            final(self).entry_spec() is None,
            match old(self).entry_spec() {
                Some((_, v)) => r == Some(v),
                None => r is None,
            },
    {
        match self.entry.take() {
            Some((_, v)) => Some(v),
            None => None,
        }
    }

    /// Writes a new value into the item, returning the previously held
    /// tagged value, if any.
    pub fn write(&mut self, index: usize, value: T) -> (r: Option<(usize, T)>)
        ensures
            final(self).entry_spec() == Some((index, value)),
            r == old(self).entry_spec(),
    {
        let old_entry = self.entry.take();
        self.entry = Some((index, value));
        old_entry
    }

    /// Borrows the held value, if any.
    pub fn peek(&self) -> (r: Option<&T>)
        ensures
            match self.entry_spec() {
                Some((_, v)) => r == Some(&v),
                None => r is None,
            },
    {
        match &self.entry {
            Some((_, v)) => Some(v),
            None => None,
        }
    }

    /// Converts the item into its initialized form, if it holds a value.
    pub fn into_initialized(self) -> (r: Option<InitializedItem<T>>)
        ensures
            match self.entry_spec() {
                Some((i, v)) => {
                    &&& r is Some
                    &&& r->Some_0.insertion_index_spec() == i
                    &&& r->Some_0.value_spec() == v
                },
                None => r is None,
            },
    {
        match self.entry {
            Some((insertion_index, value)) => Some(
                InitializedItem { insertion_index, value },
            ),
            None => None,
        }
    }
}

impl<T> InitializedItem<T> {
    /// The index at which the held value was inserted.
    pub closed spec fn insertion_index_spec(&self) -> usize {
        self.insertion_index
    }

    /// The held value.
    pub closed spec fn value_spec(&self) -> T {
        self.value
    }

    /// Creates an initialized item from its parts.
    pub fn new(insertion_index: usize, value: T) -> (r: Self)
        ensures
            r.insertion_index_spec() == insertion_index,
            r.value_spec() == value,
    {
        Self { insertion_index, value }
    }

    /// The index at which the held value was inserted.
    pub fn insertion_index(&self) -> (r: usize)
        ensures
            r == self.insertion_index_spec(),
    {
        self.insertion_index
    }

    /// Borrows the held value.
    pub fn value(&self) -> (r: &T)
        ensures
            *r == self.value_spec(),
    {
        &self.value
    }

    /// Surrenders the held value.
    pub fn into_value(self) -> (r: T)
        ensures
            r == self.value_spec(),
    {
        self.value
    }
}

} // verus!
