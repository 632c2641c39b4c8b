//! A backend whose storage is a vector in memory.
use vstd::prelude::*;

use crate::backend::{MergeReader, MergeWriter, Remaining, SortError};
use crate::order::SortKey;

verus! {

/// A cursor over a vector: `data[cursor..]` is still to be read.
pub struct InMemoryReader<T> {
    data: Vec<T>,
    cursor: usize,
}

/// A sink that appends to a vector.
pub struct InMemoryWriter<T> {
    data: Vec<T>,
}

impl<T: SortKey> InMemoryReader<T> {
    pub fn from_vec(data: Vec<T>) -> (r: Self)
        ensures
            r.remaining() == data@,
    {
        Self { data, cursor: 0 }
    }
}

impl<T: SortKey> InMemoryWriter<T> {
    pub fn new() -> (r: Self)
        ensures
            r.written() == Seq::<T>::empty(),
    {
        Self { data: Vec::new() }
    }
}

impl<T: SortKey> MergeReader<T> for InMemoryReader<T> {
    type Writer = InMemoryWriter<T>;

    open spec fn infallible() -> bool {
        true
    }

    fn get(&mut self) -> (r: Result<T, SortError>) {
        if self.cursor >= self.data.len() {
            return Err(SortError::Exhausted);
        }
        Ok(self.data[self.cursor].duplicate())
    }

    fn advance(&mut self) -> (r: Result<bool, SortError>) {
        if self.cursor >= self.data.len() {
            return Ok(false);
        }
        self.cursor = self.cursor + 1;
        assert(old(self).data@.skip(old(self).cursor as int).drop_first() =~= self.data@.skip(
            self.cursor as int,
        ));
        Ok(self.cursor < self.data.len())
    }

    fn is_exhausted(&mut self) -> (r: Result<bool, SortError>) {
        Ok(self.cursor >= self.data.len())
    }

    fn into_writer(self) -> (r: Result<InMemoryWriter<T>, SortError>) {
        let mut v = self.data;
        v.clear();
        Ok(InMemoryWriter { data: v })
    }
}

impl<T: SortKey> MergeWriter<T> for InMemoryWriter<T> {
    type Reader = InMemoryReader<T>;

    closed spec fn written(&self) -> Seq<T> {
        self.data@
    }

    closed spec fn reader_items(r: &InMemoryReader<T>) -> Seq<T> {
        if r.cursor <= r.data@.len() {
            r.data@.skip(r.cursor as int)
        } else {
            Seq::empty()
        }
    }

    open spec fn infallible() -> bool {
        true
    }

    fn append(&mut self, value: T) -> (r: Result<(), SortError>) {
        self.data.push(value);
        Ok(())
    }

    fn into_reader(self) -> (r: Result<InMemoryReader<T>, SortError>) {
        let rd = InMemoryReader { data: self.data, cursor: 0 };
        assert(rd.data@.skip(0) =~= rd.data@);
        Ok(rd)
    }
}

} // verus!
