//! The sequential-access contract that every storage backend meets.
use vstd::prelude::*;

verus! {

/// Why a backend operation failed.
#[derive(Clone, Copy, Debug, PartialEq, Eq, Structural)]
pub enum SortError {
    /// An element was asked for past the end of the sequence.
    Exhausted,
    /// Stored data could not be decoded as an element.
    InvalidData,
    /// The storage medium reported a failure.
    Io,
}

/// An append-only sink; `into_reader` turns it into a cursor over what was written.
pub trait MergeWriter<T>: Sized {
    type Reader;

    /// Everything appended so far, in order. A backend verified in this crate
    /// defines it; for one that is not, it is left unspecified.
    open spec fn written(&self) -> Seq<T> {
        arbitrary()
    }

    /// What a cursor of the paired reader type still has to deliver, the current
    /// element first. Left unspecified as `written` is.
    open spec fn reader_items(r: &Self::Reader) -> Seq<T> {
        arbitrary()
    }

    /// The backend fails only by exhaustion. By default nothing is promised.
    open spec fn infallible() -> bool {
        false
    }

    fn append(&mut self, value: T) -> (r: Result<(), SortError>)
        ensures
            r is Ok ==> final(self).written() == old(self).written().push(value),
            Self::infallible() ==> r is Ok,
    ;

    fn into_reader(self) -> (r: Result<Self::Reader, SortError>)
        ensures
            r matches Ok(rd) ==> Self::reader_items(&rd) == self.written(),
            Self::infallible() ==> r is Ok,
    ;
}

/// A forward cursor; `into_writer` erases its storage and turns it into an empty sink.
pub trait MergeReader<T>: Sized {
    type Writer: MergeWriter<T, Reader = Self>;

    /// The backend fails only by exhaustion. By default nothing is promised.
    open spec fn infallible() -> bool {
        false
    }

    fn get(&mut self) -> (r: Result<T, SortError>)
        ensures
            r matches Ok(v) ==> {
                &&& <Self::Writer as MergeWriter<T>>::reader_items(old(self)).len() > 0
                &&& v == <Self::Writer as MergeWriter<T>>::reader_items(old(self))[0]
                &&& <Self::Writer as MergeWriter<T>>::reader_items(final(self)) == <Self::Writer as MergeWriter<T>>::reader_items(old(self))
            },
            <Self::Writer as MergeWriter<T>>::reader_items(old(self)).len() == 0 ==> r matches Err(SortError::Exhausted),
            Self::infallible() && <Self::Writer as MergeWriter<T>>::reader_items(old(self)).len() > 0 ==> r is Ok,
    ;

    fn advance(&mut self) -> (r: Result<bool, SortError>)
        ensures
            r matches Ok(b) ==> {
                &&& <Self::Writer as MergeWriter<T>>::reader_items(final(self)) == if <Self::Writer as MergeWriter<T>>::reader_items(old(self)).len() > 0 {
                    <Self::Writer as MergeWriter<T>>::reader_items(old(self)).drop_first()
                } else {
                    <Self::Writer as MergeWriter<T>>::reader_items(old(self))
                }
                &&& b == (<Self::Writer as MergeWriter<T>>::reader_items(final(self)).len() > 0)
            },
            Self::infallible() ==> r is Ok,
    ;

    fn is_exhausted(&mut self) -> (r: Result<bool, SortError>)
        ensures
            r matches Ok(b) ==> {
                &&& b == (<Self::Writer as MergeWriter<T>>::reader_items(old(self)).len() == 0)
                &&& <Self::Writer as MergeWriter<T>>::reader_items(final(self)) == <Self::Writer as MergeWriter<T>>::reader_items(old(self))
            },
            Self::infallible() ==> r is Ok,
    ;

    fn into_writer(self) -> (r: Result<Self::Writer, SortError>)
        ensures
            r matches Ok(w) ==> w.written().len() == 0,
            Self::infallible() ==> r is Ok,
    ;
}

/// The elements that a reader still has to deliver, the current one first.
pub trait Remaining<T> {
    spec fn remaining(&self) -> Seq<T>;
}

impl<T, R: MergeReader<T>> Remaining<T> for R {
    open spec fn remaining(&self) -> Seq<T> {
        <R::Writer as MergeWriter<T>>::reader_items(self)
    }
}

} // verus!
