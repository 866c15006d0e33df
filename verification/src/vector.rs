//! Dense column vectors of nalgebra, used by the per-vertex buffers.
//!
//! nalgebra's `Matrix` cannot be declared to Verus here (its storage type is
//! bounded by nalgebra's `Dim` trait), so the vector is held in a private field
//! of an opaque struct.  Its contents are named by one spec function per
//! element type, and each operation that the buffers use is a small wrapper
//! whose contract is stated over that name.
use vstd::prelude::*;

verus! {

/// A `nalgebra::DVector<T>` (a dynamically sized column vector).
#[verifier::external_body]
#[verifier::reject_recursive_types(T)]
pub struct DynVector<T> {
    inner: nalgebra::DVector<T>,
}

/// The entries of a `nalgebra::DVector<i128>`, first to last.
pub uninterp spec fn dyn_vector_i128_entries(v: DynVector<i128>) -> Seq<i128>;

/// The entries of a `nalgebra::DVector<usize>`, first to last.
pub uninterp spec fn dyn_vector_usize_entries(v: DynVector<usize>) -> Seq<usize>;

/// The entries of a `nalgebra::DVector<bool>`, first to last.
pub uninterp spec fn dyn_vector_bool_entries(v: DynVector<bool>) -> Seq<bool>;

impl View for DynVector<i128> {
    type V = Seq<i128>;

    open spec fn view(&self) -> Seq<i128> {
        dyn_vector_i128_entries(*self)
    }
}

impl DynVector<i128> {
    /// `DVector::from_element(n, x)`: a vector of `n` entries, each equal to `x`.
    #[verifier::external_body]
    pub(crate) fn from_element(n: usize, x: i128) -> (r: Self)
        ensures
            dyn_vector_i128_entries(r) == Seq::new(n as nat, |i: int| x),
    {
        DynVector { inner: nalgebra::DVector::from_element(n, x) }
    }

    /// `DVector::len`: the number of entries.
    #[verifier::external_body]
    pub(crate) fn len(&self) -> (r: usize)
        ensures
            r == dyn_vector_i128_entries(*self).len(),
    {
        self.inner.len()
    }

    /// Indexing a `DVector` with `[i]`: the entry at `i` (nalgebra panics past the end).
    #[verifier::external_body]
    pub(crate) fn get(&self, i: usize) -> (r: i128)
        requires
            i < dyn_vector_i128_entries(*self).len(),
        ensures
            r == dyn_vector_i128_entries(*self)[i as int],
    {
        self.inner[i]
    }

    /// Assigning through `[i]` of a `DVector`: replaces the entry at `i`, keeps the others.
    #[verifier::external_body]
    pub(crate) fn set(&mut self, i: usize, x: i128)
        requires
            i < dyn_vector_i128_entries(*old(self)).len(),
        ensures
            dyn_vector_i128_entries(*final(self)) == dyn_vector_i128_entries(*old(self)).update(i as int, x),
    {
        self.inner[i] = x;
    }

    /// `DVector::fill`: every entry becomes `x`, the length stays.
    #[verifier::external_body]
    pub(crate) fn fill(&mut self, x: i128)
        ensures
            dyn_vector_i128_entries(*final(self)) == Seq::new(dyn_vector_i128_entries(*old(self)).len(), |i: int| x),
    {
        self.inner.fill(x);
    }
}

impl View for DynVector<usize> {
    type V = Seq<usize>;

    open spec fn view(&self) -> Seq<usize> {
        dyn_vector_usize_entries(*self)
    }
}

impl DynVector<usize> {
    /// `DVector::from_element(n, x)`: a vector of `n` entries, each equal to `x`.
    #[verifier::external_body]
    pub(crate) fn from_element(n: usize, x: usize) -> (r: Self)
        ensures
            dyn_vector_usize_entries(r) == Seq::new(n as nat, |i: int| x),
    {
        DynVector { inner: nalgebra::DVector::from_element(n, x) }
    }

    /// `DVector::len`: the number of entries.
    #[verifier::external_body]
    pub(crate) fn len(&self) -> (r: usize)
        ensures
            r == dyn_vector_usize_entries(*self).len(),
    {
        self.inner.len()
    }

    /// Indexing a `DVector` with `[i]`: the entry at `i` (nalgebra panics past the end).
    #[verifier::external_body]
    pub(crate) fn get(&self, i: usize) -> (r: usize)
        requires
            i < dyn_vector_usize_entries(*self).len(),
        ensures
            r == dyn_vector_usize_entries(*self)[i as int],
    {
        self.inner[i]
    }

    /// Assigning through `[i]` of a `DVector`: replaces the entry at `i`, keeps the others.
    #[verifier::external_body]
    pub(crate) fn set(&mut self, i: usize, x: usize)
        requires
            i < dyn_vector_usize_entries(*old(self)).len(),
        ensures
            dyn_vector_usize_entries(*final(self)) == dyn_vector_usize_entries(*old(self)).update(i as int, x),
    {
        self.inner[i] = x;
    }

    /// `DVector::fill`: every entry becomes `x`, the length stays.
    #[verifier::external_body]
    pub(crate) fn fill(&mut self, x: usize)
        ensures
            dyn_vector_usize_entries(*final(self)) == Seq::new(dyn_vector_usize_entries(*old(self)).len(), |i: int| x),
    {
        self.inner.fill(x);
    }
}

impl View for DynVector<bool> {
    type V = Seq<bool>;

    open spec fn view(&self) -> Seq<bool> {
        dyn_vector_bool_entries(*self)
    }
}

impl DynVector<bool> {
    /// `DVector::from_element(n, x)`: a vector of `n` entries, each equal to `x`.
    #[verifier::external_body]
    pub(crate) fn from_element(n: usize, x: bool) -> (r: Self)
        ensures
            dyn_vector_bool_entries(r) == Seq::new(n as nat, |i: int| x),
    {
        DynVector { inner: nalgebra::DVector::from_element(n, x) }
    }

    /// `DVector::len`: the number of entries.
    #[verifier::external_body]
    pub(crate) fn len(&self) -> (r: usize)
        ensures
            r == dyn_vector_bool_entries(*self).len(),
    {
        self.inner.len()
    }

    /// Indexing a `DVector` with `[i]`: the entry at `i` (nalgebra panics past the end).
    #[verifier::external_body]
    pub(crate) fn get(&self, i: usize) -> (r: bool)
        requires
            i < dyn_vector_bool_entries(*self).len(),
        ensures
            r == dyn_vector_bool_entries(*self)[i as int],
    {
        self.inner[i]
    }

    /// Assigning through `[i]` of a `DVector`: replaces the entry at `i`, keeps the others.
    #[verifier::external_body]
    pub(crate) fn set(&mut self, i: usize, x: bool)
        requires
            i < dyn_vector_bool_entries(*old(self)).len(),
        ensures
            dyn_vector_bool_entries(*final(self)) == dyn_vector_bool_entries(*old(self)).update(i as int, x),
    {
        self.inner[i] = x;
    }

    /// `DVector::fill`: every entry becomes `x`, the length stays.
    #[verifier::external_body]
    pub(crate) fn fill(&mut self, x: bool)
        ensures
            dyn_vector_bool_entries(*final(self)) == Seq::new(dyn_vector_bool_entries(*old(self)).len(), |i: int| x),
    {
        self.inner.fill(x);
    }
}

} // verus!
