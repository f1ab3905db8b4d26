//! Error values that name an object and the container it was looked up in.
use vstd::prelude::*;

verus! {

/// An object that was to be added is already present in a container.
#[derive(Debug, Clone, PartialEq, Eq, Hash, Default)]
pub struct AlreadyExistsError<O, C> {
    object: O,
    container: C,
}

impl<O, C> AlreadyExistsError<O, C> {
    pub closed spec fn spec_object(&self) -> O {
        self.object
    }

    pub closed spec fn spec_container(&self) -> C {
        self.container
    }

    pub fn new(object: O, container: C) -> (r: Self)
        ensures
            r.spec_object() == object,
            r.spec_container() == container,
    {
        AlreadyExistsError { object, container }
    }

    pub fn object(&self) -> (r: &O)
        ensures
            *r == self.spec_object(),
    {
        &self.object
    }

    pub fn container(&self) -> (r: &C)
        ensures
            *r == self.spec_container(),
    {
        &self.container
    }
}

/// An object that was looked up is missing from a container.
#[derive(Debug, Clone, PartialEq, Eq, Hash, Default)]
pub struct NotFoundError<O, C> {
    object: O,
    container: C,
}

impl<O, C> NotFoundError<O, C> {
    pub closed spec fn spec_object(&self) -> O {
        self.object
    }

    pub closed spec fn spec_container(&self) -> C {
        self.container
    }

    pub fn new(object: O, container: C) -> (r: Self)
        ensures
            r.spec_object() == object,
            r.spec_container() == container,
    {
        NotFoundError { object, container }
    }

    pub fn object(&self) -> (r: &O)
        ensures
            *r == self.spec_object(),
    {
        &self.object
    }

    pub fn container(&self) -> (r: &C)
        ensures
            *r == self.spec_container(),
    {
        &self.container
    }
}

/// An object lies outside the closed range `[lower_bound, upper_bound]`.
#[derive(Debug, Clone, PartialEq, Eq, Hash, Default)]
pub struct OutOfRangeError<T> {
    object: T,
    lower_bound: T,
    upper_bound: T,
}

impl<T> OutOfRangeError<T> {
    pub closed spec fn spec_object(&self) -> T {
        self.object
    }

    pub closed spec fn spec_lower_bound(&self) -> T {
        self.lower_bound
    }

    pub closed spec fn spec_upper_bound(&self) -> T {
        self.upper_bound
    }

    pub fn new(object: T, lower_bound: T, upper_bound: T) -> (r: Self)
        ensures
            r.spec_object() == object,
            r.spec_lower_bound() == lower_bound,
            r.spec_upper_bound() == upper_bound,
    {
        OutOfRangeError { object, lower_bound, upper_bound }
    }

    pub fn object(&self) -> (r: &T)
        ensures
            *r == self.spec_object(),
    {
        &self.object
    }

    pub fn lower_bound(&self) -> (r: &T)
        ensures
            *r == self.spec_lower_bound(),
    {
        &self.lower_bound
    }

    pub fn upper_bound(&self) -> (r: &T)
        ensures
            *r == self.spec_upper_bound(),
    {
        &self.upper_bound
    }
}

} // verus!
