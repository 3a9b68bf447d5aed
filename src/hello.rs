use vstd::prelude::*;

verus! {

/// A type that can greet by its own name.
pub trait HelloMacro {
    fn hello_macro();
}

/// A unit type.
#[derive(Debug, Clone, Copy, PartialEq, Eq, Structural)]
pub struct Y;

/// A cell holding one integer.
pub struct A {
    a: i32,
}

impl A {
    pub closed spec fn value(&self) -> i32 {
        self.a
    }

    pub fn new(a: i32) -> (r: A)
        ensures
            r.value() == a,
    {
        A { a }
    }

    pub fn get_a(&self) -> (r: i32)
        ensures
            r == self.value(),
    {
        self.a
    }

    pub fn set_a(&mut self, a: i32)
        ensures
            final(self).value() == a,
    {
        self.a = a;
    }
}

/// Counts from 1 up to 5, then stops.
pub struct Counter {
    count: u32,
}

impl Counter {
    /// How many numbers have been handed out.
    pub closed spec fn handed(&self) -> u32 {
        self.count
    }

    pub open spec fn wf(&self) -> bool {
        self.handed() <= 5
    }

    pub fn new() -> (r: Counter)
        ensures
            r.wf(),
            r.handed() == 0,
    {
        Counter { count: 0 }
    }

    /// The next number, or none once 5 has been handed out.
    pub fn next(&mut self) -> (r: Option<u32>)
        requires
            old(self).wf(),
        ensures
            final(self).wf(),
            old(self).handed() < 5 ==> final(self).handed() == old(self).handed() + 1 && r == Some(
                final(self).handed(),
            ),
            old(self).handed() >= 5 ==> final(self).handed() == old(self).handed() && r.is_none(),
    {
        if self.count < 5 {
            self.count = self.count + 1;
            Some(self.count)
        } else {
            None
        }
    }
}

} // verus!
