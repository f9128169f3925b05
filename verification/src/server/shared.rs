//! Pointers to a value that several owners share.
//!
//! What such a pointer holds is its value, and which allocation it points to. How many
//! owners there are changes while the program runs, so nothing is stated of it but what
//! always holds.
use vstd::prelude::*;

verus! {

/// A pointer to a value that several owners share.
pub struct Rc<T> {
    inner: std::rc::Rc<T>,
    /// Which allocation the pointer points to.
    number: Ghost<int>,
}

/// `std::rc::Rc::new`: a pointer to a new allocation, which holds the value. That no other
/// pointer points there is not stated.
#[verifier::external_body]
fn allocate<T>(value: T) -> (r: Rc<T>)
    ensures
        r@ == value,
{
    Rc { inner: std::rc::Rc::new(value), number: Ghost(0) }
}

/// `std::rc::Rc::clone`: another pointer to the same allocation.
#[verifier::external_body]
fn share<T>(this: &Rc<T>) -> (r: Rc<T>)
    ensures
        r@ == this@,
        r.allocation() == this.allocation(),
{
    Rc { inner: this.inner.clone(), number: this.number }
}

/// `std::rc::Rc::get_mut`: a unique reference to the value, if there is no other
/// pointer to it. Whether there is one is not stated.
#[verifier::external_body]
fn unique_mut<T>(this: &mut std::rc::Rc<T>) -> (r: Option<&mut T>)
    ensures
        match r {
            Some(value) => *value == **old(this) && **final(this) == *final(value),
            None => *final(this) == *old(this),
        },
{
    std::rc::Rc::get_mut(this)
}

/// `std::rc::Rc::strong_count`: how many owners there are. The pointer itself is one
/// of them. How many others there are is not stated.
#[verifier::external_body]
fn count_strong<T>(this: &std::rc::Rc<T>) -> (r: usize)
    ensures
        r >= 1,
{
    std::rc::Rc::strong_count(this)
}

/// `std::rc::Rc::weak_count`: how many weak pointers there are. The pointer inside is
/// private, and no function here makes a weak one of it, so there are none.
#[verifier::external_body]
fn count_weak<T>(this: &Rc<T>) -> (r: usize)
    ensures
        r == 0,
{
    std::rc::Rc::weak_count(&this.inner)
}

/// `std::rc::Rc::ptr_eq`: tells whether two pointers point to the same allocation,
/// and so to the same value. Equal values can also lie in different allocations.
#[verifier::external_body]
fn same_allocation<T>(this: &Rc<T>, other: &Rc<T>) -> (r: bool)
    ensures
        r == (this.allocation() == other.allocation()),
        r ==> this@ == other@,
{
    std::rc::Rc::ptr_eq(&this.inner, &other.inner)
}

/// `std::rc::Rc::make_mut`: a unique reference to the value, or, where there are other
/// pointers to it, to a clone of it in another allocation. Which of the two it is is not
/// stated.
#[verifier::external_body]
fn own_mut<T: Clone>(this: &mut Rc<T>) -> (r: &mut T)
    ensures
        (*r == old(this)@ && final(this).allocation() == old(this).allocation()) || cloned(old(this)@, *r),
        final(this)@ == *final(r),
{
    std::rc::Rc::make_mut(&mut this.inner)
}

impl<T> View for Rc<T> {
    type V = T;

    closed spec fn view(&self) -> T {
        *self.inner
    }
}

impl<T> Clone for Rc<T> {
    /// Another pointer to the same value, in the same allocation.
    fn clone(&self) -> (r: Rc<T>)
        ensures
            r@ == self@,
            r.allocation() == self.allocation(),
    {
        share(self)
    }
}

impl<T> Rc<T> {
    /// Which allocation the pointer points to.
    pub closed spec fn allocation(self) -> int {
        self.number@
    }

    pub fn new(value: T) -> (r: Rc<T>)
        ensures
            r@ == value,
    {
        allocate(value)
    }

    /// A unique reference to the value, if there is no other pointer to it.
    pub fn get_mut(this: &mut Rc<T>) -> (r: Option<&mut T>)
        ensures
            match r {
                Some(value) => *value == old(this)@ && final(this)@ == *final(value),
                None => final(this)@ == old(this)@,
            },
            final(this).allocation() == old(this).allocation(),
    {
        unique_mut(&mut this.inner)
    }

    /// How many pointers to the value there are.
    pub fn strong_count(this: &Rc<T>) -> (r: usize)
        ensures
            r >= 1,
    {
        count_strong(&this.inner)
    }

    /// How many weak pointers to the value there are.
    pub fn weak_count(this: &Rc<T>) -> (r: usize)
        ensures
            r == 0,
    {
        count_weak(this)
    }

    /// Tells whether two pointers point to the same allocation, whatever the values are.
    pub fn ptr_eq(this: &Rc<T>, other: &Rc<T>) -> (r: bool)
        ensures
            r == (this.allocation() == other.allocation()),
            r ==> this@ == other@,
    {
        same_allocation(this, other)
    }

    /// The value.
    pub fn as_ref(&self) -> (r: &T)
        ensures
            *r == self@,
    {
        &*self.inner
    }
}

impl<T: Clone> Rc<T> {
    /// A unique reference to the value. Where there are other pointers to it, the
    /// value is cloned first.
    pub fn make_mut(this: &mut Rc<T>) -> (r: &mut T)
        ensures
            (*r == old(this)@ && final(this).allocation() == old(this).allocation()) || cloned(old(this)@, *r),
            final(this)@ == *final(r),
    {
        own_mut(this)
    }
}

} // verus!
