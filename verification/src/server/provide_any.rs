//! Asking an object of arbitrary type for a value of a certain type.
//!
//! Types are told apart by tags. Whoever provides values offers all that it has,
//! each under the tag of its type, and the first one under the tag that is asked
//! for is kept.
use vstd::prelude::*;

verus! {

/// A demand for a value under a certain tag.
pub struct Demand<T> {
    tag: u64,
    value: Option<T>,
}

/// Provides values by type.
pub trait Provider<T>: Sized {
    /// What is provided, in order: tags and values.
    spec fn offers(&self) -> Seq<(u64, T)>;

    /// Offers all values to a demand.
    fn provide(&self, demand: &mut Demand<T>)
        ensures
            final(demand).spec_tag() == old(demand).spec_tag(),
            final(demand).spec_value() == after_offers(
                old(demand).spec_tag(),
                old(demand).spec_value(),
                self.offers(),
                self.offers().len() as int,
            ),
    ;
}

/// What a demand has after the first `n` offers.
pub open spec fn after_offers<T>(tag: u64, value: Option<T>, offers: Seq<(u64, T)>, n: int) -> Option<T>
    decreases n,
{
    if n <= 0 {
        value
    } else {
        let before = after_offers(tag, value, offers, n - 1);
        if before is None && offers[n - 1].0 == tag {
            Some(offers[n - 1].1)
        } else {
            before
        }
    }
}

impl<T> Demand<T> {
    /// The tag that is asked for.
    pub closed spec fn spec_tag(&self) -> u64 {
        self.tag
    }

    /// The value that was provided.
    pub closed spec fn spec_value(&self) -> Option<T> {
        self.value
    }

    /// A demand for a value under the given tag.
    pub fn new(tag: u64) -> (r: Demand<T>)
        ensures
            r.spec_tag() == tag,
            r.spec_value() is None,
    {
        Demand { tag, value: None }
    }

    /// The value that was provided.
    pub fn into_value(self) -> (r: Option<T>)
        ensures
            r == self.spec_value(),
    {
        self.value
    }

    /// A value under the given tag is asked for, and none was provided yet.
    pub open spec fn takes(&self, tag: u64) -> bool {
        self.spec_tag() == tag && self.spec_value() is None
    }

    /// Tells whether a value under the given tag is asked for, and none was provided
    /// yet.
    pub fn would_take(&self, tag: u64) -> (r: bool)
        ensures
            r == self.takes(tag),
    {
        self.tag == tag && self.value.is_none()
    }

    /// Provide a value under the given tag. It is kept if it is asked for and no
    /// other was provided before.
    fn provide(&mut self, tag: u64, value: T) -> (r: &mut Demand<T>)
        ensures
            r.spec_tag() == old(self).spec_tag(),
            r.spec_value() == if old(self).takes(tag) {
                Some(value)
            } else {
                old(self).spec_value()
            },
            *final(self) == *final(r),
    {
        if self.would_take(tag) {
            self.value = Some(value);
        }
        self
    }

    /// Provide a value under the given tag, using a closure to prevent unnecessary
    /// work. The closure is called if the value is asked for and no other was
    /// provided before. It need not be fit to be called otherwise, because it is not.
    pub fn provide_with<F: FnOnce() -> T>(&mut self, tag: u64, fulfil: F) -> (r: &mut Demand<T>)
        requires
            old(self).takes(tag) ==> fulfil.requires(()),
        ensures
            r.spec_tag() == old(self).spec_tag(),
            old(self).takes(tag) ==> (r.spec_value() matches Some(value) && fulfil.ensures((), value)),
            !old(self).takes(tag) ==> *r == *old(self),
            *final(self) == *final(r),
    {
        if self.would_take(tag) {
            self.value = Some(fulfil());
        }
        self
    }

    /// Provide a value that the closure makes, under the given tag. See
    /// [`Demand::provide_with`].
    pub fn provide_value<F: FnOnce() -> T>(&mut self, tag: u64, fulfil: F) -> (r: &mut Demand<T>)
        requires
            old(self).takes(tag) ==> fulfil.requires(()),
        ensures
            r.spec_tag() == old(self).spec_tag(),
            old(self).takes(tag) ==> (r.spec_value() matches Some(value) && fulfil.ensures((), value)),
            !old(self).takes(tag) ==> *r == *old(self),
            *final(self) == *final(r),
    {
        self.provide_with(tag, fulfil)
    }
}

impl<'a, T> Demand<&'a T> {
    /// Provide a reference under the given tag. It is kept if it is asked for and no
    /// other was provided before.
    pub fn provide_ref(&mut self, tag: u64, value: &'a T) -> (r: &mut Demand<&'a T>)
        ensures
            r.spec_tag() == old(self).spec_tag(),
            r.spec_value() == if old(self).takes(tag) {
                Some(value)
            } else {
                old(self).spec_value()
            },
            *final(self) == *final(r),
    {
        self.provide(tag, value)
    }
}

/// Request a specific value by tag from the provider.
pub fn request_ref<T, P: Provider<T>>(provider: &P, tag: u64) -> (r: Option<T>)
    ensures
        r == after_offers(tag, None, provider.offers(), provider.offers().len() as int),
{
    let mut demand = Demand::new(tag);
    provider.provide(&mut demand);
    demand.into_value()
}

/// A provider of a list of values.
pub struct Offers {
    pub list: Vec<(u64, u64)>,
}

impl Provider<u64> for Offers {
    open spec fn offers(&self) -> Seq<(u64, u64)> {
        self.list@
    }

    fn provide(&self, demand: &mut Demand<u64>) {
        let mut i: usize = 0;
        while i < self.list.len()
            invariant
                0 <= i <= self.list@.len(),
                demand.spec_tag() == old(demand).spec_tag(),
                demand.spec_value() == after_offers(
                    old(demand).spec_tag(),
                    old(demand).spec_value(),
                    self.list@,
                    i as int,
                ),
            decreases self.list@.len() - i,
        {
            let (tag, value) = self.list[i];
            demand.provide(tag, value);
            i = i + 1;
        }
    }
}

/// The tag of the unit type.
pub const UNIT_TAG: u64 = 0;

impl Provider<()> for () {
    open spec fn offers(&self) -> Seq<(u64, ())> {
        seq![(UNIT_TAG, ())]
    }

    fn provide(&self, demand: &mut Demand<()>) {
        proof {
            reveal_with_fuel(after_offers, 2);
        }
        demand.provide(UNIT_TAG, ());
    }
}

/// The first offer under a tag is the one that is had.
pub proof fn first_offer_wins<T>(tag: u64, offers: Seq<(u64, T)>, i: int, n: int)
    requires
        0 <= i < n <= offers.len(),
        offers[i].0 == tag,
        forall|j: int| 0 <= j < i ==> (#[trigger] offers[j]).0 != tag,
    ensures
        after_offers(tag, None, offers, n) == Some(offers[i].1),
    decreases n,
{
    if n - 1 > i {
        first_offer_wins(tag, offers, i, n - 1);
    } else {
        lemma_no_offer(tag, offers, i);
    }
}

proof fn lemma_no_offer<T>(tag: u64, offers: Seq<(u64, T)>, n: int)
    requires
        0 <= n <= offers.len(),
        forall|j: int| 0 <= j < n ==> (#[trigger] offers[j]).0 != tag,
    ensures
        after_offers(tag, None, offers, n) == None::<T>,
    decreases n,
{
    if n > 0 {
        lemma_no_offer(tag, offers, n - 1);
    }
}

} // verus!
