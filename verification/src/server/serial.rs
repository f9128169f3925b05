//! Serial numbers.
use std::collections::HashMap;
use vstd::prelude::*;
use vstd::std_specs::iter::IteratorSpec;

verus! {

/// Event serial management.
///
/// This trait allocates serial numbers, while keeping track of allocated numbers
/// and their associated data.
pub trait Serial: Sized {
    type Data;

    /// The data of the serial numbers in use.
    spec fn in_use(&self) -> Map<u32, Self::Data>;

    /// The number that is tried first.
    spec fn upcoming(&self) -> u32;

    /// What holds of every allocator.
    spec fn wf(&self) -> bool;

    /// Get the next serial number in sequence. A piece of data can be attached to
    /// each serial, storing, for example, what this event is about.
    fn next_serial(&mut self, data: Self::Data) -> (r: u32)
        requires
            old(self).wf(),
            old(self).in_use().dom().len() < u32::MAX,
        ensures
            final(self).wf(),
            r != 0,
            !old(self).in_use().contains_key(r),
            final(self).in_use() == old(self).in_use().insert(r, data),
            final(self).upcoming() == after(r),
            forall|other: u32| skipped(old(self).upcoming(), r, other) ==> old(self).in_use().contains_key(other),
    ;

    /// Get the data associated with the given serial.
    fn get(&self, serial: u32) -> (r: Option<&Self::Data>)
        ensures
            match r {
                Some(data) => self.in_use().contains_key(serial) && *data == self.in_use()[serial],
                None => !self.in_use().contains_key(serial),
            },
    ;

    /// The serial numbers in use, each once, in an order that is not fixed.
    fn serials(&self) -> (r: Vec<u32>)
        ensures
            r@.no_duplicates(),
            forall|serial: u32| r@.contains(serial) <==> #[trigger] self.in_use().contains_key(serial),
    ;

    /// Remove the serial number from the list of allocated serials.
    fn expire(&mut self, serial: u32) -> (r: bool)
        requires
            old(self).wf(),
        ensures
            final(self).wf(),
            r == old(self).in_use().contains_key(serial),
            final(self).in_use() == old(self).in_use().remove(serial),
            final(self).upcoming() == old(self).upcoming(),
    ;
}

/// The number behind `id`. 0 is left out.
pub open spec fn after(id: u32) -> u32 {
    if id == u32::MAX {
        1
    } else {
        (id + 1) as u32
    }
}

/// Going up from `from`, without 0, one comes by `id` before `to`.
pub open spec fn skipped(from: u32, to: u32, id: u32) -> bool {
    id != 0 && if from <= to {
        from <= id < to
    } else {
        id >= from || id < to
    }
}

/// How far it is from one number to another, going up.
spec fn distance(from: u32, to: u32) -> int {
    if from <= to {
        to - from
    } else {
        (u32::MAX - from) + to
    }
}

/// The keys of a map, each once.
fn keys_of<D>(map: &HashMap<u32, D>) -> (r: Vec<u32>)
    ensures
        r@.no_duplicates(),
        forall|k: u32| r@.contains(k) <==> #[trigger] map@.contains_key(k),
{
    broadcast use vstd::std_specs::hash::group_hash_axioms;

    let mut list: Vec<u32> = Vec::new();
    for key in iter: map.keys()
        invariant
            iter.seq().unref().to_set() == map@.dom(),
            iter.seq().no_duplicates(),
            list@ == iter.seq().unref().take(iter.index() as int),
    {
        list.push(*key);
        proof {
            assert(list@ =~= iter.seq().unref().take(iter.index() + 1));
        }
    }
    proof {
        let all = vstd::std_specs::hash::spec_keys_iter(map).remaining();
        assert(list@ =~= all.unref());
        assert forall|i: int, j: int| 0 <= i < j < list@.len() implies list@[i] != list@[j] by {
            assert(all[i] != all[j]);
        }
        assert forall|k: u32| list@.contains(k) <==> #[trigger] map@.contains_key(k) by {
            assert(all.unref().to_set().contains(k) <==> map@.dom().contains(k));
        }
    }
    list
}

/// Allocates ids, such as those of globals.
pub struct IdAlloc<D> {
    next: u32,
    data: HashMap<u32, D>,
}

/// Where fewer than `u32::MAX` numbers are in use, there is one that is not.
proof fn lemma_free_number(used: Set<u32>) -> (free: u32)
    requires
        used.finite(),
        used.len() < u32::MAX,
        !used.contains(0),
    ensures
        free != 0,
        !used.contains(free),
{
    if forall|id: u32| id != 0 ==> used.contains(id) {
        let all = vstd::set_lib::set_int_range(1, u32::MAX + 1);
        vstd::set_lib::lemma_int_range(1, u32::MAX + 1);
        let ints = used.map(|x: u32| x as int);
        assert(vstd::relations::injective(|x: u32| x as int));
        vstd::set_lib::lemma_map_size(used, ints, |x: u32| x as int);
        assert forall|y: int| all.contains(y) implies ints.contains(y) by {
            let id = y as u32;
            assert(used.contains(id));
        }
        vstd::set_lib::lemma_len_subset(all, ints);
        assert(false);
    }
    choose|id: u32| id != 0 && !used.contains(id)
}

impl<D> IdAlloc<D> {
    /// No ids are in use. 0 is reserved for the null object, so 1 comes first.
    pub fn new() -> (r: IdAlloc<D>)
        ensures
            r.wf(),
            (r.in_use() == Map::<u32, D>::empty()),
            r.upcoming() == 1,
    {
        broadcast use vstd::std_specs::hash::group_hash_axioms;

        IdAlloc { next: 1, data: HashMap::new() }
    }

    /// How many ids are in use.
    pub fn len(&self) -> (r: usize)
        ensures
            r == self.in_use().dom().len(),
    {
        broadcast use vstd::std_specs::hash::group_hash_axioms;

        self.data.len()
    }
}

impl<D> Serial for IdAlloc<D> {
    type Data = D;

    closed spec fn in_use(&self) -> Map<u32, D> {
        self.data@
    }

    closed spec fn upcoming(&self) -> u32 {
        self.next
    }

    /// 0 is never in use, nor tried.
    closed spec fn wf(&self) -> bool {
        self.next != 0 && !self.data@.contains_key(0)
    }

    fn next_serial(&mut self, data: D) -> (r: u32) {
        broadcast use vstd::std_specs::hash::group_hash_axioms;

        let ghost used = self.data@;
        let ghost start = self.next;
        let ghost free = lemma_free_number(used.dom());
        // We could wrap around, so check for used ids. If the occupation rate is
        // high, this could be slow. But we expect at most a few thousand ids used
        // at a time, out of 4 billion available.
        loop
            invariant_except_break
                self.data@ == used,
                self.data == old(self).data,
                self.next != 0,
                free != 0,
                !used.contains_key(free),
                !used.contains_key(0),
                start != 0,
                forall|other: u32| skipped(start, self.next, other) ==> used.contains_key(other),
                skipped(start, free, self.next) || self.next == free,
            ensures
                self.data == old(self).data,
                self.next != 0,
                !used.contains_key(self.next),
                forall|other: u32| skipped(start, self.next, other) ==> used.contains_key(other),
            decreases distance(self.next, free),
        {
            if !self.data.contains_key(&self.next) {
                break;
            }
            self.next = if self.next == u32::MAX {
                1
            } else {
                self.next + 1
            };
        }
        let id: u32 = self.next;
        self.next = if id == u32::MAX {
            1
        } else {
            id + 1
        };
        self.data.insert(id, data);
        id
    }

    fn get(&self, serial: u32) -> (r: Option<&D>) {
        broadcast use vstd::std_specs::hash::group_hash_axioms;

        self.data.get(&serial)
    }

    fn serials(&self) -> (r: Vec<u32>) {
        keys_of(&self.data)
    }

    fn expire(&mut self, serial: u32) -> (r: bool) {
        broadcast use vstd::std_specs::hash::group_hash_axioms;

        self.data.remove(&serial).is_some()
    }
}

/// A serial allocator for event serials. Serials are automatically forgotten
/// after a set amount of time.
///
/// Time is counted from any fixed moment.
pub struct EventSerial<D> {
    serials: HashMap<u32, (D, u64)>,
    last_serial: u32,
    expire: u64,
}

/// What was allocated at `time` is remembered at `now`.
pub open spec fn remembered(time: u64, expire: u64, now: u64) -> bool {
    time + expire > now
}

impl<D> EventSerial<D> {
    /// The data of all serials that are kept, with the time at which they were
    /// allocated.
    pub closed spec fn kept(&self) -> Map<u32, (D, u64)> {
        self.serials@
    }

    /// The serial that was allocated last.
    pub closed spec fn last(&self) -> u32 {
        self.last_serial
    }

    /// How long a serial is remembered.
    pub closed spec fn duration(&self) -> u64 {
        self.expire
    }

    /// No serial is kept that was not allocated yet.
    pub closed spec fn wf(&self) -> bool {
        forall|serial: u32| #[trigger] self.serials@.contains_key(serial) ==> serial <= self.last_serial
    }

    /// What is still remembered at `now`.
    pub open spec fn remaining(&self, now: u64) -> Map<u32, (D, u64)> {
        self.kept().restrict(
            Set::new(
                |serial: u32| self.kept().contains_key(serial) && remembered(self.kept()[serial].1, self.duration(), now),
            ),
        )
    }

    pub fn new(expire: u64) -> (r: EventSerial<D>)
        ensures
            r.wf(),
            (r.kept() == Map::<u32, (D, u64)>::empty()),
            r.last() == 0,
            r.duration() == expire,
    {
        broadcast use vstd::std_specs::hash::group_hash_axioms;

        EventSerial { serials: HashMap::new(), last_serial: 0, expire }
    }

    /// Tells whether what was allocated at `time` is remembered at `now`.
    fn is_remembered(&self, time: u64, now: u64) -> (r: bool)
        ensures
            r == remembered(time, self.duration(), now),
    {
        time > now || self.expire > now - time
    }

    /// Forgets the serials whose time is over.
    fn clean_up(&mut self, now: u64)
        requires
            old(self).wf(),
        ensures
            final(self).wf(),
            final(self).kept() == old(self).remaining(now),
            final(self).last() == old(self).last(),
            final(self).duration() == old(self).duration(),
    {
        broadcast use vstd::std_specs::hash::group_hash_axioms;

        let keys = keys_of(&self.serials);
        let ghost before = self.serials@;
        let mut i: usize = 0;
        while i < keys.len()
            invariant
                0 <= i <= keys@.len(),
                keys@.no_duplicates(),
                forall|k: u32| keys@.contains(k) <==> #[trigger] before.contains_key(k),
                self.last_serial == old(self).last_serial,
                self.expire == old(self).expire,
                forall|k: u32| #[trigger]
                    self.serials@.contains_key(k) <==> before.contains_key(k) && (keys@.take(i as int).contains(k)
                        ==> remembered(before[k].1, self.expire, now)),
                forall|k: u32| #[trigger] self.serials@.contains_key(k) ==> self.serials@[k] == before[k],
            decreases keys@.len() - i,
        {
            broadcast use vstd::std_specs::hash::group_hash_axioms;

            let key: u32 = keys[i];
            let ghost done = keys@.take(i as int);
            proof {
                assert(keys@.contains(key));
                assert(!done.contains(key)) by {
                    if done.contains(key) {
                        let j = choose|j: int| 0 <= j < done.len() && done[j] == key;
                        assert(keys@[j] == keys@[i as int]);
                    }
                }
                assert(before.contains_key(key) && self.serials@.contains_key(key));
                let next = keys@.take(i + 1);
                assert(next =~= done.push(key));
                assert forall|k: u32| #[trigger] next.contains(k) == (done.contains(k) || k == key) by {
                    if done.contains(k) {
                        let j = choose|j: int| 0 <= j < done.len() && done[j] == k;
                        assert(next[j] == k);
                    }
                    if k == key {
                        assert(next[i as int] == key);
                    }
                    if next.contains(k) && k != key {
                        let j = choose|j: int| 0 <= j < next.len() && next[j] == k;
                        assert(done[j] == k);
                    }
                }
            }
            let time: u64 = self.serials.get(&key).unwrap().1;
            if !self.is_remembered(time, now) {
                self.serials.remove(&key);
            }
            i = i + 1;
        }
        proof {
            assert(keys@.take(i as int) =~= keys@);
            assert(self.serials@ =~= old(self).remaining(now));
        }
    }

    /// Get the next serial number in sequence, at the time `now`.
    pub fn next_serial(&mut self, data: D, now: u64) -> (r: u32)
        requires
            old(self).wf(),
            old(self).last() < u32::MAX,
        ensures
            final(self).wf(),
            r == old(self).last() + 1,
            final(self).last() == r,
            final(self).duration() == old(self).duration(),
            !old(self).kept().contains_key(r),
            final(self).kept() == old(self).remaining(now).insert(r, (data, now)),
    {
        broadcast use vstd::std_specs::hash::group_hash_axioms;

        self.clean_up(now);
        self.last_serial = self.last_serial + 1;
        self.serials.insert(self.last_serial, (data, now));
        self.last_serial
    }

    /// Get the data associated with the given serial, if it is remembered at the
    /// time `now`.
    pub fn get(&self, serial: u32, now: u64) -> (r: Option<&D>)
        ensures
            match r {
                Some(data) => self.remaining(now).contains_key(serial) && *data == self.remaining(now)[serial].0,
                None => !self.remaining(now).contains_key(serial),
            },
    {
        broadcast use vstd::std_specs::hash::group_hash_axioms;

        match self.serials.get(&serial) {
            Some(entry) => if self.is_remembered(entry.1, now) {
                Some(&entry.0)
            } else {
                None
            },
            None => None,
        }
    }

    /// The serials that are kept, with their data, each once, in an order that is not
    /// fixed. Those whose time is over are kept until the next serial is allocated or
    /// expired.
    pub fn iter(&self) -> (r: Vec<(u32, &D)>)
        ensures
            forall|i: int, j: int| 0 <= i < j < r@.len() ==> (#[trigger] r@[i]).0 != (#[trigger] r@[j]).0,
            forall|i: int|
                0 <= i < r@.len() ==> self.kept().contains_key((#[trigger] r@[i]).0) && *r@[i].1 == self.kept()[r@[i].0].0,
            forall|serial: u32| #[trigger]
                self.kept().contains_key(serial) ==> exists|i: int| 0 <= i < r@.len() && (#[trigger] r@[i]).0 == serial,
    {
        broadcast use vstd::std_specs::hash::group_hash_axioms;

        let keys = keys_of(&self.serials);
        let mut list: Vec<(u32, &D)> = Vec::new();
        let mut i: usize = 0;
        while i < keys.len()
            invariant
                0 <= i <= keys@.len(),
                forall|k: u32| keys@.contains(k) <==> #[trigger] self.serials@.contains_key(k),
                list@.len() == i,
                forall|j: int|
                    0 <= j < i ==> (#[trigger] list@[j]).0 == keys@[j] && *list@[j].1 == self.serials@[keys@[j]].0,
            decreases keys@.len() - i,
        {
            broadcast use vstd::std_specs::hash::group_hash_axioms;

            let key: u32 = keys[i];
            proof {
                assert(keys@.contains(key));
            }
            list.push((key, &self.serials.get(&key).unwrap().0));
            i = i + 1;
        }
        proof {
            assert forall|j: int| 0 <= j < list@.len() implies self.kept().contains_key((#[trigger] list@[j]).0) by {
                assert(keys@.contains(keys@[j]));
            }
            assert forall|serial: u32| #[trigger] self.kept().contains_key(serial) implies exists|j: int|
                0 <= j < list@.len() && (#[trigger] list@[j]).0 == serial by {
                assert(keys@.contains(serial));
                let j = choose|j: int| 0 <= j < keys@.len() && keys@[j] == serial;
                assert(list@[j].0 == serial);
            }
        }
        list
    }

    /// Remove the serial number from the list of allocated serials. Returns if it
    /// was remembered at the time `now`.
    pub fn expire(&mut self, serial: u32, now: u64) -> (r: bool)
        requires
            old(self).wf(),
        ensures
            final(self).wf(),
            r == old(self).remaining(now).contains_key(serial),
            final(self).kept() == old(self).remaining(now).remove(serial),
            final(self).last() == old(self).last(),
            final(self).duration() == old(self).duration(),
    {
        broadcast use vstd::std_specs::hash::group_hash_axioms;

        self.clean_up(now);
        self.serials.remove(&serial).is_some()
    }
}

/// A serial is found until its time is over, or it is expired, and not
/// afterwards.
pub proof fn serial_life<D>(before: EventSerial<D>, after: EventSerial<D>, serial: u32, data: D, time: u64, now: u64)
    requires
        after.kept() == before.remaining(time).insert(serial, (data, time)),
        after.duration() == before.duration(),
    ensures
        after.remaining(now).contains_key(serial) <==> remembered(time, after.duration(), now),
        after.remaining(now).contains_key(serial) ==> after.remaining(now)[serial].0 == data,
{
}

} // verus!
