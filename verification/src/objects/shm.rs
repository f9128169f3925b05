//! The `wl_shm` object.
//!
//! Mapping memory is left to the caller: what has to be mapped and unmapped is
//! returned, and addresses are plain numbers.
use dlv_list::{Index, VecList};
use vstd::prelude::*;
use crate::objects::{Error, BUFFER_TYPE, SHM_POOL_TYPE};
use crate::server::error::{ErrorEvent, ProtocolError, INVALID_OBJECT};
use crate::server::maps::AnyObject;
use crate::server::store::{agrees, object_added, Store, CLIENT_MAX_ID};
use crate::text::{signed_decimal, to_signed_decimal};
use crate::types::NewId;
use crate::wire::endian::{to_unsigned, unsigned};

verus! {

/// The interface name of pools.
pub const SHM_POOL_NAME: &'static str = "wl_shm_pool";

/// The interface name of buffers.
pub const BUFFER_NAME: &'static str = "wl_buffer";

/// The error of `wl_shm` for a size or stride that makes no sense.
pub const INVALID_STRIDE: u32 = 1;

/// The error of `wl_shm` for a file descriptor that cannot be mapped.
pub const INVALID_FD: u32 = 2;

/// A mapped region.
#[derive(Clone, Copy, Debug, PartialEq, Eq, Structural)]
pub struct MapRecord {
    pub start: usize,
    pub len: usize,
}

impl MapRecord {
    /// The address lies in the region.
    pub open spec fn spec_contains(self, ptr: usize) -> bool {
        self.start <= ptr < self.start + self.len
    }

    /// Tells whether an address lies in the region.
    pub fn contains(&self, ptr: usize) -> (r: bool)
        ensures
            r == self.spec_contains(ptr),
    {
        ptr >= self.start && ptr - self.start < self.len
    }
}

/// The regions in a list, in order, with their indices.
pub uninterp spec fn map_records(records: VecList<MapRecord>) -> Seq<(Index<MapRecord>, MapRecord)>;

/// The region with number `i` has the given index.
pub open spec fn record_at(records: Seq<(Index<MapRecord>, MapRecord)>, index: Index<MapRecord>, i: int) -> bool {
    0 <= i < records.len() && records[i].0 == index
}

/// Some region has the given index.
pub open spec fn has_record(records: Seq<(Index<MapRecord>, MapRecord)>, index: Index<MapRecord>) -> bool {
    exists|i: int| record_at(records, index, i)
}

/// [`VecList::new`]: the list is empty.
#[verifier::external_body]
fn new_records() -> (r: VecList<MapRecord>)
    ensures
        map_records(r) == Seq::<(Index<MapRecord>, MapRecord)>::empty(),
{
    VecList::new()
}

/// [`VecList::push_back`]: the region becomes the last one, at an index that no
/// other one has. The list panics when it is as long as `usize` can count.
#[verifier::external_body]
fn push_record(records: &mut VecList<MapRecord>, record: MapRecord) -> (r: Index<MapRecord>)
    requires
        map_records(*old(records)).len() < usize::MAX - 1,
    ensures
        map_records(*final(records)) == map_records(*old(records)).push((r, record)),
        !has_record(map_records(*old(records)), r),
{
    records.push_back(record)
}

/// [`VecList::get`]: the region with the given index, if there is one.
#[verifier::external_body]
fn get_record(records: &VecList<MapRecord>, index: Index<MapRecord>) -> (r: Option<MapRecord>)
    ensures
        r is Some == has_record(map_records(*records), index),
        forall|i: int|
            #![trigger record_at(map_records(*records), index, i)]
            record_at(map_records(*records), index, i) ==> r == Some(map_records(*records)[i].1),
{
    records.get(index).copied()
}

/// [`VecList::remove`]: takes the region with the given index out of the list. The
/// call panics on an index that lies beyond all that the list ever held.
#[verifier::external_body]
fn remove_record(records: &mut VecList<MapRecord>, index: Index<MapRecord>)
    requires
        has_record(map_records(*old(records)), index),
    ensures
        forall|i: int|
            #![trigger record_at(map_records(*old(records)), index, i)]
            record_at(map_records(*old(records)), index, i) ==> map_records(*final(records)) == map_records(
                *old(records),
            ).remove(i),
{
    records.remove(index);
}

/// [`VecList::iter`]: the regions, in order.
#[verifier::external_body]
fn all_records(records: &VecList<MapRecord>) -> (r: Vec<MapRecord>)
    ensures
        r@ == map_records(*records).map_values(|entry: (Index<MapRecord>, MapRecord)| entry.1),
{
    records.iter().copied().collect()
}

/// List of all mapped regions. Used by the SIGBUS handler to decide whether a SIGBUS
/// is generated because a client shrunk its shm pool.
pub struct MapRecords {
    records: VecList<MapRecord>,
}

impl MapRecords {
    /// The mapped regions, in order, with their indices.
    pub closed spec fn view(&self) -> Seq<(Index<MapRecord>, MapRecord)> {
        map_records(self.records)
    }

    /// No two regions have the same index.
    pub open spec fn wf(&self) -> bool {
        forall|i: int, j: int|
            #![trigger self.view()[i], self.view()[j]]
            0 <= i < j < self.view().len() ==> self.view()[i].0 != self.view()[j].0
    }

    /// Nothing is mapped.
    pub fn new() -> (r: MapRecords)
        ensures
            r.wf(),
            r.view() == Seq::<(Index<MapRecord>, MapRecord)>::empty(),
    {
        MapRecords { records: new_records() }
    }

    fn push_back(&mut self, record: MapRecord) -> (r: Index<MapRecord>)
        requires
            old(self).wf(),
            old(self).view().len() < usize::MAX - 1,
        ensures
            final(self).wf(),
            final(self).view() == old(self).view().push((r, record)),
            !has_record(old(self).view(), r),
    {
        let r = push_record(&mut self.records, record);
        proof {
            assert forall|i: int, j: int| #![trigger self.view()[i], self.view()[j]] 0 <= i < j < self.view().len() implies self.view()[i].0
                != self.view()[j].0 by {
                if j == old(self).view().len() {
                    assert(!record_at(old(self).view(), r, i));
                } else {
                    assert(old(self).view()[i].0 != old(self).view()[j].0);
                }
            }
        }
        r
    }

    /// The first region that an address lies in.
    pub open spec fn spec_find(&self, ptr: usize) -> Option<MapRecord> {
        first_containing(
            self.view().map_values(|entry: (Index<MapRecord>, MapRecord)| entry.1),
            ptr,
        )
    }

    /// The first region that an address lies in.
    fn find(&self, ptr: usize) -> (r: Option<MapRecord>)
        ensures
            r == self.spec_find(ptr),
    {
        let records = all_records(&self.records);
        let mut i: usize = 0;
        proof {
            assert(records@.skip(0) =~= records@);
        }
        while i < records.len()
            invariant
                0 <= i <= records@.len(),
                self.spec_find(ptr) == first_containing(records@.skip(i as int), ptr),
            decreases records@.len() - i,
        {
            if records[i].contains(ptr) {
                return Some(records[i]);
            }
            proof {
                assert(records@.skip(i as int).skip(1) =~= records@.skip(i + 1));
            }
            i = i + 1;
        }
        None
    }
}

/// The first region that an address lies in.
pub open spec fn first_containing(records: Seq<MapRecord>, ptr: usize) -> Option<MapRecord>
    decreases records.len(),
{
    if records.len() == 0 {
        None
    } else if records[0].spec_contains(ptr) {
        Some(records[0])
    } else {
        first_containing(records.skip(1), ptr)
    }
}

/// Counts the recoverable SIGBUS of a thread.
#[derive(Clone, Copy, Debug, PartialEq, Eq, Structural)]
pub struct SigbusCount(pub usize);

impl SigbusCount {
    /// The count of a thread that has had no SIGBUS yet.
    pub fn new() -> (r: SigbusCount)
        ensures
            r.0 == 0,
    {
        SigbusCount(0)
    }
}

/// The number of times a recoverable SIGBUS has occurred for the current thread.
/// Can be used to detect if a client shrunk its shm pool.
pub fn sigbus_count(count: &SigbusCount) -> (r: usize)
    ensures
        r == count.0,
{
    count.0
}

/// Handles a SIGBUS signal for an address. Tries to recover from SIGBUS caused by a
/// client shrinking its shm pool: zero pages have to be mapped over the region that
/// is returned. If there is none, the signal has another cause.
pub fn handle_sigbus(records: &MapRecords, count: &mut SigbusCount, ptr: usize) -> (r: Option<MapRecord>)
    requires
        old(count).0 < usize::MAX,
    ensures
        r == records.spec_find(ptr),
        final(count).0 == old(count).0 + if r is Some {
            1int
        } else {
            0int
        },
{
    let found = records.find(ptr);
    if found.is_some() {
        count.0 = count.0 + 1;
    }
    found
}

/// Errors of `wl_shm`.
#[derive(Clone, Copy, Debug, PartialEq, Eq, Structural)]
pub enum ShmError {
    /// The object and the error number of a mapping that failed.
    Mapping(u32, i32),
}

impl ProtocolError for ShmError {
    open spec fn spec_wayland_error(&self) -> Option<(u32, u32)> {
        match *self {
            ShmError::Mapping(object_id, _) => Some((object_id, INVALID_FD)),
        }
    }

    open spec fn spec_fatal(&self) -> bool {
        true
    }

    open spec fn spec_message(&self) -> Seq<char> {
        match *self {
            ShmError::Mapping(_, errno) => "Mapping error: "@ + signed_decimal(errno as int),
        }
    }

    fn wayland_error(&self) -> (r: Option<(u32, u32)>) {
        match *self {
            ShmError::Mapping(object_id, _) => Some((object_id, INVALID_FD)),
        }
    }

    fn fatal(&self) -> (r: bool) {
        true
    }

    fn message(&self) -> (r: String) {
        match *self {
            ShmError::Mapping(_, errno) => "Mapping error: ".to_owned().concat(to_signed_decimal(errno).as_str()),
        }
    }
}

/// A mapped pool.
#[derive(Debug)]
pub struct ShmPoolInner {
    pub fd: i32,
    /// 0 if nothing is mapped.
    pub addr: usize,
    pub len: usize,
    pub map: Index<MapRecord>,
}

impl ShmPoolInner {
    /// The pool has a region in the list, which is the one it knows of.
    pub open spec fn mapped(self, records: &MapRecords) -> bool {
        exists|i: int|
            #![trigger record_at(records.view(), self.map, i)]
            record_at(records.view(), self.map, i) && records.view()[i].1 == (MapRecord {
                start: self.addr,
                len: self.len,
            })
    }

    /// Gives the region of the pool up. Returns what has to be unmapped. We might
    /// already be unmapped, e.g. if [`ShmPoolInner::resized`] failed.
    pub fn unmap(&mut self, records: &mut MapRecords) -> (r: Option<MapRecord>)
        requires
            old(records).wf(),
        ensures
            final(records).wf(),
            !has_record(final(records).view(), old(self).map),
            forall|i: int|
                #![trigger record_at(old(records).view(), old(self).map, i)]
                record_at(old(records).view(), old(self).map, i) ==> {
                    &&& r == Some(old(records).view()[i].1)
                    &&& final(records).view() == old(records).view().remove(i)
                    &&& *final(self) == (ShmPoolInner { addr: 0, len: 0, ..*old(self) })
                },
            !has_record(old(records).view(), old(self).map) ==> {
                &&& r is None
                &&& *final(records) == *old(records)
                &&& *final(self) == *old(self)
            },
    {
        let ghost before = records.view();
        match get_record(&records.records, self.map) {
            Some(record) => {
                remove_record(&mut records.records, self.map);
                self.addr = 0;
                self.len = 0;
                proof {
                    let i = choose|i: int| record_at(before, old(self).map, i);
                    let after = records.view();
                    assert(after == before.remove(i));
                    assert forall|a: int, b: int| #![trigger after[a], after[b]] 0 <= a < b < after.len() implies after[a].0
                        != after[b].0 by {
                        let x = if a < i {
                            a
                        } else {
                            a + 1
                        };
                        let y = if b < i {
                            b
                        } else {
                            b + 1
                        };
                        assert(before[x].0 != before[y].0);
                    }
                    if has_record(after, old(self).map) {
                        let k = choose|k: int| record_at(after, old(self).map, k);
                        let x = if k < i {
                            k
                        } else {
                            k + 1
                        };
                        if x < i {
                            assert(before[x].0 != before[i].0);
                        } else {
                            assert(before[i].0 != before[x].0);
                        }
                    }
                }
                Some(record)
            },
            None => None,
        }
    }

    /// The size that the client asks for, in bytes. A negative size is larger than
    /// any that can be mapped.
    pub open spec fn spec_requested(size: i32) -> usize {
        if size >= 0 {
            size as usize
        } else {
            (usize::MAX + 1 + size) as usize
        }
    }

    /// Answers a `resize` request: a pool can only grow. Then what is returned has
    /// to be unmapped, and a region of the returned length has to be mapped anew,
    /// which [`ShmPoolInner::resized`] is told about.
    pub fn resize(&mut self, records: &mut MapRecords, size: i32) -> (r: Option<(Option<MapRecord>, usize)>)
        requires
            old(records).wf(),
        ensures
            final(records).wf(),
            if ShmPoolInner::spec_requested(size) > old(self).len {
                &&& r matches Some((record, len)) && len == ShmPoolInner::spec_requested(size) && record is Some
                    == has_record(old(records).view(), old(self).map)
                &&& !has_record(final(records).view(), old(self).map)
                &&& forall|i: int|
                    #![trigger record_at(old(records).view(), old(self).map, i)]
                    record_at(old(records).view(), old(self).map, i) ==> {
                        &&& (r->0).0 == Some(old(records).view()[i].1)
                        &&& final(records).view() == old(records).view().remove(i)
                        &&& *final(self) == (ShmPoolInner { addr: 0, len: 0, ..*old(self) })
                    }
                &&& !has_record(old(records).view(), old(self).map) ==> *final(records) == *old(records) && *final(self)
                    == *old(self)
            } else {
                &&& r is None
                &&& *final(records) == *old(records)
                &&& *final(self) == *old(self)
            },
    {
        let len: usize = if size >= 0 {
            size as usize
        } else {
            usize::MAX - (-(size + 1)) as usize
        };
        if len > self.len {
            let record = self.unmap(records);
            Some((record, len))
        } else {
            None
        }
    }

    /// A region of the given length was mapped for the pool, or could not be.
    pub fn resized(&mut self, records: &mut MapRecords, addr: Option<usize>, len: usize) -> (r: Result<(), Error>)
        requires
            old(records).wf(),
            old(records).view().len() < usize::MAX - 1,
        ensures
            final(records).wf(),
            match addr {
                None => {
                    &&& r == Err::<(), Error>(Error::UnknownFatalError("mmap failed"))
                    &&& *final(records) == *old(records)
                    &&& *final(self) == *old(self)
                },
                Some(addr) => {
                    &&& r is Ok
                    &&& final(self).fd == old(self).fd
                    &&& final(self).addr == addr
                    &&& final(self).len == len
                    &&& final(records).view() == old(records).view().push((final(self).map, MapRecord { start: addr, len }))
                    &&& !has_record(old(records).view(), final(self).map)
                    &&& final(self).mapped(final(records))
                },
            },
    {
        match addr {
            None => Err(Error::UnknownFatalError("mmap failed")),
            Some(addr) => {
                self.addr = addr;
                self.len = len;
                self.map = records.push_back(MapRecord { start: addr, len });
                proof {
                    assert(record_at(records.view(), self.map, records.view().len() - 1));
                }
                Ok(())
            },
        }
    }
}

/// What a `create_pool` request needs next.
#[derive(Clone, Debug, PartialEq, Eq)]
pub enum CreatePool {
    /// The client is sent an error.
    Refuse(ErrorEvent),
    /// A region of the given length has to be mapped.
    Mmap(usize),
}

/// What became of a pool.
#[derive(Debug)]
pub enum PoolCreated {
    Inserted(ShmPoolInner),
    /// The client is sent an error, and the region has to be unmapped.
    Refused(ErrorEvent, MapRecord),
}

/// The object for a pool.
pub open spec fn spec_pool_object(id: u32) -> AnyObject {
    AnyObject { handle: id as u64, type_id: SHM_POOL_TYPE, interface: SHM_POOL_NAME, state: None }
}

/// The object for a buffer.
pub open spec fn spec_buffer_object(id: u32) -> AnyObject {
    AnyObject { handle: id as u64, type_id: BUFFER_TYPE, interface: BUFFER_NAME, state: None }
}

/// Implementation of the `wl_shm` interface.
#[derive(Clone, Copy, Debug, PartialEq, Eq, Structural)]
pub struct Shm;

impl Shm {
    /// Answers a `create_pool` request: the pool has to have a positive size.
    pub fn create_pool(object_id: u32, size: i32) -> (r: CreatePool)
        ensures
            if size <= 0 {
                r matches CreatePool::Refuse(event) && event@ == (object_id, INVALID_STRIDE, "invalid size"@)
            } else {
                r == CreatePool::Mmap(size as usize)
            },
    {
        if size <= 0 {
            CreatePool::Refuse(ErrorEvent { object_id, code: INVALID_STRIDE, message: "invalid size".to_owned() })
        } else {
            CreatePool::Mmap(size as usize)
        }
    }

    /// Goes on with a `create_pool` request once a region was mapped, or could not
    /// be: the error number tells why.
    pub fn pool_mapped(
        objects: &mut Store,
        records: &mut MapRecords,
        object_id: u32,
        id: NewId,
        fd: i32,
        len: usize,
        mapping: Result<usize, i32>,
    ) -> (r: Result<PoolCreated, Error>)
        requires
            old(objects).wf(),
            old(records).wf(),
            old(records).view().len() < usize::MAX - 1,
            agrees(old(objects).objects(), spec_pool_object(id.0)),
        ensures
            final(objects).wf(),
            final(records).wf(),
            match mapping {
                Err(errno) => {
                    &&& r matches Err(e) && e.keeps(ShmError::Mapping(object_id, errno))
                    &&& *final(objects) == *old(objects)
                    &&& *final(records) == *old(records)
                },
                Ok(addr) => if id.0 <= CLIENT_MAX_ID && !old(objects).objects().contains_key(id.0) {
                    &&& object_added(*old(objects), *final(objects), id.0, spec_pool_object(id.0))
                    &&& r matches Ok(PoolCreated::Inserted(pool)) && {
                        &&& pool.fd == fd
                        &&& pool.addr == addr
                        &&& pool.len == len
                        &&& pool.mapped(final(records))
                        &&& final(records).view() == old(records).view().push(
                            (pool.map, MapRecord { start: addr, len }),
                        )
                        &&& !has_record(old(records).view(), pool.map)
                    }
                } else {
                    &&& r matches Ok(PoolCreated::Refused(event, record)) && event@ == (
                        object_id,
                        INVALID_OBJECT,
                        "id already in use"@,
                    ) && record == (MapRecord { start: addr, len })
                    &&& *final(objects) == *old(objects)
                    &&& final(records).view() == old(records).view()
                },
            },
    {
        let addr: usize = match mapping {
            Err(errno) => {
                return Err(Error::custom(&ShmError::Mapping(object_id, errno)));
            },
            Ok(addr) => addr,
        };
        let ghost before = records.view();
        let map = records.push_back(MapRecord { start: addr, len });
        let mut pool = ShmPoolInner { fd, addr, len, map };
        proof {
            assert(record_at(records.view(), map, before.len() as int));
        }
        let object = AnyObject {
            handle: id.0 as u64,
            type_id: SHM_POOL_TYPE,
            interface: SHM_POOL_NAME,
            state: None,
        };
        if objects.try_insert_with(id.0, object) {
            Ok(PoolCreated::Inserted(pool))
        } else {
            let record = pool.unmap(records);
            proof {
                assert(records.view() =~= before);
            }
            let event = ErrorEvent { object_id, code: INVALID_OBJECT, message: "id already in use".to_owned() };
            Ok(PoolCreated::Refused(event, record.unwrap()))
        }
    }
}

/// A shm memory pool.
#[derive(Clone, Copy, Debug, PartialEq, Eq, Structural)]
pub struct ShmPool {
    /// The object id that the pool is found by.
    pub inner: u32,
}

/// A shm buffer.
#[derive(Clone, Copy, Debug, PartialEq, Eq, Structural)]
pub struct Buffer {
    pub pool: ShmPool,
    pub offset: i32,
    pub width: i32,
    pub height: i32,
    pub stride: i32,
    pub format: u32,
}

impl ShmPool {
    /// Answers a `create_buffer` request. Returns the buffer, and its size in
    /// pixels.
    pub fn create_buffer(
        &self,
        objects: &mut Store,
        id: NewId,
        offset: i32,
        width: i32,
        height: i32,
        stride: i32,
        format: u32,
    ) -> (r: Result<(Buffer, (u32, u32)), Error>)
        requires
            old(objects).wf(),
            agrees(old(objects).objects(), spec_buffer_object(id.0)),
        ensures
            final(objects).wf(),
            if id.0 <= CLIENT_MAX_ID && !old(objects).objects().contains_key(id.0) {
                &&& r == Ok::<(Buffer, (u32, u32)), Error>(
                    (
                        Buffer { pool: *self, offset, width, height, stride, format },
                        (unsigned(width), unsigned(height)),
                    ),
                )
                &&& object_added(*old(objects), *final(objects), id.0, spec_buffer_object(id.0))
            } else {
                &&& r == Err::<(Buffer, (u32, u32)), Error>(Error::spec_id_exists(id.0))
                &&& *final(objects) == *old(objects)
            },
    {
        let object = AnyObject {
            handle: id.0 as u64,
            type_id: BUFFER_TYPE,
            interface: BUFFER_NAME,
            state: None,
        };
        if objects.try_insert_with(id.0, object) {
            let buffer = Buffer { pool: *self, offset, width, height, stride, format };
            Ok((buffer, (to_unsigned(width), to_unsigned(height))))
        } else {
            Err(Error::id_exists(id.0))
        }
    }
}

impl Buffer {
    /// Get the pool this buffer was created from.
    pub fn pool(&self) -> (r: ShmPool)
        ensures
            r == self.pool,
    {
        self.pool
    }

    /// Offset of this buffer in the pool.
    pub fn offset(&self) -> (r: i32)
        ensures
            r == self.offset,
    {
        self.offset
    }

    /// Width of this buffer.
    pub fn width(&self) -> (r: i32)
        ensures
            r == self.width,
    {
        self.width
    }

    /// Height of this buffer.
    pub fn height(&self) -> (r: i32)
        ensures
            r == self.height,
    {
        self.height
    }

    /// Stride of this buffer.
    pub fn stride(&self) -> (r: i32)
        ensures
            r == self.stride,
    {
        self.stride
    }

    /// Format of this buffer.
    pub fn format(&self) -> (r: u32)
        ensures
            r == self.format,
    {
        self.format
    }
}

/// A fault in a mapped pool is always put down to a mapped region that has the
/// address in it.
pub proof fn faults_are_found(records: Seq<MapRecord>, ptr: usize)
    ensures
        first_containing(records, ptr) is Some <==> exists|i: int|
            0 <= i < records.len() && (#[trigger] records[i]).spec_contains(ptr),
        first_containing(records, ptr) matches Some(record) ==> record.spec_contains(ptr) && records.contains(record),
    decreases records.len(),
{
    if records.len() > 0 {
        let rest = records.skip(1);
        faults_are_found(rest, ptr);
        if records[0].spec_contains(ptr) {
            assert(records.contains(records[0]));
        } else {
            assert forall|i: int| 0 <= i < rest.len() implies #[trigger] rest[i] == records[i + 1] by {}
            if first_containing(rest, ptr) is Some {
                let record = first_containing(rest, ptr)->0;
                let i = choose|i: int| 0 <= i < rest.len() && rest[i] == record;
                assert(records[i + 1] == record);
                assert(records[i + 1].spec_contains(ptr));
            }
            if exists|i: int| 0 <= i < records.len() && (#[trigger] records[i]).spec_contains(ptr) {
                let i = choose|i: int| 0 <= i < records.len() && (#[trigger] records[i]).spec_contains(ptr);
                assert(rest[i - 1].spec_contains(ptr));
            }
        }
    }
}

} // verus!
