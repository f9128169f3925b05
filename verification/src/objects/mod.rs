//! The objects that clients talk to.
//!
//! A request is answered by a function that is given what it works on: the objects
//! of the client, and the surfaces. What has to be sent is returned.
use vstd::prelude::*;
use crate::server;
use crate::server::error::ProtocolError;
use crate::server::maps::AnyObject;
use crate::server::store::{object_removed, GetError, Store};

pub mod compositor;
pub mod input;
pub mod keys;
pub mod laws;
pub mod outputs;
pub mod pointer;
pub mod seat;
pub mod shm;
pub mod states;
pub mod subcompositor;
pub mod xdg_shell;

verus! {

/// The types of objects.
pub const CALLBACK_TYPE: u64 = 1;

pub const SURFACE_TYPE: u64 = 2;

pub const REGION_TYPE: u64 = 3;

pub const SUBSURFACE_TYPE: u64 = 4;

pub const BUFFER_TYPE: u64 = 5;

pub const POINTER_TYPE: u64 = 6;

pub const KEYBOARD_TYPE: u64 = 7;

pub const SHM_POOL_TYPE: u64 = 8;

pub const XDG_SURFACE_TYPE: u64 = 9;

pub const XDG_TOPLEVEL_TYPE: u64 = 10;

/// Why a request failed.
#[derive(Clone, Debug)]
pub enum Error {
    /// An error that every server has.
    Core(server::error::Error),
    /// An object that a request names cannot be had.
    Get(GetError),
    /// The client is disconnected.
    UnknownFatalError(&'static str),
    /// The request is not implemented.
    NotImplemented(&'static str),
}

impl Error {
    /// The id that a client chose is in use.
    pub open spec fn spec_id_exists(id: u32) -> Error {
        Error::Core(server::error::Error::IdExists(id))
    }

    /// The id that a client chose is in use.
    pub fn id_exists(id: u32) -> (r: Error)
        ensures
            r == Error::spec_id_exists(id),
    {
        Error::Core(server::error::Error::IdExists(id))
    }

    /// This is what is kept of an error.
    pub open spec fn keeps<E: ProtocolError>(self, e: E) -> bool {
        self matches Error::Core(core) && core.is_custom(e.spec_message(), e.spec_wayland_error(), e.spec_fatal())
    }

    /// Keeps what a client can be told of an error.
    pub fn custom<E: ProtocolError>(e: &E) -> (r: Error)
        ensures
            r.keeps(*e),
    {
        Error::Core(server::error::Error::custom(e))
    }
}

/// The object with the given id, if it is of the given type.
pub open spec fn object_of(objects: Map<u32, AnyObject>, id: u32, type_id: u64) -> Result<AnyObject, GetError> {
    if !objects.contains_key(id) {
        Err(GetError::IdNotFound(id))
    } else if objects[id].type_id != type_id {
        Err(GetError::TypeMismatch(id))
    } else {
        Ok(objects[id])
    }
}

/// The object with the given id is of the given type.
pub open spec fn is_object(objects: Map<u32, AnyObject>, id: u32, type_id: u64) -> bool {
    objects.contains_key(id) && objects[id].type_id == type_id
}

/// Answers a request that destroys an object and does nothing else.
pub fn remove_object(objects: &mut Store, object_id: u32)
    requires
        old(objects).wf(),
        old(objects).objects().contains_key(object_id),
    ensures
        final(objects).wf(),
        object_removed(*old(objects), *final(objects), object_id),
{
    objects.remove(object_id);
}

} // verus!
