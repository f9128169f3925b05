//! Reading and writing bytes together with file descriptors.
//!
//! File descriptors are plain numbers here. Who calls this library owns them.
use vstd::prelude::*;

pub mod bin;
pub mod buf;
pub mod de;
pub mod utils;

verus! {

/// Maximum number of file descriptors that can be sent in a write by the wayland
/// protocol. As defined in libwayland.
pub const MAX_FDS_OUT: usize = 28;

/// Maximum number of file descriptors in a control message.
pub const SCM_MAX_FD: usize = 253;

/// The stream ended too early.
#[derive(Clone, Copy, Debug, PartialEq, Eq, Structural)]
pub struct UnexpectedEof;

/// Shares out the file descriptors of a received message: as many as there is
/// room for are kept, in order, and the others are to be closed. Returns both.
pub fn distribute_fds(received: &Vec<i32>, room: usize) -> (r: (Vec<i32>, Vec<i32>))
    ensures
        received@ == r.0@ + r.1@,
        r.0@.len() == if received@.len() < room {
            received@.len() as int
        } else {
            room as int
        },
{
    let mut kept: Vec<i32> = Vec::new();
    let mut extra: Vec<i32> = Vec::new();
    let mut i: usize = 0;
    while i < received.len()
        invariant
            0 <= i <= received@.len(),
            received@.take(i as int) == kept@ + extra@,
            kept@.len() + extra@.len() == i,
            kept@.len() == if i < room {
                i as int
            } else {
                room as int
            },
        decreases received@.len() - i,
    {
        if kept.len() < room {
            proof {
                assert(extra@.len() == 0);
            }
            kept.push(received[i]);
        } else {
            extra.push(received[i]);
        }
        i = i + 1;
        proof {
            assert(received@.take(i as int) =~= kept@ + extra@);
        }
    }
    proof {
        assert(received@.take(i as int) =~= received@);
    }
    (kept, extra)
}

} // verus!
