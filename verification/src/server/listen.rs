//! Accepting clients.
use vstd::prelude::*;
use vstd::string::*;
use crate::text::{decimal, to_decimal};

verus! {

/// How many display names are tried.
pub const MAX_DISPLAYNO: u32 = 32;

/// The name of a display, which is the name of its socket.
pub fn display_name(i: u32) -> (r: String)
    ensures
        r@ == "wayland-"@ + decimal(i as nat),
{
    "wayland-".to_owned().concat(to_decimal(i).as_str())
}

/// The name of the file that is locked while a display is in use.
pub fn lock_name(display: &str) -> (r: String)
    ensures
        r@ == display@ + ".lock"@,
{
    display.to_owned().concat(".lock")
}

/// Tries display names in turn, until one of them can be listened on.
pub struct ListenerSearch<E> {
    pub next: u32,
    pub last_err: Option<E>,
}

/// What a search for a display comes to.
pub enum SearchStep<L, E> {
    /// A name to try.
    Try(String),
    /// It can be listened on.
    Found(L),
    /// No name could be used. The last one failed like this.
    Failed(E),
}

impl<E> ListenerSearch<E> {
    /// Only as many names are tried, and each failed that was.
    pub open spec fn wf(self) -> bool {
        &&& self.next <= MAX_DISPLAYNO
        &&& self.next > 0 ==> self.last_err is Some
    }

    pub fn new() -> (r: ListenerSearch<E>)
        ensures
            r.wf(),
            r.next == 0,
            r.last_err is None,
    {
        ListenerSearch { next: 0, last_err: None }
    }

    /// The name that is tried first.
    pub fn first(&self) -> (r: String)
        ensures
            r@ == "wayland-"@ + decimal(self.next as nat),
    {
        display_name(self.next)
    }

    /// Goes on with what came of trying the name with the number `next`.
    pub fn advance<L>(&mut self, tried: Result<L, E>) -> (r: SearchStep<L, E>)
        requires
            old(self).wf(),
            old(self).next < MAX_DISPLAYNO,
        ensures
            match tried {
                Ok(listener) => r == SearchStep::<L, E>::Found(listener) && *final(self) == *old(self),
                Err(e) => {
                    &&& final(self).next == old(self).next + 1
                    &&& if final(self).next < MAX_DISPLAYNO {
                        &&& final(self).wf()
                        &&& final(self).last_err == Some(e)
                        &&& r matches SearchStep::Try(name) && name@ == "wayland-"@ + decimal(final(self).next as nat)
                    } else {
                        r == SearchStep::<L, E>::Failed(e)
                    }
                },
            },
    {
        match tried {
            Ok(listener) => SearchStep::Found(listener),
            Err(e) => {
                self.next = self.next + 1;
                if self.next < MAX_DISPLAYNO {
                    self.last_err = Some(e);
                    SearchStep::Try(display_name(self.next))
                } else {
                    SearchStep::Failed(e)
                }
            },
        }
    }
}

/// Why a connection manager stopped.
#[derive(Debug)]
pub enum ConnectionManagerError<SE, LE> {
    /// Server error.
    Server(SE),
    /// Listener error.
    Listener(LE),
}

/// Hands connections over to a server.
pub struct ConnectionManager<S, Ctx> {
    pub listeners: S,
    pub ctx: Ctx,
}

/// What a connection manager does next.
pub enum ManagerStep<I, SE, LE> {
    /// A connection has to be handed over to the server.
    NewConnection(I),
    /// The listeners have to be asked for the next connection.
    Listen,
    /// It is over: the listeners are exhausted, or something failed.
    Stop(Result<(), ConnectionManagerError<SE, LE>>),
}

impl<S, Ctx> ConnectionManager<S, Ctx> {
    pub fn new(listeners: S, ctx: Ctx) -> (r: ConnectionManager<S, Ctx>)
        ensures
            r.listeners == listeners,
            r.ctx == ctx,
    {
        ConnectionManager { listeners, ctx }
    }

    /// Goes on with what the listeners came up with.
    pub fn accepted<I, SE, LE>(&self, conn: Option<Result<I, LE>>) -> (r: ManagerStep<I, SE, LE>)
        ensures
            match conn {
                None => r == ManagerStep::<I, SE, LE>::Stop(Ok(())),
                Some(Ok(conn)) => r == ManagerStep::<I, SE, LE>::NewConnection(conn),
                Some(Err(e)) => r == ManagerStep::<I, SE, LE>::Stop(Err(ConnectionManagerError::Listener(e))),
            },
    {
        match conn {
            None => ManagerStep::Stop(Ok(())),
            Some(Ok(conn)) => ManagerStep::NewConnection(conn),
            Some(Err(e)) => ManagerStep::Stop(Err(ConnectionManagerError::Listener(e))),
        }
    }

    /// Goes on with what came of handing a connection over.
    pub fn connected<I, SE, LE>(&self, result: Result<(), SE>) -> (r: ManagerStep<I, SE, LE>)
        ensures
            match result {
                Ok(_) => r == ManagerStep::<I, SE, LE>::Listen,
                Err(e) => r == ManagerStep::<I, SE, LE>::Stop(Err(ConnectionManagerError::Server(e))),
            },
    {
        match result {
            Ok(_) => ManagerStep::Listen,
            Err(e) => ManagerStep::Stop(Err(ConnectionManagerError::Server(e))),
        }
    }
}

} // verus!
