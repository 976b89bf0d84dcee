//! The bounded connection table: a fixed number of reusable slots keyed by a
//! small integer token. A full table admits no further connection, so the
//! caller closes the new socket instead of queuing it.

use vstd::prelude::*;
use crate::connection::{Connection, ConnView};

verus! {

/// A bounded, reusable-slot table of connections.
pub struct ConnectionTable {
    slots: Vec<Option<Connection>>,
}

impl View for ConnectionTable {
    type V = Seq<Option<ConnView>>;

    closed spec fn view(&self) -> Seq<Option<ConnView>> {
        self.slots@.map_values(
            |s: Option<Connection>|
                match s {
                    Option::None => Option::<ConnView>::None,
                    Option::Some(c) => Option::Some(c@),
                },
        )
    }
}

impl ConnectionTable {
    /// A table of `capacity` empty slots.
    pub fn new(capacity: usize) -> (r: Self)
        ensures
            r@.len() == capacity,
            forall|i: int| 0 <= i < capacity ==> r@[i] is None,
    {
        let mut slots: Vec<Option<Connection>> = Vec::new();
        let mut i: usize = 0;
        while i < capacity
            invariant
                i <= capacity,
                slots@.len() == i,
                forall|j: int| 0 <= j < i ==> slots@[j] is None,
            decreases capacity - i,
        {
            slots.push(None);
            i = i + 1;
        }
        ConnectionTable { slots }
    }

    /// The fixed number of slots.
    pub fn capacity(&self) -> (r: usize)
        ensures
            r == self@.len(),
    {
        self.slots.len()
    }

    /// Admission control: a new connection takes the first free slot and its
    /// index becomes the token; a full table admits none and is unchanged.
    pub fn insert(&mut self, conn: Connection) -> (r: Option<usize>)
        ensures
            (match r {
                Some(token) => {
                    &&& token < old(self)@.len()
                    &&& old(self)@[token as int] is None
                    &&& final(self)@ == old(self)@.update(token as int, Some(conn@))
                },
                None => {
                    &&& final(self)@ == old(self)@
                    &&& forall|i: int| 0 <= i < old(self)@.len() ==> old(self)@[i] is Some
                },
            }),
    {
        let n: usize = self.slots.len();
        let mut i: usize = 0;
        while i < n
            invariant
                i <= n,
                n == self.slots@.len(),
                self@ == old(self)@,
                self.slots@ == old(self).slots@,
                forall|j: int| 0 <= j < i ==> self@[j] is Some,
            decreases n - i,
        {
            if self.slots[i].is_none() {
                self.slots[i] = Some(conn);
                proof {
                    assert(self@ =~= old(self)@.update(i as int, Some(conn@)));
                }
                return Some(i);
            }
            i = i + 1;
        }
        None
    }

    /// Takes the connection at `token` out of the table, freeing the slot;
    /// an empty or out-of-range token yields nothing and changes nothing.
    pub fn take(&mut self, token: usize) -> (r: Option<Connection>)
        ensures
            (match r {
                Some(conn) => {
                    &&& token < old(self)@.len()
                    &&& old(self)@[token as int] == Some(conn@)
                    &&& final(self)@ == old(self)@.update(token as int, None::<ConnView>)
                },
                None => {
                    &&& final(self)@ == old(self)@
                    &&& (token < old(self)@.len() ==> old(self)@[token as int] is None)
                },
            }),
    {
        if token >= self.slots.len() {
            return None;
        }
        let mut slot: Option<Connection> = None;
        core::mem::swap(&mut self.slots[token], &mut slot);
        match slot {
            Some(conn) => {
                proof {
                    assert(self@ =~= old(self)@.update(token as int, None::<ConnView>));
                }
                Some(conn)
            },
            None => {
                proof {
                    assert(self@ =~= old(self)@);
                }
                None
            },
        }
    }

    /// Puts a connection back into the slot it was taken from.
    pub fn put(&mut self, token: usize, conn: Connection)
        requires
            token < old(self)@.len(),
            old(self)@[token as int] is None,
        ensures
            final(self)@ == old(self)@.update(token as int, Some(conn@)),
    {
        self.slots[token] = Some(conn);
        proof {
            assert(self@ =~= old(self)@.update(token as int, Some(conn@)));
        }
    }
}

} // verus!
