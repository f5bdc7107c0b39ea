//! Access permissions of a mapped area.
use vstd::prelude::*;

verus! {

/// Bit of the readable flag in a page-table entry.
pub const PERM_R: u8 = 0x02;

/// Bit of the writable flag in a page-table entry.
pub const PERM_W: u8 = 0x04;

/// Bit of the executable flag in a page-table entry.
pub const PERM_X: u8 = 0x08;

/// Bit of the user-accessible flag in a page-table entry.
pub const PERM_U: u8 = 0x10;

/// A set of access rights: any combination of readable, writable,
/// executable and user-accessible.
#[derive(Clone, Copy, Debug, PartialEq, Eq, Structural)]
pub struct MapPermission {
    pub readable: bool,
    pub writable: bool,
    pub executable: bool,
    pub user: bool,
}

impl MapPermission {
    /// The flags as the page-table entry holds them.
    pub open spec fn spec_bits(self) -> int {
        (if self.readable { 0x02int } else { 0 })
            + (if self.writable { 0x04int } else { 0 })
            + (if self.executable { 0x08int } else { 0 })
            + (if self.user { 0x10int } else { 0 })
    }

    /// Whether no right is granted.
    pub open spec fn spec_is_empty(self) -> bool {
        !self.readable && !self.writable && !self.executable && !self.user
    }

    /// The rights granted by `self`, by `other`, or by both.
    pub open spec fn spec_union(self, other: MapPermission) -> MapPermission {
        MapPermission {
            readable: self.readable || other.readable,
            writable: self.writable || other.writable,
            executable: self.executable || other.executable,
            user: self.user || other.user,
        }
    }

    /// Whether every right of `other` is also granted by `self`.
    pub open spec fn spec_contains(self, other: MapPermission) -> bool {
        &&& other.readable ==> self.readable
        &&& other.writable ==> self.writable
        &&& other.executable ==> self.executable
        &&& other.user ==> self.user
    }

    /// What a store from user code needs: writable and user-accessible.
    pub open spec fn spec_user_write() -> MapPermission {
        MapPermission { readable: false, writable: true, executable: false, user: true }
    }

    /// What a load from user code needs: readable and user-accessible.
    pub open spec fn spec_user_read() -> MapPermission {
        MapPermission { readable: true, writable: false, executable: false, user: true }
    }

    /// What the heap of user code is mapped with: readable, writable and
    /// user-accessible.
    pub open spec fn spec_user_data() -> MapPermission {
        MapPermission { readable: true, writable: true, executable: false, user: true }
    }

    /// The set that grants nothing.
    pub fn empty() -> (perm: MapPermission)
        ensures
            perm == (MapPermission {
                readable: false,
                writable: false,
                executable: false,
                user: false,
            }),
            perm.spec_is_empty(),
    {
        MapPermission { readable: false, writable: false, executable: false, user: false }
    }

    /// What a store from user code needs: writable and user-accessible.
    pub fn user_write() -> (perm: MapPermission)
        ensures
            perm == MapPermission::spec_user_write(),
    {
        MapPermission { readable: false, writable: true, executable: false, user: true }
    }

    /// What a load from user code needs: readable and user-accessible.
    pub fn user_read() -> (perm: MapPermission)
        ensures
            perm == MapPermission::spec_user_read(),
    {
        MapPermission { readable: true, writable: false, executable: false, user: true }
    }

    /// What the heap of user code is mapped with: readable, writable and
    /// user-accessible.
    pub fn user_data() -> (perm: MapPermission)
        ensures
            perm == MapPermission::spec_user_data(),
    {
        MapPermission { readable: true, writable: true, executable: false, user: true }
    }

    /// Whether no right is granted.
    pub fn is_empty(&self) -> (none: bool)
        ensures
            none == self.spec_is_empty(),
    {
        !self.readable && !self.writable && !self.executable && !self.user
    }

    /// The rights granted by `self`, by `other`, or by both.
    pub fn union(self, other: MapPermission) -> (both: MapPermission)
        ensures
            both == self.spec_union(other),
    {
        MapPermission {
            readable: self.readable || other.readable,
            writable: self.writable || other.writable,
            executable: self.executable || other.executable,
            user: self.user || other.user,
        }
    }

    /// Whether every right of `other` is also granted by `self`.
    pub fn contains(&self, other: MapPermission) -> (all: bool)
        ensures
            all == self.spec_contains(other),
    {
        (!other.readable || self.readable) && (!other.writable || self.writable) && (
        !other.executable || self.executable) && (!other.user || self.user)
    }

    /// The flags as the page-table entry holds them.
    pub fn bits(&self) -> (bits: u8)
        ensures
            bits == self.spec_bits(),
    {
        let r: u8 = if self.readable { PERM_R } else { 0 };
        let w: u8 = if self.writable { PERM_W } else { 0 };
        let x: u8 = if self.executable { PERM_X } else { 0 };
        let u: u8 = if self.user { PERM_U } else { 0 };
        r + w + x + u
    }
}

impl Default for MapPermission {
    fn default() -> (perm: MapPermission)
        ensures
            perm.spec_is_empty(),
    {
        MapPermission::empty()
    }
}

} // verus!
