//! Change records of the differential stream: create, modify and delete
//! events for the objects of an area.

use vstd::prelude::*;
use crate::object::OSMObject;

verus! {

#[derive(Clone, Copy, Debug, PartialEq, Eq, Structural)]
pub enum OSMObjectChangeType {
    Create,
    Modify,
    Delete,
}

/// One change record: what happened, the object before, and the object
/// after.
#[derive(Clone, Debug)]
pub struct OSMObjectChange {
    pub change_type: OSMObjectChangeType,
    pub old: Option<OSMObject>,
    pub new: Option<OSMObject>,
}

impl OSMObjectChange {
    /// A create carries the new object and no old one; a delete carries
    /// the old object; a modify carries at least one of the two.
    pub open spec fn valid(self) -> bool {
        match self.change_type {
            OSMObjectChangeType::Create => self.new is Some && self.old is None,
            OSMObjectChangeType::Delete => self.old is Some,
            OSMObjectChangeType::Modify => self.old is Some || self.new is Some,
        }
    }

    /// The object that identifies the subject of this change: the old one
    /// when present, else the new one.
    pub fn subject(&self) -> (r: Option<&OSMObject>)
        ensures
            match r {
                Some(o) => (self.old is Some && o == self.old.unwrap())
                    || (self.old is None && self.new is Some && o == self.new.unwrap()),
                None => self.old is None && self.new is None,
            },
    {
        match &self.old {
            Some(o) => Some(o),
            None => match &self.new {
                Some(n) => Some(n),
                None => None,
            },
        }
    }
}

} // verus!
