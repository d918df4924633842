//! A borrowed view that is handed out through an exclusive borrow, yet only reads.

use vstd::prelude::*;

verus! {

/// Holds a text that it does not own.
pub struct Manager<'a> {
    pub text: &'a str,
}

/// Owns a manager and hands out interfaces to it.
pub struct List<'a> {
    pub manager: Manager<'a>,
}

/// Read access to a list's manager, for as long as the list stays borrowed.
pub struct Interface<'b, 'a: 'b> {
    manager: &'b Manager<'a>,
}

impl<'a> List<'a> {
    /// An interface to this list's manager. The list stays borrowed while the interface
    /// lives, and is unchanged.
    pub fn get_interface<'b>(&'b mut self) -> (r: Interface<'b, 'a>)
        where 'a: 'b
        ensures
            r.manager() == old(self).manager,
            *final(self) == *old(self),
    {
        Interface { manager: &self.manager }
    }
}

impl<'b, 'a: 'b> Interface<'b, 'a> {
    pub closed spec fn manager(&self) -> Manager<'a> {
        *self.manager
    }

    /// The text of the manager behind the interface.
    pub fn text(&self) -> (r: &'a str)
        ensures
            r == self.manager().text,
    {
        self.manager.text
    }
}

} // verus!
