//! The subsystem registry: stable ids for a fixed set of shared,
//! hardware-facing resources, each with a mutually-exclusive acquisition
//! discipline. A subsystem is registered once and lives for the registry's
//! lifetime; while acquired, no second acquisition of the same subsystem
//! can succeed, so two pieces of code can never drive the same actuator in
//! overlapping windows.

use vstd::prelude::*;

verus! {

/// Why an acquisition or release was refused.
#[derive(Clone, Copy, Debug, PartialEq, Eq, Structural)]
pub enum AccessError {
    /// The id was never registered.
    UnknownSubsystem,
    /// The subsystem is already acquired and not yet released.
    InUse,
    /// The subsystem is not currently acquired.
    NotAcquired,
}

/// The registry. Its view is, per subsystem id, whether the subsystem is
/// currently acquired.
pub struct SubsystemRegistry {
    acquired: Vec<bool>,
}

impl View for SubsystemRegistry {
    type V = Seq<bool>;

    closed spec fn view(&self) -> Seq<bool> {
        self.acquired@
    }
}

impl SubsystemRegistry {
    /// A registry with no subsystems.
    pub fn new() -> (reg: Self)
        ensures
            reg@ == Seq::<bool>::empty(),
    {
        let reg = SubsystemRegistry { acquired: Vec::new() };
        proof {
            assert(reg@ =~= Seq::<bool>::empty());
        }
        reg
    }

    /// Registers one more subsystem and returns its stable id: ids are
    /// assigned in registration order, starting from zero. The new
    /// subsystem starts unacquired.
    pub fn register(&mut self) -> (id: usize)
        ensures
            id == old(self)@.len(),
            final(self)@ == old(self)@.push(false),
    {
        let id = self.acquired.len();
        self.acquired.push(false);
        id
    }

    /// The number of registered subsystems.
    pub fn num_subsystems(&self) -> (n: usize)
        ensures
            n == self@.len(),
    {
        self.acquired.len()
    }

    /// Is the subsystem currently acquired?
    pub fn in_use(&self, id: usize) -> (b: bool)
        requires
            id < self@.len(),
        ensures
            b == self@[id as int],
    {
        self.acquired[id]
    }

    /// Acquires exclusive access to a subsystem. Succeeds exactly when the
    /// id is registered and the subsystem is free; while acquired, every
    /// further acquisition is refused with [`AccessError::InUse`] until
    /// `release` is called.
    pub fn acquire(&mut self, id: usize) -> (res: Result<(), AccessError>)
        ensures
            match res {
                Ok(()) => id < old(self)@.len() && !old(self)@[id as int] && final(self)@ == old(
                    self,
                )@.update(id as int, true),
                Err(e) => final(self)@ == old(self)@ && match e {
                    AccessError::UnknownSubsystem => id >= old(self)@.len(),
                    AccessError::InUse => id < old(self)@.len() && old(self)@[id as int],
                    AccessError::NotAcquired => false,
                },
            },
    {
        if id >= self.acquired.len() {
            return Err(AccessError::UnknownSubsystem);
        }
        if self.acquired[id] {
            return Err(AccessError::InUse);
        }
        self.acquired[id] = true;
        Ok(())
    }

    /// Releases an acquired subsystem, making it available again. Succeeds
    /// exactly when the id is registered and currently acquired.
    pub fn release(&mut self, id: usize) -> (res: Result<(), AccessError>)
        ensures
            match res {
                Ok(()) => id < old(self)@.len() && old(self)@[id as int] && final(self)@ == old(
                    self,
                )@.update(id as int, false),
                Err(e) => final(self)@ == old(self)@ && match e {
                    AccessError::UnknownSubsystem => id >= old(self)@.len(),
                    AccessError::NotAcquired => id < old(self)@.len() && !old(self)@[id as int],
                    AccessError::InUse => false,
                },
            },
    {
        if id >= self.acquired.len() {
            return Err(AccessError::UnknownSubsystem);
        }
        if !self.acquired[id] {
            return Err(AccessError::NotAcquired);
        }
        self.acquired[id] = false;
        Ok(())
    }
}

} // verus!
