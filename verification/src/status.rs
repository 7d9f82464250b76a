use vstd::prelude::*;
use vstd::std_specs::convert::TryFromSpecImpl;

verus! {

/// Byte that stands for [`StatusKind::Incomplete`].
pub const INCOMPLETE: u8 = 0;
/// Byte that stands for [`StatusKind::Pending`].
pub const PENDING: u8 = 1;
/// Byte that stands for [`StatusKind::Complete`].
pub const COMPLETE: u8 = 2;

/// The stage that a node of an execution graph has reached.
#[derive(Debug, PartialEq, Eq, Structural, Clone, Copy)]
pub enum StatusKind {
    Incomplete,
    Pending,
    Complete,
}

/// The byte under which a stage is stored.
pub open spec fn status_code(kind: StatusKind) -> u8 {
    match kind {
        StatusKind::Incomplete => INCOMPLETE,
        StatusKind::Pending => PENDING,
        StatusKind::Complete => COMPLETE,
    }
}

/// The stage stored under a byte, if the byte stands for one.
pub open spec fn status_from_code(code: u8) -> Result<StatusKind, ()> {
    if code == INCOMPLETE {
        Ok(StatusKind::Incomplete)
    } else if code == PENDING {
        Ok(StatusKind::Pending)
    } else if code == COMPLETE {
        Ok(StatusKind::Complete)
    } else {
        Err(())
    }
}

impl StatusKind {
    /// The byte under which this stage is stored.
    pub fn code(self) -> (c: u8)
        ensures
            c == status_code(self),
            status_from_code(c) == Ok::<StatusKind, ()>(self),
    {
        match self {
            StatusKind::Incomplete => INCOMPLETE,
            StatusKind::Pending => PENDING,
            StatusKind::Complete => COMPLETE,
        }
    }
}

impl TryFrom<u8> for StatusKind {
    type Error = ();

    fn try_from(value: u8) -> (r: Result<Self, Self::Error>) {
        if value == INCOMPLETE {
            Ok(StatusKind::Incomplete)
        } else if value == PENDING {
            Ok(StatusKind::Pending)
        } else if value == COMPLETE {
            Ok(StatusKind::Complete)
        } else {
            Err(())
        }
    }
}

impl TryFromSpecImpl<u8> for StatusKind {
    open spec fn obeys_try_from_spec() -> bool {
        true
    }

    open spec fn try_from_spec(v: u8) -> Result<Self, ()> {
        status_from_code(v)
    }
}

/// The stage of one node, stored as a byte.
pub struct Status {
    inner: u8,
}

impl Status {
    /// The byte always stands for a stage.
    #[verifier::type_invariant]
    spec fn well_formed(self) -> bool {
        self.inner <= COMPLETE
    }

    /// The stage that this status holds.
    pub closed spec fn kind(self) -> StatusKind {
        if self.inner == INCOMPLETE {
            StatusKind::Incomplete
        } else if self.inner == PENDING {
            StatusKind::Pending
        } else {
            StatusKind::Complete
        }
    }

    /// Sets the stage to `new_status`, unconditionally when `expected_current_status`
    /// is `None`, and otherwise only when the stage currently equals it.
    /// Returns `Ok` with the stage held before a change, or `Err` with the
    /// current stage when the expected one did not match (then nothing changes).
    pub fn replace(&mut self, new_status: StatusKind, expected_current_status: Option<StatusKind>) -> (r:
        Result<StatusKind, StatusKind>)
        ensures
            match expected_current_status {
                None => r == Ok::<StatusKind, StatusKind>(old(self).kind()) && final(self).kind()
                    == new_status,
                Some(expected) => if old(self).kind() == expected {
                    r == Ok::<StatusKind, StatusKind>(old(self).kind()) && final(self).kind()
                        == new_status
                } else {
                    r == Err::<StatusKind, StatusKind>(old(self).kind()) && final(self).kind()
                        == old(self).kind()
                },
            },
    {
        proof {
            use_type_invariant(&*self);
        }
        let current = self.get();
        match expected_current_status {
            Some(expected) => {
                if current == expected {
                    self.inner = new_status.code();
                    Ok(current)
                } else {
                    Err(current)
                }
            },
            None => {
                self.inner = new_status.code();
                Ok(current)
            },
        }
    }

    /// The stage currently held.
    pub fn get(&self) -> (k: StatusKind)
        ensures
            k == self.kind(),
    {
        proof {
            use_type_invariant(self);
        }
        match StatusKind::try_from(self.inner) {
            Ok(kind) => kind,
            Err(_) => StatusKind::Complete,
        }
    }
}

impl Default for Status {
    fn default() -> (s: Self)
        ensures
            s.kind() == StatusKind::Incomplete,
    {
        Status { inner: INCOMPLETE }
    }
}

} // verus!
