use vstd::prelude::*;
use crate::name::CellName;
use crate::validation::ValidationError;

verus! {

/// The structured failures of the cell subsystem.
#[derive(Debug)]
pub enum CellsError {
    /// An allocate named a cell that already exists at its level.
    CellExists { cell_name: CellName },
    /// An operation named a cell that does not exist.
    CellNotFound { cell_name: CellName },
    /// An operation needed the named cell to be allocated.
    CellNotAllocated { cell_name: CellName },
    /// The nested daemon of the cell failed to start.
    FailedToAllocateCell { cell_name: CellName, source: String },
    /// The nested daemon started but could not be attached to the cgroup;
    /// it is to be killed and the cgroup removed.
    AbortedAllocateCell { cell_name: CellName, source: String },
    /// The cgroup of the cell could not be removed; the cell is freed anyway.
    FailedToFreeCell { cell_name: CellName, source: String },
    /// The nested daemon of the cell could not be stopped.
    FailedToKillCellChildren { cell_name: CellName, source: String },
    /// A name or a spec was rejected at the boundary.
    Validation(ValidationError),
}

/// The kind of a [`CellsError`], and the segments of the name it carries.
#[derive(Debug, Clone, Copy, PartialEq, Eq, Structural)]
pub enum ErrorKind {
    CellExists,
    CellNotFound,
    CellNotAllocated,
    FailedToAllocateCell,
    AbortedAllocateCell,
    FailedToFreeCell,
    FailedToKillCellChildren,
    Validation,
}

impl CellsError {
    pub open spec fn kind_of(self) -> ErrorKind {
        match self {
            CellsError::CellExists { .. } => ErrorKind::CellExists,
            CellsError::CellNotFound { .. } => ErrorKind::CellNotFound,
            CellsError::CellNotAllocated { .. } => ErrorKind::CellNotAllocated,
            CellsError::FailedToAllocateCell { .. } => ErrorKind::FailedToAllocateCell,
            CellsError::AbortedAllocateCell { .. } => ErrorKind::AbortedAllocateCell,
            CellsError::FailedToFreeCell { .. } => ErrorKind::FailedToFreeCell,
            CellsError::FailedToKillCellChildren { .. } => ErrorKind::FailedToKillCellChildren,
            CellsError::Validation(_) => ErrorKind::Validation,
        }
    }

    /// The segments of the cell name the error carries (empty for a
    /// validation error).
    pub open spec fn name_of(self) -> Seq<Seq<char>> {
        match self {
            CellsError::CellExists { cell_name } => cell_name@,
            CellsError::CellNotFound { cell_name } => cell_name@,
            CellsError::CellNotAllocated { cell_name } => cell_name@,
            CellsError::FailedToAllocateCell { cell_name, .. } => cell_name@,
            CellsError::AbortedAllocateCell { cell_name, .. } => cell_name@,
            CellsError::FailedToFreeCell { cell_name, .. } => cell_name@,
            CellsError::FailedToKillCellChildren { cell_name, .. } => cell_name@,
            CellsError::Validation(_) => Seq::empty(),
        }
    }

    /// The failure reason the error carries (empty for the kinds that carry
    /// none).
    pub open spec fn source_of(self) -> Seq<char> {
        match self {
            CellsError::FailedToAllocateCell { source, .. } => source@,
            CellsError::AbortedAllocateCell { source, .. } => source@,
            CellsError::FailedToFreeCell { source, .. } => source@,
            CellsError::FailedToKillCellChildren { source, .. } => source@,
            _ => Seq::empty(),
        }
    }

    /// The error is of `kind` and about the cell named `name`.
    pub open spec fn is(self, kind: ErrorKind, name: Seq<Seq<char>>) -> bool {
        self.kind_of() == kind && self.name_of() == name
    }

    pub fn kind(&self) -> (r: ErrorKind)
        ensures
            r == self.kind_of(),
    {
        match self {
            CellsError::CellExists { .. } => ErrorKind::CellExists,
            CellsError::CellNotFound { .. } => ErrorKind::CellNotFound,
            CellsError::CellNotAllocated { .. } => ErrorKind::CellNotAllocated,
            CellsError::FailedToAllocateCell { .. } => ErrorKind::FailedToAllocateCell,
            CellsError::AbortedAllocateCell { .. } => ErrorKind::AbortedAllocateCell,
            CellsError::FailedToFreeCell { .. } => ErrorKind::FailedToFreeCell,
            CellsError::FailedToKillCellChildren { .. } => ErrorKind::FailedToKillCellChildren,
            CellsError::Validation(_) => ErrorKind::Validation,
        }
    }

    /// The cell name the error carries, if any.
    pub fn cell_name(&self) -> (r: Option<&CellName>)
        ensures
            r is None <==> self.kind_of() == ErrorKind::Validation,
            r is Some ==> r->Some_0@ == self.name_of(),
    {
        match self {
            CellsError::CellExists { cell_name } => Some(cell_name),
            CellsError::CellNotFound { cell_name } => Some(cell_name),
            CellsError::CellNotAllocated { cell_name } => Some(cell_name),
            CellsError::FailedToAllocateCell { cell_name, .. } => Some(cell_name),
            CellsError::AbortedAllocateCell { cell_name, .. } => Some(cell_name),
            CellsError::FailedToFreeCell { cell_name, .. } => Some(cell_name),
            CellsError::FailedToKillCellChildren { cell_name, .. } => Some(cell_name),
            CellsError::Validation(_) => None,
        }
    }
}

} // verus!
