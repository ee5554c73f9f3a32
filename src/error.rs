use vstd::prelude::*;

verus! {

/// What can go wrong while reading the devicetree.
#[derive(PartialEq, Eq, Structural, Debug, Clone, Copy)]
pub enum OfError {
    /// No blob is registered, or the registered one is structurally invalid.
    NotRegistered,
    /// A decode read past the end of a property's value.
    InsufficientBytes,
    /// A phandle names no node.
    UnresolvedPhandle,
    /// The node a phandle names lacks the cell-count property that was asked for.
    MissingCellCountProperty,
    /// An entry needs more argument cells than an argument record holds.
    CapacityExceeded,
    /// A property that should hold text is not valid UTF-8.
    InvalidText,
}

} // verus!
