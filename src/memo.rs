//! Write-once memo cells that hold the identity of a lazily built object.
use vstd::prelude::*;

verus! {

#[verifier::external_type_specification]
#[verifier::external_body]
#[verifier::reject_recursive_types(T)]
pub struct ExOnceCell<T>(once_cell::sync::OnceCell<T>);

/// What a memo cell holds: empty, or the one value it was set to.
pub uninterp spec fn cell_contents(c: once_cell::sync::OnceCell<usize>) -> Seq<usize>;

/// The value held by a cell, if any.
pub open spec fn cell_value(c: once_cell::sync::OnceCell<usize>) -> Option<usize> {
    if cell_contents(c).len() == 0 {
        None
    } else {
        Some(cell_contents(c)[0])
    }
}

/// Relies on `once_cell::sync::OnceCell::new`: the new cell is empty.
#[verifier::external_body]
pub fn new_cell() -> (r: once_cell::sync::OnceCell<usize>)
    ensures
        cell_contents(r) == Seq::<usize>::empty(),
{
    once_cell::sync::OnceCell::new()
}

/// Relies on `once_cell::sync::OnceCell::get`: `None` when the cell is empty,
/// else the value it holds; a cell holds at most one value.
#[verifier::external_body]
pub fn cell_get(c: &once_cell::sync::OnceCell<usize>) -> (r: Option<usize>)
    ensures
        r == cell_value(*c),
{
    c.get().copied()
}

/// Relies on `once_cell::sync::OnceCell::set`: an empty cell takes the value and
/// answers `Ok`; a full one keeps its value and hands the argument back.
#[verifier::external_body]
pub fn cell_set(c: &mut once_cell::sync::OnceCell<usize>, v: usize) -> (r: Result<(), usize>)
    ensures
        r == (if cell_contents(*old(c)).len() == 0 {
            Ok::<(), usize>(())
        } else {
            Err::<(), usize>(v)
        }),
        cell_contents(*final(c)) == (if cell_contents(*old(c)).len() == 0 {
            seq![v]
        } else {
            cell_contents(*old(c))
        }),
{
    c.set(v)
}

} // verus!
