use vstd::prelude::*;

verus! {

/// `crossbeam_epoch::Guard`: the scope token of the epoch-reclamation
/// service. Holding one pins the current thread's epoch, so nothing the
/// thread can still reach is reclaimed before the guard is dropped. The
/// bin's arena owns its nodes and never frees one while the bin is alive,
/// so the guard is carried through lookups and structural changes only as
/// evidence that the caller keeps a reclamation scope open, as the service's
/// contract demands of every traversal.
#[verifier::external_type_specification]
#[verifier::external_body]
pub struct ExGuard(crossbeam_epoch::Guard);

} // verus!
