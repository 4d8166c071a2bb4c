//! The activation transaction: the generation record that pairs the managed
//! path tree with the service set, the partial-result error that every
//! mutating stage reports, and the rule by which stage outcomes — complete
//! or partial — are folded into the record that is persisted.  The record is
//! written after every run, also after a partial failure, so that the next
//! run converges.

use crate::etc_tree::FileTree;
use crate::services::Services;
use vstd::prelude::*;

verus! {

/// A stage failure carrying whatever the stage had built before it failed,
/// with the cause as its message.
pub enum ActivationError<R> {
    WithPartialResult { result: R, message: String },
}

/// The partial result an activation error carries.
pub open spec fn partial_of<R>(e: ActivationError<R>) -> R {
    match e {
        ActivationError::WithPartialResult { result, message } => result,
    }
}

impl<R> ActivationError<R> {
    /// Wrap a stage's partial result with the cause of its failure.
    pub fn with_partial_result(result: R, message: String) -> (r: Self)
        ensures
            partial_of(r) == result,
    {
        ActivationError::WithPartialResult { result, message }
    }
}

/// What a mutating stage returns: its new component, or an error carrying
/// the partial component built so far.
pub type ActivationResult<R> = Result<R, ActivationError<R>>;

/// The persisted record of one generation: the managed path tree and the
/// active service set.
pub struct State {
    pub file_tree: FileTree,
    pub services: Services,
}

impl State {
    pub open spec fn wf(self) -> bool {
        self.file_tree.wf() && self.services.wf()
    }

    /// The record of a host nothing is managed on: an empty tree and no
    /// services.
    pub fn empty() -> (r: State)
        ensures
            r.wf(),
            r.file_tree@ == crate::etc_tree::empty_node(),
            r.services@ == Map::<Seq<char>, Seq<char>>::empty(),
    {
        State { file_tree: FileTree::root_node(), services: Services::new() }
    }
}

impl Default for State {
    /// The empty record, used when no state file exists or it is unreadable.
    fn default() -> (r: Self)
        ensures
            r.wf(),
            r.file_tree@ == crate::etc_tree::empty_node(),
            r.services@ == Map::<Seq<char>, Seq<char>>::empty(),
    {
        State::empty()
    }
}

/// Fold the two stage outcomes of one activation run into the record to
/// persist: a failed file stage keeps the previous service set and records
/// the partial tree; a failed service stage keeps the new tree and records
/// the partial service set.
fn merge_outcomes(
    old_state: State,
    etc_outcome: ActivationResult<FileTree>,
    service_outcome: Option<ActivationResult<Services>>,
) -> (r: State)
    requires
        service_outcome is Some <==> etc_outcome is Ok,
    ensures
        etc_outcome matches Ok(t) ==> r.file_tree == t,
        etc_outcome matches Err(e) ==> r.file_tree == partial_of(e) && r.services
            == old_state.services,
        service_outcome matches Some(Ok(s)) ==> r.services == s,
        service_outcome matches Some(Err(e)) ==> r.services == partial_of(e),
{
    match etc_outcome {
        Ok(file_tree) => {
            let services = match service_outcome {
                Some(Ok(services)) => services,
                Some(Err(ActivationError::WithPartialResult { result, message: _ })) => result,
                None => {
                    // excluded by the precondition
                    old_state.services
                },
            };
            State { file_tree, services }
        },
        Err(ActivationError::WithPartialResult { result, message: _ }) => {
            State { file_tree: result, services: old_state.services }
        },
    }
}

/// The record to persist after an `activate` run: the file stage's outcome,
/// then — only if it succeeded — the service stage's.
pub fn activate(
    old_state: State,
    etc_outcome: ActivationResult<FileTree>,
    service_outcome: Option<ActivationResult<Services>>,
) -> (r: State)
    requires
        service_outcome is Some <==> etc_outcome is Ok,
    ensures
        etc_outcome matches Ok(t) ==> r.file_tree == t,
        etc_outcome matches Err(e) ==> r.file_tree == partial_of(e) && r.services
            == old_state.services,
        service_outcome matches Some(Ok(s)) ==> r.services == s,
        service_outcome matches Some(Err(e)) ==> r.services == partial_of(e),
{
    merge_outcomes(old_state, etc_outcome, service_outcome)
}

/// The record to persist after a `prepopulate` run: files are placed as in
/// `activate`, while the service set is only read — never acted on — so
/// that the next `activate` sees the right previous configuration.
pub fn prepopulate(
    old_state: State,
    etc_outcome: ActivationResult<FileTree>,
    service_read_outcome: Option<ActivationResult<Services>>,
) -> (r: State)
    requires
        service_read_outcome is Some <==> etc_outcome is Ok,
    ensures
        etc_outcome matches Ok(t) ==> r.file_tree == t,
        etc_outcome matches Err(e) ==> r.file_tree == partial_of(e) && r.services
            == old_state.services,
        service_read_outcome matches Some(Ok(s)) ==> r.services == s,
        service_read_outcome matches Some(Err(e)) ==> r.services == partial_of(e),
{
    merge_outcomes(old_state, etc_outcome, service_read_outcome)
}

/// The record to persist after a `deactivate` run: the cleanup stage's
/// outcome, then — only if it succeeded — the service stop stage's.
pub fn deactivate(
    old_state: State,
    etc_outcome: ActivationResult<FileTree>,
    service_outcome: Option<ActivationResult<Services>>,
) -> (r: State)
    requires
        service_outcome is Some <==> etc_outcome is Ok,
    ensures
        etc_outcome matches Ok(t) ==> r.file_tree == t,
        etc_outcome matches Err(e) ==> r.file_tree == partial_of(e) && r.services
            == old_state.services,
        service_outcome matches Some(Ok(s)) ==> r.services == s,
        service_outcome matches Some(Err(e)) ==> r.services == partial_of(e),
{
    merge_outcomes(old_state, etc_outcome, service_outcome)
}

} // verus!
