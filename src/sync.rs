//! One reconciliation pass: from the observed services and the configuration
//! file's content to what must be written, if anything.

use crate::reconcile::{
    additions, apply_operations, has_match, lemma_apply_reconcile, lemma_apply_wf, lemma_reconcile_adds_wf, operations_view, same_state, state_wf, reconcile, spec_apply, spec_reconcile, AppliedState,
    GroupModel, ServiceOperation,
};
use crate::state_store::{previous_state, spec_read, ReadError};
use vstd::prelude::*;

verus! {

/// What a reconciliation pass comes to.
#[derive(Debug, Clone, PartialEq, Eq)]
pub enum PassOutcome {
    /// Nothing changed: no write and no reload.
    Unchanged,
    /// Write a file carrying `state` and reload the proxy.
    Write { state: AppliedState, operations: Vec<ServiceOperation> },
    /// The file holds no readable state; the pass is skipped rather than
    /// overwrite it.
    Skipped(ReadError),
}

/// The state a pass starts from: the file's, or the empty state when there is
/// no file.
pub open spec fn spec_previous(artifact: Option<&str>) -> Result<Seq<GroupModel>, ReadError> {
    match artifact {
        None => Ok(Seq::empty()),
        Some(t) => spec_read(t@),
    }
}

/// Decides a pass for the observed services against the file's content
/// (`None`: no file yet).
pub fn plan_pass(observed: &AppliedState, artifact: Option<&str>) -> (r: PassOutcome)
    ensures
        spec_previous(artifact) matches Err(e) ==> r matches PassOutcome::Skipped(e2) && e2 == e,
        spec_previous(artifact) matches Ok(prev) ==> (r is Unchanged <==> spec_reconcile(
            observed@,
            prev,
        ).len() == 0),
        spec_previous(artifact) matches Ok(prev) ==> (r matches PassOutcome::Write {
            state,
            operations,
        } ==> operations_view(operations@) == spec_reconcile(observed@, prev) && state@
            == spec_apply(prev, spec_reconcile(observed@, prev))),
        spec_previous(artifact) is Ok ==> !(r is Skipped),
        state_wf(observed@) ==> (r matches PassOutcome::Write { state, operations } ==> same_state(
            state@,
            observed@,
        ) && state_wf(state@)),
{
    let previous = match previous_state(artifact) {
        Ok(p) => p,
        Err(e) => {
            return PassOutcome::Skipped(e);
        },
    };
    let operations = reconcile(observed, &previous);
    if operations.len() == 0 {
        return PassOutcome::Unchanged;
    }
    let mut applied: Vec<ServiceOperation> = Vec::new();
    let mut i: usize = 0;
    while i < operations.len()
        invariant
            i <= operations@.len(),
            applied@.len() == i,
            forall|k: int| 0 <= k < i ==> (#[trigger] applied@[k])@ == operations@[k]@,
        decreases operations.len() - i,
    {
        applied.push(operations[i].duplicate());
        i = i + 1;
    }
    assert(operations_view(applied@) =~= operations_view(operations@));
    proof {
        assert(state_wf(previous@));
        if state_wf(observed@) {
            lemma_apply_reconcile(observed@, previous@);
            lemma_reconcile_adds_wf(observed@, previous@);
            lemma_apply_wf(previous@, spec_reconcile(observed@, previous@));
        }
    }
    let mut state = previous;
    apply_operations(&mut state, applied);
    PassOutcome::Write { state, operations }
}

/// With no file yet, a pass starts from the empty state, and reconciliation
/// adds every observed group, in order, and removes nothing.
pub proof fn lemma_first_run_adds_all(observed: Seq<GroupModel>)
    ensures
        spec_previous(None) == Ok::<Seq<GroupModel>, ReadError>(Seq::empty()),
        spec_reconcile(observed, Seq::empty()) == additions(observed),
{
    if observed.len() > 0 {
        assert(!has_match(Seq::<GroupModel>::empty(), observed[0]));
        assert(Seq::<crate::reconcile::OperationModel>::empty() + additions(observed) =~= additions(
            observed,
        ));
    } else {
        assert(additions(observed) =~= Seq::<crate::reconcile::OperationModel>::empty());
    }
}

} // verus!
