//! Looking for moves in parallel.

use crate::binary32::Binary32;
use crate::graph::{Graph, GraphView};
use crate::modularity::LocalMove;
use crate::moves::Progress;
use crate::tables::{CommunityAssignments, CommunityWeights};
use rayon::iter::{IntoParallelIterator, ParallelIterator};
use vstd::prelude::*;

verus! {

/// The concurrent vector of boxcar.
#[verifier::external_type_specification]
#[verifier::external_body]
#[verifier::reject_recursive_types(T)]
pub struct ExBoxcarVec<T>(boxcar::Vec<T>);

/// The moves that `batch` holds, by index.
pub uninterp spec fn collected(batch: boxcar::Vec<LocalMove>) -> Seq<LocalMove>;

impl<N, E> GraphView<N, E> {
    /// `batch` holds one choice of each node, in some order, but for the nodes that
    /// choose to stay.
    pub open spec fn gathered(
        self,
        degrees: Seq<Binary32>,
        at: Progress,
        batch: Seq<LocalMove>,
    ) -> bool {
        &&& forall|i: int, j: int|
            0 <= i < j < batch.len() ==> (#[trigger] batch[i]).node != (#[trigger] batch[j]).node
        &&& forall|i: int|
            0 <= i < batch.len() ==> (#[trigger] batch[i]).node < self.nodes.len() && self.chooses(
                degrees,
                at,
                batch[i].node,
                Some(batch[i]),
            )
        &&& forall|node: usize|
            node < self.nodes.len() && (forall|i: int|
                0 <= i < batch.len() ==> (#[trigger] batch[i]).node != node)
                ==> #[trigger] self.chooses(degrees, at, node, None)
    }
}

/// `boxcar::Vec::new`: the vector is empty.
#[verifier::external_body]
pub(crate) fn batch_new() -> (batch: boxcar::Vec<LocalMove>)
    ensures
        collected(batch) == Seq::<LocalMove>::empty(),
{
    boxcar::Vec::new()
}

/// `boxcar::Vec::is_empty`: whether nothing was pushed.
#[verifier::external_body]
pub(crate) fn batch_is_empty(batch: &boxcar::Vec<LocalMove>) -> (empty: bool)
    ensures
        empty == (collected(*batch).len() == 0),
{
    batch.is_empty()
}

/// `boxcar::Vec::iter`: the moves come in the order of their indices.
#[verifier::external_body]
pub(crate) fn batch_moves(batch: &boxcar::Vec<LocalMove>) -> (moves: Vec<LocalMove>)
    ensures
        moves@ == collected(*batch),
{
    batch.iter().map(|(_, local_move)| *local_move).collect()
}

/// `boxcar::Vec::clear`: the vector is empty.
#[verifier::external_body]
pub(crate) fn batch_clear(batch: &mut boxcar::Vec<LocalMove>)
    ensures
        collected(*final(batch)) == Seq::<LocalMove>::empty(),
{
    batch.clear();
}

impl<N: Send + Sync, E: Send + Sync> Graph<N, E> {
    /// rayon's `into_par_iter`, `filter_map` and `for_each` on the numbers of the nodes,
    /// and `boxcar::Vec::push`: every node makes its choice once, all of them from the
    /// same state, and the moves chosen are pushed in an order that is not stated.
    #[verifier::external_body]
    pub(crate) fn gather_moves(
        &self,
        assignments: &CommunityAssignments,
        weighted_degrees: &[Binary32],
        sigma_tot: &CommunityWeights,
        batch: &mut boxcar::Vec<LocalMove>,
    )
        requires
            self.wf(),
            weighted_degrees@.len() == self@.nodes.len(),
            self@.covered_by(assignments@),
            collected(*old(batch)).len() == 0,
        ensures
            self@.gathered(
                weighted_degrees@,
                (Progress { labels: assignments@, sigma: sigma_tot@ }),
                collected(*final(batch)),
            ),
    {
        let batch = &*batch;
        (0..self.nodes.len())
            .into_par_iter()
            .filter_map(|node| self.fast_local_move(node, assignments, weighted_degrees, sigma_tot))
            .for_each(|local_move| {
                batch.push(local_move);
            });
    }
}

} // verus!
