use vstd::prelude::*;
use crate::dom::live::{id_of, LiveElementView, LiveNodeView};
use crate::dom::model::{
    contains_id, demand, edit_first, find_first, fits, prepared, remove_first, run, step,
    LiveState,
};
use crate::proofs::balance::lemma_find_holder;
use crate::proofs::identity::lemma_holder_is;
use crate::vdom::patch::{PatchKindView, PatchView};

verus! {

/// A patch that has been resolved: its kind and the identity of its node.
pub struct Job {
    pub target: u64,
    pub kind: PatchKindView,
}

/// The tree and the next identity after one job; nothing where the job fails.
pub open spec fn advance(root: LiveNodeView, next: u64, job: Job) -> Option<(LiveNodeView, u64)> {
    match find_first(root, job.target) {
        None => None,
        Some(node) => if !fits(node, job.kind) || next + demand(job.kind) > u64::MAX || (job.kind
            is RemoveNode && id_of(root) == job.target) {
            None
        } else {
            Some(
                (
                    if job.kind is RemoveNode {
                        remove_first(root, job.target)
                    } else {
                        edit_first(root, job.target, prepared(job.kind, next))
                    },
                    (next + demand(job.kind)) as u64,
                ),
            )
        },
    }
}

/// The tree and the next identity after the jobs, in order; nothing where one fails.
pub open spec fn perform(root: LiveNodeView, next: u64, jobs: Seq<Job>) -> Option<
    (LiveNodeView, u64),
>
    decreases jobs.len(),
{
    if jobs.len() == 0 {
        Some((root, next))
    } else {
        match advance(root, next, jobs[0]) {
            Some((r, n)) => perform(r, n, jobs.skip(1)),
            None => None,
        }
    }
}

/// Two lists of jobs in a row are carried out one after the other.
pub proof fn lemma_perform_concat(root: LiveNodeView, next: u64, a: Seq<Job>, b: Seq<Job>)
    ensures
        perform(root, next, a + b) == match perform(root, next, a) {
            Some((r, n)) => perform(r, n, b),
            None => None,
        },
    decreases a.len(),
{
    if a.len() == 0 {
        assert(a + b =~= b);
    } else {
        assert((a + b)[0] == a[0]);
        assert((a + b).skip(1) =~= a.skip(1) + b);
        match advance(root, next, a[0]) {
            Some((r, n)) => {
                lemma_perform_concat(r, n, a.skip(1), b);
            },
            None => {},
        }
    }
}

/// The jobs that the patches from `k` on make with their targets.
pub open spec fn jobs_from(targets: Seq<u64>, patches: Seq<PatchView>, k: int) -> Seq<Job> {
    Seq::new(
        (patches.len() - k) as nat,
        |i: int| Job { target: targets[k + i], kind: patches[k + i].kind },
    )
}

/// Where the jobs of a list of patches can all be carried out, the patches end
/// without a failure in the tree that the jobs leave.
pub proof fn lemma_run_performs(s: LiveState, targets: Seq<u64>, patches: Seq<PatchView>, k: int)
    requires
        0 <= k <= patches.len(),
        targets.len() == patches.len(),
        perform(s.root, s.next_id, jobs_from(targets, patches, k)).is_some(),
    ensures
        run(s, targets, patches, k).error.is_none(),
        run(s, targets, patches, k).state.root == perform(
            s.root,
            s.next_id,
            jobs_from(targets, patches, k),
        ).unwrap().0,
        run(s, targets, patches, k).state.next_id == perform(
            s.root,
            s.next_id,
            jobs_from(targets, patches, k),
        ).unwrap().1,
    decreases patches.len() - k,
{
    let jobs = jobs_from(targets, patches, k);
    if k < patches.len() {
        assert(jobs[0] == Job { target: targets[k], kind: patches[k].kind });
        assert(jobs.skip(1) =~= jobs_from(targets, patches, k + 1));
        let next = step(s, targets[k], patches[k].kind)->Done_0;
        lemma_run_performs(next, targets, patches, k + 1);
    }
}

/// The element `e` with `c` in the place of its child at `j`.
pub open spec fn with_child(e: LiveElementView, j: int, c: LiveNodeView) -> LiveNodeView {
    LiveNodeView::Element(LiveElementView { children: e.children.update(j, c), ..e })
}

/// A job on a node in a child of an element is carried out in that child,
/// where no child before it holds the node and the element itself is not it.
pub proof fn lemma_advance_in_child(e: LiveElementView, j: int, next: u64, job: Job)
    requires
        0 <= j < e.children.len(),
        advance(e.children[j], next, job).is_some(),
        job.target != e.id,
        forall|i: int| 0 <= i < j ==> !contains_id(#[trigger] e.children[i], job.target),
    ensures
        advance(LiveNodeView::Element(e), next, job) == Some(
            (
                with_child(e, j, advance(e.children[j], next, job).unwrap().0),
                advance(e.children[j], next, job).unwrap().1,
            ),
        ),
{
    lemma_holder_is(e.children, job.target, 0, j);
    lemma_find_holder(e.children, job.target, 0);
}

/// Jobs on nodes in a child of an element are carried out in that child, where
/// no child before it holds one of the nodes and the element itself is none.
pub proof fn lemma_perform_in_child(e: LiveElementView, j: int, next: u64, jobs: Seq<Job>)
    requires
        0 <= j < e.children.len(),
        perform(e.children[j], next, jobs).is_some(),
        forall|k: int| 0 <= k < jobs.len() ==> (#[trigger] jobs[k]).target != e.id,
        forall|k: int, i: int|
            0 <= k < jobs.len() && 0 <= i < j ==> !contains_id(
                #[trigger] e.children[i],
                (#[trigger] jobs[k]).target,
            ),
    ensures
        perform(LiveNodeView::Element(e), next, jobs) == Some(
            (
                with_child(e, j, perform(e.children[j], next, jobs).unwrap().0),
                perform(e.children[j], next, jobs).unwrap().1,
            ),
        ),
    decreases jobs.len(),
{
    if jobs.len() == 0 {
        assert(e.children.update(j, e.children[j]) =~= e.children);
    } else {
        let job = jobs[0];
        assert forall|i: int| 0 <= i < j implies !contains_id(#[trigger] e.children[i], job.target) by {
            assert(!contains_id(e.children[i], jobs[0].target));
        }
        lemma_advance_in_child(e, j, next, job);
        let (c1, n1) = advance(e.children[j], next, job).unwrap();
        let e1 = LiveElementView { children: e.children.update(j, c1), ..e };
        let rest = jobs.skip(1);
        assert forall|k: int| 0 <= k < rest.len() implies (#[trigger] rest[k]).target != e1.id by {
            assert(rest[k] == jobs[k + 1]);
        }
        assert forall|k: int, i: int| 0 <= k < rest.len() && 0 <= i < j implies !contains_id(
            #[trigger] e1.children[i],
            (#[trigger] rest[k]).target,
        ) by {
            assert(rest[k] == jobs[k + 1]);
            assert(e1.children[i] == e.children[i]);
        }
        lemma_perform_in_child(e1, j, n1, rest);
        assert(e1.children.update(j, perform(c1, n1, rest).unwrap().0) =~= e.children.update(
            j,
            perform(e.children[j], next, jobs).unwrap().0,
        ));
    }
}

} // verus!
