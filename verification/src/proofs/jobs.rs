use vstd::prelude::*;
use crate::diff::model::{
    attribute_patches, diff_children, diff_node, keyed_matches, keyed_removals, leaves, partner,
    positional_pairs, removal, shorter, trailing_removals,
};
use crate::dom::apply::demand_first;
use crate::dom::live::{LiveElementView, LiveNodeView};
use crate::dom::model::{demand, descend};
use crate::proofs::perform::Job;
use crate::vdom::node::NodeView;
use crate::vdom::patch::{PatchKindView, PatchView};

verus! {

/// Whether the path `p` leads through the node at `path`.
pub open spec fn under(p: Seq<usize>, path: Seq<usize>) -> bool {
    p.len() >= path.len() && p.take(path.len() as int) == path
}

/// Whether each of the patches addresses the node at `path` or one below it.
pub open spec fn all_under(d: Seq<PatchView>, path: Seq<usize>) -> bool {
    forall|k: int| 0 <= k < d.len() ==> under((#[trigger] d[k]).path, path)
}

/// What leads through a child leads through its parent.
pub proof fn lemma_under_child(p: Seq<usize>, path: Seq<usize>, i: usize)
    requires
        under(p, path.push(i)),
    ensures
        under(p, path),
        p.len() > path.len(),
        p[path.len() as int] == i,
{
    let q = path.push(i);
    assert(p.take(q.len() as int)[path.len() as int] == q[path.len() as int]);
    assert(p.take(path.len() as int) =~= path) by {
        assert forall|k: int| 0 <= k < path.len() implies p.take(path.len() as int)[k] == path[k] by {
            assert(p.take(q.len() as int)[k] == q[k]);
        }
    }
}

/// Lists of patches that address nodes under a path do so in a row.
pub proof fn lemma_all_under_concat(a: Seq<PatchView>, b: Seq<PatchView>, path: Seq<usize>)
    requires
        all_under(a, path),
        all_under(b, path),
    ensures
        all_under(a + b, path),
{
    assert forall|k: int| 0 <= k < (a + b).len() implies under((#[trigger] (a + b)[k]).path, path) by {
        if k < a.len() {
            assert((a + b)[k] == a[k]);
        } else {
            assert((a + b)[k] == b[k - a.len()]);
        }
    }
}

/// Patches that address nodes under a child address nodes under its parent.
pub proof fn lemma_all_under_child(d: Seq<PatchView>, path: Seq<usize>, i: usize)
    requires
        all_under(d, path.push(i)),
    ensures
        all_under(d, path),
{
    assert forall|k: int| 0 <= k < d.len() implies under((#[trigger] d[k]).path, path) by {
        lemma_under_child(d[k].path, path, i);
    }
}

/// A path leads through its own node.
pub proof fn lemma_under_self(path: Seq<usize>)
    ensures
        under(path, path),
{
    assert(path.take(path.len() as int) =~= path);
}

/// Every patch of a comparison addresses the compared node or one below it.
pub proof fn lemma_diff_under(old: NodeView, new: NodeView, path: Seq<usize>)
    ensures
        all_under(diff_node(old, new, path), path),
    decreases new, 0nat,
{
    lemma_under_self(path);
    match (old, new) {
        (NodeView::Element(a), NodeView::Element(b)) => {
            lemma_children_under(a.tag, a.children, b.children, path);
            let ap = attribute_patches(a, b, path);
            assert(all_under(ap, path));
            lemma_all_under_concat(ap, diff_children(a.tag, a.children, b.children, path), path);
        },
        _ => {},
    }
}

/// Every patch for the children of a node addresses the node or one below it.
pub proof fn lemma_children_under(
    tag: Seq<char>,
    old: Seq<NodeView>,
    new: Seq<NodeView>,
    path: Seq<usize>,
)
    ensures
        all_under(diff_children(tag, old, new, path), path),
    decreases new, new.len() + 2,
{
    lemma_under_self(path);
    lemma_matches_under(old, new, path, 0);
    lemma_keyed_removals_under(old, new, path, 0);
    lemma_pairs_under(old, new, path, 0);
    lemma_trailing_under(old, path, new.len() as int);
    lemma_all_under_concat(keyed_matches(old, new, path, 0), keyed_removals(old, new, path, 0), path);
    if new.len() > old.len() {
        let tail = seq![
            PatchView {
                tag: Some(tag),
                path,
                kind: PatchKindView::AppendChildren(new.subrange(old.len() as int, new.len() as int)),
            },
        ];
        assert(all_under(tail, path));
        lemma_all_under_concat(positional_pairs(old, new, path, 0), tail, path);
    } else {
        lemma_all_under_concat(
            positional_pairs(old, new, path, 0),
            trailing_removals(old, path, new.len() as int),
            path,
        );
    }
}

/// The same for the patches of the new children from `j` on and their partners.
proof fn lemma_matches_under(old: Seq<NodeView>, new: Seq<NodeView>, path: Seq<usize>, j: int)
    requires
        0 <= j,
    ensures
        all_under(keyed_matches(old, new, path, j), path),
    decreases new, new.len() - j,
{
    if j < new.len() {
        lemma_matches_under(old, new, path, j + 1);
        let i = partner(old, new, j);
        let here = if 0 <= i < old.len() {
            diff_node(old[i], new[j], path.push(i as usize))
        } else {
            Seq::empty()
        };
        if 0 <= i < old.len() {
            lemma_diff_under(old[i], new[j], path.push(i as usize));
            lemma_all_under_child(here, path, i as usize);
        }
        lemma_all_under_concat(here, keyed_matches(old, new, path, j + 1), path);
    }
}

/// The same for the patches of the pairs of children from `i` on.
proof fn lemma_pairs_under(old: Seq<NodeView>, new: Seq<NodeView>, path: Seq<usize>, i: int)
    requires
        0 <= i,
    ensures
        all_under(positional_pairs(old, new, path, i), path),
    decreases new, new.len() - i,
{
    if i < shorter(old.len() as int, new.len() as int) {
        lemma_pairs_under(old, new, path, i + 1);
        let here = diff_node(old[i], new[i], path.push(i as usize));
        lemma_diff_under(old[i], new[i], path.push(i as usize));
        lemma_all_under_child(here, path, i as usize);
        lemma_all_under_concat(here, positional_pairs(old, new, path, i + 1), path);
    }
}

/// The same for the removals of the old children from `i` on that leave.
proof fn lemma_keyed_removals_under(old: Seq<NodeView>, new: Seq<NodeView>, path: Seq<usize>, i: int)
    requires
        0 <= i,
    ensures
        all_under(keyed_removals(old, new, path, i), path),
    decreases old.len() - i,
{
    if i < old.len() {
        lemma_keyed_removals_under(old, new, path, i + 1);
        let one = seq![removal(old, path, i)];
        lemma_under_self(path.push(i as usize));
        lemma_under_child(path.push(i as usize), path, i as usize);
        assert(all_under(one, path));
        if leaves(old, new, i) {
            lemma_all_under_concat(one, keyed_removals(old, new, path, i + 1), path);
        }
    }
}

/// The same for the removals of the old children from `i` on.
proof fn lemma_trailing_under(old: Seq<NodeView>, path: Seq<usize>, i: int)
    requires
        0 <= i,
    ensures
        all_under(trailing_removals(old, path, i), path),
    decreases old.len() - i,
{
    if i < old.len() {
        lemma_trailing_under(old, path, i + 1);
        let one = seq![removal(old, path, i)];
        lemma_under_self(path.push(i as usize));
        lemma_under_child(path.push(i as usize), path, i as usize);
        assert(all_under(one, path));
        lemma_all_under_concat(one, trailing_removals(old, path, i + 1), path);
    }
}

/// The identities that the patches take.
pub open spec fn demand_total(d: Seq<PatchView>) -> nat {
    demand_first(d, d.len() as int)
}

/// What the first patches of a list take depends on those patches alone.
proof fn lemma_demand_agree(a: Seq<PatchView>, b: Seq<PatchView>, k: int)
    requires
        0 <= k <= a.len(),
        k <= b.len(),
        forall|i: int| 0 <= i < k ==> a[i] == b[i],
    ensures
        demand_first(a, k) == demand_first(b, k),
    decreases k,
{
    if k > 0 {
        lemma_demand_agree(a, b, k - 1);
    }
}

/// What the patches of one list and the first `k` of another take.
proof fn lemma_demand_concat_to(a: Seq<PatchView>, b: Seq<PatchView>, k: int)
    requires
        0 <= k <= b.len(),
    ensures
        demand_first(a + b, a.len() + k) == demand_total(a) + demand_first(b, k),
    decreases k,
{
    if k == 0 {
        lemma_demand_agree(a + b, a, a.len() as int);
    } else {
        lemma_demand_concat_to(a, b, k - 1);
        assert((a + b)[a.len() + k - 1] == b[k - 1]);
    }
}

/// Two lists of patches in a row take what both take together.
pub proof fn lemma_demand_concat(a: Seq<PatchView>, b: Seq<PatchView>)
    ensures
        demand_total(a + b) == demand_total(a) + demand_total(b),
{
    lemma_demand_concat_to(a, b, b.len() as int);
}

/// A single patch takes what its kind takes.
pub proof fn lemma_demand_one(p: PatchView)
    ensures
        demand_total(seq![p]) == demand(p.kind),
{
    assert(demand_first(seq![p], 0) == 0);
}

/// The identity of the node that the patch `p` addresses when `s0` is the
/// node that the first `d` ordinals of its path lead to.
pub open spec fn target_at(s0: LiveNodeView, d: int, p: PatchView) -> u64 {
    match descend(s0, p.path.skip(d)) {
        Some(t) => t,
        None => 0,
    }
}

/// The jobs that the patches make when each is resolved from the node `s0`, to
/// which the first `d` ordinals of its path lead.
pub open spec fn jobs_at(s0: LiveNodeView, d: int, patches: Seq<PatchView>) -> Seq<Job> {
    Seq::new(
        patches.len(),
        |k: int| Job { target: target_at(s0, d, patches[k]), kind: patches[k].kind },
    )
}

/// The jobs of two lists of patches in a row.
pub proof fn lemma_jobs_concat(s0: LiveNodeView, d: int, a: Seq<PatchView>, b: Seq<PatchView>)
    ensures
        jobs_at(s0, d, a + b) == jobs_at(s0, d, a) + jobs_at(s0, d, b),
{
    assert(jobs_at(s0, d, a + b) =~= jobs_at(s0, d, a) + jobs_at(s0, d, b));
}

/// Patches that address nodes under the child at `i` make the same jobs from
/// the child as from its parent.
pub proof fn lemma_jobs_child(e: LiveElementView, path: Seq<usize>, i: usize, d: Seq<PatchView>)
    requires
        i < e.children.len(),
        all_under(d, path.push(i)),
    ensures
        jobs_at(LiveNodeView::Element(e), path.len() as int, d) == jobs_at(
            e.children[i as int],
            path.len() as int + 1,
            d,
        ),
{
    let n = LiveNodeView::Element(e);
    assert forall|k: int| 0 <= k < d.len() implies target_at(n, path.len() as int, d[k])
        == target_at(e.children[i as int], path.len() as int + 1, d[k]) by {
        let p = d[k].path;
        lemma_under_child(p, path, i);
        let q = p.skip(path.len() as int);
        assert(q[0] == i);
        assert(q.skip(1) =~= p.skip(path.len() as int + 1));
    }
    assert(jobs_at(n, path.len() as int, d) =~= jobs_at(e.children[i as int], path.len() as int + 1, d));
}

} // verus!
