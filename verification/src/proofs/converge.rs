use vstd::prelude::*;
use crate::diff::model::{
    any_keyed, attribute_patches, changed_attrs, diff_children, diff_node, diff_trees,
    dropped_attrs, keyed_matches, keyed_removals, leaves, listener_names, must_replace, partner,
    positional_pairs, removal, shorter, trailing_removals,
};
use crate::dom::apply::demand_first;
use crate::dom::live::{id_of, LiveElementView, LiveNodeView};
use crate::dom::materialize::lemma_count_first_monotone;
use crate::dom::model::{
    applied, attached, contains_id, count, count_first, demand, descend, edited, materialized,
    materialized_all, plain_names, prepared, resolve, set_all, targets_of, unset_all, LiveState,
};
use crate::proofs::agree::{
    agrees, lemma_forest_agrees_all, lemma_forest_agrees_at, lemma_materialized_agrees,
    lemma_materialized_all_ids, lemma_materialized_ids, lemma_materialized_unique,
};
use crate::proofs::attributes::{
    lemma_attached_plain, lemma_attrs_converge, lemma_changed_plain, lemma_pick_none,
    lemma_value_unset_all, plain_value, value_of,
};
use crate::proofs::balance::lemma_find_holder;
use crate::proofs::identity::{
    below, lemma_contains_child, lemma_contains_element, lemma_descend_contains,
    lemma_forest_unique, lemma_forest_unique_all, lemma_holder_is, unique,
};
use crate::proofs::jobs::{
    demand_total, jobs_at, lemma_demand_concat, lemma_demand_one, lemma_diff_under,
    lemma_jobs_child, lemma_jobs_concat, lemma_under_child, under,
};
use crate::proofs::keyed::{
    keyed_in_order, kept, lemma_kept_all, lemma_kept_from, lemma_leaving_has_no_partner,
    lemma_partner,
};
use crate::proofs::perform::{
    advance, jobs_from, lemma_perform_concat, lemma_perform_in_child, lemma_run_performs, perform,
    Job,
};
use crate::vdom::attribute::{merged, AttributeView};
use crate::vdom::node::{ElementView, NodeView};
use crate::vdom::patch::{PatchKindView, PatchView};

verus! {

/// Whether the patches that turn `old` into `new` are known to bring a live
/// tree that shows `old` to one that shows `new`. Wherever the comparison goes
/// on below two elements, the old element has no more children than a machine
/// word counts and, where the children are compared by key, the old children
/// that stay are in the order of the new ones.
pub open spec fn convergent(old: NodeView, new: NodeView) -> bool
    decreases new, 0nat,
{
    if must_replace(old, new) {
        true
    } else {
        match (old, new) {
            (NodeView::Element(a), NodeView::Element(b)) => {
                &&& a.children.len() <= usize::MAX
                &&& if any_keyed(a.children) || any_keyed(b.children) {
                    keyed_in_order(a.children, b.children) && matches_convergent(
                        a.children,
                        b.children,
                        0,
                    )
                } else {
                    pairs_convergent(a.children, b.children, 0)
                }
            },
            _ => true,
        }
    }
}

/// Whether the new children from `j` on and their partners are convergent.
pub open spec fn matches_convergent(old: Seq<NodeView>, new: Seq<NodeView>, j: int) -> bool
    decreases new, new.len() - j,
{
    if j < 0 || j >= new.len() {
        true
    } else {
        let i = partner(old, new, j);
        (0 <= i < old.len() ==> convergent(old[i], new[j])) && matches_convergent(old, new, j + 1)
    }
}

/// Whether the pairs of children at equal positions from `i` on are convergent.
pub open spec fn pairs_convergent(old: Seq<NodeView>, new: Seq<NodeView>, i: int) -> bool
    decreases new, new.len() - i,
{
    if i < 0 || i >= shorter(old.len() as int, new.len() as int) {
        true
    } else {
        convergent(old[i], new[i]) && pairs_convergent(old, new, i + 1)
    }
}

/// Whether the patches `d`, resolved from the live tree `s0` and carried out on
/// it with identities from `next0` on, all succeed and leave a tree that shows
/// `new`, in which no two nodes have the same identity and which holds no
/// identities but those of `s0` and those handed out since.
pub open spec fn converged(
    s0: LiveNodeView,
    next0: u64,
    d: Seq<PatchView>,
    depth: int,
    new: NodeView,
) -> bool {
    let r = perform(s0, next0, jobs_at(s0, depth, d));
    &&& r.is_some()
    &&& agrees(r.unwrap().0, new)
    &&& unique(r.unwrap().0)
    &&& r.unwrap().1 == next0 + demand_total(d)
    &&& forall|id: u64| #[trigger]
        contains_id(r.unwrap().0, id) ==> contains_id(s0, id) || next0 <= id < r.unwrap().1
    &&& forall|k: int| 0 <= k < d.len() ==> descend(s0, (#[trigger] d[k]).path.skip(depth)).is_some()
}

/// Whether none of the trees `c` holds an identity twice and no two of them
/// hold the same identity.
pub open spec fn sound_children(c: Seq<LiveNodeView>) -> bool {
    &&& forall|k: int| 0 <= k < c.len() ==> unique(#[trigger] c[k])
    &&& forall|i: int, k: int, id: u64|
        0 <= i < k < c.len() && #[trigger] contains_id(c[i], id) ==> !#[trigger] contains_id(
            c[k],
            id,
        )
}

/// An element holds no identity twice exactly where its children are sound
/// and none of them holds its own identity.
pub proof fn lemma_unique_element(e: LiveElementView)
    ensures
        unique(LiveNodeView::Element(e)) <==> ((forall|i: int|
            0 <= i < e.children.len() ==> !contains_id(#[trigger] e.children[i], e.id))
            && sound_children(e.children)),
{
    if unique(LiveNodeView::Element(e)) {
        assert forall|k: int| 0 <= k < e.children.len() implies unique(#[trigger] e.children[k]) by {
            lemma_forest_unique(e.children, e.children.len() as int, k);
        }
    }
    if sound_children(e.children) {
        lemma_forest_unique_all(e.children, e.children.len() as int);
    }
}

/// Whether the patches `d` for the children of an element, resolved from the
/// live element `e0` and carried out on `cur` with identities from `next0` on,
/// all succeed and leave children that show `nc`, one for one, are sound, and
/// hold no identities but those below `e0` and those handed out since.
pub open spec fn children_converged(
    e0: LiveElementView,
    cur: LiveElementView,
    next0: u64,
    d: Seq<PatchView>,
    depth: int,
    nc: Seq<NodeView>,
) -> bool {
    let r = perform(
        LiveNodeView::Element(cur),
        next0,
        jobs_at(LiveNodeView::Element(e0), depth, d),
    );
    &&& r.is_some()
    &&& r.unwrap().0 is Element
    &&& r.unwrap().0 == LiveNodeView::Element(with_children(cur, r.unwrap().0->Element_0.children))
    &&& r.unwrap().0->Element_0.children.len() == nc.len()
    &&& forall|k: int|
        0 <= k < nc.len() ==> agrees(#[trigger] r.unwrap().0->Element_0.children[k], nc[k])
    &&& sound_children(r.unwrap().0->Element_0.children)
    &&& forall|k: int, id: u64|
        0 <= k < nc.len() && #[trigger] contains_id(r.unwrap().0->Element_0.children[k], id)
            ==> id != e0.id && (contains_id(LiveNodeView::Element(e0), id) || next0 <= id
            < r.unwrap().1)
    &&& r.unwrap().1 == next0 + demand_total(d)
    &&& forall|x: int|
        0 <= x < d.len() ==> descend(
            LiveNodeView::Element(e0),
            (#[trigger] d[x]).path.skip(depth),
        ).is_some()
}

/// The element `e` with the attributes `attrs`.
pub open spec fn with_attrs(e: LiveElementView, attrs: Seq<AttributeView>) -> LiveElementView {
    LiveElementView { attrs, ..e }
}

/// The element `e` with the children `children`.
pub open spec fn with_children(e: LiveElementView, children: Seq<LiveNodeView>) -> LiveElementView {
    LiveElementView { children, ..e }
}

/// The attributes of a live element after the attribute patches for `old` and `new`.
pub open spec fn patched_attrs(live: Seq<AttributeView>, old: ElementView, new: ElementView) -> Seq<
    AttributeView,
> {
    let add = changed_attrs(merged(old.attrs), merged(new.attrs));
    let rem = dropped_attrs(merged(old.attrs), merged(new.attrs));
    let first = if add.len() > 0 {
        set_all(live, add)
    } else {
        live
    };
    if rem.len() > 0 {
        unset_all(first, plain_names(rem))
    } else {
        first
    }
}

/// A path that is followed to its end leads nowhere further.
proof fn lemma_skip_all(path: Seq<usize>)
    ensures
        path.skip(path.len() as int) == Seq::<usize>::empty(),
{
    assert(path.skip(path.len() as int) =~= Seq::<usize>::empty());
}

/// A single job on the root of a tree that edits it in place.
proof fn lemma_edit_root(s0: LiveNodeView, next: u64, kind: PatchKindView)
    requires
        crate::dom::model::fits(s0, kind),
        !(kind is RemoveNode),
        next + demand(kind) <= u64::MAX,
    ensures
        advance(s0, next, Job { target: id_of(s0), kind }) == Some(
            (edited(s0, prepared(kind, next)), (next + demand(kind)) as u64),
        ),
{
}

/// The attribute patches set on a live element what the new element declares
/// and leave its listeners and children alone.
proof fn lemma_converge_attrs(
    e0: LiveElementView,
    next: u64,
    old: ElementView,
    new: ElementView,
    path: Seq<usize>,
)
    requires
        forall|x: Seq<char>| value_of(e0.attrs, x) == #[trigger] plain_value(merged(old.attrs), x),
        listener_names(old.attrs) == listener_names(new.attrs),
    ensures
        perform(
            LiveNodeView::Element(e0),
            next,
            jobs_at(LiveNodeView::Element(e0), path.len() as int, attribute_patches(old, new, path)),
        ) == Some((LiveNodeView::Element(with_attrs(e0, patched_attrs(e0.attrs, old, new))), next)),
        forall|x: Seq<char>|
            value_of(patched_attrs(e0.attrs, old, new), x) == #[trigger] plain_value(
                merged(new.attrs),
                x,
            ),
        demand_total(attribute_patches(old, new, path)) == 0,
        forall|k: int|
            0 <= k < attribute_patches(old, new, path).len() ==> descend(
                LiveNodeView::Element(e0),
                (#[trigger] attribute_patches(old, new, path)[k]).path.skip(path.len() as int),
            ).is_some(),
{
    let s0 = LiveNodeView::Element(e0);
    let d = path.len() as int;
    let mo = merged(old.attrs);
    let mn = merged(new.attrs);
    let add = changed_attrs(mo, mn);
    let rem = dropped_attrs(mo, mn);
    let ap = attribute_patches(old, new, path);
    let setting = PatchView { tag: Some(old.tag), path, kind: PatchKindView::AddAttributes(add) };
    let unsetting = PatchView { tag: Some(old.tag), path, kind: PatchKindView::RemoveAttributes(rem) };
    lemma_skip_all(path);
    lemma_changed_plain(mo, mn);
    lemma_attached_plain(add);
    assert forall|x: Seq<char>| !listener_names(rem).contains(x) by {
        lemma_attrs_converge(e0.attrs, old.attrs, new.attrs, x);
    }
    let a1 = if add.len() > 0 {
        set_all(e0.attrs, add)
    } else {
        e0.attrs
    };
    assert(a1 == set_all(e0.attrs, add));
    let e1 = with_attrs(e0, a1);
    let fin = with_attrs(e0, patched_attrs(e0.attrs, old, new));
    assert forall|x: Seq<char>|
        value_of(patched_attrs(e0.attrs, old, new), x) == #[trigger] plain_value(mn, x) by {
        lemma_attrs_converge(e0.attrs, old.attrs, new.attrs, x);
        lemma_value_unset_all(a1, plain_names(rem), x);
        if rem.len() == 0 {
            assert(!plain_names(rem).contains(x));
        }
    }
    let set_job = Job { target: id_of(s0), kind: setting.kind };
    let unset_job = Job { target: id_of(s0), kind: unsetting.kind };
    lemma_edit_root(s0, next, setting.kind);
    assert(e0.listeners + attached(add) =~= e0.listeners);
    assert(edited(s0, prepared(setting.kind, next)) == LiveNodeView::Element(with_attrs(e0, set_all(e0.attrs, add))));
    lemma_edit_root(LiveNodeView::Element(e1), next, unsetting.kind);
    lemma_pick_none(e1.listeners, listener_names(rem));
    assert(edited(LiveNodeView::Element(e1), prepared(unsetting.kind, next)) == LiveNodeView::Element(
        with_attrs(e1, unset_all(e1.attrs, plain_names(rem))),
    ));
    let jobs = jobs_at(s0, d, ap);
    if add.len() > 0 && rem.len() > 0 {
        assert(ap =~= seq![setting, unsetting]);
        assert(jobs =~= seq![set_job, unset_job]);
        assert(jobs.skip(1) =~= seq![unset_job]);
        assert(seq![unset_job].skip(1) =~= Seq::<Job>::empty());
        assert(perform(LiveNodeView::Element(fin), next, Seq::<Job>::empty()) == Some(
            (LiveNodeView::Element(fin), next),
        ));
        assert(perform(LiveNodeView::Element(e1), next, seq![unset_job]) == Some(
            (LiveNodeView::Element(fin), next),
        ));
        assert(demand_first(ap, 2) == 0) by {
            assert(demand_first(ap, 1) == 0) by {
                assert(demand_first(ap, 0) == 0);
            }
        }
    } else if add.len() > 0 {
        assert(ap =~= seq![setting]);
        assert(jobs =~= seq![set_job]);
        assert(jobs.skip(1) =~= Seq::<Job>::empty());
        lemma_demand_one(setting);
    } else if rem.len() > 0 {
        assert(ap =~= seq![unsetting]);
        assert(jobs =~= seq![unset_job]);
        assert(jobs.skip(1) =~= Seq::<Job>::empty());
        lemma_demand_one(unsetting);
    } else {
        assert(ap =~= Seq::<PatchView>::empty());
        assert(jobs =~= Seq::<Job>::empty());
        assert(fin == e0);
    }
}

/// Whether each of the first `m` children of `cur` holds no identities but
/// those of the child of `e0` at its position and those from `next0` up to `next`.
pub open spec fn kin(
    e0: LiveElementView,
    cur: Seq<LiveNodeView>,
    m: int,
    next0: int,
    next: int,
) -> bool {
    forall|k: int, id: u64|
        0 <= k < m && #[trigger] contains_id(cur[k], id) ==> contains_id(
            #[trigger] e0.children[k],
            id,
        ) || next0 <= id < next
}

/// A node of a later child of an element without double identities is in none
/// of the children before it, nor in what became of them, and is not the
/// element itself.
proof fn lemma_apart(
    e0: LiveElementView,
    cur: Seq<LiveNodeView>,
    m: int,
    next0: int,
    next: int,
    k: int,
    t: u64,
)
    requires
        unique(LiveNodeView::Element(e0)),
        below(LiveNodeView::Element(e0), next0),
        0 <= m <= k < e0.children.len(),
        m <= cur.len(),
        kin(e0, cur, m, next0, next),
        contains_id(e0.children[k], t),
    ensures
        t != e0.id,
        forall|j: int| 0 <= j < m ==> !contains_id(#[trigger] cur[j], t),
{
    lemma_contains_child(e0, k, t);
    assert(t < next0);
    assert(!contains_id(e0.children[k], e0.id));
    assert forall|j: int| 0 <= j < m implies !contains_id(#[trigger] cur[j], t) by {
        if contains_id(cur[j], t) {
            assert(contains_id(e0.children[j], t) || next0 <= t < next);
            assert(contains_id(e0.children[j], t));
            assert(!contains_id(e0.children[k], t));
        }
    }
}

/// The removals of the trailing children take exactly them away.
proof fn lemma_converge_trailing(
    e0: LiveElementView,
    cur: LiveElementView,
    next0: int,
    next: u64,
    oc: Seq<NodeView>,
    path: Seq<usize>,
    m: int,
    k: int,
)
    requires
        0 <= m <= k <= oc.len() <= usize::MAX,
        e0.children.len() == oc.len(),
        cur.id == e0.id,
        cur.children.len() == m + (oc.len() - k),
        unique(LiveNodeView::Element(e0)),
        below(LiveNodeView::Element(e0), next0),
        kin(e0, cur.children, m, next0, next as int),
        forall|j: int| k <= j < oc.len() ==> cur.children[m + j - k] == #[trigger] e0.children[j],
    ensures
        perform(
            LiveNodeView::Element(cur),
            next,
            jobs_at(LiveNodeView::Element(e0), path.len() as int, trailing_removals(oc, path, k)),
        ) == Some((LiveNodeView::Element(with_children(cur, cur.children.take(m))), next)),
        demand_total(trailing_removals(oc, path, k)) == 0,
        forall|x: int|
            0 <= x < trailing_removals(oc, path, k).len() ==> descend(
                LiveNodeView::Element(e0),
                (#[trigger] trailing_removals(oc, path, k)[x]).path.skip(path.len() as int),
            ).is_some(),
    decreases oc.len() - k,
{
    let s0 = LiveNodeView::Element(e0);
    let d = path.len() as int;
    let all = trailing_removals(oc, path, k);
    if k >= oc.len() {
        assert(all =~= Seq::<PatchView>::empty());
        assert(jobs_at(s0, d, all) =~= Seq::<Job>::empty());
        assert(cur.children.take(m) =~= cur.children);
    } else {
        let one = removal(oc, path, k);
        let rest = trailing_removals(oc, path, k + 1);
        let q = one.path.skip(d);
        assert(q =~= seq![k as usize]);
        assert(q.skip(1) =~= Seq::<usize>::empty());
        let t = id_of(e0.children[k]);
        assert(descend(e0.children[k], q.skip(1)) == Some(t));
        assert(q[0] == k);
        assert(descend(s0, q) == Some(t));
        let job = Job { target: t, kind: PatchKindView::RemoveNode };
        lemma_apart(e0, cur.children, m, next0, next as int, k, t);
        assert(cur.children[m] == e0.children[k]);
        lemma_holder_is(cur.children, t, 0, m);
        lemma_find_holder(cur.children, t, 0);
        let cur1 = with_children(cur, cur.children.remove(m));
        assert(advance(LiveNodeView::Element(cur), next, job) == Some(
            (LiveNodeView::Element(cur1), next),
        ));
        assert forall|j: int| k + 1 <= j < oc.len() implies cur1.children[m + j - (k + 1)]
            == #[trigger] e0.children[j] by {
            assert(cur1.children[m + j - (k + 1)] == cur.children[m + j - k]);
        }
        assert(kin(e0, cur1.children, m, next0, next as int)) by {
            assert forall|j: int, id: u64|
                0 <= j < m && #[trigger] contains_id(cur1.children[j], id) implies contains_id(
                #[trigger] e0.children[j],
                id,
            ) || next0 <= id < next by {
                assert(cur1.children[j] == cur.children[j]);
            }
        }
        lemma_converge_trailing(e0, cur1, next0, next, oc, path, m, k + 1);
        assert(cur1.children.take(m) =~= cur.children.take(m));
        lemma_jobs_concat(s0, d, seq![one], rest);
        assert(all =~= seq![one] + rest);
        assert(jobs_at(s0, d, seq![one]) =~= seq![job]);
        let jobs = jobs_at(s0, d, all);
        assert(jobs[0] == job);
        assert(jobs.skip(1) =~= jobs_at(s0, d, rest));
        lemma_demand_concat(seq![one], rest);
        lemma_demand_one(one);
        assert forall|x: int| 0 <= x < all.len() implies descend(
            s0,
            (#[trigger] all[x]).path.skip(d),
        ).is_some() by {
            if x > 0 {
                assert(all[x] == rest[x - 1]);
            }
        }
    }
}

/// The patch that appends children adds live trees that show them.
proof fn lemma_converge_append(
    e0: LiveElementView,
    cur: LiveElementView,
    next: u64,
    tag: Seq<char>,
    added: Seq<NodeView>,
    path: Seq<usize>,
)
    requires
        cur.id == e0.id,
        next + count_first(added, added.len() as int) <= u64::MAX,
    ensures
        ({
            let p = PatchView { tag: Some(tag), path, kind: PatchKindView::AppendChildren(added) };
            &&& perform(
                LiveNodeView::Element(cur),
                next,
                jobs_at(LiveNodeView::Element(e0), path.len() as int, seq![p]),
            ) == Some(
                (
                    LiveNodeView::Element(
                        with_children(cur, cur.children + materialized_all(added, next as int)),
                    ),
                    (next + count_first(added, added.len() as int)) as u64,
                ),
            )
            &&& demand_total(seq![p]) == count_first(added, added.len() as int)
            &&& descend(LiveNodeView::Element(e0), p.path.skip(path.len() as int)).is_some()
        }),
{
    let p = PatchView { tag: Some(tag), path, kind: PatchKindView::AppendChildren(added) };
    let s0 = LiveNodeView::Element(e0);
    lemma_skip_all(path);
    lemma_demand_one(p);
    let job = Job { target: e0.id, kind: p.kind };
    let jobs = jobs_at(s0, path.len() as int, seq![p]);
    assert(jobs =~= seq![job]);
    assert(jobs.skip(1) =~= Seq::<Job>::empty());
    lemma_edit_root(LiveNodeView::Element(cur), next, p.kind);
    let fin = LiveNodeView::Element(
        with_children(cur, cur.children + materialized_all(added, next as int)),
    );
    let n = (next + count_first(added, added.len() as int)) as u64;
    assert(advance(LiveNodeView::Element(cur), next, job) == Some((fin, n)));
    assert(perform(fin, n, Seq::<Job>::empty()) == Some((fin, n)));
}

/// A child that was brought up to date stays apart from its siblings, and the
/// children stay sound.
proof fn lemma_update_sound(
    e0: LiveElementView,
    cur: Seq<LiveNodeView>,
    i: int,
    c1: LiveNodeView,
    next0: int,
    next: int,
    n1: int,
)
    requires
        unique(LiveNodeView::Element(e0)),
        below(LiveNodeView::Element(e0), next0),
        next0 <= next <= n1,
        cur.len() == e0.children.len(),
        0 <= i < cur.len(),
        kin(e0, cur, cur.len() as int, next0, next),
        sound_children(cur),
        unique(c1),
        forall|id: u64| #[trigger]
            contains_id(c1, id) ==> contains_id(e0.children[i], id) || next <= id < n1,
    ensures
        sound_children(cur.update(i, c1)),
        kin(e0, cur.update(i, c1), cur.len() as int, next0, n1),
{
    let now = cur.update(i, c1);
    assert forall|k: int, id: u64|
        0 <= k < now.len() && #[trigger] contains_id(now[k], id) implies contains_id(
        #[trigger] e0.children[k],
        id,
    ) || next0 <= id < n1 by {
        if k != i {
            assert(now[k] == cur[k]);
            assert(contains_id(e0.children[k], id) || next0 <= id < next);
        }
    }
    assert forall|x: int, y: int, id: u64|
        0 <= x < y < now.len() && #[trigger] contains_id(now[x], id) implies !#[trigger] contains_id(
        now[y],
        id,
    ) by {
        if contains_id(now[y], id) {
            assert(contains_id(e0.children[x], id) || next0 <= id < n1);
            assert(contains_id(e0.children[y], id) || next0 <= id < n1);
            if contains_id(e0.children[x], id) {
                lemma_contains_child(e0, x, id);
            }
            if contains_id(e0.children[y], id) {
                lemma_contains_child(e0, y, id);
            }
            if x != i && y != i {
                assert(now[x] == cur[x]);
                assert(now[y] == cur[y]);
            } else if x == i {
                assert(now[y] == cur[y]);
                assert(contains_id(e0.children[y], id) || next0 <= id < next);
                assert(contains_id(e0.children[i], id) || next <= id < n1);
            } else {
                assert(now[x] == cur[x]);
                assert(contains_id(e0.children[x], id) || next0 <= id < next);
                assert(contains_id(e0.children[i], id) || next <= id < n1);
            }
        }
    }
    assert forall|k: int| 0 <= k < now.len() implies unique(#[trigger] now[k]) by {
        if k != i {
            assert(now[k] == cur[k]);
        }
    }
}

/// Freshly materialized trees are sound.
proof fn lemma_materialized_all_sound(c: Seq<NodeView>, next: int)
    requires
        0 <= next,
        next + count_first(c, c.len() as int) <= u64::MAX,
    ensures
        sound_children(materialized_all(c, next)),
{
    let live = materialized_all(c, next);
    assert forall|k: int| 0 <= k < live.len() implies unique(#[trigger] live[k]) by {
        lemma_count_first_monotone(c, k + 1, c.len() as int);
        lemma_materialized_unique(c[k], next + count_first(c, k));
    }
    assert forall|x: int, y: int, id: u64|
        0 <= x < y < live.len() && #[trigger] contains_id(live[x], id) implies !#[trigger] contains_id(
        live[y],
        id,
    ) by {
        lemma_count_first_monotone(c, x + 1, c.len() as int);
        lemma_count_first_monotone(c, y + 1, c.len() as int);
        lemma_count_first_monotone(c, x + 1, y);
        lemma_materialized_ids(c[x], next + count_first(c, x), id);
        if contains_id(live[y], id) {
            lemma_materialized_ids(c[y], next + count_first(c, y), id);
        }
    }
}

/// What the children of an element hold is below the element and not the
/// element itself, or has been handed out since.
proof fn lemma_kin_below(
    e0: LiveElementView,
    f: Seq<LiveNodeView>,
    next0: int,
    next: int,
    k: int,
    id: u64,
)
    requires
        unique(LiveNodeView::Element(e0)),
        below(LiveNodeView::Element(e0), next0),
        f.len() == e0.children.len(),
        kin(e0, f, f.len() as int, next0, next),
        0 <= k < f.len(),
        contains_id(f[k], id),
    ensures
        id != e0.id,
        contains_id(LiveNodeView::Element(e0), id) || next0 <= id < next,
{
    assert(contains_id(e0.children[k], id) || next0 <= id < next);
    assert(contains_id(LiveNodeView::Element(e0), e0.id));
    if contains_id(e0.children[k], id) {
        lemma_contains_child(e0, k, id);
        assert(!contains_id(e0.children[k], e0.id));
    }
}

/// The patches for the pairs of children at equal positions from `i` on bring
/// each old child to show the new child at its position and leave the other
/// children alone.
proof fn lemma_converge_pairs(
    e0: LiveElementView,
    cur: LiveElementView,
    next0: int,
    next: u64,
    oc: Seq<NodeView>,
    nc: Seq<NodeView>,
    path: Seq<usize>,
    i: int,
)
    requires
        0 <= i <= shorter(oc.len() as int, nc.len() as int),
        oc.len() <= usize::MAX,
        e0.children.len() == oc.len(),
        cur.children.len() == oc.len(),
        cur.id == e0.id,
        unique(LiveNodeView::Element(e0)),
        below(LiveNodeView::Element(e0), next0),
        next0 <= next,
        forall|k: int| i <= k < oc.len() ==> cur.children[k] == #[trigger] e0.children[k],
        kin(e0, cur.children, oc.len() as int, next0, next as int),
        sound_children(cur.children),
        forall|k: int| 0 <= k < oc.len() ==> agrees(#[trigger] e0.children[k], oc[k]),
        pairs_convergent(oc, nc, i),
        next + demand_total(positional_pairs(oc, nc, path, i)) <= u64::MAX,
    ensures
        ({
            let d = positional_pairs(oc, nc, path, i);
            let m = shorter(oc.len() as int, nc.len() as int);
            let r = perform(
                LiveNodeView::Element(cur),
                next,
                jobs_at(LiveNodeView::Element(e0), path.len() as int, d),
            );
            &&& r.is_some()
            &&& r.unwrap().0 is Element
            &&& r.unwrap().0 == LiveNodeView::Element(
                with_children(cur, r.unwrap().0->Element_0.children),
            )
            &&& r.unwrap().0->Element_0.children.len() == oc.len()
            &&& r.unwrap().1 == next + demand_total(d)
            &&& forall|k: int|
                0 <= k < i ==> (#[trigger] r.unwrap().0->Element_0.children[k]) == cur.children[k]
            &&& forall|k: int|
                i <= k < m ==> agrees(#[trigger] r.unwrap().0->Element_0.children[k], nc[k])
            &&& kin(e0, r.unwrap().0->Element_0.children, oc.len() as int, next0, r.unwrap().1 as int)
            &&& sound_children(r.unwrap().0->Element_0.children)
            &&& forall|k: int|
                m <= k < oc.len() ==> (#[trigger] r.unwrap().0->Element_0.children[k])
                    == e0.children[k]
            &&& forall|x: int|
                0 <= x < d.len() ==> descend(
                    LiveNodeView::Element(e0),
                    (#[trigger] d[x]).path.skip(path.len() as int),
                ).is_some()
        }),
    decreases nc, nc.len() - i,
{
    let s0 = LiveNodeView::Element(e0);
    let depth = path.len() as int;
    let m = shorter(oc.len() as int, nc.len() as int);
    let d = positional_pairs(oc, nc, path, i);
    if i >= m {
        assert(d =~= Seq::<PatchView>::empty());
        assert(jobs_at(s0, depth, d) =~= Seq::<Job>::empty());
        assert(cur == with_children(cur, cur.children));
    } else {
        let child = e0.children[i];
        let here = diff_node(oc[i], nc[i], path.push(i as usize));
        let rest = positional_pairs(oc, nc, path, i + 1);
        assert(d == here + rest);
        lemma_demand_concat(here, rest);
        lemma_jobs_concat(s0, depth, here, rest);
        lemma_diff_under(oc[i], nc[i], path.push(i as usize));
        lemma_jobs_child(e0, path, i as usize, here);
        let jobs_here = jobs_at(child, depth + 1, here);
        assert(path.push(i as usize).len() == depth + 1);
        // the child on its own
        lemma_forest_unique(e0.children, e0.children.len() as int, i);
        assert(below(child, next as int)) by {
            assert forall|id: u64| #[trigger] contains_id(child, id) implies id < next by {
                lemma_contains_child(e0, i, id);
            }
        }
        lemma_converge_node(child, next, oc[i], nc[i], path.push(i as usize));
        let (c1, n1) = perform(child, next, jobs_here).unwrap();
        // the child in its parent
        assert(kin(e0, cur.children, i, next0, next as int));
        assert forall|k: int| 0 <= k < jobs_here.len() implies (#[trigger] jobs_here[k]).target
            != cur.id && (forall|j: int|
            0 <= j < i ==> !contains_id(#[trigger] cur.children[j], jobs_here[k].target)) by {
            let t = jobs_here[k].target;
            assert(descend(child, here[k].path.skip(depth + 1)).is_some());
            lemma_descend_contains(child, here[k].path.skip(depth + 1));
            lemma_apart(e0, cur.children, i, next0, next as int, i, t);
        }
        assert(cur.children[i] == child);
        lemma_perform_in_child(cur, i, next, jobs_here);
        let cur1 = with_children(cur, cur.children.update(i, c1));
        assert(perform(LiveNodeView::Element(cur), next, jobs_here) == Some(
            (LiveNodeView::Element(cur1), n1),
        ));
        // the pairs behind it
        lemma_update_sound(e0, cur.children, i, c1, next0, next as int, n1 as int);
        assert forall|k: int| i + 1 <= k < oc.len() implies cur1.children[k]
            == #[trigger] e0.children[k] by {
            assert(cur1.children[k] == cur.children[k]);
        }
        lemma_converge_pairs(e0, cur1, next0, n1, oc, nc, path, i + 1);
        lemma_perform_concat(
            LiveNodeView::Element(cur),
            next,
            jobs_at(s0, depth, here),
            jobs_at(s0, depth, rest),
        );
        let r = perform(LiveNodeView::Element(cur), next, jobs_at(s0, depth, d));
        let fin = r.unwrap().0->Element_0;
        assert(r == perform(LiveNodeView::Element(cur1), n1, jobs_at(s0, depth, rest)));
        assert(fin.children[i] == cur1.children[i]);
        assert forall|k: int| 0 <= k < i implies (#[trigger] fin.children[k]) == cur.children[k] by {
            assert(fin.children[k] == cur1.children[k]);
        }
        assert forall|k: int| i <= k < m implies agrees(#[trigger] fin.children[k], nc[k]) by {}
        assert forall|x: int| 0 <= x < d.len() implies descend(
            s0,
            (#[trigger] d[x]).path.skip(depth),
        ).is_some() by {
            if x < here.len() {
                assert(d[x] == here[x]);
                let p = here[x].path;
                lemma_under_child(p, path, i as usize);
                let q = p.skip(depth);
                assert(q[0] == i as usize);
                assert(q.skip(1) =~= p.skip(depth + 1));
                assert(descend(child, p.skip(depth + 1)).is_some());
            } else {
                assert(d[x] == rest[x - here.len()]);
            }
        }
    }
}

/// The patches for the children of two elements that are compared by position
/// bring the live children to show the new ones.
proof fn lemma_converge_positional(
    e0: LiveElementView,
    cur: LiveElementView,
    next0: u64,
    tag: Seq<char>,
    oc: Seq<NodeView>,
    nc: Seq<NodeView>,
    path: Seq<usize>,
)
    requires
        oc.len() <= usize::MAX,
        e0.children.len() == oc.len(),
        cur.children == e0.children,
        cur.id == e0.id,
        unique(LiveNodeView::Element(e0)),
        below(LiveNodeView::Element(e0), next0 as int),
        forall|k: int| 0 <= k < oc.len() ==> agrees(#[trigger] e0.children[k], oc[k]),
        !any_keyed(oc),
        !any_keyed(nc),
        pairs_convergent(oc, nc, 0),
        next0 + demand_total(diff_children(tag, oc, nc, path)) <= u64::MAX,
    ensures
        children_converged(e0, cur, next0, diff_children(tag, oc, nc, path), path.len() as int, nc),
    decreases nc, nc.len() + 1,
{
    let s0 = LiveNodeView::Element(e0);
    let depth = path.len() as int;
    let pp = positional_pairs(oc, nc, path, 0);
    let cp = diff_children(tag, oc, nc, path);
    let tail = if nc.len() > oc.len() {
        seq![
            PatchView {
                tag: Some(tag),
                path,
                kind: PatchKindView::AppendChildren(nc.subrange(oc.len() as int, nc.len() as int)),
            },
        ]
    } else {
        trailing_removals(oc, path, nc.len() as int)
    };
    assert(cp == pp + tail);
    lemma_demand_concat(pp, tail);
    lemma_jobs_concat(s0, depth, pp, tail);
    lemma_unique_element(e0);
    assert(kin(e0, cur.children, oc.len() as int, next0 as int, next0 as int));
    lemma_converge_pairs(e0, cur, next0 as int, next0, oc, nc, path, 0);
    let (mid, n1) = perform(LiveNodeView::Element(cur), next0, jobs_at(s0, depth, pp)).unwrap();
    let e2 = mid->Element_0;
    lemma_perform_concat(
        LiveNodeView::Element(cur),
        next0,
        jobs_at(s0, depth, pp),
        jobs_at(s0, depth, tail),
    );
    if nc.len() > oc.len() {
        let added = nc.subrange(oc.len() as int, nc.len() as int);
        lemma_converge_append(e0, e2, n1, tag, added, path);
        let fresh = materialized_all(added, n1 as int);
        let fin = e2.children + fresh;
        let n3 = (n1 + count_first(added, added.len() as int)) as u64;
        assert(perform(LiveNodeView::Element(cur), next0, jobs_at(s0, depth, cp)) == Some(
            (LiveNodeView::Element(with_children(e2, fin)), n3),
        ));
        lemma_materialized_all_sound(added, n1 as int);
        assert forall|k: int| 0 <= k < nc.len() implies agrees(#[trigger] fin[k], nc[k]) by {
            if k >= oc.len() {
                let x = k - oc.len();
                assert(fin[k] == fresh[x]);
                lemma_materialized_agrees(added[x], n1 + count_first(added, x));
                assert(added[x] == nc[k]);
            } else {
                assert(fin[k] == e2.children[k]);
            }
        }
        assert forall|k: int, id: u64|
            0 <= k < nc.len() && #[trigger] contains_id(fin[k], id) implies id != e0.id && (
        contains_id(s0, id) || next0 <= id < n3) by {
            assert(contains_id(s0, e0.id));
            if k >= oc.len() {
                let x = k - oc.len();
                assert(fin[k] == fresh[x]);
                lemma_materialized_all_ids(added, n1 as int, x, id);
            } else {
                assert(fin[k] == e2.children[k]);
                lemma_kin_below(e0, e2.children, next0 as int, n1 as int, k, id);
            }
        }
        assert(sound_children(fin)) by {
            assert forall|k: int| 0 <= k < fin.len() implies unique(#[trigger] fin[k]) by {
                if k >= oc.len() {
                    assert(fin[k] == fresh[k - oc.len()]);
                } else {
                    assert(fin[k] == e2.children[k]);
                }
            }
            assert forall|x: int, y: int, id: u64|
                0 <= x < y < fin.len() && #[trigger] contains_id(fin[x], id) implies !#[trigger] contains_id(
                fin[y],
                id,
            ) by {
                if contains_id(fin[y], id) {
                    if y < oc.len() {
                        assert(fin[x] == e2.children[x]);
                        assert(fin[y] == e2.children[y]);
                    } else if x >= oc.len() {
                        assert(fin[x] == fresh[x - oc.len()]);
                        assert(fin[y] == fresh[y - oc.len()]);
                    } else {
                        assert(fin[x] == e2.children[x]);
                        assert(fin[y] == fresh[y - oc.len()]);
                        lemma_kin_below(e0, e2.children, next0 as int, n1 as int, x, id);
                        lemma_materialized_all_ids(added, n1 as int, y - oc.len(), id);
                    }
                }
            }
        }
        assert forall|x: int| 0 <= x < cp.len() implies descend(
            s0,
            (#[trigger] cp[x]).path.skip(depth),
        ).is_some() by {
            if x < pp.len() {
                assert(cp[x] == pp[x]);
            } else {
                assert(cp[x] == tail[x - pp.len()]);
            }
        }
    } else {
        let m = nc.len() as int;
        assert(kin(e0, e2.children, m, next0 as int, n1 as int));
        lemma_converge_trailing(e0, e2, next0 as int, n1, oc, path, m, m);
        let fin = e2.children.take(m);
        assert(perform(LiveNodeView::Element(cur), next0, jobs_at(s0, depth, cp)) == Some(
            (LiveNodeView::Element(with_children(e2, fin)), n1),
        ));
        assert forall|k: int| 0 <= k < nc.len() implies agrees(#[trigger] fin[k], nc[k]) by {
            assert(fin[k] == e2.children[k]);
        }
        assert forall|k: int, id: u64|
            0 <= k < nc.len() && #[trigger] contains_id(fin[k], id) implies id != e0.id && (
        contains_id(s0, id) || next0 <= id < n1) by {
            assert(fin[k] == e2.children[k]);
            lemma_kin_below(e0, e2.children, next0 as int, n1 as int, k, id);
        }
        assert(sound_children(fin)) by {
            assert forall|k: int| 0 <= k < fin.len() implies unique(#[trigger] fin[k]) by {
                assert(fin[k] == e2.children[k]);
            }
            assert forall|x: int, y: int, id: u64|
                0 <= x < y < fin.len() && #[trigger] contains_id(fin[x], id) implies !#[trigger] contains_id(
                fin[y],
                id,
            ) by {
                assert(fin[x] == e2.children[x]);
                assert(fin[y] == e2.children[y]);
            }
        }
        assert forall|x: int| 0 <= x < cp.len() implies descend(
            s0,
            (#[trigger] cp[x]).path.skip(depth),
        ).is_some() by {
            if x < pp.len() {
                assert(cp[x] == pp[x]);
            } else {
                assert(cp[x] == tail[x - pp.len()]);
            }
        }
    }
}

/// The position from which the old children have not been compared yet when
/// the new child at `j` is next: behind the partner of the new child before it.
pub open spec fn untouched_from(old: Seq<NodeView>, new: Seq<NodeView>, j: int) -> int {
    if j <= 0 {
        0
    } else {
        partner(old, new, j - 1) + 1
    }
}

/// The removals of the old children that leave take exactly them away.
proof fn lemma_converge_keyed_removals(
    e0: LiveElementView,
    cur: LiveElementView,
    f: Seq<LiveNodeView>,
    next0: int,
    next: u64,
    oc: Seq<NodeView>,
    nc: Seq<NodeView>,
    path: Seq<usize>,
    i: int,
)
    requires
        0 <= i <= oc.len() <= usize::MAX,
        f.len() == oc.len(),
        e0.children.len() == oc.len(),
        cur.id == e0.id,
        unique(LiveNodeView::Element(e0)),
        below(LiveNodeView::Element(e0), next0),
        kin(e0, f, oc.len() as int, next0, next as int),
        forall|k: int| 0 <= k < oc.len() && leaves(oc, nc, k) ==> f[k] == #[trigger] e0.children[k],
        cur.children == kept(f, oc, nc, i) + f.skip(i),
    ensures
        perform(
            LiveNodeView::Element(cur),
            next,
            jobs_at(LiveNodeView::Element(e0), path.len() as int, keyed_removals(oc, nc, path, i)),
        ) == Some(
            (LiveNodeView::Element(with_children(cur, kept(f, oc, nc, oc.len() as int))), next),
        ),
        demand_total(keyed_removals(oc, nc, path, i)) == 0,
        forall|x: int|
            0 <= x < keyed_removals(oc, nc, path, i).len() ==> descend(
                LiveNodeView::Element(e0),
                (#[trigger] keyed_removals(oc, nc, path, i)[x]).path.skip(path.len() as int),
            ).is_some(),
    decreases oc.len() - i,
{
    let s0 = LiveNodeView::Element(e0);
    let d = path.len() as int;
    let all = keyed_removals(oc, nc, path, i);
    let head = kept(f, oc, nc, i);
    if i >= oc.len() {
        assert(all =~= Seq::<PatchView>::empty());
        assert(jobs_at(s0, d, all) =~= Seq::<Job>::empty());
        assert(cur.children =~= head);
    } else if leaves(oc, nc, i) {
        let one = removal(oc, path, i);
        let rest = keyed_removals(oc, nc, path, i + 1);
        let q = one.path.skip(d);
        assert(q =~= seq![i as usize]);
        assert(q.skip(1) =~= Seq::<usize>::empty());
        let t = id_of(e0.children[i]);
        assert(descend(e0.children[i], q.skip(1)) == Some(t));
        assert(q[0] == i);
        assert(descend(s0, q) == Some(t));
        let job = Job { target: t, kind: PatchKindView::RemoveNode };
        let m = head.len() as int;
        assert(cur.children[m] == f[i]);
        assert(f[i] == e0.children[i]);
        lemma_contains_child(e0, i, t);
        assert(!contains_id(e0.children[i], e0.id));
        assert forall|x: int| 0 <= x < m implies !contains_id(#[trigger] cur.children[x], t) by {
            let k = lemma_kept_from(f, oc, nc, i, x);
            assert(cur.children[x] == f[k]);
            if contains_id(f[k], t) {
                assert(contains_id(e0.children[k], t) || next0 <= t < next);
                assert(contains_id(e0.children[k], t));
                assert(!contains_id(e0.children[i], t));
            }
        }
        lemma_holder_is(cur.children, t, 0, m);
        lemma_find_holder(cur.children, t, 0);
        let cur1 = with_children(cur, cur.children.remove(m));
        assert(advance(LiveNodeView::Element(cur), next, job) == Some(
            (LiveNodeView::Element(cur1), next),
        ));
        assert(cur1.children =~= kept(f, oc, nc, i + 1) + f.skip(i + 1));
        lemma_converge_keyed_removals(e0, cur1, f, next0, next, oc, nc, path, i + 1);
        lemma_jobs_concat(s0, d, seq![one], rest);
        assert(all =~= seq![one] + rest);
        assert(jobs_at(s0, d, seq![one]) =~= seq![job]);
        let jobs = jobs_at(s0, d, all);
        assert(jobs[0] == job);
        assert(jobs.skip(1) =~= jobs_at(s0, d, rest));
        lemma_demand_concat(seq![one], rest);
        lemma_demand_one(one);
        assert forall|x: int| 0 <= x < all.len() implies descend(
            s0,
            (#[trigger] all[x]).path.skip(d),
        ).is_some() by {
            if x > 0 {
                assert(all[x] == rest[x - 1]);
            }
        }
    } else {
        assert(cur.children =~= kept(f, oc, nc, i + 1) + f.skip(i + 1));
        lemma_converge_keyed_removals(e0, cur, f, next0, next, oc, nc, path, i + 1);
    }
}

/// The patches for the new children from `j` on bring the partner of each to
/// show it and leave the other children alone.
proof fn lemma_converge_matches(
    e0: LiveElementView,
    cur: LiveElementView,
    next0: int,
    next: u64,
    oc: Seq<NodeView>,
    nc: Seq<NodeView>,
    path: Seq<usize>,
    j: int,
)
    requires
        0 <= j <= nc.len(),
        oc.len() <= usize::MAX,
        e0.children.len() == oc.len(),
        cur.children.len() == oc.len(),
        cur.id == e0.id,
        unique(LiveNodeView::Element(e0)),
        below(LiveNodeView::Element(e0), next0),
        next0 <= next,
        keyed_in_order(oc, nc),
        matches_convergent(oc, nc, j),
        forall|k: int|
            untouched_from(oc, nc, j) <= k < oc.len() ==> cur.children[k]
                == #[trigger] e0.children[k],
        kin(e0, cur.children, oc.len() as int, next0, next as int),
        sound_children(cur.children),
        forall|k: int| 0 <= k < oc.len() ==> agrees(#[trigger] e0.children[k], oc[k]),
        next + demand_total(keyed_matches(oc, nc, path, j)) <= u64::MAX,
    ensures
        ({
            let d = keyed_matches(oc, nc, path, j);
            let r = perform(
                LiveNodeView::Element(cur),
                next,
                jobs_at(LiveNodeView::Element(e0), path.len() as int, d),
            );
            &&& r.is_some()
            &&& r.unwrap().0 is Element
            &&& r.unwrap().0 == LiveNodeView::Element(
                with_children(cur, r.unwrap().0->Element_0.children),
            )
            &&& r.unwrap().0->Element_0.children.len() == oc.len()
            &&& r.unwrap().1 == next + demand_total(d)
            &&& forall|x: int|
                j <= x < nc.len() ==> agrees(
                    r.unwrap().0->Element_0.children[#[trigger] partner(oc, nc, x)],
                    nc[x],
                )
            &&& forall|k: int|
                0 <= k < oc.len() && (forall|x: int|
                    j <= x < nc.len() ==> #[trigger] partner(oc, nc, x) != k) ==> (
                #[trigger] r.unwrap().0->Element_0.children[k]) == cur.children[k]
            &&& kin(e0, r.unwrap().0->Element_0.children, oc.len() as int, next0, r.unwrap().1 as int)
            &&& sound_children(r.unwrap().0->Element_0.children)
            &&& forall|x: int|
                0 <= x < d.len() ==> descend(
                    LiveNodeView::Element(e0),
                    (#[trigger] d[x]).path.skip(path.len() as int),
                ).is_some()
        }),
    decreases nc, nc.len() - j,
{
    let s0 = LiveNodeView::Element(e0);
    let depth = path.len() as int;
    let d = keyed_matches(oc, nc, path, j);
    if j >= nc.len() {
        assert(d =~= Seq::<PatchView>::empty());
        assert(jobs_at(s0, depth, d) =~= Seq::<Job>::empty());
        assert(cur == with_children(cur, cur.children));
    } else {
        let i = partner(oc, nc, j);
        lemma_partner(oc, nc, j);
        assert(0 <= i < oc.len());
        if j > 0 {
            assert(partner(oc, nc, j - 1) < partner(oc, nc, j));
        }
        assert(untouched_from(oc, nc, j) <= i);
        let child = e0.children[i];
        assert(cur.children[i] == child);
        let here = diff_node(oc[i], nc[j], path.push(i as usize));
        let rest = keyed_matches(oc, nc, path, j + 1);
        assert(d == here + rest);
        lemma_demand_concat(here, rest);
        lemma_jobs_concat(s0, depth, here, rest);
        lemma_diff_under(oc[i], nc[j], path.push(i as usize));
        lemma_jobs_child(e0, path, i as usize, here);
        let jobs_here = jobs_at(child, depth + 1, here);
        assert(path.push(i as usize).len() == depth + 1);
        // the child on its own
        lemma_forest_unique(e0.children, e0.children.len() as int, i);
        assert(below(child, next as int)) by {
            assert forall|id: u64| #[trigger] contains_id(child, id) implies id < next by {
                lemma_contains_child(e0, i, id);
            }
        }
        lemma_converge_node(child, next, oc[i], nc[j], path.push(i as usize));
        let (c1, n1) = perform(child, next, jobs_here).unwrap();
        // the child in its parent
        assert(kin(e0, cur.children, i, next0, next as int));
        assert forall|k: int| 0 <= k < jobs_here.len() implies (#[trigger] jobs_here[k]).target
            != cur.id && (forall|w: int|
            0 <= w < i ==> !contains_id(#[trigger] cur.children[w], jobs_here[k].target)) by {
            let t = jobs_here[k].target;
            assert(descend(child, here[k].path.skip(depth + 1)).is_some());
            lemma_descend_contains(child, here[k].path.skip(depth + 1));
            lemma_apart(e0, cur.children, i, next0, next as int, i, t);
        }
        lemma_perform_in_child(cur, i, next, jobs_here);
        let cur1 = with_children(cur, cur.children.update(i, c1));
        assert(perform(LiveNodeView::Element(cur), next, jobs_here) == Some(
            (LiveNodeView::Element(cur1), n1),
        ));
        // the new children behind it
        lemma_update_sound(e0, cur.children, i, c1, next0, next as int, n1 as int);
        assert(untouched_from(oc, nc, j + 1) == i + 1);
        assert forall|k: int| i + 1 <= k < oc.len() implies cur1.children[k]
            == #[trigger] e0.children[k] by {
            assert(cur1.children[k] == cur.children[k]);
        }
        lemma_converge_matches(e0, cur1, next0, n1, oc, nc, path, j + 1);
        lemma_perform_concat(
            LiveNodeView::Element(cur),
            next,
            jobs_at(s0, depth, here),
            jobs_at(s0, depth, rest),
        );
        let r = perform(LiveNodeView::Element(cur), next, jobs_at(s0, depth, d));
        let fin = r.unwrap().0->Element_0;
        assert(r == perform(LiveNodeView::Element(cur1), n1, jobs_at(s0, depth, rest)));
        assert forall|x: int| j + 1 <= x < nc.len() implies #[trigger] partner(oc, nc, x) != i by {
            assert(partner(oc, nc, j) < partner(oc, nc, x));
        }
        assert(fin.children[i] == cur1.children[i]);
        assert forall|x: int| j <= x < nc.len() implies agrees(
            fin.children[#[trigger] partner(oc, nc, x)],
            nc[x],
        ) by {}
        assert forall|k: int|
            0 <= k < oc.len() && (forall|x: int|
                j <= x < nc.len() ==> #[trigger] partner(oc, nc, x) != k) implies (
        #[trigger] fin.children[k]) == cur.children[k] by {
            assert(partner(oc, nc, j) != k);
            assert forall|x: int| j + 1 <= x < nc.len() implies #[trigger] partner(oc, nc, x) != k by {}
            assert(fin.children[k] == cur1.children[k]);
        }
        assert forall|x: int| 0 <= x < d.len() implies descend(
            s0,
            (#[trigger] d[x]).path.skip(depth),
        ).is_some() by {
            if x < here.len() {
                assert(d[x] == here[x]);
                let p = here[x].path;
                lemma_under_child(p, path, i as usize);
                let q = p.skip(depth);
                assert(q[0] == i as usize);
                assert(q.skip(1) =~= p.skip(depth + 1));
                assert(descend(child, p.skip(depth + 1)).is_some());
            } else {
                assert(d[x] == rest[x - here.len()]);
            }
        }
    }
}

/// The patches for the children of two elements that are compared by key bring
/// the live children to show the new ones.
proof fn lemma_converge_keyed(
    e0: LiveElementView,
    cur: LiveElementView,
    next0: u64,
    tag: Seq<char>,
    oc: Seq<NodeView>,
    nc: Seq<NodeView>,
    path: Seq<usize>,
)
    requires
        oc.len() <= usize::MAX,
        e0.children.len() == oc.len(),
        cur.children == e0.children,
        cur.id == e0.id,
        unique(LiveNodeView::Element(e0)),
        below(LiveNodeView::Element(e0), next0 as int),
        forall|k: int| 0 <= k < oc.len() ==> agrees(#[trigger] e0.children[k], oc[k]),
        any_keyed(oc) || any_keyed(nc),
        keyed_in_order(oc, nc),
        matches_convergent(oc, nc, 0),
        next0 + demand_total(diff_children(tag, oc, nc, path)) <= u64::MAX,
    ensures
        children_converged(e0, cur, next0, diff_children(tag, oc, nc, path), path.len() as int, nc),
    decreases nc, nc.len() + 1,
{
    let s0 = LiveNodeView::Element(e0);
    let depth = path.len() as int;
    let cp = diff_children(tag, oc, nc, path);
    let km = keyed_matches(oc, nc, path, 0);
    let kr = keyed_removals(oc, nc, path, 0);
    assert(cp == km + kr);
    lemma_demand_concat(km, kr);
    lemma_jobs_concat(s0, depth, km, kr);
    lemma_unique_element(e0);
    assert(kin(e0, cur.children, oc.len() as int, next0 as int, next0 as int));
    lemma_converge_matches(e0, cur, next0 as int, next0, oc, nc, path, 0);
    let (mid, n1) = perform(LiveNodeView::Element(cur), next0, jobs_at(s0, depth, km)).unwrap();
    let e2 = mid->Element_0;
    let f = e2.children;
    lemma_perform_concat(
        LiveNodeView::Element(cur),
        next0,
        jobs_at(s0, depth, km),
        jobs_at(s0, depth, kr),
    );
    assert forall|k: int| 0 <= k < oc.len() && leaves(oc, nc, k) implies f[k]
        == #[trigger] e0.children[k] by {
        assert forall|j: int| 0 <= j < nc.len() implies #[trigger] partner(oc, nc, j) != k by {
            lemma_leaving_has_no_partner(oc, nc, k, j);
        }
        assert(f[k] == cur.children[k]);
    }
    assert(f =~= kept(f, oc, nc, 0) + f.skip(0));
    lemma_converge_keyed_removals(e0, e2, f, next0 as int, n1, oc, nc, path, 0);
    let fin = kept(f, oc, nc, oc.len() as int);
    assert(perform(LiveNodeView::Element(cur), next0, jobs_at(s0, depth, cp)) == Some(
        (LiveNodeView::Element(with_children(e2, fin)), n1),
    ));
    lemma_kept_all(f, oc, nc);
    assert forall|k: int| 0 <= k < nc.len() implies 0 <= #[trigger] partner(oc, nc, k) < oc.len()
        && fin[k] == f[partner(oc, nc, k)] by {
        lemma_partner(oc, nc, k);
    }
    assert forall|k: int| 0 <= k < nc.len() implies agrees(#[trigger] fin[k], nc[k]) by {
        assert(fin[k] == f[partner(oc, nc, k)]);
    }
    assert forall|k: int, id: u64|
        0 <= k < nc.len() && #[trigger] contains_id(fin[k], id) implies id != e0.id && (contains_id(
        s0,
        id,
    ) || next0 <= id < n1) by {
        assert(fin[k] == f[partner(oc, nc, k)]);
        lemma_kin_below(e0, f, next0 as int, n1 as int, partner(oc, nc, k), id);
    }
    assert(sound_children(fin)) by {
        assert forall|k: int| 0 <= k < fin.len() implies unique(#[trigger] fin[k]) by {
            assert(fin[k] == f[partner(oc, nc, k)]);
        }
        assert forall|x: int, y: int, id: u64|
            0 <= x < y < fin.len() && #[trigger] contains_id(fin[x], id) implies !#[trigger] contains_id(
            fin[y],
            id,
        ) by {
            assert(fin[x] == f[partner(oc, nc, x)]);
            assert(fin[y] == f[partner(oc, nc, y)]);
            assert(partner(oc, nc, x) < partner(oc, nc, y));
        }
    }
    assert forall|x: int| 0 <= x < cp.len() implies descend(
        s0,
        (#[trigger] cp[x]).path.skip(depth),
    ).is_some() by {
        if x < km.len() {
            assert(cp[x] == km[x]);
        } else {
            assert(cp[x] == kr[x - km.len()]);
        }
    }
}

/// The patches that turn `old` into `new` bring a live tree that shows `old`
/// to one that shows `new`.
pub proof fn lemma_converge_node(
    s0: LiveNodeView,
    next0: u64,
    old: NodeView,
    new: NodeView,
    path: Seq<usize>,
)
    requires
        agrees(s0, old),
        unique(s0),
        below(s0, next0 as int),
        convergent(old, new),
        next0 + demand_total(diff_node(old, new, path)) <= u64::MAX,
    ensures
        converged(s0, next0, diff_node(old, new, path), path.len() as int, new),
    decreases new, 0nat,
{
    let d = diff_node(old, new, path);
    let depth = path.len() as int;
    lemma_skip_all(path);
    if must_replace(old, new) {
        let p = d[0];
        assert(d =~= seq![p]);
        lemma_demand_one(p);
        let job = Job { target: id_of(s0), kind: p.kind };
        let jobs = jobs_at(s0, depth, d);
        assert(jobs =~= seq![job]);
        assert(jobs.skip(1) =~= Seq::<Job>::empty());
        lemma_edit_root(s0, next0, p.kind);
        let live = materialized(new, next0 as int);
        lemma_materialized_agrees(new, next0 as int);
        lemma_materialized_unique(new, next0 as int);
        let n = (next0 + count(new)) as u64;
        assert(advance(s0, next0, job) == Some((live, n)));
        assert(perform(live, n, Seq::<Job>::empty()) == Some((live, n)));
        assert(perform(s0, next0, jobs) == Some((live, n)));
        assert forall|id: u64| #[trigger] contains_id(live, id) implies contains_id(s0, id) || next0
            <= id < next0 + count(new) by {
            lemma_materialized_ids(new, next0 as int, id);
        }
    } else {
        match (old, new) {
            (NodeView::Text(a), NodeView::Text(b)) => {
                if a != b {
                    let p = d[0];
                    assert(d =~= seq![p]);
                    lemma_demand_one(p);
                    let job = Job { target: id_of(s0), kind: p.kind };
                    let jobs = jobs_at(s0, depth, d);
                    assert(jobs =~= seq![job]);
                    assert(jobs.skip(1) =~= Seq::<Job>::empty());
                    lemma_edit_root(s0, next0, p.kind);
                    let fin = edited(s0, prepared(p.kind, next0));
                    assert(advance(s0, next0, job) == Some((fin, next0)));
                    assert(perform(fin, next0, Seq::<Job>::empty()) == Some((fin, next0)));
                    assert(perform(s0, next0, jobs) == Some((fin, next0)));
                } else {
                    assert(d =~= Seq::<PatchView>::empty());
                    assert(jobs_at(s0, depth, d) =~= Seq::<Job>::empty());
                }
            },
            (NodeView::Element(a), NodeView::Element(b)) => {
                lemma_converge_element(s0->Element_0, next0, a, b, path);
            },
            _ => {},
        }
    }
}

/// The patches for two elements of one tag that listen to the same events
/// bring a live element that shows the old one to one that shows the new one.
proof fn lemma_converge_element(
    e0: LiveElementView,
    next0: u64,
    a: ElementView,
    b: ElementView,
    path: Seq<usize>,
)
    requires
        agrees(LiveNodeView::Element(e0), NodeView::Element(a)),
        unique(LiveNodeView::Element(e0)),
        below(LiveNodeView::Element(e0), next0 as int),
        !must_replace(NodeView::Element(a), NodeView::Element(b)),
        convergent(NodeView::Element(a), NodeView::Element(b)),
        next0 + demand_total(diff_node(NodeView::Element(a), NodeView::Element(b), path))
            <= u64::MAX,
    ensures
        converged(
            LiveNodeView::Element(e0),
            next0,
            diff_node(NodeView::Element(a), NodeView::Element(b), path),
            path.len() as int,
            NodeView::Element(b),
        ),
    decreases b.children, b.children.len() + 2,
{
    let s0 = LiveNodeView::Element(e0);
    let depth = path.len() as int;
    let oc = a.children;
    let nc = b.children;
    let ap = attribute_patches(a, b, path);
    let cp = diff_children(a.tag, oc, nc, path);
    let d = diff_node(NodeView::Element(a), NodeView::Element(b), path);
    assert(d == ap + cp);
    // the attributes
    lemma_converge_attrs(e0, next0, a, b, path);
    let e1 = with_attrs(e0, patched_attrs(e0.attrs, a, b));
    lemma_demand_concat(ap, cp);
    lemma_jobs_concat(s0, depth, ap, cp);
    lemma_perform_concat(s0, next0, jobs_at(s0, depth, ap), jobs_at(s0, depth, cp));
    // the children
    assert forall|k: int| 0 <= k < oc.len() implies agrees(#[trigger] e0.children[k], oc[k]) by {
        lemma_forest_agrees_at(e0.children, oc, oc.len() as int, k);
    }
    if any_keyed(oc) || any_keyed(nc) {
        lemma_converge_keyed(e0, e1, next0, a.tag, oc, nc, path);
    } else {
        lemma_converge_positional(e0, e1, next0, a.tag, oc, nc, path);
    }
    let (last, n) = perform(LiveNodeView::Element(e1), next0, jobs_at(s0, depth, cp)).unwrap();
    let e3 = last->Element_0;
    assert(perform(s0, next0, jobs_at(s0, depth, d)) == Some((last, n)));
    lemma_forest_agrees_all(e3.children, nc, nc.len() as int);
    lemma_unique_element(e3);
    assert forall|id: u64| #[trigger] contains_id(last, id) implies contains_id(s0, id) || next0
        <= id < n by {
        lemma_contains_element(e3, id);
        if id != e3.id {
            let k = choose|k: int|
                0 <= k < e3.children.len() && contains_id(#[trigger] e3.children[k], id);
            assert(contains_id(s0, id) || next0 <= id < n);
        }
    }
    assert forall|x: int| 0 <= x < d.len() implies descend(
        s0,
        (#[trigger] d[x]).path.skip(depth),
    ).is_some() by {
        if x < ap.len() {
            assert(d[x] == ap[x]);
        } else {
            assert(d[x] == cp[x - ap.len()]);
        }
    }
}

/// Applying the patches that turn `old` into `new` to a live tree that shows
/// `old` succeeds and leaves a live tree that shows `new`, where the
/// comparison is convergent, no two nodes of the live tree have the same
/// identity, every identity in it has been handed out already, and the
/// identities suffice for the new nodes. The tree that is left has these
/// properties again.
pub proof fn lemma_update_converges(s: LiveState, old: NodeView, new: NodeView)
    requires
        agrees(s.root, old),
        unique(s.root),
        below(s.root, s.next_id as int),
        convergent(old, new),
        s.next_id + demand_total(diff_trees(old, new)) <= u64::MAX,
    ensures
        applied(s, diff_trees(old, new)).error.is_none(),
        agrees(applied(s, diff_trees(old, new)).state.root, new),
        unique(applied(s, diff_trees(old, new)).state.root),
        below(
            applied(s, diff_trees(old, new)).state.root,
            applied(s, diff_trees(old, new)).state.next_id as int,
        ),
        applied(s, diff_trees(old, new)).state.next_id == s.next_id + demand_total(
            diff_trees(old, new),
        ),
{
    let path = seq![0usize];
    let d = diff_trees(old, new);
    lemma_converge_node(s.root, s.next_id, old, new, path);
    lemma_diff_under(old, new, path);
    assert forall|k: int| 0 <= k < d.len() implies resolve(s.root, (#[trigger] d[k]).path)
        == descend(s.root, d[k].path.skip(1)) && descend(s.root, d[k].path.skip(1)).is_some() by {
        let p = d[k].path;
        assert(under(p, path));
        assert(p.take(1)[0] == path[0]);
    }
    let targets = targets_of(s.root, d);
    assert(jobs_from(targets, d, 0) =~= jobs_at(s.root, 1, d));
    lemma_run_performs(s, targets, d, 0);
}

/// A freshly materialized tree shows the tree that it was made from, holds no
/// identity twice, and holds the identities that were handed out for it alone.
pub proof fn lemma_mount_converges(v: NodeView, next: u64)
    requires
        next + count(v) <= u64::MAX,
    ensures
        agrees(materialized(v, next as int), v),
        unique(materialized(v, next as int)),
        below(materialized(v, next as int), next + count(v)),
{
    lemma_materialized_agrees(v, next as int);
    lemma_materialized_unique(v, next as int);
    assert forall|id: u64| #[trigger] contains_id(materialized(v, next as int), id) implies id < next
        + count(v) by {
        lemma_materialized_ids(v, next as int, id);
    }
}

} // verus!
