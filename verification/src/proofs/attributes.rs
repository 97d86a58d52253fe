use vstd::prelude::*;
use crate::diff::model::{changed_attrs, dropped_attrs, is_changed, listener_names};
use crate::dom::live::ListenerView;
use crate::dom::model::{
    attached, listeners_in, pick_listeners, plain_names, set_all, set_attr, unset_all,
};
use crate::vdom::attribute::{
    distinct_names, is_listener, joined, lemma_name_index, merged, name_index, AttributeView,
};
use crate::vdom::value::AttributeValueView;

verus! {

/// The values that are set under `name`, where an attribute of that name is set.
pub open spec fn value_of(attrs: Seq<AttributeView>, name: Seq<char>) -> Option<
    Seq<AttributeValueView>,
> {
    let j = name_index(attrs, name, 0);
    if j >= 0 {
        Some(attrs[j].values)
    } else {
        None
    }
}

/// The values that the folded declarations `m` give the plain attribute `name`;
/// nothing where they declare no such attribute or bind a listener with it.
pub open spec fn plain_value(m: Seq<AttributeView>, name: Seq<char>) -> Option<
    Seq<AttributeValueView>,
> {
    let j = name_index(m, name, 0);
    if j >= 0 && !is_listener(m[j]) {
        Some(m[j].values)
    } else {
        None
    }
}

/// The values of the last attribute of `attrs` called `name` that binds no listener.
pub open spec fn last_plain(attrs: Seq<AttributeView>, name: Seq<char>) -> Option<
    Seq<AttributeValueView>,
>
    decreases attrs.len(),
{
    if attrs.len() == 0 {
        None
    } else if !is_listener(attrs.last()) && attrs.last().name == name {
        Some(attrs.last().values)
    } else {
        last_plain(attrs.drop_last(), name)
    }
}

/// The first attribute of a name in a list with one more attribute at its end.
pub proof fn lemma_index_push(s: Seq<AttributeView>, a: AttributeView, name: Seq<char>)
    ensures
        name_index(s.push(a), name, 0) == if name_index(s, name, 0) >= 0 {
            name_index(s, name, 0)
        } else if a.name == name {
            s.len() as int
        } else {
            -1
        },
{
    lemma_name_index(s, name, 0);
    lemma_name_index(s.push(a), name, 0);
    let r = name_index(s.push(a), name, 0);
    let r0 = name_index(s, name, 0);
    if r0 >= 0 {
        assert(s.push(a)[r0].name == name);
        if r >= 0 && r < s.len() {
            assert(s.push(a)[r] == s[r]);
        }
    } else {
        if r >= 0 && r < s.len() {
            assert(s.push(a)[r] == s[r]);
        }
        if a.name == name {
            assert(s.push(a)[s.len() as int].name == name);
        }
    }
}

/// The first attribute of a name in a list in which one attribute was
/// replaced by one of the same name.
pub proof fn lemma_index_update(s: Seq<AttributeView>, j: int, a: AttributeView, name: Seq<char>)
    requires
        0 <= j < s.len(),
        s[j].name == a.name,
    ensures
        name_index(s.update(j, a), name, 0) == name_index(s, name, 0),
{
    let t = s.update(j, a);
    lemma_name_index(s, name, 0);
    lemma_name_index(t, name, 0);
    let r = name_index(t, name, 0);
    let r0 = name_index(s, name, 0);
    assert forall|k: int| 0 <= k < s.len() implies (#[trigger] t[k]).name == s[k].name by {}
    if r0 >= 0 {
        assert(t[r0].name == name);
    }
    if r >= 0 {
        assert(s[r].name == name);
    }
}

/// What is set under a name after one attribute has been set.
pub proof fn lemma_value_set_attr(cur: Seq<AttributeView>, a: AttributeView, name: Seq<char>)
    ensures
        value_of(set_attr(cur, a), name) == if a.name == name {
            Some(a.values)
        } else {
            value_of(cur, name)
        },
{
    let j = name_index(cur, a.name, 0);
    lemma_name_index(cur, a.name, 0);
    lemma_name_index(cur, name, 0);
    let r0 = name_index(cur, name, 0);
    if j >= 0 {
        lemma_index_update(cur, j, a, name);
        if a.name == name {
            assert(cur.update(j, a)[j] == a);
        } else if r0 >= 0 {
            assert(cur.update(j, a)[r0] == cur[r0]);
        }
    } else {
        lemma_index_push(cur, a, name);
        if r0 >= 0 {
            assert(cur[r0].name != a.name);
            assert(cur.push(a)[r0] == cur[r0]);
        } else if a.name == name {
            assert(cur.push(a)[cur.len() as int] == a);
        }
    }
}

/// What is set under a name after attributes have been set: the values of the
/// last of them with that name, and what was set before where there is none.
pub proof fn lemma_value_set_all(cur: Seq<AttributeView>, attrs: Seq<AttributeView>, name: Seq<char>)
    ensures
        value_of(set_all(cur, attrs), name) == match last_plain(attrs, name) {
            Some(v) => Some(v),
            None => value_of(cur, name),
        },
    decreases attrs.len(),
{
    if attrs.len() > 0 {
        lemma_value_set_all(cur, attrs.drop_last(), name);
        if !is_listener(attrs.last()) {
            lemma_value_set_attr(set_all(cur, attrs.drop_last()), attrs.last(), name);
        }
    }
}

/// What is set under a name after the attributes of some names have been unset.
pub proof fn lemma_value_unset_all(cur: Seq<AttributeView>, names: Set<Seq<char>>, name: Seq<char>)
    ensures
        value_of(unset_all(cur, names), name) == if names.contains(name) {
            None
        } else {
            value_of(cur, name)
        },
    decreases cur.len(),
{
    if cur.len() > 0 {
        let init = cur.drop_last();
        let a = cur.last();
        lemma_value_unset_all(init, names, name);
        assert(cur =~= init.push(a));
        lemma_index_push(init, a, name);
        if !names.contains(a.name) {
            lemma_index_push(unset_all(init, names), a, name);
            lemma_name_index(unset_all(init, names), name, 0);
            lemma_name_index(init, name, 0);
        } else {
            lemma_name_index(init, name, 0);
        }
    } else {
        lemma_name_index(cur, name, 0);
    }
}

/// Among attributes with distinct names the last plain one of a name is the one of that name.
pub proof fn lemma_last_plain_distinct(m: Seq<AttributeView>, name: Seq<char>)
    requires
        distinct_names(m),
    ensures
        last_plain(m, name) == plain_value(m, name),
    decreases m.len(),
{
    lemma_name_index(m, name, 0);
    if m.len() > 0 {
        let init = m.drop_last();
        let a = m.last();
        assert(m =~= init.push(a));
        assert(distinct_names(init)) by {
            assert forall|i: int, j: int| 0 <= i < j < init.len() implies (#[trigger] init[i]).name != (
            #[trigger] init[j]).name by {
                assert(m[i].name != m[j].name);
            }
        }
        lemma_last_plain_distinct(init, name);
        lemma_index_push(init, a, name);
        lemma_name_index(init, name, 0);
        if a.name == name {
            let r = name_index(init, name, 0);
            if r >= 0 {
                assert(m[r].name != m[m.len() - 1].name);
            }
        }
    }
}

/// The attributes of a new element that have to be set are those that changed.
pub proof fn lemma_last_plain_changed(
    old: Seq<AttributeView>,
    new: Seq<AttributeView>,
    k: int,
    name: Seq<char>,
)
    requires
        distinct_names(new),
        0 <= k <= new.len(),
    ensures
        last_plain(changed_attrs(old, new.take(k)), name) == ({
            let j = name_index(new.take(k), name, 0);
            if j >= 0 && is_changed(old, new[j]) {
                Some(new[j].values)
            } else {
                None
            }
        }),
    decreases k,
{
    let pre = new.take(k);
    lemma_name_index(pre, name, 0);
    if k > 0 {
        let init = new.take(k - 1);
        let a = new[k - 1];
        assert(pre.drop_last() =~= init);
        assert(pre.last() == a);
        assert(pre =~= init.push(a));
        lemma_last_plain_changed(old, new, k - 1, name);
        lemma_index_push(init, a, name);
        lemma_name_index(init, name, 0);
        let r = name_index(init, name, 0);
        let c0 = changed_attrs(old, init);
        if is_changed(old, a) {
            assert(changed_attrs(old, pre) == c0.push(a));
            assert(c0.push(a).drop_last() =~= c0);
            assert(c0.push(a).last() == a);
        } else {
            assert(changed_attrs(old, pre) == c0);
        }
        if r >= 0 {
            assert(init[r] == new[r]);
            if a.name == name {
                assert(new[r].name != new[k - 1].name);
            }
        }
    } else {
        assert(pre.len() == 0);
    }
}

/// The names that are unset are those of the plain attributes that the old
/// element has and the new one lacks.
pub proof fn lemma_dropped_names(
    old: Seq<AttributeView>,
    new: Seq<AttributeView>,
    k: int,
    name: Seq<char>,
)
    requires
        0 <= k <= old.len(),
    ensures
        plain_names(dropped_attrs(old.take(k), new)).contains(name) <==> (exists|i: int|
            0 <= i < k && (#[trigger] old[i]).name == name && !is_listener(old[i]) && name_index(
                new,
                name,
                0,
            ) < 0),
        listener_names(dropped_attrs(old.take(k), new)).contains(name) <==> (exists|i: int|
            0 <= i < k && (#[trigger] old[i]).name == name && is_listener(old[i]) && name_index(
                new,
                name,
                0,
            ) < 0),
    decreases k,
{
    let pre = old.take(k);
    let d = dropped_attrs(pre, new);
    if k > 0 {
        let init = old.take(k - 1);
        let a = old[k - 1];
        assert(pre.drop_last() =~= init);
        assert(pre.last() == a);
        lemma_dropped_names(old, new, k - 1, name);
        let d0 = dropped_attrs(init, new);
        if name_index(new, a.name, 0) < 0 {
            assert(d == d0.push(a));
            assert(d[d0.len() as int] == a);
            assert forall|i: int| 0 <= i < d0.len() implies d[i] == d0[i] by {}
            if plain_names(d).contains(name) {
                let i = choose|i: int|
                    0 <= i < d.len() && !is_listener(#[trigger] d[i]) && d[i].name == name;
                if i < d0.len() {
                    assert(d0[i] == d[i]);
                    assert(plain_names(d0).contains(name));
                } else {
                    assert(old[k - 1].name == name);
                }
            }
            if listener_names(d).contains(name) {
                let i = choose|i: int|
                    0 <= i < d.len() && is_listener(#[trigger] d[i]) && d[i].name == name;
                if i < d0.len() {
                    assert(d0[i] == d[i]);
                    assert(listener_names(d0).contains(name));
                } else {
                    assert(old[k - 1].name == name);
                }
            }
            if plain_names(d0).contains(name) {
                let i = choose|i: int|
                    0 <= i < d0.len() && !is_listener(#[trigger] d0[i]) && d0[i].name == name;
                assert(d[i] == d0[i]);
            }
            if listener_names(d0).contains(name) {
                let i = choose|i: int|
                    0 <= i < d0.len() && is_listener(#[trigger] d0[i]) && d0[i].name == name;
                assert(d[i] == d0[i]);
            }
        } else {
            assert(d == d0);
        }
    } else {
        assert(pre.len() == 0);
    }
}

/// Values without a listener among them bind no listener.
pub proof fn lemma_listeners_in_plain(event: Seq<char>, values: Seq<AttributeValueView>)
    requires
        forall|k: int| 0 <= k < values.len() ==> !((#[trigger] values[k]) is EventListener),
    ensures
        listeners_in(event, values) == Seq::<ListenerView>::empty(),
    decreases values.len(),
{
    if values.len() > 0 {
        assert(!(values[values.len() - 1] is EventListener));
        lemma_listeners_in_plain(event, values.drop_last());
    }
}

/// Attributes of which none binds a listener attach no listener.
pub proof fn lemma_attached_plain(attrs: Seq<AttributeView>)
    requires
        forall|i: int| 0 <= i < attrs.len() ==> !is_listener(#[trigger] attrs[i]),
    ensures
        attached(attrs) == Seq::<ListenerView>::empty(),
    decreases attrs.len(),
{
    if attrs.len() > 0 {
        lemma_attached_plain(attrs.drop_last());
        let a = attrs.last();
        assert(!is_listener(attrs[attrs.len() - 1]));
        lemma_listeners_in_plain(a.name, a.values);
        assert(attached(attrs) =~= Seq::<ListenerView>::empty());
    }
}

/// None of the attributes that have to be set binds a listener.
pub proof fn lemma_changed_plain(old: Seq<AttributeView>, new: Seq<AttributeView>)
    ensures
        forall|i: int|
            0 <= i < changed_attrs(old, new).len() ==> !is_listener(
                #[trigger] changed_attrs(old, new)[i],
            ),
    decreases new.len(),
{
    if new.len() > 0 {
        lemma_changed_plain(old, new.drop_last());
        let c = changed_attrs(old, new);
        let c0 = changed_attrs(old, new.drop_last());
        assert forall|i: int| 0 <= i < c.len() implies !is_listener(#[trigger] c[i]) by {
            if i < c0.len() {
                assert(c[i] == c0[i]);
            }
        }
    }
}

/// Picking the listeners for no event at all keeps none, and dropping them keeps all.
pub proof fn lemma_pick_none(ls: Seq<ListenerView>, events: Set<Seq<char>>)
    requires
        forall|n: Seq<char>| !events.contains(n),
    ensures
        pick_listeners(ls, events, false) == ls,
    decreases ls.len(),
{
    if ls.len() > 0 {
        lemma_pick_none(ls.drop_last(), events);
        assert(ls.drop_last().push(ls.last()) =~= ls);
    }
}

/// An attribute that took the values of another one in binds a listener where
/// one of the two does.
pub proof fn lemma_joined_listener(x: AttributeView, a: AttributeView)
    ensures
        is_listener(joined(x, a)) <==> (is_listener(x) || is_listener(a)),
{
    let v = joined(x, a).values;
    if is_listener(x) {
        let k = choose|k: int| 0 <= k < x.values.len() && (#[trigger] x.values[k]) is EventListener;
        assert(v[k] is EventListener);
    }
    if is_listener(a) {
        let k = choose|k: int| 0 <= k < a.values.len() && (#[trigger] a.values[k]) is EventListener;
        assert(v[x.values.len() + k] is EventListener);
    }
    if is_listener(joined(x, a)) {
        let k = choose|k: int| 0 <= k < v.len() && (#[trigger] v[k]) is EventListener;
        if k < x.values.len() {
            assert(x.values[k] is EventListener);
        } else {
            assert(a.values[k - x.values.len()] is EventListener);
        }
    }
}

/// Folding keeps the events that are listened to.
pub proof fn lemma_merged_listeners(s: Seq<AttributeView>, n: Seq<char>)
    ensures
        listener_names(merged(s)).contains(n) <==> listener_names(s).contains(n),
    decreases s.len(),
{
    if s.len() > 0 {
        let init = s.drop_last();
        let a = s.last();
        let acc = merged(init);
        let m = merged(s);
        let j = name_index(acc, a.name, 0);
        lemma_merged_listeners(init, n);
        lemma_name_index(acc, a.name, 0);
        if j >= 0 {
            lemma_joined_listener(acc[j], a);
        }
        if listener_names(m).contains(n) {
            let i = choose|i: int| 0 <= i < m.len() && is_listener(#[trigger] m[i]) && m[i].name == n;
            if j >= 0 && i == j {
                if is_listener(acc[j]) {
                    assert(listener_names(acc).contains(n));
                } else {
                    assert(is_listener(s[s.len() - 1]) && s[s.len() - 1].name == n);
                }
            } else if i < acc.len() {
                assert(m[i] == acc[i]);
                assert(listener_names(acc).contains(n));
            } else {
                assert(is_listener(s[s.len() - 1]) && s[s.len() - 1].name == n);
            }
            if listener_names(init).contains(n) {
                let w = choose|w: int|
                    0 <= w < init.len() && is_listener(#[trigger] init[w]) && init[w].name == n;
                assert(s[w] == init[w]);
            }
        }
        if listener_names(s).contains(n) {
            let i = choose|i: int| 0 <= i < s.len() && is_listener(#[trigger] s[i]) && s[i].name == n;
            if i < init.len() {
                assert(init[i] == s[i]);
                assert(listener_names(init).contains(n));
                let w = choose|w: int|
                    0 <= w < acc.len() && is_listener(#[trigger] acc[w]) && acc[w].name == n;
                if j >= 0 && w == j {
                    assert(is_listener(m[j]) && m[j].name == n);
                } else {
                    assert(m[w] == acc[w]);
                }
            } else {
                if j >= 0 {
                    assert(is_listener(m[j]) && m[j].name == n);
                } else {
                    assert(m[acc.len() as int] == a);
                    assert(is_listener(m[acc.len() as int]) && m[acc.len() as int].name == n);
                }
            }
        }
    }
}

/// The events that the listeners `ls` are attached for.
pub open spec fn events_of(ls: Seq<ListenerView>) -> Set<Seq<char>> {
    Set::new(|n: Seq<char>| exists|k: int| 0 <= k < ls.len() && (#[trigger] ls[k]).event == n)
}

/// The listeners that the values of an attribute bind are all for its event,
/// and there is one exactly where one of the values is a listener.
pub proof fn lemma_listeners_in(a: AttributeView)
    ensures
        forall|k: int|
            0 <= k < listeners_in(a.name, a.values).len() ==> (#[trigger] listeners_in(
                a.name,
                a.values,
            )[k]).event == a.name,
        listeners_in(a.name, a.values).len() > 0 <==> is_listener(a),
    decreases a.values.len(),
{
    if a.values.len() > 0 {
        let init = AttributeView { values: a.values.drop_last(), ..a };
        lemma_listeners_in(init);
        let li = listeners_in(a.name, a.values);
        let l0 = listeners_in(a.name, init.values);
        assert forall|k: int| 0 <= k < li.len() implies (#[trigger] li[k]).event == a.name by {
            if k < l0.len() {
                assert(li[k] == l0[k]);
            }
        }
        if is_listener(init) {
            let k = choose|k: int|
                0 <= k < init.values.len() && (#[trigger] init.values[k]) is EventListener;
            assert(a.values[k] is EventListener);
        }
        if a.values.last() is EventListener {
            assert(a.values[a.values.len() - 1] is EventListener);
        }
        if is_listener(a) {
            let k = choose|k: int| 0 <= k < a.values.len() && (#[trigger] a.values[k]) is EventListener;
            if k < init.values.len() {
                assert(init.values[k] is EventListener);
            }
        }
    }
}

/// The listeners that attributes attach are for the events that the
/// attributes listen to.
pub proof fn lemma_attached_events(m: Seq<AttributeView>, n: Seq<char>)
    ensures
        events_of(attached(m)).contains(n) <==> listener_names(m).contains(n),
    decreases m.len(),
{
    if m.len() > 0 {
        let init = m.drop_last();
        let a = m.last();
        lemma_attached_events(init, n);
        lemma_listeners_in(a);
        let l0 = attached(init);
        let l1 = listeners_in(a.name, a.values);
        let all = attached(m);
        if events_of(all).contains(n) {
            let k = choose|k: int| 0 <= k < all.len() && (#[trigger] all[k]).event == n;
            if k < l0.len() {
                assert(l0[k] == all[k]);
                assert(events_of(l0).contains(n));
                let w = choose|w: int|
                    0 <= w < init.len() && is_listener(#[trigger] init[w]) && init[w].name == n;
                assert(m[w] == init[w]);
            } else {
                assert(all[k] == l1[k - l0.len()]);
                assert(is_listener(m[m.len() - 1]) && m[m.len() - 1].name == n);
            }
        }
        if listener_names(m).contains(n) {
            let i = choose|i: int| 0 <= i < m.len() && is_listener(#[trigger] m[i]) && m[i].name == n;
            if i < init.len() {
                assert(init[i] == m[i]);
                assert(listener_names(init).contains(n));
                let k = choose|k: int| 0 <= k < l0.len() && (#[trigger] l0[k]).event == n;
                assert(all[k] == l0[k]);
            } else {
                assert(all[l0.len() as int] == l1[0]);
                assert(all[l0.len() as int].event == n);
            }
        }
    }
}

/// The attribute patches bring the attributes that are set on a live element
/// from those of the old element to those of the new one, and take no listener
/// away.
pub proof fn lemma_attrs_converge(
    live: Seq<AttributeView>,
    old: Seq<AttributeView>,
    new: Seq<AttributeView>,
    name: Seq<char>,
)
    requires
        forall|x: Seq<char>| value_of(live, x) == #[trigger] plain_value(merged(old), x),
        listener_names(old) == listener_names(new),
    ensures
        value_of(
            unset_all(
                set_all(live, changed_attrs(merged(old), merged(new))),
                plain_names(dropped_attrs(merged(old), merged(new))),
            ),
            name,
        ) == plain_value(merged(new), name),
        !listener_names(dropped_attrs(merged(old), merged(new))).contains(name),
{
    let mo = merged(old);
    let mn = merged(new);
    let add = changed_attrs(mo, mn);
    let rem = dropped_attrs(mo, mn);
    crate::vdom::attribute::lemma_merged_distinct(old);
    crate::vdom::attribute::lemma_merged_distinct(new);
    lemma_value_set_all(live, add, name);
    lemma_value_unset_all(set_all(live, add), plain_names(rem), name);
    lemma_last_plain_changed(mo, mn, mn.len() as int, name);
    assert(mn.take(mn.len() as int) =~= mn);
    lemma_dropped_names(mo, mn, mo.len() as int, name);
    assert(mo.take(mo.len() as int) =~= mo);
    lemma_name_index(mo, name, 0);
    lemma_name_index(mn, name, 0);
    lemma_merged_listeners(old, name);
    lemma_merged_listeners(new, name);
    assert(value_of(live, name) == plain_value(mo, name));
    let i = name_index(mo, name, 0);
    let j = name_index(mn, name, 0);
    assert(listener_names(mo).contains(name) == listener_names(mn).contains(name));
    if i >= 0 {
        assert forall|w: int| 0 <= w < mo.len() && (#[trigger] mo[w]).name == name implies w == i by {
            if w < i {
                assert(mo[w].name != mo[i].name);
            }
            if i < w {
                assert(mo[i].name != mo[w].name);
            }
        }
        if is_listener(mo[i]) {
            assert(listener_names(mo).contains(name));
        }
    }
    if j >= 0 {
        assert forall|w: int| 0 <= w < mn.len() && (#[trigger] mn[w]).name == name implies w == j by {
            if w < j {
                assert(mn[w].name != mn[j].name);
            }
            if j < w {
                assert(mn[j].name != mn[w].name);
            }
        }
        if is_listener(mn[j]) {
            assert(listener_names(mn).contains(name));
        }
    }
    if listener_names(mo).contains(name) {
        let w = choose|w: int| 0 <= w < mo.len() && is_listener(#[trigger] mo[w]) && mo[w].name == name;
        assert(w == i);
    }
    if listener_names(mn).contains(name) {
        let w = choose|w: int| 0 <= w < mn.len() && is_listener(#[trigger] mn[w]) && mn[w].name == name;
        assert(w == j);
    }
}

} // verus!
