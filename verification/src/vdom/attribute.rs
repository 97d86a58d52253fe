use vstd::prelude::*;
use crate::vdom::value::{clone_values, same_values, values_view, AttributeValue, AttributeValueView};

verus! {

/// A named property of an element, with one value or several.
#[derive(Debug, PartialEq, Eq)]
pub struct Attribute {
    pub namespace: Option<String>,
    pub name: String,
    pub value: Vec<AttributeValue>,
}

/// The mathematical content of an [`Attribute`].
pub struct AttributeView {
    pub namespace: Option<Seq<char>>,
    pub name: Seq<char>,
    pub values: Seq<AttributeValueView>,
}

/// The view of an optional string.
pub open spec fn opt_str_view(s: Option<String>) -> Option<Seq<char>> {
    match s {
        Some(t) => Some(t@),
        None => None,
    }
}

impl View for Attribute {
    type V = AttributeView;

    open spec fn view(&self) -> AttributeView {
        AttributeView {
            namespace: opt_str_view(self.namespace),
            name: self.name@,
            values: values_view(self.value@),
        }
    }
}

/// Whether an attribute binds an event listener: one of its values is a listener.
pub open spec fn is_listener(a: AttributeView) -> bool {
    exists|k: int| 0 <= k < a.values.len() && (#[trigger] a.values[k]) is EventListener
}

/// The views of a sequence of attributes, in order.
pub open spec fn attrs_view(s: Seq<Attribute>) -> Seq<AttributeView> {
    Seq::new(s.len(), |i: int| s[i]@)
}

/// The first position at or after `from` that holds an attribute called `name`,
/// or -1 where there is none.
pub open spec fn name_index(s: Seq<AttributeView>, name: Seq<char>, from: int) -> int
    decreases s.len() - from,
{
    if from < 0 || from >= s.len() {
        -1
    } else if s[from].name == name {
        from
    } else {
        name_index(s, name, from + 1)
    }
}

/// What `name_index` finds is the first attribute of that name.
pub proof fn lemma_name_index(s: Seq<AttributeView>, name: Seq<char>, from: int)
    requires
        0 <= from,
    ensures
        ({
            let r = name_index(s, name, from);
            &&& r == -1 || (from <= r < s.len() && s[r].name == name)
            &&& forall|k: int| from <= k < s.len() && (r == -1 || k < r) ==> (#[trigger] s[k]).name != name
        }),
    decreases s.len() - from,
{
    if from < s.len() && s[from].name != name {
        lemma_name_index(s, name, from + 1);
    }
}

/// `a` with the values of `b` added behind its own.
pub open spec fn joined(a: AttributeView, b: AttributeView) -> AttributeView {
    AttributeView { namespace: a.namespace, name: a.name, values: a.values + b.values }
}

/// `acc` after the declaration `a`: folded into the attribute of the same name
/// where `acc` has one, added at the end otherwise.
pub open spec fn merge_step(acc: Seq<AttributeView>, a: AttributeView) -> Seq<AttributeView> {
    let j = name_index(acc, a.name, 0);
    if j >= 0 {
        acc.update(j, joined(acc[j], a))
    } else {
        acc.push(a)
    }
}

/// The declarations of `s` folded by name: one attribute per name, in the order
/// in which the names first occur, each with the values of all its declarations
/// in the order in which they were made.
pub open spec fn merged(s: Seq<AttributeView>) -> Seq<AttributeView>
    decreases s.len(),
{
    if s.len() == 0 {
        Seq::empty()
    } else {
        merge_step(merged(s.drop_last()), s.last())
    }
}

/// Whether no two attributes of `s` share a name.
pub open spec fn distinct_names(s: Seq<AttributeView>) -> bool {
    forall|i: int, j: int| 0 <= i < j < s.len() ==> (#[trigger] s[i]).name != (#[trigger] s[j]).name
}

/// Folding leaves no name twice.
pub proof fn lemma_merged_distinct(s: Seq<AttributeView>)
    ensures
        distinct_names(merged(s)),
    decreases s.len(),
{
    if s.len() > 0 {
        let acc = merged(s.drop_last());
        let a = s.last();
        lemma_merged_distinct(s.drop_last());
        lemma_name_index(acc, a.name, 0);
        let j = name_index(acc, a.name, 0);
        let m = merged(s);
        if j >= 0 {
            assert forall|x: int, y: int| 0 <= x < y < m.len() implies (#[trigger] m[x]).name != (
            #[trigger] m[y]).name by {
                assert(m[x].name == acc[x].name);
                assert(m[y].name == acc[y].name);
            }
        } else {
            assert forall|x: int, y: int| 0 <= x < y < m.len() implies (#[trigger] m[x]).name != (
            #[trigger] m[y]).name by {
                assert(m[x] == acc[x]);
                if y < acc.len() {
                    assert(m[y] == acc[y]);
                }
            }
        }
    }
}

/// Where no name occurs twice, an attribute is the first of its name.
pub proof fn lemma_distinct_index(s: Seq<AttributeView>, i: int)
    requires
        distinct_names(s),
        0 <= i < s.len(),
    ensures
        name_index(s, s[i].name, 0) == i,
{
    lemma_name_index(s, s[i].name, 0);
}

impl Attribute {
    /// An attribute with a single value.
    pub fn new(namespace: Option<&str>, name: &str, value: AttributeValue) -> (r: Attribute)
        ensures
            r@.name == name@,
            r@.values == seq![value@],
            match namespace {
                Some(ns) => r@.namespace == Some(ns@),
                None => r@.namespace.is_none(),
            },
    {
        let ns: Option<String> = match namespace {
            Some(s) => Some(s.to_owned()),
            None => None,
        };
        let mut value_list: Vec<AttributeValue> = Vec::new();
        value_list.push(value);
        let r = Attribute { namespace: ns, name: name.to_owned(), value: value_list };
        assert(r@.values =~= seq![value@]);
        r
    }

    /// An attribute with the given values, in order.
    pub fn with_multiple_values(
        namespace: Option<&str>,
        name: &str,
        value: Vec<AttributeValue>,
    ) -> (r: Attribute)
        ensures
            r@.name == name@,
            r@.values == values_view(value@),
            match namespace {
                Some(ns) => r@.namespace == Some(ns@),
                None => r@.namespace.is_none(),
            },
    {
        let ns: Option<String> = match namespace {
            Some(s) => Some(s.to_owned()),
            None => None,
        };
        Attribute { namespace: ns, name: name.to_owned(), value }
    }

    /// Whether this attribute binds an event listener.
    pub fn is_event(&self) -> (r: bool)
        ensures
            r == is_listener(self@),
    {
        let mut i: usize = 0;
        while i < self.value.len()
            invariant
                i <= self.value.len(),
                forall|k: int| 0 <= k < i ==> !((#[trigger] self@.values[k]) is EventListener),
            decreases self.value.len() - i,
        {
            if self.value[i].is_event() {
                assert(self@.values[i as int] is EventListener);
                return true;
            }
            i += 1;
        }
        false
    }

    /// Whether two attributes have the same content.
    pub fn same(&self, other: &Attribute) -> (r: bool)
        ensures
            r == (self@ == other@),
    {
        let ns = match (&self.namespace, &other.namespace) {
            (Some(a), Some(b)) => *a == *b,
            (None, None) => true,
            _ => false,
        };
        ns && self.name == other.name && same_values(&self.value, &other.value)
    }
}

impl Clone for Attribute {
    fn clone(&self) -> (r: Attribute)
        ensures
            r@ == self@,
    {
        let ns: Option<String> = match &self.namespace {
            Some(s) => Some(s.clone()),
            None => None,
        };
        Attribute { namespace: ns, name: self.name.clone(), value: clone_values(&self.value) }
    }
}

/// Whether two lists of attributes have the same content.
pub fn same_attributes(a: &Vec<Attribute>, b: &Vec<Attribute>) -> (r: bool)
    ensures
        r == (attrs_view(a@) == attrs_view(b@)),
{
    if a.len() != b.len() {
        assert(attrs_view(a@).len() != attrs_view(b@).len());
        return false;
    }
    let mut i: usize = 0;
    while i < a.len()
        invariant
            i <= a.len(),
            a.len() == b.len(),
            forall|k: int| 0 <= k < i ==> a@[k]@ == b@[k]@,
        decreases a.len() - i,
    {
        if !a[i].same(&b[i]) {
            assert(attrs_view(a@)[i as int] != attrs_view(b@)[i as int]);
            return false;
        }
        i += 1;
    }
    assert(attrs_view(a@) =~= attrs_view(b@));
    true
}

/// A copy of a list of attributes.
pub fn clone_attributes(a: &Vec<Attribute>) -> (r: Vec<Attribute>)
    ensures
        attrs_view(r@) == attrs_view(a@),
{
    let mut out: Vec<Attribute> = Vec::new();
    let mut i: usize = 0;
    while i < a.len()
        invariant
            i <= a.len(),
            out.len() == i,
            forall|k: int| 0 <= k < i ==> out@[k]@ == a@[k]@,
        decreases a.len() - i,
    {
        out.push(a[i].clone());
        i += 1;
    }
    assert(attrs_view(out@) =~= attrs_view(a@));
    out
}

/// The position of the first attribute called `name`, if there is one.
pub fn find_name(attrs: &Vec<Attribute>, name: &String) -> (r: Option<usize>)
    ensures
        match r {
            Some(j) => j < attrs.len() && name_index(attrs_view(attrs@), name@, 0) == j,
            None => name_index(attrs_view(attrs@), name@, 0) == -1,
        },
{
    let mut i: usize = 0;
    while i < attrs.len()
        invariant
            i <= attrs.len(),
            name_index(attrs_view(attrs@), name@, 0) == name_index(attrs_view(attrs@), name@, i as int),
        decreases attrs.len() - i,
    {
        if attrs[i].name == *name {
            return Some(i);
        }
        i += 1;
    }
    None
}

/// Folds the declarations of one element by name.
pub fn merge_attributes(attrs: &Vec<Attribute>) -> (r: Vec<Attribute>)
    ensures
        attrs_view(r@) == merged(attrs_view(attrs@)),
{
    let mut out: Vec<Attribute> = Vec::new();
    let mut i: usize = 0;
    assert(attrs_view(attrs@).take(0) =~= Seq::empty());
    assert(attrs_view(out@) =~= Seq::empty());
    while i < attrs.len()
        invariant
            i <= attrs.len(),
            attrs_view(out@) == merged(attrs_view(attrs@).take(i as int)),
        decreases attrs.len() - i,
    {
        let ghost before = attrs_view(out@);
        let ghost src = attrs_view(attrs@);
        let a = &attrs[i];
        match find_name(&out, &a.name) {
            Some(j) => {
                let ns: Option<String> = match &out[j].namespace {
                    Some(s) => Some(s.clone()),
                    None => None,
                };
                let mut values = clone_values(&out[j].value);
                let mut k: usize = 0;
                while k < a.value.len()
                    invariant
                        k <= a.value.len(),
                        j < before.len(),
                        values_view(values@) == before[j as int].values + a@.values.take(k as int),
                    decreases a.value.len() - k,
                {
                    let ghost prev = values_view(values@);
                    values.push(a.value[k].clone());
                    assert(values_view(values@) =~= prev.push(a@.values[k as int]));
                    assert(a@.values.take(k as int + 1) =~= a@.values.take(k as int).push(
                        a@.values[k as int],
                    ));
                    k += 1;
                }
                assert(a@.values.take(k as int) =~= a@.values);
                let folded = Attribute { namespace: ns, name: out[j].name.clone(), value: values };
                out.set(j, folded);
                assert(attrs_view(out@) =~= before.update(j as int, joined(before[j as int], a@)));
            },
            None => {
                out.push(a.clone());
                assert(attrs_view(out@) =~= before.push(a@));
            },
        }
        assert(src.take(i as int + 1).drop_last() =~= src.take(i as int));
        assert(src.take(i as int + 1).last() == a@);
        i += 1;
    }
    assert(attrs_view(attrs@).take(i as int) =~= attrs_view(attrs@));
    out
}

} // verus!
