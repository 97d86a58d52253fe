use vstd::prelude::*;

verus! {

/// A plain value that an attribute or a style property can carry.
#[derive(Debug, PartialEq, Eq)]
pub enum Value {
    Str(String),
    Int(i64),
    Bool(bool),
}

/// The mathematical content of a [`Value`].
pub enum ValueView {
    Str(Seq<char>),
    Int(i64),
    Bool(bool),
}

impl View for Value {
    type V = ValueView;

    open spec fn view(&self) -> ValueView {
        match self {
            Value::Str(s) => ValueView::Str(s@),
            Value::Int(n) => ValueView::Int(*n),
            Value::Bool(b) => ValueView::Bool(*b),
        }
    }
}

impl Value {
    /// A text value.
    pub fn from_str(s: &str) -> (r: Value)
        ensures
            r@ == ValueView::Str(s@),
    {
        Value::Str(s.to_owned())
    }

    /// Whether two values have the same content.
    pub fn same(&self, other: &Value) -> (r: bool)
        ensures
            r == (self@ == other@),
    {
        match (self, other) {
            (Value::Str(a), Value::Str(b)) => *a == *b,
            (Value::Int(a), Value::Int(b)) => *a == *b,
            (Value::Bool(a), Value::Bool(b)) => *a == *b,
            _ => false,
        }
    }
}

impl Clone for Value {
    fn clone(&self) -> (r: Value)
        ensures
            r@ == self@,
    {
        match self {
            Value::Str(s) => Value::Str(s.clone()),
            Value::Int(n) => Value::Int(*n),
            Value::Bool(b) => Value::Bool(*b),
        }
    }
}

/// One declaration of a style attribute: a property and its value.
#[derive(Debug, PartialEq, Eq)]
pub struct Style {
    pub name: String,
    pub value: Value,
}

/// The mathematical content of a [`Style`].
pub struct StyleView {
    pub name: Seq<char>,
    pub value: ValueView,
}

impl View for Style {
    type V = StyleView;

    open spec fn view(&self) -> StyleView {
        StyleView { name: self.name@, value: self.value@ }
    }
}

impl Style {
    /// The declaration `name: value`.
    pub fn new(name: &str, value: &str) -> (r: Style)
        ensures
            r@ == (StyleView { name: name@, value: ValueView::Str(value@) }),
    {
        Style { name: name.to_owned(), value: Value::from_str(value) }
    }

    /// Whether two declarations have the same content.
    pub fn same(&self, other: &Style) -> (r: bool)
        ensures
            r == (self@ == other@),
    {
        self.name == other.name && self.value.same(&other.value)
    }
}

impl Clone for Style {
    fn clone(&self) -> (r: Style)
        ensures
            r@ == self@,
    {
        Style { name: self.name.clone(), value: self.value.clone() }
    }
}

/// The views of a sequence of style declarations, in order.
pub open spec fn styles_view(s: Seq<Style>) -> Seq<StyleView> {
    Seq::new(s.len(), |i: int| s[i]@)
}

/// Whether two lists of style declarations have the same content.
pub fn same_styles(a: &Vec<Style>, b: &Vec<Style>) -> (r: bool)
    ensures
        r == (styles_view(a@) == styles_view(b@)),
{
    if a.len() != b.len() {
        assert(styles_view(a@).len() != styles_view(b@).len());
        return false;
    }
    let mut i: usize = 0;
    while i < a.len()
        invariant
            i <= a.len(),
            a.len() == b.len(),
            forall|k: int| 0 <= k < i ==> a@[k]@ == b@[k]@,
        decreases a.len() - i,
    {
        if !a[i].same(&b[i]) {
            assert(styles_view(a@)[i as int] != styles_view(b@)[i as int]);
            return false;
        }
        i += 1;
    }
    assert(styles_view(a@) =~= styles_view(b@));
    true
}

/// A copy of a list of style declarations.
pub fn clone_styles(a: &Vec<Style>) -> (r: Vec<Style>)
    ensures
        styles_view(r@) == styles_view(a@),
{
    let mut out: Vec<Style> = Vec::new();
    let mut i: usize = 0;
    while i < a.len()
        invariant
            i <= a.len(),
            out.len() == i,
            forall|k: int| 0 <= k < i ==> out@[k]@ == a@[k]@,
        decreases a.len() - i,
    {
        out.push(a[i].clone());
        i += 1;
    }
    assert(styles_view(out@) =~= styles_view(a@));
    out
}

/// The identity of a callback that lives outside the tree.
///
/// Two callbacks are the same exactly when they carry the same identity; what
/// a callback does when it is called is not part of the tree.
#[derive(Debug, PartialEq, Eq, Clone, Copy)]
pub struct Callback {
    pub id: u64,
}

impl Callback {
    /// The callback with the given identity.
    pub fn new(id: u64) -> (r: Callback)
        ensures
            r.id == id,
    {
        Callback { id }
    }
}

/// One value of an attribute.
#[derive(Debug, PartialEq, Eq)]
pub enum AttributeValue {
    /// An ordinary value.
    Plain(Value),
    /// A group of style declarations.
    Style(Vec<Style>),
    /// A listener for the event that the attribute names.
    EventListener(Callback),
    /// A callback that computes a value; never attached as a listener.
    FunctionValue(Callback),
}

/// The mathematical content of an [`AttributeValue`].
pub enum AttributeValueView {
    Plain(ValueView),
    Style(Seq<StyleView>),
    EventListener(u64),
    FunctionValue(u64),
}

impl View for AttributeValue {
    type V = AttributeValueView;

    open spec fn view(&self) -> AttributeValueView {
        match self {
            AttributeValue::Plain(v) => AttributeValueView::Plain(v@),
            AttributeValue::Style(s) => AttributeValueView::Style(styles_view(s@)),
            AttributeValue::EventListener(c) => AttributeValueView::EventListener(c.id),
            AttributeValue::FunctionValue(c) => AttributeValueView::FunctionValue(c.id),
        }
    }
}

impl AttributeValue {
    /// The ordinary value `v`.
    pub fn from_value(v: Value) -> (r: AttributeValue)
        ensures
            r@ == AttributeValueView::Plain(v@),
    {
        AttributeValue::Plain(v)
    }

    /// Whether this value is an event listener.
    pub fn is_event(&self) -> (r: bool)
        ensures
            r == (self@ is EventListener),
    {
        match self {
            AttributeValue::EventListener(_) => true,
            _ => false,
        }
    }

    /// Whether two attribute values have the same content.
    pub fn same(&self, other: &AttributeValue) -> (r: bool)
        ensures
            r == (self@ == other@),
    {
        match (self, other) {
            (AttributeValue::Plain(a), AttributeValue::Plain(b)) => a.same(b),
            (AttributeValue::Style(a), AttributeValue::Style(b)) => same_styles(a, b),
            (AttributeValue::EventListener(a), AttributeValue::EventListener(b)) => a.id == b.id,
            (AttributeValue::FunctionValue(a), AttributeValue::FunctionValue(b)) => a.id == b.id,
            _ => false,
        }
    }
}

impl Clone for AttributeValue {
    fn clone(&self) -> (r: AttributeValue)
        ensures
            r@ == self@,
    {
        match self {
            AttributeValue::Plain(v) => AttributeValue::Plain(v.clone()),
            AttributeValue::Style(s) => AttributeValue::Style(clone_styles(s)),
            AttributeValue::EventListener(c) => AttributeValue::EventListener(*c),
            AttributeValue::FunctionValue(c) => AttributeValue::FunctionValue(*c),
        }
    }
}

/// The views of a sequence of attribute values, in order.
pub open spec fn values_view(s: Seq<AttributeValue>) -> Seq<AttributeValueView> {
    Seq::new(s.len(), |i: int| s[i]@)
}

/// Whether two lists of attribute values have the same content.
pub fn same_values(a: &Vec<AttributeValue>, b: &Vec<AttributeValue>) -> (r: bool)
    ensures
        r == (values_view(a@) == values_view(b@)),
{
    if a.len() != b.len() {
        assert(values_view(a@).len() != values_view(b@).len());
        return false;
    }
    let mut i: usize = 0;
    while i < a.len()
        invariant
            i <= a.len(),
            a.len() == b.len(),
            forall|k: int| 0 <= k < i ==> a@[k]@ == b@[k]@,
        decreases a.len() - i,
    {
        if !a[i].same(&b[i]) {
            assert(values_view(a@)[i as int] != values_view(b@)[i as int]);
            return false;
        }
        i += 1;
    }
    assert(values_view(a@) =~= values_view(b@));
    true
}

/// A copy of a list of attribute values.
pub fn clone_values(a: &Vec<AttributeValue>) -> (r: Vec<AttributeValue>)
    ensures
        values_view(r@) == values_view(a@),
{
    let mut out: Vec<AttributeValue> = Vec::new();
    let mut i: usize = 0;
    while i < a.len()
        invariant
            i <= a.len(),
            out.len() == i,
            forall|k: int| 0 <= k < i ==> out@[k]@ == a@[k]@,
        decreases a.len() - i,
    {
        out.push(a[i].clone());
        i += 1;
    }
    assert(values_view(out@) =~= values_view(a@));
    out
}

} // verus!
