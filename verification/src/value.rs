use vstd::prelude::*;

verus! {

/// The mathematical shape of a [`Value`]: strings are sequences of
/// characters, the container variants are sequences.
pub enum ValueView {
    Text(Seq<char>),
    Unsigned64(u64),
    Signed64(i64),
    Float64(u64),
    List(Seq<ValueView>),
    Mapping(Seq<(Seq<char>, ValueView)>),
}

impl ValueView {
    /// Structural validity of a payload shape: every mapping's keys
    /// are pairwise distinct, at every nesting depth. Scalars and text
    /// are always valid; lists and mappings are valid when their
    /// elements are.
    pub open spec fn wf(self) -> bool
        decreases self,
    {
        match self {
            ValueView::List(items) => Self::list_wf(items),
            ValueView::Mapping(pairs) => (forall|i: int, j: int|
                0 <= i < j < pairs.len() ==> pairs[i].0 != pairs[j].0) && Self::mapping_wf(
                pairs,
            ),
            _ => true,
        }
    }

    /// Every element of a list payload is valid.
    pub open spec fn list_wf(items: Seq<ValueView>) -> bool
        decreases items,
    {
        items.len() == 0 || (items[0].wf() && Self::list_wf(
            items.subrange(1, items.len() as int),
        ))
    }

    /// Every entry's value in a mapping payload is valid.
    pub open spec fn mapping_wf(pairs: Seq<(Seq<char>, ValueView)>) -> bool
        decreases pairs,
    {
        pairs.len() == 0 || (pairs[0].1.wf() && Self::mapping_wf(
            pairs.subrange(1, pairs.len() as int),
        ))
    }
}

/// The payload carried by a node: a closed, recursively structured
/// scalar/container type. Immutable once constructed; arbitrary nesting
/// is allowed through `List` and `Mapping`.
///
/// `Float64` holds the IEEE-754 bit pattern of the number, so a payload
/// round-trips without loss; callers convert at the boundary with
/// `f64::to_bits` and `f64::from_bits`. `Mapping` holds its entries as a
/// list of pairs; keys are expected to be unique.
#[derive(Debug, PartialEq)]
pub enum Value {
    Text(String),
    Unsigned64(u64),
    Signed64(i64),
    Float64(u64),
    List(Vec<Value>),
    Mapping(Vec<(String, Value)>),
}

impl Value {
    /// Structural validity of the payload: every mapping's keys are
    /// pairwise distinct, at every nesting depth.
    pub open spec fn wf(self) -> bool {
        self.deep().wf()
    }

    /// The [`ValueView`] that this value denotes.
    pub open spec fn deep(self) -> ValueView
        decreases self,
    {
        match self {
            Value::Text(s) => ValueView::Text(s@),
            Value::Unsigned64(u) => ValueView::Unsigned64(u),
            Value::Signed64(s) => ValueView::Signed64(s),
            Value::Float64(bits) => ValueView::Float64(bits),
            Value::List(items) => ValueView::List(Self::list_deep(items@)),
            Value::Mapping(pairs) => ValueView::Mapping(Self::mapping_deep(pairs@)),
        }
    }

    /// The views of the elements of a list payload, in order.
    pub open spec fn list_deep(items: Seq<Value>) -> Seq<ValueView>
        decreases items,
    {
        if items.len() <= 0 {
            Seq::empty()
        } else {
            seq![items[0].deep()] + Self::list_deep(items.subrange(1, items.len() as int))
        }
    }

    /// The views of the entries of a mapping payload, in order.
    pub open spec fn mapping_deep(pairs: Seq<(String, Value)>) -> Seq<(Seq<char>, ValueView)>
        decreases pairs,
    {
        if pairs.len() <= 0 {
            Seq::empty()
        } else {
            seq![(pairs[0].0@, pairs[0].1.deep())] + Self::mapping_deep(
                pairs.subrange(1, pairs.len() as int),
            )
        }
    }

    /// `list_deep` is the element-wise view of its argument.
    pub proof fn lemma_list_deep(items: Seq<Value>)
        ensures
            Self::list_deep(items).len() == items.len(),
            forall|i: int|
                0 <= i < items.len() ==> Self::list_deep(items)[i] == items[i].deep(),
        decreases items.len(),
    {
        if items.len() > 0 {
            let rest = items.subrange(1, items.len() as int);
            Self::lemma_list_deep(rest);
            assert forall|i: int|
                0 <= i < items.len() implies Self::list_deep(items)[i] == items[i].deep() by {
                if i > 0 {
                    assert(rest[i - 1] == items[i]);
                }
            }
        }
    }

    /// `mapping_deep` is the entry-wise view of its argument.
    pub proof fn lemma_mapping_deep(pairs: Seq<(String, Value)>)
        ensures
            Self::mapping_deep(pairs).len() == pairs.len(),
            forall|i: int|
                0 <= i < pairs.len() ==> Self::mapping_deep(pairs)[i] == (
                pairs[i].0@,
                pairs[i].1.deep(),
                ),
        decreases pairs.len(),
    {
        if pairs.len() > 0 {
            let rest = pairs.subrange(1, pairs.len() as int);
            Self::lemma_mapping_deep(rest);
            assert forall|i: int|
                0 <= i < pairs.len() implies Self::mapping_deep(pairs)[i] == (
                pairs[i].0@,
                pairs[i].1.deep(),
            ) by {
                if i > 0 {
                    assert(rest[i - 1] == pairs[i]);
                }
            }
        }
    }

    /// Structural deep copy: the copy denotes the same [`ValueView`].
    pub fn duplicate(&self) -> (r: Value)
        ensures
            r@ == self@,
        decreases *self,
    {
        match self {
            Value::Text(s) => Value::Text(s.clone()),
            Value::Unsigned64(u) => Value::Unsigned64(*u),
            Value::Signed64(s) => Value::Signed64(*s),
            Value::Float64(bits) => Value::Float64(*bits),
            Value::List(items) => {
                proof {
                    assert(decreases_to!(*self => (*self)->List_0));
                    assert(*items == (*self)->List_0);
                    assert(decreases_to!(*items => items@));
                }
                let out = Self::duplicate_list(items);
                proof {
                    Self::lemma_list_deep(out@);
                    Self::lemma_list_deep(items@);
                    assert(Self::list_deep(out@) =~= Self::list_deep(items@));
                }
                Value::List(out)
            },
            Value::Mapping(pairs) => {
                proof {
                    assert(decreases_to!(*self => (*self)->Mapping_0));
                    assert(*pairs == (*self)->Mapping_0);
                    assert(decreases_to!(*pairs => pairs@));
                }
                let out = Self::duplicate_mapping(pairs);
                proof {
                    Self::lemma_mapping_deep(out@);
                    Self::lemma_mapping_deep(pairs@);
                    assert(Self::mapping_deep(out@) =~= Self::mapping_deep(pairs@));
                }
                Value::Mapping(out)
            },
        }
    }

    fn duplicate_list(items: &Vec<Value>) -> (r: Vec<Value>)
        ensures
            r@.len() == items@.len(),
            forall|j: int| 0 <= j < items@.len() ==> r@[j].deep() == items@[j].deep(),
        decreases items@,
    {
        let mut out: Vec<Value> = Vec::new();
        let mut i: usize = 0;
        while i < items.len()
            invariant
                i <= items.len(),
                out@.len() == i as int,
                forall|j: int| 0 <= j < i ==> out@[j].deep() == items@[j].deep(),
            decreases items.len() - i,
        {
            proof {
                assert(decreases_to!(items@ => items@[i as int]));
            }
            out.push(items[i].duplicate());
            i = i + 1;
        }
        out
    }

    fn duplicate_mapping(pairs: &Vec<(String, Value)>) -> (r: Vec<(String, Value)>)
        ensures
            r@.len() == pairs@.len(),
            forall|j: int|
                0 <= j < pairs@.len() ==> r@[j].0@ == pairs@[j].0@ && r@[j].1.deep()
                    == pairs@[j].1.deep(),
        decreases pairs@,
    {
        let mut out: Vec<(String, Value)> = Vec::new();
        let mut i: usize = 0;
        while i < pairs.len()
            invariant
                i <= pairs.len(),
                out@.len() == i as int,
                forall|j: int|
                    0 <= j < i ==> out@[j].0@ == pairs@[j].0@ && out@[j].1.deep()
                        == pairs@[j].1.deep(),
            decreases pairs.len() - i,
        {
            let entry = &pairs[i];
            proof {
                assert(decreases_to!(pairs@ => pairs@[i as int]));
                assert(decreases_to!(pairs@[i as int] => pairs@[i as int].1));
                assert(*entry == pairs@[i as int]);
            }
            out.push((entry.0.clone(), entry.1.duplicate()));
            i = i + 1;
        }
        out
    }
}

impl View for Value {
    type V = ValueView;

    open spec fn view(&self) -> ValueView {
        self.deep()
    }
}

impl From<u64> for Value {
    fn from(unsigned: u64) -> Self {
        Value::Unsigned64(unsigned)
    }
}

impl vstd::std_specs::convert::FromSpecImpl<u64> for Value {
    open spec fn obeys_from_spec() -> bool {
        true
    }

    open spec fn from_spec(unsigned: u64) -> Self {
        Value::Unsigned64(unsigned)
    }
}

impl From<i64> for Value {
    fn from(signed: i64) -> Self {
        Value::Signed64(signed)
    }
}

impl vstd::std_specs::convert::FromSpecImpl<i64> for Value {
    open spec fn obeys_from_spec() -> bool {
        true
    }

    open spec fn from_spec(signed: i64) -> Self {
        Value::Signed64(signed)
    }
}

impl From<String> for Value {
    fn from(string: String) -> Self {
        Value::Text(string)
    }
}

impl vstd::std_specs::convert::FromSpecImpl<String> for Value {
    open spec fn obeys_from_spec() -> bool {
        true
    }

    open spec fn from_spec(string: String) -> Self {
        Value::Text(string)
    }
}

impl From<&str> for Value {
    fn from(slice: &str) -> (r: Self)
        ensures
            r@ == ValueView::Text(slice@),
    {
        Value::Text(slice.to_string())
    }
}

impl vstd::std_specs::convert::FromSpecImpl<&str> for Value {
    open spec fn obeys_from_spec() -> bool {
        // Spec equality of `String` is not determined by its view, so
        // `from_spec` cannot name the one `String` the conversion
        // builds. The result is pinned instead by the `ensures` on the
        // conversion itself: the view is the slice's text.
        false
    }

    open spec fn from_spec(slice: &str) -> Self {
        Value::Text(choose|s: String| s@ == slice@)
    }
}

impl From<Vec<Value>> for Value {
    fn from(vector: Vec<Value>) -> Self {
        Value::List(vector)
    }
}

impl vstd::std_specs::convert::FromSpecImpl<Vec<Value>> for Value {
    open spec fn obeys_from_spec() -> bool {
        true
    }

    open spec fn from_spec(vector: Vec<Value>) -> Self {
        Value::List(vector)
    }
}

impl From<Vec<(String, Value)>> for Value {
    fn from(entries: Vec<(String, Value)>) -> Self {
        Value::Mapping(entries)
    }
}

impl vstd::std_specs::convert::FromSpecImpl<Vec<(String, Value)>> for Value {
    open spec fn obeys_from_spec() -> bool {
        true
    }

    open spec fn from_spec(entries: Vec<(String, Value)>) -> Self {
        Value::Mapping(entries)
    }
}

} // verus!
