//! Values: tagged trees that mirror the shape of a schema.

use crate::schema::Schema;
use vstd::prelude::*;

verus! {

/// A value, as a tree that owns its children.
#[derive(Debug, PartialEq, Eq)]
pub enum Value {
    Boolean(bool),
    Integer(i64),
    /// The index of an enumeration's value: root values first, from zero,
    /// extension values after them.
    Enumerated(usize),
    OctetString(Vec<u8>),
    BitString(Vec<bool>),
    Null,
    /// Stands for an object identifier, whose content is not represented.
    ObjectIdentifier,
    /// The fields of a sequence, in order.
    Sequence(Vec<Value>),
    /// The elements of a repetition, in order.
    SequenceOf(Vec<Value>),
    /// The index of the chosen alternative, and its value.
    Choice(usize, Box<Value>),
}

/// The mathematical model of a `Value`.
pub enum ValueView {
    Boolean(bool),
    Integer(int),
    Enumerated(nat),
    OctetString(Seq<u8>),
    BitString(Seq<bool>),
    Null,
    ObjectIdentifier,
    Sequence(Seq<ValueView>),
    SequenceOf(Seq<ValueView>),
    Choice(nat, Box<ValueView>),
}

/// The model of a value.
pub open spec fn model(value: Value) -> ValueView
    decreases value,
{
    match value {
        Value::Boolean(b) => ValueView::Boolean(b),
        Value::Integer(x) => ValueView::Integer(x as int),
        Value::Enumerated(i) => ValueView::Enumerated(i as nat),
        Value::OctetString(bytes) => ValueView::OctetString(bytes@),
        Value::BitString(bits) => ValueView::BitString(bits@),
        Value::Null => ValueView::Null,
        Value::ObjectIdentifier => ValueView::ObjectIdentifier,
        Value::Sequence(items) => ValueView::Sequence(views(items@)),
        Value::SequenceOf(items) => ValueView::SequenceOf(views(items@)),
        Value::Choice(index, inner) => ValueView::Choice(index as nat, Box::new(model(*inner))),
    }
}

/// The models of a sequence of values.
pub open spec fn views(items: Seq<Value>) -> Seq<ValueView>
    decreases items,
{
    Seq::new(
        items.len(),
        |i: int|
            if 0 <= i < items.len() {
                model(items[i])
            } else {
                ValueView::Null
            },
    )
}

impl View for Value {
    type V = ValueView;

    open spec fn view(&self) -> ValueView {
        model(*self)
    }
}

impl ValueView {
    /// Whether an object identifier occurs anywhere in the value.
    pub open spec fn has_oid(self) -> bool
        decreases self,
    {
        match self {
            ValueView::ObjectIdentifier => true,
            ValueView::Sequence(items) => exists|i: int|
                0 <= i < items.len() && (#[trigger] items[i]).has_oid(),
            ValueView::SequenceOf(items) => exists|i: int|
                0 <= i < items.len() && (#[trigger] items[i]).has_oid(),
            ValueView::Choice(index, inner) => inner.has_oid(),
            _ => false,
        }
    }
}

/// Whether `v` has the shape that `schema` describes and satisfies every
/// constraint in it.
pub open spec fn conforms(schema: Schema, v: ValueView) -> bool
    decreases schema,
{
    match schema {
        Schema::Boolean => v is Boolean,
        Schema::Integer(c) => v matches ValueView::Integer(x) && c.admits(x),
        Schema::Enumerated(c) => v matches ValueView::Enumerated(i) && c.admits(i),
        Schema::OctetString(c) => v matches ValueView::OctetString(bytes) && c.admits(bytes.len()),
        Schema::BitString(c) => v matches ValueView::BitString(bits) && c.admits(bits.len()),
        Schema::Null => v is Null,
        Schema::ObjectIdentifier => v is ObjectIdentifier,
        Schema::Sequence { fields } => {
            &&& v matches ValueView::Sequence(items)
            &&& items.len() == fields@.len()
            &&& forall|i: int|
                0 <= i < fields@.len() ==> conforms(#[trigger] fields@[i], items[i])
        },
        Schema::SequenceOf { size, element } => {
            &&& v matches ValueView::SequenceOf(items)
            &&& size.admits(items.len())
            &&& forall|i: int| 0 <= i < items.len() ==> conforms(*element, #[trigger] items[i])
        },
        Schema::Choice { alternatives, extensible } => {
            &&& v matches ValueView::Choice(index, inner)
            &&& index < alternatives@.len()
            &&& conforms(alternatives@[index as int], *inner)
        },
    }
}

/// The model of a vector of values lists the models of its elements.
pub proof fn lemma_views(items: Seq<Value>)
    ensures
        views(items).len() == items.len(),
        forall|i: int| 0 <= i < items.len() ==> #[trigger] views(items)[i] == items[i]@,
{
}

/// Appending a value appends its model.
pub proof fn lemma_views_push(items: Seq<Value>, item: Value)
    ensures
        views(items.push(item)) == views(items).push(item@),
{
    assert(views(items.push(item)) =~= views(items).push(item@));
}

/// A sequence or repetition with an object identifier in one of its items has
/// one itself.
pub proof fn lemma_has_oid_item(items: Seq<ValueView>, k: int)
    requires
        0 <= k < items.len(),
        items[k].has_oid(),
    ensures
        ValueView::Sequence(items).has_oid(),
        ValueView::SequenceOf(items).has_oid(),
{
    let fields = ValueView::Sequence(items);
    assert(fields->Sequence_0[k].has_oid());
    let elements = ValueView::SequenceOf(items);
    assert(elements->SequenceOf_0[k].has_oid());
}

/// A sequence or repetition none of whose items has an object identifier
/// has none.
pub proof fn lemma_no_oid_items(items: Seq<ValueView>)
    requires
        forall|i: int| 0 <= i < items.len() ==> !(#[trigger] items[i]).has_oid(),
    ensures
        !ValueView::Sequence(items).has_oid(),
        !ValueView::SequenceOf(items).has_oid(),
{
    let fields = ValueView::Sequence(items);
    assert(fields->Sequence_0 == items);
    let elements = ValueView::SequenceOf(items);
    assert(elements->SequenceOf_0 == items);
}

/// Whether `items` are as many as `fields` and each conforms to its field's
/// schema.
pub open spec fn fields_conform(fields: Seq<Schema>, items: Seq<ValueView>) -> bool {
    &&& items.len() == fields.len()
    &&& forall|i: int| 0 <= i < items.len() ==> #[trigger] conforms(fields[i], items[i])
}

/// Whether each of `items` conforms to `element`.
pub open spec fn items_conform(element: Schema, items: Seq<ValueView>) -> bool {
    forall|i: int| 0 <= i < items.len() ==> #[trigger] conforms(element, items[i])
}

/// A sequence conforms exactly when each of its fields does.
pub proof fn lemma_conforms_sequence(schema: Schema, items: Seq<ValueView>)
    requires
        schema is Sequence,
    ensures
        conforms(schema, ValueView::Sequence(items)) <==> fields_conform(schema->fields@, items),
{
    let v = ValueView::Sequence(items);
    let fields = schema->fields@;
    assert(v->Sequence_0 == items);
    if conforms(schema, v) {
        assert forall|i: int| 0 <= i < items.len() implies #[trigger] conforms(
            fields[i],
            items[i],
        ) by {
            assert(conforms(fields[i], v->Sequence_0[i]));
        }
    }
    if fields_conform(fields, items) {
        assert forall|i: int| 0 <= i < fields.len() implies conforms(
            #[trigger] fields[i],
            v->Sequence_0[i],
        ) by {
            assert(conforms(fields[i], items[i]));
        }
    }
}

/// A repetition conforms exactly when its size is admitted and each of its
/// elements conforms.
pub proof fn lemma_conforms_sequence_of(schema: Schema, items: Seq<ValueView>)
    requires
        schema is SequenceOf,
    ensures
        conforms(schema, ValueView::SequenceOf(items)) <==> schema->size.admits(items.len())
            && items_conform(*schema->element, items),
{
    let v = ValueView::SequenceOf(items);
    let element = *schema->element;
    assert(v->SequenceOf_0 == items);
    if conforms(schema, v) {
        assert forall|i: int| 0 <= i < items.len() implies #[trigger] conforms(
            element,
            items[i],
        ) by {
            assert(conforms(element, v->SequenceOf_0[i]));
        }
    }
    if schema->size.admits(items.len()) && items_conform(element, items) {
        assert forall|i: int| 0 <= i < items.len() implies conforms(
            element,
            #[trigger] v->SequenceOf_0[i],
        ) by {
            assert(conforms(element, items[i]));
        }
    }
}

/// Whether `v` can be written under `schema`: it conforms, and holds no
/// object identifier.
pub open spec fn encodable(schema: Schema, v: ValueView) -> bool {
    conforms(schema, v) && !v.has_oid()
}

/// Whether `items` are as many as `fields` and each can be written under its
/// field's schema.
pub open spec fn fields_encodable(fields: Seq<Schema>, items: Seq<ValueView>) -> bool {
    &&& items.len() == fields.len()
    &&& forall|i: int| 0 <= i < items.len() ==> #[trigger] encodable(fields[i], items[i])
}

/// Whether each of `items` can be written under `element`.
pub open spec fn items_encodable(element: Schema, items: Seq<ValueView>) -> bool {
    forall|i: int| 0 <= i < items.len() ==> #[trigger] encodable(element, items[i])
}

/// A sequence can be written exactly when each of its fields can.
pub proof fn lemma_encodable_sequence(schema: Schema, items: Seq<ValueView>)
    requires
        schema is Sequence,
    ensures
        encodable(schema, ValueView::Sequence(items)) <==> fields_encodable(
            schema->fields@,
            items,
        ),
{
    let v = ValueView::Sequence(items);
    let fields = schema->fields@;
    assert(v->Sequence_0 == items);
    if encodable(schema, v) {
        assert forall|i: int| 0 <= i < items.len() implies #[trigger] encodable(
            fields[i],
            items[i],
        ) by {
            assert(conforms(fields[i], v->Sequence_0[i]));
            if items[i].has_oid() {
                lemma_has_oid_item(items, i);
            }
        }
    }
    if fields_encodable(fields, items) {
        assert forall|i: int| 0 <= i < fields.len() implies conforms(
            #[trigger] fields[i],
            v->Sequence_0[i],
        ) by {
            assert(encodable(fields[i], items[i]));
        }
        assert forall|i: int| 0 <= i < items.len() implies !(#[trigger] items[i]).has_oid() by {
            assert(encodable(fields[i], items[i]));
        }
        lemma_no_oid_items(items);
    }
}

/// A repetition can be written exactly when its size is admitted and each of
/// its elements can.
pub proof fn lemma_encodable_sequence_of(schema: Schema, items: Seq<ValueView>)
    requires
        schema is SequenceOf,
    ensures
        encodable(schema, ValueView::SequenceOf(items)) <==> schema->size.admits(items.len())
            && items_encodable(*schema->element, items),
{
    let v = ValueView::SequenceOf(items);
    let element = *schema->element;
    assert(v->SequenceOf_0 == items);
    if encodable(schema, v) {
        assert forall|i: int| 0 <= i < items.len() implies #[trigger] encodable(
            element,
            items[i],
        ) by {
            assert(conforms(element, v->SequenceOf_0[i]));
            if items[i].has_oid() {
                lemma_has_oid_item(items, i);
            }
        }
    }
    if schema->size.admits(items.len()) && items_encodable(element, items) {
        assert forall|i: int| 0 <= i < items.len() implies conforms(
            element,
            #[trigger] v->SequenceOf_0[i],
        ) by {
            assert(encodable(element, items[i]));
        }
        assert forall|i: int| 0 <= i < items.len() implies !(#[trigger] items[i]).has_oid() by {
            assert(encodable(element, items[i]));
        }
        lemma_no_oid_items(items);
    }
}

impl Value {
    /// Whether an object identifier occurs anywhere in the value.
    #[verifier::loop_isolation(false)]
    pub fn contains_oid(&self) -> (b: bool)
        ensures
            b == self@.has_oid(),
        decreases self,
    {
        match self {
            Value::ObjectIdentifier => true,
            Value::Sequence(items) => {
                assert(self@ == ValueView::Sequence(views(items@)));
                let mut i: usize = 0;
                while i < items.len()
                    invariant
                        i <= items.len(),
                        self is Sequence,
                        self->Sequence_0 == items,
                        forall|j: int| 0 <= j < i ==> !(#[trigger] views(items@)[j]).has_oid(),
                    decreases items.len() - i,
                {
                    assert(decreases_to!(self => items[i as int]));
                    if items[i].contains_oid() {
                        proof {
                            lemma_has_oid_item(views(items@), i as int);
                        }
                        return true;
                    }
                    i += 1;
                }
                false
            },
            Value::SequenceOf(items) => {
                assert(self@ == ValueView::SequenceOf(views(items@)));
                let mut i: usize = 0;
                while i < items.len()
                    invariant
                        i <= items.len(),
                        self is SequenceOf,
                        self->SequenceOf_0 == items,
                        forall|j: int| 0 <= j < i ==> !(#[trigger] views(items@)[j]).has_oid(),
                    decreases items.len() - i,
                {
                    assert(decreases_to!(self => items[i as int]));
                    if items[i].contains_oid() {
                        proof {
                            lemma_has_oid_item(views(items@), i as int);
                        }
                        return true;
                    }
                    i += 1;
                }
                false
            },
            Value::Choice(_, inner) => {
                assert(decreases_to!(self => inner));
                inner.contains_oid()
            },
            _ => false,
        }
    }
}

impl Clone for Value {
    /// A copy of the value, with the same model.
    fn clone(&self) -> (copy: Value)
        ensures
            copy@ == self@,
    {
        self.duplicate()
    }
}

impl Value {
    /// A copy of the value, with the same model.
    pub fn duplicate(&self) -> (copy: Value)
        ensures
            copy@ == self@,
        decreases self, 0nat,
    {
        match self {
            Value::Boolean(b) => Value::Boolean(*b),
            Value::Integer(x) => Value::Integer(*x),
            Value::Enumerated(i) => Value::Enumerated(*i),
            Value::OctetString(bytes) => {
                let mut copy: Vec<u8> = Vec::new();
                let mut i: usize = 0;
                while i < bytes.len()
                    invariant
                        i <= bytes.len(),
                        copy@ == bytes@.subrange(0, i as int),
                    decreases bytes.len() - i,
                {
                    copy.push(bytes[i]);
                    assert(copy@ =~= bytes@.subrange(0, i + 1));
                    i += 1;
                }
                assert(copy@ =~= bytes@);
                Value::OctetString(copy)
            },
            Value::BitString(content) => {
                let mut copy: Vec<bool> = Vec::new();
                let mut i: usize = 0;
                while i < content.len()
                    invariant
                        i <= content.len(),
                        copy@ == content@.subrange(0, i as int),
                    decreases content.len() - i,
                {
                    copy.push(content[i]);
                    assert(copy@ =~= content@.subrange(0, i + 1));
                    i += 1;
                }
                assert(copy@ =~= content@);
                Value::BitString(copy)
            },
            Value::Null => Value::Null,
            Value::ObjectIdentifier => Value::ObjectIdentifier,
            Value::Sequence(items) => Value::Sequence(Value::duplicate_all(items)),
            Value::SequenceOf(items) => Value::SequenceOf(Value::duplicate_all(items)),
            Value::Choice(index, inner) => Value::Choice(*index, Box::new(inner.duplicate())),
        }
    }

    /// Copies of the values, with the same models.
    fn duplicate_all(items: &Vec<Value>) -> (copies: Vec<Value>)
        ensures
            views(copies@) == views(items@),
        decreases items, 1nat,
    {
        let mut copies: Vec<Value> = Vec::new();
        let mut i: usize = 0;
        while i < items.len()
            invariant
                i <= items.len(),
                copies@.len() == i,
                forall|j: int| 0 <= j < i ==> (#[trigger] copies@[j])@ == items@[j]@,
            decreases items.len() - i,
        {
            assert(decreases_to!(items => items[i as int]));
            copies.push(items[i].duplicate());
            i += 1;
        }
        assert(views(copies@) =~= views(items@));
        copies
    }
}

impl Schema {
    /// Whether `value` has the shape that this schema describes and satisfies
    /// every constraint in it.
    #[verifier::loop_isolation(false)]
    pub fn admits(&self, value: &Value) -> (b: bool)
        ensures
            b == conforms(*self, value@),
        decreases self,
    {
        match (self, value) {
            (Schema::Boolean, Value::Boolean(_)) => true,
            (Schema::Integer(c), Value::Integer(x)) => c.contains(*x) || c.extensible,
            (Schema::Enumerated(c), Value::Enumerated(i)) => c.accepts(*i),
            (Schema::OctetString(c), Value::OctetString(bytes)) => c.accepts(bytes.len()),
            (Schema::BitString(c), Value::BitString(bits)) => c.accepts(bits.len()),
            (Schema::Null, Value::Null) => true,
            (Schema::ObjectIdentifier, Value::ObjectIdentifier) => true,
            (Schema::Sequence { fields }, Value::Sequence(items)) => {
                assert(value@ == ValueView::Sequence(views(items@)));
                if items.len() != fields.len() {
                    return false;
                }
                let mut i: usize = 0;
                while i < fields.len()
                    invariant
                        i <= fields.len(),
                        items.len() == fields.len(),
                        self is Sequence,
                        self->fields == fields,
                        forall|j: int|
                            0 <= j < i ==> conforms(#[trigger] fields@[j], views(items@)[j]),
                    decreases fields.len() - i,
                {
                    assert(decreases_to!(self => fields[i as int]));
                    if !fields[i].admits(&items[i]) {
                        assert(!conforms(fields@[i as int], views(items@)[i as int]));
                        return false;
                    }
                    i += 1;
                }
                true
            },
            (Schema::SequenceOf { size, element }, Value::SequenceOf(items)) => {
                assert(value@ == ValueView::SequenceOf(views(items@)));
                if !size.accepts(items.len()) {
                    return false;
                }
                let mut i: usize = 0;
                while i < items.len()
                    invariant
                        i <= items.len(),
                        self is SequenceOf,
                        self->element == element,
                        forall|j: int|
                            0 <= j < i ==> conforms(**element, #[trigger] views(items@)[j]),
                    decreases items.len() - i,
                {
                    assert(decreases_to!(self => element));
                    if !element.admits(&items[i]) {
                        assert(!conforms(**element, views(items@)[i as int]));
                        return false;
                    }
                    i += 1;
                }
                true
            },
            (Schema::Choice { alternatives, extensible }, Value::Choice(index, inner)) => {
                if *index < alternatives.len() {
                    assert(decreases_to!(self => alternatives[*index as int]));
                    alternatives[*index].admits(inner)
                } else {
                    false
                }
            },
            _ => false,
        }
    }
}

} // verus!

