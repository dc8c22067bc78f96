//! Runtime values and the table that stores them by identity.

use crate::identity::{is_random_uuid, random_identity};
use std::collections::HashMap;
use vstd::prelude::*;

verus! {

/// The payload of a primitive value.
#[derive(Debug)]
pub enum PrimitiveValue {
    Int(i64),
    /// A decimal, kept as the bit pattern of its IEEE 754 double.
    Dec(u64),
    Text(String),
    Bool(bool),
}

/// The payload of a function value.
#[derive(Debug, Clone, Copy, PartialEq, Eq, Structural)]
pub enum FunctionValue {
    /// A callable that the host supplies, named by the handle that the host bound it under.
    Native(u64),
}

/// What a value holds.
#[derive(Debug)]
pub enum ValueVariant {
    /// What a statement produces.
    Nothing,
    Primitive(PrimitiveValue),
    Function(FunctionValue),
}

/// A runtime value: a payload with an identity.
#[derive(Debug)]
pub struct Value {
    pub content: ValueVariant,
    pub uuid: u128,
}

/// The mathematical value of a [`ValueVariant`].
pub enum ContentView {
    Nothing,
    Int(i64),
    Dec(u64),
    Text(Seq<char>),
    Bool(bool),
    Native(u64),
}

/// The mathematical value of a [`Value`].
pub struct ValueView {
    pub content: ContentView,
    pub uuid: u128,
}

impl View for PrimitiveValue {
    type V = ContentView;

    open spec fn view(&self) -> ContentView {
        match self {
            PrimitiveValue::Int(number) => ContentView::Int(*number),
            PrimitiveValue::Dec(bits) => ContentView::Dec(*bits),
            PrimitiveValue::Text(text) => ContentView::Text(text@),
            PrimitiveValue::Bool(truth) => ContentView::Bool(*truth),
        }
    }
}

impl View for ValueVariant {
    type V = ContentView;

    open spec fn view(&self) -> ContentView {
        match self {
            ValueVariant::Nothing => ContentView::Nothing,
            ValueVariant::Primitive(primitive) => primitive@,
            ValueVariant::Function(FunctionValue::Native(handle)) => ContentView::Native(*handle),
        }
    }
}

impl View for Value {
    type V = ValueView;

    open spec fn view(&self) -> ValueView {
        ValueView { content: self.content@, uuid: self.uuid }
    }
}

impl Clone for PrimitiveValue {
    fn clone(&self) -> (copy: Self)
        ensures
            copy@ == self@,
    {
        match self {
            PrimitiveValue::Int(number) => PrimitiveValue::Int(*number),
            PrimitiveValue::Dec(bits) => PrimitiveValue::Dec(*bits),
            PrimitiveValue::Text(text) => PrimitiveValue::Text(text.clone()),
            PrimitiveValue::Bool(truth) => PrimitiveValue::Bool(*truth),
        }
    }
}

impl Clone for ValueVariant {
    fn clone(&self) -> (copy: Self)
        ensures
            copy@ == self@,
    {
        match self {
            ValueVariant::Nothing => ValueVariant::Nothing,
            ValueVariant::Primitive(primitive) => ValueVariant::Primitive(primitive.clone()),
            ValueVariant::Function(function) => ValueVariant::Function(*function),
        }
    }
}

impl Clone for Value {
    fn clone(&self) -> (copy: Self)
        ensures
            copy@ == self@,
    {
        Value { content: self.content.clone(), uuid: self.uuid }
    }
}

impl Value {
    /// A value that holds `content`, with a fresh identity.
    pub fn new(content: ValueVariant) -> (value: Value)
        ensures
            value@.content == content@,
            is_random_uuid(value@.uuid),
    {
        Value { content, uuid: random_identity() }
    }

    /// A value that holds `content`, with the identity `uuid`.
    pub fn with_id(content: ValueVariant, uuid: u128) -> (value: Value)
        ensures
            value@ == (ValueView { content: content@, uuid }),
    {
        Value { content, uuid }
    }
}

/// The values that evaluation has stored, by identity.
#[derive(Debug)]
pub struct ValueTable {
    values: HashMap<u128, Value>,
}

impl View for ValueTable {
    type V = Map<u128, ValueView>;

    closed spec fn view(&self) -> Map<u128, ValueView> {
        Map::new(|id: u128| self.values@.contains_key(id), |id: u128| self.values@[id]@)
    }
}

impl ValueTable {
    /// An empty table.
    pub fn new() -> (table: ValueTable)
        ensures
            table@ == Map::<u128, ValueView>::empty(),
    {
        let table = ValueTable { values: HashMap::new() };
        proof {
            assert(table@ =~= Map::<u128, ValueView>::empty());
        }
        table
    }

    /// Stores `value` under its identity, in the place of any value stored under it before.
    pub fn insert(&mut self, value: Value)
        ensures
            final(self)@ == old(self)@.insert(value@.uuid, value@),
    {
        broadcast use vstd::std_specs::hash::group_hash_axioms;

        let ghost view = value@;
        self.values.insert(value.uuid, value);
        proof {
            assert(self@ =~= old(self)@.insert(view.uuid, view));
        }
    }

    /// The value stored under the identity `uuid`.
    pub fn get(&self, uuid: u128) -> (value: Option<&Value>)
        ensures
            match value {
                Some(found) => self@.contains_key(uuid) && found@ == self@[uuid],
                None => !self@.contains_key(uuid),
            },
    {
        broadcast use vstd::std_specs::hash::group_hash_axioms;

        self.values.get(&uuid)
    }
}

} // verus!
