//! The value model: scalars and one recursive composite.
//!
//! Every executable type has a mathematical view. Contracts throughout the
//! crate are stated over these views.

use vstd::prelude::*;
use vstd::std_specs::cmp::PartialEqSpecImpl;

verus! {

/// Mathematical model of a [`MessageValue`].
pub enum ValueView {
    String(Seq<char>),
    Bytes(Seq<u8>),
    TinyInt(i8),
    SmallInt(i16),
    Int(i32),
    BigInt(i64),
    Float(u64),
    Bool(bool),
    Structure(StructureView),
    Null,
}

/// Mathematical model of a [`MessageStructure`].
pub struct StructureView {
    pub tag: u8,
    pub fields: Seq<ValueView>,
}

/// A value that the wire format can carry.
#[derive(Debug)]
pub enum MessageValue {
    String(String),
    Bytes(Vec<u8>),
    TinyInt(i8),
    SmallInt(i16),
    Int(i32),
    BigInt(i64),
    /// A 64-bit IEEE-754 number, held as its bit pattern.
    Float(u64),
    Bool(bool),
    Structure(MessageStructure),
    Null,
}

/// A signature byte and an ordered sequence of values.
#[derive(Debug)]
pub struct MessageStructure {
    tag: u8,
    fields: Vec<MessageValue>,
}

/// The views of a sequence of values, in order.
pub open spec fn views_of(values: Seq<MessageValue>) -> Seq<ValueView> {
    Seq::new(values.len(), |i: int| values[i]@)
}

/// The model of a value.
pub open spec fn value_view(value: MessageValue) -> ValueView
    decreases value,
{
    match value {
        MessageValue::String(s) => ValueView::String(s@),
        MessageValue::Bytes(b) => ValueView::Bytes(b@),
        MessageValue::TinyInt(i) => ValueView::TinyInt(i),
        MessageValue::SmallInt(i) => ValueView::SmallInt(i),
        MessageValue::Int(i) => ValueView::Int(i),
        MessageValue::BigInt(i) => ValueView::BigInt(i),
        MessageValue::Float(f) => ValueView::Float(f),
        MessageValue::Bool(b) => ValueView::Bool(b),
        MessageValue::Structure(s) => ValueView::Structure(structure_view(s)),
        MessageValue::Null => ValueView::Null,
    }
}

/// The model of a structure: its tag and the models of its fields, in order.
pub closed spec fn structure_view(structure: MessageStructure) -> StructureView
    decreases structure,
{
    StructureView {
        tag: structure.tag,
        fields: Seq::new(
            structure.fields@.len(),
            |i: int|
                if 0 <= i < structure.fields@.len() {
                    value_view(structure.fields[i])
                } else {
                    ValueView::Null
                },
        ),
    }
}

impl View for MessageValue {
    type V = ValueView;

    open spec fn view(&self) -> ValueView {
        value_view(*self)
    }
}

impl View for MessageStructure {
    type V = StructureView;

    open spec fn view(&self) -> StructureView {
        structure_view(*self)
    }
}

impl Clone for MessageValue {
    fn clone(&self) -> (r: Self)
        ensures
            r@ == self@,
        decreases self,
    {
        match self {
            MessageValue::String(s) => MessageValue::String(s.clone()),
            MessageValue::Bytes(b) => {
                let copy = b.clone();
                assert(copy@ =~= b@);
                MessageValue::Bytes(copy)
            },
            MessageValue::TinyInt(i) => MessageValue::TinyInt(*i),
            MessageValue::SmallInt(i) => MessageValue::SmallInt(*i),
            MessageValue::Int(i) => MessageValue::Int(*i),
            MessageValue::BigInt(i) => MessageValue::BigInt(*i),
            MessageValue::Float(f) => MessageValue::Float(*f),
            MessageValue::Bool(b) => MessageValue::Bool(*b),
            MessageValue::Structure(s) => MessageValue::Structure(s.clone()),
            MessageValue::Null => MessageValue::Null,
        }
    }
}

impl Clone for MessageStructure {
    fn clone(&self) -> (r: Self)
        ensures
            r@ == self@,
        decreases self,
    {
        let mut fields: Vec<MessageValue> = Vec::with_capacity(self.fields.len());
        let mut i: usize = 0;
        while i < self.fields.len()
            invariant
                i <= self.fields.len(),
                fields.len() == i,
                forall|j: int| 0 <= j < i ==> fields[j]@ == self.fields[j]@,
            decreases self.fields.len() - i,
        {
            fields.push(self.fields[i].clone());
            i += 1;
        }
        let r = MessageStructure { tag: self.tag, fields };
        assert(r@.fields =~= self@.fields);
        r
    }
}

impl PartialEq for MessageValue {
    fn eq(&self, other: &Self) -> (r: bool)
        decreases self,
    {
        match self {
            MessageValue::String(a) => match other {
                MessageValue::String(b) => *a == *b,
                _ => false,
            },
            MessageValue::Bytes(a) => match other {
                MessageValue::Bytes(b) => same_bytes(a, b),
                _ => false,
            },
            MessageValue::TinyInt(a) => match other {
                MessageValue::TinyInt(b) => *a == *b,
                _ => false,
            },
            MessageValue::SmallInt(a) => match other {
                MessageValue::SmallInt(b) => *a == *b,
                _ => false,
            },
            MessageValue::Int(a) => match other {
                MessageValue::Int(b) => *a == *b,
                _ => false,
            },
            MessageValue::BigInt(a) => match other {
                MessageValue::BigInt(b) => *a == *b,
                _ => false,
            },
            MessageValue::Float(a) => match other {
                MessageValue::Float(b) => *a == *b,
                _ => false,
            },
            MessageValue::Bool(a) => match other {
                MessageValue::Bool(b) => *a == *b,
                _ => false,
            },
            MessageValue::Structure(a) => match other {
                MessageValue::Structure(b) => a.eq(b),
                _ => false,
            },
            MessageValue::Null => match other {
                MessageValue::Null => true,
                _ => false,
            },
        }
    }
}

impl PartialEqSpecImpl for MessageValue {
    open spec fn obeys_eq_spec() -> bool {
        true
    }

    open spec fn eq_spec(&self, other: &Self) -> bool {
        self@ == other@
    }
}

impl PartialEq for MessageStructure {
    fn eq(&self, other: &Self) -> (r: bool)
        decreases self,
    {
        if self.tag != other.tag || self.fields.len() != other.fields.len() {
            assert(self@.fields.len() != other@.fields.len() || self@.tag != other@.tag);
            return false;
        }
        let mut i: usize = 0;
        while i < self.fields.len()
            invariant
                i <= self.fields.len(),
                self.fields.len() == other.fields.len(),
                forall|j: int| 0 <= j < i ==> self.fields[j]@ == other.fields[j]@,
            decreases self.fields.len() - i,
        {
            if !self.fields[i].eq(&other.fields[i]) {
                assert(self@.fields[i as int] != other@.fields[i as int]);
                return false;
            }
            i += 1;
        }
        assert(self@.fields =~= other@.fields);
        true
    }
}

impl PartialEqSpecImpl for MessageStructure {
    open spec fn obeys_eq_spec() -> bool {
        true
    }

    open spec fn eq_spec(&self, other: &Self) -> bool {
        self@ == other@
    }
}

/// Compares two byte vectors element by element.
fn same_bytes(a: &Vec<u8>, b: &Vec<u8>) -> (r: bool)
    ensures
        r == (a@ == b@),
{
    if a.len() != b.len() {
        return false;
    }
    let mut i: usize = 0;
    while i < a.len()
        invariant
            i <= a.len(),
            a.len() == b.len(),
            forall|j: int| 0 <= j < i ==> a[j] == b[j],
        decreases a.len() - i,
    {
        if a[i] != b[i] {
            return false;
        }
        i += 1;
    }
    assert(a@ =~= b@);
    true
}

impl MessageStructure {
    /// Builds a structure from its signature byte and its fields.
    pub fn new(tag: u8, fields: Vec<MessageValue>) -> (r: MessageStructure)
        ensures
            r@ == (StructureView { tag, fields: views_of(fields@) }),
    {
        let r = MessageStructure { tag, fields };
        assert(r@.fields =~= views_of(r.fields@));
        r
    }

    /// The signature byte.
    pub fn tag(&self) -> (r: u8)
        ensures
            r == self@.tag,
    {
        self.tag
    }

    /// The signature byte and the fields, taken apart.
    pub fn into_parts(self) -> (r: (u8, Vec<MessageValue>))
        ensures
            r.0 == self@.tag,
            views_of(r.1@) == self@.fields,
    {
        assert(self@.fields =~= views_of(self.fields@));
        (self.tag, self.fields)
    }

    /// Structural equality: equal tags and equal fields, in order.
    pub fn __eq__(&self, other: &MessageStructure) -> (r: bool)
        ensures
            r == (self@ == other@),
    {
        self.eq(other)
    }

    /// The negation of [`MessageStructure::__eq__`].
    pub fn __ne__(&self, other: &MessageStructure) -> (r: bool)
        ensures
            r == (self@ != other@),
    {
        !self.eq(other)
    }

    /// The number of fields.
    pub fn __len__(&self) -> (r: usize)
        ensures
            r == self@.fields.len(),
    {
        self.fields.len()
    }

    /// A copy of the field at `index`.
    pub fn __getitem__(&self, index: usize) -> (r: MessageValue)
        requires
            index < self@.fields.len(),
        ensures
            r@ == self@.fields[index as int],
    {
        self.fields[index].clone()
    }

    /// Replaces the field at `index`.
    pub fn __setitem__(&mut self, index: usize, value: MessageValue)
        requires
            index < old(self)@.fields.len(),
        ensures
            final(self)@ == (StructureView {
                tag: old(self)@.tag,
                fields: old(self)@.fields.update(index as int, value@),
            }),
    {
        self.fields[index] = value;
        assert(self@.fields =~= old(self)@.fields.update(index as int, value@));
    }
}

} // verus!
