//! Identifier types and the small vocabulary of the typed property graph.

use vstd::prelude::*;
use crate::text::{decimal, decimal_string, string_of};

verus! {

/// Unique identifier for a node in the graph; `0` is the null sentinel.
#[derive(Clone, Copy, PartialEq, Eq, PartialOrd, Ord, Hash, Debug, Structural)]
pub struct NodeId(pub u64);

impl NodeId {
    /// The null sentinel ("no node").
    pub fn null() -> (r: NodeId)
        ensures
            r.0 == 0,
    {
        NodeId(0)
    }

    /// Returns `true` if this identifier is the null sentinel.
    pub fn is_null(self) -> (r: bool)
        ensures
            r == (self.0 == 0),
    {
        self.0 == 0
    }

    /// The decimal form of the identifier.
    pub fn to_string(&self) -> (r: String)
        ensures
            r@ == decimal(self.0 as nat),
    {
        decimal_string(self.0)
    }
}

/// Unique identifier for an edge in the graph; `0` is the null sentinel.
#[derive(Clone, Copy, PartialEq, Eq, PartialOrd, Ord, Hash, Debug, Structural)]
pub struct EdgeId(pub u64);

impl EdgeId {
    /// The null sentinel ("no edge").
    pub fn null() -> (r: EdgeId)
        ensures
            r.0 == 0,
    {
        EdgeId(0)
    }

    /// Returns `true` if this identifier is the null sentinel.
    pub fn is_null(self) -> (r: bool)
        ensures
            r == (self.0 == 0),
    {
        self.0 == 0
    }

    /// The decimal form of the identifier.
    pub fn to_string(&self) -> (r: String)
        ensures
            r@ == decimal(self.0 as nat),
    {
        decimal_string(self.0)
    }
}

/// Unique identifier for a type definition; `0` is the null sentinel.
#[derive(Clone, Copy, PartialEq, Eq, PartialOrd, Ord, Hash, Debug, Structural)]
pub struct TypeId(pub u32);

impl TypeId {
    /// The null sentinel ("no type").
    pub fn null() -> (r: TypeId)
        ensures
            r.0 == 0,
    {
        TypeId(0)
    }

    /// Returns `true` if this identifier is the null sentinel.
    pub fn is_null(self) -> (r: bool)
        ensures
            r == (self.0 == 0),
    {
        self.0 == 0
    }

    /// The decimal form of the identifier.
    pub fn to_string(&self) -> (r: String)
        ensures
            r@ == decimal(self.0 as nat),
    {
        decimal_string(self.0 as u64)
    }
}

/// Unique identifier for a property key; `0` is the null sentinel.
#[derive(Clone, Copy, PartialEq, Eq, PartialOrd, Ord, Hash, Debug, Structural)]
pub struct PropertyKeyId(pub u32);

impl PropertyKeyId {
    /// The null sentinel ("no key").
    pub fn null() -> (r: PropertyKeyId)
        ensures
            r.0 == 0,
    {
        PropertyKeyId(0)
    }

    /// Returns `true` if this identifier is the null sentinel.
    pub fn is_null(self) -> (r: bool)
        ensures
            r == (self.0 == 0),
    {
        self.0 == 0
    }

    /// The decimal form of the identifier.
    pub fn to_string(&self) -> (r: String)
        ensures
            r@ == decimal(self.0 as nat),
    {
        decimal_string(self.0 as u64)
    }
}

/// Whether a type definition classifies nodes or edges.
#[derive(Clone, Copy, Debug, PartialEq, Eq, Hash, Structural)]
pub enum TypeKind {
    /// A type that classifies nodes.
    Node,
    /// A type that classifies edges.
    Edge,
}

/// The display name of a type kind.
pub open spec fn type_kind_text(k: TypeKind) -> Seq<char> {
    match k {
        TypeKind::Node => "Node"@,
        TypeKind::Edge => "Edge"@,
    }
}

impl TypeKind {
    /// The display name: `"Node"` or `"Edge"`.
    pub fn to_string(&self) -> (r: String)
        ensures
            r@ == type_kind_text(*self),
    {
        match self {
            TypeKind::Node => string_of("Node"),
            TypeKind::Edge => string_of("Edge"),
        }
    }
}

/// Describes the expected type of a property value.
#[derive(Debug, PartialEq, Eq)]
pub enum ValueTypeDescriptor {
    /// Matches any value, including null.
    Any,
    /// Matches booleans.
    Bool,
    /// Matches signed 64-bit integers.
    I64,
    /// Matches unsigned 64-bit integers.
    U64,
    /// Matches 64-bit floating-point numbers.
    F64,
    /// Matches strings and language-tagged strings.
    String,
    /// Matches byte sequences.
    Bytes,
    /// Matches node references.
    NodeRef,
    /// Matches language-tagged strings only.
    LangString,
    /// Matches lists whose every element matches the inner descriptor.
    List(Box<ValueTypeDescriptor>),
}

impl Clone for ValueTypeDescriptor {
    fn clone(&self) -> (r: Self)
        ensures
            r == *self,
        decreases self,
    {
        clone_descriptor(self)
    }
}

fn clone_descriptor(d: &ValueTypeDescriptor) -> (r: ValueTypeDescriptor)
    ensures
        r == *d,
    decreases d,
{
    match d {
        ValueTypeDescriptor::List(inner) => {
            let c = clone_descriptor(inner);
            ValueTypeDescriptor::List(Box::new(c))
        },
        ValueTypeDescriptor::Any => ValueTypeDescriptor::Any,
        ValueTypeDescriptor::Bool => ValueTypeDescriptor::Bool,
        ValueTypeDescriptor::I64 => ValueTypeDescriptor::I64,
        ValueTypeDescriptor::U64 => ValueTypeDescriptor::U64,
        ValueTypeDescriptor::F64 => ValueTypeDescriptor::F64,
        ValueTypeDescriptor::String => ValueTypeDescriptor::String,
        ValueTypeDescriptor::Bytes => ValueTypeDescriptor::Bytes,
        ValueTypeDescriptor::NodeRef => ValueTypeDescriptor::NodeRef,
        ValueTypeDescriptor::LangString => ValueTypeDescriptor::LangString,
    }
}

} // verus!

verus! {

/// The shape of a property value: its variant, and for a list the shapes
/// of its items.
#[derive(Debug)]
pub enum ValueShape {
    /// The null value.
    Null,
    /// A boolean.
    Bool,
    /// A signed 64-bit integer.
    I64,
    /// An unsigned 64-bit integer.
    U64,
    /// A 64-bit floating-point number.
    F64,
    /// A string.
    String,
    /// A byte sequence.
    Bytes,
    /// A node reference.
    NodeRef,
    /// A language-tagged string.
    LangString,
    /// A list, with the shapes of its items.
    List(Vec<ValueShape>),
}

/// A value of shape `s` matches descriptor `d`: `Any` matches everything,
/// `String` matches plain and language-tagged strings, `List(inner)`
/// matches lists whose every item matches `inner`, and every other
/// descriptor its like-named variant (so null matches only `Any`).
pub open spec fn shape_matches(s: ValueShape, d: ValueTypeDescriptor) -> bool
    decreases d,
{
    match d {
        ValueTypeDescriptor::Any => true,
        ValueTypeDescriptor::Bool => s is Bool,
        ValueTypeDescriptor::I64 => s is I64,
        ValueTypeDescriptor::U64 => s is U64,
        ValueTypeDescriptor::F64 => s is F64,
        ValueTypeDescriptor::String => s is String || s is LangString,
        ValueTypeDescriptor::Bytes => s is Bytes,
        ValueTypeDescriptor::NodeRef => s is NodeRef,
        ValueTypeDescriptor::LangString => s is LangString,
        ValueTypeDescriptor::List(inner) => match s {
            ValueShape::List(items) => forall|i: int|
                0 <= i < items@.len() ==> shape_matches(#[trigger] items@[i], *inner),
            _ => false,
        },
    }
}

/// Matching a descriptor: `Any` takes every value, no other descriptor
/// takes null, each scalar descriptor takes exactly its like-named variant
/// (so a signed integer never matches the unsigned descriptor, nor an
/// unsigned one the signed descriptor, and no value matches both), a
/// language-tagged string also matches `String`, and only lists match a
/// list descriptor.
pub proof fn lemma_descriptor_matching(s: ValueShape, inner: ValueTypeDescriptor)
    ensures
        shape_matches(s, ValueTypeDescriptor::Any),
        !(s is Null) || !shape_matches(s, ValueTypeDescriptor::Bool),
        shape_matches(s, ValueTypeDescriptor::Bool) <==> s is Bool,
        shape_matches(s, ValueTypeDescriptor::I64) <==> s is I64,
        shape_matches(s, ValueTypeDescriptor::U64) <==> s is U64,
        shape_matches(s, ValueTypeDescriptor::F64) <==> s is F64,
        shape_matches(s, ValueTypeDescriptor::String) <==> (s is String || s is LangString),
        shape_matches(s, ValueTypeDescriptor::Bytes) <==> s is Bytes,
        shape_matches(s, ValueTypeDescriptor::NodeRef) <==> s is NodeRef,
        shape_matches(s, ValueTypeDescriptor::LangString) <==> s is LangString,
        !(shape_matches(s, ValueTypeDescriptor::I64) && shape_matches(s, ValueTypeDescriptor::U64)),
        shape_matches(s, ValueTypeDescriptor::LangString) ==> shape_matches(s, ValueTypeDescriptor::String),
        shape_matches(s, ValueTypeDescriptor::List(Box::new(inner))) ==> s is List,
        s is Null ==> !shape_matches(s, ValueTypeDescriptor::List(Box::new(inner))),
{
}

/// A list matches a list descriptor exactly when each of its items matches
/// the inner descriptor; so the empty list matches every list descriptor,
/// and a list with one item that fails the inner descriptor matches none.
pub proof fn lemma_list_matching(s: ValueShape, d: ValueTypeDescriptor, j: int)
    ensures
        s matches ValueShape::List(items) ==> (d matches ValueTypeDescriptor::List(inner) ==> {
            &&& shape_matches(s, d) <==> forall|i: int| 0 <= i < items@.len() ==> shape_matches(#[trigger] items@[i], *inner)
            &&& items@.len() == 0 ==> shape_matches(s, d)
            &&& 0 <= j < items@.len() && !shape_matches(items@[j], *inner) ==> !shape_matches(s, d)
        }),
{
}

/// Whether a value of shape `shape` matches `descriptor`.
#[verifier::loop_isolation(false)]
pub fn matches_descriptor(shape: &ValueShape, descriptor: &ValueTypeDescriptor) -> (r: bool)
    ensures
        r == shape_matches(*shape, *descriptor),
        *descriptor is Any ==> r,
        *shape is Null && !(*descriptor is Any) ==> !r,
        *descriptor is Bool ==> (r <==> *shape is Bool),
        *descriptor is I64 ==> (r <==> *shape is I64),
        *descriptor is U64 ==> (r <==> *shape is U64),
        *descriptor is F64 ==> (r <==> *shape is F64),
        *descriptor is String ==> (r <==> *shape is String || *shape is LangString),
        *descriptor is Bytes ==> (r <==> *shape is Bytes),
        *descriptor is NodeRef ==> (r <==> *shape is NodeRef),
        *descriptor is LangString ==> (r <==> *shape is LangString),
        *descriptor is List ==> (r ==> *shape is List),
        *shape matches ValueShape::List(items) ==> (*descriptor matches ValueTypeDescriptor::List(inner) ==> (r
            <==> forall|i: int| 0 <= i < items@.len() ==> shape_matches(#[trigger] items@[i], *inner))),
    decreases descriptor,
{
    match descriptor {
        ValueTypeDescriptor::Any => true,
        ValueTypeDescriptor::Bool => matches!(shape, ValueShape::Bool),
        ValueTypeDescriptor::I64 => matches!(shape, ValueShape::I64),
        ValueTypeDescriptor::U64 => matches!(shape, ValueShape::U64),
        ValueTypeDescriptor::F64 => matches!(shape, ValueShape::F64),
        ValueTypeDescriptor::String => matches!(shape, ValueShape::String | ValueShape::LangString),
        ValueTypeDescriptor::Bytes => matches!(shape, ValueShape::Bytes),
        ValueTypeDescriptor::NodeRef => matches!(shape, ValueShape::NodeRef),
        ValueTypeDescriptor::LangString => matches!(shape, ValueShape::LangString),
        ValueTypeDescriptor::List(inner) => match shape {
            ValueShape::List(items) => {
                let mut i: usize = 0;
                while i < items.len()
                    invariant
                        i <= items@.len(),
                        forall|k: int| 0 <= k < i ==> shape_matches(#[trigger] items@[k], **inner),
                    decreases items@.len() - i,
                {
                    if !matches_descriptor(&items[i], inner) {
                        assert(!shape_matches(items@[i as int], **inner));
                        return false;
                    }
                    i = i + 1;
                }
                true
            },
            _ => false,
        },
    }
}

} // verus!
