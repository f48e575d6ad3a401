//! The data model: field descriptors, configuration schemas, and typed
//! configuration value-sets.
//!
//! A schema is an ordered set of unique field descriptors, fixed at
//! definition time. A value-set is one concrete instance: one value of
//! the declared type per schema field, held positionally in schema order.

use vstd::prelude::*;

verus! {

/// The declared type of a configuration field.
#[derive(Debug, Clone, Copy, PartialEq, Eq, Structural)]
pub enum TypeTag {
    /// A text field: the raw value string is taken verbatim.
    Str,
    /// An unsigned 32-bit integer field, in canonical decimal notation.
    U32,
}

/// Mathematical view of a [`FieldDescriptor`].
pub struct SpecField {
    pub name: Seq<char>,
    pub tag: TypeTag,
}

/// One named, typed field of a configuration schema.
#[derive(Debug, Clone, PartialEq, Eq)]
pub struct FieldDescriptor {
    /// The field name, the key on the left of `=` in the file.
    pub name: String,
    /// The declared type of the field's values.
    pub tag: TypeTag,
}

impl View for FieldDescriptor {
    type V = SpecField;

    open spec fn view(&self) -> SpecField {
        SpecField { name: self.name@, tag: self.tag }
    }
}

/// An ordered set of field descriptors with unique names: the shape of
/// one kind of configuration file.
#[derive(Debug, Clone, PartialEq, Eq)]
pub struct Schema {
    pub fields: Vec<FieldDescriptor>,
}

impl View for Schema {
    type V = Seq<SpecField>;

    open spec fn view(&self) -> Seq<SpecField> {
        self.fields@.map_values(|f: FieldDescriptor| f@)
    }
}

/// A field name can stand on the left of `=` in a line only if it
/// contains neither the `=` delimiter nor a line break.
pub open spec fn field_name_ok(name: Seq<char>) -> bool {
    !name.contains('=') && !name.contains('\n')
}

/// Well-formedness of a schema: field names are pairwise distinct and
/// each is representable as a key in the line format.
pub open spec fn schema_wf(fields: Seq<SpecField>) -> bool {
    &&& forall|i: int, j: int|
        0 <= i < j < fields.len() ==> fields[i].name != fields[j].name
    &&& forall|i: int| 0 <= i < fields.len() ==> field_name_ok(#[trigger] fields[i].name)
}

/// Mathematical view of a [`Value`].
pub enum SpecValue {
    Str(Seq<char>),
    U32(u32),
}

/// One parsed, strongly typed field value.
#[derive(Debug, Clone, PartialEq, Eq)]
pub enum Value {
    /// A text value.
    Str(String),
    /// An unsigned 32-bit integer value.
    U32(u32),
}

impl View for Value {
    type V = SpecValue;

    open spec fn view(&self) -> SpecValue {
        match self {
            Value::Str(s) => SpecValue::Str(s@),
            Value::U32(n) => SpecValue::U32(*n),
        }
    }
}

/// Whether a value is of the declared type `t`.
pub open spec fn value_has_tag(v: SpecValue, t: TypeTag) -> bool {
    match v {
        SpecValue::Str(_) => t == TypeTag::Str,
        SpecValue::U32(_) => t == TypeTag::U32,
    }
}

/// A configuration value-set: exactly one value per schema field, held
/// in schema declaration order.
#[derive(Debug, Clone, PartialEq, Eq)]
pub struct ValueSet {
    pub values: Vec<Value>,
}

impl View for ValueSet {
    type V = Seq<SpecValue>;

    open spec fn view(&self) -> Seq<SpecValue> {
        self.values@.map_values(|v: Value| v@)
    }
}

/// The value-set invariant: one value per field, each of the field's
/// declared type.
pub open spec fn values_match(fields: Seq<SpecField>, vals: Seq<SpecValue>) -> bool {
    &&& vals.len() == fields.len()
    &&& forall|i: int| 0 <= i < fields.len() ==> value_has_tag(#[trigger] vals[i], fields[i].tag)
}

} // verus!
