use vstd::prelude::*;
use vstd::string::StringExecFns;

verus! {

/// Per-field type tags of a collection's schema.
#[derive(Clone, Copy, Debug, PartialEq, Eq, Structural)]
pub enum FieldEntry {
    Str,
    U64,
    I64,
    F64,
    Matrix,
}

/// A collection's field layout: the fields in declaration order; a field's
/// id is its index.
pub struct Schema {
    pub fields: Vec<FieldEntry>,
}

impl Schema {
    pub fn new() -> (s: Schema)
        ensures
            s.fields@ == Seq::<FieldEntry>::empty(),
    {
        Schema { fields: Vec::new() }
    }

    /// Declares one more field and hands back its id.
    pub fn add_field(&mut self, field_entry: FieldEntry) -> (id: usize)
        ensures
            final(self).fields@ == old(self).fields@.push(field_entry),
            id == old(self).fields@.len(),
    {
        let id = self.fields.len();
        self.fields.push(field_entry);
        id
    }
}

/// A matrix-valued field: carried, not interpreted by the core.
pub struct Matrix {}

/// A single typed column value.
pub enum Column {
    Str(String),
    I64(i64),
    I32(i32),
    U64(u64),
    U32(u32),
}

/// A field's value.
pub enum Value {
    Str(String),
    Tag(String),
    Column(Column),
    Bytes(Vec<u8>),
    U64(u64),
    Vector(Vec<i64>),
    Matrix(Matrix),
}

/// One named field of a document.
pub struct Field {
    pub name: String,
    pub value: Value,
}

impl Field {
    pub fn text(name: &str, text: &str) -> (f: Field)
        ensures
            f.name@ == name@,
            f.value matches Value::Str(s) && s@ == text@,
    {
        Field { name: String::from_str(name), value: Value::Str(String::from_str(text)) }
    }

    pub fn new(name: &str, value: Value) -> (f: Field)
        ensures
            f.name@ == name@,
            f.value == value,
    {
        Field { name: String::from_str(name), value }
    }

    pub fn value(&self) -> (v: &Value)
        ensures
            v == &self.value,
    {
        &self.value
    }
}

/// One row's payload: its fields.
pub struct Document {
    pub fields: Vec<Field>,
}

impl Document {
    pub fn with_field(fields: Vec<Field>) -> (d: Document)
        ensures
            d.fields == fields,
    {
        Document { fields }
    }

    pub fn new() -> (d: Document)
        ensures
            d.fields@ == Seq::<Field>::empty(),
    {
        Document { fields: Vec::new() }
    }

    pub fn add(&mut self, field: Field)
        ensures
            final(self).fields@ == old(self).fields@.push(field),
    {
        self.fields.push(field);
    }
}

} // verus!
