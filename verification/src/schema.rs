//! Column schemas: the types a field can have and the roles a column can play.
use vstd::prelude::*;

verus! {

/// The type of the values a field holds.
#[derive(Clone, Copy, Debug, PartialEq, Eq, Hash, Structural)]
pub enum DataType {
    Float,
    Integer,
    UInteger,
    String,
    Boolean,
}

/// The tag under which each type travels on the wire.
pub open spec fn type_tag_of(data_type: DataType) -> Seq<char> {
    match data_type {
        DataType::Float => "float"@,
        DataType::Integer => "integer"@,
        DataType::UInteger => "unsigned"@,
        DataType::String => "string"@,
        DataType::Boolean => "boolean"@,
    }
}

impl DataType {
    /// The tag under which this type travels on the wire.
    pub fn type_tag(self) -> (tag: &'static str)
        ensures
            tag@ == type_tag_of(self),
    {
        match self {
            DataType::Float => "float",
            DataType::Integer => "integer",
            DataType::UInteger => "unsigned",
            DataType::String => "string",
            DataType::Boolean => "boolean",
        }
    }
}

/// A field column of a projected schema: its name and the type it declares.
#[derive(Clone, Debug, PartialEq, Eq)]
pub struct FieldColumn {
    pub name: String,
    pub data_type: DataType,
}

/// The mathematical value of a [`FieldColumn`].
pub struct FieldColumnView {
    pub name: Seq<char>,
    pub data_type: DataType,
}

impl View for FieldColumn {
    type V = FieldColumnView;

    open spec fn view(&self) -> FieldColumnView {
        FieldColumnView { name: self.name@, data_type: self.data_type }
    }
}

} // verus!
