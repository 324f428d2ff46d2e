//! Names that tag the types of stored values.
use vstd::prelude::*;

verus! {

/// The name of a type, as stored beside values of it.
#[derive(Hash, Eq, PartialEq, Clone)]
pub struct TypeTag(pub String);

impl TypeTag {
    /// The name.
    pub fn to_string(&self) -> (r: String)
        ensures
            r@ == self.0@,
    {
        self.0.clone()
    }
}

/// A type that has a tag.
pub trait GetTypeTag {
    /// The type's tag.
    fn tag() -> TypeTag;
}

} // verus!
