use vstd::prelude::*;

verus! {

/// The kinds of operands that content-stream operators take.
pub enum Type {
    Any,
    Primitive(Primitive),
    Compound(Compound),
}

pub enum Primitive {
    Integer,
    Float,
    Key,
    String,
    Operator,
}

/// A named type with type arguments.
pub struct Compound {
    pub name: String,
    pub generics: Vec<Type>,
}

impl Compound {
    pub fn new(name: String, generics: Vec<Type>) -> (r: Compound)
        ensures
            r.name@ == name@,
            r.generics@ == generics@,
    {
        Compound { name, generics }
    }

}

} // verus!
