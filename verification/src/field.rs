//! The two-state wrapper that distinguishes "this attribute participates in a
//! filter or update, with this value" from "this attribute is not mentioned".

use vstd::prelude::*;

verus! {

/// A partially populated filter or update mentions a field either with a value
/// (`Given`) or not at all (`Omit`); `Omit` is the default, so unmentioned fields
/// never collide with legitimate data such as a stored null.
#[derive(Debug, Clone)]
pub enum Field<T> {
    Given(T),
    Omit,
}

impl<T> Field<T> {
    /// Treats `Some` as a field to include and `None` as one to leave out.
    pub fn from_opt(opt: Option<T>) -> (r: Self)
        ensures
            r == match opt {
                Option::Some(val) => Field::Given(val),
                Option::None => Field::<T>::Omit,
            },
    {
        match opt {
            Option::Some(val) => Field::Given(val),
            Option::None => Field::Omit,
        }
    }

    /// True when the field carries a value.
    pub fn is_set(&self) -> (r: bool)
        ensures
            r == (self is Given),
    {
        match self {
            Field::Given(_) => true,
            Field::Omit => false,
        }
    }
}

impl<T> Default for Field<T> {
    /// An unmentioned field.
    fn default() -> (r: Self)
        ensures
            r is Omit,
    {
        Field::Omit
    }
}

} // verus!
