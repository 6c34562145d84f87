//! `==` and `clone` for encoded values.

use vstd::prelude::*;
use vstd::std_specs::cmp::PartialEqSpecImpl;
use crate::bencode::{
    copy_dictionary, copy_value, dictionaries_equal, values_equal, BencodeValue, Dictionary,
};

verus! {

impl PartialEq for BencodeValue {
    /// Two values are equal where they stand for the same value: the order
    /// in which a dictionary holds its entries plays no part.
    fn eq(&self, other: &Self) -> (r: bool) {
        values_equal(self, other)
    }
}

impl PartialEqSpecImpl for BencodeValue {
    open spec fn obeys_eq_spec() -> bool {
        true
    }

    open spec fn eq_spec(&self, other: &Self) -> bool {
        self@ == other@
    }
}

impl PartialEq for Dictionary {
    /// Two dictionaries are equal where they have the same keys with the
    /// same values.
    fn eq(&self, other: &Self) -> (r: bool) {
        dictionaries_equal(self, other)
    }
}

impl PartialEqSpecImpl for Dictionary {
    open spec fn obeys_eq_spec() -> bool {
        true
    }

    open spec fn eq_spec(&self, other: &Self) -> bool {
        self@ == other@
    }
}

impl Clone for BencodeValue {
    /// A clone stands for the same value.
    fn clone(&self) -> (r: Self)
        ensures
            r@ == self@,
    {
        copy_value(self)
    }
}

impl Clone for Dictionary {
    /// A clone stands for the same map.
    fn clone(&self) -> (r: Self)
        ensures
            r@ == self@,
    {
        copy_dictionary(self)
    }
}

} // verus!
