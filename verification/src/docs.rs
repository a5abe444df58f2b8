//! A small sample API surface: two sample structs, the functions that
//! exercise them, and a sample trait with generic consumers.

use vstd::prelude::*;

verus! {

/// A sample struct with two fields.
pub struct SampleStruct2 {
    /// A sample text field.
    pub field1: String,
    /// A sample numeric field.
    pub field2: i32,
}

/// A sample struct with one field.
pub struct SampleStruct {
    /// A sample field.
    pub field: i32,
}

/// A sample function.
pub fn sample_function() {
}

/// A sample function.
pub fn sample_function2() {
}

/// Constructs a `SampleStruct2` and reads it back.
pub fn use_sample_struct2() {
    let s = SampleStruct2 { field1: String::new(), field2: 0 };
    let _field: i32 = s.field2;
}

/// A sample trait.
pub trait MyTrait {
    /// A sample method.
    fn example_method(&self);
}

/// Calls the sample method through the first of two bounded type parameters.
pub fn foo<T: MyTrait, V: MyTrait>(v: &T) {
    v.example_method();
}

/// Calls the sample method; the bounds stand in a `where` clause.
pub fn bar<T, V>(v: &T) where T: MyTrait, V: MyTrait {
    v.example_method();
}

} // verus!
