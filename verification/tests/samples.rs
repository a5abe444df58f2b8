use typeshare_annotator::docs::{
    bar, foo, sample_function, sample_function2, use_sample_struct2, MyTrait, SampleStruct,
    SampleStruct2,
};

struct Probe;

impl MyTrait for Probe {
    fn example_method(&self) {}
}

#[test]
fn sample_functions_run() {
    sample_function();
    sample_function2();
    use_sample_struct2();
}

#[test]
fn sample_structs_hold_their_fields() {
    let s2 = SampleStruct2 { field1: String::from("sample"), field2: 7 };
    assert_eq!(s2.field1, "sample");
    assert_eq!(s2.field2, 7);
    let s = SampleStruct { field: 3 };
    assert_eq!(s.field, 3);
}

#[test]
fn trait_consumers_accept_an_implementor() {
    let p = Probe;
    foo::<Probe, Probe>(&p);
    bar::<Probe, Probe>(&p);
    p.example_method();
}
