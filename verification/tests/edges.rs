//! Edge cases: empty inputs, repeated keys, and lengths at the top of
//! the machine word.

use delta::attr_val::AttrVal;
use delta::attributes::Attributes;
use delta::delta::Delta;
use delta::document::Document;
use delta::optransform::OpTransform;

fn s(v: &str) -> AttrVal {
    AttrVal::String(v.to_string())
}

#[test]
fn empty_delta_operations() {
    let a = Delta::default();
    let bb = Delta::default();
    assert_eq!(a.compose(&bb).unwrap(), Delta::default());
    assert_eq!(a.transform(&bb, true).unwrap(), Delta::default());
    assert_eq!(a.transform_position(5, false).unwrap(), 5);
    assert_eq!(a.diff(&bb, 0).unwrap(), Delta::default());
    assert_eq!(a.document_length(), 0);
}

#[test]
fn repeated_key_overwrites() {
    let mut attr = Attributes::default();
    attr.insert("color", s("red"));
    attr.insert("color", s("blue"));
    assert_eq!(attr.len(), 1);
    assert_eq!(attr.get("color").unwrap(), &s("blue"));
}

#[test]
fn retain_lengths_at_word_limit() {
    // Two retains whose merged length would overflow the machine word
    // stay separate instead of wrapping.
    let mut d = Delta::default();
    d.retain(usize::MAX);
    d.retain(usize::MAX);
    assert_eq!(d.len(), 2);

    let mut d = Delta::default();
    d.delete(usize::MAX - 2);
    d.delete(1);
    assert_eq!(d.len(), 1);
    assert_eq!(d.first().unwrap().op_len(), usize::MAX - 1);
}
