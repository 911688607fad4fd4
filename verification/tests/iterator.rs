use delta::attr_val::AttrVal;
use delta::attributes::Attributes;
use delta::delta::Delta;
use delta::iterator::DeltaIterator;
use delta::operations::{DeltaOperation, OpType};

fn b(v: bool) -> AttrVal {
    AttrVal::Bool(v)
}

fn s(v: &str) -> AttrVal {
    AttrVal::String(v.to_string())
}

#[test]
fn delta_len_passes() {
    let o = DeltaOperation::delete(5);
    assert_eq!(o.op_len(), 5);

    let o = DeltaOperation::retain(2);
    assert_eq!(o.op_len(), 2);

    let o = DeltaOperation::insert(s("text"));
    assert_eq!(o.op_len(), 4);

    let o = DeltaOperation::insert(AttrVal::Number(2));
    assert_eq!(o.op_len(), 1);
}

fn get_delta() -> Delta {
    let mut attr = Attributes::default();
    attr.insert("bold", b(true));

    let mut img = Attributes::default();
    img.insert("srt", s("http://quilljs.com/"));

    let mut delta = Delta::default();
    delta.insert_attr(s("Hello"), attr);
    delta.retain(3);
    delta.insert_attr(AttrVal::Number(2), img);
    delta.delete(4);
    delta
}

#[test]
fn delta_iter_has_next_passes() {
    let delta = get_delta();
    let iter = DeltaIterator::new(delta.get_ops_ref());
    assert!(iter.has_next());
}

#[test]
fn delta_iter_has_not_next_passes() {
    let delta = Delta::default();
    let iter = DeltaIterator::new(delta.get_ops_ref());
    assert!(!iter.has_next());
}

#[test]
fn delta_iter_peek_length_offset_null_passes() {
    let delta = get_delta();
    let mut iter = DeltaIterator::new(delta.get_ops_ref());
    assert_eq!(iter.peek_len(), 5);
    iter.next_len(0);
    assert_eq!(iter.peek_len(), 3);
    iter.next_len(0);
    assert_eq!(iter.peek_len(), 1);
    iter.next_len(0);
    assert_eq!(iter.peek_len(), 4);
    iter.next_len(0);
}

#[test]
fn delta_iter_peek_length_offset_gt_null_passes() {
    let delta = get_delta();
    let mut iter = DeltaIterator::new(delta.get_ops_ref());
    iter.next_len(2);
    assert_eq!(iter.peek_len(), 5 - 2);
}

#[test]
fn delta_iter_no_ops_left_passes() {
    let delta = Delta::default();
    let iter = DeltaIterator::new(delta.get_ops_ref());
    assert_eq!(iter.peek_len(), usize::MAX);
}

#[test]
fn delta_iter_peek_type_passes() {
    let delta = get_delta();
    let mut iter = DeltaIterator::new(delta.get_ops_ref());
    assert_eq!(iter.peek_type(), OpType::Insert);
    iter.next_len(0);
    assert_eq!(iter.peek_type(), OpType::Retain);
    iter.next_len(0);
    assert_eq!(iter.peek_type(), OpType::Insert);
    iter.next_len(0);
    assert_eq!(iter.peek_type(), OpType::Delete);
    iter.next_len(0);
    assert_eq!(iter.peek_type(), OpType::Retain);
    iter.next_len(0);
}

#[test]
fn delta_iter_next_passes() {
    let delta = get_delta();
    let mut iter = DeltaIterator::new(delta.get_ops_ref());
    for i in 0..delta.len() {
        assert_eq!(&iter.next_len(0), delta.get(i));
    }
    assert_eq!(iter.next_len(0), DeltaOperation::retain(usize::MAX));
    assert_eq!(iter.next_len(4), DeltaOperation::retain(usize::MAX));
    assert_eq!(iter.next_len(0), DeltaOperation::retain(usize::MAX));
}

#[test]
fn delta_iter_next_length_passes() {
    let mut attr = Attributes::default();
    attr.insert("bold", b(true));

    let delta = get_delta();
    let mut iter = DeltaIterator::new(delta.get_ops_ref());
    let nxt = iter.next_len(2);
    let mut expect = DeltaOperation::insert(s("He"));
    expect.set_attributes(attr);
    assert_eq!(nxt, expect);

    let nxt = iter.next_len(10);
    let mut attr = Attributes::default();
    attr.insert("bold", b(true));
    let mut expect = DeltaOperation::insert(s("llo"));
    expect.set_attributes(attr);
    assert_eq!(nxt, expect);

    let nxt = iter.next_len(1);
    let expect = DeltaOperation::retain(1);
    assert_eq!(nxt, expect);

    let nxt = iter.next_len(2);
    let expect = DeltaOperation::retain(2);
    assert_eq!(nxt, expect);
}

#[test]
fn delta_iter_rest_1_passes() {
    let mut attr = Attributes::default();
    attr.insert("bold", b(true));

    let mut img = Attributes::default();
    img.insert("srt", s("http://quilljs.com/"));

    let mut expect = Delta::default();
    expect.insert_attr(s("llo"), attr);
    expect.retain(3);
    expect.insert_attr(AttrVal::Number(2), img);
    expect.delete(4);

    let delta = get_delta();
    let mut iter = DeltaIterator::new(delta.get_ops_ref());
    iter.next_len(2);

    assert_eq!(iter.rest(), expect.get_ops());
}

#[test]
fn delta_iter_rest_2_passes() {
    let mut img = Attributes::default();
    img.insert("srt", s("http://quilljs.com/"));

    let mut expect = Delta::default();
    expect.retain(3);
    expect.insert_attr(AttrVal::Number(2), img);
    expect.delete(4);

    let delta = get_delta();
    let mut iter = DeltaIterator::new(delta.get_ops_ref());
    iter.next_len(2);
    iter.next_len(3);

    assert_eq!(iter.rest(), expect.get_ops());

    iter.next_len(3);
    iter.next_len(2);
    iter.next_len(4);
    let tv: Vec<DeltaOperation> = Vec::new();
    assert_eq!(iter.rest(), tv);
}
