use delta::attr_val::AttrVal;
use delta::operations::{DeltaOperation, OpType, OpsMap, OpsVal};
use delta::ops_kind::OpKind;

fn b(v: bool) -> AttrVal {
    AttrVal::Bool(v)
}

fn s(v: &str) -> AttrVal {
    AttrVal::String(v.to_string())
}

fn insert(value: OpsVal) -> DeltaOperation {
    DeltaOperation::insert(value)
}

fn retain(value: usize) -> DeltaOperation {
    DeltaOperation::retain(value)
}

fn delete(value: usize) -> DeltaOperation {
    DeltaOperation::delete(value)
}

#[test]
fn op_type_passes() {
    let mut op1 = insert(s("Hallo"));
    op1.add_attr("font", s("green"));
    assert_eq!(op1.op_type(), OpType::Insert);

    let mut op2: DeltaOperation = insert(AttrVal::Number(5));
    op2.add_attr("font", s("green"));
    assert_eq!(op2.op_type(), OpType::Insert);

    let mut o = OpsMap::default();
    o.insert("hello", s("world"));
    let mut op3: DeltaOperation = insert(AttrVal::Object(o));
    op3.add_attr("font", s("green"));
    assert_eq!(op3.op_type(), OpType::Insert);

    let mut op4 = delete(5);
    op4.add_attr("font", s("green"));
    assert_eq!(op4.op_type(), OpType::Delete);

    let mut op5 = retain(5);
    op5.add_attr("font", s("green"));
    assert_eq!(op5.op_type(), OpType::Retain);
}

#[test]
fn op_len_passes() {
    let mut op = DeltaOperation::insert(s("Hallo"));
    op.add_attr("fooooont", s("greeeeen"));
    assert_eq!(op.op_len(), 5);

    let mut op = DeltaOperation::delete(5);
    op.add_attr("fooooont", s("greeeeen"));
    assert_eq!(op.op_len(), 5);

    let mut op = DeltaOperation::retain(3);
    op.add_attr("fooooont", s("greeeeen"));
    assert_eq!(op.op_len(), 3);
}

#[test]
fn attr_add_passes() {
    let mut op1 = insert(s("Hallo"));
    op1.add_attr("font", s("green"));
    let attr = op1.get_attributes().clone();
    assert_eq!(op1.get_attributes(), &attr);

    let mut op2 = insert(s("World"));
    op2.set_attributes(attr.clone());
    assert_eq!(op2.get_attributes(), &attr);
}

#[test]
fn insert_val_passes() {
    let mut op = insert(s("Hallo"));
    op.add_attr("font", s("green"));
    assert_eq!(op.string_val().unwrap(), "Hallo");
}

#[test]
fn change_attributes_passes() {
    let mut op = insert(s("Hallo"));
    op.add_attr("font", s("green"));

    op.remove_attribute("font");
    assert_eq!(op.get_attributes().len(), 0);

    let mut op1 = insert(s("Hallo"));
    op1.add_attr("font", s("green"));
    op1.add_attr("some", s("thing"));

    op1.remove_attribute("font");
    assert_eq!(op1.get_attributes().len(), 1);
    assert_eq!(op1.get_attributes().get("some").unwrap(), &s("thing"));
}

#[test]
fn change_operation_passes() {
    let mut op = insert(s("Hallo"));
    op.add_attr("font", s("green"));

    op.set_op_kind(OpKind::Insert(s("sweet world")));
    assert_eq!(op.get_attributes().len(), 1);
    assert_eq!(op.string_val().unwrap(), "sweet world");

    let mut op1 = retain(3);
    op1.add_attr("font", s("green"));
    assert_eq!(op1.op_len(), 3);

    op1.set_op_kind(OpKind::Retain(5));
    assert_eq!(op1.get_attributes().len(), 1);
    assert_eq!(op1.op_len(), 5);
}

#[test]
fn attr_val_from_x_passes() {
    let val = s("I am a test");
    let _ = val;

    let val = b(true);
    let _ = val;

    let val = AttrVal::Null;
    let _ = val;

    let val = AttrVal::Number(42);
    let _ = val;

    let mut m = OpsMap::default();
    m.insert("number", AttrVal::Number(42));
    m.insert("string", s("forty two"));
    m.insert("null", AttrVal::Null);
    let val = AttrVal::Object(m);
    let _ = val;
}
