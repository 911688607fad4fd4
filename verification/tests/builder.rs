use delta::attr_val::AttrVal;
use delta::attributes::Attributes;
use delta::delta::Delta;
use delta::operations::{DeltaOperation, OpsMap, OpsVal};
use delta::utils::DeltaTransformations;

fn b(v: bool) -> AttrVal {
    AttrVal::Bool(v)
}

fn s(v: &str) -> AttrVal {
    AttrVal::String(v.to_string())
}

#[test]
fn construct_passes() {
    let mut delta = Delta::default();

    let op = DeltaOperation::insert(s("abc"));
    delta.push(op);

    let mut op = DeltaOperation::retain(1);
    op.add_attr("color", s("red"));
    delta.push(op);

    let op = DeltaOperation::delete(4);
    delta.push(op);

    let mut op = DeltaOperation::insert(s("def"));
    op.add_attr("bold", b(true));
    delta.push(op);

    let op = DeltaOperation::retain(6);
    delta.push(op);

    let mut d = Delta::default();
    assert_eq!(d.delta_length(), 0);
    assert_eq!(d.len(), 0);

    d.insert(s(""));
    d.delete(0);
    d.retain(0);
}

#[test]
fn builder_insert_passes() {
    let mut d = Delta::default();
    d.insert(s("Test"));
    assert_eq!(d.delta_length(), 4);
    assert_eq!(d.len(), 1);
    assert_eq!(d.first().unwrap().insert_value().str_val().unwrap(), "Test");

    let mut d = Delta::default();
    d.insert(s("Test"));
    d.insert(s("Test"));
    assert_eq!(d.delta_length(), 8);
    assert_eq!(d.len(), 1);
    assert_eq!(
        d.first().unwrap().insert_value().str_val().unwrap(),
        "TestTest"
    );

    let mut d = Delta::default();
    d.insert(AttrVal::Number(1));
    assert_eq!(d.delta_length(), 1);
    assert_eq!(d.len(), 1);
    assert_eq!(d.first().unwrap().insert_value(), &AttrVal::Number(1));

    let mut attr = Attributes::default();
    attr.insert("src", s("http://quilljs.com/image.png"));
    let mut d = Delta::default();
    d.insert_attr(AttrVal::Number(1), attr.clone());
    assert_eq!(d.delta_length(), 1);
    assert_eq!(d.len(), 1);
    assert_eq!(d.first().unwrap().insert_value(), &OpsVal::Number(1));
    assert_eq!(d.first().unwrap().get_attributes(), &attr);

    let mut embed = OpsMap::default();
    embed.insert("src", s("http://quilljs.com/image.png"));
    let mut op = DeltaOperation::insert(AttrVal::Object(embed.clone()));
    op.add_attr("alt", s("quill"));
    let mut d = Delta::default();
    d.push(op);
    assert_eq!(d.delta_length(), 1);
    assert_eq!(d.len(), 1);
    let first = d.first().unwrap();
    let res = first.insert_value().map_val().unwrap();
    assert_eq!(res, &embed);
    let mut alt = Attributes::default();
    alt.insert("alt", s("quill"));
    assert_eq!(d.first().unwrap().get_attributes(), &alt);
}

#[test]
fn build_insert_passes() {
    let mut attr = Attributes::default();
    attr.insert("bold", b(true));

    let mut delta = Delta::default();
    delta.insert_attr(s("test"), attr.clone());

    assert_eq!(
        delta.first().unwrap().insert_value().str_val().unwrap(),
        "test"
    );
    assert_eq!(delta.first().unwrap().get_attributes(), &attr);
}

#[test]
fn build_insert_after_delete_passes() {
    let mut delta = Delta::default();
    delta.delete(1);
    delta.insert(s("a"));

    let mut expected = Delta::default();
    expected.insert(s("a"));
    expected.delete(1);

    assert_eq!(delta, expected);
}

#[test]
fn build_insert_after_delete_with_merge_passes() {
    let mut delta = Delta::default();
    delta.insert(s("a"));
    delta.delete(1);
    delta.insert(s("b"));

    let mut expected = Delta::default();
    expected.insert(s("ab"));
    expected.delete(1);

    assert_eq!(delta, expected);
}

#[test]
fn build_insert_text_after_delete_no_merge_passes() {
    let mut delta1 = Delta::default();
    delta1.insert(AttrVal::Number(1));
    delta1.delete(1);
    delta1.insert(s("a"));

    let mut delta2 = Delta::default();
    delta2.insert(AttrVal::Number(1));
    delta2.insert(s("a"));
    delta2.delete(1);

    assert_eq!(delta1, delta2);
}

#[test]
fn build_delete_passes() {
    let mut delta = Delta::default();
    delta.delete(0);

    assert_eq!(delta.len(), 0);
    assert_eq!(delta.delta_length(), 0);
}

#[test]
fn build_delete_positive_passes() {
    let mut delta = Delta::default();
    delta.delete(1);

    assert_eq!(delta.len(), 1);
    assert_eq!(delta.delta_length(), 1);
}

#[test]
fn build_retain_passes() {
    let mut delta = Delta::default();
    delta.retain(0);

    assert_eq!(delta.len(), 0);
    assert_eq!(delta.delta_length(), 0);
}

#[test]
fn build_retain_pos_passes() {
    let mut delta = Delta::default();
    delta.retain(2);

    assert_eq!(delta.len(), 1);
    assert_eq!(delta.delta_length(), 2);
}

#[test]
fn build_retain_attrib_passes() {
    let mut attr = Attributes::default();
    attr.insert("bold", b(true));

    let mut delta = Delta::default();
    delta.retain_attr(2, attr.clone());

    assert_eq!(delta.len(), 1);
    assert_eq!(delta.delta_length(), 2);
    assert_eq!(delta.first().unwrap().get_attributes(), &attr);
}

#[test]
fn build_retain_length_passes() {
    let mut delta = Delta::default();
    delta.retain(2);
    delta.delete(1);

    assert_eq!(delta.len(), 2);
    assert_eq!(delta.delta_length(), 3);
}

#[test]
fn build_push_passes() {
    let mut delta = Delta::default();
    delta.insert(s("test"));

    assert_eq!(delta.len(), 1);
    assert_eq!(delta.delta_length(), 4);
    assert_eq!(
        delta.first().unwrap().insert_value().str_val().unwrap(),
        "test"
    );
}

#[test]
fn build_push_consequtive_delete_passes() {
    let mut delta = Delta::default();
    delta.delete(2);

    delta.delete(3);
    assert_eq!(delta.len(), 1);
    assert_eq!(delta.delta_length(), 5);
}

#[test]
fn build_push_consequtive_text_passes() {
    let mut bold = Attributes::default();
    bold.insert("bold", b(true));

    let mut delta = Delta::default();
    delta.insert_attr(s("a"), bold.clone());
    delta.insert_attr(s("b"), bold.clone());

    assert_eq!(delta.len(), 1);
    assert_eq!(delta.delta_length(), 2);
    assert_eq!(delta.first().unwrap().get_attributes(), &bold);
    assert_eq!(delta.first().unwrap().insert_value().str_val().unwrap(), "ab");
}

#[test]
fn build_push_consecutive_remains_with_matching_attributes_passes() {
    let mut bold = Attributes::default();
    bold.insert("bold", b(true));

    let mut delta = Delta::default();
    delta.retain_attr(1, bold.clone());
    delta.retain_attr(3, bold.clone());

    assert_eq!(delta.len(), 1);
    assert_eq!(delta.delta_length(), 4);
    assert_eq!(delta.first().unwrap().get_attributes(), &bold);
}

#[test]
fn build_push_consecutive_texts_mismatch_attributes_passes() {
    let mut bold = Attributes::default();
    bold.insert("bold", b(true));

    let mut delta = Delta::default();
    delta.insert_attr(s("a"), bold.clone());
    delta.insert(s("b"));

    assert_eq!(delta.len(), 2);
    assert_eq!(delta.delta_length(), 2);
    assert_eq!(delta.first().unwrap().get_attributes(), &bold);
    assert_eq!(delta.get(1).get_attributes(), &Attributes::default());
}

#[test]
fn build_push_consecutive_retains_mismatched_attributes_passes() {
    let mut bold = Attributes::default();
    bold.insert("bold", b(true));

    let mut delta = Delta::default();
    delta.retain_attr(1, bold.clone());
    delta.retain(3);

    assert_eq!(delta.len(), 2);
    assert_eq!(delta.delta_length(), 4);
    assert_eq!(delta.first().unwrap().get_attributes(), &bold);
    assert_eq!(delta.get(1).get_attributes(), &Attributes::default());
}
