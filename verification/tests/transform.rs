use delta::attr_val::AttrVal;
use delta::attributes::Attributes;
use delta::delta::Delta;
use delta::optransform::OpTransform;

fn b(v: bool) -> AttrVal {
    AttrVal::Bool(v)
}

fn s(v: &str) -> AttrVal {
    AttrVal::String(v.to_string())
}

#[test]
fn compose_insert_and_insert_passes() {
    let mut a1 = Delta::default();
    a1.insert(s("A"));
    let a2 = a1.clone();
    let mut b1 = Delta::default();
    b1.insert(s("B"));

    let b2 = b1.clone();

    let mut expected1 = Delta::default();
    expected1.retain(1);
    expected1.insert(s("B"));

    let mut expected2 = Delta::default();
    expected2.insert(s("B"));

    let r = a1.transform(&b1, true).unwrap();
    assert_eq!(&r, &expected1);
    let r = a2.transform(&b2, false).unwrap();
    assert_eq!(&r, &expected2);
}

#[test]
fn compose_insert_and_retain_passes() {
    let mut a = Delta::default();
    a.insert(s("A"));

    let mut attr = Attributes::default();
    attr.insert("bold", b(true));
    attr.insert("color", s("red"));

    let mut bb = Delta::default();
    bb.retain_attr(1, attr.clone());

    let mut expected = Delta::default();
    expected.retain(1);
    expected.retain_attr(1, attr.clone());

    let r = a.transform(&bb, false).unwrap();
    assert_eq!(&r, &expected);

    let r = a.transform(&bb, true).unwrap();
    assert_eq!(&r, &expected);
}

#[test]
fn compose_insert_and_delete_passes() {
    let mut a = Delta::default();
    a.insert(s("A"));

    let mut bb = Delta::default();
    bb.delete(1);

    let mut expected = Delta::default();
    expected.retain(1);
    expected.delete(1);

    let r = a.transform(&bb, false).unwrap();
    assert_eq!(&r, &expected);

    let r = a.transform(&bb, true).unwrap();
    assert_eq!(&r, &expected);
}

#[test]
fn transform_compose_delete_insert_passes() {
    let mut a = Delta::default();
    a.delete(1);

    let mut bb = Delta::default();
    bb.insert(s("B"));

    let mut expected = Delta::default();
    expected.insert(s("B"));

    let r = a.transform(&bb, false).unwrap();
    assert_eq!(&r, &expected);

    let r = a.transform(&bb, true).unwrap();
    assert_eq!(&r, &expected);
}

#[test]
fn transform_compose_delete_retain_passes() {
    let mut a = Delta::default();
    a.delete(1);

    let mut attr = Attributes::default();
    attr.insert("bold", b(true));
    attr.insert("color", s("red"));

    let mut bb = Delta::default();
    bb.retain_attr(1, attr.clone());

    let expected = Delta::default();

    let r = a.transform(&bb, true).unwrap();
    assert_eq!(&r, &expected);
}

#[test]
fn transform_compose_delete_delete_passes() {
    let mut a = Delta::default();
    a.delete(1);

    let mut bb = Delta::default();
    bb.delete(1);

    let expected = Delta::default();

    let r = a.transform(&bb, false).unwrap();
    assert_eq!(&r, &expected);
}

#[test]
fn transform_compose_retain_insert_passes() {
    let mut attr = Attributes::default();
    attr.insert("color", s("blue"));

    let mut a = Delta::default();
    a.retain_attr(1, attr);

    let mut bb = Delta::default();
    bb.insert(s("B"));

    let mut expected = Delta::default();
    expected.insert(s("B"));

    let r = a.transform(&bb, true).unwrap();
    assert_eq!(&r, &expected);
}

#[test]
fn transform_compose_retain_retain_passes() {
    let mut blue = Attributes::default();
    blue.insert("color", s("blue"));

    let mut bold_red = Attributes::default();
    bold_red.insert("bold", b(true));
    bold_red.insert("color", s("red"));

    let mut bold = Attributes::default();
    bold.insert("bold", b(true));

    let mut a1 = Delta::default();
    a1.retain_attr(1, blue.clone());

    let a2 = a1.clone();
    let mut b1 = Delta::default();
    b1.retain_attr(1, bold_red.clone());

    let b2 = b1.clone();

    let mut expected1 = Delta::default();
    expected1.retain_attr(1, bold);

    let expected2 = Delta::default();

    let r = a1.transform(&b1, true).unwrap();
    assert_eq!(&r, &expected1);
    let r = b2.transform(&a2, true).unwrap();
    assert_eq!(&r, &expected2);
}

#[test]
fn compose_retain_retain_without_prio_passes() {
    let mut blue = Attributes::default();
    blue.insert("color", s("blue"));

    let mut bold_red = Attributes::default();
    bold_red.insert("bold", b(true));
    bold_red.insert("color", s("red"));

    let mut a1 = Delta::default();
    a1.retain_attr(1, blue.clone());

    let a2 = a1.clone();
    let mut b1 = Delta::default();
    b1.retain_attr(1, bold_red.clone());

    let b2 = b1.clone();

    let mut expected1 = Delta::default();
    expected1.retain_attr(1, bold_red);

    let mut expected2 = Delta::default();
    expected2.retain_attr(1, blue);

    let r = a1.transform(&b1, false).unwrap();
    assert_eq!(&r, &expected1);
    let r = b2.transform(&a2, false).unwrap();
    assert_eq!(&r, &expected2);
}

#[test]
fn transform_compose_retain_delete_passes() {
    let mut attr = Attributes::default();
    attr.insert("color", s("blue"));

    let mut a = Delta::default();
    a.retain_attr(1, attr);

    let mut bb = Delta::default();
    bb.delete(1);

    let mut expected = Delta::default();
    expected.delete(1);

    let r = a.transform(&bb, true).unwrap();
    assert_eq!(&r, &expected);
}

#[test]
fn compose_alternating_edits_passes() {
    let mut a1 = Delta::default();
    a1.retain(2);
    a1.insert(s("si"));
    a1.delete(5);

    let a2 = a1.clone();
    let mut b1 = Delta::default();
    b1.retain(1);
    b1.insert(s("e"));
    b1.delete(5);
    b1.retain(1);
    b1.insert(s("ow"));

    let b2 = b1.clone();
    let mut expected1 = Delta::default();
    expected1.retain(1);
    expected1.insert(s("e"));
    expected1.delete(1);
    expected1.retain(2);
    expected1.insert(s("ow"));

    let mut expected2 = Delta::default();
    expected2.retain(2);
    expected2.insert(s("si"));
    expected2.delete(1);

    let r = a1.transform(&b1, false).unwrap();
    assert_eq!(&r, &expected1);
    let r = b2.transform(&a2, false).unwrap();
    assert_eq!(&r, &expected2);
}

#[test]
fn compose_conflicting_appends_passes() {
    let mut a1 = Delta::default();
    a1.retain(3);
    a1.insert(s("aa"));

    let a2 = a1.clone();
    let mut b1 = Delta::default();
    b1.retain(3);
    b1.insert(s("bb"));

    let b2 = b1.clone();
    let mut expected1 = Delta::default();
    expected1.retain(3);
    expected1.insert(s("bb"));

    let mut expected2 = Delta::default();
    expected2.retain(3);
    expected2.insert(s("aa"));

    let r = a1.transform(&b1, false).unwrap();
    assert_eq!(&r, &expected1);
    let r = b2.transform(&a2, false).unwrap();
    assert_eq!(&r, &expected2);
}

#[test]
fn compose_prepend_appends_passes() {
    let mut a1 = Delta::default();
    a1.insert(s("aa"));

    let a2 = a1.clone();
    let mut b1 = Delta::default();
    b1.retain(3);
    b1.insert(s("bb"));

    let b2 = b1.clone();
    let mut expected1 = Delta::default();
    expected1.retain(5);
    expected1.insert(s("bb"));

    let mut expected2 = Delta::default();
    expected2.insert(s("aa"));

    let r = a1.transform(&b1, false).unwrap();
    assert_eq!(&r, &expected1);
    let r = b2.transform(&a2, false).unwrap();
    assert_eq!(&r, &expected2);
}

#[test]
fn compose_trailing_deletes_with_different_length_passes() {
    let mut a1 = Delta::default();
    a1.retain(2);
    a1.delete(1);

    let a2 = a1.clone();
    let mut b1 = Delta::default();
    b1.delete(3);

    let b2 = b1.clone();
    let mut expected1 = Delta::default();
    expected1.delete(2);

    let expected2 = Delta::default();

    let r = a1.transform(&b1, false).unwrap();
    assert_eq!(&r, &expected1);
    let r = b2.transform(&a2, false).unwrap();
    assert_eq!(&r, &expected2);
}

#[test]
fn transform_compose_immutability_passes() {
    let mut a1 = Delta::default();
    a1.insert(s("A"));

    let a2 = a1.clone();
    let mut b1 = Delta::default();
    b1.insert(s("B"));

    let b2 = b1.clone();
    let mut expected = Delta::default();
    expected.retain(1);
    expected.insert(s("B"));

    let r = a1.transform(&b1, true).unwrap();
    assert_eq!(&r, &expected);
    assert_eq!(a1, a2);
    assert_eq!(b1, b2);
}
