use delta::attr_val::AttrVal;
use delta::attributes::{compose, diff, invert, transform, Attributes};

fn b(v: bool) -> AttrVal {
    AttrVal::Bool(v)
}

fn s(v: &str) -> AttrVal {
    AttrVal::String(v.to_string())
}

#[test]
fn compose_left_undefined_passes() {
    let mut att = Attributes::default();
    att.insert("bold", b(true));
    att.insert("color", s("red"));

    let res = att.clone();
    compose(&Attributes::default(), &att, true);
    assert_eq!(att, res);
}

#[test]
fn compose_right_undefined_passes() {
    let mut att = Attributes::default();
    att.insert("bold", b(true));
    att.insert("color", s("red"));

    let res = att.clone();
    compose(&att, &Attributes::default(), true);
    assert_eq!(att, res);
}

#[test]
fn compose_both_undefined_passes() {
    let attributes = Attributes::default();
    compose(&Attributes::default(), &attributes, true);
    assert_eq!(attributes, Attributes::default());
}

#[test]
fn compose_missing_passes() {
    let mut attributes = Attributes::default();
    attributes.insert("bold", b(true));
    attributes.insert("color", s("red"));

    let mut italics = Attributes::default();
    italics.insert("italic", b(true));

    let mut combi = Attributes::default();
    combi.insert("bold", b(true));
    combi.insert("color", s("red"));
    combi.insert("italic", b(true));

    let res = compose(&italics, &attributes, true);
    assert_eq!(res, combi);
}

#[test]
fn compose_overwrite_passes() {
    let mut attributes = Attributes::default();
    attributes.insert("bold", b(true));
    attributes.insert("color", s("red"));

    let mut italics = Attributes::default();
    italics.insert("bold", b(false));
    italics.insert("color", s("blue"));

    let mut combi = Attributes::default();
    combi.insert("bold", b(false));
    combi.insert("color", s("blue"));

    compose(&attributes, &italics, false);
    assert_eq!(italics, combi);
}

#[test]
fn compose_remove_passes() {
    let mut attributes = Attributes::default();
    attributes.insert("bold", b(true));
    attributes.insert("color", s("red"));

    let mut italics = Attributes::default();
    italics.insert("bold", AttrVal::Null);

    let mut combi = Attributes::default();
    combi.insert("color", s("red"));

    let res = compose(&attributes, &italics, false);
    assert_eq!(res, combi);
}

#[test]
fn compose_remove_to_none_passes() {
    let mut attributes = Attributes::default();
    attributes.insert("bold", b(true));
    attributes.insert("color", s("red"));

    let mut italics = Attributes::default();
    italics.insert("bold", AttrVal::Null);
    italics.insert("color", AttrVal::Null);

    let combi: Attributes = Attributes::default();

    let res = compose(&attributes, &italics, false);

    assert_eq!(res, combi);
}

#[test]
fn compose_remove_missing_passes() {
    let mut attributes = Attributes::default();
    attributes.insert("bold", b(true));
    attributes.insert("color", s("red"));

    let mut italics = Attributes::default();
    italics.insert("italic", AttrVal::Null);

    let res = compose(&attributes, &italics, false);
    assert_eq!(res, attributes);
}

#[test]
fn diff_left_undefined_passes() {
    let mut attributes = Attributes::default();
    attributes.insert("bold", b(true));
    attributes.insert("color", s("red"));

    assert_eq!(diff(&Attributes::default(), &attributes), attributes);
}

#[test]
fn diff_right_undefined_passes() {
    let mut attributes = Attributes::default();
    attributes.insert("bold", b(true));
    attributes.insert("color", s("red"));

    let mut expected = Attributes::default();
    expected.insert("bold", AttrVal::Null);
    expected.insert("color", AttrVal::Null);

    assert_eq!(diff(&attributes, &Attributes::default()), expected);
}

#[test]
fn diff_same_format_passes() {
    let mut attributes = Attributes::default();
    attributes.insert("bold", b(true));
    attributes.insert("color", s("red"));

    assert_eq!(diff(&attributes, &attributes), Attributes::default());
}

#[test]
fn diff_add_format_passes() {
    let mut attributes = Attributes::default();
    attributes.insert("bold", b(true));
    attributes.insert("color", s("red"));

    let mut added = Attributes::default();
    added.insert("bold", b(true));
    added.insert("italic", b(true));
    added.insert("color", s("red"));

    let mut expected = Attributes::default();
    expected.insert("italic", b(true));

    assert_eq!(diff(&attributes, &added), expected);
}

#[test]
fn diff_remove_format_passes() {
    let mut attributes = Attributes::default();
    attributes.insert("bold", b(true));
    attributes.insert("color", s("red"));

    let mut removed = Attributes::default();
    removed.insert("bold", b(true));

    let mut expected = Attributes::default();
    expected.insert("color", AttrVal::Null);

    assert_eq!(diff(&attributes, &removed), expected);
}

#[test]
fn diff_overwrite_format_passes() {
    let mut attributes = Attributes::default();
    attributes.insert("bold", b(true));
    attributes.insert("color", s("red"));

    let mut removed = Attributes::default();
    removed.insert("bold", b(true));
    removed.insert("color", s("blue"));

    let mut expected = Attributes::default();
    expected.insert("color", s("blue"));

    assert_eq!(diff(&attributes, &removed), expected);
}

#[test]
fn invert_passes() {
    let mut base = Attributes::default();
    base.insert("bold", b(true));

    assert_eq!(invert(&Attributes::default(), &base), Attributes::default());
}

#[test]
fn invert_base_undefined_passes() {
    let mut attributes = Attributes::default();
    attributes.insert("bold", b(true));

    let mut expected = Attributes::default();
    expected.insert("bold", AttrVal::Null);

    assert_eq!(invert(&attributes, &Attributes::default()), expected);
}

#[test]
fn invert_both_undefined_passes() {
    assert_eq!(
        invert(&Attributes::default(), &Attributes::default()),
        Attributes::default()
    );
}

#[test]
fn invert_merge_passes() {
    let mut attributes = Attributes::default();
    attributes.insert("bold", b(true));

    let mut base = Attributes::default();
    base.insert("italic", b(true));

    let mut expected = Attributes::default();
    expected.insert("bold", AttrVal::Null);

    assert_eq!(invert(&attributes, &base), expected);
}

#[test]
fn invert_null_passes() {
    let mut attributes = Attributes::default();
    attributes.insert("bold", AttrVal::Null);

    let mut base = Attributes::default();
    base.insert("bold", b(true));

    let mut expected = Attributes::default();
    expected.insert("bold", b(true));

    assert_eq!(invert(&attributes, &base), expected);
}

#[test]
fn invert_replace_passes() {
    let mut attributes = Attributes::default();
    attributes.insert("color", s("red"));

    let mut base = Attributes::default();
    base.insert("color", s("blue"));

    let mut expected = Attributes::default();
    expected.insert("color", s("blue"));

    assert_eq!(invert(&attributes, &base), expected);
}

#[test]
fn attributes_invert_combined_passes() {
    let mut attributes = Attributes::default();
    attributes.insert("bold", b(true));
    attributes.insert("italic", AttrVal::Null);
    attributes.insert("color", s("red"));
    attributes.insert("size", s("12px"));

    let mut base = Attributes::default();
    base.insert("font", s("serif"));
    base.insert("italic", b(true));
    base.insert("color", s("blue"));
    base.insert("size", s("12px"));

    let mut expected = Attributes::default();
    expected.insert("bold", AttrVal::Null);
    expected.insert("italic", b(true));
    expected.insert("color", s("blue"));

    assert_eq!(invert(&attributes, &base), expected);
}

#[test]
fn invert_noop_passes() {
    let mut attributes = Attributes::default();
    attributes.insert("color", s("red"));

    let mut base = Attributes::default();
    base.insert("color", s("red"));

    assert_eq!(invert(&attributes, &base), Attributes::default());
}

#[test]
fn transform_left_undefined_passes() {
    let mut left = Attributes::default();
    left.insert("bold", b(true));
    left.insert("color", s("red"));
    left.insert("font", AttrVal::Null);

    let attributes = Attributes::default();

    let res = transform(&attributes, &left, false);

    assert_eq!(res, left);
}

#[test]
fn transform_right_undefined_passes() {
    let mut right = Attributes::default();
    right.insert("bold", b(true));
    right.insert("color", s("red"));
    right.insert("font", AttrVal::Null);

    let res = transform(&right, &Attributes::default(), false);

    assert_eq!(res, Attributes::default());
}

#[test]
fn transform_both_undefined_passes() {
    let attributes = Attributes::default();
    transform(&attributes, &Attributes::default(), false);
    assert_eq!(attributes, Attributes::default());
}

#[test]
fn transform_with_priority_passes() {
    let mut left = Attributes::default();
    left.insert("bold", b(true));
    left.insert("color", s("red"));
    left.insert("font", AttrVal::Null);

    let mut right = Attributes::default();
    right.insert("color", s("blue"));
    right.insert("font", s("serif"));
    right.insert("italic", b(true));

    let mut expected = Attributes::default();
    expected.insert("italic", b(true));

    let res = transform(&left, &right, true);
    assert_eq!(res, expected);
}

#[test]
fn transform_without_priority_passes() {
    let mut left = Attributes::default();
    left.insert("bold", b(true));
    left.insert("color", s("red"));
    left.insert("font", AttrVal::Null);

    let mut right = Attributes::default();
    right.insert("color", s("blue"));
    right.insert("font", s("serif"));
    right.insert("italic", b(true));

    let mut expected = Attributes::default();
    expected.insert("italic", b(true));

    let res = transform(&left, &right, false);

    assert_eq!(res, right);
}
