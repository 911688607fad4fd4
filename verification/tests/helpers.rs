use delta::attr_val::AttrVal;
use delta::attributes::Attributes;
use delta::delta::Delta;
use delta::document::Document;
use delta::operations::{DeltaOperation, OpsMap};
use delta::utils::DeltaTransformations;

fn b(v: bool) -> AttrVal {
    AttrVal::Bool(v)
}

fn s(v: &str) -> AttrVal {
    AttrVal::String(v.to_string())
}

#[test]
fn helper_concat_passes() {
    let mut a = Delta::default();
    a.insert(s("Test"));

    let concat = Delta::default();

    let mut expected = Delta::default();
    expected.insert(s("Test"));

    a.concat(concat);
    assert_eq!(a, expected);
}

#[test]
fn helper_unmergeable_passes() {
    let mut a = Delta::default();
    a.insert(s("Test"));

    let mut bold = Attributes::default();
    bold.insert("bold", b(true));

    let mut concat = Delta::default();
    concat.insert_attr(s("!"), bold.clone());

    let mut expected = Delta::default();
    expected.insert(s("Test"));
    expected.insert_attr(s("!"), bold);

    let mut c = a.clone();
    c.concat(concat);
    assert_eq!(c, expected);
}

#[test]
fn helper_mergeable_passes() {
    let mut bold = Attributes::default();
    bold.insert("bold", b(true));

    let mut a = Delta::default();
    a.insert_attr(s("Test"), bold.clone());

    let mut concat = Delta::default();
    concat.insert_attr(s("!"), bold.clone());

    let mut expected = Delta::default();
    expected.insert_attr(s("Test!"), bold.clone());

    let mut c = a.clone();
    c.concat(concat);
    assert_eq!(c, expected);
}

#[test]
fn helper_eachline_passes() {
    let mut bold = Attributes::default();
    bold.insert("bold", b(true));

    let mut align = Attributes::default();
    align.insert("align", s("right"));

    let mut octo = OpsMap::default();
    octo.insert("image", s("octocat.png"));

    let mut a = Delta::default();
    a.insert(s("Hello\n\n"));
    a.insert_attr(s("World"), bold.clone());
    a.insert(AttrVal::Object(octo.clone()));
    a.insert_attr(s("\n"), align.clone());
    a.insert(s("!"));

    let mut expect1 = Delta::default();
    expect1.insert(s("Hello"));

    let expect2 = Delta::default();
    let mut expect3 = Delta::default();
    expect3.insert_attr(s("World"), bold.clone());
    expect3.insert(AttrVal::Object(octo));

    let mut expect4 = Delta::default();
    expect4.insert(s("!"));

    let expected = [expect1, expect2, expect3, expect4];
    let attributes = [
        Attributes::default(),
        Attributes::default(),
        align,
        Attributes::default(),
    ];

    let p = |delta: &Delta, attr: &Attributes, line: usize| -> bool {
        assert_eq!(delta, expected.get(line).unwrap());
        assert_eq!(attr, attributes.get(line).unwrap());
        return true;
    };
    a.each_line(p, None).unwrap();
}

#[test]
fn helper_eachline_trailing_newline_passes() {
    let mut a = Delta::default();
    a.insert(s("Hello\nWorld!\n"));

    let mut expect1 = Delta::default();
    expect1.insert(s("Hello"));

    let mut expect2 = Delta::default();
    expect2.insert(s("World!"));

    let expected = [expect1, expect2];

    let p = |delta: &Delta, _attr: &Attributes, line: usize| -> bool {
        assert_eq!(delta, expected.get(line).unwrap());
        return true;
    };
    a.each_line(p, None).unwrap();
}

#[test]
fn helper_eachline_non_document_passes() {
    let mut a = Delta::default();
    a.retain(1);
    a.delete(2);

    let p = |_delta: &Delta, _attr: &Attributes, _line: usize| -> bool {
        assert_eq!(true, false);
        return true;
    };
    a.each_line(p, None).unwrap();
}

#[test]
fn helper_eachline_early_return_passes() {
    let mut a = Delta::default();
    a.insert(s("Hello\nNew\nWorld"));

    let mut expect1 = Delta::default();
    expect1.insert(s("Hello"));

    let mut expect2 = Delta::default();
    expect2.insert(s("New"));

    let mut expect3 = Delta::default();
    expect3.insert(s("World"));

    let expected = [expect1, expect2, expect3];

    let p = |delta: &Delta, _attr: &Attributes, line: usize| -> bool {
        assert_eq!(delta, expected.get(line).unwrap());
        return true;
    };
    a.each_line(p, None).unwrap();
}

#[test]
fn helper_iteration_passes() {
    let mut img = OpsMap::default();
    img.insert("image", b(true));

    let mut a = Delta::default();
    a.insert(s("Hello"));
    a.insert(AttrVal::Object(img));
    a.insert(s("World!"));

    let mut e1 = Delta::default();
    e1.insert(s("Hello"));
    let mut e2 = Delta::default();
    e2.insert(s("World!"));
    let f = |delta: &DeltaOperation, _index: usize| -> bool {
        return delta.insert_value().is_string();
    };
    let r = a.filter(f);
    assert_eq!(r.len(), 2);
    assert_eq!(r.get(0), e1.get(0));
    assert_eq!(r.get(1), e2.get(0));
}

#[test]
fn helper_doc_length_passes() {
    let mut bold = Attributes::default();
    bold.insert("bold", b(true));

    let mut delta = Delta::default();
    delta.insert_attr(s("AB"), bold);
    delta.insert(AttrVal::Number(1));

    assert_eq!(delta.delta_length(), 3);
}

#[test]
fn helper_doc_length_mixed_passes() {
    let mut bold = Attributes::default();
    bold.insert("bold", b(true));

    let mut bold_null = Attributes::default();
    bold_null.insert("bold", AttrVal::Null);

    let mut delta = Delta::default();
    delta.insert_attr(s("AB"), bold);
    delta.insert(AttrVal::Number(1));
    delta.retain_attr(2, bold_null);
    delta.delete(1);

    assert_eq!(delta.delta_length(), 6);
}

#[test]
fn helper_doc_change_length_passes() {
    let mut bold = Attributes::default();
    bold.insert("bold", b(true));

    let mut bold_null = Attributes::default();
    bold_null.insert("bold", AttrVal::Null);

    let mut delta = Delta::default();
    delta.insert_attr(s("AB"), bold);
    delta.retain_attr(2, bold_null);
    delta.delete(1);

    assert_eq!(delta.document_length(), 1);
}

#[test]
fn helper_slice_tart_and_end_chop_passes() {
    let mut delta = Delta::default();
    delta.insert(s("0123456789"));

    let slc = delta.slice(2, 7);

    let mut expected = Delta::default();
    expected.insert(s("23456"));

    assert_eq!(slc, expected);
}

#[test]
fn helper_slice_start_and_multiple_chop_passes() {
    let mut bold = Attributes::default();
    bold.insert("bold", b(true));

    let mut delta = Delta::default();
    delta.insert_attr(s("0123"), bold.clone());
    delta.insert(s("4567"));
    let slc = delta.slice(3, 5);

    let mut expected = Delta::default();
    expected.insert_attr(s("3"), bold);
    expected.insert(s("4"));

    assert_eq!(slc, expected);
}

#[test]
fn helper_slice_start_and_end_passes() {
    let mut bold = Attributes::default();
    bold.insert("bold", b(true));

    let mut delta = Delta::default();
    delta.retain(2);
    delta.insert_attr(s("A"), bold.clone());
    delta.insert(s("B"));
    let slc = delta.slice(2, 3);

    let mut expected = Delta::default();
    expected.insert_attr(s("A"), bold);

    assert_eq!(slc, expected);
}

#[test]
fn helper_slice_split_ops_passes() {
    let mut bold = Attributes::default();
    bold.insert("bold", b(true));

    let mut delta = Delta::default();
    delta.insert_attr(s("AB"), bold.clone());
    delta.insert(s("C"));
    let slc = delta.slice(1, 2);

    let mut expected = Delta::default();
    expected.insert_attr(s("B"), bold);

    assert_eq!(slc, expected);
}

#[test]
fn helper_slice_ops_multiple_times_passes() {
    let mut bold = Attributes::default();
    bold.insert("bold", b(true));

    let mut delta = Delta::default();
    delta.insert_attr(s("ABC"), bold.clone());
    delta.insert(s("D"));

    let slc = delta.slice(1, 2);

    let mut expected = Delta::default();
    expected.insert_attr(s("B"), bold);

    assert_eq!(slc, expected);
}

#[test]
fn helper_chop_test() {
    let mut a = Delta::default();
    a.insert(s("Test"));
    a.retain(4);

    let mut expected = Delta::default();
    expected.insert(s("Test"));

    a.chop();
    assert_eq!(a, expected);
}

#[test]
fn helper_insert_chop_test() {
    let mut a = Delta::default();
    a.insert(s("Test"));

    let mut expected = Delta::default();
    expected.insert(s("Test"));

    a.chop();
    assert_eq!(a, expected);
}

#[test]
fn helper_formatted_retain_chop_test() {
    let mut bold = Attributes::default();
    bold.insert("bold", b(true));

    let mut a = Delta::default();
    a.insert(s("Test"));
    a.retain_attr(4, bold.clone());

    let mut expected = Delta::default();
    expected.insert(s("Test"));
    expected.retain_attr(4, bold.clone());

    a.chop();
    assert_eq!(a, expected);
}
