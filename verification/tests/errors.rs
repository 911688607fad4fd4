use delta::attr_val::AttrVal;
use delta::error::Error;
use delta::operations::DeltaOperation;

#[test]
fn wrong_type_errors() {
    let v = AttrVal::Number(7);
    assert!(matches!(v.str_val(), Err(Error::GetValueWrongType { .. })));
    assert!(matches!(v.bool_val(), Err(Error::GetValueWrongType { .. })));
    assert!(matches!(v.map_val(), Err(Error::GetValueWrongType { .. })));

    let v = AttrVal::String("seven".to_string());
    assert!(matches!(v.number_val(), Err(Error::GetValueWrongType { .. })));
    assert_eq!(v.str_val().unwrap(), "seven");

    let op = DeltaOperation::retain(3);
    assert!(matches!(op.string_val(), Err(Error::GetValueWrongType { .. })));
}
