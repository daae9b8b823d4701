use pico_runtime::runtime::{pico_rt_version, picohp_object_alloc_size};
use pico_runtime::value::{
    pico_value_as_bool, pico_value_as_float, pico_value_as_int, pico_value_as_object,
    pico_value_as_string, pico_value_from_bool, pico_value_from_float, pico_value_from_int,
    pico_value_from_object, pico_value_from_string, pico_value_none, pico_value_tag, tag_name,
    TAG_BOOL, TAG_FLOAT, TAG_INT, TAG_NULL, TAG_OBJECT, TAG_STRING,
};

#[test]
fn constructors_set_tags() {
    assert_eq!(pico_value_tag(Some(&pico_value_none())), TAG_NULL);
    assert_eq!(pico_value_tag(Some(&pico_value_from_int(3))), TAG_INT);
    assert_eq!(pico_value_tag(Some(&pico_value_from_bool(0))), TAG_BOOL);
    assert_eq!(pico_value_tag(Some(&pico_value_from_float(1.5f64.to_bits()))), TAG_FLOAT);
    assert_eq!(pico_value_tag(Some(&pico_value_from_string(0x10))), TAG_STRING);
    assert_eq!(pico_value_tag(Some(&pico_value_from_object(0x20))), TAG_OBJECT);
    assert_eq!(pico_value_tag(None), TAG_NULL);
}

#[test]
fn accessors_read_back() {
    assert_eq!(pico_value_as_int(&pico_value_from_int(-42)), -42);
    assert_eq!(pico_value_as_int(&pico_value_from_int(i64::MIN)), i64::MIN);
    assert_eq!(pico_value_as_bool(&pico_value_from_bool(17)), 1);
    assert_eq!(pico_value_as_bool(&pico_value_from_bool(0)), 0);
    assert_eq!(f64::from_bits(pico_value_as_float(&pico_value_from_float(2.25f64.to_bits()))), 2.25);
    assert_eq!(pico_value_as_string(&pico_value_from_string(0xabc)), 0xabc);
    assert_eq!(pico_value_as_object(&pico_value_from_object(0xdef)), 0xdef);
}

#[test]
fn tag_names() {
    assert_eq!(tag_name(TAG_NULL), "NULL");
    assert_eq!(tag_name(TAG_INT), "INT");
    assert_eq!(tag_name(TAG_BOOL), "BOOL");
    assert_eq!(tag_name(TAG_FLOAT), "FLOAT");
    assert_eq!(tag_name(TAG_STRING), "STRING");
    assert_eq!(tag_name(TAG_OBJECT), "OBJECT");
    assert_eq!(tag_name(-1), "UNKNOWN");
    assert_eq!(tag_name(6), "UNKNOWN");
}

#[test]
fn runtime_constants() {
    assert_eq!(pico_rt_version(), 2);
    assert_eq!(picohp_object_alloc_size(0), 8);
    assert_eq!(picohp_object_alloc_size(3), 8);
    assert_eq!(picohp_object_alloc_size(8), 8);
    assert_eq!(picohp_object_alloc_size(24), 24);
}
