use vstd::prelude::*;

verus! {

pub const TAG_NULL: i64 = 0;
pub const TAG_INT: i64 = 1;
pub const TAG_BOOL: i64 = 2;
pub const TAG_FLOAT: i64 = 3;
pub const TAG_STRING: i64 = 4;
pub const TAG_OBJECT: i64 = 5;

/// Tagged value for heterogeneous storage: a tag saying what the 64 bits
/// hold (null, integer, boolean, float bits, string address, object
/// address).
pub struct PicoValue {
    tag: i64,
    bits: u64,
}

impl View for PicoValue {
    /// The tag and the bits.
    type V = (i64, u64);

    closed spec fn view(&self) -> (i64, u64) {
        (self.tag, self.bits)
    }
}

/// The name of a tag, as shown in messages about a tag mismatch.
pub open spec fn tag_name_spec(tag: i64) -> Seq<char> {
    if tag == TAG_NULL {
        "NULL"@
    } else if tag == TAG_INT {
        "INT"@
    } else if tag == TAG_BOOL {
        "BOOL"@
    } else if tag == TAG_FLOAT {
        "FLOAT"@
    } else if tag == TAG_STRING {
        "STRING"@
    } else if tag == TAG_OBJECT {
        "OBJECT"@
    } else {
        "UNKNOWN"@
    }
}

/// The name of `tag`.
pub fn tag_name(tag: i64) -> (r: &'static str)
    ensures
        r@ == tag_name_spec(tag),
{
    if tag == TAG_NULL {
        "NULL"
    } else if tag == TAG_INT {
        "INT"
    } else if tag == TAG_BOOL {
        "BOOL"
    } else if tag == TAG_FLOAT {
        "FLOAT"
    } else if tag == TAG_STRING {
        "STRING"
    } else if tag == TAG_OBJECT {
        "OBJECT"
    } else {
        "UNKNOWN"
    }
}

impl PicoValue {
    /// A heap-allocated value with the given tag and bits.
    pub fn boxed(tag: i64, bits: u64) -> (r: Box<PicoValue>)
        ensures
            r@ == (tag, bits),
    {
        Box::new(PicoValue { tag, bits })
    }
}

/// The null value.
pub fn pico_value_none() -> (r: Box<PicoValue>)
    ensures
        r@ == (TAG_NULL, 0u64),
{
    PicoValue::boxed(TAG_NULL, 0)
}

/// An integer value.
pub fn pico_value_from_int(val: i64) -> (r: Box<PicoValue>)
    ensures
        r@ == (TAG_INT, val as u64),
{
    PicoValue::boxed(TAG_INT, val as u64)
}

/// A boolean value: any non-zero `val` is true and stored as 1.
pub fn pico_value_from_bool(val: i64) -> (r: Box<PicoValue>)
    ensures
        r@ == (TAG_BOOL, if val != 0 { 1u64 } else { 0u64 }),
{
    PicoValue::boxed(TAG_BOOL, if val != 0 { 1 } else { 0 })
}

/// A float value, given by the IEEE-754 bits of the float.
pub fn pico_value_from_float(float_bits: u64) -> (r: Box<PicoValue>)
    ensures
        r@ == (TAG_FLOAT, float_bits),
{
    PicoValue::boxed(TAG_FLOAT, float_bits)
}

/// A string value, given by the address of the string.
pub fn pico_value_from_string(addr: u64) -> (r: Box<PicoValue>)
    ensures
        r@ == (TAG_STRING, addr),
{
    PicoValue::boxed(TAG_STRING, addr)
}

/// An object value, given by the address of the object.
pub fn pico_value_from_object(addr: u64) -> (r: Box<PicoValue>)
    ensures
        r@ == (TAG_OBJECT, addr),
{
    PicoValue::boxed(TAG_OBJECT, addr)
}

/// The tag of a value; an absent (null) value has the null tag.
pub fn pico_value_tag(val: Option<&PicoValue>) -> (r: i64)
    ensures
        r == match val {
            Some(v) => v@.0,
            None => TAG_NULL,
        },
{
    match val {
        Some(v) => v.tag,
        None => TAG_NULL,
    }
}

/// The integer held by an integer value.
pub fn pico_value_as_int(val: &PicoValue) -> (r: i64)
    requires
        val@.0 == TAG_INT,
    ensures
        r == val@.1 as i64,
{
    val.bits as i64
}

/// The boolean (0 or 1) held by a boolean value.
pub fn pico_value_as_bool(val: &PicoValue) -> (r: i64)
    requires
        val@.0 == TAG_BOOL,
    ensures
        r == val@.1 as i64,
{
    val.bits as i64
}

/// The IEEE-754 bits of the float held by a float value.
pub fn pico_value_as_float(val: &PicoValue) -> (r: u64)
    requires
        val@.0 == TAG_FLOAT,
    ensures
        r == val@.1,
{
    val.bits
}

/// The string address held by a string value.
pub fn pico_value_as_string(val: &PicoValue) -> (r: u64)
    requires
        val@.0 == TAG_STRING,
    ensures
        r == val@.1,
{
    val.bits
}

/// The object address held by an object value.
pub fn pico_value_as_object(val: &PicoValue) -> (r: u64)
    requires
        val@.0 == TAG_OBJECT,
    ensures
        r == val@.1,
{
    val.bits
}

/// Reading a value back gives what was stored: the integer of an integer
/// value, 1 or 0 for a boolean value according as the stored flag was
/// non-zero, and the float bits or address of the other kinds.
pub proof fn law_value_roundtrip(v: i64, bits: u64)
    ensures
        (v as u64) as i64 == v,
        ((if v != 0 { 1u64 } else { 0u64 }) as i64) == (if v != 0 { 1i64 } else { 0i64 }),
{
    assert((v as u64) as i64 == v) by (bit_vector);
}

} // verus!
