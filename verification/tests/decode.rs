use bitschema::error::{DecodeError, DecodeFault};
use bitschema::field::{BooleanField, BytesField, Field, IntField};
use bitschema::schema::Schema;
use bitschema::value::{Value, Values};

fn int_field(name: &str, min: i32, max: i32) -> Field {
    Field::Int(IntField { name: name.to_string(), min, max, bits: None, always_present: None })
}

fn boolean_field(name: &str) -> Field {
    Field::Boolean(BooleanField { name: name.to_string(), bits: None })
}

fn bytes_field(name: &str, max: i32) -> Field {
    Field::Bytes(BytesField { name: name.to_string(), max, bits: None })
}

#[test]
fn fields_are_read_from_the_lowest_bit() {
    let schema = Schema::construct(&[
        int_field("x", 10, 13),
        int_field("y", -3, 4),
        boolean_field("z"),
        int_field("w", 0, 255),
    ])
    .unwrap();
    let input = vec![34u8, 50];
    let decoded = schema.from_buffer(&input).unwrap();
    assert_eq!(decoded.len(), 4);
    assert_eq!(decoded.get("x"), Some(Value::Int(12)));
    assert_eq!(decoded.get("y"), Some(Value::Int(-3)));
    assert_eq!(decoded.get("z"), Some(Value::Boolean(true)));
    assert_eq!(decoded.get("w"), Some(Value::Int(200)));
}

#[test]
fn wide_fields_are_read_across_byte_borders() {
    let schema = Schema::construct(&[
        int_field("a", i32::MIN, i32::MAX),
        boolean_field("b"),
        int_field("c", 0, 1000),
    ])
    .unwrap();
    let input = vec![255u8, 255, 255, 127, 207, 7];
    let decoded = schema.from_buffer(&input).unwrap();
    assert_eq!(decoded.get("a"), Some(Value::Int(-1)));
    assert_eq!(decoded.get("b"), Some(Value::Boolean(true)));
    assert_eq!(decoded.get("c"), Some(Value::Int(999)));
}

#[test]
fn payload_is_the_end_of_the_input() {
    let schema =
        Schema::construct(&[bytes_field("p", 5), int_field("x", 0, 6), boolean_field("y")])
            .unwrap();
    let input = vec![61u8, 1, 2, 3];
    let decoded = schema.from_buffer(&input).unwrap();
    assert_eq!(decoded.get("x"), Some(Value::Int(5)));
    assert_eq!(decoded.get("y"), Some(Value::Boolean(true)));
    assert_eq!(decoded.get("p"), Some(Value::Buffer(&[1, 2, 3])));

    let padded = vec![61u8, 9, 9, 1, 2, 3];
    let decoded = schema.from_buffer(&padded).unwrap();
    assert_eq!(decoded.get("p"), Some(Value::Buffer(&[1, 2, 3])));
}

#[test]
fn bits_past_the_last_field_are_not_read() {
    let schema = Schema::construct(&[int_field("a", 0, 3)]).unwrap();
    let input = vec![0b1111_0110u8, 0xff];
    let decoded = schema.from_buffer(&input).unwrap();
    assert_eq!(decoded.get("a"), Some(Value::Int(2)));
    assert_eq!(decoded.len(), 1);
}

#[test]
fn empty_schema_decodes_to_nothing() {
    let schema = Schema::construct(&[]).unwrap();
    let input = vec![1u8, 2, 3];
    assert_eq!(schema.from_buffer(&input), Ok(Values::new()));
    let empty: Vec<u8> = Vec::new();
    assert_eq!(schema.from_buffer(&empty), Ok(Values::new()));
}

#[test]
fn underrun_names_the_field_that_lacks_bits() {
    let schema = Schema::construct(&[
        int_field("a", 0, 15),
        int_field("fixed", 3, 3),
        int_field("b", 0, 15),
        int_field("c", 0, 1),
    ])
    .unwrap();
    let input = vec![0xabu8];
    assert_eq!(
        schema.from_buffer(&input),
        Err(DecodeError { fault: DecodeFault::BufferUnderrun, index: 3, field: "c".to_string() })
    );
}

#[test]
fn length_beyond_the_input_is_refused() {
    let schema = Schema::construct(&[bytes_field("p", 5)]).unwrap();
    let input = vec![3u8, 1, 2];
    assert_eq!(
        schema.from_buffer(&input),
        Err(DecodeError { fault: DecodeFault::InvalidLength, index: 0, field: "p".to_string() })
    );
    let input = vec![3u8, 1, 2, 3];
    assert_eq!(
        schema.from_buffer(&input).unwrap().get("p"),
        Some(Value::Buffer(&[1, 2, 3]))
    );
}

#[test]
fn number_past_the_largest_int_is_refused() {
    let schema = Schema::construct(&[int_field("a", i32::MAX - 2, i32::MAX)]).unwrap();
    let input = vec![3u8];
    assert_eq!(
        schema.from_buffer(&input),
        Err(DecodeError { fault: DecodeFault::ValueOverflow, index: 0, field: "a".to_string() })
    );
    let input = vec![2u8];
    assert_eq!(schema.from_buffer(&input).unwrap().get("a"), Some(Value::Int(i32::MAX)));
}

#[test]
fn later_field_of_the_same_name_stands() {
    let schema = Schema::construct(&[int_field("n", 0, 3), boolean_field("n")]).unwrap();
    let input = vec![0b0000_0110u8];
    let decoded = schema.from_buffer(&input).unwrap();
    assert_eq!(decoded.len(), 1);
    assert_eq!(decoded.get("n"), Some(Value::Boolean(true)));
}
