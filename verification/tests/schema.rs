use bitschema::error::{SchemaError, SchemaFault};
use bitschema::field::{BooleanField, BytesField, Field, IntField};
use bitschema::schema::Schema;
use bitschema::width::bits_for;

fn int_field(name: &str, min: i32, max: i32) -> Field {
    Field::Int(IntField { name: name.to_string(), min, max, bits: None, always_present: None })
}

fn boolean_field(name: &str) -> Field {
    Field::Boolean(BooleanField { name: name.to_string(), bits: None })
}

fn bytes_field(name: &str, max: i32) -> Field {
    Field::Bytes(BytesField { name: name.to_string(), max, bits: None })
}

fn names(schema: &Schema) -> Vec<String> {
    schema.fields().iter().map(|f| f.name().clone()).collect()
}

#[test]
fn width_is_the_logarithm_rounded_up() {
    let expected: [(u64, u32); 17] = [
        (1, 0),
        (2, 1),
        (3, 2),
        (4, 2),
        (5, 3),
        (8, 3),
        (9, 4),
        (1000, 10),
        (1001, 10),
        (10001, 14),
        (16_777_217, 25),
        (2_147_483_648, 31),
        (4_294_967_295, 32),
        (4_294_967_296, 32),
        (4_294_967_297, 33),
        (1 << 63, 63),
        (u64::MAX, 64),
    ];
    for (count, bits) in expected {
        assert_eq!(bits_for(count), bits, "count {}", count);
    }
    assert_eq!(bits_for(0), 0);
}

#[test]
fn int_field_gets_the_width_of_its_range() {
    let schema = Schema::construct(&[
        int_field("a", 0, 1),
        int_field("b", -5000, 5000),
        int_field("c", i32::MIN, i32::MAX),
        int_field("d", 7, 7),
        int_field("e", i32::MAX - 2, i32::MAX),
    ])
    .unwrap();
    let fields = schema.fields();
    assert_eq!(
        fields[0],
        Field::Int(IntField {
            name: "a".to_string(),
            min: 0,
            max: 1,
            bits: Some(1),
            always_present: Some(false),
        })
    );
    assert_eq!(fields[1].bits(), Some(14));
    assert_eq!(fields[2].bits(), Some(32));
    assert_eq!(
        fields[3],
        Field::Int(IntField {
            name: "d".to_string(),
            min: 7,
            max: 7,
            bits: Some(0),
            always_present: Some(true),
        })
    );
    assert_eq!(fields[4].bits(), Some(2));
    assert_eq!(schema.max_byte_length(), 7);
}

#[test]
fn boolean_field_takes_one_bit() {
    let schema = Schema::construct(&[boolean_field("x"), int_field("n", 0, 100), boolean_field("y")])
        .unwrap();
    assert_eq!(
        schema.fields()[0],
        Field::Boolean(BooleanField { name: "x".to_string(), bits: Some(1) })
    );
    assert_eq!(schema.fields()[2].bits(), Some(1));
    assert_eq!(schema.max_byte_length(), 2);
}

#[test]
fn bytes_field_gets_the_width_of_its_length() {
    let schema = Schema::construct(&[bytes_field("p", 1000)]).unwrap();
    assert_eq!(
        schema.fields()[0],
        Field::Bytes(BytesField { name: "p".to_string(), max: 1000, bits: Some(10) })
    );
    let schema = Schema::construct(&[bytes_field("p", 0)]).unwrap();
    assert_eq!(schema.fields()[0].bits(), Some(0));
    assert_eq!(schema.max_byte_length(), 0);
    let schema = Schema::construct(&[bytes_field("p", i32::MAX)]).unwrap();
    assert_eq!(schema.fields()[0].bits(), Some(31));
    assert_eq!(schema.max_byte_length(), 4);
}

#[test]
fn widths_given_in_a_declaration_are_ignored() {
    let declared = Field::Int(IntField {
        name: "a".to_string(),
        min: 0,
        max: 2,
        bits: Some(31),
        always_present: Some(true),
    });
    let schema = Schema::construct(&[declared]).unwrap();
    assert_eq!(
        schema.fields()[0],
        Field::Int(IntField {
            name: "a".to_string(),
            min: 0,
            max: 2,
            bits: Some(2),
            always_present: Some(false),
        })
    );
}

#[test]
fn bytes_field_moves_behind_the_others() {
    let schema = Schema::construct(&[
        int_field("a", 0, 3),
        bytes_field("p", 10),
        boolean_field("b"),
        int_field("c", 1, 1),
        boolean_field("d"),
    ])
    .unwrap();
    assert_eq!(names(&schema), vec!["a", "b", "c", "d", "p"]);
    let schema = Schema::construct(&[bytes_field("p", 10), int_field("a", 0, 3)]).unwrap();
    assert_eq!(names(&schema), vec!["a", "p"]);
}

#[test]
fn order_of_declaration_is_kept_without_bytes() {
    let schema = Schema::construct(&[
        boolean_field("z"),
        int_field("y", 0, 3),
        boolean_field("x"),
        int_field("w", -1, 1),
    ])
    .unwrap();
    assert_eq!(names(&schema), vec!["z", "y", "x", "w"]);
}

#[test]
fn empty_schema_is_accepted() {
    let schema = Schema::construct(&[]).unwrap();
    assert!(schema.fields().is_empty());
    assert_eq!(schema.max_byte_length(), 0);
}

#[test]
fn reversed_int_bounds_are_refused() {
    let result = Schema::construct(&[int_field("ok", 0, 1), int_field("bad", 3, 2)]);
    assert_eq!(
        result,
        Err(SchemaError { fault: SchemaFault::ReversedBounds, index: 1, field: "bad".to_string() })
    );
}

#[test]
fn negative_bytes_limit_is_refused() {
    let result = Schema::construct(&[bytes_field("bad", -1)]);
    assert_eq!(
        result,
        Err(SchemaError { fault: SchemaFault::NegativeLimit, index: 0, field: "bad".to_string() })
    );
}

#[test]
fn second_bytes_field_is_refused() {
    let result =
        Schema::construct(&[bytes_field("p", 4), boolean_field("b"), bytes_field("q", 4)]);
    assert_eq!(
        result,
        Err(SchemaError { fault: SchemaFault::SecondBytesField, index: 2, field: "q".to_string() })
    );
}

#[test]
fn first_faulty_declaration_is_reported() {
    let result = Schema::construct(&[
        boolean_field("fine"),
        bytes_field("first", -3),
        int_field("second", 9, 1),
    ]);
    assert_eq!(
        result,
        Err(SchemaError { fault: SchemaFault::NegativeLimit, index: 1, field: "first".to_string() })
    );
    let result = Schema::construct(&[bytes_field("p", 1), bytes_field("q", -1)]);
    assert_eq!(
        result,
        Err(SchemaError { fault: SchemaFault::NegativeLimit, index: 1, field: "q".to_string() })
    );
}

#[test]
fn capacity_hint_rounds_bits_up_to_bytes() {
    let schema = Schema::construct(&[int_field("a", 0, 255)]).unwrap();
    assert_eq!(schema.max_byte_length(), 1);
    let schema = Schema::construct(&[int_field("a", 0, 255), boolean_field("b")]).unwrap();
    assert_eq!(schema.max_byte_length(), 2);
    let schema = Schema::construct(&[int_field("a", 0, 127), boolean_field("b")]).unwrap();
    assert_eq!(schema.max_byte_length(), 1);
}
