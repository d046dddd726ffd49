use bitschema::error::{DecodeError, DecodeFault, EncodeError, EncodeFault};
use bitschema::field::{BooleanField, BytesField, Field, IntField};
use bitschema::schema::Schema;
use bitschema::value::{Value, Values};

fn int_field(name: &str, min: i32, max: i32) -> Field {
    Field::Int(IntField { name: name.to_string(), min, max, bits: None, always_present: None })
}

fn boolean_field(name: &str) -> Field {
    Field::Boolean(BooleanField { name: name.to_string(), bits: None })
}

fn bytes_field(name: &str, max: i32) -> Field {
    Field::Bytes(BytesField { name: name.to_string(), max, bits: None })
}

#[test]
fn small_int_takes_two_bits_of_one_byte() {
    let schema = Schema::construct(&[int_field("level", 0, 2)]).unwrap();
    assert_eq!(schema.fields()[0].bits(), Some(2));
    let mut values = Values::new();
    values.insert("level", Value::Int(2));
    let encoded = schema.to_buffer(&values).unwrap();
    assert_eq!(encoded, vec![0b0000_0010u8]);
    let decoded = schema.from_buffer(&encoded).unwrap();
    assert_eq!(decoded.get("level"), Some(Value::Int(2)));
    assert_eq!(decoded.len(), 1);
}

#[test]
fn true_boolean_is_one_set_bit() {
    let schema = Schema::construct(&[boolean_field("flag")]).unwrap();
    let mut values = Values::new();
    values.insert("flag", Value::Boolean(true));
    let encoded = schema.to_buffer(&values).unwrap();
    assert_eq!(encoded, vec![0b0000_0001u8]);
    let decoded = schema.from_buffer(&encoded).unwrap();
    assert_eq!(decoded.get("flag"), Some(Value::Boolean(true)));
}

#[test]
fn single_valued_int_costs_nothing() {
    let schema = Schema::construct(&[int_field("version", 5, 5)]).unwrap();
    assert_eq!(
        schema.fields()[0],
        Field::Int(IntField {
            name: "version".to_string(),
            min: 5,
            max: 5,
            bits: Some(0),
            always_present: Some(true),
        })
    );
    let encoded = schema.to_buffer(&Values::new()).unwrap();
    assert_eq!(encoded, Vec::<u8>::new());
    let decoded = schema.from_buffer(&encoded).unwrap();
    assert_eq!(decoded.get("version"), Some(Value::Int(5)));
}

#[test]
fn single_valued_int_ignores_a_supplied_value() {
    let schema = Schema::construct(&[int_field("version", 5, 5), boolean_field("on")]).unwrap();
    let mut values = Values::new();
    values.insert("version", Value::Int(77));
    values.insert("on", Value::Boolean(true));
    let encoded = schema.to_buffer(&values).unwrap();
    assert_eq!(encoded, vec![1u8]);
    let decoded = schema.from_buffer(&encoded).unwrap();
    assert_eq!(decoded.get("version"), Some(Value::Int(5)));
    assert_eq!(decoded.get("on"), Some(Value::Boolean(true)));
}

#[test]
fn short_input_is_an_underrun() {
    let schema = Schema::construct(&[int_field("a", 0, 255), int_field("b", 0, 255)]).unwrap();
    let input = vec![7u8];
    assert_eq!(
        schema.from_buffer(&input),
        Err(DecodeError { fault: DecodeFault::BufferUnderrun, index: 1, field: "b".to_string() })
    );
    let empty: Vec<u8> = Vec::new();
    assert_eq!(
        schema.from_buffer(&empty),
        Err(DecodeError { fault: DecodeFault::BufferUnderrun, index: 0, field: "a".to_string() })
    );
}

#[test]
fn int_out_of_range_is_refused() {
    let schema = Schema::construct(&[int_field("a", 0, 2), int_field("b", 0, 3)]).unwrap();
    let mut values = Values::new();
    values.insert("a", Value::Int(3));
    values.insert("b", Value::Int(1));
    assert_eq!(
        schema.to_buffer(&values),
        Err(EncodeError { fault: EncodeFault::Range, index: 0, field: "a".to_string() })
    );
    values.insert("a", Value::Int(-1));
    assert_eq!(
        schema.to_buffer(&values),
        Err(EncodeError { fault: EncodeFault::Range, index: 0, field: "a".to_string() })
    );
    values.insert("a", Value::Int(2));
    assert_eq!(schema.to_buffer(&values), Ok(vec![0b0000_0110u8]));
}

#[test]
fn game_settings_example() {
    let fields = vec![
        int_field("language", 0, 0),
        int_field("gameMode", 0, 0),
        int_field("regenChallengeDifficulty", 0, 2),
        int_field("regenChallenges", 1, 3),
        int_field("solvesPerSyllable", -5000, 5000),
        int_field("turnDuration", 1, 10),
        int_field("startingLives", 1, 5),
        int_field("maxLives", 1, 5),
        int_field("syllableDuration", 1, 10),
        boolean_field("allowHyphensAndApostrophesInSyllables"),
        bytes_field("buffer", 1000),
    ];
    let schema = Schema::construct(&fields).unwrap();
    let widths: Vec<Option<u32>> = schema.fields().iter().map(|f| f.bits()).collect();
    assert_eq!(
        widths,
        vec![
            Some(0),
            Some(0),
            Some(2),
            Some(2),
            Some(14),
            Some(4),
            Some(3),
            Some(3),
            Some(4),
            Some(1),
            Some(10)
        ]
    );
    assert_eq!(schema.max_byte_length(), 6);

    let mut values = Values::new();
    values.insert("language", Value::Int(0));
    values.insert("gameMode", Value::Int(0));
    values.insert("regenChallengeDifficulty", Value::Int(0));
    values.insert("regenChallenges", Value::Int(3));
    values.insert("solvesPerSyllable", Value::Int(1000));
    values.insert("turnDuration", Value::Int(7));
    values.insert("startingLives", Value::Int(2));
    values.insert("maxLives", Value::Int(3));
    values.insert("syllableDuration", Value::Int(2));
    values.insert("allowHyphensAndApostrophesInSyllables", Value::Boolean(false));
    values.insert("buffer", Value::Buffer("hello world".as_bytes()));

    let encoded = schema.to_buffer(&values).unwrap();
    assert_eq!(
        encoded,
        vec![8, 119, 89, 20, 22, 0, 104, 101, 108, 108, 111, 32, 119, 111, 114, 108, 100]
    );
    let decoded = schema.from_buffer(&encoded).unwrap();
    assert_eq!(decoded, values);
    assert_eq!(decoded.get("buffer"), Some(Value::Buffer(b"hello world")));
    assert_eq!(decoded.get("solvesPerSyllable"), Some(Value::Int(1000)));
}
