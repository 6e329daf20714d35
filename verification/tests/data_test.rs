use our_fractal_core::{Data, DbError, Definition, Type, Value};

#[test]
fn int_data_rw() {
    let def = Definition::new(0xaaaa_bbbb, format!("Int test"), Type::Int, false);
    let data = Data::new(def, Value::Int(3_i32)).unwrap();
    assert_eq!(data.get_value().unwrap(), Value::Int(3_i32));
}

#[test]
fn float_data_rw() {
    let def = Definition::new(0xaaaa_bbbb, format!("Float test"), Type::Float, false);
    let data = Data::new(def, Value::Float(4.5_f32.to_bits())).unwrap();
    match data.get_value().unwrap() {
        Value::Float(bits) => assert_eq!(f32::from_bits(bits), 4.5_f32),
        other => panic!("not a float: {:?}", other),
    }
}

#[test]
fn string_data_rw() {
    let def = Definition::new(0xaaaa_bbbb, format!("String test"), Type::String, false);
    let data = Data::new(def, Value::String(format!("taro"))).unwrap();
    assert_eq!(data.get_value().unwrap(), Value::String(format!("taro")));
}

#[test]
fn int_value_is_stored_least_significant_byte_first() {
    let def = Definition::new(1, format!("n"), Type::Int, false);
    let data = Data::new(def, Value::Int(0x0102_0304)).unwrap();
    assert_eq!(data.get_bite_value(), &vec![0x04, 0x03, 0x02, 0x01]);
}

#[test]
fn negative_int_round_trips() {
    let def = Definition::new(1, format!("n"), Type::Int, false);
    let data = Data::new(def, Value::Int(-1)).unwrap();
    assert_eq!(data.get_bite_value(), &vec![0xff, 0xff, 0xff, 0xff]);
    assert_eq!(data.get_value().unwrap(), Value::Int(-1));
    let def = Definition::new(1, format!("n"), Type::Int, false);
    let data = Data::new(def, Value::Int(i32::MIN)).unwrap();
    assert_eq!(data.get_value().unwrap(), Value::Int(i32::MIN));
}

#[test]
fn float_value_is_the_bit_pattern() {
    let def = Definition::new(1, format!("f"), Type::Float, false);
    let data = Data::new(def, Value::Float(4.5_f32.to_bits())).unwrap();
    assert_eq!(data.get_bite_value(), &4.5_f32.to_le_bytes().to_vec());
}

#[test]
fn string_value_is_its_utf8_bytes() {
    let def = Definition::new(1, format!("s"), Type::String, false);
    let data = Data::new(def, Value::String(format!("日本"))).unwrap();
    assert_eq!(data.get_bite_value(), &"日本".as_bytes().to_vec());
    assert_eq!(data.get_value().unwrap(), Value::String(format!("日本")));
}

#[test]
fn value_of_the_wrong_kind_is_refused() {
    let def = Definition::new(1, format!("n"), Type::Int, false);
    assert_eq!(Data::new(def, Value::String(format!("3"))).err(), Some(DbError::TypeMismatch));
    let def = Definition::new(1, format!("f"), Type::Float, false);
    assert_eq!(Data::new(def, Value::Int(3)).err(), Some(DbError::TypeMismatch));
    let def = Definition::new(1, format!("s"), Type::String, false);
    assert_eq!(Data::new(def, Value::Float(0)).err(), Some(DbError::TypeMismatch));
}

#[test]
fn unknown_type_holds_no_value() {
    let def = Definition::new(1, format!("x"), Type::Unknown, false);
    assert_eq!(Data::new(def, Value::Int(3)).err(), Some(DbError::UnsupportedType));
    let def = Definition::new(1, format!("x"), Type::Unknown, false);
    let data = Data::read_binary(def, vec![1, 2, 3, 4]);
    assert_eq!(data.get_value().err(), Some(DbError::UnsupportedType));
}

#[test]
fn raw_bytes_are_decoded_by_the_type() {
    let def = Definition::new(1, format!("n"), Type::Int, false);
    let data = Data::read_binary(def, vec![3, 0, 0, 0]);
    assert_eq!(data.get_value().unwrap(), Value::Int(3));
    let def = Definition::new(1, format!("n"), Type::Int, false);
    let short = Data::read_binary(def, vec![3, 0, 0]);
    assert_eq!(short.get_value().err(), Some(DbError::Truncated));
    let def = Definition::new(1, format!("s"), Type::String, false);
    let bad = Data::read_binary(def, vec![0xff, 0xfe]);
    assert_eq!(bad.get_value().err(), Some(DbError::InvalidUtf8));
}

#[test]
fn new_node_has_no_children() {
    let def = Definition::new(7, format!("n"), Type::Int, false);
    let data = Data::new(def, Value::Int(1)).unwrap();
    assert!(data.get_children().is_empty());
    assert_eq!(data.get_def().tag, 7);
}

#[test]
fn clone_copies_the_whole_node() {
    let def = Definition::new(7, format!("n"), Type::Int, false);
    let mut data = Data::new(def, Value::Int(1)).unwrap();
    let def = Definition::new(8, format!("m"), Type::String, false);
    let mut child = Data::new(def, Value::String(format!("x"))).unwrap();
    data.add_child(vec![], &mut child, None).unwrap();
    let copy = data.clone();
    assert_eq!(copy.get_def().tag, 7);
    assert_eq!(copy.get_bite_value(), data.get_bite_value());
    assert_eq!(copy.get_children().len(), 1);
    assert_eq!(copy.get_children()[0].get_value().unwrap(), Value::String(format!("x")));
}
