use our_fractal_core::{Child, Definition, MultiType, Type};

#[test]
fn def_name() {
    let def = Definition::new(0xaaaa_bbbb, format!("Int test"), Type::Int, false);
    assert_eq!(def.get_name(), &format!("Int test"));
}

#[test]
fn def_is_base() {
    let def = Definition::new(0xaaaa_bbbb, format!("Int test"), Type::Int, false);
    assert_eq!(def.is_base(), false);
}

#[test]
fn explanation() {
    let mut def = Definition::new(0xaaaa_bbbb, format!("Int test"), Type::Int, false);
    def.set_explanation(format!("exp test"));
    assert_eq!(def.get_explanation(), &format!("exp test"));
}

#[test]
fn new_definition_is_plain() {
    let def = Definition::new(0xaaaa_bbbb, format!("Int test"), Type::Int, true);
    assert_eq!(def.tag, 0xaaaa_bbbb);
    assert_eq!(def.get_type(), &Type::Int);
    assert_eq!(def.get_explanation(), "");
    assert!(def.is_multiple);
    assert!(def.children.is_empty());
}

#[test]
fn group_and_element() {
    let def = Definition::new(0xabcd_0012, format!("x"), Type::Int, false);
    assert_eq!(def.get_group_num(), 0xabcd);
    assert_eq!(def.get_element_num(), 0x0012);
    assert_eq!(def.get_group_value(), "abcd");
    assert_eq!(def.get_element_value(), "0012");
}

#[test]
fn hexadecimal_values_are_padded_to_four_digits() {
    let def = Definition::new(0x0000_0000, format!("x"), Type::Int, false);
    assert_eq!(def.get_group_value(), "0000");
    assert_eq!(def.get_element_value(), "0000");
    let def = Definition::new(0xffff_f00f, format!("x"), Type::Int, false);
    assert_eq!(def.get_group_value(), "ffff");
    assert_eq!(def.get_element_value(), "f00f");
}

#[test]
fn type_codes() {
    assert_eq!(Definition::new(1, format!("x"), Type::Int, false).get_type_num(), Some(0x00));
    assert_eq!(Definition::new(1, format!("x"), Type::Float, false).get_type_num(), Some(0x01));
    assert_eq!(Definition::new(1, format!("x"), Type::String, false).get_type_num(), Some(0x02));
    assert_eq!(Definition::new(1, format!("x"), Type::Unknown, false).get_type_num(), None);
    assert_eq!(Type::u8_to_type(0x00), Type::Int);
    assert_eq!(Type::u8_to_type(0x01), Type::Float);
    assert_eq!(Type::u8_to_type(0x02), Type::String);
    assert_eq!(Type::u8_to_type(0x03), Type::Unknown);
    assert_eq!(Type::u8_to_type(0xff), Type::Unknown);
}

#[test]
fn multi_type_codes() {
    assert_eq!(MultiType::u8_to_multi_type(0x00), MultiType::Single);
    assert_eq!(MultiType::u8_to_multi_type(0x01), MultiType::Dictionary);
    assert_eq!(MultiType::u8_to_multi_type(0x02), MultiType::Unknown);
    assert_eq!(Child::create(5, MultiType::Single).get_multi_type_u8_num(), Ok(0x00));
    assert_eq!(Child::create(5, MultiType::Dictionary).get_multi_type_u8_num(), Ok(0x01));
    assert!(Child::create(5, MultiType::Unknown).get_multi_type_u8_num().is_err());
}

#[test]
fn child_from_code() {
    let c = Child::create_by_binary(0x1234_5678, 0x00);
    assert_eq!(c, Child { tag: 0x1234_5678, multi_type: MultiType::Single });
    let c = Child::create_by_binary(0x1234_5678, 0x01);
    assert_eq!(c.multi_type, MultiType::Dictionary);
    let c = Child::create_by_binary(0x1234_5678, 0x7f);
    assert_eq!(c.multi_type, MultiType::Unknown);
}

#[test]
fn clone_keeps_every_field() {
    let mut def = Definition::new(0xaaaa_bbbb, format!("Int test"), Type::Float, true);
    def.set_explanation(format!("why"));
    def.children.push(Child::create(9, MultiType::Dictionary));
    let copy = def.clone();
    assert_eq!(copy.tag, def.tag);
    assert_eq!(copy.name, def.name);
    assert_eq!(copy.data_type, def.data_type);
    assert_eq!(copy.explanation, def.explanation);
    assert_eq!(copy.is_multiple, def.is_multiple);
    assert_eq!(copy.is_base, def.is_base);
    assert_eq!(copy.children, def.children);
}
