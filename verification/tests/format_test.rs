use our_fractal_core::{
    BinaryManager, Child, Data, DataRoot, DbError, Definition, Manager, MultiType, Type, Value,
};

fn manager() -> Manager {
    Manager::new(format!("dir"), format!("table"), format!("data"))
}

fn schema_file() -> Vec<u8> {
    let mut v: Vec<u8> = vec![0, 2, 0xab, 0xcd, 0xab, 0xcd];
    v.extend_from_slice(&[0; 15]);
    v.push(9);
    v.extend_from_slice(b"abcd data");
    v.extend_from_slice(&[0, 0]);
    v.extend_from_slice(&[0; 16]);
    v.extend_from_slice(&[0; 15]);
    v.push(1);
    v.extend_from_slice(&[0x12, 0x34, 0x56, 0x78, 0]);
    v.extend_from_slice(&[3, 82]);
    v.extend_from_slice(&[0, 2, 0x12, 0x34, 0x56, 0x78]);
    v.extend_from_slice(&[0; 15]);
    v.push(9);
    v.extend_from_slice(b"1234 data");
    v.extend_from_slice(&[2, 0]);
    v.extend_from_slice(&[0; 16]);
    v.extend_from_slice(&[0; 16]);
    v.extend_from_slice(&[3, 163]);
    v
}

fn data_file() -> Vec<u8> {
    vec![
        0, 2, 171, 205, 171, 205, 3, 0, 0, 0, 0, 2, 18, 52, 86, 120, 0, 0, 0, 0, 0, 0, 0, 0, 0, 0,
        0, 0, 0, 0, 0, 4, 116, 97, 114, 111, 3, 206, 3, 148,
    ]
}

fn story() -> Manager {
    let mut m = manager();
    m.add_def(0xabcd_abcd, format!("abcd data"), Type::Int, false).unwrap();
    m.add_def(0x1234_5678, format!("1234 data"), Type::String, false).unwrap();
    m.add_def_child(&0xabcd_abcd, Child::create(0x1234_5678, MultiType::Single));
    let def = m.get_def(&0xabcd_abcd).unwrap().clone();
    m.add_child(&mut Data::new(def, Value::Int(3)).unwrap(), vec![], None).unwrap();
    let def = m.get_def(&0x1234_5678).unwrap().clone();
    let top = DataRoot { tag: 0xabcd_abcd, id_data: None };
    m.add_child(&mut Data::new(def, Value::String(format!("taro"))).unwrap(), vec![&top], None)
        .unwrap();
    m
}

#[test]
fn the_schema_file_byte_by_byte() {
    assert_eq!(story().write_def().unwrap(), schema_file());
}

#[test]
fn the_data_file_byte_by_byte() {
    assert_eq!(story().write_data().unwrap(), data_file());
}

#[test]
fn an_empty_schema_and_an_empty_tree_are_empty_files() {
    let mut m = manager();
    assert_eq!(m.write_def().unwrap(), Vec::<u8>::new());
    assert_eq!(m.write_data().unwrap(), Vec::<u8>::new());
    m.add_def(5, format!("x"), Type::Int, false).unwrap();
    m.read_def_from_file(&[]).unwrap();
    assert_eq!(m.get_def_tag_list(), vec![0]);
    m.read_data(&[]).unwrap();
    assert!(m.get_data(vec![]).unwrap().get_children().is_empty());
}

#[test]
fn a_record_holds_the_records_of_the_children() {
    let m = story();
    let mut b = BinaryManager::new();
    b.add_u8(0xee);
    let top = m.get_data(vec![&DataRoot { tag: 0xabcd_abcd, id_data: None }]).unwrap();
    m.write_child_data(top, &mut b).unwrap();
    let mut expected = vec![0xee];
    expected.extend_from_slice(&data_file());
    assert_eq!(b.write(), expected);
}

#[test]
fn the_schema_is_read_back_with_every_field() {
    let mut first = manager();
    first.add_def(1, format!("n"), Type::Float, true).unwrap();
    first.add_def(2, format!("two"), Type::Int, false).unwrap();
    first.add_def(3, format!("three"), Type::String, false).unwrap();
    first.get_def_mut(&1).unwrap().set_explanation(format!("e"));
    assert!(first.add_def_child(&1, Child::create(2, MultiType::Single)));
    assert!(first.add_def_child(&1, Child::create(3, MultiType::Dictionary)));
    let file = first.write_def().unwrap();
    assert_eq!(
        &file[..70],
        &[
            0, 2, 0, 0, 0, 1, 0, 0, 0, 0, 0, 0, 0, 0, 0, 0, 0, 0, 0, 0, 0, 1, 110, 1, 1, 0, 0, 0, 0,
            0, 0, 0, 0, 0, 0, 0, 0, 0, 0, 0, 1, 101, 0, 0, 0, 0, 0, 0, 0, 0, 0, 0, 0, 0, 0, 0, 0,
            2, 0, 0, 0, 2, 0, 0, 0, 0, 3, 1, 3, 224
        ][..]
    );

    let mut second = manager();
    second.read_def_from_file(&file).unwrap();
    assert_eq!(second.get_def_tag_list(), vec![0, 1, 2, 3]);
    let def = second.get_def(&1).unwrap();
    assert_eq!(def.get_name(), "n");
    assert_eq!(def.get_type(), &Type::Float);
    assert_eq!(def.get_explanation(), "e");
    assert!(def.is_multiple);
    assert!(!def.is_base());
    assert_eq!(
        def.children,
        vec![
            Child { tag: 2, multi_type: MultiType::Single },
            Child { tag: 3, multi_type: MultiType::Dictionary }
        ]
    );
    assert_eq!(second.get_def(&3).unwrap().get_type(), &Type::String);
    assert!(second.get_def(&0).unwrap().is_base());
    assert_eq!(second.write_def().unwrap(), file);
}

#[test]
fn reading_replaces_the_schema_but_for_the_base() {
    let mut m = manager();
    m.add_def(9, format!("old"), Type::Int, false).unwrap();
    m.read_def_from_file(&schema_file()).unwrap();
    assert_eq!(m.get_def_tag_list(), vec![0, 0xabcd_abcd, 0x1234_5678]);
}

#[test]
fn leading_noise_is_passed_over() {
    let mut file = vec![9, 9, 9];
    file.extend_from_slice(&schema_file());
    let mut m = manager();
    m.read_def_from_file(&file).unwrap();
    assert_eq!(m.get_def_tag_list(), vec![0, 0xabcd_abcd, 0x1234_5678]);
}

#[test]
fn a_failed_read_leaves_the_schema_as_it_was() {
    let mut file = schema_file();
    let last = file.len() - 1;
    file[last] ^= 0x01;
    let mut m = manager();
    m.add_def(9, format!("old"), Type::Int, false).unwrap();
    assert_eq!(m.read_def_from_file(&file), Err(DbError::ChecksumMismatch));
    assert_eq!(m.get_def_tag_list(), vec![0, 9]);
    assert_eq!(m.get_def(&9).unwrap().get_name(), "old");
}

#[test]
fn a_tag_that_occurs_twice_in_a_file_is_refused() {
    let mut file = schema_file();
    file.extend_from_slice(&schema_file());
    let mut m = manager();
    assert_eq!(m.read_def_from_file(&file), Err(DbError::DuplicateTag));
    assert_eq!(m.get_def_tag_list(), vec![0]);
}

#[test]
fn read_def_from_binary_adds_to_the_schema() {
    let mut m = manager();
    m.add_def(9, format!("old"), Type::Int, false).unwrap();
    let mut b = BinaryManager::new();
    b.read_to_end(&schema_file());
    m.read_def_from_binary(&mut b).unwrap();
    assert_eq!(m.get_def_tag_list(), vec![0, 9, 0xabcd_abcd, 0x1234_5678]);
    assert_eq!(b.index, schema_file().len());

    let mut again = BinaryManager::new();
    again.read_to_end(&schema_file());
    assert_eq!(m.read_def_from_binary(&mut again), Err(DbError::DuplicateTag));
    assert_eq!(m.get_def_tag_list(), vec![0, 9, 0xabcd_abcd, 0x1234_5678]);
}

#[test]
fn a_type_without_a_code_is_not_written() {
    let mut m = manager();
    m.add_def(1, format!("x"), Type::Unknown, false).unwrap();
    assert_eq!(m.write_def(), Err(DbError::UnsupportedType));
    let mut m = manager();
    m.add_def(1, format!("x"), Type::Int, false).unwrap();
    m.add_def_child(&1, Child::create(1, MultiType::Unknown));
    assert_eq!(m.write_def(), Err(DbError::UnsupportedMultiType));
}

fn one_record(type_code: u8, multi_code: u8, end: u8) -> Vec<u8> {
    let mut v: Vec<u8> = vec![0, 2, 0, 0, 0, 1];
    v.extend_from_slice(&[0; 16]);
    v.extend_from_slice(&[type_code, 0]);
    v.extend_from_slice(&[0; 16]);
    v.extend_from_slice(&[0; 15]);
    v.push(1);
    v.extend_from_slice(&[0, 0, 0, 2, multi_code]);
    v.push(end);
    let sum = v[2..v.len() - 1].iter().fold(0u32, |a, b| (a + *b as u32) & 0xff) as u8;
    v.push(sum);
    v
}

#[test]
fn malformed_schema_records_are_refused() {
    let mut m = manager();
    assert_eq!(m.read_def_from_file(&one_record(0, 0, 3)), Ok(()));
    assert_eq!(m.get_def(&1).unwrap().children[0].tag, 2);
    let mut m = manager();
    assert_eq!(m.read_def_from_file(&one_record(7, 0, 3)), Err(DbError::UnsupportedType));
    assert_eq!(m.read_def_from_file(&one_record(0, 9, 3)), Err(DbError::UnsupportedMultiType));
    assert_eq!(m.read_def_from_file(&one_record(0, 0, 4)), Err(DbError::Malformed));
    let whole = one_record(0, 0, 3);
    for cut in 2..whole.len() {
        assert_eq!(m.read_def_from_file(&whole[..cut]), Err(DbError::Truncated));
    }
    let mut bad_name = one_record(0, 0, 3);
    bad_name[6] = 1;
    assert_eq!(m.read_def_from_file(&bad_name), Err(DbError::Truncated));
    assert_eq!(m.get_def_tag_list(), vec![0]);
}

#[test]
fn a_name_that_is_not_utf8_is_refused() {
    let mut v: Vec<u8> = vec![0, 2, 0, 0, 0, 1];
    v.extend_from_slice(&[0; 15]);
    v.push(1);
    v.push(0xff);
    v.extend_from_slice(&[0, 0]);
    v.extend_from_slice(&[0; 16]);
    v.extend_from_slice(&[0; 16]);
    v.push(3);
    let sum = v[2..v.len() - 1].iter().fold(0u32, |a, b| (a + *b as u32) & 0xff) as u8;
    v.push(sum);
    let mut m = manager();
    assert_eq!(m.read_def_from_file(&v), Err(DbError::InvalidUtf8));
}

#[test]
fn the_data_file_is_read_back() {
    let mut m = manager();
    m.read_def_from_file(&schema_file()).unwrap();
    m.read_data(&data_file()).unwrap();
    let top = DataRoot { tag: 0xabcd_abcd, id_data: None };
    let nested = DataRoot { tag: 0x1234_5678, id_data: None };
    assert_eq!(m.get_data(vec![&top]).unwrap().get_value().unwrap(), Value::Int(3));
    assert_eq!(m.get_data(vec![&top]).unwrap().get_def().get_name(), "abcd data");
    let leaf = m.get_data(vec![&top, &nested]).unwrap();
    assert_eq!(leaf.get_value().unwrap(), Value::String(format!("taro")));
    assert_eq!(leaf.get_bite_value(), &b"taro".to_vec());
    assert!(leaf.get_children().is_empty());
    assert_eq!(m.write_data().unwrap(), data_file());
}

#[test]
fn reading_replaces_the_tree() {
    let mut m = story();
    let mut twice = data_file();
    twice.extend_from_slice(&data_file());
    m.read_data(&twice).unwrap();
    assert_eq!(m.get_data(vec![]).unwrap().get_children().len(), 2);
    m.read_data(&data_file()).unwrap();
    assert_eq!(m.get_data(vec![]).unwrap().get_children().len(), 1);
    assert_eq!(m.get_data(vec![]).unwrap().get_value().unwrap(), Value::String(format!("data")));
}

#[test]
fn every_changed_byte_of_a_value_fails_the_checksum() {
    let mut m = manager();
    m.read_def_from_file(&schema_file()).unwrap();
    for at in [6usize, 7, 8, 9, 32, 33, 34, 35] {
        for bit in 0..8 {
            let mut file = data_file();
            file[at] ^= 1 << bit;
            let mut fresh = story();
            assert_eq!(fresh.read_data(&file), Err(DbError::ChecksumMismatch));
            assert_eq!(fresh.write_data().unwrap(), data_file());
            assert_eq!(m.read_data(&file), Err(DbError::ChecksumMismatch));
        }
    }
}

#[test]
fn a_changed_byte_is_refused_unless_it_is_of_the_first_start_marker() {
    let mut accepted: Vec<usize> = Vec::new();
    for at in 0..data_file().len() {
        let mut file = data_file();
        file[at] ^= 0x40;
        let mut m = story();
        match m.read_data(&file) {
            Err(_) => assert_eq!(m.write_data().unwrap(), data_file()),
            Ok(()) => accepted.push(at),
        }
    }
    assert_eq!(accepted, vec![0, 1]);
}

#[test]
fn a_record_without_its_start_marker_is_passed_over() {
    let mut file = data_file();
    file[0] = 0x40;
    let mut m = story();
    assert_eq!(m.read_data(&file), Ok(()));
    assert_eq!(m.write_data().unwrap(), data_file());
    let mut file = data_file();
    file[1] = 0x42;
    assert_eq!(m.read_data(&file), Ok(()));
    assert!(m.get_data(vec![]).unwrap().get_children().is_empty());
}

#[test]
fn a_failed_read_leaves_the_tree_as_it_was() {
    let mut m = story();
    let mut file = data_file();
    file.truncate(30);
    assert_eq!(m.read_data(&file), Err(DbError::Truncated));
    assert_eq!(m.write_data().unwrap(), data_file());
    let mut second = data_file();
    second.extend_from_slice(&[0, 2, 0, 0, 0, 9, 1, 0, 0, 0, 3, 0]);
    assert_eq!(m.read_data(&second), Err(DbError::UndefinedTag));
    assert_eq!(m.write_data().unwrap(), data_file());
}

#[test]
fn read_child_data_adds_one_record_at_a_time() {
    let mut m = manager();
    m.read_def_from_file(&schema_file()).unwrap();
    let mut file = data_file();
    file.extend_from_slice(&[0, 2, 0xab, 0xcd, 0xab, 0xcd, 7, 0, 0, 0, 3, 247]);
    let mut b = BinaryManager::new();
    b.read_to_end(&file);
    assert_eq!(m.read_child_data(&[], &mut b), Ok(true));
    assert_eq!(b.index, 40);
    assert_eq!(m.get_data(vec![]).unwrap().get_children().len(), 1);
    assert_eq!(m.read_child_data(&[0], &mut b), Ok(true));
    assert_eq!(m.read_child_data(&[0], &mut b), Ok(false));
    let top = m.get_data(vec![]).unwrap().get_children();
    assert_eq!(top.len(), 1);
    assert_eq!(top[0].get_children().len(), 2);
    assert_eq!(top[0].get_children()[1].get_value().unwrap(), Value::Int(7));

    let mut again = BinaryManager::new();
    again.read_to_end(&data_file());
    assert_eq!(m.read_child_data(&[5], &mut again), Err(DbError::PathNotFound));
    assert_eq!(m.get_data(vec![]).unwrap().get_children().len(), 1);
}

#[test]
fn a_node_of_unknown_type_is_not_read() {
    let mut m = manager();
    m.add_def(1, format!("x"), Type::Unknown, false).unwrap();
    let file = vec![0, 2, 0, 0, 0, 1, 3, 1];
    assert_eq!(m.read_data(&file), Err(DbError::UnsupportedType));
}

#[test]
fn dictionary_children_survive_the_files() {
    let mut m = manager();
    m.add_def(0xabcd_abcd, format!("Int test"), Type::Int, false).unwrap();
    m.add_def(0x1234_5678, format!("child test"), Type::Int, false).unwrap();
    m.add_def(0x20, format!("Dictinary ID"), Type::String, false).unwrap();
    m.add_def_child(&0xabcd_abcd, Child::create(0x1234_5678, MultiType::Dictionary));
    let id_def: Definition = m.get_def(&0x20).unwrap().clone();
    let id1 = Data::new(id_def.clone(), Value::String(format!("id_data_001"))).unwrap();
    let id2 = Data::new(id_def, Value::String(format!("id_data_002"))).unwrap();
    let top = DataRoot { tag: 0xabcd_abcd, id_data: None };
    let def = m.get_def(&0xabcd_abcd).unwrap().clone();
    m.add_child(&mut Data::new(def, Value::Int(-1)).unwrap(), vec![], None).unwrap();
    let def = m.get_def(&0x1234_5678).unwrap().clone();
    m.add_child(&mut Data::new(def.clone(), Value::Int(1)).unwrap(), vec![&top], Some(id1.clone()))
        .unwrap();
    m.add_child(&mut Data::new(def, Value::Int(2)).unwrap(), vec![&top], Some(id2.clone()))
        .unwrap();

    let def_file = m.write_def().unwrap();
    let data_file = m.write_data().unwrap();
    let mut second = manager();
    second.read_def_from_file(&def_file).unwrap();
    second.read_data(&data_file).unwrap();
    let first = DataRoot { tag: 0x1234_5678, id_data: Some(id1) };
    let other = DataRoot { tag: 0x1234_5678, id_data: Some(id2) };
    assert_eq!(second.get_data(vec![&top, &first]).unwrap().get_value().unwrap(), Value::Int(1));
    assert_eq!(second.get_data(vec![&top, &other]).unwrap().get_value().unwrap(), Value::Int(2));
    assert_eq!(second.get_data(vec![&top]).unwrap().get_value().unwrap(), Value::Int(-1));
}
