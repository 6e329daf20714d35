use our_fractal_core::{Child, Data, DataRoot, DbError, Manager, MultiType, Type, Value};

fn manager() -> Manager {
    Manager::new(format!("./test"), format!("test"), format!("test"))
}

#[test]
fn tag_list() {
    let mut manager = manager();
    manager.add_def(0xabcd_abcd, format!("Int test"), Type::Int, false).unwrap();
    manager.add_def(0x1234_5678, format!("child test"), Type::Int, false).unwrap();
    assert_eq!(manager.get_def_tag_list(), vec![0x0000_0000, 0xabcd_abcd, 0x1234_5678]);
}

#[test]
fn add_definition_child() {
    let mut manager = manager();
    manager.add_def(0xabcd_abcd, format!("Int test"), Type::Int, false).unwrap();
    manager.add_def(0x1234_5678, format!("child test"), Type::Int, false).unwrap();
    assert!(manager.add_def_child(&0xabcd_abcd, Child::create(0x1234_5678, MultiType::Single)));
    assert_eq!(manager.get_def(&0xabcd_abcd).unwrap().children[0].tag, 0x1234_5678);
    assert_eq!(manager.get_def(&0xabcd_abcd).unwrap().children.len(), 1);
    assert!(manager.get_def(&0x1234_5678).unwrap().children.is_empty());
}

#[test]
fn dic_data_test() {
    let mut manager = manager();
    manager.add_def(0xabcd_abcd, format!("Int test"), Type::Int, false).unwrap();
    manager.add_def(0x1234_5678, format!("child test"), Type::Int, false).unwrap();
    manager.add_def(0x0000_0020, format!("Dictinary ID"), Type::String, false).unwrap();
    manager.add_def_child(&0xabcd_abcd, Child::create(0x1234_5678, MultiType::Dictionary));

    let id_data_001 = Data::new(
        manager.get_def(&0x0000_0020).unwrap().clone(),
        Value::String(format!("id_data_001")),
    )
    .unwrap();
    let id_data_002 = Data::new(
        manager.get_def(&0x0000_0020).unwrap().clone(),
        Value::String(format!("id_data_002")),
    )
    .unwrap();

    let root = DataRoot { tag: 0xabcd_abcd, id_data: None };
    let def = manager.get_def(&0xabcd_abcd).unwrap().clone();
    manager.add_child(&mut Data::new(def, Value::Int(-1)).unwrap(), vec![], None).unwrap();

    let def = manager.get_def(&0x1234_5678).unwrap().clone();
    manager
        .add_child(
            &mut Data::new(def, Value::Int(1)).unwrap(),
            vec![&root.clone()],
            Some(id_data_001.clone()),
        )
        .unwrap();

    let def = manager.get_def(&0x1234_5678).unwrap().clone();
    manager
        .add_child(
            &mut Data::new(def, Value::Int(2)).unwrap(),
            vec![&root.clone()],
            Some(id_data_002.clone()),
        )
        .unwrap();

    let child1 = DataRoot { tag: 0xabcd_abcd, id_data: None };
    let child2 = DataRoot { tag: 0x1234_5678, id_data: Some(id_data_001.clone()) };
    let child3 = DataRoot { tag: 0x1234_5678, id_data: Some(id_data_002.clone()) };

    let data = manager.get_data(vec![&child1.clone(), &child2.clone()]);
    assert_eq!(data.unwrap().get_value().unwrap(), Value::Int(1));
    let data2 = manager.get_data(vec![&child1.clone(), &child3.clone()]);
    assert_eq!(data2.unwrap().get_value().unwrap(), Value::Int(2));
}

#[test]
fn new_manager_holds_the_base_alone() {
    let manager = manager();
    assert_eq!(manager.get_def_tag_list(), vec![0]);
    let base = manager.get_def(&0).unwrap();
    assert!(base.is_base());
    assert_eq!(base.get_name(), "Parent Tag");
    assert_eq!(base.get_type(), &Type::String);
    let root = manager.get_data(vec![]).unwrap();
    assert_eq!(root.get_value().unwrap(), Value::String(format!("test")));
    assert_eq!(root.get_def().tag, 0);
    assert!(root.get_def().is_base());
    assert!(root.get_children().is_empty());
    assert_eq!(manager.get_path_manager().dir_path, "./test");
    assert_eq!(manager.get_path_manager().table_name, "test");
    assert_eq!(manager.get_path_manager().data_name, "test");
}

#[test]
fn a_tag_is_defined_once() {
    let mut manager = manager();
    manager.add_def(0xabcd_abcd, format!("first"), Type::Int, false).unwrap();
    let again = manager.add_def(0xabcd_abcd, format!("second"), Type::String, true);
    assert_eq!(again, Err(DbError::DuplicateTag));
    assert_eq!(manager.get_def_tag_list(), vec![0, 0xabcd_abcd]);
    let def = manager.get_def(&0xabcd_abcd).unwrap();
    assert_eq!(def.get_name(), "first");
    assert_eq!(def.get_type(), &Type::Int);
    assert!(!def.is_multiple);
    assert_eq!(manager.add_def(0, format!("root"), Type::Int, false), Err(DbError::DuplicateTag));
    assert_eq!(manager.get_def_tag_list(), vec![0, 0xabcd_abcd]);
}

#[test]
fn an_undefined_tag_is_not_found() {
    let mut manager = manager();
    assert_eq!(manager.get_def(&0x55).err(), Some(DbError::UndefinedTag));
    assert!(manager.get_def_mut(&0x55).is_none());
    manager.add_def(0x55, format!("x"), Type::Int, false).unwrap();
    assert!(manager.get_def(&0x55).is_ok());
}

#[test]
fn a_definition_is_changed_in_place() {
    let mut manager = manager();
    manager.add_def(0x55, format!("x"), Type::Int, false).unwrap();
    manager.add_def(0x56, format!("y"), Type::Int, false).unwrap();
    manager.get_def_mut(&0x55).unwrap().set_explanation(format!("test"));
    assert_eq!(manager.get_def(&0x55).unwrap().get_explanation(), "test");
    assert_eq!(manager.get_def(&0x56).unwrap().get_explanation(), "");
    assert_eq!(manager.get_def_tag_list(), vec![0, 0x55, 0x56]);
}

#[test]
fn a_child_needs_both_tags() {
    let mut manager = manager();
    manager.add_def(0x55, format!("x"), Type::Int, false).unwrap();
    assert!(!manager.add_def_child(&0x55, Child::create(0x56, MultiType::Single)));
    assert!(!manager.add_def_child(&0x56, Child::create(0x55, MultiType::Single)));
    assert!(manager.get_def(&0x55).unwrap().children.is_empty());
    assert!(manager.add_def_child(&0x55, Child::create(0x55, MultiType::Dictionary)));
    assert_eq!(
        manager.get_def(&0x55).unwrap().children,
        vec![Child { tag: 0x55, multi_type: MultiType::Dictionary }]
    );
}

#[test]
fn a_path_that_leads_nowhere_is_refused() {
    let mut manager = manager();
    manager.add_def(0x55, format!("x"), Type::Int, false).unwrap();
    let def = manager.get_def(&0x55).unwrap().clone();
    let mut node = Data::new(def.clone(), Value::Int(1)).unwrap();
    let nowhere = DataRoot { tag: 0x77, id_data: None };
    let id = Data::new(def, Value::Int(9)).unwrap();
    assert_eq!(manager.add_child(&mut node, vec![&nowhere], Some(id)), Err(DbError::PathNotFound));
    assert!(node.get_children().is_empty());
    assert!(manager.get_data(vec![]).unwrap().get_children().is_empty());
    assert!(manager.get_data(vec![&nowhere]).is_none());
}

#[test]
fn the_identity_value_becomes_a_child_of_the_new_node() {
    let mut manager = manager();
    manager.add_def(0x55, format!("x"), Type::Int, false).unwrap();
    manager.add_def(0x20, format!("id"), Type::String, false).unwrap();
    let def = manager.get_def(&0x55).unwrap().clone();
    let mut node = Data::new(def, Value::Int(1)).unwrap();
    let id_def = manager.get_def(&0x20).unwrap().clone();
    let id = Data::new(id_def, Value::String(format!("k"))).unwrap();
    manager.add_child(&mut node, vec![], Some(id)).unwrap();
    assert_eq!(node.get_children().len(), 1);
    let stored = manager.get_data(vec![&DataRoot { tag: 0x55, id_data: None }]).unwrap();
    assert_eq!(stored.get_value().unwrap(), Value::Int(1));
    assert_eq!(stored.get_children().len(), 1);
    assert_eq!(stored.get_children()[0].get_def().tag, 0x20);
    assert_eq!(stored.get_children()[0].get_value().unwrap(), Value::String(format!("k")));
}

#[test]
fn the_first_matching_child_is_taken() {
    let mut manager = manager();
    manager.add_def(0x55, format!("x"), Type::Int, false).unwrap();
    let def = manager.get_def(&0x55).unwrap().clone();
    manager.add_child(&mut Data::new(def.clone(), Value::Int(1)).unwrap(), vec![], None).unwrap();
    manager.add_child(&mut Data::new(def, Value::Int(2)).unwrap(), vec![], None).unwrap();
    let step = DataRoot { tag: 0x55, id_data: None };
    assert_eq!(manager.get_data(vec![&step]).unwrap().get_value().unwrap(), Value::Int(1));
}

#[test]
fn an_identity_value_that_no_child_holds_matches_nothing() {
    let mut manager = manager();
    manager.add_def(0x55, format!("x"), Type::Int, false).unwrap();
    manager.add_def(0x20, format!("id"), Type::String, false).unwrap();
    let def = manager.get_def(&0x55).unwrap().clone();
    let id_def = manager.get_def(&0x20).unwrap().clone();
    let id = Data::new(id_def.clone(), Value::String(format!("k"))).unwrap();
    manager.add_child(&mut Data::new(def, Value::Int(1)).unwrap(), vec![], Some(id)).unwrap();
    let other = Data::new(id_def, Value::String(format!("other"))).unwrap();
    let step = DataRoot { tag: 0x55, id_data: Some(other) };
    assert!(manager.get_data(vec![&step]).is_none());
}

#[test]
fn nodes_are_reached_by_index_and_changed_in_place() {
    let def = our_fractal_core::Definition::new(1, format!("a"), Type::Int, false);
    let mut top = Data::new(def.clone(), Value::Int(0)).unwrap();
    top.add_child(vec![], &mut Data::new(def.clone(), Value::Int(1)).unwrap(), None).unwrap();
    top.add_child(vec![], &mut Data::new(def.clone(), Value::Int(2)).unwrap(), None).unwrap();
    let step = DataRoot { tag: 1, id_data: None };
    top.add_child(vec![&step], &mut Data::new(def.clone(), Value::Int(3)).unwrap(), None).unwrap();
    assert_eq!(
        top.get_child_mut_by_index(&[0, 0]).unwrap().get_value().unwrap(),
        Value::Int(3)
    );
    assert_eq!(top.get_child_mut_by_index(&[1]).unwrap().get_value().unwrap(), Value::Int(2));
    assert!(top.get_child_mut_by_index(&[2]).is_none());
    assert!(top.get_child_mut_by_index(&[1, 0]).is_none());
    assert_eq!(top.get_child_mut_by_index(&[]).unwrap().get_value().unwrap(), Value::Int(0));
    top.get_child_mut(vec![&step]).unwrap().value = vec![9, 0, 0, 0];
    assert_eq!(top.get_child(vec![&step]).unwrap().get_value().unwrap(), Value::Int(9));
    assert_eq!(top.get_child(vec![&step, &step]).unwrap().get_value().unwrap(), Value::Int(3));
    assert_eq!(top.resolve_path(&vec![&step, &step]), Some(vec![0, 0]));
    assert_eq!(top.resolve_path(&vec![&step, &step, &step]), None);
    assert!(top.get_child_mut(vec![&step, &step, &step]).is_none());
    let held = Data::new(def, Value::Int(3)).unwrap();
    assert!(top.get_children()[0].is_equal_child(&held));
    assert!(!top.get_children()[1].is_equal_child(&held));
}

#[test]
fn every_failure_has_its_text() {
    assert_eq!(DbError::ChecksumMismatch.message(), "Check sum error!");
    assert_eq!(DbError::MissingChild.message(), "Child binary manager cannot found");
    assert_eq!(DbError::DuplicateTag.message(), "tag is already defined");
    assert_eq!(DbError::UndefinedTag.message(), "tag is not defined");
    assert_eq!(DbError::UnsupportedType.message(), "Data type could not get");
    assert_eq!(DbError::UnsupportedMultiType.message(), "Multi type convert error");
    let all = [
        DbError::DuplicateTag,
        DbError::UndefinedTag,
        DbError::UnsupportedType,
        DbError::UnsupportedMultiType,
        DbError::TypeMismatch,
        DbError::PathNotFound,
        DbError::MissingChild,
        DbError::ChecksumMismatch,
        DbError::Truncated,
        DbError::Malformed,
        DbError::InvalidUtf8,
    ];
    for (i, a) in all.iter().enumerate() {
        for (j, b) in all.iter().enumerate() {
            assert_eq!(a.message() == b.message(), i == j);
        }
    }
}
