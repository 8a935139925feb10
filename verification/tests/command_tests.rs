use disko_zfs::action::{destroy_commands, join_strings};
use disko_zfs::{ActionSet, PropertyValue, StrMap, ZfsAction};

fn props(entries: &[(&str, PropertyValue)]) -> StrMap<PropertyValue> {
    let mut m = StrMap::new();
    for (k, v) in entries {
        m.insert(k.to_string(), v.clone());
    }
    m
}

#[test]
fn create_command_lists_options_then_name() {
    let set = ActionSet(vec![ZfsAction::CreateDataset {
        name: "zroot/test".to_string(),
        properties: props(&[(":test", PropertyValue::new_string("test")), ("recordsize", PropertyValue::new_integer(8192))]),
    }]);
    assert_eq!(
        set.to_commands(),
        vec![vec!["zfs", "create", "-o :test=test", "-o recordsize=8192", "zroot/test"]]
    );
}

#[test]
fn create_without_properties() {
    let set = ActionSet(vec![ZfsAction::CreateDataset { name: "zroot".to_string(), properties: StrMap::new() }]);
    assert_eq!(set.to_commands(), vec![vec!["zfs", "create", "zroot"]]);
}

#[test]
fn set_command_joins_assignments_in_one_argument() {
    let set = ActionSet(vec![ZfsAction::SetProperties {
        dataset: "zroot/home".to_string(),
        properties: props(&[("atime", PropertyValue::new_string("off")), ("quota", PropertyValue::new_integer(-1))]),
    }]);
    assert_eq!(set.to_commands(), vec![vec!["zfs", "set", "atime=off quota=-1", "zroot/home"]]);
}

#[test]
fn set_without_properties_has_empty_argument() {
    let set = ActionSet(vec![ZfsAction::SetProperties { dataset: "d".to_string(), properties: StrMap::new() }]);
    assert_eq!(set.to_commands(), vec![vec!["zfs", "set", "", "d"]]);
}

#[test]
fn one_command_per_action_in_order() {
    let set = ActionSet(vec![
        ZfsAction::CreateDataset { name: "a".to_string(), properties: StrMap::new() },
        ZfsAction::SetProperties { dataset: "b".to_string(), properties: props(&[("k", PropertyValue::new_integer(1))]) },
    ]);
    let commands = set.to_commands();
    assert_eq!(commands.len(), 2);
    assert_eq!(commands[0][1], "create");
    assert_eq!(commands[1], vec!["zfs", "set", "k=1", "b"]);
    assert!(ActionSet(vec![]).to_commands().is_empty());
}

#[test]
fn join_puts_separator_between_parts() {
    assert_eq!(join_strings(&vec![], " "), "");
    assert_eq!(join_strings(&vec!["a".to_string()], " "), "a");
    assert_eq!(join_strings(&vec!["a".to_string(), "b".to_string(), "c".to_string()], ", "), "a, b, c");
}

#[test]
fn inherit_command_names_property_then_dataset() {
    let set = ActionSet(vec![ZfsAction::InheritProperty { dataset: "zroot/home".to_string(), property: "quota".to_string() }]);
    assert_eq!(set.to_commands(), vec![vec!["zfs", "inherit", "quota", "zroot/home"]]);
}

#[test]
fn destroy_commands_are_one_per_name() {
    assert_eq!(
        destroy_commands(&vec!["zroot/old".to_string(), "zroot/x@snap".to_string()]),
        vec![vec!["zfs", "destroy", "zroot/old"], vec!["zfs", "destroy", "zroot/x@snap"]]
    );
    assert!(destroy_commands(&vec![]).is_empty());
}
