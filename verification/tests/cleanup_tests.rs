use disko_zfs::{PropertyValue, StrMap, VecActionProducer, ZfsAction, ActionProducer};

fn props(entries: &[(&str, PropertyValue)]) -> StrMap<PropertyValue> {
    let mut m = StrMap::new();
    for (k, v) in entries {
        m.insert(k.to_string(), v.clone());
    }
    m
}

fn create(name: &str, entries: &[(&str, PropertyValue)]) -> ZfsAction {
    ZfsAction::CreateDataset { name: name.to_string(), properties: props(entries) }
}

fn set(dataset: &str, entries: &[(&str, PropertyValue)]) -> ZfsAction {
    ZfsAction::SetProperties { dataset: dataset.to_string(), properties: props(entries) }
}

fn entries(m: &StrMap<PropertyValue>) -> Vec<(String, PropertyValue)> {
    (0..m.len()).map(|i| (m.key_at(i).clone(), m.value_at(i).clone())).collect()
}

fn describe(actions: &[ZfsAction]) -> Vec<(&'static str, String, Vec<(String, PropertyValue)>)> {
    actions
        .iter()
        .map(|a| match a {
            ZfsAction::CreateDataset { name, properties } => ("create", name.clone(), entries(properties)),
            ZfsAction::SetProperties { dataset, properties } => ("set", dataset.clone(), entries(properties)),
            ZfsAction::InheritProperty { dataset, property } => ("inherit", dataset.clone(), vec![(property.clone(), text(""))]),
        })
        .collect()
}

fn num(i: i64) -> PropertyValue {
    PropertyValue::new_integer(i)
}

fn text(s: &str) -> PropertyValue {
    PropertyValue::new_string(s)
}

#[test]
fn repeated_create_becomes_settings_of_changed_properties() {
    let out = VecActionProducer::cleanup_multiple_creates(vec![
        create("zroot/test", &[(":test", text("test")), ("recordsize", num(8192))]),
        set("other", &[("a", num(1))]),
        create("zroot/test", &[(":test", text("test")), ("recordsize", num(16384)), ("atime", text("off"))]),
    ]);
    assert_eq!(
        describe(&out),
        vec![
            ("create", "zroot/test".to_string(), vec![(":test".to_string(), text("test")), ("recordsize".to_string(), num(8192))]),
            ("set", "other".to_string(), vec![("a".to_string(), num(1))]),
            ("set", "zroot/test".to_string(), vec![("recordsize".to_string(), num(16384))]),
            ("set", "zroot/test".to_string(), vec![("atime".to_string(), text("off"))]),
        ]
    );
}

#[test]
fn repeated_create_compares_with_first_create_only() {
    let out = VecActionProducer::cleanup_multiple_creates(vec![
        create("d", &[("k", num(1))]),
        create("d", &[("k", num(2))]),
        create("d", &[("k", num(1))]),
    ]);
    assert_eq!(
        describe(&out),
        vec![("create", "d".to_string(), vec![("k".to_string(), num(1))]), ("set", "d".to_string(), vec![("k".to_string(), num(2))])]
    );
}

#[test]
fn merged_creates_are_distinct() {
    let out = VecActionProducer::cleanup_multiple_creates(vec![create("a", &[]), create("b", &[]), create("a", &[]), create("b", &[("x", num(1))])]);
    let names: Vec<String> = describe(&out).into_iter().filter(|a| a.0 == "create").map(|a| a.1).collect();
    assert_eq!(names, vec!["a", "b"]);
}

#[test]
fn later_settings_shadow_earlier_ones() {
    let out = VecActionProducer::cleanup_shadowed_properties(vec![
        create("d", &[("k", num(1)), ("j", num(2))]),
        set("e", &[("k", num(5))]),
        set("d", &[("k", num(3))]),
        set("d", &[("k", num(4))]),
    ]);
    assert_eq!(
        describe(&out),
        vec![
            ("create", "d".to_string(), vec![("j".to_string(), num(2))]),
            ("set", "e".to_string(), vec![("k".to_string(), num(5))]),
            ("set", "d".to_string(), vec![]),
            ("set", "d".to_string(), vec![("k".to_string(), num(4))]),
        ]
    );
}

#[test]
fn shadowed_pass_leaves_each_property_set_once() {
    let out = VecActionProducer::cleanup_shadowed_properties(vec![
        set("d", &[("a", num(1)), ("b", num(1))]),
        set("d", &[("b", num(2)), ("c", num(2))]),
        create("d", &[("c", num(3))]),
    ]);
    let mut seen = std::collections::HashSet::new();
    for (_, target, ps) in describe(&out) {
        for (k, _) in ps {
            assert!(seen.insert((target.clone(), k)));
        }
    }
    assert_eq!(seen.len(), 3);
}

#[test]
fn settings_fold_into_creations() {
    let out = VecActionProducer::cleanup_fold_properties_into_creates(vec![
        set("d", &[("early", num(0))]),
        create("d", &[("k", num(1)), ("j", num(2))]),
        set("e", &[("x", num(9))]),
        set("d", &[("k", num(3)), ("m", num(4))]),
    ]);
    assert_eq!(
        describe(&out),
        vec![
            (
                "create",
                "d".to_string(),
                vec![
                    ("k".to_string(), num(3)),
                    ("j".to_string(), num(2)),
                    ("early".to_string(), num(0)),
                    ("m".to_string(), num(4)),
                ]
            ),
            ("set", "e".to_string(), vec![("x".to_string(), num(9))]),
        ]
    );
}

#[test]
fn cleanup_runs_the_three_passes() {
    let mut ap = VecActionProducer::new();
    ap.produce_action(create("zroot/test", &[(":test", text("test")), ("recordsize", num(8192))]));
    ap.produce_action(create("zroot/test", &[(":test", text("test")), ("recordsize", num(16384))]));
    ap.produce_action(set("zroot", &[("atime", text("off"))]));
    ap.produce_action(set("zroot", &[("atime", text("on"))]));
    ap.produce_error("kept".to_string());
    ap.cleanup();
    let (set_out, errors) = ap.finalize();
    assert_eq!(errors, vec!["kept".to_string()]);
    assert_eq!(
        describe(&set_out.0),
        vec![
            ("create", "zroot/test".to_string(), vec![(":test".to_string(), text("test")), ("recordsize".to_string(), num(16384))]),
            ("set", "zroot".to_string(), vec![]),
            ("set", "zroot".to_string(), vec![("atime".to_string(), text("on"))]),
        ]
    );
}

#[test]
fn unsets_pass_through_every_pass() {
    let unset = ZfsAction::InheritProperty { dataset: "d".to_string(), property: "k".to_string() };
    let out = VecActionProducer::cleanup_fold_properties_into_creates(VecActionProducer::cleanup_shadowed_properties(
        VecActionProducer::cleanup_multiple_creates(vec![create("d", &[("k", num(1))]), unset, set("d", &[("j", num(2))])]),
    ));
    assert_eq!(
        describe(&out),
        vec![
            ("create", "d".to_string(), vec![("k".to_string(), num(1)), ("j".to_string(), num(2))]),
            ("inherit", "d".to_string(), vec![("k".to_string(), text(""))]),
        ]
    );
}

#[test]
fn folding_twice_changes_nothing() {
    let once = VecActionProducer::cleanup_fold_properties_into_creates(vec![
        create("d", &[("k", num(1))]),
        set("d", &[("k", num(2))]),
        set("e", &[("x", num(3))]),
    ]);
    let first = describe(&once);
    let twice = VecActionProducer::cleanup_fold_properties_into_creates(once);
    assert_eq!(describe(&twice), first);
}
