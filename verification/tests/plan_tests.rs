use disko_zfs::{
    eval_spec, ActionProducer, Dataset, DatasetType, Property, PropertySource, PropertyValue, StrMap,
    VecActionProducer, ZfsAction, ZfsListOutput, ZfsListOutputVersion, ZfsSpec, ZfsSpecDataset,
};

fn props(entries: &[(&str, PropertyValue)]) -> StrMap<PropertyValue> {
    let mut m = StrMap::new();
    for (k, v) in entries {
        m.insert(k.to_string(), v.clone());
    }
    m
}

fn local(value: PropertyValue) -> Property {
    Property { value, source: PropertySource::Local { data: "-".to_string() } }
}

fn dataset(name: &str, properties: Vec<(&str, Property)>) -> Dataset {
    let mut m = StrMap::new();
    for (k, p) in properties {
        m.insert(k.to_string(), p);
    }
    Dataset {
        name: name.to_string(),
        kind: DatasetType::FileSystem,
        pool: "zroot".to_string(),
        createtxg: 1,
        properties: m,
    }
}

fn state(datasets: Vec<Dataset>) -> ZfsListOutput {
    let mut m = StrMap::new();
    for d in datasets {
        m.insert(d.name.clone(), d);
    }
    ZfsListOutput {
        output_version: ZfsListOutputVersion { command: "zfs get".to_string(), vers_major: 0, vers_minor: 1 },
        datasets: m,
    }
}

fn entries(m: &StrMap<PropertyValue>) -> Vec<(String, PropertyValue)> {
    (0..m.len()).map(|i| (m.key_at(i).clone(), m.value_at(i).clone())).collect()
}

fn describe(a: &ZfsAction) -> (String, String, Vec<(String, PropertyValue)>) {
    match a {
        ZfsAction::CreateDataset { name, properties } => ("create".to_string(), name.clone(), entries(properties)),
        ZfsAction::SetProperties { dataset, properties } => ("set".to_string(), dataset.clone(), entries(properties)),
        ZfsAction::InheritProperty { dataset, property } => (
            "inherit".to_string(),
            dataset.clone(),
            vec![(property.clone(), PropertyValue::new_string(""))],
        ),
    }
}

fn plan_with_extras(st: &ZfsListOutput, spec: &ZfsSpec) -> (Vec<(String, String, Vec<(String, PropertyValue)>)>, Vec<String>, Vec<String>) {
    let mut ap = VecActionProducer::new();
    eval_spec(&mut ap, st, spec);
    let extras = ap.extra_datasets().clone();
    let (set, errors) = ap.finalize();
    (set.0.iter().map(describe).collect(), errors, extras)
}

fn plan(st: &ZfsListOutput, spec: &ZfsSpec) -> (Vec<(String, String, Vec<(String, PropertyValue)>)>, Vec<String>) {
    let mut ap = VecActionProducer::new();
    eval_spec(&mut ap, st, spec);
    let (set, errors) = ap.finalize();
    (set.0.iter().map(describe).collect(), errors)
}

#[test]
fn missing_dataset_is_created_after_its_missing_parents() {
    let st = state(vec![dataset("zroot", vec![]), dataset("zroot/ds1", vec![])]);
    let spec = ZfsSpec {
        datasets: vec![ZfsSpecDataset::new(
            "zroot/ds1/persist/var/lib/postgresql",
            props(&[("recordsize", PropertyValue::new_string("128K"))]),
        )],
    };
    let (actions, errors) = plan(&st, &spec);
    assert!(errors.is_empty());
    assert_eq!(
        actions,
        vec![
            ("create".to_string(), "zroot/ds1/persist".to_string(), vec![]),
            ("create".to_string(), "zroot/ds1/persist/var".to_string(), vec![]),
            ("create".to_string(), "zroot/ds1/persist/var/lib".to_string(), vec![]),
            (
                "create".to_string(),
                "zroot/ds1/persist/var/lib/postgresql".to_string(),
                vec![("recordsize".to_string(), PropertyValue::new_string("128K"))]
            ),
        ]
    );
}

#[test]
fn existing_dataset_gets_only_changed_or_absent_properties() {
    let st = state(vec![dataset(
        "zroot/home",
        vec![
            ("compression", local(PropertyValue::new_string("lz4"))),
            ("recordsize", local(PropertyValue::new_integer(131072))),
            ("atime", Property { value: PropertyValue::new_string("on"), source: PropertySource::Default { data: "-".to_string() } }),
        ],
    )]);
    let spec = ZfsSpec {
        datasets: vec![ZfsSpecDataset::new(
            "zroot/home",
            props(&[
                ("compression", PropertyValue::new_string("lz4")),
                ("recordsize", PropertyValue::new_integer(16384)),
                ("atime", PropertyValue::new_string("off")),
                (":user", PropertyValue::new_string("x")),
            ]),
        )],
    };
    let (actions, errors) = plan(&st, &spec);
    assert!(errors.is_empty());
    assert_eq!(
        actions,
        vec![(
            "set".to_string(),
            "zroot/home".to_string(),
            vec![
                ("recordsize".to_string(), PropertyValue::new_integer(16384)),
                ("atime".to_string(), PropertyValue::new_string("off")),
                (":user".to_string(), PropertyValue::new_string("x")),
            ]
        )]
    );
}

#[test]
fn property_with_forbidding_source_gives_error() {
    let st = state(vec![dataset(
        "zroot/root",
        vec![
            ("used", Property { value: PropertyValue::new_integer(5), source: PropertySource::NoSource { data: "-".to_string() } }),
            ("mountpoint", Property { value: PropertyValue::new_string("/"), source: PropertySource::TEMPORARY { data: "a\"b".to_string() } }),
        ],
    )]);
    let spec = ZfsSpec {
        datasets: vec![ZfsSpecDataset::new(
            "zroot/root",
            props(&[("used", PropertyValue::new_integer(6)), ("mountpoint", PropertyValue::new_string("/x"))]),
        )],
    };
    let (actions, errors) = plan(&st, &spec);
    assert_eq!(actions, vec![("set".to_string(), "zroot/root".to_string(), vec![])]);
    assert_eq!(
        errors,
        vec![
            "cannot set property used of dataset zroot/root because source is None { data: \"-\" }".to_string(),
            "cannot set property mountpoint of dataset zroot/root because source is TEMPORARY { data: \"a\\\"b\" }".to_string(),
        ]
    );
}

#[test]
fn settable_sources_are_local_inherited_default() {
    for source in [
        PropertySource::Local { data: "-".to_string() },
        PropertySource::Inherited { data: "zroot".to_string() },
        PropertySource::Default { data: "-".to_string() },
    ] {
        let st = state(vec![dataset("p", vec![("k", Property { value: PropertyValue::new_integer(1), source })])]);
        let spec = ZfsSpec { datasets: vec![ZfsSpecDataset::new("p", props(&[("k", PropertyValue::new_integer(2))]))] };
        let (actions, errors) = plan(&st, &spec);
        assert!(errors.is_empty());
        assert_eq!(actions, vec![("set".to_string(), "p".to_string(), vec![("k".to_string(), PropertyValue::new_integer(2))])]);
    }
}

#[test]
fn converged_state_plans_no_change() {
    let st = state(vec![
        dataset("zroot", vec![]),
        dataset("zroot/nix", vec![("recordsize", local(PropertyValue::new_integer(8192)))]),
    ]);
    let spec = ZfsSpec {
        datasets: vec![
            ZfsSpecDataset::new("zroot/nix", props(&[("recordsize", PropertyValue::new_integer(8192))])),
            ZfsSpecDataset::new("zroot", props(&[])),
        ],
    };
    let (actions, errors) = plan(&st, &spec);
    assert!(errors.is_empty());
    assert_eq!(
        actions,
        vec![("set".to_string(), "zroot/nix".to_string(), vec![]), ("set".to_string(), "zroot".to_string(), vec![])]
    );
}

#[test]
fn plan_touches_only_declared_datasets_and_their_ancestors() {
    let st = state(vec![dataset("a", vec![]), dataset("other", vec![])]);
    let spec = ZfsSpec {
        datasets: vec![ZfsSpecDataset::new("a/b/c", props(&[])), ZfsSpecDataset::new("a", props(&[]))],
    };
    let (actions, _, extras) = plan_with_extras(&st, &spec);
    let targets: Vec<String> = actions.iter().map(|a| a.1.clone()).collect();
    assert_eq!(targets, vec!["a/b", "a/b/c", "a"]);
    assert_eq!(extras, vec!["other".to_string()]);
    for (kind, target, _) in &actions {
        assert!(target != "other");
        if kind == "create" {
            assert!(target != "a");
        }
    }
}

#[test]
fn unusual_paths_give_their_prefixes() {
    let st = state(vec![]);
    let spec = ZfsSpec { datasets: vec![ZfsSpecDataset::new("/x/", props(&[]))] };
    let (actions, _) = plan(&st, &spec);
    let targets: Vec<String> = actions.iter().map(|a| a.1.clone()).collect();
    assert_eq!(targets, vec!["", "/x", "/x/"]);
}

#[test]
fn producer_keeps_everything_in_order() {
    let mut ap = VecActionProducer::new();
    ap.produce_error("e1".to_string());
    ap.produce_action(ZfsAction::CreateDataset { name: "a".to_string(), properties: StrMap::new() });
    ap.produce_action(ZfsAction::SetProperties { dataset: "b".to_string(), properties: StrMap::new() });
    ap.produce_error("e2".to_string());
    let (set, errors) = ap.finalize();
    assert_eq!(errors, vec!["e1".to_string(), "e2".to_string()]);
    assert_eq!(set.0.len(), 2);
    assert!(matches!(&set.0[0], ZfsAction::CreateDataset { name, .. } if name == "a"));
    assert!(matches!(&set.0[1], ZfsAction::SetProperties { dataset, .. } if dataset == "b"));
}

#[test]
fn dataset_and_property_lookup() {
    let mut st = state(vec![dataset("zroot/a", vec![("quota", local(PropertyValue::new_integer(10)))])]);
    assert!(st.get_dataset("zroot/b").is_none());
    let d = st.get_dataset("zroot/a").unwrap();
    assert_eq!(d.get_property("quota").unwrap().value, PropertyValue::new_integer(10));
    assert!(d.get_property("other").is_none());
    {
        let d = st.get_dataset_mut("zroot/a").unwrap();
        let p = d.get_property_mut("quota").unwrap();
        p.value = PropertyValue::new_integer(20);
        assert!(d.get_property_mut("other").is_none());
    }
    assert!(st.get_dataset_mut("zroot/b").is_none());
    assert_eq!(st.get_dataset("zroot/a").unwrap().get_property("quota").unwrap().value, PropertyValue::new_integer(20));
}

#[test]
fn spec_dataset_new_keeps_name_and_properties() {
    let d = ZfsSpecDataset::new("zroot/test", props(&[(":test", PropertyValue::new_string("test"))]));
    assert_eq!(d.name, "zroot/test");
    assert_eq!(d.properties.len(), 1);
    assert_eq!(d.properties.get(":test"), Some(&PropertyValue::new_string("test")));
}

#[test]
fn empty_spec_plans_nothing() {
    let st = state(vec![dataset("zroot", vec![])]);
    let (actions, errors, extras) = plan_with_extras(&st, &ZfsSpec { datasets: vec![] });
    assert!(actions.is_empty());
    assert!(errors.is_empty());
    assert_eq!(extras, vec!["zroot".to_string()]);
}

#[test]
fn each_declaration_is_planned_against_the_existing_state_only() {
    let st = state(vec![]);
    let spec = ZfsSpec {
        datasets: vec![
            ZfsSpecDataset::new("p/a", props(&[])),
            ZfsSpecDataset::new("p/b", props(&[("k", PropertyValue::new_integer(1))])),
        ],
    };
    let (actions, _) = plan(&st, &spec);
    let targets: Vec<(String, String)> = actions.iter().map(|a| (a.0.clone(), a.1.clone())).collect();
    assert_eq!(
        targets,
        vec![
            ("create".to_string(), "p".to_string()),
            ("create".to_string(), "p/a".to_string()),
            ("create".to_string(), "p".to_string()),
            ("create".to_string(), "p/b".to_string()),
        ]
    );
}

#[test]
fn undeclared_local_properties_are_unset_after_the_settings() {
    let st = state(vec![dataset(
        "zroot/home",
        vec![
            ("quota", local(PropertyValue::new_integer(10))),
            ("compression", local(PropertyValue::new_string("lz4"))),
            ("atime", Property { value: PropertyValue::new_string("on"), source: PropertySource::Inherited { data: "zroot".to_string() } }),
            (":note", local(PropertyValue::new_string("x"))),
        ],
    )]);
    let spec = ZfsSpec {
        datasets: vec![ZfsSpecDataset::new("zroot/home", props(&[("compression", PropertyValue::new_string("zstd"))]))],
    };
    let (actions, errors, extras) = plan_with_extras(&st, &spec);
    assert!(errors.is_empty());
    assert!(extras.is_empty());
    let kinds: Vec<(String, String)> = actions.iter().map(|a| (a.0.clone(), a.2.first().map(|p| p.0.clone()).unwrap_or_default())).collect();
    assert_eq!(
        kinds,
        vec![
            ("set".to_string(), "compression".to_string()),
            ("inherit".to_string(), "quota".to_string()),
            ("inherit".to_string(), ":note".to_string()),
        ]
    );
}

#[test]
fn extra_datasets_are_listed_in_state_order_and_nothing_acts_on_them() {
    let st = state(vec![
        dataset("zroot", vec![]),
        dataset("zroot/old", vec![("quota", local(PropertyValue::new_integer(1)))]),
        dataset("zroot/keep", vec![]),
        dataset("zroot/keep/child", vec![]),
        dataset("zroot/keeper", vec![]),
    ]);
    let spec = ZfsSpec { datasets: vec![ZfsSpecDataset::new("zroot/keep", props(&[]))] };
    let (actions, errors, extras) = plan_with_extras(&st, &spec);
    assert!(errors.is_empty());
    assert_eq!(actions, vec![("set".to_string(), "zroot/keep".to_string(), vec![])]);
    assert_eq!(extras, vec!["zroot/old".to_string(), "zroot/keep/child".to_string(), "zroot/keeper".to_string()]);
}
