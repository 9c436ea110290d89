use rinit::deps::{build_dep_graph, detect_conflicts, resolve_startup_order, DepError, UnitRegistry};
use rinit::types::{Unit, UnitSection};

fn make_unit(name: &str, requires: &[&str]) -> Unit {
    Unit {
        name: name.to_string(),
        unit: UnitSection {
            requires: requires.iter().map(|s| s.to_string()).collect(),
            ..Default::default()
        },
        service: None,
        socket: None,
        mount: None,
        network: None,
    }
}

#[test]
fn linear_chain() {
    let mut units = UnitRegistry::new();
    units.insert("a.service".into(), make_unit("a.service", &[]));
    units.insert("b.service".into(), make_unit("b.service", &["a.service"]));
    units.insert("c.service".into(), make_unit("c.service", &["b.service"]));

    let layers = resolve_startup_order(&units).unwrap();
    assert_eq!(layers.len(), 3);
}

#[test]
fn parallel_layer() {
    let mut units = UnitRegistry::new();
    units.insert("a.service".into(), make_unit("a.service", &[]));
    units.insert("b.service".into(), make_unit("b.service", &[]));
    units.insert("c.service".into(), make_unit("c.service", &["a.service", "b.service"]));

    let layers = resolve_startup_order(&units).unwrap();
    assert_eq!(layers.len(), 2);
    assert_eq!(layers[0].len(), 2);
}

#[test]
fn cycle_detection() {
    let mut units = UnitRegistry::new();
    units.insert("a.service".into(), make_unit("a.service", &["b.service"]));
    units.insert("b.service".into(), make_unit("b.service", &["a.service"]));

    let result = resolve_startup_order(&units);
    assert!(result.is_err());
}

#[test]
fn layers_hold_exactly_the_units_of_each_round() {
    let mut units = UnitRegistry::new();
    units.insert("d.service".into(), make_unit("d.service", &["b.service", "c.service"]));
    units.insert("a.service".into(), make_unit("a.service", &[]));
    units.insert("b.service".into(), make_unit("b.service", &["a.service"]));
    units.insert("c.service".into(), make_unit("c.service", &["a.service", "a.service"]));
    let layers = resolve_startup_order(&units).unwrap();
    assert_eq!(layers, vec![
        vec!["a.service".to_string()],
        vec!["b.service".to_string(), "c.service".to_string()],
        vec!["d.service".to_string()],
    ]);
}

#[test]
fn missing_dependency_blocks_its_dependents_only() {
    let mut units = UnitRegistry::new();
    units.insert("a.service".into(), make_unit("a.service", &["network.target"]));
    units.insert("b.service".into(), make_unit("b.service", &["a.service"]));
    units.insert("c.service".into(), make_unit("c.service", &[]));
    match resolve_startup_order(&units) {
        Err(DepError::Cycle(names)) => {
            assert_eq!(names, vec!["a.service".to_string(), "b.service".to_string()]);
        }
        Ok(_) => panic!("a missing dependency must be refused"),
    }
}

#[test]
fn self_dependency_is_a_cycle() {
    let mut units = UnitRegistry::new();
    units.insert("a.service".into(), make_unit("a.service", &["a.service"]));
    match resolve_startup_order(&units) {
        Err(DepError::Cycle(names)) => assert_eq!(names, vec!["a.service".to_string()]),
        Ok(_) => panic!("a unit that needs itself cannot start"),
    }
}

#[test]
fn empty_registry_has_no_layers() {
    let units = UnitRegistry::new();
    assert_eq!(resolve_startup_order(&units).unwrap().len(), 0);
}

#[test]
fn wants_order_like_requires() {
    let mut units = UnitRegistry::new();
    let mut b = make_unit("b.service", &[]);
    b.unit.wants = vec!["a.service".to_string()];
    units.insert("a.service".into(), make_unit("a.service", &[]));
    units.insert("b.service".into(), b);
    let layers = resolve_startup_order(&units).unwrap();
    assert_eq!(layers, vec![vec!["a.service".to_string()], vec!["b.service".to_string()]]);
}

#[test]
fn graph_lists_dependents_per_listing() {
    let mut units = UnitRegistry::new();
    let mut b = make_unit("b.service", &["a.service"]);
    b.unit.wants = vec!["a.service".to_string(), "x.target".to_string()];
    units.insert("a.service".into(), make_unit("a.service", &[]));
    units.insert("b.service".into(), b);
    let g = build_dep_graph(&units);
    assert_eq!(g.len(), 3);
    assert_eq!(
        g.get("a.service").unwrap(),
        &vec!["b.service".to_string(), "b.service".to_string()]
    );
    assert_eq!(g.get("x.target").unwrap(), &vec!["b.service".to_string()]);
    assert!(g.get("b.service").unwrap().is_empty());
    assert!(g.get("y.target").is_none());
}

#[test]
fn conflicts_name_only_loaded_units() {
    let mut units = UnitRegistry::new();
    let mut a = make_unit("a.service", &[]);
    a.unit.conflicts = vec!["b.service".to_string(), "gone.service".to_string()];
    units.insert("a.service".into(), a);
    units.insert("b.service".into(), make_unit("b.service", &[]));
    assert_eq!(
        detect_conflicts(&units),
        vec![("a.service".to_string(), "b.service".to_string())]
    );
}

#[test]
fn insert_replaces_a_unit_under_its_key() {
    let mut units = UnitRegistry::new();
    units.insert("a.service".into(), make_unit("a.service", &["x"]));
    units.insert("a.service".into(), make_unit("a.service", &[]));
    assert_eq!(units.len(), 1);
    assert!(units.contains_key("a.service"));
    assert!(units.get("a.service").unwrap().unit.requires.is_empty());
    assert!(units.get("b.service").is_none());
}

fn layer_of(layers: &[Vec<String>], name: &str) -> usize {
    let found: Vec<usize> =
        (0..layers.len()).filter(|&k| layers[k].iter().any(|n| n == name)).collect();
    assert_eq!(found.len(), 1, "{} must be in exactly one layer", name);
    found[0]
}

#[test]
fn every_dependency_starts_in_an_earlier_layer() {
    let mut units = UnitRegistry::new();
    let mut e = make_unit("e.service", &["d.service"]);
    e.unit.wants = vec!["a.service".to_string()];
    units.insert("e.service".into(), e);
    units.insert("d.service".into(), make_unit("d.service", &["b.service", "c.service"]));
    units.insert("c.service".into(), make_unit("c.service", &["a.service"]));
    units.insert("b.service".into(), make_unit("b.service", &[]));
    units.insert("a.service".into(), make_unit("a.service", &[]));
    let layers = resolve_startup_order(&units).unwrap();
    let total: usize = layers.iter().map(|l| l.len()).sum();
    assert_eq!(total, units.len());
    for name in ["a.service", "b.service", "c.service", "d.service", "e.service"] {
        let u = units.get(name).unwrap();
        for d in u.unit.requires.iter().chain(u.unit.wants.iter()) {
            assert!(layer_of(&layers, d) < layer_of(&layers, name));
        }
    }
    for layer in &layers {
        for n in layer {
            let u = units.get(n).unwrap();
            assert!(layer.iter().all(|m| !u.unit.requires.contains(m) && !u.unit.wants.contains(m)));
        }
    }
}

#[test]
fn longer_cycle_is_rejected_with_its_members() {
    let mut units = UnitRegistry::new();
    units.insert("a.service".into(), make_unit("a.service", &["b.service"]));
    units.insert("b.service".into(), make_unit("b.service", &["c.service"]));
    units.insert("c.service".into(), make_unit("c.service", &["a.service"]));
    units.insert("d.service".into(), make_unit("d.service", &[]));
    units.insert("e.service".into(), make_unit("e.service", &["c.service", "d.service"]));
    match resolve_startup_order(&units) {
        Err(DepError::Cycle(mut names)) => {
            names.sort();
            assert_eq!(
                names,
                vec![
                    "a.service".to_string(),
                    "b.service".to_string(),
                    "c.service".to_string(),
                    "e.service".to_string()
                ]
            );
        }
        Ok(_) => panic!("a cycle must be refused"),
    }
}

#[test]
fn unit_accessors() {
    let mut u = make_unit("a.service", &["b.service"]);
    u.unit.wants = vec!["c.service".to_string()];
    assert_eq!(u.hard_deps(), &["b.service".to_string()]);
    assert_eq!(u.soft_deps(), &["c.service".to_string()]);
    assert!(!u.is_service());
    assert!(!u.is_network());
    assert_eq!(rinit::types::default_service_type(), rinit::types::ServiceType::Simple);
    assert_eq!(rinit::types::RestartPolicy::default(), rinit::types::RestartPolicy::No);
}

#[test]
fn missing_wanted_unit_does_not_block() {
    let mut units = UnitRegistry::new();
    let mut a = make_unit("a.service", &[]);
    a.unit.wants = vec!["missing.service".to_string()];
    a.unit.after = vec!["gone.target".to_string()];
    units.insert("a.service".into(), a);
    assert_eq!(resolve_startup_order(&units).unwrap(), vec![vec!["a.service".to_string()]]);
}

#[test]
fn after_and_before_order_the_layers() {
    let mut units = UnitRegistry::new();
    let mut c = make_unit("c.service", &[]);
    c.unit.after = vec!["a.service".to_string()];
    let mut b = make_unit("b.service", &[]);
    b.unit.before = vec!["a.service".to_string()];
    units.insert("c.service".into(), c);
    units.insert("a.service".into(), make_unit("a.service", &[]));
    units.insert("b.service".into(), b);
    let layers = resolve_startup_order(&units).unwrap();
    assert_eq!(
        layers,
        vec![
            vec!["b.service".to_string()],
            vec!["a.service".to_string()],
            vec!["c.service".to_string()],
        ]
    );
}

#[test]
fn after_cycle_is_rejected() {
    let mut units = UnitRegistry::new();
    let mut a = make_unit("a.service", &[]);
    a.unit.after = vec!["b.service".to_string()];
    let mut b = make_unit("b.service", &[]);
    b.unit.before = vec!["a.service".to_string()];
    b.unit.after = vec!["a.service".to_string()];
    units.insert("a.service".into(), a);
    units.insert("b.service".into(), b);
    assert!(resolve_startup_order(&units).is_err());
}

#[test]
fn graph_follows_requires_and_wants_only() {
    let mut units = UnitRegistry::new();
    units.insert("a".into(), make_unit("a", &[]));
    units.insert("b".into(), make_unit("b", &["a"]));
    let mut c = make_unit("c", &[]);
    c.unit.after = vec!["a".to_string()];
    c.unit.wants = vec!["x".to_string()];
    units.insert("c".into(), c);
    let g = build_dep_graph(&units);
    assert_eq!(g.len(), 4);
    assert_eq!(g.get("a").unwrap(), &vec!["b".to_string()]);
    assert!(g.get("b").unwrap().is_empty());
    assert!(g.get("c").unwrap().is_empty());
    assert_eq!(g.get("x").unwrap(), &vec!["c".to_string()]);
}
