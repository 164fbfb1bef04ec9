use fomod_oxide::condition::{
    CompositeDependency, EvalContext, FileDependency, FileState, FlagDependency, GameDependency,
    Operator,
};
use fomod_oxide::config::{
    ConditionFlag, ConditionFlagList, ConditionalFileInstalls, ConditionalPattern,
    ConditionalPatterns, FileItem, FileList, FileRef, Group, GroupList, GroupType, InstallStep,
    InstallSteps, ModuleConfig, ModuleName, Plugin, PluginList, PluginType, SimpleType,
    TypeDescriptor,
};
use fomod_oxide::declarative::{DeclarativeConfig, DeclarativeError, SCHEMA_VERSION};
use fomod_oxide::info::{resolve_rev, FomodInfo};
use fomod_oxide::text::with_trailing_newline;
use fomod_oxide::version::compare_versions;
use fomod_oxide::{hash_xml, Installer, SelectionError, StrMap};

fn file(source: &str, priority: i32) -> FileItem {
    FileItem::File(FileRef {
        source: source.to_string(),
        destination: String::new(),
        priority,
        always_install: false,
        install_if_usable: false,
    })
}

fn folder(source: &str, priority: i32) -> FileItem {
    FileItem::Folder(FileRef {
        source: source.to_string(),
        destination: "Data".to_string(),
        priority,
        always_install: false,
        install_if_usable: false,
    })
}

fn plugin(name: &str, t: Option<PluginType>, flags: &[(&str, &str)], files: Vec<FileItem>) -> Plugin {
    Plugin {
        name: name.to_string(),
        description: None,
        image: None,
        type_descriptor: t.map(|t| TypeDescriptor {
            simple_type: Some(SimpleType { name: t }),
            dependency_type: None,
        }),
        condition_flags: if flags.is_empty() {
            None
        } else {
            Some(ConditionFlagList {
                flags: flags
                    .iter()
                    .map(|(n, v)| ConditionFlag { name: n.to_string(), value: v.to_string() })
                    .collect(),
            })
        },
        files: Some(FileList { items: files }),
    }
}

fn group(name: &str, t: GroupType, plugins: Vec<Plugin>) -> Group {
    Group { name: name.to_string(), group_type: t, plugins: PluginList { order: None, plugins } }
}

fn step(name: &str, visible: Option<CompositeDependency>, groups: Vec<Group>) -> InstallStep {
    InstallStep {
        name: name.to_string(),
        visible,
        optional_file_groups: Some(GroupList { order: None, groups }),
    }
}

fn config(steps: Vec<InstallStep>) -> ModuleConfig {
    ModuleConfig {
        module_name: ModuleName { position: None, value: "Mod".to_string() },
        module_image: None,
        module_dependencies: None,
        required_install_files: None,
        install_steps: Some(InstallSteps { order: None, steps }),
        conditional_file_installs: None,
    }
}

fn dep(operator: Operator) -> CompositeDependency {
    CompositeDependency {
        operator,
        file_deps: vec![],
        flag_deps: vec![],
        game_deps: vec![],
        nested: vec![],
    }
}

fn flag_dep(flag: &str, value: &str) -> FlagDependency {
    FlagDependency { flag: flag.to_string(), value: value.to_string() }
}

// ---- versions ----

#[test]
fn version_comparison_is_by_numeric_components() {
    assert!(compare_versions("1.5.97", "1.5.0"));
    assert!(compare_versions("1.6", "1.5.99"));
    assert!(!compare_versions("1.5", "1.5.0"));
    assert!(compare_versions("1.5.0", "1.5"));
    assert!(compare_versions("1.10", "1.9"));
    assert!(!compare_versions("1.9", "1.10"));
}

#[test]
fn version_components_that_are_no_number_are_skipped() {
    // "a" is skipped, so "a.2" reads as [2]
    assert!(compare_versions("a.2", "2"));
    assert!(compare_versions("2", "a.2"));
    // "+3" reads as 3; "-3" is no number
    assert!(compare_versions("+3", "3"));
    assert!(compare_versions("1.-3", "1"));
    // a component beyond u32 is skipped
    assert!(compare_versions("1.99999999999", "1"));
    assert!(!compare_versions("1.99999999999", "1.0"));
}

#[test]
fn version_law_reflexive_and_total() {
    for v in ["", "1", "1.2.3", "x.y", "0.0.1"] {
        assert!(compare_versions(v, v));
    }
    let vs = ["1", "1.0", "2.5", "0.9.9"];
    for a in vs {
        for b in vs {
            assert!(compare_versions(a, b) || compare_versions(b, a));
        }
    }
}

// ---- conditions ----

#[test]
fn empty_and_holds_and_empty_or_does_not() {
    let ctx = EvalContext::new();
    assert!(dep(Operator::And).evaluate(&ctx));
    assert!(!dep(Operator::Or).evaluate(&ctx));
}

#[test]
fn flag_file_and_game_dependencies() {
    let mut ctx = EvalContext::new();
    ctx.set_flag("Texture", "High");
    ctx.set_file_state("skse.dll", FileState::Active);
    ctx.game_version = Some("1.6.640".to_string());

    let mut d = dep(Operator::And);
    d.flag_deps.push(flag_dep("Texture", "High"));
    d.file_deps.push(FileDependency { file: "skse.dll".into(), state: FileState::Active });
    d.file_deps.push(FileDependency { file: "other.esp".into(), state: FileState::Missing });
    d.game_deps.push(GameDependency { version: "1.5.97".into() });
    assert!(d.evaluate(&ctx));

    d.flag_deps.push(flag_dep("Texture", "Low"));
    assert!(!d.evaluate(&ctx));

    d.operator = Operator::Or;
    assert!(d.evaluate(&ctx));
}

#[test]
fn game_dependency_without_known_version_fails() {
    let ctx = EvalContext::new();
    let mut d = dep(Operator::And);
    d.game_deps.push(GameDependency { version: "0".into() });
    assert!(!d.evaluate(&ctx));
}

#[test]
fn nested_dependencies() {
    let mut ctx = EvalContext::new();
    ctx.set_flag("A", "1");
    let mut inner = dep(Operator::Or);
    inner.flag_deps.push(flag_dep("A", "2"));
    inner.flag_deps.push(flag_dep("A", "1"));
    let mut outer = dep(Operator::And);
    outer.nested.push(inner.clone());
    assert!(outer.evaluate(&ctx));
    let mut failing = dep(Operator::And);
    failing.flag_deps.push(flag_dep("B", "1"));
    outer.nested.push(failing);
    assert!(!outer.evaluate(&ctx));
}

// ---- text maps ----

#[test]
fn str_map_insert_get_remove() {
    let mut m: StrMap<u32> = StrMap::new();
    assert!(m.is_empty());
    assert_eq!(m.insert("a".to_string(), 1), None);
    assert_eq!(m.insert("b".to_string(), 2), None);
    assert_eq!(m.insert("a".to_string(), 3), Some(1));
    assert_eq!(m.len(), 2);
    assert_eq!(m.get("a"), Some(&3));
    assert_eq!(m.key_at(0), "a");
    assert_eq!(m.key_at(1), "b");
    assert_eq!(m.remove("a"), Some(3));
    assert_eq!(m.get("a"), None);
    assert!(!m.contains_key("a"));
    assert!(m.contains_key("b"));
    let p = StrMap::from_pairs(vec![("x".to_string(), 1u32), ("y".to_string(), 2), ("x".to_string(), 5)]);
    assert_eq!(p.len(), 2);
    assert_eq!(p.get("x"), Some(&5));
}

// ---- installer ----

fn flags_config() -> ModuleConfig {
    config(vec![step(
        "S",
        None,
        vec![group(
            "G",
            GroupType::SelectAny,
            vec![
                plugin("P0", None, &[("Color", "Red"), ("Big", "yes")], vec![file("p0.esp", 0)]),
                plugin("P1", None, &[("Color", "Blue")], vec![file("p1.esp", 0)]),
            ],
        )],
    )])
}

#[test]
fn select_sets_flags_of_chosen_plugins_and_clears_the_others() {
    let mut inst = Installer::new(flags_config());
    inst.context_mut().set_flag("Unrelated", "kept");
    inst.select(0, 0, vec![0]);
    assert_eq!(inst.context().flags.get("Color"), Some(&"Red".to_string()));
    assert_eq!(inst.context().flags.get("Big"), Some(&"yes".to_string()));
    inst.select(0, 0, vec![1]);
    assert_eq!(inst.context().flags.get("Color"), Some(&"Blue".to_string()));
    assert_eq!(inst.context().flags.get("Big"), None);
    assert_eq!(inst.context().flags.get("Unrelated"), Some(&"kept".to_string()));
    // later plugins win
    inst.select(0, 0, vec![1, 0]);
    assert_eq!(inst.context().flags.get("Color"), Some(&"Red".to_string()));
}

#[test]
fn reselect_replaces_the_earlier_choice() {
    let mut a = Installer::new(flags_config());
    a.select(0, 0, vec![0]);
    a.select(0, 0, vec![1]);
    let mut b = Installer::new(flags_config());
    b.select(0, 0, vec![1]);
    let pa: Vec<String> = a.resolve().operations.iter().map(|o| o.source.clone()).collect();
    let pb: Vec<String> = b.resolve().operations.iter().map(|o| o.source.clone()).collect();
    assert_eq!(pa, pb);
    assert_eq!(pa, vec!["p1.esp".to_string()]);
    assert_eq!(a.context().flags.get("Big"), b.context().flags.get("Big"));
    assert_eq!(a.context().flags.get("Color"), b.context().flags.get("Color"));
}

#[test]
fn select_on_missing_group_records_nothing_for_flags() {
    let mut inst = Installer::new(flags_config());
    inst.select(3, 7, vec![0]);
    assert!(inst.context().flags.is_empty());
    assert!(inst.resolve().operations.is_empty());
}

#[test]
fn resolve_sorts_by_priority_and_keeps_order_within_a_priority() {
    let mut cfg = config(vec![step(
        "S",
        None,
        vec![group(
            "G",
            GroupType::SelectAll,
            vec![
                plugin("A", None, &[], vec![file("a1", 5), file("a2", -1)]),
                plugin("B", None, &[], vec![folder("b1", 5), file("b2", 0)]),
            ],
        )],
    )]);
    cfg.required_install_files = Some(FileList { items: vec![file("r1", 5), file("r2", 0)] });
    let mut cond = dep(Operator::And);
    cond.flag_deps.push(flag_dep("On", "1"));
    cfg.conditional_file_installs = Some(ConditionalFileInstalls {
        patterns: ConditionalPatterns {
            patterns: vec![
                ConditionalPattern { dependencies: cond, files: FileList { items: vec![file("c1", 0)] } },
                ConditionalPattern {
                    dependencies: dep(Operator::And),
                    files: FileList { items: vec![file("c2", -1)] },
                },
            ],
        },
    });
    let mut inst = Installer::new(cfg);
    inst.select(0, 0, vec![0, 1]);
    let plan = inst.resolve();
    let order: Vec<(String, i32)> =
        plan.operations.iter().map(|o| (o.source.clone(), o.priority)).collect();
    assert_eq!(
        order,
        vec![
            ("a2".to_string(), -1),
            ("c2".to_string(), -1),
            ("r2".to_string(), 0),
            ("b2".to_string(), 0),
            ("r1".to_string(), 5),
            ("a1".to_string(), 5),
            ("b1".to_string(), 5),
        ]
    );
    assert!(plan.operations[6].is_folder);
    assert_eq!(plan.operations[6].destination, "Data");
}

#[test]
fn visible_steps_follow_conditions() {
    let mut needs_flag = dep(Operator::And);
    needs_flag.flag_deps.push(flag_dep("Show", "yes"));
    let cfg = config(vec![
        step("First", None, vec![]),
        step("Second", Some(needs_flag), vec![]),
        step("Third", Some(dep(Operator::Or)), vec![]),
    ]);
    let mut inst = Installer::new(cfg);
    let names: Vec<(usize, String)> =
        inst.visible_steps().iter().map(|(i, s)| (*i, s.name.clone())).collect();
    assert_eq!(names, vec![(0, "First".to_string())]);
    inst.context_mut().set_flag("Show", "yes");
    let idx: Vec<usize> = inst.visible_steps().iter().map(|(i, _)| *i).collect();
    assert_eq!(idx, vec![0, 1]);
}

#[test]
fn check_dependencies_uses_module_dependencies() {
    let mut cfg = config(vec![]);
    let inst = Installer::new(cfg.clone());
    assert!(inst.check_dependencies());
    let mut d = dep(Operator::And);
    d.file_deps.push(FileDependency { file: "base.esm".into(), state: FileState::Active });
    cfg.module_dependencies = Some(d);
    let mut ctx = EvalContext::new();
    let inst = Installer::with_context(cfg.clone(), EvalContext::new());
    assert!(!inst.check_dependencies());
    ctx.set_file_state("base.esm", FileState::Active);
    let inst = Installer::with_context(cfg, ctx);
    assert!(inst.check_dependencies());
}

fn typed_group(t: GroupType) -> Group {
    group(
        "G",
        t,
        vec![
            plugin("opt", Some(PluginType::Optional), &[], vec![]),
            plugin("rec", Some(PluginType::Recommended), &[], vec![]),
            plugin("none", None, &[], vec![]),
            plugin("req", Some(PluginType::Required), &[], vec![]),
        ],
    )
}

#[test]
fn default_selections_per_group_type() {
    assert_eq!(Installer::default_selections(&typed_group(GroupType::SelectAll)), vec![0, 1, 2, 3]);
    assert_eq!(Installer::default_selections(&typed_group(GroupType::SelectExactlyOne)), vec![1]);
    assert_eq!(Installer::default_selections(&typed_group(GroupType::SelectAtMostOne)), vec![1]);
    assert_eq!(Installer::default_selections(&typed_group(GroupType::SelectAtLeastOne)), vec![1, 3]);
    assert_eq!(Installer::default_selections(&typed_group(GroupType::SelectAny)), vec![1, 3]);
    let none = group("G", GroupType::SelectExactlyOne, vec![plugin("a", None, &[], vec![])]);
    assert!(Installer::default_selections(&none).is_empty());
}

#[test]
fn validate_selection_errors() {
    let g = typed_group(GroupType::SelectExactlyOne);
    assert_eq!(Installer::validate_selection(&g, &[4]), Err(SelectionError::OutOfBounds));
    assert_eq!(
        Installer::validate_selection(&g, &[0, 1]),
        Err(SelectionError::InvalidCount { expected: "exactly 1", got: 2 })
    );
    assert_eq!(Installer::validate_selection(&g, &[2]), Ok(()));
    let g = typed_group(GroupType::SelectAtMostOne);
    assert_eq!(
        Installer::validate_selection(&g, &[0, 1]),
        Err(SelectionError::InvalidCount { expected: "at most 1", got: 2 })
    );
    assert_eq!(Installer::validate_selection(&g, &[]), Ok(()));
    let g = typed_group(GroupType::SelectAtLeastOne);
    assert_eq!(
        Installer::validate_selection(&g, &[]),
        Err(SelectionError::InvalidCount { expected: "at least 1", got: 0 })
    );
    let g = typed_group(GroupType::SelectAll);
    assert_eq!(
        Installer::validate_selection(&g, &[0, 1, 2]),
        Err(SelectionError::InvalidCount { expected: "all", got: 3 })
    );
    assert_eq!(Installer::validate_selection(&g, &[0, 1, 2, 3]), Ok(()));
    let g = typed_group(GroupType::SelectAny);
    assert_eq!(Installer::validate_selection(&g, &[0, 0, 0, 0, 0]), Ok(()));
}

#[test]
fn default_selection_fits_unless_nothing_is_preferred() {
    for t in [
        GroupType::SelectAll,
        GroupType::SelectExactlyOne,
        GroupType::SelectAtMostOne,
        GroupType::SelectAtLeastOne,
        GroupType::SelectAny,
    ] {
        let g = typed_group(t);
        assert!(Installer::validate_selection(&g, &Installer::default_selections(&g)).is_ok());
    }
    let g = group("G", GroupType::SelectAtLeastOne, vec![plugin("a", None, &[], vec![])]);
    assert!(Installer::validate_selection(&g, &Installer::default_selections(&g)).is_err());
}

#[test]
fn selection_error_messages() {
    assert_eq!(SelectionError::OutOfBounds.to_string(), "plugin index out of bounds");
    assert_eq!(
        SelectionError::InvalidCount { expected: "exactly 1", got: 12 }.to_string(),
        "expected exactly 1 selections, got 12"
    );
}

// ---- declarative ----

fn two_step_config() -> ModuleConfig {
    config(vec![
        step(
            "Main",
            None,
            vec![
                typed_group(GroupType::SelectAny),
                group(
                    "Color",
                    GroupType::SelectExactlyOne,
                    vec![
                        plugin("Red", Some(PluginType::Recommended), &[("c", "r")], vec![file("red", 1)]),
                        plugin("Blue", None, &[("c", "b")], vec![file("blue", 1)]),
                    ],
                ),
            ],
        ),
        step(
            "Extras",
            None,
            vec![group(
                "All",
                GroupType::SelectAll,
                vec![plugin("X", None, &[], vec![file("x", 0)])],
            )],
        ),
    ])
}

#[test]
fn defaults_template_round_trips() {
    let xml = "<config/>";
    let cfg = two_step_config();
    let decl = DeclarativeConfig::from_defaults(xml, "1", &cfg);
    let mut applied = Installer::new(cfg.clone());
    decl.apply(xml, &mut applied).unwrap();
    let mut direct = Installer::new(cfg.clone());
    direct.select(0, 0, Installer::default_selections(&typed_group(GroupType::SelectAny)));
    direct.select(0, 1, vec![0]);
    direct.select(1, 0, vec![0]);
    let a: Vec<String> = applied.resolve().operations.iter().map(|o| o.source.clone()).collect();
    let b: Vec<String> = direct.resolve().operations.iter().map(|o| o.source.clone()).collect();
    assert_eq!(a, b);
    assert_eq!(a, vec!["x".to_string(), "red".to_string()]);
    assert_eq!(applied.context().flags.get("c"), Some(&"r".to_string()));
}

#[test]
fn all_template_resolves_every_name_and_fails_validation_only() {
    let xml = "<config/>";
    let cfg = two_step_config();
    let decl = DeclarativeConfig::from_all(xml, "1", &cfg);
    let mut inst = Installer::new(cfg);
    match decl.apply(xml, &mut inst) {
        Err(DeclarativeError::ValidationFailed { step, group, message }) => {
            assert_eq!(step, "Main");
            assert_eq!(group, "Color");
            assert_eq!(message, "expected exactly 1 selections, got 2");
        }
        other => panic!("unexpected {:?}", other),
    }
    assert!(inst.context().flags.is_empty());
}

#[test]
fn apply_named_choice_overrides_defaults() {
    let xml = "<config/>";
    let cfg = two_step_config();
    let mut decl = DeclarativeConfig::from_defaults(xml, "1", &cfg);
    let mut main = StrMap::new();
    main.insert("Color".to_string(), vec!["Blue".to_string()]);
    decl.selections.insert("Main".to_string(), main);
    let mut inst = Installer::new(cfg);
    decl.apply(xml, &mut inst).unwrap();
    assert_eq!(inst.context().flags.get("c"), Some(&"b".to_string()));
}

#[test]
fn apply_error_leaves_installer_unchanged() {
    let xml = "<config/>";
    let cfg = two_step_config();
    let mut decl = DeclarativeConfig::from_defaults(xml, "1", &cfg);
    decl.selections.insert("Nope".to_string(), StrMap::new());
    let mut inst = Installer::new(cfg);
    inst.select(0, 1, vec![1]);
    let err = decl.apply(xml, &mut inst).unwrap_err();
    assert_eq!(err.to_string(), "step not found: \"Nope\"");
    assert_eq!(inst.context().flags.get("c"), Some(&"b".to_string()));
}

#[test]
fn declarative_error_messages() {
    assert_eq!(
        DeclarativeError::UnsupportedVersion { config: 99, supported: 1 }.to_string(),
        "config schema version 99 is not supported (this library supports up to 1)"
    );
    assert_eq!(
        DeclarativeError::HashMismatch { expected: "a".into(), actual: "b".into() }.to_string(),
        "hash mismatch: config expects a, got b"
    );
    assert_eq!(
        DeclarativeError::GroupNotFound { step: "S".into(), group: "G".into() }.to_string(),
        "group \"G\" not found in step \"S\""
    );
    assert_eq!(
        DeclarativeError::PluginNotFound { step: "S".into(), group: "G".into(), plugin: "P".into() }
            .to_string(),
        "plugin \"P\" not found in group \"G\" (step \"S\")"
    );
    assert_eq!(
        DeclarativeError::ValidationFailed { step: "S".into(), group: "G".into(), message: "m".into() }
            .to_string(),
        "invalid selection for group \"G\" in step \"S\": m"
    );
    assert_eq!(
        DeclarativeError::StepNotFound("a\"b".into()).to_string(),
        "step not found: \"a\\\"b\""
    );
}

#[test]
fn summary_is_sorted_by_step_then_group() {
    let cfg = two_step_config();
    let decl = DeclarativeConfig::from_defaults("", "1", &cfg);
    let s = decl.summary();
    let keys: Vec<(String, String)> = s.iter().map(|x| (x.step.clone(), x.group.clone())).collect();
    assert_eq!(
        keys,
        vec![
            ("Extras".to_string(), "All".to_string()),
            ("Main".to_string(), "Color".to_string()),
            ("Main".to_string(), "G".to_string()),
        ]
    );
    assert_eq!(s[2].plugins, vec!["rec".to_string(), "req".to_string()]);
    assert_eq!(s[2].to_string(), "Main > G: [rec, req]");
    assert_eq!(s[0].to_string(), "Extras > All: [X]");
}

#[test]
fn diff_with_itself_is_empty_and_diff_is_mirrored() {
    let cfg = two_step_config();
    let a = DeclarativeConfig::from_defaults("", "1", &cfg);
    let b = DeclarativeConfig::from_all("", "1", &cfg);
    assert!(a.diff(&a).is_empty());
    let ab = a.diff(&b);
    let ba = b.diff(&a);
    assert_eq!(ab.len(), 2);
    assert_eq!(ab.len(), ba.len());
    for (x, y) in ab.iter().zip(ba.iter()) {
        assert_eq!((&x.step, &x.group), (&y.step, &y.group));
        assert_eq!(x.left, y.right);
        assert_eq!(x.right, y.left);
    }
    assert_eq!(ab[0].group, "Color");
    assert_eq!(ab[1].group, "G");
}

#[test]
fn diff_treats_a_missing_group_as_empty() {
    let mut a = DeclarativeConfig::from_defaults("", "1", &config(vec![]));
    let b = a.clone();
    let mut inner = StrMap::new();
    inner.insert("G".to_string(), Vec::new());
    a.selections.insert("S".to_string(), inner);
    assert!(a.diff(&b).is_empty());
}

#[test]
fn hash_xml_is_sri_sha256_base64() {
    assert_eq!(hash_xml("hello"), "sha256-LPJNul+wow4m6DsqxbninhsWHlwfp0JecwQzYpOLmCQ=");
    assert_eq!(hash_xml(""), "sha256-47DEQpj8HBSa+/TImW+5JCeuQeRkm5NMpJWZG3hSuFU=");
}

#[test]
fn from_defaults_records_version_rev_and_hash() {
    let decl = DeclarativeConfig::from_defaults("<x/>", "2.1", &config(vec![]));
    assert_eq!(decl.schema_version, SCHEMA_VERSION);
    assert_eq!(decl.rev, "2.1");
    assert_eq!(decl.hash, hash_xml("<x/>"));
    assert!(decl.selections.is_empty());
}

// ---- program helpers ----

#[test]
fn rev_resolution_order() {
    let info = FomodInfo {
        name: Some("Name".into()),
        author: None,
        version: Some("3.0".into()),
        description: None,
        website: None,
        id: None,
    };
    assert_eq!(resolve_rev(Some("x".into()), Some(info.clone()), "M"), "x");
    assert_eq!(resolve_rev(None, Some(info.clone()), "M"), "3.0");
    let mut no_version = info.clone();
    no_version.version = None;
    assert_eq!(resolve_rev(None, Some(no_version.clone()), "M"), "Name");
    no_version.name = None;
    assert_eq!(resolve_rev(None, Some(no_version), "M"), "M");
    assert_eq!(resolve_rev(None, None, "M"), "M");
}

#[test]
fn trailing_newline() {
    assert_eq!(with_trailing_newline("a".to_string()), "a\n");
    assert_eq!(with_trailing_newline("a\n".to_string()), "a\n");
    assert_eq!(with_trailing_newline(String::new()), "\n");
}

#[test]
fn hash_xml_has_sri_length() {
    assert_eq!(hash_xml("").len(), 51);
    assert_eq!(hash_xml("<config><moduleName>T</moduleName></config>").len(), 51);
}

#[test]
fn file_paths_ignore_ascii_case_only() {
    let mut ctx = EvalContext::new();
    ctx.set_file_state("Data/ÄBC.esp", FileState::Active);
    let upper = FileDependency { file: "DATA/ÄBC.ESP".to_string(), state: FileState::Active };
    let lower = FileDependency { file: "data/äbc.esp".to_string(), state: FileState::Active };
    // ASCII letters match in any case; the non-ASCII `Ä` only as written
    assert!(upper.evaluate(&ctx));
    assert!(!lower.evaluate(&ctx));
}

#[test]
fn resolvable_detects_a_plugin_missing_from_a_repeated_step() {
    let xml = "<config/>";
    let cfg = config(vec![
        step("S", None, vec![group("G", GroupType::SelectAny, vec![plugin("P", None, &[], vec![])])]),
        step("S", None, vec![group("G", GroupType::SelectAny, vec![plugin("Q", None, &[], vec![])])]),
    ]);
    let mut decl = DeclarativeConfig::from_defaults(xml, "1", &cfg);
    assert!(decl.resolvable(&cfg));
    let mut inner = StrMap::new();
    inner.insert("G".to_string(), vec!["P".to_string()]);
    decl.selections.insert("S".to_string(), inner);
    // "P" is found in the first step "S" but not in the second one
    assert!(!decl.resolvable(&cfg));
    // an unknown name makes `apply` fail cleanly, so it counts as resolvable
    let mut bad = StrMap::new();
    bad.insert("G".to_string(), vec!["Nope".to_string()]);
    decl.selections.insert("S".to_string(), bad);
    assert!(decl.resolvable(&cfg));
    let mut inst = Installer::new(cfg);
    assert!(decl.apply(xml, &mut inst).is_err());
}

#[test]
fn error_messages_contain_their_fields() {
    let e = DeclarativeError::PluginNotFound { step: "Step 1".into(), group: "Group A".into(), plugin: "Plugin X".into() };
    let m = e.to_string();
    assert!(m.contains("Step 1") && m.contains("Group A") && m.contains("Plugin X"));
}

#[test]
fn apply_without_install_steps_rejects_named_steps() {
    let xml = "<config/>";
    let mut cfg = config(vec![]);
    cfg.install_steps = None;
    let mut decl = DeclarativeConfig::from_defaults(xml, "1", &cfg);
    assert!(decl.apply(xml, &mut Installer::new(cfg.clone())).is_ok());
    decl.selections.insert("Missing".to_string(), StrMap::new());
    let err = decl.apply(xml, &mut Installer::new(cfg)).unwrap_err();
    assert_eq!(err.to_string(), "step not found: \"Missing\"");
}

#[test]
fn repeated_names_fail_validation_before_the_missing_plugin() {
    let xml = "<config/>";
    let cfg = config(vec![
        step(
            "S",
            None,
            vec![group(
                "G",
                GroupType::SelectExactlyOne,
                vec![plugin("A", None, &[], vec![]), plugin("B", None, &[], vec![])],
            )],
        ),
        step("S", None, vec![group("G", GroupType::SelectAny, vec![plugin("C", None, &[], vec![])])]),
    ]);
    let mut decl = DeclarativeConfig::from_defaults(xml, "1", &cfg);
    let mut inner = StrMap::new();
    inner.insert("G".to_string(), vec!["A".to_string(), "B".to_string()]);
    decl.selections.insert("S".to_string(), inner);
    assert!(decl.resolvable(&cfg));
    let err = decl.apply(xml, &mut Installer::new(cfg)).unwrap_err();
    assert_eq!(
        err.to_string(),
        "invalid selection for group \"G\" in step \"S\": expected exactly 1 selections, got 2"
    );
}

#[test]
fn file_states_inserted_directly_match_ignoring_case() {
    let mut ctx = EvalContext::new();
    ctx.file_states.insert("Foo.esp".to_string(), FileState::Inactive);
    let dep = FileDependency { file: "FOO.esp".to_string(), state: FileState::Inactive };
    assert!(dep.evaluate(&ctx));
    let exact = FileDependency { file: "Foo.esp".to_string(), state: FileState::Inactive };
    assert!(exact.evaluate(&ctx));
    // a later set_file_state replaces every key of that path, whatever its case
    ctx.set_file_state("foo.ESP", FileState::Active);
    assert_eq!(ctx.file_states.len(), 1);
    let active = FileDependency { file: "Foo.esp".to_string(), state: FileState::Active };
    assert!(active.evaluate(&ctx));
}
