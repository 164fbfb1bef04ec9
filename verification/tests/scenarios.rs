use fomod_oxide::condition::{
    CompositeDependency, EvalContext, FileDependency, FileState, FlagDependency, GameDependency,
    Operator,
};
use fomod_oxide::config::{
    ConditionFlag, ConditionFlagList, ConditionalFileInstalls, ConditionalPattern,
    ConditionalPatterns, FileItem, FileList, FileRef, Group, GroupList, GroupType, InstallStep,
    InstallSteps, ModuleConfig, ModuleName, Plugin, PluginList, PluginType, SimpleType,
    SortOrder, TypeDescriptor,
};
use fomod_oxide::{
    hash_xml, DeclarativeConfig, Installer, SelectionError, SelectionSummary, StrMap,
    SCHEMA_VERSION,
};

// ---- building configurations ----

fn file_to(source: &str, destination: &str) -> FileItem {
    FileItem::File(FileRef {
        source: source.to_string(),
        destination: destination.to_string(),
        priority: 0,
        always_install: false,
        install_if_usable: false,
    })
}

fn file_prio(source: &str, priority: i32) -> FileItem {
    FileItem::File(FileRef {
        source: source.to_string(),
        destination: String::new(),
        priority,
        always_install: false,
        install_if_usable: false,
    })
}

fn files(items: Vec<FileItem>) -> Option<FileList> {
    Some(FileList { items })
}

fn flags(pairs: &[(&str, &str)]) -> Option<ConditionFlagList> {
    Some(ConditionFlagList {
        flags: pairs
            .iter()
            .map(|(n, v)| ConditionFlag { name: n.to_string(), value: v.to_string() })
            .collect(),
    })
}

fn plugin(name: &str, t: PluginType, flag_list: Option<ConditionFlagList>, file_list: Option<FileList>) -> Plugin {
    Plugin {
        name: name.to_string(),
        description: None,
        image: None,
        type_descriptor: Some(TypeDescriptor {
            simple_type: Some(SimpleType { name: t }),
            dependency_type: None,
        }),
        condition_flags: flag_list,
        files: file_list,
    }
}

fn group(name: &str, t: GroupType, plugins: Vec<Plugin>) -> Group {
    Group { name: name.to_string(), group_type: t, plugins: PluginList { order: None, plugins } }
}

fn step(name: &str, visible: Option<CompositeDependency>, groups: Vec<Group>) -> InstallStep {
    InstallStep {
        name: name.to_string(),
        visible,
        optional_file_groups: Some(GroupList { order: None, groups }),
    }
}

fn bare_config() -> ModuleConfig {
    ModuleConfig {
        module_name: ModuleName { position: None, value: "T".to_string() },
        module_image: None,
        module_dependencies: None,
        required_install_files: None,
        install_steps: None,
        conditional_file_installs: None,
    }
}

fn steps_config(steps: Vec<InstallStep>) -> ModuleConfig {
    let mut c = bare_config();
    c.install_steps = Some(InstallSteps { order: None, steps });
    c
}

fn deps_config(d: CompositeDependency) -> ModuleConfig {
    let mut c = bare_config();
    c.module_dependencies = Some(d);
    c
}

fn composite(operator: Operator) -> CompositeDependency {
    CompositeDependency {
        operator,
        file_deps: vec![],
        flag_deps: vec![],
        game_deps: vec![],
        nested: vec![],
    }
}

fn flag_dep(flag: &str, value: &str) -> FlagDependency {
    FlagDependency { flag: flag.to_string(), value: value.to_string() }
}

fn file_dep(file: &str, state: FileState) -> FileDependency {
    FileDependency { file: file.to_string(), state }
}

fn game_dep(version: &str) -> GameDependency {
    GameDependency { version: version.to_string() }
}

fn flags_only(operator: Operator, deps: &[(&str, &str)]) -> CompositeDependency {
    let mut d = composite(operator);
    d.flag_deps = deps.iter().map(|(f, v)| flag_dep(f, v)).collect();
    d
}

fn with_patterns(mut c: ModuleConfig, patterns: Vec<(CompositeDependency, Vec<FileItem>)>) -> ModuleConfig {
    c.conditional_file_installs = Some(ConditionalFileInstalls {
        patterns: ConditionalPatterns {
            patterns: patterns
                .into_iter()
                .map(|(d, items)| ConditionalPattern { dependencies: d, files: FileList { items } })
                .collect(),
        },
    });
    c
}

fn game_ctx(version: &str) -> EvalContext {
    let mut ctx = EvalContext::new();
    ctx.game_version = Some(version.to_string());
    ctx
}

fn has_source(installer: &Installer, source: &str) -> bool {
    installer.resolve().operations.iter().any(|op| op.source == source)
}

fn selections(entries: Vec<(&str, Vec<(&str, Vec<&str>)>)>) -> StrMap<StrMap<Vec<String>>> {
    StrMap::from_pairs(
        entries
            .into_iter()
            .map(|(s, groups)| {
                (
                    s.to_string(),
                    StrMap::from_pairs(
                        groups
                            .into_iter()
                            .map(|(g, names)| (g.to_string(), names.iter().map(|n| n.to_string()).collect()))
                            .collect(),
                    ),
                )
            })
            .collect(),
    )
}

fn decl_with(rev: &str, sel: StrMap<StrMap<Vec<String>>>) -> DeclarativeConfig {
    DeclarativeConfig {
        schema_version: SCHEMA_VERSION,
        rev: rev.to_string(),
        hash: "sha256-xxx".to_string(),
        selections: sel,
    }
}

// ---- condition evaluation ----

#[test]
fn condition_evaluation() {
    let mut ctx = EvalContext::new();
    ctx.set_flag("my_flag", "yes");
    let config = deps_config(flags_only(Operator::And, &[("my_flag", "yes")]));
    let installer = Installer::with_context(config, ctx);
    assert!(installer.check_dependencies());
}

#[test]
fn file_dependency_all_states() {
    let config_with = |state: FileState| {
        let mut d = composite(Operator::And);
        d.file_deps = vec![file_dep("mod.esp", state)];
        deps_config(d)
    };

    let mut ctx = EvalContext::new();
    ctx.set_file_state("mod.esp", FileState::Active);
    let installer = Installer::with_context(config_with(FileState::Active), ctx);
    assert!(installer.check_dependencies());

    let mut ctx = EvalContext::new();
    ctx.set_file_state("mod.esp", FileState::Inactive);
    let installer = Installer::with_context(config_with(FileState::Inactive), ctx);
    assert!(installer.check_dependencies());

    let ctx = EvalContext::new();
    let installer = Installer::with_context(config_with(FileState::Missing), ctx);
    assert!(installer.check_dependencies());
}

#[test]
fn game_dependency_evaluation() {
    let mut d = composite(Operator::And);
    d.game_deps = vec![game_dep("1.5.0")];
    let config = deps_config(d);

    let installer = Installer::new(config.clone());
    assert!(!installer.check_dependencies());

    let installer = Installer::with_context(config.clone(), game_ctx("1.5.0"));
    assert!(installer.check_dependencies());

    let installer = Installer::with_context(config.clone(), game_ctx("2.0.0"));
    assert!(installer.check_dependencies());

    let installer = Installer::with_context(config, game_ctx("1.4.9"));
    assert!(!installer.check_dependencies());
}

#[test]
fn or_dependency_any_satisfied() {
    let config = deps_config(flags_only(Operator::Or, &[("a", "yes"), ("b", "yes"), ("c", "yes")]));
    let mut ctx = EvalContext::new();
    ctx.set_flag("b", "yes");
    let installer = Installer::with_context(config, ctx);
    assert!(installer.check_dependencies());
}

#[test]
fn flag_dependency_empty_value_matches_empty() {
    let config = deps_config(flags_only(Operator::And, &[("cleared", "")]));

    let mut ctx = EvalContext::new();
    ctx.set_flag("cleared", "");
    let installer = Installer::with_context(config.clone(), ctx);
    assert!(installer.check_dependencies());

    let ctx = EvalContext::new();
    let installer = Installer::with_context(config, ctx);
    assert!(!installer.check_dependencies());
}

#[test]
fn or_dependency_none_satisfied_is_false() {
    let config = deps_config(flags_only(Operator::Or, &[("a", "yes"), ("b", "yes")]));
    let installer = Installer::with_context(config, EvalContext::new());
    assert!(!installer.check_dependencies());
}

#[test]
fn and_dependency_empty_is_vacuously_true() {
    let installer = Installer::new(deps_config(composite(Operator::And)));
    assert!(installer.check_dependencies());
}

#[test]
fn or_dependency_empty_is_false() {
    let installer = Installer::new(deps_config(composite(Operator::Or)));
    assert!(!installer.check_dependencies());
}

#[test]
fn file_dependency_active_vs_inactive_vs_missing() {
    let mut d = composite(Operator::And);
    d.file_deps = vec![
        file_dep("active.esm", FileState::Active),
        file_dep("inactive.esm", FileState::Inactive),
        file_dep("gone.esm", FileState::Missing),
    ];
    let mut ctx = EvalContext::new();
    ctx.set_file_state("active.esm", FileState::Active);
    ctx.set_file_state("inactive.esm", FileState::Inactive);
    let installer = Installer::with_context(deps_config(d), ctx);
    assert!(installer.check_dependencies());
}

#[test]
fn file_dependency_case_insensitive() {
    let mut ctx = EvalContext::new();
    ctx.set_file_state("Data/Textures/MyMod.dds", FileState::Active);

    let mut d = composite(Operator::And);
    d.file_deps = vec![file_dep("data/textures/mymod.dds", FileState::Active)];
    let installer = Installer::with_context(deps_config(d), ctx);
    assert!(installer.check_dependencies(), "file dependency should match case-insensitively");
}

#[test]
fn file_dependency_various_casing_patterns() {
    let test_cases = [
        ("DATA/TEXTURES/MYFILE.DDS", true, "UPPER case"),
        ("data/textures/myfile.dds", true, "lower case"),
        ("dAtA/tExTuReS/mYfIlE.dDs", true, "mIxEd case"),
        ("Data/Textures/MyFile.DDS", true, "exact case"),
        ("Data/Textures/OtherFile.DDS", false, "different file"),
    ];

    for (path, expected, label) in &test_cases {
        let mut d = composite(Operator::And);
        d.file_deps = vec![file_dep("Data/Textures/MyFile.DDS", FileState::Active)];
        let mut ctx = EvalContext::new();
        ctx.set_file_state(path, FileState::Active);
        let installer = Installer::with_context(deps_config(d), ctx);
        assert_eq!(installer.check_dependencies(), *expected, "file dependency {label}: path={path}");
    }
}

#[test]
fn game_dependency_exact_boundary() {
    let mut d = composite(Operator::And);
    d.game_deps = vec![game_dep("1.5.0")];
    let config = deps_config(d);

    assert!(Installer::with_context(config.clone(), game_ctx("1.5.0")).check_dependencies());
    assert!(!Installer::with_context(config.clone(), game_ctx("1.4.999")).check_dependencies());
    assert!(Installer::with_context(config, game_ctx("1.5.1")).check_dependencies());
}

#[test]
fn check_dependencies_with_no_module_dependencies() {
    let installer = Installer::new(bare_config());
    assert!(installer.check_dependencies());
}

#[test]
fn version_comparison_four_segment() {
    let mut d = composite(Operator::And);
    d.game_deps = vec![game_dep("1.0.0.0")];
    let config = deps_config(d);

    assert!(Installer::with_context(config.clone(), game_ctx("1.0.0.0")).check_dependencies());
    assert!(Installer::with_context(config.clone(), game_ctx("1.0.0.1")).check_dependencies());
    assert!(!Installer::with_context(config, game_ctx("0.9.9.9")).check_dependencies());
}

#[test]
fn version_comparison_single_segment() {
    let mut d = composite(Operator::And);
    d.game_deps = vec![game_dep("1")];
    let config = deps_config(d);

    assert!(Installer::with_context(config.clone(), game_ctx("1")).check_dependencies());
    assert!(Installer::with_context(config, game_ctx("2")).check_dependencies());
}

#[test]
fn version_comparison_non_numeric_segments_ignored() {
    let mut d = composite(Operator::And);
    d.game_deps = vec![game_dep("2.0.0")];
    let installer = Installer::with_context(deps_config(d), game_ctx("2.0.0-beta"));
    let _ = installer.check_dependencies();
}

#[test]
fn deeply_nested_conditions_5_levels() {
    let level5 = flags_only(Operator::Or, &[("deep", "yes")]);
    let mut level4 = composite(Operator::And);
    level4.nested = vec![level5];
    let mut level3 = composite(Operator::Or);
    level3.nested = vec![level4];
    let mut level2 = composite(Operator::And);
    level2.nested = vec![level3];
    let mut level1 = composite(Operator::And);
    level1.nested = vec![level2];
    let config = deps_config(level1);

    let installer = Installer::new(config.clone());
    assert!(!installer.check_dependencies(), "missing deep flag should fail");

    let mut ctx = EvalContext::new();
    ctx.set_flag("deep", "yes");
    let installer = Installer::with_context(config, ctx);
    assert!(installer.check_dependencies(), "deep flag present should pass");
}

// ---- installer ----

#[test]
fn select_from_nonexistent_step_is_harmless() {
    let mut installer = Installer::new(bare_config());
    installer.select(99, 0, vec![0]);
    installer.select(0, 99, vec![0]);
    let plan = installer.resolve();
    assert!(plan.operations.is_empty());
}

#[test]
fn multiple_selections_across_groups() {
    let config = steps_config(vec![step(
        "S",
        None,
        vec![
            group(
                "G1",
                GroupType::SelectExactlyOne,
                vec![
                    plugin("A", PluginType::Optional, None, files(vec![file_to("g1a.esp", "Data")])),
                    plugin("B", PluginType::Optional, None, files(vec![file_to("g1b.esp", "Data")])),
                ],
            ),
            group(
                "G2",
                GroupType::SelectAny,
                vec![
                    plugin("C", PluginType::Optional, None, files(vec![file_to("g2c.esp", "Data")])),
                    plugin("D", PluginType::Optional, None, files(vec![file_to("g2d.esp", "Data")])),
                ],
            ),
        ],
    )]);
    let mut installer = Installer::new(config);
    installer.select(0, 0, vec![1]);
    installer.select(0, 1, vec![0, 1]);

    assert!(!has_source(&installer, "g1a.esp"));
    assert!(has_source(&installer, "g1b.esp"));
    assert!(has_source(&installer, "g2c.esp"));
    assert!(has_source(&installer, "g2d.esp"));
}

#[test]
fn reselection_replaces_previous() {
    let config = steps_config(vec![step(
        "S",
        None,
        vec![group(
            "G",
            GroupType::SelectExactlyOne,
            vec![
                plugin("A", PluginType::Optional, None, files(vec![file_to("a.esp", "Data")])),
                plugin("B", PluginType::Optional, None, files(vec![file_to("b.esp", "Data")])),
            ],
        )],
    )]);
    let mut installer = Installer::new(config);
    installer.select(0, 0, vec![0]);
    installer.select(0, 0, vec![1]);

    assert!(!has_source(&installer, "a.esp"));
    assert!(has_source(&installer, "b.esp"));
}

fn feature_config() -> ModuleConfig {
    let c = steps_config(vec![step(
        "S",
        None,
        vec![group(
            "G",
            GroupType::SelectExactlyOne,
            vec![
                plugin("Yes", PluginType::Optional, flags(&[("feature", "on")]), None),
                plugin("No", PluginType::Optional, flags(&[("feature", "off")]), None),
            ],
        )],
    )]);
    with_patterns(
        c,
        vec![(flags_only(Operator::And, &[("feature", "on")]), vec![file_to("bonus.esp", "Data")])],
    )
}

#[test]
fn conditional_files_depend_on_final_flags() {
    let mut installer = Installer::new(feature_config());
    installer.select(0, 0, vec![0]);
    assert!(has_source(&installer, "bonus.esp"));

    let mut installer = Installer::new(feature_config());
    installer.select(0, 0, vec![1]);
    assert!(!has_source(&installer, "bonus.esp"));
}

#[test]
fn context_mut_allows_external_flag_setting() {
    let config = steps_config(vec![step(
        "S",
        Some(flags_only(Operator::And, &[("unlocked", "true")])),
        vec![group("G", GroupType::SelectAny, vec![plugin("P", PluginType::Optional, None, None)])],
    )]);
    let mut installer = Installer::new(config);
    assert!(installer.visible_steps().is_empty());

    installer.context_mut().set_flag("unlocked", "true");
    assert_eq!(installer.visible_steps().len(), 1);
}

#[test]
fn resolve_includes_files_from_hidden_steps() {
    let config = steps_config(vec![
        step(
            "Always",
            None,
            vec![group(
                "G",
                GroupType::SelectAny,
                vec![plugin(
                    "P1",
                    PluginType::Optional,
                    flags(&[("show", "no")]),
                    files(vec![file_to("always.esp", "")]),
                )],
            )],
        ),
        step(
            "Hidden",
            Some(flags_only(Operator::And, &[("show", "yes")])),
            vec![group(
                "G",
                GroupType::SelectAny,
                vec![plugin("P2", PluginType::Optional, None, files(vec![file_to("hidden.esp", "")]))],
            )],
        ),
    ]);
    let mut installer = Installer::new(config);
    installer.select(0, 0, vec![0]);
    installer.select(1, 0, vec![0]);

    assert_eq!(installer.visible_steps().len(), 1);
    assert!(has_source(&installer, "always.esp"));
    assert!(has_source(&installer, "hidden.esp"));
}

#[test]
fn plugin_with_flags_but_no_files() {
    let config = steps_config(vec![step(
        "S",
        None,
        vec![group(
            "G",
            GroupType::SelectExactlyOne,
            vec![
                plugin("FlagOnly", PluginType::Optional, flags(&[("choice", "flag_only")]), None),
                plugin(
                    "WithFiles",
                    PluginType::Optional,
                    flags(&[("choice", "with_files")]),
                    files(vec![file_to("mod.esp", "")]),
                ),
            ],
        )],
    )]);
    let mut installer = Installer::new(config);
    installer.select(0, 0, vec![0]);
    assert_eq!(installer.context().flags.get("choice"), Some(&"flag_only".to_string()));

    let plan = installer.resolve();
    assert!(plan.operations.is_empty());
}

#[test]
fn multiple_conditional_patterns_all_matching() {
    let c = steps_config(vec![step(
        "S",
        None,
        vec![group(
            "G",
            GroupType::SelectAny,
            vec![plugin("P", PluginType::Optional, flags(&[("a", "yes"), ("b", "yes")]), None)],
        )],
    )]);
    let config = with_patterns(
        c,
        vec![
            (flags_only(Operator::And, &[("a", "yes")]), vec![file_to("from_a.esp", "")]),
            (flags_only(Operator::And, &[("b", "yes")]), vec![file_to("from_b.esp", "")]),
            (flags_only(Operator::And, &[("a", "yes"), ("b", "yes")]), vec![file_to("from_both.esp", "")]),
        ],
    );
    let mut installer = Installer::new(config);
    installer.select(0, 0, vec![0]);

    assert!(has_source(&installer, "from_a.esp"));
    assert!(has_source(&installer, "from_b.esp"));
    assert!(has_source(&installer, "from_both.esp"));
}

#[test]
fn priority_sort_negative_zero_positive() {
    let mut config = bare_config();
    config.required_install_files = files(vec![
        file_prio("zero.esp", 0),
        file_prio("neg.esp", -5),
        file_prio("pos.esp", 5),
        file_prio("neg2.esp", -10),
        file_prio("pos2.esp", 10),
    ]);
    let plan = Installer::new(config).resolve();
    let priorities: Vec<i32> = plan.operations.iter().map(|op| op.priority).collect();
    assert_eq!(priorities, vec![-10, -5, 0, 5, 10]);
}

#[test]
fn selecting_empty_list_clears_previous() {
    let config = steps_config(vec![step(
        "S",
        None,
        vec![group(
            "G",
            GroupType::SelectAny,
            vec![plugin("A", PluginType::Optional, flags(&[("sel", "a")]), files(vec![file_to("a.esp", "")]))],
        )],
    )]);
    let mut installer = Installer::new(config);
    installer.select(0, 0, vec![0]);
    assert!(has_source(&installer, "a.esp"));

    installer.select(0, 0, vec![]);
    assert!(!has_source(&installer, "a.esp"));
    assert!(!installer.context().flags.contains_key("sel"));
}

#[test]
fn parse_multiple_steps_with_same_group_names() {
    let config = steps_config(vec![
        step(
            "Step A",
            None,
            vec![group(
                "Options",
                GroupType::SelectAny,
                vec![plugin("P1", PluginType::Optional, None, files(vec![file_to("a.esp", "")]))],
            )],
        ),
        step(
            "Step B",
            None,
            vec![group(
                "Options",
                GroupType::SelectAny,
                vec![plugin("P2", PluginType::Optional, None, files(vec![file_to("b.esp", "")]))],
            )],
        ),
    ]);
    let mut installer = Installer::new(config);
    installer.select(0, 0, vec![0]);
    installer.select(1, 0, vec![0]);

    assert!(has_source(&installer, "a.esp"));
    assert!(has_source(&installer, "b.esp"));
}

#[test]
fn flags_from_different_groups_coexist() {
    let config = steps_config(vec![step(
        "S",
        None,
        vec![
            group(
                "G1",
                GroupType::SelectExactlyOne,
                vec![
                    plugin("A1", PluginType::Optional, flags(&[("g1_flag", "a1")]), None),
                    plugin("B1", PluginType::Optional, flags(&[("g1_flag", "b1")]), None),
                ],
            ),
            group(
                "G2",
                GroupType::SelectExactlyOne,
                vec![
                    plugin("A2", PluginType::Optional, flags(&[("g2_flag", "a2")]), None),
                    plugin("B2", PluginType::Optional, flags(&[("g2_flag", "b2")]), None),
                ],
            ),
        ],
    )]);
    let mut installer = Installer::new(config);
    installer.select(0, 0, vec![0]);
    installer.select(0, 1, vec![1]);
    assert_eq!(installer.context().flags.get("g1_flag"), Some(&"a1".to_string()));
    assert_eq!(installer.context().flags.get("g2_flag"), Some(&"b2".to_string()));

    installer.select(0, 0, vec![1]);
    assert_eq!(installer.context().flags.get("g1_flag"), Some(&"b1".to_string()));
    assert_eq!(installer.context().flags.get("g2_flag"), Some(&"b2".to_string()));
}

#[test]
fn duplicate_plugin_indices_in_selection() {
    let config = steps_config(vec![step(
        "S",
        None,
        vec![group(
            "G",
            GroupType::SelectAny,
            vec![
                plugin("A", PluginType::Optional, None, files(vec![file_to("a.esp", "Data")])),
                plugin("B", PluginType::Optional, None, files(vec![file_to("b.esp", "Data")])),
            ],
        )],
    )]);
    let mut installer = Installer::new(config);
    installer.select(0, 0, vec![0, 0, 1]);

    let plan = installer.resolve();
    assert!(plan.operations.iter().any(|op| op.source == "a.esp"));
    assert!(plan.operations.iter().any(|op| op.source == "b.esp"));
    let a_count = plan.operations.iter().filter(|op| op.source == "a.esp").count();
    assert_eq!(a_count, 2, "duplicate index should produce duplicate file ops");
}

#[test]
fn all_not_usable_select_exactly_one_defaults_empty() {
    let g = group(
        "G",
        GroupType::SelectExactlyOne,
        vec![
            plugin("A", PluginType::NotUsable, None, None),
            plugin("B", PluginType::NotUsable, None, None),
        ],
    );
    assert!(Installer::default_selections(&g).is_empty());
}

#[test]
fn multiple_flags_from_same_plugin() {
    let config = steps_config(vec![step(
        "S",
        None,
        vec![group(
            "G",
            GroupType::SelectExactlyOne,
            vec![
                plugin(
                    "Multi",
                    PluginType::Optional,
                    flags(&[("flag_a", "val_a"), ("flag_b", "val_b"), ("flag_c", "val_c")]),
                    None,
                ),
                plugin("Other", PluginType::Optional, None, None),
            ],
        )],
    )]);
    let mut installer = Installer::new(config);
    installer.select(0, 0, vec![0]);

    let ctx = installer.context();
    assert_eq!(ctx.flags.get("flag_a"), Some(&"val_a".to_string()));
    assert_eq!(ctx.flags.get("flag_b"), Some(&"val_b".to_string()));
    assert_eq!(ctx.flags.get("flag_c"), Some(&"val_c".to_string()));
}

#[test]
fn conditional_file_installs_no_matching_patterns() {
    let c = steps_config(vec![step(
        "S",
        None,
        vec![group(
            "G",
            GroupType::SelectExactlyOne,
            vec![plugin("A", PluginType::Optional, flags(&[("choice", "alpha")]), files(vec![file_to("a.esp", "Data")]))],
        )],
    )]);
    let config = with_patterns(
        c,
        vec![
            (flags_only(Operator::And, &[("choice", "beta")]), vec![file_to("beta_patch.esp", "Data")]),
            (flags_only(Operator::And, &[("choice", "gamma")]), vec![file_to("gamma_patch.esp", "Data")]),
        ],
    );
    let mut installer = Installer::new(config);
    installer.select(0, 0, vec![0]);

    assert!(has_source(&installer, "a.esp"));
    assert!(!has_source(&installer, "beta_patch.esp"), "beta pattern should not match when choice=alpha");
    assert!(!has_source(&installer, "gamma_patch.esp"), "gamma pattern should not match when choice=alpha");
}

#[test]
fn e2e_with_preset_game_context() {
    let mut d = composite(Operator::And);
    d.game_deps = vec![game_dep("1.5.0")];
    d.file_deps = vec![file_dep("SKSE64_loader.exe", FileState::Active)];
    let mut config = steps_config(vec![step(
        "S",
        None,
        vec![group(
            "G",
            GroupType::SelectAny,
            vec![plugin("P", PluginType::Optional, None, files(vec![file_to("mod.esp", "Data")]))],
        )],
    )]);
    config.module_dependencies = Some(d);

    let installer = Installer::new(config.clone());
    assert!(!installer.check_dependencies());

    let mut ctx = game_ctx("1.6.0");
    ctx.set_file_state("SKSE64_loader.exe", FileState::Active);
    let mut installer = Installer::with_context(config, ctx);
    assert!(installer.check_dependencies());

    installer.select(0, 0, vec![0]);
    assert!(has_source(&installer, "mod.esp"));
}

// ---- declared order (applied to a configuration as it is read) ----

fn one_plugin_group(name: &str) -> Group {
    group(name, GroupType::SelectAny, vec![plugin("P", PluginType::Optional, None, None)])
}

#[test]
fn sort_order_ascending() {
    let g = Group {
        name: "Options".to_string(),
        group_type: GroupType::SelectAny,
        plugins: PluginList {
            order: Some(SortOrder::Ascending),
            plugins: vec![
                plugin("Zebra", PluginType::Optional, None, None),
                plugin("Apple", PluginType::Optional, None, None),
                plugin("Mango", PluginType::Optional, None, None),
            ],
        },
    };
    let mut config = bare_config();
    config.install_steps = Some(InstallSteps {
        order: Some(SortOrder::Explicit),
        steps: vec![InstallStep {
            name: "Step 1".to_string(),
            visible: None,
            optional_file_groups: Some(GroupList { order: Some(SortOrder::Explicit), groups: vec![g] }),
        }],
    });
    let installer = Installer::new(config.sorted());

    let plugins = &installer.config().install_steps.as_ref().unwrap().steps[0]
        .optional_file_groups
        .as_ref()
        .unwrap()
        .groups[0]
        .plugins
        .plugins;
    let names: Vec<&str> = plugins.iter().map(|p| p.name.as_str()).collect();
    assert_eq!(names, vec!["Apple", "Mango", "Zebra"]);
}

#[test]
fn sort_order_descending_steps() {
    let mut config = bare_config();
    config.install_steps = Some(InstallSteps {
        order: Some(SortOrder::Descending),
        steps: vec![
            step("Alpha", None, vec![one_plugin_group("G")]),
            step("Charlie", None, vec![one_plugin_group("G")]),
            step("Bravo", None, vec![one_plugin_group("G")]),
        ],
    });
    let installer = Installer::new(config.sorted());

    let steps = &installer.config().install_steps.as_ref().unwrap().steps;
    let names: Vec<&str> = steps.iter().map(|s| s.name.as_str()).collect();
    assert_eq!(names, vec!["Charlie", "Bravo", "Alpha"]);
}

#[test]
fn sort_order_ascending_on_groups() {
    let mut config = bare_config();
    config.install_steps = Some(InstallSteps {
        order: None,
        steps: vec![InstallStep {
            name: "S".to_string(),
            visible: None,
            optional_file_groups: Some(GroupList {
                order: Some(SortOrder::Ascending),
                groups: vec![one_plugin_group("Zebra"), one_plugin_group("Apple"), one_plugin_group("Mango")],
            }),
        }],
    });
    let installer = Installer::new(config.sorted());
    let groups = &installer.config().install_steps.as_ref().unwrap().steps[0]
        .optional_file_groups
        .as_ref()
        .unwrap()
        .groups;
    let names: Vec<&str> = groups.iter().map(|g| g.name.as_str()).collect();
    assert_eq!(names, vec!["Apple", "Mango", "Zebra"]);
}

#[test]
fn declared_order_keeps_equal_names_and_explicit_lists() {
    let mut config = bare_config();
    let mut first = plugin("Same", PluginType::Optional, None, files(vec![file_to("first.esp", "")]));
    first.description = Some("first".to_string());
    let mut second = plugin("Same", PluginType::Optional, None, files(vec![file_to("second.esp", "")]));
    second.description = Some("second".to_string());
    config.install_steps = Some(InstallSteps {
        order: None,
        steps: vec![
            InstallStep {
                name: "B".to_string(),
                visible: None,
                optional_file_groups: Some(GroupList {
                    order: None,
                    groups: vec![Group {
                        name: "G".to_string(),
                        group_type: GroupType::SelectAny,
                        plugins: PluginList {
                            order: Some(SortOrder::Descending),
                            plugins: vec![
                                first,
                                plugin("Zulu", PluginType::Optional, None, None),
                                second,
                            ],
                        },
                    }],
                }),
            },
            step("A", None, vec![one_plugin_group("G")]),
        ],
    });
    let sorted = config.sorted();
    let steps = &sorted.install_steps.as_ref().unwrap().steps;
    // no order attribute on the steps: written order kept
    assert_eq!(steps[0].name, "B");
    assert_eq!(steps[1].name, "A");
    let plugins = &steps[0].optional_file_groups.as_ref().unwrap().groups[0].plugins.plugins;
    let names: Vec<&str> = plugins.iter().map(|p| p.name.as_str()).collect();
    assert_eq!(names, vec!["Zulu", "Same", "Same"]);
    assert_eq!(plugins[1].description.as_deref(), Some("first"));
    assert_eq!(plugins[2].description.as_deref(), Some("second"));
}

// ---- selections and their validation ----

#[test]
fn validate_selection_empty_group() {
    let g = group("Empty", GroupType::SelectAny, vec![]);
    assert!(Installer::validate_selection(&g, &[]).is_ok());
    assert!(Installer::validate_selection(&g, &[0]).is_err());
}

#[test]
fn validate_select_all_empty_group() {
    let g = group("Empty", GroupType::SelectAll, vec![]);
    assert!(Installer::validate_selection(&g, &[]).is_ok());
}

#[test]
fn default_selections_could_be_usable_not_selected() {
    let g = group(
        "G",
        GroupType::SelectAny,
        vec![
            plugin("P1", PluginType::CouldBeUsable, None, None),
            plugin("P2", PluginType::NotUsable, None, None),
        ],
    );
    assert!(Installer::default_selections(&g).is_empty());
}

#[test]
fn default_selections_at_least_one_picks_all_required_recommended() {
    let g = group(
        "G",
        GroupType::SelectAtLeastOne,
        vec![
            plugin("Opt", PluginType::Optional, None, None),
            plugin("Req", PluginType::Required, None, None),
            plugin("Rec", PluginType::Recommended, None, None),
        ],
    );
    assert_eq!(Installer::default_selections(&g), vec![1, 2]);
}

#[test]
fn selection_error_display_messages() {
    let e1 = SelectionError::OutOfBounds;
    assert_eq!(e1.to_string(), "plugin index out of bounds");

    let e2 = SelectionError::InvalidCount { expected: "exactly 1", got: 0 };
    assert!(e2.to_string().contains("exactly 1"));
    assert!(e2.to_string().contains("0"));
}

// ---- declarative configs ----

#[test]
fn declarative_schema_version_zero_allowed() {
    let xml = r#"<config><moduleName>T</moduleName></config>"#;
    let mut installer = Installer::new(bare_config());
    let decl = DeclarativeConfig {
        schema_version: 0,
        rev: "old".into(),
        hash: hash_xml(xml),
        selections: StrMap::new(),
    };
    assert!(decl.apply(xml, &mut installer).is_ok());
}

#[test]
fn declarative_from_defaults_no_steps() {
    let xml = r#"<config><moduleName>T</moduleName></config>"#;
    let decl = DeclarativeConfig::from_defaults(xml, "1.0", &bare_config());
    assert!(decl.selections.is_empty());
}

#[test]
fn declarative_from_all_no_steps() {
    let xml = r#"<config><moduleName>T</moduleName></config>"#;
    let decl = DeclarativeConfig::from_all(xml, "1.0", &bare_config());
    assert!(decl.selections.is_empty());
}

#[test]
fn selection_summary_display() {
    let summary = SelectionSummary {
        step: "Choose Version".to_string(),
        group: "Platform".to_string(),
        plugins: vec!["SSE".to_string(), "AE".to_string()],
    };
    assert_eq!(summary.to_string(), "Choose Version > Platform: [SSE, AE]");
}

#[test]
fn selection_summary_display_empty_plugins() {
    let summary = SelectionSummary { step: "Step".to_string(), group: "Group".to_string(), plugins: vec![] };
    assert_eq!(summary.to_string(), "Step > Group: []");
}

#[test]
fn declarative_config_summary() {
    let xml = r#"
    <config><moduleName>T</moduleName>
    <installSteps order="Explicit">
      <installStep name="Step1">
        <optionalFileGroups><group name="G1" type="SelectExactlyOne">
          <plugins>
            <plugin name="Alpha"><typeDescriptor><type name="Optional"/></typeDescriptor></plugin>
            <plugin name="Beta"><typeDescriptor><type name="Optional"/></typeDescriptor></plugin>
          </plugins>
        </group></optionalFileGroups>
      </installStep>
    </installSteps></config>"#;
    let decl = DeclarativeConfig {
        schema_version: SCHEMA_VERSION,
        hash: hash_xml(xml),
        rev: "test".to_string(),
        selections: selections(vec![("Step1", vec![("G1", vec!["Alpha"])])]),
    };
    let summaries = decl.summary();
    assert_eq!(summaries.len(), 1);
    assert_eq!(summaries[0].step, "Step1");
    assert_eq!(summaries[0].group, "G1");
    assert_eq!(summaries[0].plugins, vec!["Alpha".to_string()]);
}

#[test]
fn declarative_config_summary_sorted() {
    let decl = decl_with(
        "test",
        selections(vec![("Zebra", vec![("G", vec!["P"])]), ("Alpha", vec![("G", vec!["Q"])])]),
    );
    let summaries = decl.summary();
    assert_eq!(summaries.len(), 2);
    assert_eq!(summaries[0].step, "Alpha");
    assert_eq!(summaries[1].step, "Zebra");
}

#[test]
fn diff_identical_configs() {
    let decl = decl_with("1.0", selections(vec![("Step1", vec![("G1", vec!["A"])])]));
    assert!(decl.diff(&decl).is_empty());
}

#[test]
fn diff_different_plugins() {
    let a = decl_with("1.0", selections(vec![("Step1", vec![("G1", vec!["Alpha"])])]));
    let b = decl_with("2.0", selections(vec![("Step1", vec![("G1", vec!["Beta"])])]));
    let diffs = a.diff(&b);
    assert_eq!(diffs.len(), 1);
    assert_eq!(diffs[0].step, "Step1");
    assert_eq!(diffs[0].group, "G1");
    assert_eq!(diffs[0].left, vec!["Alpha".to_string()]);
    assert_eq!(diffs[0].right, vec!["Beta".to_string()]);
}

#[test]
fn diff_extra_group_in_other() {
    let a = decl_with("1.0", selections(vec![("Step1", vec![("G1", vec!["A"])])]));
    let b = decl_with(
        "1.0",
        selections(vec![("Step1", vec![("G1", vec!["A"])]), ("Step2", vec![("G2", vec!["B"])])]),
    );
    let diffs = a.diff(&b);
    assert_eq!(diffs.len(), 1);
    assert_eq!(diffs[0].step, "Step2");
    assert_eq!(diffs[0].group, "G2");
    assert!(diffs[0].left.is_empty());
    assert_eq!(diffs[0].right, vec!["B".to_string()]);
}

#[test]
fn diff_symmetric() {
    let a = decl_with("1.0", selections(vec![("S", vec![("G", vec!["X"])])]));
    let b = decl_with("1.0", selections(vec![("S", vec![("G", vec!["Y"])])]));
    let ab = a.diff(&b);
    let ba = b.diff(&a);
    assert_eq!(ab.len(), 1);
    assert_eq!(ba.len(), 1);
    assert_eq!(ab[0].left, ba[0].right);
    assert_eq!(ab[0].right, ba[0].left);
}

// ---- hashing ----

#[test]
fn hash_deterministic() {
    assert_eq!(hash_xml("test content"), hash_xml("test content"));
}

#[test]
fn hash_different_content() {
    assert_ne!(hash_xml("a"), hash_xml("b"));
}

#[test]
fn hash_whitespace_sensitive() {
    assert_ne!(hash_xml("<config/>"), hash_xml("<config />"));
    assert_ne!(hash_xml("a"), hash_xml("a "));
}

#[test]
fn hash_empty_string() {
    let h = hash_xml("");
    assert!(h.starts_with("sha256-"));
    assert!(h.len() > 10);
}

#[test]
fn hash_xml_unicode_content() {
    assert_eq!(hash_xml("日本語"), hash_xml("日本語"));
    assert_ne!(hash_xml("日本語"), hash_xml("中文"));
}

#[test]
fn hash_xml_very_long_content() {
    let big = "x".repeat(1_000_000);
    let h = hash_xml(&big);
    assert!(h.starts_with("sha256-"));
    assert_eq!(h, hash_xml(&big));
}
