use fomod_oxide::config::{
    FileItem, FileList, FileRef, Group, GroupList, GroupType, InstallStep, InstallSteps,
    ModuleConfig, ModuleName, Plugin, PluginList, PluginType, SimpleType, SortOrder,
    TypeDescriptor,
};
use fomod_oxide::declarative::{DeclarativeConfig, DeclarativeError, SCHEMA_VERSION};
use fomod_oxide::{hash_xml, Installer, StrMap};

const SIMPLE_XML: &str = r#"
        <config>
            <moduleName>Test</moduleName>
            <installSteps order="Explicit">
                <installStep name="Step1">
                    <optionalFileGroups>
                        <group name="Group1" type="SelectExactlyOne">
                            <plugins>
                                <plugin name="PluginA">
                                    <typeDescriptor><type name="Recommended"/></typeDescriptor>
                                    <files><file source="a.esp" destination="Data"/></files>
                                </plugin>
                                <plugin name="PluginB">
                                    <typeDescriptor><type name="Optional"/></typeDescriptor>
                                    <files><file source="b.esp" destination="Data"/></files>
                                </plugin>
                            </plugins>
                        </group>
                    </optionalFileGroups>
                </installStep>
            </installSteps>
        </config>
    "#;

fn plugin(name: &str, t: PluginType, source: &str) -> Plugin {
    Plugin {
        name: name.to_string(),
        description: None,
        image: None,
        type_descriptor: Some(TypeDescriptor {
            simple_type: Some(SimpleType { name: t }),
            dependency_type: None,
        }),
        condition_flags: None,
        files: Some(FileList {
            items: vec![FileItem::File(FileRef {
                source: source.to_string(),
                destination: "Data".to_string(),
                priority: 0,
                always_install: false,
                install_if_usable: false,
            })],
        }),
    }
}

/// The configuration that `SIMPLE_XML` describes.
fn simple_config() -> ModuleConfig {
    ModuleConfig {
        module_name: ModuleName { position: None, value: "Test".to_string() },
        module_image: None,
        module_dependencies: None,
        required_install_files: None,
        install_steps: Some(InstallSteps {
            order: Some(SortOrder::Explicit),
            steps: vec![InstallStep {
                name: "Step1".to_string(),
                visible: None,
                optional_file_groups: Some(GroupList {
                    order: None,
                    groups: vec![Group {
                        name: "Group1".to_string(),
                        group_type: GroupType::SelectExactlyOne,
                        plugins: PluginList {
                            order: None,
                            plugins: vec![
                                plugin("PluginA", PluginType::Recommended, "a.esp"),
                                plugin("PluginB", PluginType::Optional, "b.esp"),
                            ],
                        },
                    }],
                }),
            }],
        }),
        conditional_file_installs: None,
    }
}

fn group_choice(step: &str, group: &str, plugins: &[&str]) -> StrMap<StrMap<Vec<String>>> {
    StrMap::from_pairs(vec![(
        step.to_string(),
        StrMap::from_pairs(vec![(
            group.to_string(),
            plugins.iter().map(|p| p.to_string()).collect(),
        )]),
    )])
}

// ---- hash_xml ----

#[test]
fn hash_xml_starts_with_sha256() {
    let h = hash_xml("hello");
    assert!(h.starts_with("sha256-"));
}

#[test]
fn hash_xml_deterministic() {
    assert_eq!(hash_xml("test"), hash_xml("test"));
}

#[test]
fn hash_xml_different_inputs() {
    assert_ne!(hash_xml("a"), hash_xml("b"));
}

#[test]
fn hash_xml_empty_string() {
    let h = hash_xml("");
    assert!(h.starts_with("sha256-"));
    assert!(h.len() > 7); // sha256- + base64
}

#[test]
fn hash_xml_whitespace_matters() {
    assert_ne!(hash_xml("<config/>"), hash_xml("<config />"));
}

// ---- from_defaults ----

#[test]
fn from_defaults_has_schema_version() {
    let config = simple_config();
    let decl = DeclarativeConfig::from_defaults(SIMPLE_XML, "1.0", &config);
    assert_eq!(decl.schema_version, SCHEMA_VERSION);
}

#[test]
fn from_defaults_has_correct_hash() {
    let config = simple_config();
    let decl = DeclarativeConfig::from_defaults(SIMPLE_XML, "1.0", &config);
    assert_eq!(decl.hash, hash_xml(SIMPLE_XML));
}

#[test]
fn from_defaults_selects_recommended() {
    let config = simple_config();
    let decl = DeclarativeConfig::from_defaults(SIMPLE_XML, "1.0", &config);
    let plugins = decl.selections.get("Step1").unwrap().get("Group1").unwrap();
    assert_eq!(plugins, &vec!["PluginA".to_string()]);
}

#[test]
fn from_defaults_rev_stored() {
    let config = simple_config();
    let decl = DeclarativeConfig::from_defaults(SIMPLE_XML, "myrev", &config);
    assert_eq!(decl.rev, "myrev");
}

// ---- from_all ----

#[test]
fn from_all_includes_every_plugin() {
    let config = simple_config();
    let decl = DeclarativeConfig::from_all(SIMPLE_XML, "1.0", &config);
    let plugins = decl.selections.get("Step1").unwrap().get("Group1").unwrap();
    assert_eq!(plugins, &vec!["PluginA".to_string(), "PluginB".to_string()]);
}

// ---- apply ----

#[test]
fn apply_rejects_future_version() {
    let config = simple_config();
    let mut installer = Installer::new(config);
    let decl = DeclarativeConfig {
        schema_version: SCHEMA_VERSION + 1,
        rev: "".into(),
        hash: hash_xml(SIMPLE_XML),
        selections: StrMap::new(),
    };
    let err = decl.apply(SIMPLE_XML, &mut installer).unwrap_err();
    assert!(matches!(err, DeclarativeError::UnsupportedVersion { .. }));
}

#[test]
fn apply_allows_current_version() {
    let config = simple_config();
    let mut installer = Installer::new(config);
    let decl = DeclarativeConfig {
        schema_version: SCHEMA_VERSION,
        rev: "".into(),
        hash: hash_xml(SIMPLE_XML),
        selections: group_choice("Step1", "Group1", &["PluginA"]),
    };
    assert!(decl.apply(SIMPLE_XML, &mut installer).is_ok());
}

#[test]
fn apply_rejects_hash_mismatch() {
    let config = simple_config();
    let mut installer = Installer::new(config);
    let decl = DeclarativeConfig {
        schema_version: SCHEMA_VERSION,
        rev: "".into(),
        hash: "sha256-WRONG".into(),
        selections: StrMap::new(),
    };
    let err = decl.apply(SIMPLE_XML, &mut installer).unwrap_err();
    assert!(matches!(err, DeclarativeError::HashMismatch { .. }));
}

#[test]
fn apply_step_not_found() {
    let config = simple_config();
    let mut installer = Installer::new(config);
    let decl = DeclarativeConfig {
        schema_version: SCHEMA_VERSION,
        rev: "".into(),
        hash: hash_xml(SIMPLE_XML),
        selections: StrMap::from_pairs(vec![("NoSuchStep".to_string(), StrMap::new())]),
    };
    let err = decl.apply(SIMPLE_XML, &mut installer).unwrap_err();
    assert!(matches!(err, DeclarativeError::StepNotFound(_)));
}

#[test]
fn apply_group_not_found() {
    let config = simple_config();
    let mut installer = Installer::new(config);
    let decl = DeclarativeConfig {
        schema_version: SCHEMA_VERSION,
        rev: "".into(),
        hash: hash_xml(SIMPLE_XML),
        selections: group_choice("Step1", "NoSuchGroup", &[]),
    };
    let err = decl.apply(SIMPLE_XML, &mut installer).unwrap_err();
    assert!(matches!(err, DeclarativeError::GroupNotFound { .. }));
}

#[test]
fn apply_plugin_not_found() {
    let config = simple_config();
    let mut installer = Installer::new(config);
    let decl = DeclarativeConfig {
        schema_version: SCHEMA_VERSION,
        rev: "".into(),
        hash: hash_xml(SIMPLE_XML),
        selections: group_choice("Step1", "Group1", &["NoSuchPlugin"]),
    };
    let err = decl.apply(SIMPLE_XML, &mut installer).unwrap_err();
    assert!(matches!(err, DeclarativeError::PluginNotFound { .. }));
}

#[test]
fn apply_validation_fails_too_many() {
    let config = simple_config();
    let mut installer = Installer::new(config);
    let decl = DeclarativeConfig {
        schema_version: SCHEMA_VERSION,
        rev: "".into(),
        hash: hash_xml(SIMPLE_XML),
        selections: group_choice("Step1", "Group1", &["PluginA", "PluginB"]),
    };
    let err = decl.apply(SIMPLE_XML, &mut installer).unwrap_err();
    assert!(matches!(err, DeclarativeError::ValidationFailed { .. }));
}

#[test]
fn apply_empty_selections_uses_defaults() {
    let config = simple_config();
    let mut installer = Installer::new(config);
    let decl = DeclarativeConfig {
        schema_version: SCHEMA_VERSION,
        rev: "".into(),
        hash: hash_xml(SIMPLE_XML),
        selections: StrMap::new(), // empty → defaults
    };
    decl.apply(SIMPLE_XML, &mut installer).unwrap();
    let plan = installer.resolve();
    // Default is PluginA (Recommended)
    assert!(plan.operations.iter().any(|op| op.source == "a.esp"));
}

#[test]
fn apply_no_install_steps() {
    let xml = r#"<config><moduleName>T</moduleName></config>"#;
    let config = ModuleConfig {
        module_name: ModuleName { position: None, value: "T".to_string() },
        module_image: None,
        module_dependencies: None,
        required_install_files: None,
        install_steps: None,
        conditional_file_installs: None,
    };
    let mut installer = Installer::new(config);
    let decl = DeclarativeConfig {
        schema_version: SCHEMA_VERSION,
        rev: "".into(),
        hash: hash_xml(xml),
        selections: StrMap::new(),
    };
    assert!(decl.apply(xml, &mut installer).is_ok());
}

// ---- DeclarativeError messages ----

#[test]
fn error_display_unsupported_version() {
    let err = DeclarativeError::UnsupportedVersion { config: 99, supported: 1 };
    let s = err.to_string();
    assert!(s.contains("99"));
    assert!(s.contains("1"));
}

#[test]
fn error_display_hash_mismatch() {
    let err = DeclarativeError::HashMismatch {
        expected: "sha256-AAA".into(),
        actual: "sha256-BBB".into(),
    };
    let s = err.to_string();
    assert!(s.contains("sha256-AAA"));
    assert!(s.contains("sha256-BBB"));
}

#[test]
fn error_display_step_not_found() {
    let err = DeclarativeError::StepNotFound("MyStep".into());
    assert!(err.to_string().contains("MyStep"));
}

#[test]
fn error_display_group_not_found() {
    let err = DeclarativeError::GroupNotFound { step: "S".into(), group: "G".into() };
    let s = err.to_string();
    assert!(s.contains("S"));
    assert!(s.contains("G"));
}

#[test]
fn error_display_plugin_not_found() {
    let err = DeclarativeError::PluginNotFound {
        step: "S".into(),
        group: "G".into(),
        plugin: "P".into(),
    };
    let s = err.to_string();
    assert!(s.contains("P"));
}

#[test]
fn error_display_validation_failed() {
    let err = DeclarativeError::ValidationFailed {
        step: "S".into(),
        group: "G".into(),
        message: "too many".into(),
    };
    assert!(err.to_string().contains("too many"));
}
