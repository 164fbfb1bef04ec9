use vstd::prelude::*;

use crate::condition::CompositeDependency;

verus! {

/// Root element of a FOMOD `ModuleConfig.xml`.
#[derive(Debug, Clone)]
pub struct ModuleConfig {
    pub module_name: ModuleName,
    pub module_image: Option<ModuleImage>,
    pub module_dependencies: Option<CompositeDependency>,
    pub required_install_files: Option<FileList>,
    pub install_steps: Option<InstallSteps>,
    pub conditional_file_installs: Option<ConditionalFileInstalls>,
}

/// Module display name with optional positioning.
#[derive(Debug, Clone)]
pub struct ModuleName {
    pub position: Option<NamePosition>,
    pub value: String,
}

#[derive(Debug, Clone, Copy, PartialEq, Eq, Structural)]
pub enum NamePosition {
    Left,
    Right,
    RightOfImage,
}

/// Header/banner image for the installer.
#[derive(Debug, Clone)]
pub struct ModuleImage {
    pub path: String,
    pub show_image: bool,
    pub show_fade: bool,
    pub height: i32,
}

/// Ordered sequence of installation steps (pages).
#[derive(Debug, Clone)]
pub struct InstallSteps {
    pub order: Option<SortOrder>,
    pub steps: Vec<InstallStep>,
}

/// A single page presented to the user.
#[derive(Debug, Clone)]
pub struct InstallStep {
    pub name: String,
    pub visible: Option<CompositeDependency>,
    pub optional_file_groups: Option<GroupList>,
}

/// Container for option groups within a step.
#[derive(Debug, Clone)]
pub struct GroupList {
    pub order: Option<SortOrder>,
    pub groups: Vec<Group>,
}

/// A group of related installation options.
#[derive(Debug, Clone)]
pub struct Group {
    pub name: String,
    pub group_type: GroupType,
    pub plugins: PluginList,
}

/// Container for plugins within a group.
#[derive(Debug, Clone)]
pub struct PluginList {
    pub order: Option<SortOrder>,
    pub plugins: Vec<Plugin>,
}

/// An individual installation option the user can select.
#[derive(Debug, Clone)]
pub struct Plugin {
    pub name: String,
    pub description: Option<String>,
    pub image: Option<PluginImage>,
    pub type_descriptor: Option<TypeDescriptor>,
    pub condition_flags: Option<ConditionFlagList>,
    pub files: Option<FileList>,
}

#[derive(Debug, Clone)]
pub struct PluginImage {
    pub path: String,
}

/// Describes the selection type of a plugin: either a simple type or a
/// conditional type with a default.
#[derive(Debug, Clone)]
pub struct TypeDescriptor {
    pub simple_type: Option<SimpleType>,
    pub dependency_type: Option<DependencyType>,
}

#[derive(Debug, Clone)]
pub struct SimpleType {
    pub name: PluginType,
}

/// Conditional type descriptor: the type depends on runtime conditions.
#[derive(Debug, Clone)]
pub struct DependencyType {
    pub default_type: SimpleType,
    pub patterns: Option<TypePatterns>,
}

#[derive(Debug, Clone)]
pub struct TypePatterns {
    pub patterns: Vec<TypePattern>,
}

#[derive(Debug, Clone)]
pub struct TypePattern {
    pub dependencies: CompositeDependency,
    pub plugin_type: SimpleType,
}

/// Flags set when a plugin is selected.
#[derive(Debug, Clone)]
pub struct ConditionFlagList {
    pub flags: Vec<ConditionFlag>,
}

#[derive(Debug, Clone)]
pub struct ConditionFlag {
    pub name: String,
    pub value: String,
}

/// Pattern-based conditional file installations evaluated after all steps.
#[derive(Debug, Clone)]
pub struct ConditionalFileInstalls {
    pub patterns: ConditionalPatterns,
}

#[derive(Debug, Clone)]
pub struct ConditionalPatterns {
    pub patterns: Vec<ConditionalPattern>,
}

#[derive(Debug, Clone)]
pub struct ConditionalPattern {
    pub dependencies: CompositeDependency,
    pub files: FileList,
}

#[derive(Debug, Clone)]
pub struct FileList {
    pub items: Vec<FileItem>,
}

#[derive(Debug, Clone)]
pub enum FileItem {
    File(FileRef),
    Folder(FileRef),
}

#[derive(Debug, Clone)]
pub struct FileRef {
    pub source: String,
    pub destination: String,
    pub priority: i32,
    pub always_install: bool,
    pub install_if_usable: bool,
}

#[derive(Debug, Clone, Copy, PartialEq, Eq, Structural)]
pub enum GroupType {
    SelectExactlyOne,
    SelectAtMostOne,
    SelectAtLeastOne,
    SelectAll,
    SelectAny,
}

#[derive(Debug, Clone, Copy, PartialEq, Eq, Structural)]
pub enum PluginType {
    Required,
    Recommended,
    Optional,
    CouldBeUsable,
    NotUsable,
}

#[derive(Debug, Clone, Copy, PartialEq, Eq, Structural)]
pub enum SortOrder {
    Explicit,
    Ascending,
    Descending,
}

impl TypeDescriptor {
    /// The simple type if there is one, else the conditional type's default,
    /// else `Optional`.
    pub open spec fn spec_resolved_type(self) -> PluginType {
        match self.simple_type {
            Some(st) => st.name,
            None => match self.dependency_type {
                Some(dt) => dt.default_type.name,
                None => PluginType::Optional,
            },
        }
    }

    pub fn resolved_type(&self) -> (t: PluginType)
        ensures
            t == self.spec_resolved_type(),
    {
        if let Some(st) = &self.simple_type {
            return st.name;
        }
        if let Some(dt) = &self.dependency_type {
            return dt.default_type.name;
        }
        PluginType::Optional
    }
}

impl Plugin {
    /// The plugin's resolved type, `Optional` when it has no type descriptor.
    pub open spec fn spec_plugin_type(self) -> PluginType {
        match self.type_descriptor {
            Some(td) => td.spec_resolved_type(),
            None => PluginType::Optional,
        }
    }

    /// Resolved plugin type, defaulting to `Optional`.
    pub fn plugin_type(&self) -> (t: PluginType)
        ensures
            t == self.spec_plugin_type(),
    {
        match &self.type_descriptor {
            Some(td) => td.resolved_type(),
            None => PluginType::Optional,
        }
    }
}

impl FileItem {
    /// The file or folder reference of this item.
    pub open spec fn file_ref(self) -> FileRef {
        match self {
            FileItem::File(r) => r,
            FileItem::Folder(r) => r,
        }
    }

    pub fn as_ref(&self) -> (r: &FileRef)
        ensures
            *r == self.file_ref(),
    {
        match self {
            FileItem::File(r) => r,
            FileItem::Folder(r) => r,
        }
    }

    pub fn is_folder(&self) -> (b: bool)
        ensures
            b == (self is Folder),
    {
        match self {
            FileItem::File(_) => false,
            FileItem::Folder(_) => true,
        }
    }
}

} // verus!

verus! {

/// How a plugin's type is resolved: the simple type when the descriptor has
/// one; without one, the default type of its dependency type; with neither,
/// or without a descriptor at all, `Optional`.
pub proof fn lemma_plugin_type_resolution(plugin: Plugin)
    ensures
        plugin.type_descriptor is None ==> plugin.spec_plugin_type() == PluginType::Optional,
        plugin.type_descriptor matches Some(td) ==> (td.simple_type matches Some(st)
            ==> plugin.spec_plugin_type() == st.name),
        plugin.type_descriptor matches Some(td) ==> (td.simple_type is None ==> (td.dependency_type matches Some(dt)
            ==> plugin.spec_plugin_type() == dt.default_type.name)),
        plugin.type_descriptor matches Some(td) ==> (td.simple_type is None && td.dependency_type is None
            ==> plugin.spec_plugin_type() == PluginType::Optional),
{
}

/// A type descriptor without a simple type resolves to the default type of
/// its dependency type; with a simple type, to that type.
pub proof fn lemma_resolved_type_cases(td: TypeDescriptor)
    ensures
        td.simple_type matches Some(st) ==> td.spec_resolved_type() == st.name,
        td.simple_type is None ==> (td.dependency_type matches Some(dt) ==> td.spec_resolved_type()
            == dt.default_type.name),
        td.simple_type is None && td.dependency_type is None ==> td.spec_resolved_type()
            == PluginType::Optional,
{
}

/// Whether an item is a folder is decided by its kind alone: a `<file>` is
/// no folder, a `<folder>` is one, whatever its reference holds.
pub proof fn lemma_file_item_kinds(r: FileRef)
    ensures
        FileItem::File(r).file_ref() == r,
        FileItem::Folder(r).file_ref() == r,
        !(FileItem::File(r) is Folder),
        FileItem::Folder(r) is Folder,
{
}

} // verus!
