use vstd::prelude::*;

use crate::config::{Group, InstallStep, ModuleConfig, Plugin};
use crate::digest::{hash_xml, sri_hash};
use crate::installer::{
    entry_map, lemma_default_selection_increasing, lemma_record_entry_map,
    count_violation, flags_after_select, selection_fits, record_entry, selection_error_text, some_out_of_bounds,
    spec_default_selections, Installer, SelectionEntry,
};
use crate::str_map::{lemma_keys_dom, StrMap};
use crate::text::{
    copy_texts, decimal, joined, lemma_text_lt_irreflexive, lemma_text_lt_total, lemma_text_lt_transitive,
    push_decimal, push_joined, text_less, text_lt, texts_equal,
};

verus! {

/// Current schema version for `DeclarativeConfig`.
///
/// Bump this when the config format changes in incompatible ways.
pub const SCHEMA_VERSION: u32 = 1;

/// Declarative FOMOD installation configuration.
///
/// Instead of stepping through an interactive wizard, all selections are
/// specified upfront by name: step name, then group name, then the names of
/// the selected plugins. `rev` is a human-readable version identifier and
/// `hash` is the SRI hash of the installer XML, used to detect that the
/// installer changed.
#[derive(Debug, Clone)]
pub struct DeclarativeConfig {
    /// Schema version of this config format. See [`SCHEMA_VERSION`].
    pub schema_version: u32,
    /// Human-readable revision of the FOMOD installer (e.g. mod version).
    pub rev: String,
    /// SRI hash of the source FOMOD XML (`sha256-<base64>`).
    pub hash: String,
    /// Step name, then group name, then the list of selected plugin names.
    pub selections: StrMap<StrMap<Vec<String>>>,
}

/// Error from applying a declarative config.
#[derive(Debug, Clone)]
pub enum DeclarativeError {
    /// Config schema version is newer than this library supports.
    UnsupportedVersion { config: u32, supported: u32 },
    /// The installer XML hash doesn't match. The installer has been updated.
    HashMismatch { expected: String, actual: String },
    /// Referenced step name not found in the FOMOD config.
    StepNotFound(String),
    /// Referenced group name not found within the given step.
    GroupNotFound { step: String, group: String },
    /// Referenced plugin name not found within the given group.
    PluginNotFound { step: String, group: String, plugin: String },
    /// Selection violates the group's constraints.
    ValidationFailed { step: String, group: String, message: String },
}

/// A `DeclarativeError` with its texts as character sequences.
pub enum DeclarativeErrorView {
    UnsupportedVersion { config: u32, supported: u32 },
    HashMismatch { expected: Seq<char>, actual: Seq<char> },
    StepNotFound(Seq<char>),
    GroupNotFound { step: Seq<char>, group: Seq<char> },
    PluginNotFound { step: Seq<char>, group: Seq<char>, plugin: Seq<char> },
    ValidationFailed { step: Seq<char>, group: Seq<char>, message: Seq<char> },
}

impl View for DeclarativeError {
    type V = DeclarativeErrorView;

    open spec fn view(&self) -> DeclarativeErrorView {
        match self {
            DeclarativeError::UnsupportedVersion { config, supported } => {
                DeclarativeErrorView::UnsupportedVersion { config: *config, supported: *supported }
            },
            DeclarativeError::HashMismatch { expected, actual } => {
                DeclarativeErrorView::HashMismatch { expected: expected@, actual: actual@ }
            },
            DeclarativeError::StepNotFound(name) => DeclarativeErrorView::StepNotFound(name@),
            DeclarativeError::GroupNotFound { step, group } => {
                DeclarativeErrorView::GroupNotFound { step: step@, group: group@ }
            },
            DeclarativeError::PluginNotFound { step, group, plugin } => {
                DeclarativeErrorView::PluginNotFound { step: step@, group: group@, plugin: plugin@ }
            },
            DeclarativeError::ValidationFailed { step, group, message } => {
                DeclarativeErrorView::ValidationFailed {
                    step: step@,
                    group: group@,
                    message: message@,
                }
            },
        }
    }
}

/// How `{:?}` renders a text.
pub uninterp spec fn debug_text(s: Seq<char>) -> Seq<char>;

/// Printable ASCII other than `"` and `\`: characters that `{:?}` on a text
/// leaves as they are.
pub open spec fn plain_ascii(s: Seq<char>) -> bool {
    forall|i: int|
        0 <= i < s.len() ==> 32 <= (#[trigger] s[i] as u32) <= 126 && s[i] != '"' && s[i] != '\\'
}

/// Calls `format!("{:?}", s)`, std's `Debug` for `str`. Trusted: the result is
/// named `debug_text`; it always opens and closes with a double quote, and for
/// text made only of printable ASCII other than `"` and `\` it is the text in
/// double quotes. The escapes for other characters are not stated.
#[verifier::external_body]
fn debug_quoted(s: &str) -> (r: String)
    ensures
        r@ == debug_text(s@),
        r@.len() >= 2 && r@[0] == '"' && r@.last() == '"',
        plain_ascii(s@) ==> r@ == seq!['"'] + s@ + seq!['"'],
{
    format!("{:?}", s)
}

/// The message of a declarative error.
pub open spec fn error_text(e: DeclarativeErrorView) -> Seq<char> {
    match e {
        DeclarativeErrorView::UnsupportedVersion { config, supported } => "config schema version "@
            + decimal(config as nat) + " is not supported (this library supports up to "@
            + decimal(supported as nat) + ")"@,
        DeclarativeErrorView::HashMismatch { expected, actual } => "hash mismatch: config expects "@
            + expected + ", got "@ + actual,
        DeclarativeErrorView::StepNotFound(name) => "step not found: "@ + debug_text(name),
        DeclarativeErrorView::GroupNotFound { step, group } => "group "@ + debug_text(group)
            + " not found in step "@ + debug_text(step),
        DeclarativeErrorView::PluginNotFound { step, group, plugin } => "plugin "@ + debug_text(
            plugin,
        ) + " not found in group "@ + debug_text(group) + " (step "@ + debug_text(step) + ")"@,
        DeclarativeErrorView::ValidationFailed { step, group, message } =>
            "invalid selection for group "@ + debug_text(group) + " in step "@ + debug_text(step)
            + ": "@ + message,
    }
}

/// `{:?}` renders `x` between double quotes, and as `x` itself in double
/// quotes where `x` is printable ASCII other than `"` and `\`.
pub open spec fn quoted_plainly(x: Seq<char>) -> bool {
    &&& debug_text(x).len() >= 2
    &&& debug_text(x)[0] == '"'
    &&& debug_text(x).last() == '"'
    &&& plain_ascii(x) ==> debug_text(x) == seq!['"'] + x + seq!['"']
}

/// Every name that the message of `e` renders through `{:?}` is quoted
/// plainly when it is plain printable ASCII.
pub open spec fn names_quoted_plainly(e: DeclarativeErrorView) -> bool {
    match e {
        DeclarativeErrorView::StepNotFound(name) => quoted_plainly(name),
        DeclarativeErrorView::GroupNotFound { step, group } => quoted_plainly(step) && quoted_plainly(
            group,
        ),
        DeclarativeErrorView::PluginNotFound { step, group, plugin } => quoted_plainly(step)
            && quoted_plainly(group) && quoted_plainly(plugin),
        DeclarativeErrorView::ValidationFailed { step, group, .. } => quoted_plainly(step)
            && quoted_plainly(group),
        _ => true,
    }
}

impl DeclarativeError {
    /// The error's message.
    pub fn to_string(&self) -> (s: String)
        ensures
            s@ == error_text(self@),
            names_quoted_plainly(self@),
    {
        match self {
            DeclarativeError::UnsupportedVersion { config, supported } => {
                let mut s = String::from_str("config schema version ");
                push_decimal(&mut s, *config as u64);
                s.append(" is not supported (this library supports up to ");
                push_decimal(&mut s, *supported as u64);
                s.append(")");
                s
            },
            DeclarativeError::HashMismatch { expected, actual } => {
                let mut s = String::from_str("hash mismatch: config expects ");
                s.append(expected.as_str());
                s.append(", got ");
                s.append(actual.as_str());
                s
            },
            DeclarativeError::StepNotFound(name) => {
                let mut s = String::from_str("step not found: ");
                s.append(debug_quoted(name.as_str()).as_str());
                s
            },
            DeclarativeError::GroupNotFound { step, group } => {
                let mut s = String::from_str("group ");
                s.append(debug_quoted(group.as_str()).as_str());
                s.append(" not found in step ");
                s.append(debug_quoted(step.as_str()).as_str());
                s
            },
            DeclarativeError::PluginNotFound { step, group, plugin } => {
                let mut s = String::from_str("plugin ");
                s.append(debug_quoted(plugin.as_str()).as_str());
                s.append(" not found in group ");
                s.append(debug_quoted(group.as_str()).as_str());
                s.append(" (step ");
                s.append(debug_quoted(step.as_str()).as_str());
                s.append(")");
                s
            },
            DeclarativeError::ValidationFailed { step, group, message } => {
                let mut s = String::from_str("invalid selection for group ");
                s.append(debug_quoted(group.as_str()).as_str());
                s.append(" in step ");
                s.append(debug_quoted(step.as_str()).as_str());
                s.append(": ");
                s.append(message.as_str());
                s
            },
        }
    }
}

// ---------------------------------------------------------------------------
// The selections as a map of maps of name lists.
// ---------------------------------------------------------------------------

/// The selections as step name to group name to plugin names.
pub open spec fn selections_view(sel: StrMap<StrMap<Vec<String>>>) -> Map<
    Seq<char>,
    Map<Seq<char>, Seq<Seq<char>>>,
> {
    sel@.map_values(
        |inner: StrMap<Vec<String>>| inner@.map_values(|v: Vec<String>| v.deep_view()),
    )
}

/// The plugin names chosen for group `group` of step `step`, if any.
pub open spec fn chosen_names(sel: StrMap<StrMap<Vec<String>>>, step: Seq<char>, group: Seq<char>) -> Option<
    Seq<Seq<char>>,
> {
    if sel@.contains_key(step) && sel@[step]@.contains_key(group) {
        Some(sel@[step]@[group].deep_view())
    } else {
        None
    }
}

/// The names of the plugins at `indices` (indices past the end are skipped).
pub open spec fn names_at(plugins: Seq<Plugin>, indices: Seq<usize>) -> Seq<Seq<char>>
    decreases indices.len(),
{
    if indices.len() == 0 {
        Seq::empty()
    } else {
        let rest = names_at(plugins, indices.drop_last());
        if indices.last() < plugins.len() {
            rest.push(plugins[indices.last() as int].name@)
        } else {
            rest
        }
    }
}

/// The names of `plugins`, in order.
pub open spec fn name_list(plugins: Seq<Plugin>) -> Seq<Seq<char>> {
    Seq::new(plugins.len(), |i: int| plugins[i].name@)
}

/// The names that a template lists for `group`: all plugins, or the defaults.
pub open spec fn template_names(group: Group, include_all: bool) -> Seq<Seq<char>> {
    if include_all {
        name_list(group.plugins.plugins@)
    } else {
        names_at(group.plugins.plugins@, spec_default_selections(group))
    }
}

/// The template entries of `groups`, inserted by name in order.
pub open spec fn template_groups(groups: Seq<Group>, include_all: bool) -> Map<
    Seq<char>,
    Seq<Seq<char>>,
>
    decreases groups.len(),
{
    if groups.len() == 0 {
        Map::empty()
    } else {
        template_groups(groups.drop_last(), include_all).insert(
            groups.last().name@,
            template_names(groups.last(), include_all),
        )
    }
}

/// The groups of `step` (none when it has no group list).
pub open spec fn groups_of(step: InstallStep) -> Seq<Group> {
    match step.optional_file_groups {
        Some(gl) => gl.groups@,
        None => Seq::empty(),
    }
}

/// The template entries of `steps`, inserted by name in order.
pub open spec fn template_steps(steps: Seq<InstallStep>, include_all: bool) -> Map<
    Seq<char>,
    Map<Seq<char>, Seq<Seq<char>>>,
>
    decreases steps.len(),
{
    if steps.len() == 0 {
        Map::empty()
    } else {
        template_steps(steps.drop_last(), include_all).insert(
            steps.last().name@,
            template_groups(groups_of(steps.last()), include_all),
        )
    }
}

/// The install steps of `config` (none when it has no steps).
pub open spec fn steps_of(config: ModuleConfig) -> Seq<InstallStep> {
    match config.install_steps {
        Some(s) => s.steps@,
        None => Seq::empty(),
    }
}

/// The selections of a template for `config`.
pub open spec fn template(config: ModuleConfig, include_all: bool) -> Map<
    Seq<char>,
    Map<Seq<char>, Seq<Seq<char>>>,
> {
    template_steps(steps_of(config), include_all)
}

fn plugin_names(group: &Group, include_all: bool) -> (names: Vec<String>)
    ensures
        names.deep_view() == template_names(*group, include_all),
{
    let plugins = &group.plugins.plugins;
    let mut out: Vec<String> = Vec::new();
    if include_all {
        let mut i: usize = 0;
        while i < plugins.len()
            invariant
                i <= plugins@.len(),
                out@.len() == i,
                out.deep_view() == name_list(plugins@.subrange(0, i as int)),
            decreases plugins@.len() - i,
        {
            let ghost before = out.deep_view();
            let ghost old_seq = out@;
            out.push(plugins[i].name.clone());
            proof {
                assert forall|k: int| 0 <= k < i implies out.deep_view()[k] == before[k] by {
                    assert(out@[k] == old_seq[k]);
                }
                assert(out@[i as int] == plugins@[i as int].name);
                assert(out.deep_view()[i as int] == plugins@[i as int].name@);
                assert(out.deep_view().len() == i + 1);
                assert(name_list(plugins@.subrange(0, i + 1)).len() == i + 1);
                assert forall|k: int| 0 <= k < i + 1 implies out.deep_view()[k] == name_list(plugins@.subrange(0, i + 1))[k] by {
                    if k < i {
                        assert(before[k] == name_list(plugins@.subrange(0, i as int))[k]);
                    }
                }
                assert(out.deep_view() =~= name_list(plugins@.subrange(0, i + 1)));
            }
            i = i + 1;
        }
        assert(plugins@.subrange(0, i as int) =~= plugins@);
        assert(out.deep_view() == name_list(plugins@));
    } else {
        let defaults = Installer::default_selections(group);
        let mut i: usize = 0;
        while i < defaults.len()
            invariant
                i <= defaults@.len(),
                defaults@ == spec_default_selections(*group),
                out.deep_view() == names_at(plugins@, defaults@.subrange(0, i as int)),
            decreases defaults@.len() - i,
        {
            let idx = defaults[i];
            proof {
                assert(defaults@.subrange(0, i + 1).drop_last() =~= defaults@.subrange(0, i as int));
            }
            if idx < plugins.len() {
                out.push(plugins[idx].name.clone());
                assert(out.deep_view() =~= names_at(plugins@, defaults@.subrange(0, i + 1)));
            }
            i = i + 1;
        }
        assert(defaults@.subrange(0, i as int) =~= defaults@);
    }
    out
}

proof fn lemma_view_insert<V>(m: Map<Seq<char>, V>, k: Seq<char>, v: V, f: spec_fn(V) -> Seq<Seq<char>>)
    ensures
        m.insert(k, v).map_values(f) == m.map_values(f).insert(k, f(v)),
{
    assert(m.insert(k, v).map_values(f) =~= m.map_values(f).insert(k, f(v)));
}

impl DeclarativeConfig {
    fn build_selections(config: &ModuleConfig, include_all: bool) -> (sel: StrMap<
        StrMap<Vec<String>>,
    >)
        ensures
            selections_view(sel) == template(*config, include_all),
    {
        let mut selections: StrMap<StrMap<Vec<String>>> = StrMap::new();
        assert(selections_view(selections) =~= Map::empty());
        if let Some(install_steps) = &config.install_steps {
            let steps = &install_steps.steps;
            let mut i: usize = 0;
            while i < steps.len()
                invariant
                    i <= steps@.len(),
                    steps@ == steps_of(*config),
                    selections_view(selections) == template_steps(
                        steps@.subrange(0, i as int),
                        include_all,
                    ),
                decreases steps@.len() - i,
            {
                let step = &steps[i];
                let mut group_map: StrMap<Vec<String>> = StrMap::new();
                assert(group_map@.map_values(|v: Vec<String>| v.deep_view()) =~= Map::empty());
                if let Some(groups) = &step.optional_file_groups {
                    let mut j: usize = 0;
                    while j < groups.groups.len()
                        invariant
                            j <= groups.groups@.len(),
                            groups.groups@ == groups_of(*step),
                            group_map@.map_values(|v: Vec<String>| v.deep_view()) == template_groups(
                                groups.groups@.subrange(0, j as int),
                                include_all,
                            ),
                        decreases groups.groups@.len() - j,
                    {
                        let group = &groups.groups[j];
                        let names = plugin_names(group, include_all);
                        let ghost before = group_map@;
                        group_map.insert(group.name.clone(), names);
                        proof {
                            lemma_view_insert(
                                before,
                                group.name@,
                                names,
                                |v: Vec<String>| v.deep_view(),
                            );
                            assert(groups.groups@.subrange(0, j + 1).drop_last() =~= groups.groups@.subrange(
                                0,
                                j as int,
                            ));
                        }
                        j = j + 1;
                    }
                    assert(groups.groups@.subrange(0, j as int) =~= groups.groups@);
                }
                let ghost before = selections@;
                let ghost gv = group_map@.map_values(|v: Vec<String>| v.deep_view());
                selections.insert(step.name.clone(), group_map);
                proof {
                    assert(selections_view(selections) =~= selections_view_of(before).insert(
                        step.name@,
                        gv,
                    ));
                    assert(steps@.subrange(0, i + 1).drop_last() =~= steps@.subrange(0, i as int));
                }
                i = i + 1;
            }
            assert(steps@.subrange(0, i as int) =~= steps@);
        }
        selections
    }

    /// Create a template config from a FOMOD module with default selections.
    ///
    /// - `xml`: raw XML source used to compute the SRI hash
    /// - `rev`: human-readable version identifier (e.g. from `info.xml`)
    /// - `config`: parsed FOMOD module configuration
    pub fn from_defaults(xml: &str, rev: &str, config: &ModuleConfig) -> (decl: Self)
        ensures
            decl.schema_version == SCHEMA_VERSION,
            decl.rev@ == rev@,
            decl.hash@ == sri_hash(xml@),
            selections_view(decl.selections) == template(*config, false),
    {
        let selections = Self::build_selections(config, false);
        DeclarativeConfig {
            schema_version: SCHEMA_VERSION,
            rev: String::from_str(rev),
            hash: hash_xml(xml),
            selections,
        }
    }

    /// Create a template config with all available options listed.
    ///
    /// Every plugin in every group is included, making it easy to see what's
    /// available and remove what you don't want.
    pub fn from_all(xml: &str, rev: &str, config: &ModuleConfig) -> (decl: Self)
        ensures
            decl.schema_version == SCHEMA_VERSION,
            decl.rev@ == rev@,
            decl.hash@ == sri_hash(xml@),
            selections_view(decl.selections) == template(*config, true),
    {
        let selections = Self::build_selections(config, true);
        DeclarativeConfig {
            schema_version: SCHEMA_VERSION,
            rev: String::from_str(rev),
            hash: hash_xml(xml),
            selections,
        }
    }
}


// ---------------------------------------------------------------------------
// Resolving names to indices.
// ---------------------------------------------------------------------------

/// The names of `steps`, in order.
pub open spec fn step_names(steps: Seq<InstallStep>) -> Seq<Seq<char>> {
    Seq::new(steps.len(), |i: int| steps[i].name@)
}

/// The names of `groups`, in order.
pub open spec fn group_names(groups: Seq<Group>) -> Seq<Seq<char>> {
    Seq::new(groups.len(), |i: int| groups[i].name@)
}

/// No name before position `i` is `n`.
pub open spec fn absent_before(names: Seq<Seq<char>>, i: int, n: Seq<char>) -> bool {
    forall|j: int| 0 <= j < i ==> #[trigger] names[j] != n
}

/// The position of the first occurrence of `n` in `names`.
pub open spec fn first_index(names: Seq<Seq<char>>, n: Seq<char>) -> int {
    choose|i: int| 0 <= i < names.len() && names[i] == n && absent_before(names, i, n)
}

proof fn lemma_first_index_is(names: Seq<Seq<char>>, n: Seq<char>, i: int)
    requires
        0 <= i < names.len(),
        names[i] == n,
        absent_before(names, i, n),
    ensures
        first_index(names, n) == i,
{
    let f = first_index(names, n);
    assert(0 <= f < names.len() && names[f] == n && absent_before(names, f, n));
    if f < i {
        assert(names[f] != n);
    }
    if i < f {
        assert(names[i] != n);
    }
}

proof fn lemma_first_index(names: Seq<Seq<char>>, n: Seq<char>)
    requires
        names.contains(n),
    ensures
        0 <= first_index(names, n) < names.len(),
        names[first_index(names, n)] == n,
        absent_before(names, first_index(names, n), n),
{
    lemma_first_exists(names, n);
}

proof fn lemma_first_exists(names: Seq<Seq<char>>, n: Seq<char>)
    requires
        names.contains(n),
    ensures
        exists|i: int| 0 <= i < names.len() && names[i] == n && absent_before(names, i, n),
    decreases names.len(),
{
    let i = choose|i: int| 0 <= i < names.len() && names[i] == n;
    let pre = names.subrange(0, i);
    if pre.contains(n) {
        lemma_first_exists(pre, n);
        let f = choose|f: int| 0 <= f < pre.len() && pre[f] == n && absent_before(pre, f, n);
        assert(names[f] == n);
        assert forall|j: int| 0 <= j < f implies #[trigger] names[j] != n by {
            assert(pre[j] == names[j]);
        }
        assert(absent_before(names, f, n));
    } else {
        assert forall|j: int| 0 <= j < i implies #[trigger] names[j] != n by {
            if names[j] == n {
                assert(pre[j] == n);
            }
        }
        assert(absent_before(names, i, n));
    }
}

/// The first missing plugin among `names`, as an error for group `group` of step `step`.
#[verifier::opaque]
pub open spec fn fault_in_names(
    plugins: Seq<Plugin>,
    step: Seq<char>,
    group: Seq<char>,
    names: Seq<Seq<char>>,
) -> Option<DeclarativeErrorView>
    decreases names.len(),
{
    if names.len() == 0 {
        None
    } else {
        match fault_in_names(plugins, step, group, names.drop_last()) {
            Some(e) => Some(e),
            None => if name_list(plugins).contains(names.last()) {
                None
            } else {
                Some(DeclarativeErrorView::PluginNotFound { step, group, plugin: names.last() })
            },
        }
    }
}

/// The first missing group or plugin among the first `n` groups that `inner`
/// names for step `step`, whose groups are `groups`.
#[verifier::opaque]
pub open spec fn fault_in_groups(
    groups: Seq<Group>,
    step: Seq<char>,
    inner: StrMap<Vec<String>>,
    n: int,
) -> Option<DeclarativeErrorView>
    decreases n,
{
    if n <= 0 {
        None
    } else {
        match fault_in_groups(groups, step, inner, n - 1) {
            Some(e) => Some(e),
            None => {
                let g = inner.keys()[n - 1];
                if group_names(groups).contains(g) {
                    fault_in_names(
                        groups[first_index(group_names(groups), g)].plugins.plugins@,
                        step,
                        g,
                        inner@[g].deep_view(),
                    )
                } else {
                    Some(DeclarativeErrorView::GroupNotFound { step, group: g })
                }
            },
        }
    }
}

/// The first missing step, group or plugin among the first `n` steps that
/// `sel` names. A name is looked up in the first step (or group, or plugin)
/// that carries it.
#[verifier::opaque]
pub open spec fn fault_in_steps(
    steps: Seq<InstallStep>,
    sel: StrMap<StrMap<Vec<String>>>,
    n: int,
) -> Option<DeclarativeErrorView>
    decreases n,
{
    if n <= 0 {
        None
    } else {
        match fault_in_steps(steps, sel, n - 1) {
            Some(e) => Some(e),
            None => {
                let s = sel.keys()[n - 1];
                if step_names(steps).contains(s) {
                    fault_in_groups(
                        groups_of(steps[first_index(step_names(steps), s)]),
                        s,
                        sel@[s],
                        sel@[s].keys().len() as int,
                    )
                } else {
                    Some(DeclarativeErrorView::StepNotFound(s))
                }
            },
        }
    }
}

/// The first name in `sel`, in walk order, that `steps` do not have.
pub open spec fn name_fault(sel: StrMap<StrMap<Vec<String>>>, steps: Seq<InstallStep>) -> Option<
    DeclarativeErrorView,
> {
    fault_in_steps(steps, sel, sel.keys().len() as int)
}

/// The plugin positions for `names`: the first plugin with each name.
pub open spec fn positions(plugins: Seq<Plugin>, names: Seq<Seq<char>>) -> Seq<usize> {
    Seq::new(names.len(), |k: int| first_index(name_list(plugins), names[k]) as usize)
}

/// The message of the error that validating `selected` against `group` gives, if any.
pub open spec fn selection_message(group: Group, selected: Seq<usize>) -> Option<Seq<char>> {
    if some_out_of_bounds(selected, group.plugins.plugins@.len()) {
        Some("plugin index out of bounds"@)
    } else {
        match count_violation(group.group_type, selected.len(), group.plugins.plugins@.len()) {
            Some(expected) => Some(
                "expected "@ + expected + " selections, got "@ + decimal(selected.len()),
            ),
            None => None,
        }
    }
}

/// The selection recorded for group `gi` of step `si`: the named plugins when
/// the config names the group (they must fit the group), else its defaults.
pub open spec fn group_resolution(
    sel: StrMap<StrMap<Vec<String>>>,
    step: InstallStep,
    si: usize,
    group: Group,
    gi: usize,
) -> Result<SelectionEntry, DeclarativeErrorView> {
    match chosen_names(sel, step.name@, group.name@) {
        Some(names) => {
            let idx = positions(group.plugins.plugins@, names);
            match selection_message(group, idx) {
                Some(m) => Err(
                    DeclarativeErrorView::ValidationFailed {
                        step: step.name@,
                        group: group.name@,
                        message: m,
                    },
                ),
                None => Ok((si, gi, idx)),
            }
        },
        None => Ok((si, gi, spec_default_selections(group))),
    }
}

/// The selections for `groups` of step `si`, in order, or the first error.
pub open spec fn groups_resolution(
    sel: StrMap<StrMap<Vec<String>>>,
    step: InstallStep,
    si: usize,
    groups: Seq<Group>,
) -> Result<Seq<SelectionEntry>, DeclarativeErrorView>
    decreases groups.len(),
{
    if groups.len() == 0 {
        Ok(Seq::empty())
    } else {
        match groups_resolution(sel, step, si, groups.drop_last()) {
            Err(e) => Err(e),
            Ok(l) => match group_resolution(
                sel,
                step,
                si,
                groups.last(),
                (groups.len() - 1) as usize,
            ) {
                Err(e) => Err(e),
                Ok(x) => Ok(l.push(x)),
            },
        }
    }
}

/// The selections for every group of `steps`, step by step, or the first error.
pub open spec fn steps_resolution(sel: StrMap<StrMap<Vec<String>>>, steps: Seq<InstallStep>) -> Result<
    Seq<SelectionEntry>,
    DeclarativeErrorView,
>
    decreases steps.len(),
{
    if steps.len() == 0 {
        Ok(Seq::empty())
    } else {
        match steps_resolution(sel, steps.drop_last()) {
            Err(e) => Err(e),
            Ok(l) => match groups_resolution(
                sel,
                steps.last(),
                (steps.len() - 1) as usize,
                groups_of(steps.last()),
            ) {
                Err(e) => Err(e),
                Ok(m) => Ok(l + m),
            },
        }
    }
}

/// What resolving `sel` against `config` gives: the first unknown name, or
/// the per-group selections. A config without install steps has no steps,
/// so any step name is unknown there.
pub open spec fn spec_resolution(sel: StrMap<StrMap<Vec<String>>>, config: ModuleConfig) -> Result<
    Seq<SelectionEntry>,
    DeclarativeErrorView,
> {
    match name_fault(sel, steps_of(config)) {
        Some(e) => Err(e),
        None => steps_resolution(sel, steps_of(config)),
    }
}

/// Every plugin name that `sel` gives for `group` of `step` is a plugin of it.
pub open spec fn names_found(sel: StrMap<StrMap<Vec<String>>>, step: InstallStep, group: Group) -> bool {
    match chosen_names(sel, step.name@, group.name@) {
        Some(names) => forall|k: int|
            0 <= k < names.len() ==> name_list(group.plugins.plugins@).contains(#[trigger] names[k]),
        None => true,
    }
}

/// Every plugin name that `sel` gives for any group of `steps` is a plugin of
/// that group; with repeated step or group names this can fail even when the
/// first step and group of each name have all the plugins.
pub open spec fn names_resolvable(sel: StrMap<StrMap<Vec<String>>>, steps: Seq<InstallStep>) -> bool {
    forall|si: int, gi: int|
        0 <= si < steps.len() && 0 <= gi < groups_of(steps[si]).len() ==> #[trigger] names_found(
            sel,
            steps[si],
            groups_of(steps[si])[gi],
        )
}

/// Walking `groups` of step `step` (at `si`) in order comes to a group whose
/// plugin list names a plugin that group lacks before any choice fails.
pub open spec fn groups_stuck(
    sel: StrMap<StrMap<Vec<String>>>,
    step: InstallStep,
    si: usize,
    groups: Seq<Group>,
) -> bool
    decreases groups.len(),
{
    if groups.len() == 0 {
        false
    } else {
        groups_stuck(sel, step, si, groups.drop_last()) || (groups_resolution(
            sel,
            step,
            si,
            groups.drop_last(),
        ) is Ok && !names_found(sel, step, groups.last()))
    }
}

/// Walking the groups of `steps` in order comes to a group whose plugin list
/// names a plugin that group lacks before any choice fails.
pub open spec fn steps_stuck(sel: StrMap<StrMap<Vec<String>>>, steps: Seq<InstallStep>) -> bool
    decreases steps.len(),
{
    if steps.len() == 0 {
        false
    } else {
        steps_stuck(sel, steps.drop_last()) || (steps_resolution(sel, steps.drop_last()) is Ok
            && groups_stuck(sel, steps.last(), (steps.len() - 1) as usize, groups_of(steps.last())))
    }
}

/// When no name is unknown, walking the groups never comes to a group that
/// lacks a plugin its list names before a choice fails validation.
pub open spec fn resolvable_when_valid(sel: StrMap<StrMap<Vec<String>>>, config: ModuleConfig) -> bool {
    name_fault(sel, steps_of(config)) is None ==> !steps_stuck(sel, steps_of(config))
}

proof fn lemma_groups_stuck_mono(
    sel: StrMap<StrMap<Vec<String>>>,
    step: InstallStep,
    si: usize,
    groups: Seq<Group>,
    k: int,
)
    requires
        0 <= k <= groups.len(),
        groups_stuck(sel, step, si, groups.subrange(0, k)),
    ensures
        groups_stuck(sel, step, si, groups),
    decreases groups.len() - k,
{
    if k < groups.len() {
        assert(groups.subrange(0, k + 1).drop_last() =~= groups.subrange(0, k));
        lemma_groups_stuck_mono(sel, step, si, groups, k + 1);
    } else {
        assert(groups.subrange(0, k) =~= groups);
    }
}

proof fn lemma_steps_stuck_mono(sel: StrMap<StrMap<Vec<String>>>, steps: Seq<InstallStep>, k: int)
    requires
        0 <= k <= steps.len(),
        steps_stuck(sel, steps.subrange(0, k)),
    ensures
        steps_stuck(sel, steps),
    decreases steps.len() - k,
{
    if k < steps.len() {
        assert(steps.subrange(0, k + 1).drop_last() =~= steps.subrange(0, k));
        lemma_steps_stuck_mono(sel, steps, k + 1);
    } else {
        assert(steps.subrange(0, k) =~= steps);
    }
}

proof fn lemma_groups_stuck_extends(
    sel: StrMap<StrMap<Vec<String>>>,
    step: InstallStep,
    si: usize,
    groups: Seq<Group>,
    k: int,
)
    requires
        0 <= k <= groups.len(),
        groups_resolution(sel, step, si, groups.subrange(0, k)) is Err,
    ensures
        groups_stuck(sel, step, si, groups) == groups_stuck(sel, step, si, groups.subrange(0, k)),
    decreases groups.len() - k,
{
    if k < groups.len() {
        assert(groups.subrange(0, k + 1).drop_last() =~= groups.subrange(0, k));
        lemma_groups_stuck_extends(sel, step, si, groups, k + 1);
    } else {
        assert(groups.subrange(0, k) =~= groups);
    }
}

proof fn lemma_steps_stuck_extends(sel: StrMap<StrMap<Vec<String>>>, steps: Seq<InstallStep>, k: int)
    requires
        0 <= k <= steps.len(),
        steps_resolution(sel, steps.subrange(0, k)) is Err,
    ensures
        steps_stuck(sel, steps) == steps_stuck(sel, steps.subrange(0, k)),
    decreases steps.len() - k,
{
    if k < steps.len() {
        assert(steps.subrange(0, k + 1).drop_last() =~= steps.subrange(0, k));
        lemma_steps_stuck_extends(sel, steps, k + 1);
    } else {
        assert(steps.subrange(0, k) =~= steps);
    }
}

proof fn lemma_groups_not_stuck(
    sel: StrMap<StrMap<Vec<String>>>,
    step: InstallStep,
    si: usize,
    groups: Seq<Group>,
)
    requires
        forall|g: int| 0 <= g < groups.len() ==> #[trigger] names_found(sel, step, groups[g]),
    ensures
        !groups_stuck(sel, step, si, groups),
    decreases groups.len(),
{
    if groups.len() > 0 {
        let pre = groups.drop_last();
        assert forall|g: int| 0 <= g < pre.len() implies #[trigger] names_found(sel, step, pre[g]) by {
            assert(pre[g] == groups[g]);
        }
        lemma_groups_not_stuck(sel, step, si, pre);
        assert(names_found(sel, step, groups[groups.len() - 1]));
    }
}

/// A walk does not get stuck where every name resolves in every step and
/// group it applies to.
proof fn lemma_resolvable_not_stuck(sel: StrMap<StrMap<Vec<String>>>, steps: Seq<InstallStep>)
    requires
        names_resolvable(sel, steps),
    ensures
        !steps_stuck(sel, steps),
    decreases steps.len(),
{
    if steps.len() > 0 {
        let pre = steps.drop_last();
        assert forall|si: int, gi: int|
            0 <= si < pre.len() && 0 <= gi < groups_of(pre[si]).len() implies #[trigger] names_found(
            sel,
            pre[si],
            groups_of(pre[si])[gi],
        ) by {
            assert(pre[si] == steps[si]);
        }
        lemma_resolvable_not_stuck(sel, pre);
        let last = steps.last();
        let n = steps.len() - 1;
        assert forall|g: int| 0 <= g < groups_of(last).len() implies #[trigger] names_found(
            sel,
            last,
            groups_of(last)[g],
        ) by {
            assert(names_found(sel, steps[n], groups_of(steps[n])[g]));
        }
        lemma_groups_not_stuck(sel, last, n as usize, groups_of(last));
    }
}

/// The resolved selections as entries.
pub open spec fn entries_view(v: Seq<(usize, usize, Vec<usize>)>) -> Seq<SelectionEntry> {
    Seq::new(v.len(), |i: int| (v[i].0, v[i].1, v[i].2@))
}

proof fn lemma_names_fault_extends(
    plugins: Seq<Plugin>,
    step: Seq<char>,
    group: Seq<char>,
    names: Seq<Seq<char>>,
    k: int,
)
    requires
        0 <= k <= names.len(),
        fault_in_names(plugins, step, group, names.subrange(0, k)) is Some,
    ensures
        fault_in_names(plugins, step, group, names) == fault_in_names(
            plugins,
            step,
            group,
            names.subrange(0, k),
        ),
    decreases names.len() - k,
{
    reveal(fault_in_names);
    if k < names.len() {
        assert(names.subrange(0, k + 1).drop_last() =~= names.subrange(0, k));
        lemma_names_fault_extends(plugins, step, group, names, k + 1);
    } else {
        assert(names.subrange(0, k) =~= names);
    }
}

proof fn lemma_groups_fault_extends(
    groups: Seq<Group>,
    step: Seq<char>,
    inner: StrMap<Vec<String>>,
    n: int,
    m: int,
)
    requires
        0 <= n <= m,
        fault_in_groups(groups, step, inner, n) is Some,
    ensures
        fault_in_groups(groups, step, inner, m) == fault_in_groups(groups, step, inner, n),
    decreases m - n,
{
    reveal(fault_in_groups);
    if n < m {
        lemma_groups_fault_extends(groups, step, inner, n, m - 1);
    }
}

proof fn lemma_steps_fault_extends(
    steps: Seq<InstallStep>,
    sel: StrMap<StrMap<Vec<String>>>,
    n: int,
    m: int,
)
    requires
        0 <= n <= m,
        fault_in_steps(steps, sel, n) is Some,
    ensures
        fault_in_steps(steps, sel, m) == fault_in_steps(steps, sel, n),
    decreases m - n,
{
    reveal(fault_in_steps);
    if n < m {
        lemma_steps_fault_extends(steps, sel, n, m - 1);
    }
}

proof fn lemma_steps_fault_next(steps: Seq<InstallStep>, sel: StrMap<StrMap<Vec<String>>>, n: int)
    requires
        0 <= n,
        fault_in_steps(steps, sel, n) is None,
    ensures
        fault_in_steps(steps, sel, n + 1) == ({
            let s = sel.keys()[n];
            if step_names(steps).contains(s) {
                fault_in_groups(
                    groups_of(steps[first_index(step_names(steps), s)]),
                    s,
                    sel@[s],
                    sel@[s].keys().len() as int,
                )
            } else {
                Some(DeclarativeErrorView::StepNotFound(s))
            }
        }),
{
    reveal(fault_in_steps);
}

proof fn lemma_groups_resolution_extends(
    sel: StrMap<StrMap<Vec<String>>>,
    step: InstallStep,
    si: usize,
    groups: Seq<Group>,
    k: int,
)
    requires
        0 <= k <= groups.len(),
        groups_resolution(sel, step, si, groups.subrange(0, k)) is Err,
    ensures
        groups_resolution(sel, step, si, groups) == groups_resolution(
            sel,
            step,
            si,
            groups.subrange(0, k),
        ),
    decreases groups.len() - k,
{
    if k < groups.len() {
        assert(groups.subrange(0, k + 1).drop_last() =~= groups.subrange(0, k));
        lemma_groups_resolution_extends(sel, step, si, groups, k + 1);
    } else {
        assert(groups.subrange(0, k) =~= groups);
    }
}

proof fn lemma_steps_resolution_extends(
    sel: StrMap<StrMap<Vec<String>>>,
    steps: Seq<InstallStep>,
    k: int,
)
    requires
        0 <= k <= steps.len(),
        steps_resolution(sel, steps.subrange(0, k)) is Err,
    ensures
        steps_resolution(sel, steps) == steps_resolution(sel, steps.subrange(0, k)),
    decreases steps.len() - k,
{
    if k < steps.len() {
        assert(steps.subrange(0, k + 1).drop_last() =~= steps.subrange(0, k));
        lemma_steps_resolution_extends(sel, steps, k + 1);
    } else {
        assert(steps.subrange(0, k) =~= steps);
    }
}

fn find_step(steps: &Vec<InstallStep>, name: &String) -> (r: Option<usize>)
    ensures
        match r {
            Some(i) => step_names(steps@).contains(name@) && i == first_index(step_names(steps@), name@),
            None => !step_names(steps@).contains(name@),
        },
{
    let mut i: usize = 0;
    while i < steps.len()
        invariant
            i <= steps@.len(),
            absent_before(step_names(steps@), i as int, name@),
        decreases steps@.len() - i,
    {
        if steps[i].name == *name {
            proof {
                assert(step_names(steps@)[i as int] == name@);
                lemma_first_index_is(step_names(steps@), name@, i as int);
            }
            return Some(i);
        }
        i = i + 1;
    }
    proof {
        if step_names(steps@).contains(name@) {
            let j = choose|j: int| 0 <= j < steps@.len() && step_names(steps@)[j] == name@;
            assert(step_names(steps@)[j] != name@);
        }
    }
    None
}

fn find_group(groups: &Vec<Group>, name: &String) -> (r: Option<usize>)
    ensures
        match r {
            Some(i) => group_names(groups@).contains(name@) && i == first_index(
                group_names(groups@),
                name@,
            ),
            None => !group_names(groups@).contains(name@),
        },
{
    let mut i: usize = 0;
    while i < groups.len()
        invariant
            i <= groups@.len(),
            absent_before(group_names(groups@), i as int, name@),
        decreases groups@.len() - i,
    {
        if groups[i].name == *name {
            proof {
                assert(group_names(groups@)[i as int] == name@);
                lemma_first_index_is(group_names(groups@), name@, i as int);
            }
            return Some(i);
        }
        i = i + 1;
    }
    proof {
        if group_names(groups@).contains(name@) {
            let j = choose|j: int| 0 <= j < groups@.len() && group_names(groups@)[j] == name@;
            assert(group_names(groups@)[j] != name@);
        }
    }
    None
}

fn find_plugin(plugins: &Vec<Plugin>, name: &String) -> (r: Option<usize>)
    ensures
        match r {
            Some(i) => name_list(plugins@).contains(name@) && i == first_index(
                name_list(plugins@),
                name@,
            ),
            None => !name_list(plugins@).contains(name@),
        },
{
    let mut i: usize = 0;
    while i < plugins.len()
        invariant
            i <= plugins@.len(),
            absent_before(name_list(plugins@), i as int, name@),
        decreases plugins@.len() - i,
    {
        if plugins[i].name == *name {
            proof {
                assert(name_list(plugins@)[i as int] == name@);
                lemma_first_index_is(name_list(plugins@), name@, i as int);
            }
            return Some(i);
        }
        i = i + 1;
    }
    proof {
        if name_list(plugins@).contains(name@) {
            let j = choose|j: int| 0 <= j < plugins@.len() && name_list(plugins@)[j] == name@;
            assert(name_list(plugins@)[j] != name@);
        }
    }
    None
}


/// The positions of the first plugins named `names`.
fn plugin_positions(plugins: &Vec<Plugin>, names: &Vec<String>) -> (idx: Vec<usize>)
    requires
        forall|k: int|
            0 <= k < names@.len() ==> name_list(plugins@).contains(#[trigger] names.deep_view()[k]),
    ensures
        idx@ == positions(plugins@, names.deep_view()),
{
    let mut out: Vec<usize> = Vec::new();
    let mut k: usize = 0;
    while k < names.len()
        invariant
            k <= names@.len(),
            forall|j: int|
                0 <= j < names@.len() ==> name_list(plugins@).contains(#[trigger] names.deep_view()[j]),
            out@ == positions(plugins@, names.deep_view().subrange(0, k as int)),
        decreases names@.len() - k,
    {
        assert(names.deep_view()[k as int] == names@[k as int]@);
        match find_plugin(plugins, &names[k]) {
            Some(i) => {
                out.push(i);
            },
            None => {
                assert(false);
            },
        }
        proof {
            assert(out@ =~= positions(plugins@, names.deep_view().subrange(0, k + 1)));
        }
        k = k + 1;
    }
    assert(names.deep_view().subrange(0, k as int) =~= names.deep_view());
    out
}


/// The first plugin name among `names` that `plugins` do not have, as an error.
fn check_plugin_names(plugins: &Vec<Plugin>, step: &String, group: &String, names: &Vec<String>) -> (r: Option<
    DeclarativeError,
>)
    ensures
        match fault_in_names(plugins@, step@, group@, names.deep_view()) {
            Some(e) => r matches Some(x) && x@ == e,
            None => r is None,
        },
{
    let mut k: usize = 0;
    assert(names.deep_view().subrange(0, 0) =~= Seq::<Seq<char>>::empty());
    proof {
        reveal(fault_in_names);
    }
    while k < names.len()
        invariant
            k <= names@.len(),
            fault_in_names(plugins@, step@, group@, names.deep_view().subrange(0, k as int)) is None,
        decreases names@.len() - k,
    {
        proof {
            reveal(fault_in_names);
            assert(names.deep_view().subrange(0, k + 1).drop_last() =~= names.deep_view().subrange(
                0,
                k as int,
            ));
            assert(names.deep_view()[k as int] == names@[k as int]@);
        }
        match find_plugin(plugins, &names[k]) {
            None => {
                proof {
                    lemma_names_fault_extends(plugins@, step@, group@, names.deep_view(), k + 1);
                }
                return Some(
                    DeclarativeError::PluginNotFound {
                        step: step.clone(),
                        group: group.clone(),
                        plugin: names[k].clone(),
                    },
                );
            },
            Some(_) => {},
        }
        k = k + 1;
    }
    assert(names.deep_view().subrange(0, k as int) =~= names.deep_view());
    None
}

/// The first group or plugin that `inner` names for step `step` and `groups`
/// do not have, as an error.
#[verifier::rlimit(60)]
fn check_groups(groups: &Vec<Group>, step: &String, inner: &StrMap<Vec<String>>) -> (r: Option<
    DeclarativeError,
>)
    ensures
        match fault_in_groups(groups@, step@, *inner, inner.keys().len() as int) {
            Some(e) => r matches Some(x) && x@ == e,
            None => r is None,
        },
{
    let m = inner.len();
    let mut j: usize = 0;
    proof {
        reveal(fault_in_groups);
    }
    while j < m
        invariant
            m == inner.keys().len(),
            j <= m,
            fault_in_groups(groups@, step@, *inner, j as int) is None,
        decreases m - j,
    {
        let g = inner.key_at(j);
        let names = inner.value_at(j);
        proof {
            reveal(fault_in_groups);
        }
        match find_group(groups, g) {
            None => {
                proof {
                    lemma_groups_fault_extends(groups@, step@, *inner, j + 1, m as int);
                }
                return Some(DeclarativeError::GroupNotFound { step: step.clone(), group: g.clone() });
            },
            Some(gi) => {
                proof {
                    lemma_first_index(group_names(groups@), g@);
                }
                match check_plugin_names(&groups[gi].plugins.plugins, step, g, names) {
                    Some(e) => {
                        proof {
                            lemma_groups_fault_extends(groups@, step@, *inner, j + 1, m as int);
                        }
                        return Some(e);
                    },
                    None => {},
                }
            },
        }
        j = j + 1;
    }
    None
}

impl DeclarativeConfig {
    /// The first name that `steps` do not have, as an error.
    #[verifier::rlimit(60)]
    fn check_names(&self, steps: &Vec<InstallStep>) -> (r: Option<DeclarativeError>)
        ensures
            match name_fault(self.selections, steps@) {
                Some(e) => r matches Some(x) && x@ == e,
                None => r is None,
            },
    {
        let sel = &self.selections;
        let n = sel.len();
        let mut i: usize = 0;
        proof {
            reveal(fault_in_steps);
        }
        while i < n
            invariant
                n == sel.keys().len(),
                *sel == self.selections,
                i <= n,
                fault_in_steps(steps@, *sel, i as int) is None,
            decreases n - i,
        {
            let s = sel.key_at(i);
            let inner = sel.value_at(i);
            proof {
                lemma_steps_fault_next(steps@, *sel, i as int);
            }
            match find_step(steps, s) {
                None => {
                    proof {
                        lemma_steps_fault_extends(steps@, *sel, i + 1, n as int);
                    }
                    let e = DeclarativeError::StepNotFound(s.clone());
                    return Some(e);
                },
                Some(si) => {
                    proof {
                        lemma_first_index(step_names(steps@), s@);
                    }
                    let empty: Vec<Group> = Vec::new();
                    let groups = match &steps[si].optional_file_groups {
                        Some(gl) => &gl.groups,
                        None => &empty,
                    };
                    assert(groups@ == groups_of(steps@[si as int]));
                    match check_groups(groups, s, inner) {
                        Some(e) => {
                            proof {
                                lemma_steps_fault_extends(steps@, *sel, i + 1, n as int);
                            }
                            return Some(e);
                        },
                        None => {},
                    }
                },
            }
            i = i + 1;
        }
        None
    }

    /// Walks the groups of `steps` in order and resolves each: `None` where
    /// the walk comes to a group that names a plugin the group lacks (before
    /// any choice fails validation), else the per-group selections or the
    /// first choice that does not fit its group.
    fn walk_steps(&self, steps: &Vec<InstallStep>) -> (r: Option<
        Result<Vec<(usize, usize, Vec<usize>)>, DeclarativeError>,
    >)
        ensures
            r is None <==> steps_stuck(self.selections, steps@),
            r matches Some(res) ==> match steps_resolution(self.selections, steps@) {
                Ok(l) => res matches Ok(v) && entries_view(v@) == l,
                Err(e) => res matches Err(x) && x@ == e,
            },
    {
        let sel = &self.selections;
        let mut out: Vec<(usize, usize, Vec<usize>)> = Vec::new();
        let mut si: usize = 0;
        assert(steps@.subrange(0, 0) =~= Seq::<InstallStep>::empty());
        assert(entries_view(out@) =~= Seq::<SelectionEntry>::empty());
        while si < steps.len()
            invariant
                si <= steps@.len(),
                *sel == self.selections,
                steps_resolution(*sel, steps@.subrange(0, si as int)) == Ok::<
                    Seq<SelectionEntry>,
                    DeclarativeErrorView,
                >(entries_view(out@)),
                !steps_stuck(*sel, steps@.subrange(0, si as int)),
            decreases steps@.len() - si,
        {
            let step = &steps[si];
            let step_sel = sel.get(step.name.as_str());
            let empty: Vec<Group> = Vec::new();
            let groups = match &step.optional_file_groups {
                Some(gl) => &gl.groups,
                None => &empty,
            };
            assert(groups@ == groups_of(steps@[si as int]));
            let ghost base = entries_view(out@);
            let mut gi: usize = 0;
            assert(groups@.subrange(0, 0) =~= Seq::<Group>::empty());
            assert(base + Seq::<SelectionEntry>::empty() =~= base);
            proof {
                assert(steps@.subrange(0, si + 1).drop_last() =~= steps@.subrange(0, si as int));
                assert(steps@.subrange(0, si + 1).last() == *step);
            }
            while gi < groups.len()
                invariant
                    gi <= groups@.len(),
                    si < steps@.len(),
                    *step == steps@[si as int],
                    groups@ == groups_of(*step),
                    *sel == self.selections,
                    steps_resolution(*sel, steps@.subrange(0, si as int)) == Ok::<
                        Seq<SelectionEntry>,
                        DeclarativeErrorView,
                    >(base),
                    !steps_stuck(*sel, steps@.subrange(0, si as int)),
                    steps@.subrange(0, si + 1).drop_last() == steps@.subrange(0, si as int),
                    steps@.subrange(0, si + 1).last() == *step,
                    step_sel is Some <==> sel@.contains_key(step.name@),
                    step_sel matches Some(inner) ==> *inner == sel@[step.name@],
                    groups_resolution(*sel, *step, si, groups@.subrange(0, gi as int)) matches Ok(m)
                        && entries_view(out@) == base + m,
                    !groups_stuck(*sel, *step, si, groups@.subrange(0, gi as int)),
                decreases groups@.len() - gi,
            {
                let group = &groups[gi];
                let ghost m = groups_resolution(*sel, *step, si, groups@.subrange(0, gi as int))->Ok_0;
                proof {
                    assert(groups@.subrange(0, gi + 1).drop_last() =~= groups@.subrange(0, gi as int));
                    assert(groups@.subrange(0, gi + 1).last() == *group);
                }
                let chosen: Option<&Vec<String>> = match step_sel {
                    Some(inner) => inner.get(group.name.as_str()),
                    None => None,
                };
                let indices = match chosen {
                    Some(names) => {
                        proof {
                            assert(chosen_names(*sel, step.name@, group.name@) == Some(names.deep_view()));
                            assert(names.deep_view().len() == names@.len());
                        }
                        if !all_names_found(&group.plugins.plugins, names) {
                            proof {
                                let k = choose|k: int|
                                    0 <= k < names@.len() && !name_list(group.plugins.plugins@).contains(
                                        #[trigger] names.deep_view()[k],
                                    );
                                assert(!name_list(group.plugins.plugins@).contains(names.deep_view()[k]));
                                assert(!names_found(*sel, *step, *group));
                                assert(groups_stuck(*sel, *step, si, groups@.subrange(0, gi + 1)));
                                lemma_groups_stuck_mono(*sel, *step, si, groups@, gi + 1);
                                assert(groups@.subrange(0, groups@.len() as int) =~= groups@);
                                assert(steps_stuck(*sel, steps@.subrange(0, si + 1)));
                                lemma_steps_stuck_mono(*sel, steps@, si + 1);
                                assert(steps@.subrange(0, steps@.len() as int) =~= steps@);
                            }
                            return None;
                        }
                        proof {
                            assert(names_found(*sel, *step, *group));
                        }
                        let idx = plugin_positions(&group.plugins.plugins, names);
                        match Installer::validate_selection(group, idx.as_slice()) {
                            Err(e) => {
                                let message = e.to_string();
                                proof {
                                    assert(selection_message(*group, idx@) == Some(message@));
                                    let err = DeclarativeErrorView::ValidationFailed {
                                        step: step.name@,
                                        group: group.name@,
                                        message: message@,
                                    };
                                    assert(group_resolution(*sel, *step, si, *group, gi) == Err::<
                                        SelectionEntry,
                                        DeclarativeErrorView,
                                    >(err));
                                    assert(groups_resolution(*sel, *step, si, groups@.subrange(0, gi + 1))
                                        == Err::<Seq<SelectionEntry>, DeclarativeErrorView>(err));
                                    assert(!groups_stuck(*sel, *step, si, groups@.subrange(0, gi + 1)));
                                    lemma_groups_resolution_extends(*sel, *step, si, groups@, gi + 1);
                                    lemma_groups_stuck_extends(*sel, *step, si, groups@, gi + 1);
                                    assert(!steps_stuck(*sel, steps@.subrange(0, si + 1)));
                                    lemma_steps_resolution_extends(*sel, steps@, si + 1);
                                    lemma_steps_stuck_extends(*sel, steps@, si + 1);
                                }
                                return Some(
                                    Err(
                                        DeclarativeError::ValidationFailed {
                                            step: step.name.clone(),
                                            group: group.name.clone(),
                                            message,
                                        },
                                    ),
                                );
                            },
                            Ok(()) => idx,
                        }
                    },
                    None => Installer::default_selections(group),
                };
                let ghost before = out@;
                out.push((si, gi, indices));
                proof {
                    assert(entries_view(out@) =~= entries_view(before).push((si, gi, indices@)));
                    assert(base + m.push((si, gi, indices@)) =~= (base + m).push((si, gi, indices@)));
                }
                gi = gi + 1;
            }
            proof {
                assert(groups@.subrange(0, gi as int) =~= groups@);
            }
            si = si + 1;
        }
        assert(steps@.subrange(0, si as int) =~= steps@);
        Some(Ok(out))
    }

    /// Resolve declarative name-based selections to index-based selections,
    /// ready to be passed to [`Installer::select`]. A module without install
    /// steps has no step to find a name in.
    fn resolve_selections(&self, config: &ModuleConfig) -> (r: Result<
        Vec<(usize, usize, Vec<usize>)>,
        DeclarativeError,
    >)
        requires
            resolvable_when_valid(self.selections, *config),
        ensures
            match spec_resolution(self.selections, *config) {
                Ok(l) => r matches Ok(v) && entries_view(v@) == l,
                Err(e) => r matches Err(x) && x@ == e,
            },
    {
        let empty: Vec<InstallStep> = Vec::new();
        let steps = match &config.install_steps {
            Some(s) => &s.steps,
            None => &empty,
        };
        assert(steps@ == steps_of(*config));
        if let Some(e) = self.check_names(steps) {
            return Err(e);
        }
        match self.walk_steps(steps) {
            Some(res) => res,
            None => {
                proof {
                    assert(false);
                }
                Ok(Vec::new())
            },
        }
    }
}


/// Whether every name of `names` is the name of some plugin of `plugins`.
fn all_names_found(plugins: &Vec<Plugin>, names: &Vec<String>) -> (ok: bool)
    ensures
        ok == forall|k: int|
            0 <= k < names@.len() ==> name_list(plugins@).contains(#[trigger] names.deep_view()[k]),
{
    let mut k: usize = 0;
    while k < names.len()
        invariant
            k <= names@.len(),
            forall|j: int| 0 <= j < k ==> name_list(plugins@).contains(#[trigger] names.deep_view()[j]),
        decreases names@.len() - k,
    {
        assert(names.deep_view()[k as int] == names@[k as int]@);
        if find_plugin(plugins, &names[k]).is_none() {
            return false;
        }
        k = k + 1;
    }
    true
}

impl DeclarativeConfig {
    /// Whether `apply` can work on an installer for `config`: it can unless
    /// every name is found and walking the groups in order then comes to a
    /// group whose plugin list names a plugin that this group lacks (which
    /// can happen only with repeated step or group names).
    pub fn resolvable(&self, config: &ModuleConfig) -> (ok: bool)
        ensures
            ok == resolvable_when_valid(self.selections, *config),
    {
        let empty: Vec<InstallStep> = Vec::new();
        let steps = match &config.install_steps {
            Some(s) => &s.steps,
            None => &empty,
        };
        assert(steps@ == steps_of(*config));
        if self.check_names(steps).is_some() {
            return true;
        }
        self.walk_steps(steps).is_some()
    }
}

/// `list` after recording every entry of `entries`, in order.
pub open spec fn record_all(list: Seq<SelectionEntry>, entries: Seq<SelectionEntry>) -> Seq<
    SelectionEntry,
>
    decreases entries.len(),
{
    if entries.len() == 0 {
        list
    } else {
        let e = entries.last();
        record_entry(record_all(list, entries.drop_last()), e.0, e.1, e.2)
    }
}

/// The flags after selecting every entry of `entries`, in order.
pub open spec fn flags_after_all(
    flags: Map<Seq<char>, Seq<char>>,
    config: ModuleConfig,
    entries: Seq<SelectionEntry>,
) -> Map<Seq<char>, Seq<char>>
    decreases entries.len(),
{
    if entries.len() == 0 {
        flags
    } else {
        let e = entries.last();
        flags_after_select(flags_after_all(flags, config, entries.drop_last()), config, e.0, e.1, e.2)
    }
}

/// `after` is `before` with every entry of `entries` selected, in order.
pub open spec fn selects_applied(before: Installer, after: Installer, entries: Seq<SelectionEntry>) -> bool {
    &&& after.spec_config() == before.spec_config()
    &&& after.selection_list() == record_all(before.selection_list(), entries)
    &&& after.spec_ctx().flag_view() == flags_after_all(
        before.spec_ctx().flag_view(),
        before.spec_config(),
        entries,
    )
    &&& after.spec_ctx().file_states == before.spec_ctx().file_states
    &&& after.spec_ctx().game_version == before.spec_ctx().game_version
}


impl DeclarativeConfig {
    /// What applying this config to the installer `before`, with installer
    /// text `xml`, gives: the result `r` and the installer `after`.
    pub open spec fn apply_outcome(
        self,
        xml: Seq<char>,
        before: Installer,
        after: Installer,
        r: Result<(), DeclarativeError>,
    ) -> bool {
        if self.schema_version > SCHEMA_VERSION {
            &&& r matches Err(e)
            &&& e@ == (DeclarativeErrorView::UnsupportedVersion {
                config: self.schema_version,
                supported: SCHEMA_VERSION,
            })
            &&& after == before
        } else if self.hash@ != sri_hash(xml) {
            &&& r matches Err(e)
            &&& e@ == (DeclarativeErrorView::HashMismatch {
                expected: self.hash@,
                actual: sri_hash(xml),
            })
            &&& after == before
        } else {
            match spec_resolution(self.selections, before.spec_config()) {
                Ok(entries) => r is Ok && selects_applied(before, after, entries),
                Err(e) => {
                    &&& r matches Err(x)
                    &&& x@ == e
                    &&& after == before
                },
            }
        }
    }

    /// Apply this declarative config to an installer, resolving names to indices.
    ///
    /// `xml` is the raw FOMOD XML source, used to verify the installer hash.
    /// A newer schema version, a different hash, an unknown step, group or
    /// plugin name, or a choice that does not fit its group is an error, and
    /// then the installer is left as it was. Otherwise every group of every
    /// step is selected in order: with the named plugins where the config
    /// names the group, else with the group's defaults. A module without
    /// install steps has no step to name. With repeated step or group names a
    /// later namesake may lack a plugin that the first one has; `apply` is not
    /// called where the walk reaches such a group before any choice fails
    /// (see `resolvable`).
    pub fn apply(&self, xml: &str, installer: &mut Installer) -> (r: Result<(), DeclarativeError>)
        requires
            self.schema_version <= SCHEMA_VERSION && self.hash@ == sri_hash(xml@)
                ==> resolvable_when_valid(self.selections, old(installer).spec_config()),
        ensures
            self.apply_outcome(xml@, *old(installer), *final(installer), r),
    {
        if self.schema_version > SCHEMA_VERSION {
            return Err(
                DeclarativeError::UnsupportedVersion {
                    config: self.schema_version,
                    supported: SCHEMA_VERSION,
                },
            );
        }
        let actual_hash = hash_xml(xml);
        if !(self.hash == actual_hash) {
            return Err(DeclarativeError::HashMismatch { expected: self.hash.clone(), actual: actual_hash });
        }
        let resolved = match self.resolve_selections(installer.config()) {
            Ok(v) => v,
            Err(e) => {
                return Err(e);
            },
        };
        let ghost entries = entries_view(resolved@);
        let ghost start = *installer;
        let mut i: usize = 0;
        assert(entries.subrange(0, 0) =~= Seq::<SelectionEntry>::empty());
        while i < resolved.len()
            invariant
                i <= resolved@.len(),
                entries == entries_view(resolved@),
                selects_applied(start, *installer, entries.subrange(0, i as int)),
            decreases resolved@.len() - i,
        {
            let step = resolved[i].0;
            let group = resolved[i].1;
            let indices = crate::installer::clone_indices(&resolved[i].2);
            installer.select(step, group, indices);
            proof {
                assert(entries.subrange(0, i + 1).drop_last() =~= entries.subrange(0, i as int));
                assert(entries.subrange(0, i + 1).last() == (step, group, indices@));
            }
            i = i + 1;
        }
        assert(entries.subrange(0, i as int) =~= entries);
        Ok(())
    }
}


// ---------------------------------------------------------------------------
// Summaries and differences.
// ---------------------------------------------------------------------------

/// A single step/group selection entry for display.
#[derive(Debug, Clone, PartialEq, Eq)]
pub struct SelectionSummary {
    pub step: String,
    pub group: String,
    pub plugins: Vec<String>,
}

/// A difference between two declarative configs for a specific group.
#[derive(Debug, Clone, PartialEq, Eq)]
pub struct SelectionDiff {
    pub step: String,
    pub group: String,
    pub left: Vec<String>,
    pub right: Vec<String>,
}

/// A (step name, group name) key.
pub type GroupKey = (Seq<char>, Seq<char>);

/// Order on keys: by step name, then by group name.
pub open spec fn key_lt(a: GroupKey, b: GroupKey) -> bool {
    text_lt(a.0, b.0) || (a.0 == b.0 && text_lt(a.1, b.1))
}

/// Every (step, group) pair that `sel` has a plugin list for.
pub open spec fn pairs_of(sel: StrMap<StrMap<Vec<String>>>) -> Set<GroupKey> {
    Set::new(|k: GroupKey| chosen_names(sel, k.0, k.1) is Some)
}

/// The plugin names `sel` has for `k`, empty when it has none.
pub open spec fn lookup(sel: StrMap<StrMap<Vec<String>>>, k: GroupKey) -> Seq<Seq<char>> {
    match chosen_names(sel, k.0, k.1) {
        Some(v) => v,
        None => Seq::empty(),
    }
}

/// The keys of `keys`, as text pairs.
pub open spec fn key_views(keys: Seq<(String, String)>) -> Seq<GroupKey> {
    Seq::new(keys.len(), |i: int| (keys[i].0@, keys[i].1@))
}

/// `keys` is in strictly increasing key order.
pub open spec fn strictly_sorted(keys: Seq<GroupKey>) -> bool {
    forall|i: int, j: int| 0 <= i < j < keys.len() ==> key_lt(keys[i], keys[j])
}

/// The key of a summary entry.
pub open spec fn summary_key(x: SelectionSummary) -> GroupKey {
    (x.step@, x.group@)
}

/// The key of a difference.
pub open spec fn diff_key(x: SelectionDiff) -> GroupKey {
    (x.step@, x.group@)
}

/// `out` summarizes `sel`: one entry per (step, group) pair, in key order,
/// each with that pair's plugin names.
pub open spec fn is_summary(sel: StrMap<StrMap<Vec<String>>>, out: Seq<SelectionSummary>) -> bool {
    &&& strictly_sorted(Seq::new(out.len(), |i: int| summary_key(out[i])))
    &&& forall|i: int|
        0 <= i < out.len() ==> pairs_of(sel).contains(#[trigger] summary_key(out[i]))
            && out[i].plugins.deep_view() == lookup(sel, summary_key(out[i]))
    &&& forall|k: GroupKey|
        #[trigger] pairs_of(sel).contains(k) ==> exists|i: int|
            0 <= i < out.len() && summary_key(out[i]) == k
}

/// `out` lists the differences from `a` to `b`: in key order, one entry for
/// every (step, group) pair of either whose plugin lists differ (a missing
/// list counts as empty), with the list of each side.
pub open spec fn is_diff(
    a: StrMap<StrMap<Vec<String>>>,
    b: StrMap<StrMap<Vec<String>>>,
    out: Seq<SelectionDiff>,
) -> bool {
    &&& strictly_sorted(Seq::new(out.len(), |i: int| diff_key(out[i])))
    &&& forall|i: int|
        0 <= i < out.len() ==> (pairs_of(a).contains(#[trigger] diff_key(out[i])) || pairs_of(
            b,
        ).contains(diff_key(out[i]))) && out[i].left.deep_view() == lookup(a, diff_key(out[i]))
            && out[i].right.deep_view() == lookup(b, diff_key(out[i])) && lookup(
            a,
            diff_key(out[i]),
        ) != lookup(b, diff_key(out[i]))
    &&& forall|k: GroupKey| #[trigger] differs(a, b, k) ==> exists|i: int|
        0 <= i < out.len() && diff_key(out[i]) == k
}

/// `k` is a pair of `a` or of `b` whose plugin lists differ.
pub open spec fn differs(
    a: StrMap<StrMap<Vec<String>>>,
    b: StrMap<StrMap<Vec<String>>>,
    k: GroupKey,
) -> bool {
    (pairs_of(a).contains(k) || pairs_of(b).contains(k)) && lookup(a, k) != lookup(b, k)
}

proof fn lemma_key_lt_irreflexive(a: GroupKey)
    ensures
        !key_lt(a, a),
{
    lemma_text_lt_irreflexive(a.0);
    lemma_text_lt_irreflexive(a.1);
}

proof fn lemma_key_lt_transitive(a: GroupKey, b: GroupKey, c: GroupKey)
    requires
        key_lt(a, b),
        key_lt(b, c),
    ensures
        key_lt(a, c),
{
    if text_lt(a.0, b.0) && text_lt(b.0, c.0) {
        lemma_text_lt_transitive(a.0, b.0, c.0);
    } else if text_lt(a.0, b.0) {
    } else if text_lt(b.0, c.0) {
    } else {
        lemma_text_lt_transitive(a.1, b.1, c.1);
    }
}

proof fn lemma_key_lt_total(a: GroupKey, b: GroupKey)
    ensures
        key_lt(a, b) || key_lt(b, a) || a == b,
{
    lemma_text_lt_total(a.0, b.0);
    lemma_text_lt_total(a.1, b.1);
}

/// Whether key `a` comes before (`s`, `g`).
fn key_less(a: &(String, String), s: &String, g: &String) -> (r: bool)
    ensures
        r == key_lt((a.0@, a.1@), (s@, g@)),
{
    if text_less(a.0.as_str(), s.as_str()) {
        true
    } else if a.0 == *s {
        text_less(a.1.as_str(), g.as_str())
    } else {
        false
    }
}

/// Adds (`s`, `g`) to the strictly sorted `keys`, unless it is there already.
fn insert_key(keys: &mut Vec<(String, String)>, s: &String, g: &String)
    requires
        strictly_sorted(key_views(old(keys)@)),
    ensures
        strictly_sorted(key_views(final(keys)@)),
        key_views(final(keys)@).to_set() == key_views(old(keys)@).to_set().insert((s@, g@)),
{
    let ghost k = (s@, g@);
    let ghost before = key_views(keys@);
    let mut p: usize = 0;
    while p < keys.len() && key_less(&keys[p], s, g)
        invariant
            p <= keys@.len(),
            before == key_views(keys@),
            k == (s@, g@),
            forall|q: int| 0 <= q < p ==> key_lt(#[trigger] before[q], k),
        decreases keys@.len() - p,
    {
        p = p + 1;
    }
    if p < keys.len() && keys[p].0 == *s && keys[p].1 == *g {
        proof {
            assert(before[p as int] == k);
            assert(before.to_set().insert(k) =~= before.to_set());
        }
        return ;
    }
    proof {
        if p < keys@.len() {
            lemma_key_lt_total(before[p as int], k);
            assert(before[p as int] != k);
            assert(!key_lt(before[p as int], k));
        }
    }
    keys.insert(p, (s.clone(), g.clone()));
    proof {
        let after = key_views(keys@);
        assert(after =~= before.insert(p as int, k));
        assert forall|i: int, j: int| 0 <= i < j < after.len() implies key_lt(after[i], after[j]) by {
            if j < p {
            } else if j == p {
            } else if i < p {
                assert(after[j] == before[j - 1]);
                if j - 1 == p {
                    lemma_key_lt_transitive(after[i], k, before[p as int]);
                } else {
                    lemma_key_lt_transitive(k, before[p as int], before[j - 1]);
                    lemma_key_lt_transitive(after[i], k, before[j - 1]);
                }
            } else if i == p {
                assert(after[j] == before[j - 1]);
                if j - 1 > p {
                    lemma_key_lt_transitive(k, before[p as int], before[j - 1]);
                }
            } else {
                assert(after[i] == before[i - 1]);
                assert(after[j] == before[j - 1]);
            }
        }
        assert forall|x: GroupKey| (after.to_set().contains(x) <==> before.to_set().insert(k).contains(x)) by {
            if after.to_set().contains(x) {
                let i = choose|i: int| 0 <= i < after.len() && after[i] == x;
                if i < p {
                    assert(before[i] == x);
                } else if i > p {
                    assert(before[i - 1] == x);
                }
            }
            if before.to_set().contains(x) {
                let i = choose|i: int| 0 <= i < before.len() && before[i] == x;
                if i < p {
                    assert(after[i] == x);
                } else {
                    assert(after[i + 1] == x);
                }
            }
            if x == k {
                assert(after[p as int] == x);
            }
        }
        assert(after.to_set() =~= before.to_set().insert(k));
    }
}

/// The pairs of `sel` among its first `i` steps, plus the first `j` groups of step `i`.
spec fn pairs_walked(sel: StrMap<StrMap<Vec<String>>>, i: int, j: int) -> Set<GroupKey> {
    Set::new(
        |k: GroupKey|
            exists|a: int, b: int|
                0 <= a < sel.keys().len() && 0 <= b < sel@[sel.keys()[a]].keys().len() && (a < i || (
                a == i && b < j)) && #[trigger] pair_at(sel, a, b) == k,
    )
}

/// The pair at step position `a`, group position `b` of the walk order.
spec fn pair_at(sel: StrMap<StrMap<Vec<String>>>, a: int, b: int) -> GroupKey {
    (sel.keys()[a], sel@[sel.keys()[a]].keys()[b])
}

/// Adds every (step, group) pair of `sel` to the strictly sorted `keys`.
fn insert_all_pairs(keys: &mut Vec<(String, String)>, sel: &StrMap<StrMap<Vec<String>>>)
    requires
        strictly_sorted(key_views(old(keys)@)),
    ensures
        strictly_sorted(key_views(final(keys)@)),
        key_views(final(keys)@).to_set() == key_views(old(keys)@).to_set().union(pairs_of(*sel)),
{
    let ghost start = key_views(keys@).to_set();
    let n = sel.len();
    let mut i: usize = 0;
    assert(pairs_walked(*sel, 0, 0) =~= Set::<GroupKey>::empty());
    assert(start.union(Set::<GroupKey>::empty()) =~= start);
    while i < n
        invariant
            n == sel.keys().len(),
            i <= n,
            strictly_sorted(key_views(keys@)),
            key_views(keys@).to_set() == start.union(pairs_walked(*sel, i as int, 0)),
            forall|k: Seq<char>| #[trigger] sel@.contains_key(k) <==> sel.keys().contains(k),
        decreases n - i,
    {
        let s = sel.key_at(i);
        let inner = sel.value_at(i);
        let m = inner.len();
        let mut j: usize = 0;
        while j < m
            invariant
                n == sel.keys().len(),
                i < n,
                m == inner.keys().len(),
                *inner == sel@[sel.keys()[i as int]],
                s@ == sel.keys()[i as int],
                j <= m,
                strictly_sorted(key_views(keys@)),
                key_views(keys@).to_set() == start.union(pairs_walked(*sel, i as int, j as int)),
            decreases m - j,
        {
            let g = inner.key_at(j);
            insert_key(keys, s, g);
            proof {
                assert(pair_at(*sel, i as int, j as int) == (s@, g@));
                assert forall|x: GroupKey| pairs_walked(*sel, i as int, j + 1).contains(x) <==> pairs_walked(
                    *sel,
                    i as int,
                    j as int,
                ).insert((s@, g@)).contains(x) by {
                    if pairs_walked(*sel, i as int, j + 1).contains(x) {
                        let (a, b) = choose|a: int, b: int|
                            0 <= a < sel.keys().len() && 0 <= b < sel@[sel.keys()[a]].keys().len() && (a
                                < i || (a == i && b < j + 1)) && #[trigger] pair_at(*sel, a, b) == x;
                        if !(a == i && b == j) {
                            assert(pairs_walked(*sel, i as int, j as int).contains(x));
                        }
                    }
                    if pairs_walked(*sel, i as int, j as int).contains(x) {
                        let (a, b) = choose|a: int, b: int|
                            0 <= a < sel.keys().len() && 0 <= b < sel@[sel.keys()[a]].keys().len() && (a
                                < i || (a == i && b < j)) && #[trigger] pair_at(*sel, a, b) == x;
                        assert(pairs_walked(*sel, i as int, j + 1).contains(x));
                    }
                    if x == (s@, g@) {
                        assert(pair_at(*sel, i as int, j as int) == x);
                    }
                }
                assert(pairs_walked(*sel, i as int, j + 1) =~= pairs_walked(
                    *sel,
                    i as int,
                    j as int,
                ).insert((s@, g@)));
                assert(start.union(pairs_walked(*sel, i as int, j + 1)) =~= start.union(
                    pairs_walked(*sel, i as int, j as int),
                ).insert((s@, g@)));
            }
            j = j + 1;
        }
        proof {
            assert forall|x: GroupKey| pairs_walked(*sel, i + 1, 0).contains(x) <==> pairs_walked(
                *sel,
                i as int,
                m as int,
            ).contains(x) by {
                if pairs_walked(*sel, i + 1, 0).contains(x) {
                    let (a, b) = choose|a: int, b: int|
                        0 <= a < sel.keys().len() && 0 <= b < sel@[sel.keys()[a]].keys().len() && (a < i
                            + 1 || (a == i + 1 && b < 0)) && #[trigger] pair_at(*sel, a, b) == x;
                    assert(pairs_walked(*sel, i as int, m as int).contains(x));
                }
                if pairs_walked(*sel, i as int, m as int).contains(x) {
                    let (a, b) = choose|a: int, b: int|
                        0 <= a < sel.keys().len() && 0 <= b < sel@[sel.keys()[a]].keys().len() && (a < i
                            || (a == i && b < m)) && #[trigger] pair_at(*sel, a, b) == x;
                    assert(pairs_walked(*sel, i + 1, 0).contains(x));
                }
            }
            assert(pairs_walked(*sel, i + 1, 0) =~= pairs_walked(*sel, i as int, m as int));
        }
        i = i + 1;
    }
    proof {
        assert forall|x: GroupKey| pairs_walked(*sel, n as int, 0).contains(x) <==> pairs_of(*sel).contains(
            x,
        ) by {
            if pairs_walked(*sel, n as int, 0).contains(x) {
                let (a, b) = choose|a: int, b: int|
                    0 <= a < sel.keys().len() && 0 <= b < sel@[sel.keys()[a]].keys().len() && (a < n || (
                    a == n && b < 0)) && #[trigger] pair_at(*sel, a, b) == x;
                let inner = sel@[sel.keys()[a]];
                lemma_keys_dom(*sel);
                lemma_keys_dom(inner);
                assert(sel.keys().contains(sel.keys()[a]));
                assert(inner.keys().contains(inner.keys()[b]));
            }
            if pairs_of(*sel).contains(x) {
                lemma_keys_dom(*sel);
                assert(sel.keys().contains(x.0));
                let a = choose|a: int| 0 <= a < sel.keys().len() && sel.keys()[a] == x.0;
                let inner = sel@[x.0];
                lemma_keys_dom(inner);
                assert(inner.keys().contains(x.1));
                let b = choose|b: int| 0 <= b < inner.keys().len() && inner.keys()[b] == x.1;
                assert(pair_at(*sel, a, b) == x);
            }
        }
        assert(pairs_walked(*sel, n as int, 0) =~= pairs_of(*sel));
    }
}


/// A copy of the plugin names `sel` has for (`s`, `g`), empty when it has none.
fn lookup_names(sel: &StrMap<StrMap<Vec<String>>>, s: &String, g: &String) -> (r: Vec<String>)
    ensures
        r.deep_view() == lookup(*sel, (s@, g@)),
{
    match sel.get(s.as_str()) {
        Some(inner) => match inner.get(g.as_str()) {
            Some(v) => copy_texts(v),
            None => {
                let r: Vec<String> = Vec::new();
                assert(r.deep_view() =~= Seq::<Seq<char>>::empty());
                r
            },
        },
        None => {
            let r: Vec<String> = Vec::new();
            assert(r.deep_view() =~= Seq::<Seq<char>>::empty());
            r
        },
    }
}

/// The message of a summary entry: `step > group: [plugin, plugin]`.
pub open spec fn summary_text(x: SelectionSummary) -> Seq<char> {
    x.step@ + " > "@ + x.group@ + ": ["@ + joined(x.plugins.deep_view(), ", "@) + "]"@
}

impl SelectionSummary {
    /// The entry as `step > group: [plugin, plugin]`.
    pub fn to_string(&self) -> (s: String)
        ensures
            s@ == summary_text(*self),
    {
        let mut s = self.step.clone();
        s.append(" > ");
        s.append(self.group.as_str());
        s.append(": [");
        push_joined(&mut s, &self.plugins, ", ");
        s.append("]");
        s
    }
}

impl DeclarativeConfig {
    /// Generate a human-readable summary of all selections: one entry per
    /// (step, group) pair, ordered by step name, then group name.
    #[verifier::spinoff_prover]
    pub fn summary(&self) -> (out: Vec<SelectionSummary>)
        ensures
            is_summary(self.selections, out@),
    {
        let mut keys: Vec<(String, String)> = Vec::new();
        assert(key_views(keys@) =~= Seq::<GroupKey>::empty());
        insert_all_pairs(&mut keys, &self.selections);
        assert(Seq::<GroupKey>::empty().to_set() =~= Set::<GroupKey>::empty());
        assert(Set::<GroupKey>::empty().union(pairs_of(self.selections)) =~= pairs_of(self.selections));
        let ghost kv = key_views(keys@);
        let mut out: Vec<SelectionSummary> = Vec::new();
        let mut i: usize = 0;
        while i < keys.len()
            invariant
                kv == key_views(keys@),
                kv.to_set() == pairs_of(self.selections),
                i <= keys@.len(),
                out@.len() == i,
                forall|q: int|
                    0 <= q < i ==> #[trigger] summary_key(out@[q]) == kv[q] && out@[q].plugins.deep_view()
                        == lookup(self.selections, kv[q]),
            decreases keys@.len() - i,
        {
            let plugins = lookup_names(&self.selections, &keys[i].0, &keys[i].1);
            out.push(
                SelectionSummary {
                    step: keys[i].0.clone(),
                    group: keys[i].1.clone(),
                    plugins,
                },
            );
            i = i + 1;
        }
        proof {
            let ks = Seq::new(out@.len(), |q: int| summary_key(out@[q]));
            assert(ks =~= kv);
            assert forall|q: int| 0 <= q < out@.len() implies pairs_of(self.selections).contains(
                #[trigger] summary_key(out@[q]),
            ) && out@[q].plugins.deep_view() == lookup(self.selections, summary_key(out@[q])) by {
                assert(kv.to_set().contains(kv[q]));
            }
            assert forall|k: GroupKey| #[trigger] pairs_of(self.selections).contains(k) implies exists|q: int|
                0 <= q < out@.len() && summary_key(out@[q]) == k by {
                assert(kv.to_set().contains(k));
                let q = choose|q: int| 0 <= q < kv.len() && kv[q] == k;
                assert(summary_key(out@[q]) == k);
            }
        }
        out
    }

    /// Compute the differences between this config and another.
    pub fn diff(&self, other: &DeclarativeConfig) -> (out: Vec<SelectionDiff>)
        ensures
            is_diff(self.selections, other.selections, out@),
    {
        let mut keys: Vec<(String, String)> = Vec::new();
        assert(key_views(keys@) =~= Seq::<GroupKey>::empty());
        insert_all_pairs(&mut keys, &self.selections);
        insert_all_pairs(&mut keys, &other.selections);
        let ghost both = pairs_of(self.selections).union(pairs_of(other.selections));
        assert(Seq::<GroupKey>::empty().to_set() =~= Set::<GroupKey>::empty());
        assert(Set::<GroupKey>::empty().union(pairs_of(self.selections)).union(
            pairs_of(other.selections),
        ) =~= both);
        let ghost kv = key_views(keys@);
        let mut out: Vec<SelectionDiff> = Vec::new();
        let ghost mut picked: Seq<int> = Seq::empty();
        let mut i: usize = 0;
        while i < keys.len()
            invariant
                kv == key_views(keys@),
                kv.to_set() == both,
                strictly_sorted(kv),
                both == pairs_of(self.selections).union(pairs_of(other.selections)),
                i <= keys@.len(),
                picked.len() == out@.len(),
                forall|q: int| 0 <= q < picked.len() ==> 0 <= #[trigger] picked[q] < i,
                forall|q: int, r: int| 0 <= q < r < picked.len() ==> picked[q] < picked[r],
                forall|q: int|
                    0 <= q < out@.len() ==> #[trigger] diff_key(out@[q]) == kv[picked[q]]
                        && out@[q].left.deep_view() == lookup(self.selections, kv[picked[q]])
                        && out@[q].right.deep_view() == lookup(other.selections, kv[picked[q]])
                        && lookup(self.selections, kv[picked[q]]) != lookup(
                        other.selections,
                        kv[picked[q]],
                    ),
                forall|x: int|
                    0 <= x < i && lookup(self.selections, #[trigger] kv[x]) != lookup(
                        other.selections,
                        kv[x],
                    ) ==> exists|q: int| 0 <= q < picked.len() && picked[q] == x,
            decreases keys@.len() - i,
        {
            let left = lookup_names(&self.selections, &keys[i].0, &keys[i].1);
            let right = lookup_names(&other.selections, &keys[i].0, &keys[i].1);
            let ghost before = picked;
            if !texts_equal(&left, &right) {
                out.push(
                    SelectionDiff {
                        step: keys[i].0.clone(),
                        group: keys[i].1.clone(),
                        left,
                        right,
                    },
                );
                proof {
                    picked = picked.push(i as int);
                    assert forall|x: int|
                        0 <= x < i + 1 && lookup(self.selections, #[trigger] kv[x]) != lookup(
                            other.selections,
                            kv[x],
                        ) implies exists|q: int| 0 <= q < picked.len() && picked[q] == x by {
                        if x == i {
                            assert(picked[before.len() as int] == x);
                        } else {
                            let q = choose|q: int| 0 <= q < before.len() && before[q] == x;
                            assert(picked[q] == x);
                        }
                    }
                }
            }
            i = i + 1;
        }
        proof {
            let ks = Seq::new(out@.len(), |q: int| diff_key(out@[q]));
            assert forall|q: int, r: int| 0 <= q < r < ks.len() implies key_lt(ks[q], ks[r]) by {
                assert(ks[q] == kv[picked[q]]);
                assert(ks[r] == kv[picked[r]]);
            }
            assert forall|q: int| 0 <= q < out@.len() implies (pairs_of(self.selections).contains(
                #[trigger] diff_key(out@[q]),
            ) || pairs_of(other.selections).contains(diff_key(out@[q]))) by {
                assert(kv.to_set().contains(kv[picked[q]]));
            }
            assert forall|k: GroupKey| #[trigger] differs(self.selections, other.selections, k) implies exists|q: int|
                0 <= q < out@.len() && diff_key(out@[q]) == k by {
                assert(both.contains(k));
                assert(kv.to_set().contains(k));
                let x = choose|x: int| 0 <= x < kv.len() && kv[x] == k;
                let q = choose|q: int| 0 <= q < picked.len() && picked[q] == x;
                assert(diff_key(out@[q]) == k);
            }
        }
        out
    }
}


/// A config shows no difference from itself.
pub proof fn lemma_diff_with_itself(a: StrMap<StrMap<Vec<String>>>, d: Seq<SelectionDiff>)
    requires
        is_diff(a, a, d),
    ensures
        d.len() == 0,
{
    if d.len() > 0 {
        let k = diff_key(d[0]);
        assert(pairs_of(a).contains(k) || pairs_of(a).contains(k));
    }
}

proof fn lemma_sorted_unique(x: Seq<GroupKey>, y: Seq<GroupKey>)
    requires
        strictly_sorted(x),
        strictly_sorted(y),
        forall|k: GroupKey| x.contains(k) <==> y.contains(k),
    ensures
        x == y,
    decreases x.len(),
{
    if x.len() == 0 {
        if y.len() > 0 {
            assert(y.contains(y[0]));
        }
        assert(x =~= y);
    } else {
        assert(x.contains(x[0]));
        assert(y.contains(x[0]));
        assert(y.len() > 0);
        assert(y.contains(y[0]));
        assert(x.contains(y[0]));
        let i = choose|i: int| 0 <= i < y.len() && y[i] == x[0];
        let j = choose|j: int| 0 <= j < x.len() && x[j] == y[0];
        if x[0] != y[0] {
            assert(i > 0 && j > 0);
            lemma_key_lt_transitive(x[0], x[j], x[0]);
            lemma_key_lt_irreflexive(x[0]);
        }
        let x1 = x.drop_first();
        let y1 = y.drop_first();
        assert forall|k: GroupKey| x1.contains(k) <==> y1.contains(k) by {
            if x1.contains(k) {
                let a = choose|a: int| 0 <= a < x1.len() && x1[a] == k;
                assert(x[a + 1] == k);
                assert(key_lt(x[0], k));
                assert(y.contains(k));
                let b = choose|b: int| 0 <= b < y.len() && y[b] == k;
                if b == 0 {
                    lemma_key_lt_irreflexive(k);
                }
                assert(y1[b - 1] == k);
            }
            if y1.contains(k) {
                let a = choose|a: int| 0 <= a < y1.len() && y1[a] == k;
                assert(y[a + 1] == k);
                assert(key_lt(y[0], k));
                assert(x.contains(k));
                let b = choose|b: int| 0 <= b < x.len() && x[b] == k;
                if b == 0 {
                    lemma_key_lt_irreflexive(k);
                }
                assert(x1[b - 1] == k);
            }
        }
        lemma_sorted_unique(x1, y1);
        assert(x =~= seq![x[0]] + x1);
        assert(y =~= seq![y[0]] + y1);
    }
}

/// The differences from `b` to `a` are those from `a` to `b` with the two
/// sides swapped.
pub proof fn lemma_diff_mirror(
    a: StrMap<StrMap<Vec<String>>>,
    b: StrMap<StrMap<Vec<String>>>,
    d: Seq<SelectionDiff>,
    e: Seq<SelectionDiff>,
)
    requires
        is_diff(a, b, d),
        is_diff(b, a, e),
    ensures
        e.len() == d.len(),
        forall|i: int|
            0 <= i < d.len() ==> diff_key(#[trigger] e[i]) == diff_key(d[i])
                && e[i].left.deep_view() == d[i].right.deep_view() && e[i].right.deep_view()
                == d[i].left.deep_view(),
{
    let dk = Seq::new(d.len(), |i: int| diff_key(d[i]));
    let ek = Seq::new(e.len(), |i: int| diff_key(e[i]));
    assert forall|k: GroupKey| dk.contains(k) <==> ek.contains(k) by {
        if dk.contains(k) {
            let i = choose|i: int| 0 <= i < dk.len() && dk[i] == k;
            assert(diff_key(d[i]) == k);
            assert(pairs_of(a).contains(diff_key(d[i])) || pairs_of(b).contains(diff_key(d[i])));
            assert(differs(b, a, k));
            let j = choose|j: int| 0 <= j < e.len() && diff_key(e[j]) == k;
            assert(ek[j] == k);
        }
        if ek.contains(k) {
            let i = choose|i: int| 0 <= i < ek.len() && ek[i] == k;
            assert(diff_key(e[i]) == k);
            assert(pairs_of(b).contains(diff_key(e[i])) || pairs_of(a).contains(diff_key(e[i])));
            assert(differs(a, b, k));
            let j = choose|j: int| 0 <= j < d.len() && diff_key(d[j]) == k;
            assert(dk[j] == k);
        }
    }
    lemma_sorted_unique(dk, ek);
    assert forall|i: int| 0 <= i < d.len() implies diff_key(#[trigger] e[i]) == diff_key(d[i])
        && e[i].left.deep_view() == d[i].right.deep_view() && e[i].right.deep_view()
        == d[i].left.deep_view() by {
        assert(dk[i] == ek[i]);
        assert(pairs_of(a).contains(diff_key(d[i])) || pairs_of(b).contains(diff_key(d[i])));
        assert(pairs_of(b).contains(diff_key(e[i])) || pairs_of(a).contains(diff_key(e[i])));
    }
}


// ---------------------------------------------------------------------------
// Templates resolve back to what they were made from.
// ---------------------------------------------------------------------------

/// Step names are distinct, and so are the group names within each step.
pub open spec fn names_distinct(steps: Seq<InstallStep>) -> bool {
    &&& step_names(steps).no_duplicates()
    &&& forall|i: int|
        0 <= i < steps.len() ==> #[trigger] group_names(groups_of(steps[i])).no_duplicates()
}

/// Plugin names are distinct within each group.
pub open spec fn plugin_names_distinct(steps: Seq<InstallStep>) -> bool {
    forall|i: int, g: int|
        0 <= i < steps.len() && 0 <= g < groups_of(steps[i]).len() ==> #[trigger] name_list(
            groups_of(steps[i])[g].plugins.plugins@,
        ).no_duplicates()
}

/// The default selection of every group fits the group.
pub open spec fn defaults_fit(steps: Seq<InstallStep>) -> bool {
    forall|i: int, g: int|
        0 <= i < steps.len() && 0 <= g < groups_of(steps[i]).len() ==> selection_fits(
            #[trigger] groups_of(steps[i])[g],
            spec_default_selections(groups_of(steps[i])[g]),
        )
}

/// The default selection of each of `groups`, for step `si`.
pub open spec fn default_group_entries(si: usize, groups: Seq<Group>) -> Seq<SelectionEntry>
    decreases groups.len(),
{
    if groups.len() == 0 {
        Seq::empty()
    } else {
        default_group_entries(si, groups.drop_last()).push(
            (si, (groups.len() - 1) as usize, spec_default_selections(groups.last())),
        )
    }
}

/// The default selection of every group of every step, in order.
pub open spec fn default_entries(steps: Seq<InstallStep>) -> Seq<SelectionEntry>
    decreases steps.len(),
{
    if steps.len() == 0 {
        Seq::empty()
    } else {
        default_entries(steps.drop_last()) + default_group_entries(
            (steps.len() - 1) as usize,
            groups_of(steps.last()),
        )
    }
}

proof fn lemma_template_steps_at(steps: Seq<InstallStep>, include_all: bool, k: Seq<char>)
    ensures
        template_steps(steps, include_all).contains_key(k) <==> step_names(steps).contains(k),
        step_names(steps).no_duplicates() && step_names(steps).contains(k) ==> template_steps(
            steps,
            include_all,
        )[k] == template_groups(
            groups_of(steps[first_index(step_names(steps), k)]),
            include_all,
        ),
    decreases steps.len(),
{
    if steps.len() > 0 {
        let pre = steps.drop_last();
        lemma_template_steps_at(pre, include_all, k);
        assert(step_names(pre) =~= step_names(steps).drop_last());
        if step_names(steps).contains(k) && k != steps.last().name@ {
            let i = choose|i: int| 0 <= i < steps.len() && step_names(steps)[i] == k;
            assert(step_names(pre)[i] == k);
        }
        if step_names(pre).contains(k) {
            let i = choose|i: int| 0 <= i < pre.len() && step_names(pre)[i] == k;
            assert(step_names(steps)[i] == k);
        }
        if k == steps.last().name@ {
            assert(step_names(steps)[steps.len() - 1] == k);
        }
        if step_names(steps).no_duplicates() && step_names(steps).contains(k) {
            lemma_first_index(step_names(steps), k);
            let f = first_index(step_names(steps), k);
            if k == steps.last().name@ {
                assert(f == steps.len() - 1);
            } else {
                assert(f < steps.len() - 1);
                assert(step_names(pre).no_duplicates());
                assert(step_names(pre).contains(k));
                lemma_first_index(step_names(pre), k);
                let f2 = first_index(step_names(pre), k);
                assert(step_names(steps)[f2] == k);
                assert(f2 == f);
            }
        }
    }
}

proof fn lemma_template_groups_at(groups: Seq<Group>, include_all: bool, k: Seq<char>)
    ensures
        template_groups(groups, include_all).contains_key(k) <==> group_names(groups).contains(k),
        group_names(groups).no_duplicates() && group_names(groups).contains(k) ==> template_groups(
            groups,
            include_all,
        )[k] == template_names(groups[first_index(group_names(groups), k)], include_all),
    decreases groups.len(),
{
    if groups.len() > 0 {
        let pre = groups.drop_last();
        lemma_template_groups_at(pre, include_all, k);
        assert(group_names(pre) =~= group_names(groups).drop_last());
        if group_names(groups).contains(k) && k != groups.last().name@ {
            let i = choose|i: int| 0 <= i < groups.len() && group_names(groups)[i] == k;
            assert(group_names(pre)[i] == k);
        }
        if group_names(pre).contains(k) {
            let i = choose|i: int| 0 <= i < pre.len() && group_names(pre)[i] == k;
            assert(group_names(groups)[i] == k);
        }
        if k == groups.last().name@ {
            assert(group_names(groups)[groups.len() - 1] == k);
        }
        if group_names(groups).no_duplicates() && group_names(groups).contains(k) {
            lemma_first_index(group_names(groups), k);
            let f = first_index(group_names(groups), k);
            if k == groups.last().name@ {
                assert(f == groups.len() - 1);
            } else {
                assert(f < groups.len() - 1);
                assert(group_names(pre).contains(k));
                lemma_first_index(group_names(pre), k);
                let f2 = first_index(group_names(pre), k);
                assert(group_names(groups)[f2] == k);
                assert(f2 == f);
            }
        }
    }
}

proof fn lemma_names_at_are_names(plugins: Seq<Plugin>, indices: Seq<usize>, k: int)
    requires
        0 <= k < names_at(plugins, indices).len(),
    ensures
        name_list(plugins).contains(names_at(plugins, indices)[k]),
    decreases indices.len(),
{
    let rest = names_at(plugins, indices.drop_last());
    if k < rest.len() {
        lemma_names_at_are_names(plugins, indices.drop_last(), k);
    } else {
        let i = indices.last() as int;
        assert(name_list(plugins)[i] == plugins[i].name@);
    }
}

proof fn lemma_template_names_are_names(group: Group, include_all: bool, k: int)
    requires
        0 <= k < template_names(group, include_all).len(),
    ensures
        name_list(group.plugins.plugins@).contains(template_names(group, include_all)[k]),
{
    if include_all {
        assert(name_list(group.plugins.plugins@)[k] == template_names(group, include_all)[k]);
    } else {
        lemma_names_at_are_names(group.plugins.plugins@, spec_default_selections(group), k);
    }
}

proof fn lemma_no_fault_in_names(plugins: Seq<Plugin>, step: Seq<char>, group: Seq<char>, names: Seq<Seq<char>>)
    requires
        forall|k: int| 0 <= k < names.len() ==> name_list(plugins).contains(#[trigger] names[k]),
    ensures
        fault_in_names(plugins, step, group, names) is None,
    decreases names.len(),
{
    reveal(fault_in_names);
    if names.len() > 0 {
        assert(name_list(plugins).contains(names[names.len() - 1]));
        lemma_no_fault_in_names(plugins, step, group, names.drop_last());
    }
}

/// The step of `steps` named `name`, when names are distinct.
proof fn lemma_named_step(steps: Seq<InstallStep>, i: int)
    requires
        step_names(steps).no_duplicates(),
        0 <= i < steps.len(),
    ensures
        step_names(steps).contains(steps[i].name@),
        first_index(step_names(steps), steps[i].name@) == i,
{
    assert(step_names(steps)[i] == steps[i].name@);
    assert(absent_before(step_names(steps), i, steps[i].name@));
    lemma_first_index_is(step_names(steps), steps[i].name@, i);
}

proof fn lemma_named_group(groups: Seq<Group>, i: int)
    requires
        group_names(groups).no_duplicates(),
        0 <= i < groups.len(),
    ensures
        group_names(groups).contains(groups[i].name@),
        first_index(group_names(groups), groups[i].name@) == i,
{
    assert(group_names(groups)[i] == groups[i].name@);
    assert(absent_before(group_names(groups), i, groups[i].name@));
    lemma_first_index_is(group_names(groups), groups[i].name@, i);
}

proof fn lemma_template_inner(
    sel: StrMap<StrMap<Vec<String>>>,
    steps: Seq<InstallStep>,
    include_all: bool,
    s: Seq<char>,
)
    requires
        selections_view(sel) == template_steps(steps, include_all),
        names_distinct(steps),
        sel@.contains_key(s),
    ensures
        step_names(steps).contains(s),
        0 <= first_index(step_names(steps), s) < steps.len(),
        steps[first_index(step_names(steps), s)].name@ == s,
        sel@[s]@.map_values(|v: Vec<String>| v.deep_view()) == template_groups(
            groups_of(steps[first_index(step_names(steps), s)]),
            include_all,
        ),
{
    assert(selections_view(sel).contains_key(s));
    lemma_template_steps_at(steps, include_all, s);
    lemma_first_index(step_names(steps), s);
}

proof fn lemma_no_fault_in_groups(
    sel: StrMap<StrMap<Vec<String>>>,
    steps: Seq<InstallStep>,
    include_all: bool,
    s: Seq<char>,
    n: int,
)
    requires
        selections_view(sel) == template_steps(steps, include_all),
        names_distinct(steps),
        sel@.contains_key(s),
        0 <= n <= sel@[s].keys().len(),
    ensures
        fault_in_groups(
            groups_of(steps[first_index(step_names(steps), s)]),
            s,
            sel@[s],
            n,
        ) is None,
    decreases n,
{
    reveal(fault_in_groups);
    if n > 0 {
        lemma_no_fault_in_groups(sel, steps, include_all, s, n - 1);
        lemma_template_inner(sel, steps, include_all, s);
        let f = first_index(step_names(steps), s);
        let groups = groups_of(steps[f]);
        let inner = sel@[s];
        let g = inner.keys()[n - 1];
        lemma_keys_dom(inner);
        assert(inner.keys().contains(g));
        assert(inner@.map_values(|v: Vec<String>| v.deep_view()).contains_key(g));
        lemma_template_groups_at(groups, include_all, g);
        assert(group_names(groups).no_duplicates());
        lemma_first_index(group_names(groups), g);
        let gf = first_index(group_names(groups), g);
        let names = inner@[g].deep_view();
        assert(names == template_names(groups[gf], include_all));
        assert forall|k: int| 0 <= k < names.len() implies name_list(
            groups[gf].plugins.plugins@,
        ).contains(#[trigger] names[k]) by {
            lemma_template_names_are_names(groups[gf], include_all, k);
        }
        lemma_no_fault_in_names(groups[gf].plugins.plugins@, s, g, names);
    }
}

proof fn lemma_no_fault_in_steps(
    sel: StrMap<StrMap<Vec<String>>>,
    steps: Seq<InstallStep>,
    include_all: bool,
    n: int,
)
    requires
        selections_view(sel) == template_steps(steps, include_all),
        names_distinct(steps),
        0 <= n <= sel.keys().len(),
    ensures
        fault_in_steps(steps, sel, n) is None,
    decreases n,
{
    reveal(fault_in_steps);
    if n > 0 {
        lemma_no_fault_in_steps(sel, steps, include_all, n - 1);
        let s = sel.keys()[n - 1];
        lemma_keys_dom(sel);
        assert(sel.keys().contains(s));
        lemma_template_inner(sel, steps, include_all, s);
        lemma_no_fault_in_groups(sel, steps, include_all, s, sel@[s].keys().len() as int);
    }
}

proof fn lemma_template_chosen(
    sel: StrMap<StrMap<Vec<String>>>,
    steps: Seq<InstallStep>,
    include_all: bool,
    si: int,
    gi: int,
)
    requires
        selections_view(sel) == template_steps(steps, include_all),
        names_distinct(steps),
        0 <= si < steps.len(),
        0 <= gi < groups_of(steps[si]).len(),
    ensures
        chosen_names(sel, steps[si].name@, groups_of(steps[si])[gi].name@) == Some(
            template_names(groups_of(steps[si])[gi], include_all),
        ),
{
    let step = steps[si];
    let groups = groups_of(step);
    let group = groups[gi];
    lemma_named_step(steps, si);
    lemma_template_steps_at(steps, include_all, step.name@);
    assert(selections_view(sel).contains_key(step.name@));
    assert(sel@.contains_key(step.name@));
    let inner = sel@[step.name@];
    assert(inner@.map_values(|v: Vec<String>| v.deep_view()) == template_groups(groups, include_all));
    assert(group_names(groups).no_duplicates());
    lemma_named_group(groups, gi);
    lemma_template_groups_at(groups, include_all, group.name@);
    assert(inner@.map_values(|v: Vec<String>| v.deep_view()).contains_key(group.name@));
    assert(inner@.contains_key(group.name@));
}

/// Every name in a template for `config` (defaults or all plugins) is found
/// again in `config`, when its step names, and the group names within each
/// step, are distinct.
pub proof fn lemma_template_names_resolve(
    sel: StrMap<StrMap<Vec<String>>>,
    config: ModuleConfig,
    include_all: bool,
)
    requires
        selections_view(sel) == template(config, include_all),
        names_distinct(steps_of(config)),
    ensures
        name_fault(sel, steps_of(config)) is None,
        names_resolvable(sel, steps_of(config)),
        resolvable_when_valid(sel, config),
{
    let steps = steps_of(config);
    lemma_no_fault_in_steps(sel, steps, include_all, sel.keys().len() as int);
    assert forall|si: int, gi: int|
        0 <= si < steps.len() && 0 <= gi < groups_of(steps[si]).len() implies #[trigger] names_found(
        sel,
        steps[si],
        groups_of(steps[si])[gi],
    ) by {
        lemma_template_chosen(sel, steps, include_all, si, gi);
        let group = groups_of(steps[si])[gi];
        let names = template_names(group, include_all);
        assert forall|k: int| 0 <= k < names.len() implies name_list(group.plugins.plugins@).contains(
            #[trigger] names[k],
        ) by {
            lemma_template_names_are_names(group, include_all, k);
        }
    }
    lemma_resolvable_not_stuck(sel, steps);
}


proof fn lemma_names_at_in_bounds(plugins: Seq<Plugin>, indices: Seq<usize>)
    requires
        forall|k: int| 0 <= k < indices.len() ==> #[trigger] indices[k] < plugins.len(),
    ensures
        names_at(plugins, indices) == Seq::new(
            indices.len(),
            |k: int| plugins[indices[k] as int].name@,
        ),
    decreases indices.len(),
{
    if indices.len() > 0 {
        let pre = indices.drop_last();
        assert forall|k: int| 0 <= k < pre.len() implies #[trigger] pre[k] < plugins.len() by {
            assert(pre[k] == indices[k]);
        }
        lemma_names_at_in_bounds(plugins, pre);
        assert(indices[indices.len() - 1] < plugins.len());
        assert(names_at(plugins, indices) =~= Seq::new(
            indices.len(),
            |k: int| plugins[indices[k] as int].name@,
        ));
    } else {
        assert(names_at(plugins, indices) =~= Seq::new(
            indices.len(),
            |k: int| plugins[indices[k] as int].name@,
        ));
    }
}

/// The plugin names at in-bounds `indices` lead back to `indices`, when
/// plugin names are distinct.
/// The names a defaults template lists for a group are a subsequence of the
/// names an all-plugins template lists: the names at the increasing
/// positions of the group's default selection.
pub proof fn lemma_defaults_within_all(group: Group)
    requires
        group.plugins.plugins@.len() <= usize::MAX,
    ensures
        forall|k: int, l: int|
            0 <= k < l < spec_default_selections(group).len() ==> spec_default_selections(group)[k]
                < spec_default_selections(group)[l],
        forall|k: int|
            0 <= k < spec_default_selections(group).len() ==> #[trigger] spec_default_selections(group)[k]
                < template_names(group, true).len(),
        template_names(group, false) == Seq::new(
            spec_default_selections(group).len(),
            |k: int| template_names(group, true)[spec_default_selections(group)[k] as int],
        ),
{
    let d = spec_default_selections(group);
    let plugins = group.plugins.plugins@;
    lemma_default_selection_increasing(group);
    lemma_names_at_in_bounds(plugins, d);
    assert(template_names(group, false) =~= Seq::new(
        d.len(),
        |k: int| template_names(group, true)[d[k] as int],
    ));
}

/// With distinct step names, and distinct group names within each step, a
/// template has one key per step name, each step maps exactly its group
/// names, and each group maps the names that the template lists for it
/// (every plugin's name, or the names of the group's default selection).
pub proof fn lemma_template_entries(config: ModuleConfig, include_all: bool)
    requires
        names_distinct(steps_of(config)),
    ensures
        forall|k: Seq<char>|
            #[trigger] template(config, include_all).contains_key(k) <==> step_names(
                steps_of(config),
            ).contains(k),
        forall|i: int, k: Seq<char>|
            0 <= i < steps_of(config).len() ==> (#[trigger] template(config, include_all)[steps_of(
                config,
            )[i].name@].contains_key(k) <==> group_names(groups_of(steps_of(config)[i])).contains(k)),
        forall|i: int, g: int|
            0 <= i < steps_of(config).len() && 0 <= g < groups_of(steps_of(config)[i]).len()
                ==> #[trigger] template(config, include_all)[steps_of(config)[i].name@][groups_of(
                steps_of(config)[i],
            )[g].name@] == template_names(groups_of(steps_of(config)[i])[g], include_all),
{
    let steps = steps_of(config);
    assert forall|k: Seq<char>|
        #[trigger] template(config, include_all).contains_key(k) <==> step_names(steps).contains(k) by {
        lemma_template_steps_at(steps, include_all, k);
    }
    assert forall|i: int, k: Seq<char>|
        0 <= i < steps.len() implies (#[trigger] template(config, include_all)[steps[i].name@].contains_key(k)
        <==> group_names(groups_of(steps[i])).contains(k)) by {
        lemma_named_step(steps, i);
        lemma_template_steps_at(steps, include_all, steps[i].name@);
        lemma_template_groups_at(groups_of(steps[i]), include_all, k);
    }
    assert forall|i: int, g: int|
        0 <= i < steps.len() && 0 <= g < groups_of(steps[i]).len() implies #[trigger] template(
        config,
        include_all,
    )[steps[i].name@][groups_of(steps[i])[g].name@] == template_names(groups_of(steps[i])[g], include_all) by {
        let groups = groups_of(steps[i]);
        lemma_named_step(steps, i);
        lemma_template_steps_at(steps, include_all, steps[i].name@);
        assert(group_names(groups).no_duplicates());
        lemma_named_group(groups, g);
        lemma_template_groups_at(groups, include_all, groups[g].name@);
    }
}

proof fn lemma_positions_of_names(plugins: Seq<Plugin>, indices: Seq<usize>)
    requires
        forall|k: int| 0 <= k < indices.len() ==> #[trigger] indices[k] < plugins.len(),
        name_list(plugins).no_duplicates(),
    ensures
        positions(plugins, names_at(plugins, indices)) == indices,
{
    lemma_names_at_in_bounds(plugins, indices);
    let names = names_at(plugins, indices);
    assert forall|k: int| 0 <= k < indices.len() implies #[trigger] positions(plugins, names)[k]
        == indices[k] by {
        let i = indices[k] as int;
        assert(names[k] == plugins[i].name@);
        assert(name_list(plugins)[i] == names[k]);
        assert(absent_before(name_list(plugins), i, names[k]));
        lemma_first_index_is(name_list(plugins), names[k], i);
    }
    assert(positions(plugins, names) =~= indices);
}

proof fn lemma_group_defaults(
    sel: StrMap<StrMap<Vec<String>>>,
    steps: Seq<InstallStep>,
    si: int,
    gi: int,
)
    requires
        selections_view(sel) == template_steps(steps, false),
        names_distinct(steps),
        plugin_names_distinct(steps),
        defaults_fit(steps),
        0 <= si < steps.len(),
        0 <= gi < groups_of(steps[si]).len(),
    ensures
        group_resolution(sel, steps[si], si as usize, groups_of(steps[si])[gi], gi as usize) == Ok::<
            SelectionEntry,
            DeclarativeErrorView,
        >((si as usize, gi as usize, spec_default_selections(groups_of(steps[si])[gi]))),
{
    let group = groups_of(steps[si])[gi];
    let d = spec_default_selections(group);
    let plugins = group.plugins.plugins@;
    lemma_template_chosen(sel, steps, false, si, gi);
    assert(selection_fits(group, d));
    assert forall|k: int| 0 <= k < d.len() implies #[trigger] d[k] < plugins.len() by {
        if d[k] >= plugins.len() {
            assert(some_out_of_bounds(d, plugins.len()));
        }
    }
    assert(name_list(plugins).no_duplicates());
    lemma_positions_of_names(plugins, d);
}

proof fn lemma_groups_defaults(
    sel: StrMap<StrMap<Vec<String>>>,
    steps: Seq<InstallStep>,
    si: int,
    n: int,
)
    requires
        selections_view(sel) == template_steps(steps, false),
        names_distinct(steps),
        plugin_names_distinct(steps),
        defaults_fit(steps),
        0 <= si < steps.len(),
        0 <= n <= groups_of(steps[si]).len(),
    ensures
        groups_resolution(sel, steps[si], si as usize, groups_of(steps[si]).subrange(0, n)) == Ok::<
            Seq<SelectionEntry>,
            DeclarativeErrorView,
        >(default_group_entries(si as usize, groups_of(steps[si]).subrange(0, n))),
    decreases n,
{
    let groups = groups_of(steps[si]);
    if n > 0 {
        lemma_groups_defaults(sel, steps, si, n - 1);
        assert(groups.subrange(0, n).drop_last() =~= groups.subrange(0, n - 1));
        lemma_group_defaults(sel, steps, si, n - 1);
    }
}

proof fn lemma_steps_defaults(sel: StrMap<StrMap<Vec<String>>>, steps: Seq<InstallStep>, n: int)
    requires
        selections_view(sel) == template_steps(steps, false),
        names_distinct(steps),
        plugin_names_distinct(steps),
        defaults_fit(steps),
        0 <= n <= steps.len(),
    ensures
        steps_resolution(sel, steps.subrange(0, n)) == Ok::<Seq<SelectionEntry>, DeclarativeErrorView>(
            default_entries(steps.subrange(0, n)),
        ),
    decreases n,
{
    if n > 0 {
        lemma_steps_defaults(sel, steps, n - 1);
        assert(steps.subrange(0, n).drop_last() =~= steps.subrange(0, n - 1));
        let groups = groups_of(steps[n - 1]);
        lemma_groups_defaults(sel, steps, n - 1, groups.len() as int);
        assert(groups.subrange(0, groups.len() as int) =~= groups);
    }
}

/// Applying a defaults template made from the installer's own configuration,
/// with the same installer text, selects the default choice of every group of
/// every step, in order, when step names are distinct, group names are
/// distinct within each step, plugin names are distinct within each group,
/// and every group's default selection fits the group.
pub proof fn lemma_apply_defaults_template(
    decl: DeclarativeConfig,
    xml: Seq<char>,
    before: Installer,
    after: Installer,
    r: Result<(), DeclarativeError>,
)
    requires
        decl.schema_version == SCHEMA_VERSION,
        decl.hash@ == sri_hash(xml),
        selections_view(decl.selections) == template(before.spec_config(), false),
        names_distinct(steps_of(before.spec_config())),
        plugin_names_distinct(steps_of(before.spec_config())),
        defaults_fit(steps_of(before.spec_config())),
        decl.apply_outcome(xml, before, after, r),
    ensures
        r is Ok,
        selects_applied(before, after, default_entries(steps_of(before.spec_config()))),
{
    let config = before.spec_config();
    let steps = steps_of(config);
    lemma_template_names_resolve(decl.selections, config, false);
    match config.install_steps {
        Some(st) => {
            lemma_steps_defaults(decl.selections, steps, steps.len() as int);
            assert(steps.subrange(0, steps.len() as int) =~= steps);
        },
        None => {},
    }
}

/// An error about a name or a choice: what resolving selections can give.
pub open spec fn is_selection_error(e: DeclarativeErrorView) -> bool {
    ||| e is StepNotFound
    ||| e is GroupNotFound
    ||| e is PluginNotFound
    ||| e is ValidationFailed
}

proof fn lemma_names_fault_kind(plugins: Seq<Plugin>, step: Seq<char>, group: Seq<char>, names: Seq<Seq<char>>)
    ensures
        fault_in_names(plugins, step, group, names) matches Some(e) ==> is_selection_error(e),
    decreases names.len(),
{
    reveal(fault_in_names);
    if names.len() > 0 {
        lemma_names_fault_kind(plugins, step, group, names.drop_last());
    }
}

proof fn lemma_groups_fault_kind(groups: Seq<Group>, step: Seq<char>, inner: StrMap<Vec<String>>, n: int)
    ensures
        fault_in_groups(groups, step, inner, n) matches Some(e) ==> is_selection_error(e),
    decreases n,
{
    reveal(fault_in_groups);
    if n > 0 {
        lemma_groups_fault_kind(groups, step, inner, n - 1);
        let g = inner.keys()[n - 1];
        if group_names(groups).contains(g) {
            lemma_names_fault_kind(
                groups[first_index(group_names(groups), g)].plugins.plugins@,
                step,
                g,
                inner@[g].deep_view(),
            );
        }
    }
}

proof fn lemma_steps_fault_kind(steps: Seq<InstallStep>, sel: StrMap<StrMap<Vec<String>>>, n: int)
    ensures
        fault_in_steps(steps, sel, n) matches Some(e) ==> is_selection_error(e),
    decreases n,
{
    reveal(fault_in_steps);
    if n > 0 {
        lemma_steps_fault_kind(steps, sel, n - 1);
        let s = sel.keys()[n - 1];
        if step_names(steps).contains(s) {
            lemma_groups_fault_kind(
                groups_of(steps[first_index(step_names(steps), s)]),
                s,
                sel@[s],
                sel@[s].keys().len() as int,
            );
        }
    }
}

proof fn lemma_groups_resolution_kind(
    sel: StrMap<StrMap<Vec<String>>>,
    step: InstallStep,
    si: usize,
    groups: Seq<Group>,
)
    ensures
        groups_resolution(sel, step, si, groups) matches Err(e) ==> is_selection_error(e),
    decreases groups.len(),
{
    if groups.len() > 0 {
        lemma_groups_resolution_kind(sel, step, si, groups.drop_last());
    }
}

proof fn lemma_steps_resolution_kind(sel: StrMap<StrMap<Vec<String>>>, steps: Seq<InstallStep>)
    ensures
        steps_resolution(sel, steps) matches Err(e) ==> is_selection_error(e),
    decreases steps.len(),
{
    if steps.len() > 0 {
        lemma_steps_resolution_kind(sel, steps.drop_last());
        lemma_groups_resolution_kind(
            sel,
            steps.last(),
            (steps.len() - 1) as usize,
            groups_of(steps.last()),
        );
    }
}

/// Resolving selections fails only with an error about a name or a choice.
pub proof fn lemma_resolution_error_kind(sel: StrMap<StrMap<Vec<String>>>, config: ModuleConfig)
    ensures
        spec_resolution(sel, config) matches Err(e) ==> is_selection_error(e),
{
    lemma_steps_fault_kind(steps_of(config), sel, sel.keys().len() as int);
    lemma_steps_resolution_kind(sel, steps_of(config));
}

/// `apply` fails with `UnsupportedVersion` (naming the config's version and
/// the supported one) exactly when the config's schema version is newer than
/// the library's, whatever the installer text.
pub proof fn lemma_apply_version_check(
    decl: DeclarativeConfig,
    xml: Seq<char>,
    before: Installer,
    after: Installer,
    r: Result<(), DeclarativeError>,
)
    requires
        decl.apply_outcome(xml, before, after, r),
    ensures
        decl.schema_version > SCHEMA_VERSION <==> (r matches Err(e) && e@ == (
        DeclarativeErrorView::UnsupportedVersion {
            config: decl.schema_version,
            supported: SCHEMA_VERSION,
        })),
{
    lemma_resolution_error_kind(decl.selections, before.spec_config());
}

/// With an accepted schema version, `apply` fails with `HashMismatch` (naming
/// the config's hash and that of the text) exactly when the config's hash is
/// not the SRI hash of the installer text.
pub proof fn lemma_apply_hash_check(
    decl: DeclarativeConfig,
    xml: Seq<char>,
    before: Installer,
    after: Installer,
    r: Result<(), DeclarativeError>,
)
    requires
        decl.schema_version <= SCHEMA_VERSION,
        decl.apply_outcome(xml, before, after, r),
    ensures
        decl.hash@ != sri_hash(xml) <==> (r matches Err(e) && e@ == (DeclarativeErrorView::HashMismatch {
            expected: decl.hash@,
            actual: sri_hash(xml),
        })),
{
    lemma_resolution_error_kind(decl.selections, before.spec_config());
}

/// A failed `apply` leaves the installer exactly as it was: no selection is
/// recorded and no flag changes.
pub proof fn lemma_apply_error_keeps_installer(
    decl: DeclarativeConfig,
    xml: Seq<char>,
    before: Installer,
    after: Installer,
    r: Result<(), DeclarativeError>,
)
    requires
        decl.apply_outcome(xml, before, after, r),
        r is Err,
    ensures
        after == before,
{
}

/// A group that the config does not name (its step is not named, or the
/// step names other groups only) resolves to the group's default selection.
pub proof fn lemma_unnamed_group_gets_defaults(
    sel: StrMap<StrMap<Vec<String>>>,
    step: InstallStep,
    si: usize,
    group: Group,
    gi: usize,
)
    requires
        !(sel@.contains_key(step.name@) && sel@[step.name@]@.contains_key(group.name@)),
    ensures
        group_resolution(sel, step, si, group, gi) == Ok::<SelectionEntry, DeclarativeErrorView>(
            (si, gi, spec_default_selections(group)),
        ),
{
}

/// A group that the config names, with every listed name a plugin of the
/// group, resolves to the positions of the first plugins bearing the listed
/// names, one per name in list order, when those positions fit the group;
/// otherwise to a validation error for that step and group.
pub proof fn lemma_named_group_positions(
    sel: StrMap<StrMap<Vec<String>>>,
    step: InstallStep,
    si: usize,
    group: Group,
    gi: usize,
)
    requires
        group.plugins.plugins@.len() <= usize::MAX,
        sel@.contains_key(step.name@),
        sel@[step.name@]@.contains_key(group.name@),
        forall|k: int|
            0 <= k < sel@[step.name@]@[group.name@]@.len() ==> name_list(group.plugins.plugins@).contains(
                #[trigger] sel@[step.name@]@[group.name@].deep_view()[k],
            ),
    ensures
        ({
            let names = sel@[step.name@]@[group.name@].deep_view();
            let ps = group.plugins.plugins@;
            let ix = positions(ps, names);
            &&& ix.len() == names.len()
            &&& forall|k: int|
                0 <= k < ix.len() ==> #[trigger] ix[k] < ps.len() && ps[ix[k] as int].name@ == names[k]
                    && forall|j: int| 0 <= j < ix[k] ==> ps[j].name@ != names[k]
            &&& crate::installer::selection_fits(group, ix) ==> group_resolution(sel, step, si, group, gi)
                == Ok::<SelectionEntry, DeclarativeErrorView>((si, gi, ix))
            &&& !crate::installer::selection_fits(group, ix) ==> (group_resolution(sel, step, si, group, gi) matches Err(
                DeclarativeErrorView::ValidationFailed { step: s, group: g, .. },
            ) && s == step.name@ && g == group.name@)
        }),
{
    let names = sel@[step.name@]@[group.name@].deep_view();
    let ps = group.plugins.plugins@;
    let ix = positions(ps, names);
    assert forall|k: int|
        0 <= k < ix.len() implies #[trigger] ix[k] < ps.len() && ps[ix[k] as int].name@ == names[k]
            && forall|j: int| 0 <= j < ix[k] ==> ps[j].name@ != names[k] by {
        assert(name_list(ps).contains(names[k]));
        lemma_first_index(name_list(ps), names[k]);
        let f = first_index(name_list(ps), names[k]);
        assert(ix[k] == f as usize);
        assert(ix[k] as int == f);
        assert(name_list(ps)[f] == ps[f].name@);
        assert forall|j: int| 0 <= j < ix[k] implies ps[j].name@ != names[k] by {
            assert(name_list(ps)[j] == ps[j].name@);
        }
    }
}

/// Entry `k` of `m` is for step `si` and group `k`.
spec fn keyed_by_position(m: Seq<SelectionEntry>, si: usize) -> bool {
    forall|k: int| 0 <= k < m.len() ==> #[trigger] m[k].0 == si && m[k].1 == k
}

#[verifier::spinoff_prover]
/// The names an all-plugins template lists for a group are the names of all
/// its plugins, in order; a defaults template lists the names of the
/// plugins of the group's default selection, in that order.
pub proof fn lemma_template_names_meaning(group: Group)
    requires
        group.plugins.plugins@.len() <= usize::MAX,
    ensures
        template_names(group, true).len() == group.plugins.plugins@.len(),
        forall|i: int|
            0 <= i < group.plugins.plugins@.len() ==> #[trigger] template_names(group, true)[i]
                == group.plugins.plugins@[i].name@,
        template_names(group, false).len() == spec_default_selections(group).len(),
        forall|k: int|
            0 <= k < spec_default_selections(group).len() ==> #[trigger] template_names(group, false)[k]
                == group.plugins.plugins@[spec_default_selections(group)[k] as int].name@,
{
    lemma_defaults_within_all(group);
}

proof fn lemma_fault_in_steps_at(steps: Seq<InstallStep>, sel: StrMap<StrMap<Vec<String>>>, i: int)
    requires
        0 <= i < sel.keys().len(),
        ({
            let s = sel.keys()[i];
            !step_names(steps).contains(s) || fault_in_groups(
                groups_of(steps[first_index(step_names(steps), s)]),
                s,
                sel@[s],
                sel@[s].keys().len() as int,
            ) is Some
        }),
    ensures
        name_fault(sel, steps) is Some,
{
    reveal(fault_in_steps);
    assert(fault_in_steps(steps, sel, i + 1) is Some);
    lemma_steps_fault_extends(steps, sel, i + 1, sel.keys().len() as int);
}

proof fn lemma_fault_in_groups_at(
    groups: Seq<Group>,
    step: Seq<char>,
    inner: StrMap<Vec<String>>,
    j: int,
)
    requires
        0 <= j < inner.keys().len(),
        ({
            let g = inner.keys()[j];
            !group_names(groups).contains(g) || fault_in_names(
                groups[first_index(group_names(groups), g)].plugins.plugins@,
                step,
                g,
                inner@[g].deep_view(),
            ) is Some
        }),
    ensures
        fault_in_groups(groups, step, inner, inner.keys().len() as int) is Some,
{
    reveal(fault_in_groups);
    assert(fault_in_groups(groups, step, inner, j + 1) is Some);
    lemma_groups_fault_extends(groups, step, inner, j + 1, inner.keys().len() as int);
}

proof fn lemma_fault_in_names_at(plugins: Seq<Plugin>, step: Seq<char>, group: Seq<char>, names: Seq<Seq<char>>, k: int)
    requires
        0 <= k < names.len(),
        !name_list(plugins).contains(names[k]),
    ensures
        fault_in_names(plugins, step, group, names) is Some,
{
    reveal(fault_in_names);
    assert(names.subrange(0, k + 1).drop_last() =~= names.subrange(0, k));
    assert(names.subrange(0, k + 1).last() == names[k]);
    assert(fault_in_names(plugins, step, group, names.subrange(0, k + 1)) is Some);
    lemma_names_fault_extends(plugins, step, group, names, k + 1);
}

/// With an accepted version and hash, `apply` fails, leaving the installer
/// as it was, when the config names a step the module lacks, a group that
/// the (first) step of that name lacks, or a plugin that the (first) group
/// of that name lacks.
pub proof fn lemma_apply_rejects_unknown_names(
    decl: DeclarativeConfig,
    xml: Seq<char>,
    before: Installer,
    after: Installer,
    r: Result<(), DeclarativeError>,
    s: Seq<char>,
    g: Seq<char>,
    p: Seq<char>,
)
    requires
        decl.schema_version <= SCHEMA_VERSION,
        decl.hash@ == sri_hash(xml),
        decl.apply_outcome(xml, before, after, r),
        decl.selections@.contains_key(s),
    ensures
        !step_names(steps_of(before.spec_config())).contains(s) ==> r is Err && after == before,
        ({
            let steps = steps_of(before.spec_config());
            let groups = groups_of(steps[first_index(step_names(steps), s)]);
            step_names(steps).contains(s) && decl.selections@[s]@.contains_key(g) && !group_names(
                groups,
            ).contains(g) ==> r is Err && after == before
        }),
        ({
            let steps = steps_of(before.spec_config());
            let groups = groups_of(steps[first_index(step_names(steps), s)]);
            let plugins = groups[first_index(group_names(groups), g)].plugins.plugins@;
            step_names(steps).contains(s) && decl.selections@[s]@.contains_key(g) && group_names(
                groups,
            ).contains(g) && decl.selections@[s]@[g].deep_view().contains(p) && !name_list(plugins).contains(p)
                ==> r is Err && after == before
        }),
{
    let sel = decl.selections;
    let steps = steps_of(before.spec_config());
    lemma_keys_dom(sel);
    assert(sel.keys().contains(s));
    let i = choose|i: int| 0 <= i < sel.keys().len() && sel.keys()[i] == s;
    if !step_names(steps).contains(s) {
        lemma_fault_in_steps_at(steps, sel, i);
    } else {
        let groups = groups_of(steps[first_index(step_names(steps), s)]);
        let inner = sel@[s];
        lemma_keys_dom(inner);
        if inner@.contains_key(g) {
            assert(inner.keys().contains(g));
            let j = choose|j: int| 0 <= j < inner.keys().len() && inner.keys()[j] == g;
            if !group_names(groups).contains(g) {
                lemma_fault_in_groups_at(groups, s, inner, j);
                lemma_fault_in_steps_at(steps, sel, i);
            } else {
                let plugins = groups[first_index(group_names(groups), g)].plugins.plugins@;
                let names = inner@[g].deep_view();
                if names.contains(p) && !name_list(plugins).contains(p) {
                    let k = choose|k: int| 0 <= k < names.len() && names[k] == p;
                    lemma_fault_in_names_at(plugins, s, g, names, k);
                    lemma_fault_in_groups_at(groups, s, inner, j);
                    lemma_fault_in_steps_at(steps, sel, i);
                }
            }
        }
    }
}

proof fn lemma_groups_resolution_entries(
    sel: StrMap<StrMap<Vec<String>>>,
    step: InstallStep,
    si: usize,
    groups: Seq<Group>,
)
    requires
        groups_resolution(sel, step, si, groups) is Ok,
        groups.len() <= usize::MAX,
    ensures
        groups_resolution(sel, step, si, groups)->Ok_0.len() == groups.len(),
        forall|k: int|
            0 <= k < groups.len() ==> #[trigger] group_resolution(sel, step, si, groups[k], k as usize)
                == Ok::<SelectionEntry, DeclarativeErrorView>(groups_resolution(sel, step, si, groups)->Ok_0[k]),
        keyed_by_position(groups_resolution(sel, step, si, groups)->Ok_0, si),
    decreases groups.len(),
{
    if groups.len() > 0 {
        let pre = groups.drop_last();
        let n = groups.len() - 1;
        assert(groups_resolution(sel, step, si, pre) is Ok);
        lemma_groups_resolution_entries(sel, step, si, pre);
        let m = groups_resolution(sel, step, si, groups)->Ok_0;
        let m0 = groups_resolution(sel, step, si, pre)->Ok_0;
        let x = group_resolution(sel, step, si, groups.last(), n as usize);
        assert(x is Ok);
        assert(m == m0.push(x->Ok_0));
        assert(x->Ok_0.0 == si && x->Ok_0.1 == n as usize);
        assert forall|k: int| 0 <= k < groups.len() implies #[trigger] group_resolution(
            sel,
            step,
            si,
            groups[k],
            k as usize,
        ) == Ok::<SelectionEntry, DeclarativeErrorView>(m[k]) by {
            if k < n {
                assert(pre[k] == groups[k]);
                assert(m[k] == m0[k]);
            }
        }
        assert forall|k: int| 0 <= k < groups.len() implies #[trigger] m[k].0 == si && m[k].1 == k by {
            if k < n {
                assert(m[k] == m0[k]);
            } else {
                assert(m[k] == x->Ok_0);
                assert((n as usize) as int == n);
            }
        }
    }
}

/// `entries` lists keys in strictly increasing (step, group) order.
spec fn keys_increasing(entries: Seq<SelectionEntry>) -> bool {
    forall|p: int, q: int|
        0 <= p < q < entries.len() ==> (#[trigger] entries[p].0 < #[trigger] entries[q].0 || (entries[p].0
            == entries[q].0 && entries[p].1 < entries[q].1))
}

proof fn lemma_steps_resolution_entries(sel: StrMap<StrMap<Vec<String>>>, steps: Seq<InstallStep>)
    requires
        steps_resolution(sel, steps) is Ok,
        steps.len() <= usize::MAX,
        forall|i: int| 0 <= i < steps.len() ==> #[trigger] groups_of(steps[i]).len() <= usize::MAX,
    ensures
        keys_increasing(steps_resolution(sel, steps)->Ok_0),
        forall|p: int|
            0 <= p < steps_resolution(sel, steps)->Ok_0.len() ==> #[trigger] steps_resolution(
                sel,
                steps,
            )->Ok_0[p].0 < steps.len(),
        forall|si: int, gi: int|
            0 <= si < steps.len() && 0 <= gi < groups_of(steps[si]).len() ==> exists|p: int|
                0 <= p < steps_resolution(sel, steps)->Ok_0.len() && #[trigger] steps_resolution(
                    sel,
                    steps,
                )->Ok_0[p] == group_resolution(sel, steps[si], si as usize, #[trigger] groups_of(
                    steps[si],
                )[gi], gi as usize)->Ok_0 && group_resolution(
                    sel,
                    steps[si],
                    si as usize,
                    groups_of(steps[si])[gi],
                    gi as usize,
                ) is Ok,
    decreases steps.len(),
{
    if steps.len() > 0 {
        let pre = steps.drop_last();
        let n = steps.len() - 1;
        assert forall|i: int| 0 <= i < pre.len() implies #[trigger] groups_of(pre[i]).len() <= usize::MAX by {
            assert(pre[i] == steps[i]);
        }
        lemma_steps_resolution_entries(sel, pre);
        let l0 = steps_resolution(sel, pre)->Ok_0;
        let groups = groups_of(steps.last());
        assert(groups_of(steps[n]).len() <= usize::MAX);
        lemma_groups_resolution_entries(sel, steps.last(), n as usize, groups);
        let m = groups_resolution(sel, steps.last(), n as usize, groups)->Ok_0;
        let l = steps_resolution(sel, steps)->Ok_0;
        assert(l == l0 + m);
        assert forall|p: int| 0 <= p < l.len() implies #[trigger] l[p].0 < steps.len() by {
            if p < l0.len() {
                assert(l[p] == l0[p]);
            } else {
                assert(l[p] == m[p - l0.len()]);
            }
        }
        assert forall|p: int, q: int| 0 <= p < q < l.len() implies (#[trigger] l[p].0 < #[trigger] l[q].0 || (
        l[p].0 == l[q].0 && l[p].1 < l[q].1)) by {
            if q < l0.len() {
                assert(l[p] == l0[p] && l[q] == l0[q]);
            } else if p < l0.len() {
                assert(l[p] == l0[p]);
                assert(l[q] == m[q - l0.len()]);
            } else {
                assert(l[p] == m[p - l0.len()]);
                assert(l[q] == m[q - l0.len()]);
            }
        }
        assert forall|si: int, gi: int|
            0 <= si < steps.len() && 0 <= gi < groups_of(steps[si]).len() implies exists|p: int|
                0 <= p < l.len() && #[trigger] l[p] == group_resolution(sel, steps[si], si as usize, #[trigger] groups_of(
                    steps[si],
                )[gi], gi as usize)->Ok_0 && group_resolution(
                    sel,
                    steps[si],
                    si as usize,
                    groups_of(steps[si])[gi],
                    gi as usize,
                ) is Ok by {
            if si < n {
                assert(pre[si] == steps[si]);
                let p = choose|p: int|
                    0 <= p < l0.len() && #[trigger] l0[p] == group_resolution(sel, pre[si], si as usize, #[trigger] groups_of(
                        pre[si],
                    )[gi], gi as usize)->Ok_0 && group_resolution(
                        sel,
                        pre[si],
                        si as usize,
                        groups_of(pre[si])[gi],
                        gi as usize,
                    ) is Ok;
                assert(l[p] == l0[p]);
            } else {
                assert(steps[si] == steps.last());
                assert(l[l0.len() + gi] == m[gi]);
                assert(group_resolution(sel, steps.last(), n as usize, groups[gi], gi as usize) == Ok::<
                    SelectionEntry,
                    DeclarativeErrorView,
                >(m[gi]));
            }
        }
    }
}

proof fn lemma_record_all_value(list: Seq<SelectionEntry>, entries: Seq<SelectionEntry>, p: int)
    requires
        0 <= p < entries.len(),
        forall|q: int|
            0 <= q < entries.len() && q != p ==> !(#[trigger] entries[q].0 == entries[p].0 && entries[q].1
                == entries[p].1),
    ensures
        entry_map(record_all(list, entries)).contains_key((entries[p].0, entries[p].1)),
        entry_map(record_all(list, entries))[(entries[p].0, entries[p].1)] == entries[p].2,
    decreases entries.len(),
{
    let e = entries.last();
    let pre = entries.drop_last();
    lemma_record_entry_map(record_all(list, pre), e.0, e.1, e.2);
    if p < entries.len() - 1 {
        assert forall|q: int| 0 <= q < pre.len() && q != p implies !(#[trigger] pre[q].0 == pre[p].0
            && pre[q].1 == pre[p].1) by {
            assert(pre[q] == entries[q]);
        }
        assert(pre[p] == entries[p]);
        lemma_record_all_value(list, pre, p);
        assert(!(entries[entries.len() - 1].0 == entries[p].0 && entries[entries.len() - 1].1 == entries[p].1));
    }
}

/// After a successful `apply`, every group of every step that the config does
/// not name has its default selection recorded, whether or not its step is
/// named.
pub proof fn lemma_apply_unnamed_groups_get_defaults(
    decl: DeclarativeConfig,
    xml: Seq<char>,
    before: Installer,
    after: Installer,
    si: int,
    gi: int,
)
    requires
        decl.apply_outcome(xml, before, after, Ok(())),
        steps_of(before.spec_config()).len() <= usize::MAX,
        forall|i: int|
            0 <= i < steps_of(before.spec_config()).len() ==> #[trigger] groups_of(
                steps_of(before.spec_config())[i],
            ).len() <= usize::MAX,
        0 <= si < steps_of(before.spec_config()).len(),
        0 <= gi < groups_of(steps_of(before.spec_config())[si]).len(),
        !(decl.selections@.contains_key(steps_of(before.spec_config())[si].name@)
            && decl.selections@[steps_of(before.spec_config())[si].name@]@.contains_key(
            groups_of(steps_of(before.spec_config())[si])[gi].name@,
        )),
    ensures
        after.selection_map().contains_key((si as usize, gi as usize)),
        after.selection_map()[(si as usize, gi as usize)] == spec_default_selections(
            groups_of(steps_of(before.spec_config())[si])[gi],
        ),
{
    let sel = decl.selections;
    let steps = steps_of(before.spec_config());
    let step = steps[si];
    let group = groups_of(step)[gi];
    lemma_resolution_error_kind(sel, before.spec_config());
    assert(spec_resolution(sel, before.spec_config()) is Ok);
    let entries = spec_resolution(sel, before.spec_config())->Ok_0;
    assert(entries == steps_resolution(sel, steps)->Ok_0);
    lemma_steps_resolution_entries(sel, steps);
    lemma_unnamed_group_gets_defaults(sel, step, si as usize, group, gi as usize);
    let p = choose|p: int|
        0 <= p < entries.len() && #[trigger] entries[p] == group_resolution(sel, steps[si], si as usize, #[trigger] groups_of(
            steps[si],
        )[gi], gi as usize)->Ok_0 && group_resolution(
            sel,
            steps[si],
            si as usize,
            groups_of(steps[si])[gi],
            gi as usize,
        ) is Ok;
    assert(entries[p] == (si as usize, gi as usize, spec_default_selections(group)));
    assert forall|q: int| 0 <= q < entries.len() && q != p implies !(#[trigger] entries[q].0 == entries[p].0
        && entries[q].1 == entries[p].1) by {
        if q < p {
            assert(entries[q].0 < entries[p].0 || (entries[q].0 == entries[p].0 && entries[q].1 < entries[p].1));
        } else {
            assert(entries[p].0 < entries[q].0 || (entries[p].0 == entries[q].0 && entries[p].1 < entries[q].1));
        }
    }
    lemma_record_all_value(before.selection_list(), entries, p);
}

proof fn lemma_empty_steps_defaults(sel: StrMap<StrMap<Vec<String>>>, steps: Seq<InstallStep>, n: int)
    requires
        sel@ == Map::<Seq<char>, StrMap<Vec<String>>>::empty(),
        0 <= n <= steps.len(),
    ensures
        steps_resolution(sel, steps.subrange(0, n)) == Ok::<Seq<SelectionEntry>, DeclarativeErrorView>(
            default_entries(steps.subrange(0, n)),
        ),
    decreases n,
{
    if n > 0 {
        lemma_empty_steps_defaults(sel, steps, n - 1);
        assert(steps.subrange(0, n).drop_last() =~= steps.subrange(0, n - 1));
        let groups = groups_of(steps[n - 1]);
        lemma_empty_groups_defaults(sel, steps[n - 1], (n - 1) as usize, groups, groups.len() as int);
        assert(groups.subrange(0, groups.len() as int) =~= groups);
    }
}

proof fn lemma_empty_groups_defaults(
    sel: StrMap<StrMap<Vec<String>>>,
    step: InstallStep,
    si: usize,
    groups: Seq<Group>,
    n: int,
)
    requires
        sel@ == Map::<Seq<char>, StrMap<Vec<String>>>::empty(),
        0 <= n <= groups.len(),
    ensures
        groups_resolution(sel, step, si, groups.subrange(0, n)) == Ok::<
            Seq<SelectionEntry>,
            DeclarativeErrorView,
        >(default_group_entries(si, groups.subrange(0, n))),
    decreases n,
{
    if n > 0 {
        lemma_empty_groups_defaults(sel, step, si, groups, n - 1);
        assert(groups.subrange(0, n).drop_last() =~= groups.subrange(0, n - 1));
    }
}

/// Applying a config that names no step, at the current schema version and
/// with the installer's own hash, selects the default choice of every group of
/// every step, in order.
pub proof fn lemma_apply_empty_selects_defaults(
    decl: DeclarativeConfig,
    xml: Seq<char>,
    before: Installer,
    after: Installer,
    r: Result<(), DeclarativeError>,
)
    requires
        decl.schema_version <= SCHEMA_VERSION,
        decl.hash@ == sri_hash(xml),
        decl.selections@ == Map::<Seq<char>, StrMap<Vec<String>>>::empty(),
        decl.apply_outcome(xml, before, after, r),
    ensures
        r is Ok,
        selects_applied(before, after, default_entries(steps_of(before.spec_config()))),
{
    let config = before.spec_config();
    let steps = steps_of(config);
    lemma_keys_dom(decl.selections);
    if decl.selections.keys().len() > 0 {
        let k = decl.selections.keys()[0];
        assert(decl.selections.keys().contains(k));
        assert(decl.selections@.contains_key(k));
    }
    reveal(fault_in_steps);
    match config.install_steps {
        Some(st) => {
            lemma_empty_steps_defaults(decl.selections, steps, steps.len() as int);
            assert(steps.subrange(0, steps.len() as int) =~= steps);
        },
        None => {},
    }
}

spec fn selections_view_of(m: Map<Seq<char>, StrMap<Vec<String>>>) -> Map<
    Seq<char>,
    Map<Seq<char>, Seq<Seq<char>>>,
> {
    m.map_values(|inner: StrMap<Vec<String>>| inner@.map_values(|v: Vec<String>| v.deep_view()))
}

} // verus!
