use vstd::prelude::*;

use crate::condition::{contexts_agree, lemma_holds_agree, EvalContext};
use crate::config::{FileItem, FileList, Group, GroupType, InstallStep, ModuleConfig, Plugin, PluginType};
use crate::text::{decimal, push_decimal};

verus! {

/// A planned file operation: copy source to destination with priority.
#[derive(Debug, Clone, PartialEq, Eq)]
pub struct FileOperation {
    pub source: String,
    pub destination: String,
    pub is_folder: bool,
    pub priority: i32,
}

/// The resolved installation plan after all user selections.
#[derive(Debug, Clone)]
pub struct InstallPlan {
    /// File operations sorted by priority (lower first, higher overwrites).
    pub operations: Vec<FileOperation>,
}

/// The plugins chosen in one group of one step.
#[derive(Debug)]
struct GroupSelection {
    step: usize,
    group: usize,
    plugins: Vec<usize>,
}

/// Drives the FOMOD installation process.
///
/// Tracks user selections and condition flags, then resolves the final
/// set of file operations.
#[derive(Debug)]
pub struct Installer {
    config: ModuleConfig,
    ctx: EvalContext,
    selections: Vec<GroupSelection>,
}

/// Why a selection does not fit its group.
#[derive(Debug, Clone, PartialEq, Eq)]
pub enum SelectionError {
    OutOfBounds,
    InvalidCount { expected: &'static str, got: usize },
}

// ---------------------------------------------------------------------------
// The model of recorded selections: a list of (step, group, plugins) entries.
// ---------------------------------------------------------------------------

/// A recorded selection: step index, group index, chosen plugin indices.
pub type SelectionEntry = (usize, usize, Seq<usize>);

pub open spec fn entry_is(list: Seq<SelectionEntry>, i: int, step: usize, group: usize) -> bool {
    list[i].0 == step && list[i].1 == group
}

/// Some entry of `list` is for (`step`, `group`).
pub open spec fn has_entry(list: Seq<SelectionEntry>, step: usize, group: usize) -> bool {
    exists|i: int| 0 <= i < list.len() && #[trigger] entry_is(list, i, step, group)
}

/// No entry before `i` is for (`step`, `group`).
pub open spec fn none_before(list: Seq<SelectionEntry>, i: int, step: usize, group: usize) -> bool {
    forall|j: int| 0 <= j < i ==> !#[trigger] entry_is(list, j, step, group)
}

/// The position of the first entry for (`step`, `group`).
pub open spec fn first_entry(list: Seq<SelectionEntry>, step: usize, group: usize) -> int {
    choose|i: int|
        0 <= i < list.len() && entry_is(list, i, step, group) && none_before(list, i, step, group)
}

/// `list` after recording `plugins` for (`step`, `group`): the entry for that
/// group is replaced in place, or a new one is appended.
pub open spec fn record_entry(
    list: Seq<SelectionEntry>,
    step: usize,
    group: usize,
    plugins: Seq<usize>,
) -> Seq<SelectionEntry> {
    if has_entry(list, step, group) {
        list.update(first_entry(list, step, group), (step, group, plugins))
    } else {
        list.push((step, group, plugins))
    }
}

/// The selections as a map from (step, group) to chosen plugin indices.
pub open spec fn entry_map(list: Seq<SelectionEntry>) -> Map<(usize, usize), Seq<usize>> {
    Map::new(
        |k: (usize, usize)| has_entry(list, k.0, k.1),
        |k: (usize, usize)| list[first_entry(list, k.0, k.1)].2,
    )
}

proof fn lemma_first_entry(list: Seq<SelectionEntry>, i: int, step: usize, group: usize)
    requires
        0 <= i < list.len(),
        entry_is(list, i, step, group),
        none_before(list, i, step, group),
    ensures
        first_entry(list, step, group) == i,
{
    let f = first_entry(list, step, group);
    assert(0 <= f < list.len() && entry_is(list, f, step, group) && none_before(
        list,
        f,
        step,
        group,
    ));
    if f < i {
        assert(!entry_is(list, f, step, group));
    }
    if i < f {
        assert(!entry_is(list, i, step, group));
    }
}

proof fn lemma_has_entry_first(list: Seq<SelectionEntry>, step: usize, group: usize)
    requires
        has_entry(list, step, group),
    ensures
        0 <= first_entry(list, step, group) < list.len(),
        entry_is(list, first_entry(list, step, group), step, group),
        none_before(list, first_entry(list, step, group), step, group),
    decreases list.len(),
{
    let i = choose|i: int| 0 <= i < list.len() && #[trigger] entry_is(list, i, step, group);
    if has_entry(list.subrange(0, i), step, group) {
        lemma_has_entry_first(list.subrange(0, i), step, group);
        let f = first_entry(list.subrange(0, i), step, group);
        assert(entry_is(list, f, step, group));
        assert forall|j: int| 0 <= j < f implies !#[trigger] entry_is(list, j, step, group) by {
            assert(!entry_is(list.subrange(0, i), j, step, group));
        }
        lemma_first_entry(list, f, step, group);
    } else {
        assert forall|j: int| 0 <= j < i implies !#[trigger] entry_is(list, j, step, group) by {
            if entry_is(list, j, step, group) {
                assert(entry_is(list.subrange(0, i), j, step, group));
            }
        }
        lemma_first_entry(list, i, step, group);
    }
}

/// Recording a selection sets that group's entry and leaves the others alone.
pub proof fn lemma_record_entry_map(
    list: Seq<SelectionEntry>,
    step: usize,
    group: usize,
    plugins: Seq<usize>,
)
    ensures
        entry_map(record_entry(list, step, group, plugins)) == entry_map(list).insert(
            (step, group),
            plugins,
        ),
{
    let l2 = record_entry(list, step, group, plugins);
    let m1 = entry_map(l2);
    let m2 = entry_map(list).insert((step, group), plugins);
    if has_entry(list, step, group) {
        lemma_has_entry_first(list, step, group);
    }
    assert forall|k: (usize, usize)| #[trigger] m1.contains_key(k) <==> m2.contains_key(k) by {
        if k == (step, group) {
            if has_entry(list, step, group) {
                let f = first_entry(list, step, group);
                assert(entry_is(l2, f, step, group));
            } else {
                assert(entry_is(l2, list.len() as int, step, group));
            }
        } else {
            if has_entry(list, k.0, k.1) {
                let i = choose|i: int| 0 <= i < list.len() && #[trigger] entry_is(list, i, k.0, k.1);
                assert(entry_is(l2, i, k.0, k.1));
            }
            if has_entry(l2, k.0, k.1) {
                let i = choose|i: int| 0 <= i < l2.len() && #[trigger] entry_is(l2, i, k.0, k.1);
                assert(entry_is(list, i, k.0, k.1));
            }
        }
    }
    assert forall|k: (usize, usize)| m1.contains_key(k) implies #[trigger] m1[k] == m2[k] by {
        lemma_has_entry_first(l2, k.0, k.1);
        let f2 = first_entry(l2, k.0, k.1);
        if k == (step, group) {
            if has_entry(list, step, group) {
                let f = first_entry(list, step, group);
                assert forall|j: int| 0 <= j < f implies !#[trigger] entry_is(l2, j, step, group) by {
                    assert(!entry_is(list, j, step, group));
                }
                lemma_first_entry(l2, f, step, group);
            } else {
                assert forall|j: int|
                    0 <= j < list.len() implies !#[trigger] entry_is(l2, j, step, group) by {
                    assert(!entry_is(list, j, step, group));
                }
                lemma_first_entry(l2, list.len() as int, step, group);
            }
        } else {
            assert(entry_is(list, f2, k.0, k.1));
            assert forall|j: int| 0 <= j < f2 implies !#[trigger] entry_is(list, j, k.0, k.1) by {
                assert(!entry_is(l2, j, k.0, k.1));
            }
            lemma_first_entry(list, f2, k.0, k.1);
        }
    }
    assert(m1 =~= m2);
}

// ---------------------------------------------------------------------------
// Groups, flags and default choices.
// ---------------------------------------------------------------------------

/// The group at (`step`, `group`) of `config`, if there is one.
pub open spec fn group_at(config: ModuleConfig, step: int, group: int) -> Option<Group> {
    match config.install_steps {
        Some(steps) => if 0 <= step < steps.steps.len() {
            match steps.steps@[step].optional_file_groups {
                Some(groups) => if 0 <= group < groups.groups.len() {
                    Some(groups.groups@[group])
                } else {
                    None
                },
                None => None,
            }
        } else {
            None
        },
        None => None,
    }
}

/// The (name, value) pairs of the condition flags that `plugin` sets.
pub open spec fn plugin_flag_pairs(plugin: Plugin) -> Seq<(Seq<char>, Seq<char>)> {
    match plugin.condition_flags {
        Some(list) => list.flags@.map_values(
            |f: crate::config::ConditionFlag| (f.name@, f.value@),
        ),
        None => Seq::empty(),
    }
}

/// Whether some plugin of `group` sets a flag called `name`.
pub open spec fn group_sets_flag(group: Group, name: Seq<char>) -> bool {
    exists|p: int, f: int|
        0 <= p < group.plugins.plugins.len() && 0 <= f < plugin_flag_pairs(
            group.plugins.plugins@[p],
        ).len() && #[trigger] plugin_flag_pairs(group.plugins.plugins@[p])[f].0 == name
}

/// The names of all flags that any plugin of `group` sets.
pub open spec fn group_flag_names(group: Group) -> Set<Seq<char>> {
    Set::new(|name: Seq<char>| group_sets_flag(group, name))
}

/// The flag pairs that the plugins at `indices` set, in order; indices past the
/// end of the group are skipped.
pub open spec fn selected_flag_pairs(group: Group, indices: Seq<usize>) -> Seq<
    (Seq<char>, Seq<char>),
>
    decreases indices.len(),
{
    if indices.len() == 0 {
        Seq::empty()
    } else {
        let i = indices.last();
        selected_flag_pairs(group, indices.drop_last()) + if i < group.plugins.plugins.len() {
            plugin_flag_pairs(group.plugins.plugins@[i as int])
        } else {
            Seq::empty()
        }
    }
}

/// `m` after setting each pair in order.
pub open spec fn set_pairs(m: Map<Seq<char>, Seq<char>>, pairs: Seq<(Seq<char>, Seq<char>)>) -> Map<
    Seq<char>,
    Seq<char>,
>
    decreases pairs.len(),
{
    if pairs.len() == 0 {
        m
    } else {
        set_pairs(m, pairs.drop_last()).insert(pairs.last().0, pairs.last().1)
    }
}

/// The flags after choosing `indices` in `group`: every flag that the group's
/// plugins set is cleared, then the chosen plugins' flags are set in order.
pub open spec fn flags_after_choice(
    flags: Map<Seq<char>, Seq<char>>,
    group: Group,
    indices: Seq<usize>,
) -> Map<Seq<char>, Seq<char>> {
    set_pairs(flags.remove_keys(group_flag_names(group)), selected_flag_pairs(group, indices))
}

/// The flags after selecting `indices` at (`step`, `group`) of `config`;
/// unchanged when there is no such group.
pub open spec fn flags_after_select(
    flags: Map<Seq<char>, Seq<char>>,
    config: ModuleConfig,
    step: usize,
    group: usize,
    indices: Seq<usize>,
) -> Map<Seq<char>, Seq<char>> {
    match group_at(config, step as int, group as int) {
        Some(g) => flags_after_choice(flags, g, indices),
        None => flags,
    }
}

/// Required and Recommended plugins are preselected.
pub open spec fn is_preferred(p: Plugin) -> bool {
    p.spec_plugin_type() == PluginType::Required || p.spec_plugin_type() == PluginType::Recommended
}

/// The positions of the preferred plugins, in order.
pub open spec fn preferred_indices(plugins: Seq<Plugin>) -> Seq<usize>
    decreases plugins.len(),
{
    if plugins.len() == 0 {
        Seq::empty()
    } else {
        let rest = preferred_indices(plugins.drop_last());
        if is_preferred(plugins.last()) {
            rest.push((plugins.len() - 1) as usize)
        } else {
            rest
        }
    }
}

/// The default selection of a group: every plugin for `SelectAll`, the first
/// preferred plugin (if any) for the groups that take at most or exactly one,
/// and every preferred plugin for the others.
pub open spec fn spec_default_selections(group: Group) -> Seq<usize> {
    let plugins = group.plugins.plugins@;
    match group.group_type {
        GroupType::SelectAll => Seq::new(plugins.len(), |i: int| i as usize),
        GroupType::SelectExactlyOne | GroupType::SelectAtMostOne => {
            let pref = preferred_indices(plugins);
            if pref.len() > 0 {
                seq![pref[0]]
            } else {
                Seq::empty()
            }
        },
        GroupType::SelectAtLeastOne | GroupType::SelectAny => preferred_indices(plugins),
    }
}

/// Some index in `selected` is not a plugin of a group with `n` plugins.
pub open spec fn some_out_of_bounds(selected: Seq<usize>, n: nat) -> bool {
    exists|i: int| 0 <= i < selected.len() && #[trigger] selected[i] >= n
}

/// The count that a group type demands, described as in the error message,
/// when `count` of `n` plugins violates it.
pub open spec fn count_violation(t: GroupType, count: nat, n: nat) -> Option<Seq<char>> {
    match t {
        GroupType::SelectExactlyOne => if count != 1 {
            Some("exactly 1"@)
        } else {
            None
        },
        GroupType::SelectAtMostOne => if count > 1 {
            Some("at most 1"@)
        } else {
            None
        },
        GroupType::SelectAtLeastOne => if count < 1 {
            Some("at least 1"@)
        } else {
            None
        },
        GroupType::SelectAll => if count != n {
            Some("all"@)
        } else {
            None
        },
        GroupType::SelectAny => None,
    }
}

/// The message of a selection error.
pub open spec fn selection_error_text(e: SelectionError) -> Seq<char> {
    match e {
        SelectionError::OutOfBounds => "plugin index out of bounds"@,
        SelectionError::InvalidCount { expected, got } => "expected "@ + expected@
            + " selections, got "@ + decimal(got as nat),
    }
}

impl SelectionError {
    /// The error's message.
    pub fn to_string(&self) -> (s: String)
        ensures
            s@ == selection_error_text(*self),
    {
        match self {
            SelectionError::OutOfBounds => {
                proof {
                    reveal_strlit("plugin index out of bounds");
                }
                String::from_str("plugin index out of bounds")
            },
            SelectionError::InvalidCount { expected, got } => {
                let mut s = String::from_str("expected ");
                s.append(expected);
                s.append(" selections, got ");
                push_decimal(&mut s, *got as u64);
                s
            },
        }
    }
}

// ---------------------------------------------------------------------------
// The install plan.
// ---------------------------------------------------------------------------

/// The operation that installs `item`.
pub open spec fn op_of(item: FileItem) -> FileOperation {
    FileOperation {
        source: item.file_ref().source,
        destination: item.file_ref().destination,
        is_folder: item is Folder,
        priority: item.file_ref().priority,
    }
}

/// The operations for the items of `files`, in order.
pub open spec fn list_ops(files: FileList) -> Seq<FileOperation> {
    files.items@.map_values(|item: FileItem| op_of(item))
}

/// The operations of the always-installed files.
pub open spec fn required_ops(config: ModuleConfig) -> Seq<FileOperation> {
    match config.required_install_files {
        Some(files) => list_ops(files),
        None => Seq::empty(),
    }
}

/// The operations of the plugins at `indices` of `group` (indices past the
/// end are skipped).
pub open spec fn chosen_ops(group: Group, indices: Seq<usize>) -> Seq<FileOperation>
    decreases indices.len(),
{
    if indices.len() == 0 {
        Seq::empty()
    } else {
        let i = indices.last();
        chosen_ops(group, indices.drop_last()) + if i < group.plugins.plugins.len() {
            match group.plugins.plugins@[i as int].files {
                Some(files) => list_ops(files),
                None => Seq::empty(),
            }
        } else {
            Seq::empty()
        }
    }
}

/// The operations of every recorded selection, entry by entry.
pub open spec fn selection_ops(config: ModuleConfig, list: Seq<SelectionEntry>) -> Seq<
    FileOperation,
>
    decreases list.len(),
{
    if list.len() == 0 {
        Seq::empty()
    } else {
        let e = list.last();
        selection_ops(config, list.drop_last()) + match group_at(config, e.0 as int, e.1 as int) {
            Some(g) => chosen_ops(g, e.2),
            None => Seq::empty(),
        }
    }
}

/// The operations of the conditional patterns among `patterns` that hold in `ctx`.
pub open spec fn conditional_pattern_ops(
    patterns: Seq<crate::config::ConditionalPattern>,
    ctx: EvalContext,
) -> Seq<FileOperation>
    decreases patterns.len(),
{
    if patterns.len() == 0 {
        Seq::empty()
    } else {
        let p = patterns.last();
        conditional_pattern_ops(patterns.drop_last(), ctx) + if p.dependencies.holds(ctx) {
            list_ops(p.files)
        } else {
            Seq::empty()
        }
    }
}

/// The operations of the conditional file installs of `config` that hold in `ctx`.
pub open spec fn conditional_ops(config: ModuleConfig, ctx: EvalContext) -> Seq<FileOperation> {
    match config.conditional_file_installs {
        Some(cfi) => conditional_pattern_ops(cfi.patterns.patterns@, ctx),
        None => Seq::empty(),
    }
}

/// The operations of `ops` that have priority `p`, in order.
pub open spec fn with_priority(ops: Seq<FileOperation>, p: i32) -> Seq<FileOperation>
    decreases ops.len(),
{
    if ops.len() == 0 {
        Seq::empty()
    } else if ops.last().priority == p {
        with_priority(ops.drop_last(), p).push(ops.last())
    } else {
        with_priority(ops.drop_last(), p)
    }
}

/// `ops` is ordered by priority, lowest first.
pub open spec fn priority_sorted(ops: Seq<FileOperation>) -> bool {
    forall|i: int, j: int| 0 <= i < j < ops.len() ==> ops[i].priority <= ops[j].priority
}

/// `sorted` is what a stable sort by priority makes of `ops`: ordered by
/// priority, and for each priority the same operations in the same order.
pub open spec fn stable_priority_sort_of(sorted: Seq<FileOperation>, ops: Seq<FileOperation>) -> bool {
    &&& priority_sorted(sorted)
    &&& forall|p: i32| #[trigger] with_priority(sorted, p) == with_priority(ops, p)
}

proof fn lemma_with_priority_concat(a: Seq<FileOperation>, b: Seq<FileOperation>, p: i32)
    ensures
        with_priority(a + b, p) == with_priority(a, p) + with_priority(b, p),
    decreases b.len(),
{
    if b.len() == 0 {
        assert(a + b =~= a);
        assert(with_priority(a, p) + with_priority(b, p) =~= with_priority(a, p));
    } else {
        assert((a + b).drop_last() =~= a + b.drop_last());
        lemma_with_priority_concat(a, b.drop_last(), p);
        if b.last().priority == p {
            assert(with_priority(a, p) + with_priority(b, p) =~= (with_priority(a, p)
                + with_priority(b.drop_last(), p)).push(b.last()));
        }
    }
}

proof fn lemma_with_priority_push(ops: Seq<FileOperation>, x: FileOperation, p: i32)
    ensures
        with_priority(ops.push(x), p) == (if x.priority == p {
            with_priority(ops, p).push(x)
        } else {
            with_priority(ops, p)
        }),
{
    assert(ops.push(x).drop_last() =~= ops);
}

proof fn lemma_with_priority_none(ops: Seq<FileOperation>, p: i32)
    requires
        forall|i: int| 0 <= i < ops.len() ==> ops[i].priority != p,
    ensures
        with_priority(ops, p) == Seq::<FileOperation>::empty(),
    decreases ops.len(),
{
    if ops.len() > 0 {
        lemma_with_priority_none(ops.drop_last(), p);
    }
}

proof fn lemma_insert_sorted(out: Seq<FileOperation>, k: int, x: FileOperation)
    requires
        priority_sorted(out),
        0 <= k <= out.len(),
        forall|i: int| 0 <= i < k ==> out[i].priority <= x.priority,
        forall|i: int| k <= i < out.len() ==> out[i].priority > x.priority,
    ensures
        priority_sorted(out.insert(k, x)),
        forall|p: i32| #[trigger]
            with_priority(out.insert(k, x), p) == with_priority(out.push(x), p),
{
    let o2 = out.insert(k, x);
    assert forall|i: int, j: int| 0 <= i < j < o2.len() implies o2[i].priority
        <= o2[j].priority by {
        if j < k {
        } else if j == k {
        } else if i < k {
        } else if i == k {
            assert(o2[j] == out[j - 1]);
        } else {
            assert(o2[i] == out[i - 1]);
            assert(o2[j] == out[j - 1]);
        }
    }
    assert forall|p: i32| #[trigger] with_priority(o2, p) == with_priority(out.push(x), p) by {
        let pre = out.subrange(0, k);
        let post = out.subrange(k, out.len() as int);
        assert(o2 =~= pre + seq![x] + post);
        assert(out =~= pre + post);
        lemma_with_priority_concat(pre + seq![x], post, p);
        lemma_with_priority_concat(pre, post, p);
        assert(pre + seq![x] =~= pre.push(x));
        lemma_with_priority_push(pre, x, p);
        lemma_with_priority_push(out, x, p);
        if x.priority == p {
            lemma_with_priority_none(post, p);
            assert(with_priority(pre, p) + with_priority(post, p) =~= with_priority(pre, p));
            assert(with_priority(pre, p).push(x) + with_priority(post, p) =~= with_priority(pre, p).push(x));
        }
    }
}

/// Sorts `ops` by priority, keeping the order of operations of equal priority.
fn stable_sort_by_priority(ops: Vec<FileOperation>) -> (sorted: Vec<FileOperation>)
    ensures
        stable_priority_sort_of(sorted@, ops@),
{
    let ghost all = ops@;
    let total = ops.len();
    let mut rest = ops;
    let mut out: Vec<FileOperation> = Vec::new();
    let mut n: usize = 0;
    while rest.len() > 0
        invariant
            n + rest@.len() == all.len(),
            all.len() == total,
            rest@ == all.subrange(n as int, all.len() as int),
            out@.len() == n,
            priority_sorted(out@),
            forall|p: i32| #[trigger]
                with_priority(out@, p) == with_priority(all.subrange(0, n as int), p),
        decreases rest@.len(),
    {
        let x = rest.remove(0);
        let mut k: usize = 0;
        while k < out.len() && out[k].priority <= x.priority
            invariant
                k <= out@.len(),
                forall|i: int| 0 <= i < k ==> out@[i].priority <= x.priority,
            decreases out@.len() - k,
        {
            k = k + 1;
        }
        proof {
            assert forall|i: int| k <= i < out@.len() implies out@[i].priority > x.priority by {
                assert(out@[k as int].priority > x.priority);
            }
            lemma_insert_sorted(out@, k as int, x);
            assert(x == all[n as int]);
            assert(all.subrange(0, n + 1) =~= all.subrange(0, n as int).push(x));
            assert forall|p: i32| #[trigger]
                with_priority(out@.push(x), p) == with_priority(all.subrange(0, n + 1), p) by {
                lemma_with_priority_push(out@, x, p);
                lemma_with_priority_push(all.subrange(0, n as int), x, p);
            }
        }
        out.insert(k, x);
        n = n + 1;
        assert(rest@ =~= all.subrange(n as int, all.len() as int));
    }
    assert(all.subrange(0, n as int) =~= all);
    out
}

fn push_list_ops(ops: &mut Vec<FileOperation>, files: &FileList)
    ensures
        final(ops)@ == old(ops)@ + list_ops(*files),
{
    let ghost start = ops@;
    let mut i: usize = 0;
    while i < files.items.len()
        invariant
            i <= files.items@.len(),
            ops@ == start + files.items@.subrange(0, i as int).map_values(
                |item: FileItem| op_of(item),
            ),
        decreases files.items@.len() - i,
    {
        let item = &files.items[i];
        let r = item.as_ref();
        ops.push(
            FileOperation {
                source: r.source.clone(),
                destination: r.destination.clone(),
                is_folder: item.is_folder(),
                priority: r.priority,
            },
        );
        proof {
            assert(files.items@.subrange(0, i + 1).map_values(|item: FileItem| op_of(item))
                =~= files.items@.subrange(0, i as int).map_values(|item: FileItem| op_of(item)).push(
                op_of(files.items@[i as int]),
            ));
        }
        i = i + 1;
    }
    assert(files.items@.subrange(0, i as int) =~= files.items@);
}

pub(crate) fn clone_indices(v: &Vec<usize>) -> (r: Vec<usize>)
    ensures
        r@ == v@,
{
    let r = v.clone();
    assert(r@ =~= v@);
    r
}

impl Installer {
    /// The module configuration the installer works on.
    pub closed spec fn spec_config(self) -> ModuleConfig {
        self.config
    }

    /// The evaluation context (flags, file states, game version).
    pub closed spec fn spec_ctx(self) -> EvalContext {
        self.ctx
    }

    /// The recorded selections, in the order they were first made.
    pub closed spec fn selection_list(self) -> Seq<SelectionEntry> {
        self.selections@.map_values(|s: GroupSelection| (s.step, s.group, s.plugins@))
    }

    /// The recorded selections as a map from (step, group) to plugin indices.
    pub open spec fn selection_map(self) -> Map<(usize, usize), Seq<usize>> {
        entry_map(self.selection_list())
    }

    /// The operations before sorting: required files, then the files of
    /// every selected plugin, then the conditional installs that hold.
    pub open spec fn unsorted_ops(self) -> Seq<FileOperation> {
        required_ops(self.spec_config()) + selection_ops(self.spec_config(), self.selection_list())
            + conditional_ops(self.spec_config(), self.spec_ctx())
    }

    pub fn new(config: ModuleConfig) -> (inst: Self)
        ensures
            inst.spec_config() == config,
            inst.spec_ctx().flags@ == Map::<Seq<char>, String>::empty(),
            inst.spec_ctx().file_states@ == Map::<Seq<char>, crate::condition::FileState>::empty(),
            inst.spec_ctx().game_version is None,
            inst.selection_list() == Seq::<SelectionEntry>::empty(),
    {
        let inst = Installer { config, ctx: EvalContext::new(), selections: Vec::new() };
        assert(inst.selection_list() =~= Seq::<SelectionEntry>::empty());
        inst
    }

    /// Create an installer with pre-populated game environment context.
    pub fn with_context(config: ModuleConfig, ctx: EvalContext) -> (inst: Self)
        ensures
            inst.spec_config() == config,
            inst.spec_ctx() == ctx,
            inst.selection_list() == Seq::<SelectionEntry>::empty(),
    {
        let inst = Installer { config, ctx, selections: Vec::new() };
        assert(inst.selection_list() =~= Seq::<SelectionEntry>::empty());
        inst
    }

    pub fn context(&self) -> (ctx: &EvalContext)
        ensures
            *ctx == self.spec_ctx(),
    {
        &self.ctx
    }

    pub fn context_mut(&mut self) -> (ctx: &mut EvalContext)
        ensures
            *ctx == old(self).spec_ctx(),
            final(self).spec_ctx() == *final(ctx),
            final(self).spec_config() == old(self).spec_config(),
            final(self).selection_list() == old(self).selection_list(),
    {
        &mut self.ctx
    }

    pub fn config(&self) -> (config: &ModuleConfig)
        ensures
            *config == self.spec_config(),
    {
        &self.config
    }

    /// Check module-level dependencies. Returns `true` if satisfied.
    pub fn check_dependencies(&self) -> (ok: bool)
        ensures
            ok == match self.spec_config().module_dependencies {
                Some(d) => d.holds(self.spec_ctx()),
                None => true,
            },
    {
        match &self.config.module_dependencies {
            Some(d) => d.evaluate(&self.ctx),
            None => true,
        }
    }

    /// Whether the step at `i` is shown: it has no visibility condition or the
    /// condition holds.
    pub open spec fn step_visible(self, step: InstallStep) -> bool {
        match step.visible {
            Some(v) => v.holds(self.spec_ctx()),
            None => true,
        }
    }

    /// The install steps of the configuration (none when it has no steps).
    pub open spec fn spec_steps(self) -> Seq<InstallStep> {
        match self.spec_config().install_steps {
            Some(s) => s.steps@,
            None => Seq::empty(),
        }
    }

    /// Get visible install steps (steps whose visibility conditions are met),
    /// with their positions, in order.
    pub fn visible_steps(&self) -> (visible: Vec<(usize, &InstallStep)>)
        ensures
            forall|k: int|
                0 <= k < visible@.len() ==> #[trigger] visible@[k].0 < self.spec_steps().len()
                    && *visible@[k].1 == self.spec_steps()[visible@[k].0 as int] && self.step_visible(
                    *visible@[k].1,
                ),
            forall|k: int, l: int| 0 <= k < l < visible@.len() ==> visible@[k].0 < visible@[l].0,
            forall|i: int|
                0 <= i < self.spec_steps().len() && self.step_visible(#[trigger] self.spec_steps()[i])
                    ==> exists|k: int| 0 <= k < visible@.len() && visible@[k].0 == i,
    {
        let mut out: Vec<(usize, &InstallStep)> = Vec::new();
        let steps = match &self.config.install_steps {
            Some(s) => &s.steps,
            None => {
                return out;
            },
        };
        let mut i: usize = 0;
        while i < steps.len()
            invariant
                steps@ == self.spec_steps(),
                i <= steps@.len(),
                forall|k: int|
                    0 <= k < out@.len() ==> #[trigger] out@[k].0 < i && *out@[k].1 == steps@[out@[k].0 as int]
                        && self.step_visible(*out@[k].1),
                forall|k: int, l: int| 0 <= k < l < out@.len() ==> out@[k].0 < out@[l].0,
                forall|j: int|
                    0 <= j < i && self.step_visible(#[trigger] steps@[j]) ==> exists|k: int|
                        0 <= k < out@.len() && out@[k].0 == j,
            decreases steps@.len() - i,
        {
            let step = &steps[i];
            let shown = match &step.visible {
                Some(v) => v.evaluate(&self.ctx),
                None => true,
            };
            if shown {
                let ghost before = out@;
                out.push((i, step));
                proof {
                    assert forall|j: int|
                        0 <= j < i + 1 && self.step_visible(#[trigger] steps@[j]) implies exists|k: int|
                        0 <= k < out@.len() && out@[k].0 == j by {
                        if j == i {
                            assert(out@[before.len() as int].0 == j);
                        } else {
                            let k = choose|k: int| 0 <= k < before.len() && before[k].0 == j;
                            assert(out@[k].0 == j);
                        }
                    }
                }
            }
            i = i + 1;
        }
        out
    }

    fn get_group(&self, step_index: usize, group_index: usize) -> (g: Option<&Group>)
        ensures
            match g {
                Some(g) => group_at(self.spec_config(), step_index as int, group_index as int)
                    == Some(*g),
                None => group_at(self.spec_config(), step_index as int, group_index as int) is None,
            },
    {
        group_in(&self.config, step_index, group_index)
    }

    fn record_selection(&mut self, step_index: usize, group_index: usize, plugin_indices: Vec<usize>)
        ensures
            final(self).selection_list() == record_entry(
                old(self).selection_list(),
                step_index,
                group_index,
                plugin_indices@,
            ),
            final(self).spec_config() == old(self).spec_config(),
            final(self).spec_ctx() == old(self).spec_ctx(),
    {
        let ghost list = self.selection_list();
        let mut i: usize = 0;
        while i < self.selections.len()
            invariant
                list == self.selection_list(),
                list.len() == self.selections@.len(),
                self.selections@ == old(self).selections@,
                self.config == old(self).config,
                self.ctx == old(self).ctx,
                i <= self.selections@.len(),
                none_before(list, i as int, step_index, group_index),
            decreases self.selections@.len() - i,
        {
            if self.selections[i].step == step_index && self.selections[i].group == group_index {
                proof {
                    assert(entry_is(list, i as int, step_index, group_index));
                    lemma_first_entry(list, i as int, step_index, group_index);
                }
                let entry = GroupSelection { step: step_index, group: group_index, plugins: plugin_indices };
                self.selections.remove(i);
                self.selections.insert(i, entry);
                proof {
                    assert(self.selection_list() =~= list.update(
                        i as int,
                        (step_index, group_index, plugin_indices@),
                    ));
                }
                return ;
            }
            proof {
                assert(!entry_is(list, i as int, step_index, group_index));
            }
            i = i + 1;
        }
        proof {
            if has_entry(list, step_index, group_index) {
                let j = choose|j: int| 0 <= j < list.len() && #[trigger] entry_is(list, j, step_index, group_index);
                assert(!entry_is(list, j, step_index, group_index));
            }
        }
        self.selections.push(GroupSelection { step: step_index, group: group_index, plugins: plugin_indices });
        assert(self.selection_list() =~= list.push((step_index, group_index, plugin_indices@)));
    }

    /// Record user selections for a group within a step.
    ///
    /// `plugin_indices` are indices into the group's plugin list. When the
    /// group exists, every flag its plugins set is cleared and the flags of
    /// the chosen plugins are then set, in order.
    pub fn select(&mut self, step_index: usize, group_index: usize, plugin_indices: Vec<usize>)
        ensures
            selected(*old(self), *final(self), step_index, group_index, plugin_indices@),
            final(self).selection_map() == old(self).selection_map().insert(
                (step_index, group_index),
                plugin_indices@,
            ),
    {
        let indices = clone_indices(&plugin_indices);
        self.record_selection(step_index, group_index, plugin_indices);
        proof {
            lemma_record_entry_map(old(self).selection_list(), step_index, group_index, indices@);
        }
        match group_in(&self.config, step_index, group_index) {
            None => {},
            Some(group) => {
                apply_choice_flags(&mut self.ctx, group, &indices);
            },
        }
    }

    /// Get the default selections for a group based on plugin types.
    pub fn default_selections(group: &Group) -> (sel: Vec<usize>)
        ensures
            sel@ == spec_default_selections(*group),
    {
        let plugins = &group.plugins.plugins;
        match group.group_type {
            GroupType::SelectAll => {
                let mut out: Vec<usize> = Vec::new();
                let mut i: usize = 0;
                while i < plugins.len()
                    invariant
                        i <= plugins@.len(),
                        out@ == Seq::new(i as nat, |j: int| j as usize),
                    decreases plugins@.len() - i,
                {
                    out.push(i);
                    i = i + 1;
                    assert(out@ =~= Seq::new(i as nat, |j: int| j as usize));
                }
                out
            },
            GroupType::SelectExactlyOne | GroupType::SelectAtMostOne => {
                let pref = preferred_positions(plugins);
                let mut out: Vec<usize> = Vec::new();
                if pref.len() > 0 {
                    out.push(pref[0]);
                }
                assert(out@ =~= spec_default_selections(*group));
                out
            },
            GroupType::SelectAtLeastOne | GroupType::SelectAny => preferred_positions(plugins),
        }
    }

    /// Validate selections against group type constraints.
    pub fn validate_selection(group: &Group, selected: &[usize]) -> (r: Result<(), SelectionError>)
        ensures
            some_out_of_bounds(selected@, group.plugins.plugins@.len()) ==> r == Err::<
                (),
                SelectionError,
            >(SelectionError::OutOfBounds),
            !some_out_of_bounds(selected@, group.plugins.plugins@.len()) ==> match count_violation(
                group.group_type,
                selected@.len(),
                group.plugins.plugins@.len(),
            ) {
                Some(expected) => r matches Err(SelectionError::InvalidCount { expected: e, got })
                    && e@ == expected && got == selected@.len(),
                None => r is Ok,
            },
    {
        let count = selected.len();
        let max = group.plugins.plugins.len();
        let mut i: usize = 0;
        while i < count
            invariant
                count == selected@.len(),
                max == group.plugins.plugins@.len(),
                i <= count,
                forall|j: int| 0 <= j < i ==> selected@[j] < max,
            decreases count - i,
        {
            if selected[i] >= max {
                return Err(SelectionError::OutOfBounds);
            }
            i = i + 1;
        }
        match group.group_type {
            GroupType::SelectExactlyOne => if count != 1 {
                proof {
                    reveal_strlit("exactly 1");
                }
                return Err(SelectionError::InvalidCount { expected: "exactly 1", got: count });
            },
            GroupType::SelectAtMostOne => if count > 1 {
                proof {
                    reveal_strlit("at most 1");
                }
                return Err(SelectionError::InvalidCount { expected: "at most 1", got: count });
            },
            GroupType::SelectAtLeastOne => if count < 1 {
                proof {
                    reveal_strlit("at least 1");
                }
                return Err(SelectionError::InvalidCount { expected: "at least 1", got: count });
            },
            GroupType::SelectAll => if count != max {
                proof {
                    reveal_strlit("all");
                }
                return Err(SelectionError::InvalidCount { expected: "all", got: count });
            },
            GroupType::SelectAny => {},
        }
        Ok(())
    }

    /// Resolve the final installation plan from all selections: the unsorted
    /// operations, stably sorted by priority.
    pub fn resolve(&self) -> (plan: InstallPlan)
        ensures
            stable_priority_sort_of(plan.operations@, self.unsorted_ops()),
    {
        let mut ops: Vec<FileOperation> = Vec::new();
        if let Some(files) = &self.config.required_install_files {
            push_list_ops(&mut ops, files);
        }
        assert(ops@ =~= required_ops(self.config));
        let mut i: usize = 0;
        while i < self.selections.len()
            invariant
                i <= self.selections@.len(),
                ops@ == required_ops(self.config) + selection_ops(
                    self.config,
                    self.selection_list().subrange(0, i as int),
                ),
            decreases self.selections@.len() - i,
        {
            let ghost before = ops@;
            let entry = &self.selections[i];
            proof {
                assert(self.selection_list().subrange(0, i + 1).drop_last() =~= self.selection_list().subrange(
                    0,
                    i as int,
                ));
            }
            match self.get_group(entry.step, entry.group) {
                Some(group) => {
                    let mut k: usize = 0;
                    while k < entry.plugins.len()
                        invariant
                            k <= entry.plugins@.len(),
                            ops@ == before + chosen_ops(*group, entry.plugins@.subrange(0, k as int)),
                        decreases entry.plugins@.len() - k,
                    {
                        let idx = entry.plugins[k];
                        let ghost mid = ops@;
                        proof {
                            assert(entry.plugins@.subrange(0, k + 1).drop_last() =~= entry.plugins@.subrange(
                                0,
                                k as int,
                            ));
                        }
                        if idx < group.plugins.plugins.len() {
                            match &group.plugins.plugins[idx].files {
                                Some(files) => {
                                    push_list_ops(&mut ops, files);
                                },
                                None => {},
                            }
                        }
                        proof {
                            assert(ops@ =~= before + chosen_ops(
                                *group,
                                entry.plugins@.subrange(0, k + 1),
                            ));
                        }
                        k = k + 1;
                    }
                    assert(entry.plugins@.subrange(0, k as int) =~= entry.plugins@);
                },
                None => {},
            }
            proof {
                assert(ops@ =~= required_ops(self.config) + selection_ops(
                    self.config,
                    self.selection_list().subrange(0, i + 1),
                ));
            }
            i = i + 1;
        }
        assert(self.selection_list().subrange(0, i as int) =~= self.selection_list());
        let ghost with_selected = ops@;
        if let Some(cfi) = &self.config.conditional_file_installs {
            let patterns = &cfi.patterns.patterns;
            let mut j: usize = 0;
            while j < patterns.len()
                invariant
                    j <= patterns@.len(),
                    ops@ == with_selected + conditional_pattern_ops(
                        patterns@.subrange(0, j as int),
                        self.ctx,
                    ),
                decreases patterns@.len() - j,
            {
                proof {
                    assert(patterns@.subrange(0, j + 1).drop_last() =~= patterns@.subrange(0, j as int));
                }
                if patterns[j].dependencies.evaluate(&self.ctx) {
                    push_list_ops(&mut ops, &patterns[j].files);
                }
                proof {
                    assert(ops@ =~= with_selected + conditional_pattern_ops(
                        patterns@.subrange(0, j + 1),
                        self.ctx,
                    ));
                }
                j = j + 1;
            }
            assert(patterns@.subrange(0, j as int) =~= patterns@);
        }
        assert(ops@ =~= self.unsorted_ops());
        InstallPlan { operations: stable_sort_by_priority(ops) }
    }
}

/// Performs the flag updates of choosing `indices` in `group`.
fn apply_choice_flags(ctx: &mut EvalContext, group: &Group, indices: &Vec<usize>)
    ensures
        final(ctx).flag_view() == flags_after_choice(
            old(ctx).flag_view(),
            *group,
            indices@,
        ),
        final(ctx).file_states == old(ctx).file_states,
        final(ctx).game_version == old(ctx).game_version,
{
    clear_group_flags(ctx, group);
    let ghost cleared = ctx.flag_view();
    let plugins = &group.plugins.plugins;
    let mut k: usize = 0;
    while k < indices.len()
        invariant
            k <= indices@.len(),
            plugins@ == group.plugins.plugins@,
            cleared == old(ctx).flag_view().remove_keys(group_flag_names(*group)),
            ctx.flag_view() == set_pairs(
                cleared,
                selected_flag_pairs(*group, indices@.subrange(0, k as int)),
            ),
            ctx.file_states == old(ctx).file_states,
            ctx.game_version == old(ctx).game_version,
        decreases indices@.len() - k,
    {
        let idx = indices[k];
        let ghost base = selected_flag_pairs(*group, indices@.subrange(0, k as int));
        proof {
            assert(indices@.subrange(0, k + 1).drop_last() =~= indices@.subrange(0, k as int));
        }
        if idx < plugins.len() {
            match &plugins[idx].condition_flags {
                Some(list) => {
                    let mut f: usize = 0;
                    while f < list.flags.len()
                        invariant
                            f <= list.flags@.len(),
                            plugin_flag_pairs(plugins@[idx as int]) == list.flags@.map_values(
                                |fl: crate::config::ConditionFlag| (fl.name@, fl.value@),
                            ),
                            ctx.flag_view() == set_pairs(
                                cleared,
                                base + plugin_flag_pairs(plugins@[idx as int]).subrange(0, f as int),
                            ),
                            ctx.file_states == old(ctx).file_states,
                            ctx.game_version == old(ctx).game_version,
                        decreases list.flags@.len() - f,
                    {
                        let flag = &list.flags[f];
                        ctx.set_flag(flag.name.as_str(), flag.value.as_str());
                        proof {
                            let pp = plugin_flag_pairs(plugins@[idx as int]);
                            let s1 = base + pp.subrange(0, f + 1);
                            assert(s1.drop_last() =~= base + pp.subrange(0, f as int));
                            assert(s1.last() == (flag.name@, flag.value@));
                        }
                        f = f + 1;
                    }
                    proof {
                        let pp = plugin_flag_pairs(plugins@[idx as int]);
                        assert(pp.subrange(0, f as int) =~= pp);
                    }
                },
                None => {
                    assert(base + plugin_flag_pairs(plugins@[idx as int]) =~= base);
                },
            }
        } else {
            assert(base + Seq::<(Seq<char>, Seq<char>)>::empty() =~= base);
        }
        k = k + 1;
    }
    assert(indices@.subrange(0, k as int) =~= indices@);
}

/// The group at (`step_index`, `group_index`) of `config`, if there is one.
fn group_in(config: &ModuleConfig, step_index: usize, group_index: usize) -> (g: Option<&Group>)
    ensures
        match g {
            Some(g) => group_at(*config, step_index as int, group_index as int)
                == Some(*g),
            None => group_at(*config, step_index as int, group_index as int) is None,
        },
{
    let steps = match &config.install_steps {
        Some(s) => s,
        None => {
            return None;
        },
    };
    if step_index >= steps.steps.len() {
        return None;
    }
    let groups = match &steps.steps[step_index].optional_file_groups {
        Some(g) => g,
        None => {
            return None;
        },
    };
    if group_index >= groups.groups.len() {
        return None;
    }
    Some(&groups.groups[group_index])
}


/// A selection that fits its group: every index is a plugin of the group and
/// the count is what the group type demands.
pub open spec fn selection_fits(group: Group, selected: Seq<usize>) -> bool {
    !some_out_of_bounds(selected, group.plugins.plugins@.len()) && count_violation(
        group.group_type,
        selected.len(),
        group.plugins.plugins@.len(),
    ) is None
}

proof fn lemma_preferred_in_bounds(plugins: Seq<Plugin>)
    ensures
        forall|i: int|
            0 <= i < preferred_indices(plugins).len() ==> #[trigger] preferred_indices(plugins)[i]
                < plugins.len(),
    decreases plugins.len(),
{
    if plugins.len() > 0 {
        lemma_preferred_in_bounds(plugins.drop_last());
        let rest = preferred_indices(plugins.drop_last());
        assert forall|i: int|
            0 <= i < preferred_indices(plugins).len() implies #[trigger] preferred_indices(plugins)[i]
                < plugins.len() by {
            if i < rest.len() {
                assert(preferred_indices(plugins)[i] == rest[i]);
            }
        }
    }
}

proof fn lemma_preferred_increasing(plugins: Seq<Plugin>)
    requires
        plugins.len() <= usize::MAX,
    ensures
        forall|k: int, l: int|
            0 <= k < l < preferred_indices(plugins).len() ==> preferred_indices(plugins)[k]
                < preferred_indices(plugins)[l],
    decreases plugins.len(),
{
    if plugins.len() > 0 {
        let pre = plugins.drop_last();
        lemma_preferred_increasing(pre);
        lemma_preferred_in_bounds(pre);
        let rest = preferred_indices(pre);
        assert forall|k: int, l: int|
            0 <= k < l < preferred_indices(plugins).len() implies preferred_indices(plugins)[k]
            < preferred_indices(plugins)[l] by {
            if is_preferred(plugins.last()) {
                assert(preferred_indices(plugins) == rest.push((plugins.len() - 1) as usize));
                if l < rest.len() {
                    assert(preferred_indices(plugins)[k] == rest[k]);
                    assert(preferred_indices(plugins)[l] == rest[l]);
                } else {
                    assert(preferred_indices(plugins)[k] == rest[k]);
                    assert(rest[k] < pre.len());
                    assert(preferred_indices(plugins)[l] == (plugins.len() - 1) as usize);
                }
            } else {
                assert(preferred_indices(plugins) == rest);
            }
        }
    }
}

/// A group's default selection lists plugins of the group, each once, in
/// increasing position.
pub proof fn lemma_default_selection_increasing(group: Group)
    requires
        group.plugins.plugins@.len() <= usize::MAX,
    ensures
        forall|k: int|
            0 <= k < spec_default_selections(group).len() ==> #[trigger] spec_default_selections(group)[k]
                < group.plugins.plugins@.len(),
        forall|k: int, l: int|
            0 <= k < l < spec_default_selections(group).len() ==> spec_default_selections(group)[k]
                < spec_default_selections(group)[l],
{
    lemma_preferred_in_bounds(group.plugins.plugins@);
    lemma_preferred_increasing(group.plugins.plugins@);
    let n = group.plugins.plugins@.len();
    match group.group_type {
        GroupType::SelectAll => {
            let d = spec_default_selections(group);
            assert forall|k: int, l: int| 0 <= k < l < d.len() implies d[k] < d[l] by {
                assert(d[k] == k as usize && d[l] == l as usize);
            }
        },
        _ => {},
    }
}

/// The default selection of a group fits it, except where the group demands
/// at least one plugin and has no Required or Recommended plugin to preselect.
pub proof fn lemma_default_selection_fits(group: Group)
    ensures
        selection_fits(group, spec_default_selections(group)) <==> !((group.group_type
            == GroupType::SelectExactlyOne || group.group_type == GroupType::SelectAtLeastOne)
            && preferred_indices(group.plugins.plugins@).len() == 0),
{
    let plugins = group.plugins.plugins@;
    lemma_preferred_in_bounds(plugins);
    let d = spec_default_selections(group);
    if some_out_of_bounds(d, plugins.len()) {
        let i = choose|i: int| 0 <= i < d.len() && #[trigger] d[i] >= plugins.len();
        match group.group_type {
            GroupType::SelectAll => {},
            GroupType::SelectExactlyOne | GroupType::SelectAtMostOne => {
                assert(d[i] == preferred_indices(plugins)[0]);
            },
            _ => {
                assert(d[i] == preferred_indices(plugins)[i]);
            },
        }
    }
}

proof fn lemma_selected_pairs_in_group(group: Group, indices: Seq<usize>, k: int)
    requires
        0 <= k < selected_flag_pairs(group, indices).len(),
    ensures
        group_sets_flag(group, selected_flag_pairs(group, indices)[k].0),
    decreases indices.len(),
{
    let rest = selected_flag_pairs(group, indices.drop_last());
    let i = indices.last();
    if k < rest.len() {
        lemma_selected_pairs_in_group(group, indices.drop_last(), k);
    } else {
        let pp = plugin_flag_pairs(group.plugins.plugins@[i as int]);
        assert(i < group.plugins.plugins.len());
        assert(pp[k - rest.len()].0 == selected_flag_pairs(group, indices)[k].0);
    }
}

proof fn lemma_set_pairs_cleared(
    m: Map<Seq<char>, Seq<char>>,
    pairs: Seq<(Seq<char>, Seq<char>)>,
    names: Set<Seq<char>>,
)
    requires
        forall|k: int| 0 <= k < pairs.len() ==> names.contains(#[trigger] pairs[k].0),
    ensures
        set_pairs(m, pairs).remove_keys(names) == m.remove_keys(names),
    decreases pairs.len(),
{
    if pairs.len() > 0 {
        let last = pairs.last();
        assert(names.contains(pairs[pairs.len() - 1].0));
        assert forall|k: int| 0 <= k < pairs.drop_last().len() implies names.contains(
            #[trigger] pairs.drop_last()[k].0,
        ) by {
            assert(pairs.drop_last()[k] == pairs[k]);
        }
        lemma_set_pairs_cleared(m, pairs.drop_last(), names);
        assert(set_pairs(m, pairs).remove_keys(names) =~= set_pairs(m, pairs.drop_last()).remove_keys(
            names,
        ));
    }
}

/// Selecting in a group a second time replaces the first choice entirely: the
/// recorded selections and the condition flags end as if only the second
/// choice had been made.
pub proof fn lemma_reselect_replaces(
    list: Seq<SelectionEntry>,
    flags: Map<Seq<char>, Seq<char>>,
    config: ModuleConfig,
    step: usize,
    group: usize,
    first: Seq<usize>,
    second: Seq<usize>,
)
    ensures
        entry_map(record_entry(record_entry(list, step, group, first), step, group, second))
            == entry_map(record_entry(list, step, group, second)),
        flags_after_select(
            flags_after_select(flags, config, step, group, first),
            config,
            step,
            group,
            second,
        ) == flags_after_select(flags, config, step, group, second),
{
    lemma_record_entry_map(list, step, group, first);
    lemma_record_entry_map(record_entry(list, step, group, first), step, group, second);
    lemma_record_entry_map(list, step, group, second);
    assert(entry_map(list).insert((step, group), first).insert((step, group), second)
        =~= entry_map(list).insert((step, group), second));
    match group_at(config, step as int, group as int) {
        Some(g) => {
            let names = group_flag_names(g);
            let pairs = selected_flag_pairs(g, first);
            assert forall|k: int| 0 <= k < pairs.len() implies names.contains(
                #[trigger] pairs[k].0,
            ) by {
                lemma_selected_pairs_in_group(g, first, k);
            }
            lemma_set_pairs_cleared(flags.remove_keys(names), pairs, names);
            assert(flags.remove_keys(names).remove_keys(names) =~= flags.remove_keys(names));
        },
        None => {},
    }
}

proof fn lemma_count_by_priority(s: Seq<FileOperation>, x: FileOperation)
    ensures
        s.to_multiset().count(x) == with_priority(s, x.priority).to_multiset().count(x),
    decreases s.len(),
{
    broadcast use vstd::seq_lib::group_to_multiset_ensures;
    broadcast use vstd::multiset::group_multiset_axioms;

    if s.len() > 0 {
        let pre = s.drop_last();
        lemma_count_by_priority(pre, x);
        assert(s =~= pre.push(s.last()));
        lemma_with_priority_push(pre, s.last(), x.priority);
    } else {
        assert(s.to_multiset() =~= vstd::multiset::Multiset::<FileOperation>::empty());
    }
}

/// The plan holds exactly the operations of required files, selected
/// plugins and conditional installs that hold, each as often as it occurs
/// there, with priorities non-decreasing (lower first, higher overwrites).
pub proof fn lemma_plan_is_permutation(inst: Installer, plan: Seq<FileOperation>)
    requires
        stable_priority_sort_of(plan, inst.unsorted_ops()),
    ensures
        plan.to_multiset() == inst.unsorted_ops().to_multiset(),
        forall|i: int, j: int| 0 <= i < j < plan.len() ==> plan[i].priority <= plan[j].priority,
{
    let ops = inst.unsorted_ops();
    assert forall|x: FileOperation| plan.to_multiset().count(x) == ops.to_multiset().count(x) by {
        lemma_count_by_priority(plan, x);
        lemma_count_by_priority(ops, x);
        assert(with_priority(plan, x.priority) == with_priority(ops, x.priority));
    }
    assert(plan.to_multiset() =~= ops.to_multiset());
}

/// Among operations of equal priority, the plan lists the required files
/// first (in document order), then the files of selected plugins, then the
/// conditional installs (in pattern and file order).
pub proof fn lemma_plan_equal_priority_order(inst: Installer, plan: Seq<FileOperation>, p: i32)
    requires
        stable_priority_sort_of(plan, inst.unsorted_ops()),
    ensures
        with_priority(plan, p) == with_priority(required_ops(inst.spec_config()), p) + with_priority(
            selection_ops(inst.spec_config(), inst.selection_list()),
            p,
        ) + with_priority(conditional_ops(inst.spec_config(), inst.spec_ctx()), p),
{
    let r = required_ops(inst.spec_config());
    let sel = selection_ops(inst.spec_config(), inst.selection_list());
    let c = conditional_ops(inst.spec_config(), inst.spec_ctx());
    lemma_with_priority_concat(r + sel, c, p);
    lemma_with_priority_concat(r, sel, p);
}

proof fn lemma_chosen_ops_contains(group: Group, indices: Seq<usize>, m: int, files: FileList, f: int)
    requires
        0 <= m < indices.len(),
        indices[m] < group.plugins.plugins.len(),
        group.plugins.plugins@[indices[m] as int].files == Some(files),
        0 <= f < files.items.len(),
    ensures
        chosen_ops(group, indices).contains(op_of(files.items@[f])),
    decreases indices.len(),
{
    let pre = indices.drop_last();
    let x = op_of(files.items@[f]);
    if m < indices.len() - 1 {
        lemma_chosen_ops_contains(group, pre, m, files, f);
        let k = choose|k: int| 0 <= k < chosen_ops(group, pre).len() && chosen_ops(group, pre)[k] == x;
        assert(chosen_ops(group, indices)[k] == x);
    } else {
        let lo = list_ops(files);
        assert(lo[f] == x);
        assert(chosen_ops(group, indices)[chosen_ops(group, pre).len() + f] == x);
    }
}

proof fn lemma_selection_ops_contains(
    config: ModuleConfig,
    list: Seq<SelectionEntry>,
    k: int,
    group: Group,
    m: int,
    files: FileList,
    f: int,
)
    requires
        0 <= k < list.len(),
        group_at(config, list[k].0 as int, list[k].1 as int) == Some(group),
        0 <= m < list[k].2.len(),
        list[k].2[m] < group.plugins.plugins.len(),
        group.plugins.plugins@[list[k].2[m] as int].files == Some(files),
        0 <= f < files.items.len(),
    ensures
        selection_ops(config, list).contains(op_of(files.items@[f])),
    decreases list.len(),
{
    let pre = list.drop_last();
    let x = op_of(files.items@[f]);
    if k < list.len() - 1 {
        lemma_selection_ops_contains(config, pre, k, group, m, files, f);
        let i = choose|i: int| 0 <= i < selection_ops(config, pre).len() && selection_ops(config, pre)[i] == x;
        assert(selection_ops(config, list)[i] == x);
    } else {
        lemma_chosen_ops_contains(group, list[k].2, m, files, f);
        let co = chosen_ops(group, list[k].2);
        let i = choose|i: int| 0 <= i < co.len() && co[i] == x;
        assert(selection_ops(config, list)[selection_ops(config, pre).len() + i] == x);
    }
}

/// Every file of every plugin chosen in a recorded selection is in the plan,
/// whether or not its step is visible: visibility does not filter the plan.
pub proof fn lemma_plan_includes_selected_files(
    inst: Installer,
    plan: Seq<FileOperation>,
    k: int,
    group: Group,
    m: int,
    files: FileList,
    f: int,
)
    requires
        stable_priority_sort_of(plan, inst.unsorted_ops()),
        0 <= k < inst.selection_list().len(),
        group_at(
            inst.spec_config(),
            inst.selection_list()[k].0 as int,
            inst.selection_list()[k].1 as int,
        ) == Some(group),
        0 <= m < inst.selection_list()[k].2.len(),
        inst.selection_list()[k].2[m] < group.plugins.plugins.len(),
        group.plugins.plugins@[inst.selection_list()[k].2[m] as int].files == Some(files),
        0 <= f < files.items.len(),
    ensures
        plan.contains(op_of(files.items@[f])),
{
    broadcast use vstd::seq_lib::group_to_multiset_ensures;

    let x = op_of(files.items@[f]);
    let config = inst.spec_config();
    let list = inst.selection_list();
    lemma_selection_ops_contains(config, list, k, group, m, files, f);
    let r = required_ops(config);
    let sel = selection_ops(config, list);
    let i = choose|i: int| 0 <= i < sel.len() && sel[i] == x;
    assert(inst.unsorted_ops()[r.len() + i] == x);
    assert(inst.unsorted_ops().contains(x));
    lemma_plan_is_permutation(inst, plan);
    assert(inst.unsorted_ops().to_multiset().count(x) > 0);
    assert(plan.to_multiset().count(x) > 0);
}

/// `after` is `before` after selecting `plugins` in group `group` of step
/// `step`: the configuration is kept, the selection is recorded (replacing
/// an earlier one for that group), the group's flags are cleared and the
/// chosen plugins' flags set, and file states and game version are kept.
pub open spec fn selected(before: Installer, after: Installer, step: usize, group: usize, plugins: Seq<usize>) -> bool {
    &&& after.spec_config() == before.spec_config()
    &&& after.selection_list() == record_entry(before.selection_list(), step, group, plugins)
    &&& after.spec_ctx().flag_view() == flags_after_select(
        before.spec_ctx().flag_view(),
        before.spec_config(),
        step,
        group,
        plugins,
    )
    &&& after.spec_ctx().file_states == before.spec_ctx().file_states
    &&& after.spec_ctx().game_version == before.spec_ctx().game_version
}

/// Two installers agree on everything the plan depends on: configuration,
/// recorded selections, flags, file states and game version.
pub open spec fn installers_agree(a: Installer, b: Installer) -> bool {
    &&& a.spec_config() == b.spec_config()
    &&& a.selection_list() == b.selection_list()
    &&& contexts_agree(a.spec_ctx(), b.spec_ctx())
}

proof fn lemma_with_priority_nonempty(ops: Seq<FileOperation>)
    requires
        ops.len() > 0,
    ensures
        with_priority(ops, ops.last().priority).len() > 0,
        with_priority(ops, ops.last().priority).last() == ops.last(),
{
}

proof fn lemma_sorted_unique(a: Seq<FileOperation>, b: Seq<FileOperation>)
    requires
        priority_sorted(a),
        priority_sorted(b),
        forall|p: i32| #[trigger] with_priority(a, p) == with_priority(b, p),
    ensures
        a == b,
    decreases a.len() + b.len(),
{
    if a.len() == 0 && b.len() == 0 {
        assert(a =~= b);
    } else if a.len() == 0 {
        lemma_with_priority_nonempty(b);
        lemma_with_priority_none(a, b.last().priority);
        assert(with_priority(a, b.last().priority) == with_priority(b, b.last().priority));
    } else if b.len() == 0 {
        lemma_with_priority_nonempty(a);
        lemma_with_priority_none(b, a.last().priority);
        assert(with_priority(a, a.last().priority) == with_priority(b, a.last().priority));
    } else {
        let x = a.last();
        let y = b.last();
        lemma_with_priority_nonempty(a);
        lemma_with_priority_nonempty(b);
        if x.priority < y.priority {
            assert forall|i: int| 0 <= i < a.len() implies a[i].priority != y.priority by {
                if i < a.len() - 1 {
                    assert(a[i].priority <= a[a.len() - 1].priority);
                }
            }
            lemma_with_priority_none(a, y.priority);
            assert(with_priority(a, y.priority) == with_priority(b, y.priority));
        }
        if y.priority < x.priority {
            assert forall|i: int| 0 <= i < b.len() implies b[i].priority != x.priority by {
                if i < b.len() - 1 {
                    assert(b[i].priority <= b[b.len() - 1].priority);
                }
            }
            lemma_with_priority_none(b, x.priority);
            assert(with_priority(a, x.priority) == with_priority(b, x.priority));
        }
        assert(x.priority == y.priority);
        assert(with_priority(a, x.priority) == with_priority(b, x.priority));
        assert(x == y);
        let a2 = a.drop_last();
        let b2 = b.drop_last();
        assert forall|p: i32| #[trigger] with_priority(a2, p) == with_priority(b2, p) by {
            assert(with_priority(a, p) == with_priority(b, p));
            if p == x.priority {
                assert(with_priority(a2, p) =~= with_priority(a, p).drop_last());
                assert(with_priority(b2, p) =~= with_priority(b, p).drop_last());
            }
        }
        lemma_sorted_unique(a2, b2);
        assert(a =~= a2.push(x));
        assert(b =~= b2.push(y));
    }
}

/// A stable sort by priority has one result: two plans that both sort the
/// same operations are equal.
pub proof fn lemma_stable_sort_unique(a: Seq<FileOperation>, b: Seq<FileOperation>, ops: Seq<FileOperation>)
    requires
        stable_priority_sort_of(a, ops),
        stable_priority_sort_of(b, ops),
    ensures
        a == b,
{
    assert forall|p: i32| #[trigger] with_priority(a, p) == with_priority(b, p) by {
        assert(with_priority(a, p) == with_priority(ops, p));
        assert(with_priority(b, p) == with_priority(ops, p));
    }
    lemma_sorted_unique(a, b);
}

proof fn lemma_conditional_agree(
    patterns: Seq<crate::config::ConditionalPattern>,
    a: EvalContext,
    b: EvalContext,
)
    requires
        contexts_agree(a, b),
    ensures
        conditional_pattern_ops(patterns, a) == conditional_pattern_ops(patterns, b),
    decreases patterns.len(),
{
    if patterns.len() > 0 {
        lemma_conditional_agree(patterns.drop_last(), a, b);
        lemma_holds_agree(patterns.last().dependencies, a, b);
    }
}

/// Installers that agree on configuration, recorded selections, flags, file
/// states and game version resolve to the same plan, operation for
/// operation.
pub proof fn lemma_resolve_deterministic(
    a: Installer,
    b: Installer,
    plan_a: Seq<FileOperation>,
    plan_b: Seq<FileOperation>,
)
    requires
        installers_agree(a, b),
        stable_priority_sort_of(plan_a, a.unsorted_ops()),
        stable_priority_sort_of(plan_b, b.unsorted_ops()),
    ensures
        plan_a == plan_b,
{
    match a.spec_config().conditional_file_installs {
        Some(cfi) => lemma_conditional_agree(cfi.patterns.patterns@, a.spec_ctx(), b.spec_ctx()),
        None => {},
    }
    assert(a.unsorted_ops() == b.unsorted_ops());
    lemma_stable_sort_unique(plan_a, plan_b, a.unsorted_ops());
}

/// The same selection, made on installers that agree, leaves them agreeing;
/// so the same sequence of selections from agreeing installers ends in the
/// same plan.
pub proof fn lemma_select_keeps_agreement(
    a: Installer,
    b: Installer,
    a2: Installer,
    b2: Installer,
    step: usize,
    group: usize,
    plugins: Seq<usize>,
)
    requires
        installers_agree(a, b),
        selected(a, a2, step, group, plugins),
        selected(b, b2, step, group, plugins),
    ensures
        installers_agree(a2, b2),
{
}

proof fn lemma_selection_ops_update_missing(
    config: ModuleConfig,
    list: Seq<SelectionEntry>,
    i: int,
    e: SelectionEntry,
)
    requires
        0 <= i < list.len(),
        group_at(config, list[i].0 as int, list[i].1 as int) is None,
        group_at(config, e.0 as int, e.1 as int) is None,
    ensures
        selection_ops(config, list.update(i, e)) == selection_ops(config, list),
    decreases list.len(),
{
    let l2 = list.update(i, e);
    if i == list.len() - 1 {
        assert(l2.drop_last() =~= list.drop_last());
    } else {
        assert(l2.drop_last() =~= list.drop_last().update(i, e));
        lemma_selection_ops_update_missing(config, list.drop_last(), i, e);
        assert(l2.last() == list.last());
    }
}

/// Selecting in a group that does not exist (no such step, no groups, or no
/// such group) leaves the flags and the plan as they were.
pub proof fn lemma_select_missing_group_keeps_plan(
    before: Installer,
    after: Installer,
    step: usize,
    group: usize,
    plugins: Seq<usize>,
    plan_before: Seq<FileOperation>,
    plan_after: Seq<FileOperation>,
)
    requires
        group_at(before.spec_config(), step as int, group as int) is None,
        selected(before, after, step, group, plugins),
        stable_priority_sort_of(plan_before, before.unsorted_ops()),
        stable_priority_sort_of(plan_after, after.unsorted_ops()),
    ensures
        after.spec_ctx().flag_view() == before.spec_ctx().flag_view(),
        plan_after == plan_before,
{
    let config = before.spec_config();
    let list = before.selection_list();
    if has_entry(list, step, group) {
        lemma_has_entry_first(list, step, group);
        lemma_selection_ops_update_missing(config, list, first_entry(list, step, group), (step, group, plugins));
    } else {
        assert(list.push((step, group, plugins)).drop_last() =~= list);
        assert(selection_ops(config, list) + Seq::<FileOperation>::empty() =~= selection_ops(config, list));
    }
    assert(before.unsorted_ops() == after.unsorted_ops()) by {
        match config.conditional_file_installs {
            Some(cfi) => lemma_conditional_agree(cfi.patterns.patterns@, after.spec_ctx(), before.spec_ctx()),
            None => {},
        }
    }
    lemma_stable_sort_unique(plan_after, plan_before, before.unsorted_ops());
}

/// Selections in two different groups whose plugins set no flag of the
/// same name can be made in either order: the recorded selections and the
/// flags end the same.
pub proof fn lemma_disjoint_selects_commute(
    list: Seq<SelectionEntry>,
    flags: Map<Seq<char>, Seq<char>>,
    config: ModuleConfig,
    s1: usize,
    g1: usize,
    a: Seq<usize>,
    s2: usize,
    g2: usize,
    b: Seq<usize>,
)
    requires
        (s1, g1) != (s2, g2),
        group_at(config, s1 as int, g1 as int) matches Some(x) ==> (group_at(config, s2 as int, g2 as int) matches Some(y)
            ==> group_flag_names(x).disjoint(group_flag_names(y))),
    ensures
        entry_map(record_entry(record_entry(list, s1, g1, a), s2, g2, b)) == entry_map(
            record_entry(record_entry(list, s2, g2, b), s1, g1, a),
        ),
        flags_after_select(flags_after_select(flags, config, s1, g1, a), config, s2, g2, b)
            == flags_after_select(flags_after_select(flags, config, s2, g2, b), config, s1, g1, a),
{
    lemma_record_entry_map(list, s1, g1, a);
    lemma_record_entry_map(record_entry(list, s1, g1, a), s2, g2, b);
    lemma_record_entry_map(list, s2, g2, b);
    lemma_record_entry_map(record_entry(list, s2, g2, b), s1, g1, a);
    assert(entry_map(list).insert((s1, g1), a).insert((s2, g2), b) =~= entry_map(list).insert((s2, g2), b).insert(
        (s1, g1),
        a,
    ));
    let m12 = flags_after_select(flags_after_select(flags, config, s1, g1, a), config, s2, g2, b);
    let m21 = flags_after_select(flags_after_select(flags, config, s2, g2, b), config, s1, g1, a);
    assert forall|n: Seq<char>| #[trigger] value_of(m12, n) == value_of(m21, n) by {
        let f1 = flags_after_select(flags, config, s1, g1, a);
        let f2 = flags_after_select(flags, config, s2, g2, b);
        match group_at(config, s1 as int, g1 as int) {
            Some(x) => {
                lemma_choice_flag_values(flags, x, a, n);
                lemma_choice_flag_values(f2, x, a, n);
            },
            None => {},
        }
        match group_at(config, s2 as int, g2 as int) {
            Some(y) => {
                lemma_choice_flag_values(flags, y, b, n);
                lemma_choice_flag_values(f1, y, b, n);
            },
            None => {},
        }
        match (group_at(config, s1 as int, g1 as int), group_at(config, s2 as int, g2 as int)) {
            (Some(x), Some(y)) => {
                assert(!(group_flag_names(x).contains(n) && group_flag_names(y).contains(n)));
            },
            _ => {},
        }
    }
    assert(m12 =~= m21) by {
        assert forall|n: Seq<char>| m12.contains_key(n) <==> m21.contains_key(n) by {
            assert(value_of(m12, n) == value_of(m21, n));
        }
        assert forall|n: Seq<char>| m12.contains_key(n) implies m12[n] == m21[n] by {
            assert(value_of(m12, n) == value_of(m21, n));
        }
    }
}

proof fn lemma_first_entry_after_update(
    list: Seq<SelectionEntry>,
    i: int,
    e: SelectionEntry,
    step: usize,
    group: usize,
)
    requires
        0 <= i < list.len(),
        list[i].0 == e.0 && list[i].1 == e.1,
        (e.0, e.1) != (step, group),
    ensures
        has_entry(list.update(i, e), step, group) == has_entry(list, step, group),
        has_entry(list, step, group) ==> first_entry(list.update(i, e), step, group) == first_entry(
            list,
            step,
            group,
        ),
{
    let l2 = list.update(i, e);
    assert forall|j: int| 0 <= j < list.len() implies #[trigger] entry_is(l2, j, step, group) == entry_is(
        list,
        j,
        step,
        group,
    ) by {
        if j == i {
        }
    }
    if has_entry(list, step, group) {
        let j = choose|j: int| 0 <= j < list.len() && #[trigger] entry_is(list, j, step, group);
        assert(entry_is(l2, j, step, group));
        lemma_has_entry_first(list, step, group);
        let f = first_entry(list, step, group);
        assert(entry_is(l2, f, step, group));
        assert forall|q: int| 0 <= q < f implies !#[trigger] entry_is(l2, q, step, group) by {
            assert(!entry_is(list, q, step, group));
        }
        lemma_first_entry(l2, f, step, group);
    }
    if has_entry(l2, step, group) {
        let j = choose|j: int| 0 <= j < l2.len() && #[trigger] entry_is(l2, j, step, group);
        assert(entry_is(list, j, step, group));
    }
}

proof fn lemma_first_entry_after_push(list: Seq<SelectionEntry>, e: SelectionEntry, step: usize, group: usize)
    requires
        (e.0, e.1) != (step, group),
    ensures
        has_entry(list.push(e), step, group) == has_entry(list, step, group),
        has_entry(list, step, group) ==> first_entry(list.push(e), step, group) == first_entry(
            list,
            step,
            group,
        ),
{
    let l2 = list.push(e);
    if has_entry(list, step, group) {
        let j = choose|j: int| 0 <= j < list.len() && #[trigger] entry_is(list, j, step, group);
        assert(entry_is(l2, j, step, group));
        lemma_has_entry_first(list, step, group);
        let f = first_entry(list, step, group);
        assert(entry_is(l2, f, step, group));
        assert forall|q: int| 0 <= q < f implies !#[trigger] entry_is(l2, q, step, group) by {
            assert(!entry_is(list, q, step, group));
        }
        lemma_first_entry(l2, f, step, group);
    }
    if has_entry(l2, step, group) {
        let j = choose|j: int| 0 <= j < l2.len() && #[trigger] entry_is(l2, j, step, group);
        if j < list.len() {
            assert(entry_is(list, j, step, group));
        }
    }
}

proof fn lemma_record_entries_commute_ops(
    config: ModuleConfig,
    list: Seq<SelectionEntry>,
    s1: usize,
    g1: usize,
    a: Seq<usize>,
    s2: usize,
    g2: usize,
    b: Seq<usize>,
)
    requires
        (s1, g1) != (s2, g2),
    ensures
        selection_ops(config, record_entry(record_entry(list, s1, g1, a), s2, g2, b)).to_multiset()
            == selection_ops(config, record_entry(record_entry(list, s2, g2, b), s1, g1, a)).to_multiset(),
{
    let e1 = (s1, g1, a);
    let e2 = (s2, g2, b);
    let h1 = has_entry(list, s1, g1);
    let h2 = has_entry(list, s2, g2);
    if h1 {
        lemma_has_entry_first(list, s1, g1);
    }
    if h2 {
        lemma_has_entry_first(list, s2, g2);
    }
    let l1 = record_entry(list, s1, g1, a);
    let l2 = record_entry(list, s2, g2, b);
    if h1 {
        lemma_first_entry_after_update(list, first_entry(list, s1, g1), e1, s2, g2);
    } else {
        lemma_first_entry_after_push(list, e1, s2, g2);
    }
    if h2 {
        lemma_first_entry_after_update(list, first_entry(list, s2, g2), e2, s1, g1);
    } else {
        lemma_first_entry_after_push(list, e2, s1, g1);
    }
    let r12 = record_entry(l1, s2, g2, b);
    let r21 = record_entry(l2, s1, g1, a);
    if h1 || h2 {
        assert(r12 =~= r21);
    } else {
        let ops = selection_ops(config, list);
        let x1 = match group_at(config, s1 as int, g1 as int) {
            Some(g) => chosen_ops(g, a),
            None => Seq::<FileOperation>::empty(),
        };
        let x2 = match group_at(config, s2 as int, g2 as int) {
            Some(g) => chosen_ops(g, b),
            None => Seq::<FileOperation>::empty(),
        };
        assert(r12 == list.push(e1).push(e2));
        assert(r21 == list.push(e2).push(e1));
        assert(list.push(e1).push(e2).drop_last() == list.push(e1));
        assert(list.push(e1).drop_last() == list);
        assert(list.push(e2).push(e1).drop_last() == list.push(e2));
        assert(list.push(e2).drop_last() == list);
        assert(list.push(e1).last() == e1);
        assert(list.push(e2).last() == e2);
        assert(list.push(e1).push(e2).last() == e2);
        assert(list.push(e2).push(e1).last() == e1);
        assert(selection_ops(config, list.push(e1)) == ops + x1);
        assert(selection_ops(config, list.push(e2)) == ops + x2);
        assert(selection_ops(config, r12) == (ops + x1) + x2);
        assert(selection_ops(config, r21) == (ops + x2) + x1);
        vstd::seq_lib::lemma_multiset_commutative(ops + x1, x2);
        vstd::seq_lib::lemma_multiset_commutative(ops, x1);
        vstd::seq_lib::lemma_multiset_commutative(ops + x2, x1);
        vstd::seq_lib::lemma_multiset_commutative(ops, x2);
        broadcast use vstd::multiset::group_multiset_axioms;

        assert(selection_ops(config, r12).to_multiset() =~= selection_ops(config, r21).to_multiset());
    }
}

/// Selections in two different groups whose plugins set no flag of the same
/// name, made in either order, leave the same flags, the same recorded
/// selections per group, and plans with the same operations.
pub proof fn lemma_disjoint_selects_same_plan(
    start: Installer,
    first_a: Installer,
    both_ab: Installer,
    first_b: Installer,
    both_ba: Installer,
    s1: usize,
    g1: usize,
    a: Seq<usize>,
    s2: usize,
    g2: usize,
    b: Seq<usize>,
    plan_ab: Seq<FileOperation>,
    plan_ba: Seq<FileOperation>,
)
    requires
        (s1, g1) != (s2, g2),
        group_at(start.spec_config(), s1 as int, g1 as int) matches Some(x) ==> (group_at(
            start.spec_config(),
            s2 as int,
            g2 as int,
        ) matches Some(y) ==> group_flag_names(x).disjoint(group_flag_names(y))),
        selected(start, first_a, s1, g1, a),
        selected(first_a, both_ab, s2, g2, b),
        selected(start, first_b, s2, g2, b),
        selected(first_b, both_ba, s1, g1, a),
        stable_priority_sort_of(plan_ab, both_ab.unsorted_ops()),
        stable_priority_sort_of(plan_ba, both_ba.unsorted_ops()),
    ensures
        both_ab.spec_ctx().flag_view() == both_ba.spec_ctx().flag_view(),
        both_ab.selection_map() == both_ba.selection_map(),
        plan_ab.to_multiset() == plan_ba.to_multiset(),
{
    broadcast use vstd::seq_lib::group_to_multiset_ensures;
    broadcast use vstd::multiset::group_multiset_axioms;

    let config = start.spec_config();
    lemma_disjoint_selects_commute(
        start.selection_list(),
        start.spec_ctx().flag_view(),
        config,
        s1,
        g1,
        a,
        s2,
        g2,
        b,
    );
    lemma_record_entries_commute_ops(config, start.selection_list(), s1, g1, a, s2, g2, b);
    lemma_plan_is_permutation(both_ab, plan_ab);
    lemma_plan_is_permutation(both_ba, plan_ba);
    let c_ab = conditional_ops(config, both_ab.spec_ctx());
    let c_ba = conditional_ops(config, both_ba.spec_ctx());
    match config.conditional_file_installs {
        Some(cfi) => lemma_conditional_agree(cfi.patterns.patterns@, both_ab.spec_ctx(), both_ba.spec_ctx()),
        None => {},
    }
    assert(c_ab == c_ba);
    let r = required_ops(config);
    let sab = selection_ops(config, both_ab.selection_list());
    let sba = selection_ops(config, both_ba.selection_list());
    vstd::seq_lib::lemma_multiset_commutative(r + sab, c_ab);
    vstd::seq_lib::lemma_multiset_commutative(r, sab);
    vstd::seq_lib::lemma_multiset_commutative(r + sba, c_ba);
    vstd::seq_lib::lemma_multiset_commutative(r, sba);
    assert(both_ab.unsorted_ops().to_multiset() =~= both_ba.unsorted_ops().to_multiset());
}

/// The operation a `<file>` or `<folder>` item with reference `r` becomes.
pub open spec fn item_operation(r: crate::config::FileRef, folder: bool) -> FileOperation {
    FileOperation { source: r.source, destination: r.destination, is_folder: folder, priority: r.priority }
}

/// Each item of a file list becomes one operation, in order, carrying the
/// item's source, destination and priority, and marked as a folder exactly
/// when the item is a `<folder>`.
pub proof fn lemma_list_ops_items(files: FileList)
    ensures
        list_ops(files).len() == files.items@.len(),
        forall|i: int|
            0 <= i < files.items@.len() ==> (files.items@[i] matches FileItem::File(r) ==> #[trigger] list_ops(
                files,
            )[i] == item_operation(r, false)),
        forall|i: int|
            0 <= i < files.items@.len() ==> (files.items@[i] matches FileItem::Folder(r) ==> #[trigger] list_ops(
                files,
            )[i] == item_operation(r, true)),
{
}

/// Every always-installed file is in the plan as an operation with its own
/// source, destination and priority, marked as a folder exactly when it is a
/// `<folder>`.
pub proof fn lemma_required_files_in_plan(inst: Installer, plan: Seq<FileOperation>, files: FileList, i: int)
    requires
        stable_priority_sort_of(plan, inst.unsorted_ops()),
        inst.spec_config().required_install_files == Some(files),
        0 <= i < files.items@.len(),
    ensures
        files.items@[i] matches FileItem::File(r) ==> plan.contains(item_operation(r, false)),
        files.items@[i] matches FileItem::Folder(r) ==> plan.contains(item_operation(r, true)),
{
    broadcast use vstd::seq_lib::group_to_multiset_ensures;

    lemma_list_ops_items(files);
    let x = list_ops(files)[i];
    assert(inst.unsorted_ops()[i] == x);
    assert(inst.unsorted_ops().contains(x));
    lemma_plan_is_permutation(inst, plan);
    assert(inst.unsorted_ops().to_multiset().count(x) > 0);
    assert(plan.to_multiset().count(x) > 0);
}

/// The default selection of a group: for `SelectAll` every plugin, in order;
/// otherwise only Required or Recommended plugins, each once in increasing
/// position. `SelectAtLeastOne` and `SelectAny` take every one of those; the
/// groups of at most or exactly one take the first of them, or none when
/// there is none.
pub proof fn lemma_default_selection_meaning(group: Group)
    requires
        group.plugins.plugins@.len() <= usize::MAX,
    ensures
        group.group_type == GroupType::SelectAll ==> spec_default_selections(group).len()
            == group.plugins.plugins@.len() && forall|k: int|
            0 <= k < spec_default_selections(group).len() ==> #[trigger] spec_default_selections(group)[k] == k,
        group.group_type != GroupType::SelectAll ==> forall|k: int|
            0 <= k < spec_default_selections(group).len() ==> (#[trigger] group.plugins.plugins@[spec_default_selections(
                group,
            )[k] as int].spec_plugin_type() == PluginType::Required
                || group.plugins.plugins@[spec_default_selections(group)[k] as int].spec_plugin_type()
                == PluginType::Recommended),
        group.group_type == GroupType::SelectAtLeastOne || group.group_type == GroupType::SelectAny
            ==> forall|i: int|
            0 <= i < group.plugins.plugins@.len() && (#[trigger] group.plugins.plugins@[i].spec_plugin_type()
                == PluginType::Required || group.plugins.plugins@[i].spec_plugin_type()
                == PluginType::Recommended) ==> spec_default_selections(group).contains(i as usize),
        group.group_type == GroupType::SelectExactlyOne || group.group_type == GroupType::SelectAtMostOne
            ==> spec_default_selections(group).len() <= 1,
        group.group_type == GroupType::SelectExactlyOne || group.group_type == GroupType::SelectAtMostOne
            ==> (spec_default_selections(group).len() == 0 <==> forall|i: int|
            0 <= i < group.plugins.plugins@.len() ==> #[trigger] group.plugins.plugins@[i].spec_plugin_type()
                != PluginType::Required && group.plugins.plugins@[i].spec_plugin_type()
                != PluginType::Recommended),
        group.group_type == GroupType::SelectExactlyOne || group.group_type == GroupType::SelectAtMostOne
            ==> (spec_default_selections(group).len() == 1 ==> forall|j: int|
            0 <= j < spec_default_selections(group)[0] ==> #[trigger] group.plugins.plugins@[j].spec_plugin_type()
                != PluginType::Required && group.plugins.plugins@[j].spec_plugin_type()
                != PluginType::Recommended),
{
    let ps = group.plugins.plugins@;
    let d = spec_default_selections(group);
    let pref = preferred_indices(ps);
    lemma_preferred_in_bounds(ps);
    lemma_preferred_members(ps);
    match group.group_type {
        GroupType::SelectAll => {},
        GroupType::SelectExactlyOne | GroupType::SelectAtMostOne => {
            if pref.len() > 0 {
                assert(d[0] == pref[0]);
                assert(is_preferred(ps[pref[0] as int]));
                assert forall|j: int| 0 <= j < d[0] implies #[trigger] ps[j].spec_plugin_type()
                    != PluginType::Required && ps[j].spec_plugin_type() != PluginType::Recommended by {
                    assert(!is_preferred(ps[j]));
                }
                assert(exists|i: int| 0 <= i < ps.len() && !(ps[i].spec_plugin_type()
                    != PluginType::Required && ps[i].spec_plugin_type() != PluginType::Recommended)) by {
                    assert(pref[0] < ps.len());
                }
            } else {
                assert forall|i: int| 0 <= i < ps.len() implies #[trigger] ps[i].spec_plugin_type()
                    != PluginType::Required && ps[i].spec_plugin_type() != PluginType::Recommended by {
                    assert(!is_preferred(ps[i]));
                }
            }
        },
        _ => {
            assert forall|k: int| 0 <= k < d.len() implies (#[trigger] ps[d[k] as int].spec_plugin_type()
                == PluginType::Required || ps[d[k] as int].spec_plugin_type() == PluginType::Recommended) by {
                assert(is_preferred(ps[pref[k] as int]));
            }
            assert forall|i: int|
                0 <= i < ps.len() && (#[trigger] ps[i].spec_plugin_type() == PluginType::Required
                    || ps[i].spec_plugin_type() == PluginType::Recommended) implies d.contains(i as usize) by {
                assert(is_preferred(ps[i]));
            }
        },
    }
}

proof fn lemma_preferred_members(ps: Seq<Plugin>)
    requires
        ps.len() <= usize::MAX,
    ensures
        forall|k: int|
            0 <= k < preferred_indices(ps).len() ==> is_preferred(#[trigger] ps[preferred_indices(ps)[k] as int]),
        forall|i: int| 0 <= i < ps.len() && is_preferred(#[trigger] ps[i]) ==> preferred_indices(ps).contains(i as usize),
        preferred_indices(ps).len() > 0 ==> forall|j: int| 0 <= j < preferred_indices(ps)[0] ==> !is_preferred(#[trigger] ps[j]),
        preferred_indices(ps).len() == 0 ==> forall|i: int| 0 <= i < ps.len() ==> !is_preferred(#[trigger] ps[i]),
    decreases ps.len(),
{
    if ps.len() > 0 {
        let pre = ps.drop_last();
        lemma_preferred_members(pre);
        lemma_preferred_in_bounds(pre);
        let rest = preferred_indices(pre);
        let n = ps.len() - 1;
        assert forall|k: int|
            0 <= k < preferred_indices(ps).len() implies is_preferred(#[trigger] ps[preferred_indices(ps)[k] as int]) by {
            if k < rest.len() {
                assert(preferred_indices(ps)[k] == rest[k]);
                assert(ps[rest[k] as int] == pre[rest[k] as int]);
            }
        }
        assert forall|i: int| 0 <= i < ps.len() && is_preferred(#[trigger] ps[i]) implies preferred_indices(
            ps,
        ).contains(i as usize) by {
            if i < n {
                assert(pre[i] == ps[i]);
                let k = choose|k: int| 0 <= k < rest.len() && rest[k] == i as usize;
                assert(preferred_indices(ps)[k] == i as usize);
            } else {
                assert(preferred_indices(ps)[rest.len() as int] == i as usize);
            }
        }
        if preferred_indices(ps).len() > 0 {
            if rest.len() > 0 {
                assert(preferred_indices(ps)[0] == rest[0]);
                assert forall|j: int| 0 <= j < preferred_indices(ps)[0] implies !is_preferred(#[trigger] ps[j]) by {
                    assert(pre[j] == ps[j]);
                }
            } else {
                assert forall|j: int| 0 <= j < preferred_indices(ps)[0] implies !is_preferred(#[trigger] ps[j]) by {
                    assert(pre[j] == ps[j]);
                }
            }
        }
        if preferred_indices(ps).len() == 0 {
            assert forall|i: int| 0 <= i < ps.len() implies !is_preferred(#[trigger] ps[i]) by {
                if i < n {
                    assert(pre[i] == ps[i]);
                }
            }
        }
    }
}

/// What each group type demands of the number of chosen plugins, for a
/// group of `n` plugins: exactly one, at most one, at least one, all of
/// them, or any number.
pub proof fn lemma_count_rules(t: GroupType, count: nat, n: nat)
    ensures
        t == GroupType::SelectExactlyOne ==> (count_violation(t, count, n) is None <==> count == 1),
        t == GroupType::SelectAtMostOne ==> (count_violation(t, count, n) is None <==> count <= 1),
        t == GroupType::SelectAtLeastOne ==> (count_violation(t, count, n) is None <==> count >= 1),
        t == GroupType::SelectAll ==> (count_violation(t, count, n) is None <==> count == n),
        t == GroupType::SelectAny ==> count_violation(t, count, n) is None,
{
}

/// A selection fits its group exactly when every index names a plugin of
/// the group and the number of indices is what the group type demands.
pub proof fn lemma_selection_fits_meaning(group: Group, selected: Seq<usize>)
    ensures
        selection_fits(group, selected) <==> (forall|i: int|
            0 <= i < selected.len() ==> #[trigger] selected[i] < group.plugins.plugins@.len()) && match group.group_type {
            GroupType::SelectExactlyOne => selected.len() == 1,
            GroupType::SelectAtMostOne => selected.len() <= 1,
            GroupType::SelectAtLeastOne => selected.len() >= 1,
            GroupType::SelectAll => selected.len() == group.plugins.plugins@.len(),
            GroupType::SelectAny => true,
        },
{
}

proof fn lemma_conditional_contains(
    patterns: Seq<crate::config::ConditionalPattern>,
    ctx: EvalContext,
    j: int,
    f: int,
)
    requires
        0 <= j < patterns.len(),
        patterns[j].dependencies.holds(ctx),
        0 <= f < patterns[j].files.items@.len(),
    ensures
        conditional_pattern_ops(patterns, ctx).contains(op_of(patterns[j].files.items@[f])),
    decreases patterns.len(),
{
    let pre = patterns.drop_last();
    let x = op_of(patterns[j].files.items@[f]);
    if j < patterns.len() - 1 {
        assert(pre[j] == patterns[j]);
        lemma_conditional_contains(pre, ctx, j, f);
        let i = choose|i: int| 0 <= i < conditional_pattern_ops(pre, ctx).len() && conditional_pattern_ops(pre, ctx)[i] == x;
        assert(conditional_pattern_ops(patterns, ctx)[i] == x);
    } else {
        let lo = list_ops(patterns[j].files);
        assert(lo[f] == x);
        assert(conditional_pattern_ops(patterns, ctx)[conditional_pattern_ops(pre, ctx).len() + f] == x);
    }
}

proof fn lemma_conditional_only(patterns: Seq<crate::config::ConditionalPattern>, ctx: EvalContext, x: FileOperation)
    requires
        conditional_pattern_ops(patterns, ctx).contains(x),
    ensures
        exists|j: int|
            0 <= j < patterns.len() && #[trigger] patterns[j].dependencies.holds(ctx) && list_ops(
                patterns[j].files,
            ).contains(x),
    decreases patterns.len(),
{
    let pre = patterns.drop_last();
    let c0 = conditional_pattern_ops(pre, ctx);
    let i = choose|i: int| 0 <= i < conditional_pattern_ops(patterns, ctx).len() && conditional_pattern_ops(patterns, ctx)[i] == x;
    if i < c0.len() {
        assert(c0[i] == x);
        lemma_conditional_only(pre, ctx, x);
        let j = choose|j: int|
            0 <= j < pre.len() && #[trigger] pre[j].dependencies.holds(ctx) && list_ops(pre[j].files).contains(x);
        assert(pre[j] == patterns[j]);
    } else {
        let last = patterns.last();
        assert(last.dependencies.holds(ctx));
        assert(list_ops(last.files)[i - c0.len()] == x);
        assert(patterns[patterns.len() - 1] == last);
    }
}

/// Every file of a conditional install whose dependencies hold in the
/// installer's context is in the plan.
pub proof fn lemma_plan_includes_holding_patterns(
    inst: Installer,
    plan: Seq<FileOperation>,
    cfi: crate::config::ConditionalFileInstalls,
    j: int,
    f: int,
)
    requires
        stable_priority_sort_of(plan, inst.unsorted_ops()),
        inst.spec_config().conditional_file_installs == Some(cfi),
        0 <= j < cfi.patterns.patterns@.len(),
        cfi.patterns.patterns@[j].dependencies.holds(inst.spec_ctx()),
        0 <= f < cfi.patterns.patterns@[j].files.items@.len(),
    ensures
        plan.contains(op_of(cfi.patterns.patterns@[j].files.items@[f])),
{
    broadcast use vstd::seq_lib::group_to_multiset_ensures;

    let x = op_of(cfi.patterns.patterns@[j].files.items@[f]);
    lemma_conditional_contains(cfi.patterns.patterns@, inst.spec_ctx(), j, f);
    let c = conditional_ops(inst.spec_config(), inst.spec_ctx());
    let i = choose|i: int| 0 <= i < c.len() && c[i] == x;
    let pre = required_ops(inst.spec_config()) + selection_ops(inst.spec_config(), inst.selection_list());
    assert(inst.unsorted_ops()[pre.len() + i] == x);
    assert(inst.unsorted_ops().contains(x));
    lemma_plan_is_permutation(inst, plan);
    assert(inst.unsorted_ops().to_multiset().count(x) > 0);
    assert(plan.to_multiset().count(x) > 0);
}

/// Every operation in the plan comes from an always-installed file, from a
/// selected plugin, or from a conditional install whose dependencies hold.
pub proof fn lemma_plan_sources(inst: Installer, plan: Seq<FileOperation>, x: FileOperation)
    requires
        stable_priority_sort_of(plan, inst.unsorted_ops()),
        plan.contains(x),
    ensures
        required_ops(inst.spec_config()).contains(x) || selection_ops(inst.spec_config(), inst.selection_list()).contains(x)
            || (inst.spec_config().conditional_file_installs matches Some(cfi) && exists|j: int|
            0 <= j < cfi.patterns.patterns@.len() && #[trigger] cfi.patterns.patterns@[j].dependencies.holds(
                inst.spec_ctx(),
            ) && list_ops(cfi.patterns.patterns@[j].files).contains(x)),
{
    broadcast use vstd::seq_lib::group_to_multiset_ensures;

    lemma_plan_is_permutation(inst, plan);
    assert(plan.to_multiset().count(x) > 0);
    let u = inst.unsorted_ops();
    assert(u.to_multiset().count(x) > 0);
    assert(u.contains(x));
    let r = required_ops(inst.spec_config());
    let sl = selection_ops(inst.spec_config(), inst.selection_list());
    let c = conditional_ops(inst.spec_config(), inst.spec_ctx());
    let i = choose|i: int| 0 <= i < u.len() && u[i] == x;
    if i < r.len() {
        assert(r[i] == x);
    } else if i < r.len() + sl.len() {
        assert(sl[i - r.len()] == x);
    } else {
        assert(c[i - r.len() - sl.len()] == x);
        match inst.spec_config().conditional_file_installs {
            Some(cfi) => {
                lemma_conditional_only(cfi.patterns.patterns@, inst.spec_ctx(), x);
            },
            None => {},
        }
    }
}

/// A step without a visibility condition is always shown; a step with one
/// is shown exactly when the condition holds in the installer's context.
pub proof fn lemma_step_visibility(inst: Installer, step: InstallStep)
    ensures
        step.visible is None ==> inst.step_visible(step),
        step.visible matches Some(v) ==> (inst.step_visible(step) <==> v.holds(inst.spec_ctx())),
{
}

/// The value `m` has for `n`, if any.
pub open spec fn value_of(m: Map<Seq<char>, Seq<char>>, n: Seq<char>) -> Option<Seq<char>> {
    if m.contains_key(n) {
        Some(m[n])
    } else {
        None
    }
}

/// The value of the last pair of `pairs` named `n`, if any.
pub open spec fn last_value(pairs: Seq<(Seq<char>, Seq<char>)>, n: Seq<char>) -> Option<Seq<char>>
    decreases pairs.len(),
{
    if pairs.len() == 0 {
        None
    } else if pairs.last().0 == n {
        Some(pairs.last().1)
    } else {
        last_value(pairs.drop_last(), n)
    }
}

proof fn lemma_set_pairs_value(m: Map<Seq<char>, Seq<char>>, pairs: Seq<(Seq<char>, Seq<char>)>, n: Seq<char>)
    ensures
        value_of(set_pairs(m, pairs), n) == match last_value(pairs, n) {
            Some(v) => Some(v),
            None => value_of(m, n),
        },
    decreases pairs.len(),
{
    if pairs.len() > 0 {
        lemma_set_pairs_value(m, pairs.drop_last(), n);
    }
}

proof fn lemma_last_value_none(pairs: Seq<(Seq<char>, Seq<char>)>, n: Seq<char>)
    requires
        forall|k: int| 0 <= k < pairs.len() ==> #[trigger] pairs[k].0 != n,
    ensures
        last_value(pairs, n) is None,
    decreases pairs.len(),
{
    if pairs.len() > 0 {
        assert(pairs[pairs.len() - 1].0 != n);
        assert forall|k: int| 0 <= k < pairs.drop_last().len() implies #[trigger] pairs.drop_last()[k].0 != n by {
            assert(pairs.drop_last()[k] == pairs[k]);
        }
        lemma_last_value_none(pairs.drop_last(), n);
    }
}

/// After choosing `indices` in `group`, a flag that some plugin of the group
/// sets has the value of the last such flag among the chosen plugins' flags
/// (taken in order), or is unset when none of them sets it; every other flag
/// keeps its value.
pub proof fn lemma_choice_flag_values(
    flags: Map<Seq<char>, Seq<char>>,
    group: Group,
    indices: Seq<usize>,
    n: Seq<char>,
)
    ensures
        value_of(flags_after_choice(flags, group, indices), n) == if group_flag_names(group).contains(n) {
            last_value(selected_flag_pairs(group, indices), n)
        } else {
            value_of(flags, n)
        },
{
    let names = group_flag_names(group);
    let pairs = selected_flag_pairs(group, indices);
    lemma_set_pairs_value(flags.remove_keys(names), pairs, n);
    if !names.contains(n) {
        assert forall|k: int| 0 <= k < pairs.len() implies #[trigger] pairs[k].0 != n by {
            lemma_selected_pairs_in_group(group, indices, k);
        }
        lemma_last_value_none(pairs, n);
    }
}

proof fn lemma_last_value_concat(a: Seq<(Seq<char>, Seq<char>)>, b: Seq<(Seq<char>, Seq<char>)>, n: Seq<char>)
    ensures
        last_value(a + b, n) == if last_value(b, n) is Some {
            last_value(b, n)
        } else {
            last_value(a, n)
        },
    decreases b.len(),
{
    if b.len() == 0 {
        assert(a + b =~= a);
    } else {
        lemma_last_value_concat(a, b.drop_last(), n);
        assert((a + b).drop_last() =~= a + b.drop_last());
        assert((a + b).last() == b.last());
    }
}

proof fn lemma_last_value_found(pp: Seq<(Seq<char>, Seq<char>)>, n: Seq<char>)
    ensures
        last_value(pp, n) is None ==> forall|f: int| 0 <= f < pp.len() ==> #[trigger] pp[f].0 != n,
        last_value(pp, n) matches Some(v) ==> exists|f: int|
            0 <= f < pp.len() && #[trigger] pp[f].0 == n && pp[f].1 == v && forall|f2: int|
                f < f2 < pp.len() ==> #[trigger] pp[f2].0 != n,
    decreases pp.len(),
{
    if pp.len() > 0 {
        let pre = pp.drop_last();
        lemma_last_value_found(pre, n);
        let m = pp.len() - 1;
        if pp.last().0 == n {
            assert(pp[m].0 == n && pp[m].1 == pp.last().1);
        } else {
            assert forall|f: int| 0 <= f < pre.len() implies pre[f] == pp[f] by {}
            match last_value(pre, n) {
                Some(v) => {
                    let f = choose|f: int|
                        0 <= f < pre.len() && #[trigger] pre[f].0 == n && pre[f].1 == v && forall|f2: int|
                            f < f2 < pre.len() ==> #[trigger] pre[f2].0 != n;
                    assert(pp[f] == pre[f]);
                    assert forall|f2: int| f < f2 < pp.len() implies #[trigger] pp[f2].0 != n by {
                        if f2 < m {
                            assert(pp[f2] == pre[f2]);
                        }
                    }
                },
                None => {
                    assert forall|f: int| 0 <= f < pp.len() implies #[trigger] pp[f].0 != n by {
                        if f < m {
                            assert(pp[f] == pre[f]);
                        }
                    }
                },
            }
        }
    }
}

/// Flag `f` of the plugin at position `k` of the chosen indices `ix` exists:
/// that index is a plugin of `group` with at least `f + 1` condition flags.
pub open spec fn chosen_flag(group: Group, ix: Seq<usize>, k: int, f: int) -> bool {
    &&& 0 <= k < ix.len()
    &&& ix[k] < group.plugins.plugins@.len()
    &&& group.plugins.plugins@[ix[k] as int].condition_flags matches Some(list) && 0 <= f < list.flags@.len()
}

/// Flag `f` of the plugin at position `k` of `ix`.
pub open spec fn chosen_flag_at(group: Group, ix: Seq<usize>, k: int, f: int) -> crate::config::ConditionFlag {
    group.plugins.plugins@[ix[k] as int].condition_flags->Some_0.flags@[f]
}

proof fn lemma_selected_pairs_last(group: Group, ix: Seq<usize>, n: Seq<char>)
    ensures
        last_value(selected_flag_pairs(group, ix), n) is None ==> forall|k: int, f: int|
            #[trigger] chosen_flag(group, ix, k, f) ==> chosen_flag_at(group, ix, k, f).name@ != n,
        last_value(selected_flag_pairs(group, ix), n) matches Some(v) ==> exists|k: int, f: int|
            #[trigger] chosen_flag(group, ix, k, f) && chosen_flag_at(group, ix, k, f).name@ == n
                && chosen_flag_at(group, ix, k, f).value@ == v && forall|k2: int, f2: int|
                #[trigger] chosen_flag(group, ix, k2, f2) && chosen_flag_at(group, ix, k2, f2).name@ == n
                    ==> k2 < k || (k2 == k && f2 <= f),
    decreases ix.len(),
{
    if ix.len() > 0 {
        let pre = ix.drop_last();
        let m = ix.len() - 1;
        let i = ix.last();
        lemma_selected_pairs_last(group, pre, n);
        let a = selected_flag_pairs(group, pre);
        let b = if i < group.plugins.plugins.len() {
            plugin_flag_pairs(group.plugins.plugins@[i as int])
        } else {
            Seq::empty()
        };
        lemma_last_value_concat(a, b, n);
        lemma_last_value_found(b, n);
        assert forall|k: int, f: int| 0 <= k < pre.len() implies #[trigger] chosen_flag(group, pre, k, f) == chosen_flag(
            group,
            ix,
            k,
            f,
        ) && chosen_flag_at(group, pre, k, f) == chosen_flag_at(group, ix, k, f) by {
            assert(pre[k] == ix[k]);
        }
        // flags of the last chosen plugin are the pairs of `b`
        assert forall|f: int| #[trigger] chosen_flag(group, ix, m, f) implies 0 <= f < b.len() && b[f] == (
        chosen_flag_at(group, ix, m, f).name@,
        chosen_flag_at(group, ix, m, f).value@,
        ) by {
            assert(ix[m] == i);
        }
        assert forall|f: int| 0 <= f < b.len() implies #[trigger] chosen_flag(group, ix, m, f) && b[f] == (
        chosen_flag_at(group, ix, m, f).name@,
        chosen_flag_at(group, ix, m, f).value@,
        ) by {
            assert(ix[m] == i);
            assert(i < group.plugins.plugins.len());
        }
        match last_value(b, n) {
            Some(v) => {
                let f = choose|f: int|
                    0 <= f < b.len() && #[trigger] b[f].0 == n && b[f].1 == v && forall|f2: int|
                        f < f2 < b.len() ==> #[trigger] b[f2].0 != n;
                assert(chosen_flag(group, ix, m, f));
                assert forall|k2: int, f2: int|
                    #[trigger] chosen_flag(group, ix, k2, f2) && chosen_flag_at(group, ix, k2, f2).name@ == n
                        implies k2 < m || (k2 == m && f2 <= f) by {
                    if k2 == m && f2 > f {
                        assert(b[f2].0 == n);
                    }
                }
            },
            None => {
                match last_value(a, n) {
                    Some(v) => {
                        let (k, f) = choose|k: int, f: int|
                            #[trigger] chosen_flag(group, pre, k, f) && chosen_flag_at(group, pre, k, f).name@ == n
                                && chosen_flag_at(group, pre, k, f).value@ == v && forall|k2: int, f2: int|
                                #[trigger] chosen_flag(group, pre, k2, f2) && chosen_flag_at(group, pre, k2, f2).name@
                                    == n ==> k2 < k || (k2 == k && f2 <= f);
                        assert(chosen_flag(group, ix, k, f));
                        assert forall|k2: int, f2: int|
                            #[trigger] chosen_flag(group, ix, k2, f2) && chosen_flag_at(group, ix, k2, f2).name@ == n
                                implies k2 < k || (k2 == k && f2 <= f) by {
                            if k2 == m {
                                assert(b[f2].0 == n);
                            } else {
                                assert(chosen_flag(group, pre, k2, f2));
                            }
                        }
                    },
                    None => {
                        assert forall|k: int, f: int| #[trigger] chosen_flag(group, ix, k, f) implies chosen_flag_at(
                            group,
                            ix,
                            k,
                            f,
                        ).name@ != n by {
                            if k == m {
                                assert(b[f].0 != n);
                            } else {
                                assert(chosen_flag(group, pre, k, f));
                            }
                        }
                    },
                }
            },
        }
    }
}

/// After choosing the plugins at `ix` in `group`: a flag that some chosen
/// plugin sets takes the value that the last of them (in `ix` order; its
/// last flag of that name) gives it; a flag that only unchosen plugins of
/// the group set is cleared; any other flag keeps its value.
pub proof fn lemma_choice_last_flag_wins(
    flags: Map<Seq<char>, Seq<char>>,
    group: Group,
    ix: Seq<usize>,
    n: Seq<char>,
)
    ensures
        (exists|k: int, f: int| #[trigger] chosen_flag(group, ix, k, f) && chosen_flag_at(group, ix, k, f).name@ == n)
            ==> exists|k: int, f: int|
            #[trigger] chosen_flag(group, ix, k, f) && chosen_flag_at(group, ix, k, f).name@ == n && value_of(
                flags_after_choice(flags, group, ix),
                n,
            ) == Some(chosen_flag_at(group, ix, k, f).value@) && forall|k2: int, f2: int|
                #[trigger] chosen_flag(group, ix, k2, f2) && chosen_flag_at(group, ix, k2, f2).name@ == n
                    ==> k2 < k || (k2 == k && f2 <= f),
        !(exists|k: int, f: int| #[trigger] chosen_flag(group, ix, k, f) && chosen_flag_at(group, ix, k, f).name@ == n)
            && group_flag_names(group).contains(n) ==> value_of(flags_after_choice(flags, group, ix), n) is None,
        !group_flag_names(group).contains(n) ==> value_of(flags_after_choice(flags, group, ix), n) == value_of(
            flags,
            n,
        ),
{
    lemma_choice_flag_values(flags, group, ix, n);
    lemma_selected_pairs_last(group, ix, n);
    if exists|k: int, f: int| #[trigger] chosen_flag(group, ix, k, f) && chosen_flag_at(group, ix, k, f).name@ == n {
        let (k, f) = choose|k: int, f: int| #[trigger] chosen_flag(group, ix, k, f) && chosen_flag_at(group, ix, k, f).name@ == n;
        let list = group.plugins.plugins@[ix[k] as int].condition_flags->Some_0;
        assert(plugin_flag_pairs(group.plugins.plugins@[ix[k] as int])[f].0 == n);
        assert(group_sets_flag(group, n));
        assert(group_flag_names(group).contains(n));
    }
}

/// The positions of the preferred plugins of `plugins`, in order.
fn preferred_positions(plugins: &Vec<Plugin>) -> (r: Vec<usize>)
    ensures
        r@ == preferred_indices(plugins@),
{
    let mut out: Vec<usize> = Vec::new();
    let mut i: usize = 0;
    while i < plugins.len()
        invariant
            i <= plugins@.len(),
            out@ == preferred_indices(plugins@.subrange(0, i as int)),
        decreases plugins@.len() - i,
    {
        let t = plugins[i].plugin_type();
        proof {
            assert(plugins@.subrange(0, i + 1).drop_last() =~= plugins@.subrange(0, i as int));
        }
        if t == PluginType::Required || t == PluginType::Recommended {
            out.push(i);
        }
        i = i + 1;
    }
    assert(plugins@.subrange(0, i as int) =~= plugins@);
    out
}

/// Removes every flag that some plugin of `group` sets.
fn clear_group_flags(ctx: &mut EvalContext, group: &Group)
    ensures
        final(ctx).flag_view() == old(ctx).flag_view().remove_keys(group_flag_names(*group)),
        final(ctx).file_states == old(ctx).file_states,
        final(ctx).game_version == old(ctx).game_version,
{
    let plugins = &group.plugins.plugins;
    let ghost start = ctx.flag_view();
    let mut p: usize = 0;
    while p < plugins.len()
        invariant
            p <= plugins@.len(),
            plugins@ == group.plugins.plugins@,
            ctx.flag_view() == start.remove_keys(cleared_names(*group, p as int, 0)),
            ctx.file_states == old(ctx).file_states,
            ctx.game_version == old(ctx).game_version,
            start == old(ctx).flag_view(),
        decreases plugins@.len() - p,
    {
        match &plugins[p].condition_flags {
            Some(list) => {
                let mut f: usize = 0;
                while f < list.flags.len()
                    invariant
                        p < plugins@.len(),
                        f <= list.flags@.len(),
                        plugins@ == group.plugins.plugins@,
                        plugin_flag_pairs(plugins@[p as int]) == list.flags@.map_values(
                            |fl: crate::config::ConditionFlag| (fl.name@, fl.value@),
                        ),
                        ctx.flag_view() == start.remove_keys(cleared_names(*group, p as int, f as int)),
                        ctx.file_states == old(ctx).file_states,
                        ctx.game_version == old(ctx).game_version,
                    decreases list.flags@.len() - f,
                {
                    let name = &list.flags[f].name;
                    let ghost prior = ctx.flag_view();
                    ctx.flags.remove(name.as_str());
                    proof {
                        assert(ctx.flag_view() =~= prior.remove(name@));
                        assert(start.remove_keys(cleared_names(*group, p as int, f as int).insert(name@))
                            =~= start.remove_keys(cleared_names(*group, p as int, f as int)).remove(name@));
                        let pp = plugin_flag_pairs(plugins@[p as int]);
                        assert(pp[f as int].0 == name@);
                        assert(cleared_names(*group, p as int, f + 1) =~= cleared_names(
                            *group,
                            p as int,
                            f as int,
                        ).insert(name@));
                        assert(ctx.flag_view() =~= start.remove_keys(
                            cleared_names(*group, p as int, f + 1),
                        ));
                    }
                    f = f + 1;
                }
                proof {
                    assert(cleared_names(*group, p as int, f as int) =~= cleared_names(
                        *group,
                        p + 1,
                        0,
                    ));
                }
            },
            None => {
                proof {
                    assert(plugin_flag_pairs(plugins@[p as int]).len() == 0);
                    assert(cleared_names(*group, p as int, 0) =~= cleared_names(*group, p + 1, 0));
                }
            },
        }
        p = p + 1;
    }
    proof {
        assert(cleared_names(*group, p as int, 0) =~= group_flag_names(*group));
    }
}

/// The flag names set by plugins before `p`, and by the first `f` flags of plugin `p`.
spec fn cleared_names(group: Group, p: int, f: int) -> Set<Seq<char>> {
    Set::new(
        |name: Seq<char>|
            exists|q: int, g: int|
                0 <= q < group.plugins.plugins.len() && 0 <= g < plugin_flag_pairs(
                    group.plugins.plugins@[q],
                ).len() && (q < p || (q == p && g < f)) && #[trigger] plugin_flag_pairs(
                    group.plugins.plugins@[q],
                )[g].0 == name,
    )
}

} // verus!
