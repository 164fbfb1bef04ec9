use vstd::prelude::*;

use crate::config::{Group, GroupList, InstallStep, InstallSteps, ModuleConfig, Plugin, PluginList, SortOrder};
use crate::text::{lemma_text_lt_irreflexive, lemma_text_lt_total, lemma_text_lt_transitive, text_less, text_lt};

verus! {

/// An item that lists carry in the order their `order` attribute asks for.
pub trait Named: Sized {
    /// The item's name.
    spec fn name_of(&self) -> Seq<char>;

    /// The item's name.
    fn name_ref(&self) -> (r: &String)
        ensures
            r@ == self.name_of(),
    ;
}

impl Named for InstallStep {
    open spec fn name_of(&self) -> Seq<char> {
        self.name@
    }

    fn name_ref(&self) -> (r: &String) {
        &self.name
    }
}

impl Named for Group {
    open spec fn name_of(&self) -> Seq<char> {
        self.name@
    }

    fn name_ref(&self) -> (r: &String) {
        &self.name
    }
}

impl Named for Plugin {
    open spec fn name_of(&self) -> Seq<char> {
        self.name@
    }

    fn name_ref(&self) -> (r: &String) {
        &self.name
    }
}

/// Name `a` strictly precedes name `b`: in text order, or in reverse text
/// order when `descending`.
pub open spec fn precedes(a: Seq<char>, b: Seq<char>, descending: bool) -> bool {
    if descending {
        text_lt(b, a)
    } else {
        text_lt(a, b)
    }
}

/// `s` with `x` inserted before the first item whose name `x`'s name precedes
/// (at the end when there is none).
pub open spec fn insert_by_name<T: Named>(s: Seq<T>, x: T, descending: bool) -> Seq<T>
    decreases s.len(),
{
    if s.len() == 0 {
        seq![x]
    } else if precedes(x.name_of(), s[0].name_of(), descending) {
        seq![x] + s
    } else {
        seq![s[0]] + insert_by_name(s.drop_first(), x, descending)
    }
}

/// `s` stably sorted by name (a stable insertion sort): ascending, or
/// descending when `descending`; items of equal name keep their order.
pub open spec fn sorted_by_name<T: Named>(s: Seq<T>, descending: bool) -> Seq<T>
    decreases s.len(),
{
    if s.len() == 0 {
        Seq::empty()
    } else {
        insert_by_name(sorted_by_name(s.drop_last(), descending), s.last(), descending)
    }
}

/// `s` in the order that `order` asks for: sorted by name for `Ascending`
/// and `Descending`, as written otherwise.
pub open spec fn arranged<T: Named>(s: Seq<T>, order: Option<SortOrder>) -> Seq<T> {
    match order {
        Some(SortOrder::Ascending) => sorted_by_name(s, false),
        Some(SortOrder::Descending) => sorted_by_name(s, true),
        _ => s,
    }
}

proof fn lemma_insert_at<T: Named>(s: Seq<T>, x: T, descending: bool, k: int)
    requires
        0 <= k <= s.len(),
        forall|i: int| 0 <= i < k ==> !precedes(x.name_of(), #[trigger] s[i].name_of(), descending),
        k < s.len() ==> precedes(x.name_of(), s[k].name_of(), descending),
    ensures
        insert_by_name(s, x, descending) == s.insert(k, x),
    decreases s.len(),
{
    if s.len() == 0 {
        assert(s.insert(k, x) =~= seq![x]);
    } else if k == 0 {
        assert(s.insert(k, x) =~= seq![x] + s);
    } else {
        let t = s.drop_first();
        assert forall|i: int| 0 <= i < k - 1 implies !precedes(x.name_of(), #[trigger] t[i].name_of(), descending) by {
            assert(t[i] == s[i + 1]);
        }
        if k - 1 < t.len() {
            assert(t[k - 1] == s[k]);
        }
        assert(!precedes(x.name_of(), s[0].name_of(), descending));
        lemma_insert_at(t, x, descending, k - 1);
        assert(s.insert(k, x) =~= seq![s[0]] + t.insert(k - 1, x));
    }
}

/// Sorts `items` stably by name, ascending or descending.
fn sort_by_name<T: Named>(items: Vec<T>, descending: bool) -> (sorted: Vec<T>)
    ensures
        sorted@ == sorted_by_name(items@, descending),
{
    let ghost all = items@;
    let total = items.len();
    let mut rest = items;
    let mut out: Vec<T> = Vec::new();
    let mut n: usize = 0;
    assert(all.subrange(0, 0) =~= Seq::<T>::empty());
    while rest.len() > 0
        invariant
            n + rest@.len() == all.len(),
            all.len() == total,
            rest@ == all.subrange(n as int, all.len() as int),
            out@ == sorted_by_name(all.subrange(0, n as int), descending),
        decreases rest@.len(),
    {
        let x = rest.remove(0);
        let mut k: usize = 0;
        loop
            invariant
                k <= out@.len(),
                forall|i: int| 0 <= i < k ==> !precedes(x.name_of(), #[trigger] out@[i].name_of(), descending),
            ensures
                k <= out@.len(),
                forall|i: int| 0 <= i < k ==> !precedes(x.name_of(), #[trigger] out@[i].name_of(), descending),
                k < out@.len() ==> precedes(x.name_of(), out@[k as int].name_of(), descending),
            decreases out@.len() - k,
        {
            if k >= out.len() {
                break;
            }
            let before = if descending {
                text_less(out[k].name_ref().as_str(), x.name_ref().as_str())
            } else {
                text_less(x.name_ref().as_str(), out[k].name_ref().as_str())
            };
            if before {
                break;
            }
            k = k + 1;
        }
        proof {
            lemma_insert_at(out@, x, descending, k as int);
            assert(x == all[n as int]);
            assert(all.subrange(0, n + 1).drop_last() =~= all.subrange(0, n as int));
        }
        out.insert(k, x);
        n = n + 1;
        assert(rest@ =~= all.subrange(n as int, all.len() as int));
    }
    assert(all.subrange(0, n as int) =~= all);
    out
}

/// Arranges `items` as `order` asks.
fn arrange<T: Named>(items: Vec<T>, order: Option<SortOrder>) -> (r: Vec<T>)
    ensures
        r@ == arranged(items@, order),
{
    match order {
        Some(SortOrder::Ascending) => sort_by_name(items, false),
        Some(SortOrder::Descending) => sort_by_name(items, true),
        _ => items,
    }
}


/// `new` is `old` with its plugins in declared order.
pub open spec fn plugins_ordered(new: PluginList, old: PluginList) -> bool {
    new.order == old.order && new.plugins@ == arranged(old.plugins@, old.order)
}

/// `new` is `old` with its plugins in declared order.
pub open spec fn group_ordered(new: Group, old: Group) -> bool {
    &&& new.name == old.name
    &&& new.group_type == old.group_type
    &&& plugins_ordered(new.plugins, old.plugins)
}

/// `new` is `old` with its groups, and the plugins of each, in declared order.
pub open spec fn groups_ordered(new: GroupList, old: GroupList) -> bool {
    &&& new.order == old.order
    &&& new.groups@.len() == old.groups@.len()
    &&& forall|i: int|
        0 <= i < new.groups@.len() ==> group_ordered(
            #[trigger] new.groups@[i],
            arranged(old.groups@, old.order)[i],
        )
}

/// `new` is `old` with its groups and their plugins in declared order.
pub open spec fn step_ordered(new: InstallStep, old: InstallStep) -> bool {
    &&& new.name == old.name
    &&& new.visible == old.visible
    &&& match (new.optional_file_groups, old.optional_file_groups) {
        (Some(n), Some(o)) => groups_ordered(n, o),
        (None, None) => true,
        _ => false,
    }
}

/// `new` is `old` with its steps, their groups and the groups' plugins in
/// declared order.
pub open spec fn steps_ordered(new: InstallSteps, old: InstallSteps) -> bool {
    &&& new.order == old.order
    &&& new.steps@.len() == old.steps@.len()
    &&& forall|i: int|
        0 <= i < new.steps@.len() ==> step_ordered(
            #[trigger] new.steps@[i],
            arranged(old.steps@, old.order)[i],
        )
}

/// `new` is `old` with every list of steps, groups and plugins in the order
/// its `order` attribute asks for; nothing else differs.
pub open spec fn config_ordered(new: ModuleConfig, old: ModuleConfig) -> bool {
    &&& new.module_name == old.module_name
    &&& new.module_image == old.module_image
    &&& new.module_dependencies == old.module_dependencies
    &&& new.required_install_files == old.required_install_files
    &&& new.conditional_file_installs == old.conditional_file_installs
    &&& match (new.install_steps, old.install_steps) {
        (Some(n), Some(o)) => steps_ordered(n, o),
        (None, None) => true,
        _ => false,
    }
}

fn order_group(g: Group) -> (r: Group)
    ensures
        group_ordered(r, g),
{
    let Group { name, group_type, plugins } = g;
    let PluginList { order, plugins: items } = plugins;
    let arranged_items = arrange(items, order);
    Group { name, group_type, plugins: PluginList { order, plugins: arranged_items } }
}

fn order_group_list(gl: GroupList) -> (r: GroupList)
    ensures
        groups_ordered(r, gl),
{
    let GroupList { order, groups } = gl;
    let ghost old_groups = groups@;
    let mut rest = arrange(groups, order);
    let ghost target = rest@;
    let mut out: Vec<Group> = Vec::new();
    while rest.len() > 0
        invariant
            out@.len() + rest@.len() == target.len(),
            rest@ == target.subrange(out@.len() as int, target.len() as int),
            forall|i: int| 0 <= i < out@.len() ==> group_ordered(#[trigger] out@[i], target[i]),
        decreases rest@.len(),
    {
        let g = rest.remove(0);
        let ghost n = out@.len();
        assert(g == target[n as int]);
        out.push(order_group(g));
        assert(rest@ =~= target.subrange(out@.len() as int, target.len() as int));
    }
    proof {
        assert(target == arranged(old_groups, order));
        lemma_arranged_len(old_groups, order);
    }
    GroupList { order, groups: out }
}

fn order_step(st: InstallStep) -> (r: InstallStep)
    ensures
        step_ordered(r, st),
{
    let InstallStep { name, visible, optional_file_groups } = st;
    let groups = match optional_file_groups {
        Some(gl) => Some(order_group_list(gl)),
        None => None,
    };
    InstallStep { name, visible, optional_file_groups: groups }
}

fn order_steps(st: InstallSteps) -> (r: InstallSteps)
    ensures
        steps_ordered(r, st),
{
    let InstallSteps { order, steps } = st;
    let ghost old_steps = steps@;
    let mut rest = arrange(steps, order);
    let ghost target = rest@;
    let mut out: Vec<InstallStep> = Vec::new();
    while rest.len() > 0
        invariant
            out@.len() + rest@.len() == target.len(),
            rest@ == target.subrange(out@.len() as int, target.len() as int),
            forall|i: int| 0 <= i < out@.len() ==> step_ordered(#[trigger] out@[i], target[i]),
        decreases rest@.len(),
    {
        let s = rest.remove(0);
        let ghost n = out@.len();
        assert(s == target[n as int]);
        out.push(order_step(s));
        assert(rest@ =~= target.subrange(out@.len() as int, target.len() as int));
    }
    proof {
        lemma_arranged_len(old_steps, order);
    }
    InstallSteps { order, steps: out }
}

proof fn lemma_insert_len<T: Named>(s: Seq<T>, x: T, descending: bool)
    ensures
        insert_by_name(s, x, descending).len() == s.len() + 1,
    decreases s.len(),
{
    if s.len() > 0 {
        lemma_insert_len(s.drop_first(), x, descending);
    }
}

proof fn lemma_sorted_len<T: Named>(s: Seq<T>, descending: bool)
    ensures
        sorted_by_name(s, descending).len() == s.len(),
    decreases s.len(),
{
    if s.len() > 0 {
        lemma_sorted_len(s.drop_last(), descending);
        lemma_insert_len(sorted_by_name(s.drop_last(), descending), s.last(), descending);
    }
}

proof fn lemma_arranged_len<T: Named>(s: Seq<T>, order: Option<SortOrder>)
    ensures
        arranged(s, order).len() == s.len(),
{
    lemma_sorted_len(s, false);
    lemma_sorted_len(s, true);
}

impl ModuleConfig {
    /// The configuration with its steps, groups and plugins in the order
    /// their `order` attributes ask for: sorted by name for `Ascending` and
    /// `Descending` (items of equal name keep their order), as written for
    /// `Explicit` or no attribute.
    pub fn sorted(self) -> (r: Self)
        ensures
            config_ordered(r, self),
    {
        let ModuleConfig {
            module_name,
            module_image,
            module_dependencies,
            required_install_files,
            install_steps,
            conditional_file_installs,
        } = self;
        let steps = match install_steps {
            Some(st) => Some(order_steps(st)),
            None => None,
        };
        ModuleConfig {
            module_name,
            module_image,
            module_dependencies,
            required_install_files,
            install_steps: steps,
            conditional_file_installs,
        }
    }
}


/// No item of `s` is preceded by a later one: `s` is in name order.
pub open spec fn in_name_order<T: Named>(s: Seq<T>, descending: bool) -> bool {
    forall|i: int, j: int|
        0 <= i < j < s.len() ==> !precedes(#[trigger] s[j].name_of(), #[trigger] s[i].name_of(), descending)
}

/// The items of `s` named `n`, in order.
pub open spec fn with_name<T: Named>(s: Seq<T>, n: Seq<char>) -> Seq<T>
    decreases s.len(),
{
    if s.len() == 0 {
        Seq::empty()
    } else {
        (if s[0].name_of() == n {
            seq![s[0]]
        } else {
            Seq::empty()
        }) + with_name(s.drop_first(), n)
    }
}

proof fn lemma_precedes_irreflexive(a: Seq<char>, d: bool)
    ensures
        !precedes(a, a, d),
{
    lemma_text_lt_irreflexive(a);
}

proof fn lemma_precedes_chain(a: Seq<char>, b: Seq<char>, c: Seq<char>, d: bool)
    requires
        precedes(a, b, d),
        !precedes(c, b, d),
    ensures
        precedes(a, c, d),
        !precedes(c, a, d),
{
    lemma_text_lt_total(b, c);
    if b != c {
        if d {
            lemma_text_lt_transitive(c, b, a);
        } else {
            lemma_text_lt_transitive(a, b, c);
        }
    }
    if precedes(c, a, d) {
        if d {
            lemma_text_lt_transitive(c, a, c);
        } else {
            lemma_text_lt_transitive(c, a, c);
        }
        lemma_text_lt_irreflexive(c);
    }
}

proof fn lemma_with_name_concat<T: Named>(a: Seq<T>, b: Seq<T>, n: Seq<char>)
    ensures
        with_name(a + b, n) == with_name(a, n) + with_name(b, n),
    decreases a.len(),
{
    if a.len() == 0 {
        assert(a + b =~= b);
        assert(with_name(a, n) + with_name(b, n) =~= with_name(b, n));
    } else {
        assert((a + b).drop_first() =~= a.drop_first() + b);
        lemma_with_name_concat(a.drop_first(), b, n);
        assert((a + b)[0] == a[0]);
        let h = if a[0].name_of() == n { seq![a[0]] } else { Seq::<T>::empty() };
        assert(h + (with_name(a.drop_first(), n) + with_name(b, n)) =~= (h + with_name(a.drop_first(), n))
            + with_name(b, n));
    }
}

proof fn lemma_with_name_none<T: Named>(s: Seq<T>, n: Seq<char>)
    requires
        forall|i: int| 0 <= i < s.len() ==> #[trigger] s[i].name_of() != n,
    ensures
        with_name(s, n) == Seq::<T>::empty(),
    decreases s.len(),
{
    if s.len() > 0 {
        assert forall|i: int| 0 <= i < s.drop_first().len() implies #[trigger] s.drop_first()[i].name_of() != n by {
            assert(s.drop_first()[i] == s[i + 1]);
        }
        lemma_with_name_none(s.drop_first(), n);
        assert(s[0].name_of() != n);
        assert(with_name(s, n) =~= Seq::<T>::empty());
    }
}

proof fn lemma_insert_props<T: Named>(t: Seq<T>, x: T, d: bool)
    requires
        in_name_order(t, d),
    ensures
        in_name_order(insert_by_name(t, x, d), d),
        forall|n: Seq<char>| #[trigger] with_name(insert_by_name(t, x, d), n) == with_name(t.push(x), n),
        insert_by_name(t, x, d).to_multiset() == t.to_multiset().insert(x),
        forall|i: int|
            0 <= i < insert_by_name(t, x, d).len() ==> #[trigger] insert_by_name(t, x, d)[i] == x || t.contains(
                insert_by_name(t, x, d)[i],
            ),
    decreases t.len(),
{
    broadcast use vstd::seq_lib::group_to_multiset_ensures;
    broadcast use vstd::multiset::group_multiset_axioms;

    let r = insert_by_name(t, x, d);
    if t.len() == 0 {
        assert(r =~= t.push(x));
    } else if precedes(x.name_of(), t[0].name_of(), d) {
        assert forall|j: int| 0 <= j < t.len() implies precedes(x.name_of(), #[trigger] t[j].name_of(), d)
            && !precedes(t[j].name_of(), x.name_of(), d) by {
            if j > 0 {
                lemma_precedes_chain(x.name_of(), t[0].name_of(), t[j].name_of(), d);
            } else {
                lemma_precedes_irreflexive(t[0].name_of(), d);
                lemma_precedes_chain(x.name_of(), t[0].name_of(), t[0].name_of(), d);
            }
        }
        assert forall|i: int, j: int| 0 <= i < j < r.len() implies !precedes(
            #[trigger] r[j].name_of(),
            #[trigger] r[i].name_of(),
            d,
        ) by {
            if i > 0 {
                assert(r[i] == t[i - 1] && r[j] == t[j - 1]);
            } else {
                assert(r[j] == t[j - 1]);
            }
        }
        assert forall|n: Seq<char>| #[trigger] with_name(r, n) == with_name(t.push(x), n) by {
            lemma_with_name_concat(seq![x], t, n);
            lemma_with_name_concat(t, seq![x], n);
            assert(t.push(x) =~= t + seq![x]);
            assert(seq![x].drop_first() =~= Seq::<T>::empty());
            assert(with_name(Seq::<T>::empty(), n) =~= Seq::<T>::empty());
            assert(seq![x][0] == x);
            if x.name_of() == n {
                assert forall|i: int| 0 <= i < t.len() implies #[trigger] t[i].name_of() != n by {
                    lemma_precedes_irreflexive(x.name_of(), d);
                }
                lemma_with_name_none(t, n);
                assert(with_name(seq![x], n) + with_name(t, n) =~= with_name(t, n) + with_name(seq![x], n));
            } else {
                assert(with_name(seq![x], n) =~= Seq::<T>::empty());
                assert(with_name(seq![x], n) + with_name(t, n) =~= with_name(t, n) + with_name(seq![x], n));
            }
        }
        vstd::seq_lib::lemma_multiset_commutative(seq![x], t);
        assert(seq![x].drop_first() =~= Seq::<T>::empty());
        assert(seq![x].to_multiset() =~= vstd::multiset::Multiset::<T>::empty().insert(x));
        assert(r.to_multiset() =~= t.to_multiset().insert(x));
        assert forall|i: int| 0 <= i < r.len() implies #[trigger] r[i] == x || t.contains(r[i]) by {
            if i > 0 {
                assert(r[i] == t[i - 1]);
            }
        }
    } else {
        let t2 = t.drop_first();
        assert(in_name_order(t2, d)) by {
            assert forall|i: int, j: int| 0 <= i < j < t2.len() implies !precedes(
                #[trigger] t2[j].name_of(),
                #[trigger] t2[i].name_of(),
                d,
            ) by {
                assert(t2[i] == t[i + 1] && t2[j] == t[j + 1]);
            }
        }
        lemma_insert_props(t2, x, d);
        let r2 = insert_by_name(t2, x, d);
        assert(r == seq![t[0]] + r2);
        assert forall|i: int, j: int| 0 <= i < j < r.len() implies !precedes(
            #[trigger] r[j].name_of(),
            #[trigger] r[i].name_of(),
            d,
        ) by {
            if i == 0 {
                assert(r[j] == r2[j - 1]);
                if r2[j - 1] != x {
                    let k = choose|k: int| 0 <= k < t2.len() && t2[k] == r2[j - 1];
                    assert(t[k + 1] == r2[j - 1]);
                }
            } else {
                assert(r[i] == r2[i - 1] && r[j] == r2[j - 1]);
            }
        }
        assert forall|n: Seq<char>| #[trigger] with_name(r, n) == with_name(t.push(x), n) by {
            lemma_with_name_concat(seq![t[0]], r2, n);
            lemma_with_name_concat(seq![t[0]], t2.push(x), n);
            assert(t.push(x) =~= seq![t[0]] + t2.push(x));
            assert(t == seq![t[0]] + t2);
        }
        vstd::seq_lib::lemma_multiset_commutative(seq![t[0]], r2);
        vstd::seq_lib::lemma_multiset_commutative(seq![t[0]], t2);
        assert(t =~= seq![t[0]] + t2);
        assert(r.to_multiset() =~= t.to_multiset().insert(x));
        assert forall|i: int| 0 <= i < r.len() implies #[trigger] r[i] == x || t.contains(r[i]) by {
            if i == 0 {
                assert(t[0] == r[0]);
            } else {
                assert(r[i] == r2[i - 1]);
                if r2[i - 1] != x {
                    let k = choose|k: int| 0 <= k < t2.len() && t2[k] == r2[i - 1];
                    assert(t[k + 1] == r[i]);
                }
            }
        }
    }
}

/// Sorting by name puts the items in name order, keeps the items of each
/// name in their order, and keeps every item (the same multiset).
pub proof fn lemma_sorted_by_name<T: Named>(s: Seq<T>, descending: bool)
    ensures
        in_name_order(sorted_by_name(s, descending), descending),
        forall|n: Seq<char>| #[trigger] with_name(sorted_by_name(s, descending), n) == with_name(s, n),
        sorted_by_name(s, descending).to_multiset() == s.to_multiset(),
    decreases s.len(),
{
    broadcast use vstd::seq_lib::group_to_multiset_ensures;

    if s.len() == 0 {
    } else {
        let pre = s.drop_last();
        lemma_sorted_by_name(pre, descending);
        let t = sorted_by_name(pre, descending);
        lemma_insert_props(t, s.last(), descending);
        assert(s =~= pre.push(s.last()));
        assert forall|n: Seq<char>| #[trigger] with_name(sorted_by_name(s, descending), n) == with_name(s, n) by {
            lemma_with_name_concat(t, seq![s.last()], n);
            lemma_with_name_concat(pre, seq![s.last()], n);
            assert(t.push(s.last()) =~= t + seq![s.last()]);
            assert(pre.push(s.last()) =~= pre + seq![s.last()]);
        }
    }
}


/// A list in declared order: sorted ascending by name for `Ascending`,
/// descending for `Descending` (in both, items of equal name keep their
/// order and no item is lost or added), and as written otherwise.
pub proof fn lemma_arranged_meaning<T: Named>(s: Seq<T>, order: Option<SortOrder>)
    ensures
        order == Some(SortOrder::Ascending) ==> in_name_order(arranged(s, order), false),
        order == Some(SortOrder::Descending) ==> in_name_order(arranged(s, order), true),
        order == Some(SortOrder::Ascending) || order == Some(SortOrder::Descending) ==> arranged(
            s,
            order,
        ).to_multiset() == s.to_multiset() && forall|n: Seq<char>| #[trigger] with_name(arranged(s, order), n)
            == with_name(s, n),
        !(order == Some(SortOrder::Ascending) || order == Some(SortOrder::Descending)) ==> arranged(s, order)
            == s,
{
    lemma_sorted_by_name(s, false);
    lemma_sorted_by_name(s, true);
}

/// In ascending order no name comes after a later one in text order; in
/// descending order, none comes before.
pub proof fn lemma_name_order_meaning<T: Named>(s: Seq<T>)
    ensures
        in_name_order(s, false) <==> forall|i: int, j: int|
            0 <= i < j < s.len() ==> !text_lt(#[trigger] s[j].name_of(), #[trigger] s[i].name_of()),
        in_name_order(s, true) <==> forall|i: int, j: int|
            0 <= i < j < s.len() ==> !text_lt(#[trigger] s[i].name_of(), #[trigger] s[j].name_of()),
{
}

} // verus!
