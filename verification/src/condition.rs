use vstd::prelude::*;

use crate::str_map::{lemma_keys_dom, StrMap};
use crate::text::{ascii_lower, to_ascii_lowercase};
use crate::version::{compare_versions, version_at_least};

verus! {

/// State of a file in the game directory.
#[derive(Debug, Clone, Copy, PartialEq, Eq, Structural)]
pub enum FileState {
    Active,
    Inactive,
    Missing,
}

/// How the parts of a composite dependency combine.
#[derive(Debug, Clone, Copy, PartialEq, Eq, Structural)]
pub enum Operator {
    And,
    Or,
}

/// Composite dependency with AND/OR logic, potentially nested.
#[derive(Debug)]
pub struct CompositeDependency {
    pub operator: Operator,
    pub file_deps: Vec<FileDependency>,
    pub flag_deps: Vec<FlagDependency>,
    pub game_deps: Vec<GameDependency>,
    /// Nested composite dependencies for complex logic.
    pub nested: Vec<CompositeDependency>,
}

/// A required state of one file.
#[derive(Debug, Clone)]
pub struct FileDependency {
    pub file: String,
    pub state: FileState,
}

/// A required value of one condition flag.
#[derive(Debug, Clone)]
pub struct FlagDependency {
    pub flag: String,
    pub value: String,
}

/// A minimum game version.
#[derive(Debug, Clone)]
pub struct GameDependency {
    pub version: String,
}

/// Runtime context for evaluating conditions.
#[derive(Debug, Clone)]
pub struct EvalContext {
    /// Flags set by user plugin selections.
    pub flags: StrMap<String>,
    /// Known file states in the game directory. Paths are matched ignoring
    /// ASCII case: a lookup takes the first key, in walk order, that equals
    /// the path so; `set_file_state` keeps one key per path.
    pub file_states: StrMap<FileState>,
    /// Current game version (e.g. "1.5.0.0").
    pub game_version: Option<String>,
}

impl EvalContext {
    /// The flags as text-to-text map.
    pub open spec fn flag_view(self) -> Map<Seq<char>, Seq<char>> {
        self.flags@.map_values(|v: String| v@)
    }

    /// The state recorded for `file`, whose path is matched ignoring ASCII
    /// case; files never recorded are missing.
    pub open spec fn file_state_of(self, file: Seq<char>) -> FileState {
        match first_folded(self.file_states.keys(), file) {
            Some(k) => self.file_states@[k],
            None => FileState::Missing,
        }
    }

    /// A context with no flags, no file states and no game version.
    pub fn new() -> (ctx: Self)
        ensures
            ctx.flags@ == Map::<Seq<char>, String>::empty(),
            ctx.file_states@ == Map::<Seq<char>, FileState>::empty(),
            ctx.game_version is None,
    {
        EvalContext { flags: StrMap::new(), file_states: StrMap::new(), game_version: None }
    }

    /// Sets flag `name` to `value`.
    pub fn set_flag(&mut self, name: &str, value: &str)
        ensures
            final(self).flag_view() == old(self).flag_view().insert(name@, value@),
            final(self).file_states == old(self).file_states,
            final(self).game_version == old(self).game_version,
    {
        let v = String::from_str(value);
        self.flags.insert(String::from_str(name), v);
        proof {
            assert(final(self).flag_view() =~= old(self).flag_view().insert(name@, value@));
        }
    }

    /// Records the state of `file`: every key equal to its path ignoring
    /// ASCII case is dropped, and the path is stored with ASCII letters
    /// lowered. Afterwards every path equal to `file` ignoring ASCII case has
    /// state `state`; every other path keeps its state.
    pub fn set_file_state(&mut self, file: &str, state: FileState)
        ensures
            final(self).file_states@ == old(self).file_states@.remove_keys(same_file_keys(file@)).insert(
                ascii_lower(file@),
                state,
            ),
            forall|q: Seq<char>|
                #[trigger] final(self).file_state_of(q) == if ascii_lower(q) == ascii_lower(file@) {
                    state
                } else {
                    old(self).file_state_of(q)
                },
            final(self).flags == old(self).flags,
            final(self).game_version == old(self).game_version,
    {
        let lowered = to_ascii_lowercase(file);
        let ghost class = same_file_keys(file@);
        let mut i: usize = 0;
        while i < self.file_states.len()
            invariant
                i <= self.file_states.keys().len(),
                lowered@ == ascii_lower(file@),
                class == same_file_keys(file@),
                forall|j: int| 0 <= j < i ==> ascii_lower(#[trigger] self.file_states.keys()[j]) != ascii_lower(file@),
                self.file_states@.remove_keys(class) == old(self).file_states@.remove_keys(class),
                forall|q: Seq<char>|
                    ascii_lower(q) != ascii_lower(file@) ==> #[trigger] self.file_state_of(q) == old(
                        self,
                    ).file_state_of(q),
                self.flags == old(self).flags,
                self.game_version == old(self).game_version,
            decreases self.file_states.keys().len() - i,
        {
            let k = self.file_states.key_at(i);
            let folded = to_ascii_lowercase(k.as_str());
            if folded == lowered {
                let key = k.clone();
                let ghost before = self.file_states;
                let ghost before_ctx = *self;
                let ghost ks = before.keys();
                proof {
                    lemma_keys_dom(before);
                    assert(ks[i as int] == key@);
                    assert(ks.contains(key@));
                }
                let _ = self.file_states.len();
                self.file_states.remove(key.as_str());
                proof {
                    let idx = choose|idx: int|
                        0 <= idx < ks.len() && ks[idx] == key@ && self.file_states.keys() == ks.remove(idx);
                    assert(idx == i) by {
                        if idx != i {
                            assert(ks[idx] == ks[i as int]);
                        }
                    }
                    assert(self.file_states@.remove_keys(class) =~= before@.remove_keys(class));
                    assert forall|q: Seq<char>|
                        ascii_lower(q) != ascii_lower(file@) implies #[trigger] self.file_state_of(q)
                        == before_ctx.file_state_of(q) by {
                        lemma_first_folded_remove(ks, i as int, q);
                        match first_folded(ks, q) {
                            Some(kq) => {
                                lemma_first_folded_is_key(ks, q);
                            },
                            None => {},
                        }
                    }
                    assert forall|j: int| 0 <= j < i implies ascii_lower(
                        #[trigger] self.file_states.keys()[j],
                    ) != ascii_lower(file@) by {
                        assert(self.file_states.keys()[j] == ks[j]);
                    }
                }
            } else {
                i = i + 1;
            }
        }
        let ghost before = self.file_states;
        let ghost ks = before.keys();
        proof {
            lemma_keys_dom(before);
            assert(before@.remove_keys(class) =~= before@) by {
                assert forall|k: Seq<char>| before@.contains_key(k) implies !class.contains(k) by {
                    let j = choose|j: int| 0 <= j < ks.len() && ks[j] == k;
                    assert(ascii_lower(ks[j]) != ascii_lower(file@));
                }
            }
            assert(!before@.contains_key(lowered@)) by {
                if before@.contains_key(lowered@) {
                    let j = choose|j: int| 0 <= j < ks.len() && ks[j] == lowered@;
                    lemma_ascii_lower_idempotent(file@);
                    assert(ascii_lower(ks[j]) == ascii_lower(file@));
                }
            }
        }
        let ghost end_ctx = *self;
        self.file_states.insert(lowered, state);
        proof {
            lemma_ascii_lower_idempotent(file@);
            assert(self.file_states.keys() == ks.push(ascii_lower(file@)));
            assert(self.file_states@ == before@.insert(ascii_lower(file@), state));
            assert(end_ctx.file_states == before);
            assert forall|q: Seq<char>|
                #[trigger] self.file_state_of(q) == if ascii_lower(q) == ascii_lower(file@) {
                    state
                } else {
                    old(self).file_state_of(q)
                } by {
                if ascii_lower(q) == ascii_lower(file@) {
                    lemma_first_folded_none(ks, q);
                    lemma_first_folded_push_none(ks, ascii_lower(file@), q);
                } else {
                    lemma_first_folded_push_other(ks, ascii_lower(file@), q);
                    assert(end_ctx.file_state_of(q) == old(self).file_state_of(q));
                    match first_folded(ks, q) {
                        Some(kq) => {
                            lemma_first_folded_is_key(ks, q);
                            assert(before@.contains_key(kq));
                            assert(kq != ascii_lower(file@));
                        },
                        None => {},
                    }
                }
            }
        }
    }
}

/// The paths equal to `file` ignoring ASCII case.
pub open spec fn same_file_keys(file: Seq<char>) -> Set<Seq<char>> {
    Set::new(|k: Seq<char>| ascii_lower(k) == ascii_lower(file))
}

/// The first of `keys` equal to `file` ignoring ASCII case, if any.
pub open spec fn first_folded(keys: Seq<Seq<char>>, file: Seq<char>) -> Option<Seq<char>>
    decreases keys.len(),
{
    if keys.len() == 0 {
        None
    } else if ascii_lower(keys[0]) == ascii_lower(file) {
        Some(keys[0])
    } else {
        first_folded(keys.drop_first(), file)
    }
}

proof fn lemma_first_folded_same(keys: Seq<Seq<char>>, a: Seq<char>, b: Seq<char>)
    requires
        ascii_lower(a) == ascii_lower(b),
    ensures
        first_folded(keys, a) == first_folded(keys, b),
    decreases keys.len(),
{
    if keys.len() > 0 {
        lemma_first_folded_same(keys.drop_first(), a, b);
    }
}

proof fn lemma_ascii_lower_idempotent(s: Seq<char>)
    ensures
        ascii_lower(ascii_lower(s)) == ascii_lower(s),
{
    assert(ascii_lower(ascii_lower(s)) =~= ascii_lower(s));
}

proof fn lemma_first_folded_is_key(keys: Seq<Seq<char>>, file: Seq<char>)
    requires
        first_folded(keys, file) is Some,
    ensures
        keys.contains(first_folded(keys, file)->Some_0),
        ascii_lower(first_folded(keys, file)->Some_0) == ascii_lower(file),
    decreases keys.len(),
{
    if ascii_lower(keys[0]) != ascii_lower(file) {
        lemma_first_folded_is_key(keys.drop_first(), file);
        let k = first_folded(keys, file)->Some_0;
        let j = choose|j: int| 0 <= j < keys.drop_first().len() && keys.drop_first()[j] == k;
        assert(keys[j + 1] == k);
    } else {
        assert(keys[0] == first_folded(keys, file)->Some_0);
    }
}

proof fn lemma_first_folded_none(keys: Seq<Seq<char>>, file: Seq<char>)
    requires
        forall|j: int| 0 <= j < keys.len() ==> ascii_lower(#[trigger] keys[j]) != ascii_lower(file),
    ensures
        first_folded(keys, file) is None,
    decreases keys.len(),
{
    if keys.len() > 0 {
        assert(ascii_lower(keys[0]) != ascii_lower(file));
        assert forall|j: int| 0 <= j < keys.drop_first().len() implies ascii_lower(
            #[trigger] keys.drop_first()[j],
        ) != ascii_lower(file) by {
            assert(keys.drop_first()[j] == keys[j + 1]);
        }
        lemma_first_folded_none(keys.drop_first(), file);
    }
}

proof fn lemma_first_folded_remove(keys: Seq<Seq<char>>, i: int, file: Seq<char>)
    requires
        0 <= i < keys.len(),
        ascii_lower(keys[i]) != ascii_lower(file),
    ensures
        first_folded(keys.remove(i), file) == first_folded(keys, file),
    decreases keys.len(),
{
    if i == 0 {
        assert(keys.remove(0) =~= keys.drop_first());
    } else {
        assert(keys.remove(i)[0] == keys[0]);
        assert(keys.remove(i).drop_first() =~= keys.drop_first().remove(i - 1));
        if ascii_lower(keys[0]) != ascii_lower(file) {
            lemma_first_folded_remove(keys.drop_first(), i - 1, file);
        }
    }
}

proof fn lemma_first_folded_push_none(keys: Seq<Seq<char>>, k: Seq<char>, file: Seq<char>)
    requires
        first_folded(keys, file) is None,
        ascii_lower(k) == ascii_lower(file),
    ensures
        first_folded(keys.push(k), file) == Some(k),
    decreases keys.len(),
{
    if keys.len() == 0 {
        assert(keys.push(k)[0] == k);
    } else {
        assert(keys.push(k)[0] == keys[0]);
        assert(keys.push(k).drop_first() =~= keys.drop_first().push(k));
        lemma_first_folded_push_none(keys.drop_first(), k, file);
    }
}

proof fn lemma_first_folded_push_other(keys: Seq<Seq<char>>, k: Seq<char>, file: Seq<char>)
    requires
        ascii_lower(k) != ascii_lower(file),
    ensures
        first_folded(keys.push(k), file) == first_folded(keys, file),
    decreases keys.len(),
{
    if keys.len() == 0 {
        assert(keys.push(k)[0] == k);
        assert(keys.push(k).drop_first() =~= Seq::<Seq<char>>::empty());
    } else {
        assert(keys.push(k)[0] == keys[0]);
        assert(keys.push(k).drop_first() =~= keys.drop_first().push(k));
        lemma_first_folded_push_other(keys.drop_first(), k, file);
    }
}

impl Default for EvalContext {
    fn default() -> (ctx: Self)
        ensures
            ctx.flags@ == Map::<Seq<char>, String>::empty(),
            ctx.file_states@ == Map::<Seq<char>, FileState>::empty(),
            ctx.game_version is None,
    {
        EvalContext::new()
    }
}

impl FileDependency {
    /// The file is in the required state (an unrecorded file is missing);
    /// paths are compared ignoring ASCII case.
    pub open spec fn holds(self, ctx: EvalContext) -> bool {
        ctx.file_state_of(self.file@) == self.state
    }

    pub fn evaluate(&self, ctx: &EvalContext) -> (r: bool)
        ensures
            r == self.holds(*ctx),
    {
        let wanted = to_ascii_lowercase(self.file.as_str());
        let states = &ctx.file_states;
        let n = states.len();
        let mut i: usize = 0;
        assert(states.keys().subrange(0, n as int) =~= states.keys());
        while i < n
            invariant
                n == states.keys().len(),
                *states == ctx.file_states,
                i <= n,
                wanted@ == ascii_lower(self.file@),
                first_folded(states.keys(), self.file@) == first_folded(
                    states.keys().subrange(i as int, n as int),
                    self.file@,
                ),
            decreases n - i,
        {
            let ghost rest = states.keys().subrange(i as int, n as int);
            assert(rest[0] == states.keys()[i as int]);
            assert(rest.drop_first() =~= states.keys().subrange(i + 1, n as int));
            let folded = to_ascii_lowercase(states.key_at(i).as_str());
            if folded == wanted {
                assert(ascii_lower(rest[0]) == ascii_lower(self.file@));
                assert(first_folded(rest, self.file@) == Some(states.keys()[i as int]));
                let s = *states.value_at(i);
                assert(ctx.file_state_of(self.file@) == s);
                return s == self.state;
            }
            i = i + 1;
        }
        FileState::Missing == self.state
    }
}

impl FlagDependency {
    /// The flag is set, to exactly the required value.
    pub open spec fn holds(self, ctx: EvalContext) -> bool {
        ctx.flag_view().contains_key(self.flag@) && ctx.flag_view()[self.flag@] == self.value@
    }

    pub fn evaluate(&self, ctx: &EvalContext) -> (r: bool)
        ensures
            r == self.holds(*ctx),
    {
        match ctx.flags.get(self.flag.as_str()) {
            Some(v) => *v == self.value,
            None => false,
        }
    }
}

impl GameDependency {
    /// The game version is known and at least the required one.
    pub open spec fn holds(self, ctx: EvalContext) -> bool {
        match ctx.game_version {
            Some(current) => version_at_least(current@, self.version@),
            None => false,
        }
    }

    pub fn evaluate(&self, ctx: &EvalContext) -> (r: bool)
        ensures
            r == self.holds(*ctx),
    {
        match &ctx.game_version {
            Some(current) => compare_versions(current.as_str(), self.version.as_str()),
            None => false,
        }
    }
}

/// Two contexts agree on everything a condition reads: flags, file states
/// and game version.
pub open spec fn contexts_agree(a: EvalContext, b: EvalContext) -> bool {
    &&& a.flag_view() == b.flag_view()
    &&& a.file_states == b.file_states
    &&& a.game_version == b.game_version
}

proof fn lemma_nested_agree(d: CompositeDependency, k: int, a: EvalContext, b: EvalContext)
    requires
        contexts_agree(a, b),
    ensures
        all_nested_from(d, k, a) == all_nested_from(d, k, b),
        any_nested_from(d, k, a) == any_nested_from(d, k, b),
    decreases d, 0int, d.nested.len() - k,
{
    if 0 <= k < d.nested.len() {
        lemma_holds_agree(d.nested@[k], a, b);
        lemma_nested_agree(d, k + 1, a, b);
    }
}

/// A dependency tree holds in one context exactly when it holds in another
/// that agrees with it on flags, file states and game version.
pub proof fn lemma_holds_agree(d: CompositeDependency, a: EvalContext, b: EvalContext)
    requires
        contexts_agree(a, b),
    ensures
        d.holds(a) == d.holds(b),
    decreases d, 1int, 0int,
{
    lemma_nested_agree(d, 0, a, b);
    if all_files(d, a) {
        assert forall|i: int| 0 <= i < d.file_deps.len() implies #[trigger] d.file_deps@[i].holds(b) by {
            assert(d.file_deps@[i].holds(a));
        }
    }
    if all_files(d, b) {
        assert forall|i: int| 0 <= i < d.file_deps.len() implies #[trigger] d.file_deps@[i].holds(a) by {
            assert(d.file_deps@[i].holds(b));
        }
    }
    if any_files(d, a) {
        let i = choose|i: int| 0 <= i < d.file_deps.len() && #[trigger] d.file_deps@[i].holds(a);
        assert(d.file_deps@[i].holds(b));
    }
    if any_files(d, b) {
        let i = choose|i: int| 0 <= i < d.file_deps.len() && #[trigger] d.file_deps@[i].holds(b);
        assert(d.file_deps@[i].holds(a));
    }
    if all_flags(d, a) {
        assert forall|i: int| 0 <= i < d.flag_deps.len() implies #[trigger] d.flag_deps@[i].holds(b) by {
            assert(d.flag_deps@[i].holds(a));
        }
    }
    if all_flags(d, b) {
        assert forall|i: int| 0 <= i < d.flag_deps.len() implies #[trigger] d.flag_deps@[i].holds(a) by {
            assert(d.flag_deps@[i].holds(b));
        }
    }
    if any_flags(d, a) {
        let i = choose|i: int| 0 <= i < d.flag_deps.len() && #[trigger] d.flag_deps@[i].holds(a);
        assert(d.flag_deps@[i].holds(b));
    }
    if any_flags(d, b) {
        let i = choose|i: int| 0 <= i < d.flag_deps.len() && #[trigger] d.flag_deps@[i].holds(b);
        assert(d.flag_deps@[i].holds(a));
    }
    if all_games(d, a) {
        assert forall|i: int| 0 <= i < d.game_deps.len() implies #[trigger] d.game_deps@[i].holds(b) by {
            assert(d.game_deps@[i].holds(a));
        }
    }
    if all_games(d, b) {
        assert forall|i: int| 0 <= i < d.game_deps.len() implies #[trigger] d.game_deps@[i].holds(a) by {
            assert(d.game_deps@[i].holds(b));
        }
    }
    if any_games(d, a) {
        let i = choose|i: int| 0 <= i < d.game_deps.len() && #[trigger] d.game_deps@[i].holds(a);
        assert(d.game_deps@[i].holds(b));
    }
    if any_games(d, b) {
        let i = choose|i: int| 0 <= i < d.game_deps.len() && #[trigger] d.game_deps@[i].holds(b);
        assert(d.game_deps@[i].holds(a));
    }
}

/// Whether a file dependency holds does not depend on the ASCII case of its path.
pub proof fn lemma_file_dependency_ignores_case(a: FileDependency, b: FileDependency, ctx: EvalContext)
    requires
        ascii_lower(a.file@) == ascii_lower(b.file@),
        a.state == b.state,
    ensures
        a.holds(ctx) == b.holds(ctx),
{
    lemma_first_folded_same(ctx.file_states.keys(), a.file@, b.file@);
}

/// Every file dependency of `d` holds.
pub open spec fn all_files(d: CompositeDependency, ctx: EvalContext) -> bool {
    forall|i: int| 0 <= i < d.file_deps.len() ==> #[trigger] d.file_deps@[i].holds(ctx)
}

/// Some file dependency of `d` holds.
pub open spec fn any_files(d: CompositeDependency, ctx: EvalContext) -> bool {
    exists|i: int| 0 <= i < d.file_deps.len() && #[trigger] d.file_deps@[i].holds(ctx)
}

/// Every flag dependency of `d` holds.
pub open spec fn all_flags(d: CompositeDependency, ctx: EvalContext) -> bool {
    forall|i: int| 0 <= i < d.flag_deps.len() ==> #[trigger] d.flag_deps@[i].holds(ctx)
}

/// Some flag dependency of `d` holds.
pub open spec fn any_flags(d: CompositeDependency, ctx: EvalContext) -> bool {
    exists|i: int| 0 <= i < d.flag_deps.len() && #[trigger] d.flag_deps@[i].holds(ctx)
}

/// Every game dependency of `d` holds.
pub open spec fn all_games(d: CompositeDependency, ctx: EvalContext) -> bool {
    forall|i: int| 0 <= i < d.game_deps.len() ==> #[trigger] d.game_deps@[i].holds(ctx)
}

/// Some game dependency of `d` holds.
pub open spec fn any_games(d: CompositeDependency, ctx: EvalContext) -> bool {
    exists|i: int| 0 <= i < d.game_deps.len() && #[trigger] d.game_deps@[i].holds(ctx)
}

impl Clone for CompositeDependency {
    fn clone(&self) -> (r: Self)
        decreases self,
    {
        let mut nested: Vec<CompositeDependency> = Vec::new();
        let mut i: usize = 0;
        while i < self.nested.len()
            invariant
                i <= self.nested@.len(),
            decreases self.nested@.len() - i,
        {
            nested.push(self.nested[i].clone());
            i = i + 1;
        }
        CompositeDependency {
            operator: self.operator,
            file_deps: self.file_deps.clone(),
            flag_deps: self.flag_deps.clone(),
            game_deps: self.game_deps.clone(),
            nested,
        }
    }
}

/// Every nested dependency of `d` from position `k` on holds.
pub open spec fn all_nested_from(d: CompositeDependency, k: int, ctx: EvalContext) -> bool
    decreases d, 0int, d.nested.len() - k,
{
    if 0 <= k < d.nested.len() {
        d.nested@[k].holds(ctx) && all_nested_from(d, k + 1, ctx)
    } else {
        true
    }
}

/// Some nested dependency of `d` from position `k` on holds.
pub open spec fn any_nested_from(d: CompositeDependency, k: int, ctx: EvalContext) -> bool
    decreases d, 0int, d.nested.len() - k,
{
    if 0 <= k < d.nested.len() {
        d.nested@[k].holds(ctx) || any_nested_from(d, k + 1, ctx)
    } else {
        false
    }
}

impl CompositeDependency {
    /// The dependency tree is satisfied: under `And` every part holds (an empty
    /// `And` holds), under `Or` some part holds (an empty `Or` does not).
    pub open spec fn holds(self, ctx: EvalContext) -> bool
        decreases self, 1int, 0int,
    {
        match self.operator {
            Operator::And => {
                &&& all_files(self, ctx)
                &&& all_flags(self, ctx)
                &&& all_games(self, ctx)
                &&& all_nested_from(self, 0, ctx)
            },
            Operator::Or => {
                ||| any_files(self, ctx)
                ||| any_flags(self, ctx)
                ||| any_games(self, ctx)
                ||| any_nested_from(self, 0, ctx)
            },
        }
    }

    /// Evaluate this dependency tree against the current environment.
    pub fn evaluate(&self, ctx: &EvalContext) -> (r: bool)
        ensures
            r == self.holds(*ctx),
        decreases self,
    {
        let is_and = self.operator == Operator::And;
        let mut files = is_and;
        let mut i: usize = 0;
        while i < self.file_deps.len()
            invariant
                i <= self.file_deps@.len(),
                is_and ==> (files <==> forall|j: int|
                    0 <= j < i ==> #[trigger] self.file_deps@[j].holds(*ctx)),
                !is_and ==> (files <==> exists|j: int|
                    0 <= j < i && #[trigger] self.file_deps@[j].holds(*ctx)),
            decreases self.file_deps@.len() - i,
        {
            let v = self.file_deps[i].evaluate(ctx);
            files = if is_and { files && v } else { files || v };
            i = i + 1;
        }
        let mut flags = is_and;
        let mut i: usize = 0;
        while i < self.flag_deps.len()
            invariant
                i <= self.flag_deps@.len(),
                is_and ==> (flags <==> forall|j: int|
                    0 <= j < i ==> #[trigger] self.flag_deps@[j].holds(*ctx)),
                !is_and ==> (flags <==> exists|j: int|
                    0 <= j < i && #[trigger] self.flag_deps@[j].holds(*ctx)),
            decreases self.flag_deps@.len() - i,
        {
            let v = self.flag_deps[i].evaluate(ctx);
            flags = if is_and { flags && v } else { flags || v };
            i = i + 1;
        }
        let mut games = is_and;
        let mut i: usize = 0;
        while i < self.game_deps.len()
            invariant
                i <= self.game_deps@.len(),
                is_and ==> (games <==> forall|j: int|
                    0 <= j < i ==> #[trigger] self.game_deps@[j].holds(*ctx)),
                !is_and ==> (games <==> exists|j: int|
                    0 <= j < i && #[trigger] self.game_deps@[j].holds(*ctx)),
            decreases self.game_deps@.len() - i,
        {
            let v = self.game_deps[i].evaluate(ctx);
            games = if is_and { games && v } else { games || v };
            i = i + 1;
        }
        let mut nested = is_and;
        let mut i: usize = self.nested.len();
        while i > 0
            invariant
                i <= self.nested@.len(),
                is_and ==> nested == all_nested_from(*self, i as int, *ctx),
                !is_and ==> nested == any_nested_from(*self, i as int, *ctx),
            decreases i,
        {
            i = i - 1;
            let v = self.nested[i].evaluate(ctx);
            nested = if is_and { v && nested } else { v || nested };
        }
        proof {
            assert(is_and <==> self.operator == Operator::And);
            if is_and {
                assert(files == all_files(*self, *ctx));
                assert(flags == all_flags(*self, *ctx));
                assert(games == all_games(*self, *ctx));
            } else {
                assert(files == any_files(*self, *ctx));
                assert(flags == any_flags(*self, *ctx));
                assert(games == any_games(*self, *ctx));
            }
        }
        if is_and {
            files && flags && games && nested
        } else {
            files || flags || games || nested
        }
    }
}

} // verus!

verus! {

proof fn lemma_nested_from_meaning(d: CompositeDependency, k: int, ctx: EvalContext)
    requires
        0 <= k <= d.nested.len(),
    ensures
        all_nested_from(d, k, ctx) <==> forall|j: int| k <= j < d.nested.len() ==> #[trigger] d.nested@[j].holds(ctx),
        any_nested_from(d, k, ctx) <==> exists|j: int| k <= j < d.nested.len() && #[trigger] d.nested@[j].holds(ctx),
    decreases d.nested.len() - k,
{
    if k < d.nested.len() {
        lemma_nested_from_meaning(d, k + 1, ctx);
        if any_nested_from(d, k + 1, ctx) {
            let j = choose|j: int| k + 1 <= j < d.nested.len() && #[trigger] d.nested@[j].holds(ctx);
            assert(d.nested@[j].holds(ctx));
        }
        if forall|j: int| k + 1 <= j < d.nested.len() ==> #[trigger] d.nested@[j].holds(ctx) {
            if d.nested@[k].holds(ctx) {
                assert forall|j: int| k <= j < d.nested.len() implies #[trigger] d.nested@[j].holds(ctx) by {
                    if j > k {
                    }
                }
            }
        }
    }
}

/// Under `And` a dependency tree holds exactly when every file, flag, game
/// and nested dependency holds (so an empty `And` holds); under `Or`
/// exactly when one of them holds (so an empty `Or` does not).
pub proof fn lemma_composite_meaning(d: CompositeDependency, ctx: EvalContext)
    ensures
        d.operator == Operator::And ==> (d.holds(ctx) <==> (forall|i: int|
            0 <= i < d.file_deps.len() ==> #[trigger] d.file_deps@[i].holds(ctx)) && (forall|i: int|
            0 <= i < d.flag_deps.len() ==> #[trigger] d.flag_deps@[i].holds(ctx)) && (forall|i: int|
            0 <= i < d.game_deps.len() ==> #[trigger] d.game_deps@[i].holds(ctx)) && (forall|i: int|
            0 <= i < d.nested.len() ==> #[trigger] d.nested@[i].holds(ctx))),
        d.operator == Operator::Or ==> (d.holds(ctx) <==> (exists|i: int|
            0 <= i < d.file_deps.len() && #[trigger] d.file_deps@[i].holds(ctx)) || (exists|i: int|
            0 <= i < d.flag_deps.len() && #[trigger] d.flag_deps@[i].holds(ctx)) || (exists|i: int|
            0 <= i < d.game_deps.len() && #[trigger] d.game_deps@[i].holds(ctx)) || (exists|i: int|
            0 <= i < d.nested.len() && #[trigger] d.nested@[i].holds(ctx))),
{
    lemma_nested_from_meaning(d, 0, ctx);
}

/// A flag dependency holds exactly when the flag is set to the value it asks
/// for: after `set_flag(name, value)` a dependency on `name` holds exactly
/// when it asks for `value`, and any other flag dependency holds as before;
/// a flag that was never set satisfies no dependency.
pub proof fn lemma_flag_dependency_after_set(
    before: EvalContext,
    after: EvalContext,
    name: Seq<char>,
    value: Seq<char>,
    dep: FlagDependency,
)
    requires
        after.flag_view() == before.flag_view().insert(name, value),
    ensures
        dep.flag@ == name ==> (dep.holds(after) <==> dep.value@ == value),
        dep.flag@ != name ==> dep.holds(after) == dep.holds(before),
        !before.flag_view().contains_key(dep.flag@) ==> !dep.holds(before),
{
}

/// After `set_file_state(file, state)` a dependency on a path equal to
/// `file` ignoring ASCII case holds exactly when it asks for `state`, and
/// any other file dependency holds as before; with no file recorded, a file
/// dependency holds exactly when it asks for `Missing`.
pub proof fn lemma_file_dependency_after_set(
    before: EvalContext,
    after: EvalContext,
    file: Seq<char>,
    state: FileState,
    dep: FileDependency,
)
    requires
        forall|q: Seq<char>|
            #[trigger] after.file_state_of(q) == if ascii_lower(q) == ascii_lower(file) {
                state
            } else {
                before.file_state_of(q)
            },
    ensures
        ascii_lower(dep.file@) == ascii_lower(file) ==> (dep.holds(after) <==> dep.state == state),
        ascii_lower(dep.file@) != ascii_lower(file) ==> dep.holds(after) == dep.holds(before),
        before.file_states@ == Map::<Seq<char>, FileState>::empty() ==> (dep.holds(before) <==> dep.state
            == FileState::Missing),
{
    assert(after.file_state_of(dep.file@) == if ascii_lower(dep.file@) == ascii_lower(file) {
        state
    } else {
        before.file_state_of(dep.file@)
    });
    if before.file_states@ == Map::<Seq<char>, FileState>::empty() {
        lemma_keys_dom(before.file_states);
        let ks = before.file_states.keys();
        assert forall|j: int| 0 <= j < ks.len() implies ascii_lower(#[trigger] ks[j]) != ascii_lower(dep.file@) by {
            assert(ks.contains(ks[j]));
            assert(before.file_states@.contains_key(ks[j]));
            assert(false);
        }
        lemma_first_folded_none(ks, dep.file@);
    }
}

/// A game dependency never holds while the game version is unknown, and
/// otherwise holds exactly when the game version is at least the required one.
pub proof fn lemma_game_dependency_meaning(dep: GameDependency, ctx: EvalContext)
    ensures
        ctx.game_version is None ==> !dep.holds(ctx),
        ctx.game_version matches Some(v) ==> (dep.holds(ctx) <==> version_at_least(v@, dep.version@)),
{
}

} // verus!
