use vstd::prelude::*;
use crate::error::{ErrorModel, GeodesyError};
use crate::gys::{
    arg_value, arg_views, copy_args, merge_args, parse_spec, ArgModel, GysArg, GysResource, StepModel,
};
use crate::operator::{append_plan, invert_plan, leaf_views, Leaf, LeafModel, Operator};
use crate::text::{copy_chars, is_space, string_of};

verus! {

/// How deep macro expansion may go before resolution fails.
pub const RECURSION_CEILING: usize = 100;

/// Where a definition is registered. Lookup tries `InMemory` first; the
/// first level that knows a name wins.
#[derive(PartialEq, Eq, Structural, Clone, Copy, Debug)]
pub enum SearchLevel {
    InMemory,
    External,
}

/// A provider as the contracts see it: registered operators with their
/// constructor index, and definition texts on each search level, all in
/// order of registration.
pub ghost struct ProviderModel {
    pub operators: Seq<(Seq<char>, usize)>,
    pub in_memory: Seq<(Seq<char>, Seq<char>)>,
    pub external: Seq<(Seq<char>, Seq<char>)>,
}

/// Holds registered operators and named definitions, and resolves names
/// into pipelines.
pub struct Provider {
    pub operators: Vec<(Vec<char>, usize)>,
    pub in_memory: Vec<(Vec<char>, Vec<char>)>,
    pub external: Vec<(Vec<char>, Vec<char>)>,
}

/// The models of registered texts.
pub open spec fn text_views(e: Seq<(Vec<char>, Vec<char>)>) -> Seq<(Seq<char>, Seq<char>)> {
    e.map_values(|x: (Vec<char>, Vec<char>)| (x.0@, x.1@))
}

impl View for Provider {
    type V = ProviderModel;

    open spec fn view(&self) -> ProviderModel {
        ProviderModel {
            operators: self.operators@.map_values(|x: (Vec<char>, usize)| (x.0@, x.1)),
            in_memory: text_views(self.in_memory@),
            external: text_views(self.external@),
        }
    }
}

/// The value registered last under `key`, if any.
pub open spec fn last_value<V>(e: Seq<(Seq<char>, V)>, key: Seq<char>) -> Option<V>
    decreases e.len(),
{
    if e.len() == 0 {
        None
    } else if e.last().0 == key {
        Some(e.last().1)
    } else {
        last_value(e.drop_last(), key)
    }
}

/// The position of the last entry under `key`, if any.
pub open spec fn last_pos<V>(e: Seq<(Seq<char>, V)>, key: Seq<char>) -> Option<int>
    decreases e.len(),
{
    if e.len() == 0 {
        None
    } else if e.last().0 == key {
        Some(e.len() - 1)
    } else {
        last_pos(e.drop_last(), key)
    }
}

/// The constructor index registered last under `name`.
pub open spec fn op_lookup(p: ProviderModel, name: Seq<char>) -> Option<usize> {
    last_value(p.operators, name)
}

/// The definition of `name` on the first search level that has one.
pub open spec fn def_lookup(p: ProviderModel, name: Seq<char>) -> Option<Seq<char>> {
    match last_value(p.in_memory, name) {
        Some(t) => Some(t),
        None => last_value(p.external, name),
    }
}

/// What is left of the recursion ceiling at `depth`.
pub open spec fn budget(depth: nat) -> nat {
    if depth <= RECURSION_CEILING {
        (RECURSION_CEILING + 1 - depth) as nat
    } else {
        0
    }
}

/// Resolution of `name` with the caller's arguments `args` at `depth`:
/// past the ceiling it fails; a registered operator gives one leaf; a
/// definition is parsed and its steps resolved one level deeper, each with
/// the definition's globals, then the caller's arguments, then the step's
/// own, where later ones win.
pub open spec fn resolve_spec(
    p: ProviderModel,
    name: Seq<char>,
    args: Seq<ArgModel>,
    depth: nat,
) -> Result<Seq<LeafModel>, ErrorModel>
    decreases budget(depth), 0nat,
{
    if depth > RECURSION_CEILING {
        Err(ErrorModel::Recursion(name))
    } else {
        match op_lookup(p, name) {
            Some(k) => Ok(seq![LeafModel { kind: k, name, args, inverted: false }]),
            None => match def_lookup(p, name) {
                None => Err(ErrorModel::NotFound(name)),
                Some(text) => match parse_spec(name, text) {
                    Err(frag) => Err(ErrorModel::Syntax(frag)),
                    Ok(res) => steps_spec(
                        p,
                        res.steps,
                        res.globals + args,
                        depth + 1,
                        res.steps.len(),
                    ),
                },
            },
        }
    }
}

/// The plan of the first `n` steps, each resolved at `depth` and inverted
/// where the step says so; the first failure stops it.
pub open spec fn steps_spec(
    p: ProviderModel,
    steps: Seq<StepModel>,
    globals: Seq<ArgModel>,
    depth: nat,
    n: nat,
) -> Result<Seq<LeafModel>, ErrorModel>
    decreases budget(depth), n + 1,
{
    if n == 0 || n > steps.len() {
        Ok(seq![])
    } else {
        match steps_spec(p, steps, globals, depth, (n - 1) as nat) {
            Err(e) => Err(e),
            Ok(plan) => {
                let st = steps[n - 1];
                match resolve_spec(p, st.name, globals + st.args, depth) {
                    Err(e) => Err(e),
                    Ok(sub) => Ok(
                        plan + if st.inverted {
                            invert_plan(sub)
                        } else {
                            sub
                        },
                    ),
                }
            },
        }
    }
}

/// Whether a definition is a bare name rather than pipeline text.
pub open spec fn is_plain_name(d: Seq<char>) -> bool {
    &&& d.len() > 0
    &&& forall|i: int|
        0 <= i < d.len() ==> !is_space(#[trigger] d[i]) && d[i] != '|' && d[i] != ':' && d[i]
            != '='
}

/// What building from `d` gives: a bare name is resolved at depth zero;
/// any other text is read as an anonymous definition at depth zero.
pub open spec fn build_spec(p: ProviderModel, d: Seq<char>) -> Result<Seq<LeafModel>, ErrorModel> {
    if is_plain_name(d) {
        resolve_spec(p, d, seq![], 0)
    } else {
        match parse_spec(seq![], d) {
            Err(frag) => Err(ErrorModel::Syntax(frag)),
            Ok(res) => steps_spec(p, res.steps, res.globals, 1, res.steps.len()),
        }
    }
}

proof fn lemma_last_pos<V>(e: Seq<(Seq<char>, V)>, key: Seq<char>)
    ensures
        match last_pos(e, key) {
            Some(i) => 0 <= i < e.len() && e[i].0 == key && last_value(e, key) == Some(e[i].1),
            None => last_value(e, key) is None,
        },
    decreases e.len(),
{
    if e.len() > 0 && e.last().0 != key {
        lemma_last_pos(e.drop_last(), key);
    }
}

/// Position of the last entry under `key`.
fn find_last<V>(entries: &Vec<(Vec<char>, V)>, key: &Vec<char>) -> (r: Option<usize>)
    ensures
        match r {
            Some(i) => last_pos(entries@.map_values(|x: (Vec<char>, V)| (x.0@, ())), key@) == Some(
                i as int,
            ),
            None => last_pos(entries@.map_values(|x: (Vec<char>, V)| (x.0@, ())), key@) is None,
        },
{
    let ghost all = entries@.map_values(|x: (Vec<char>, V)| (x.0@, ()));
    let mut i: usize = entries.len();
    proof {
        assert(all.take(i as int) =~= all);
    }
    while i > 0
        invariant
            i <= entries@.len(),
            all == entries@.map_values(|x: (Vec<char>, V)| (x.0@, ())),
            last_pos(all.take(i as int), key@) == last_pos(all, key@),
        decreases i,
    {
        proof {
            assert(all.take(i as int).drop_last() =~= all.take(i - 1));
        }
        if crate::text::same_chars(&entries[i - 1].0, key) {
            return Some(i - 1);
        }
        i = i - 1;
    }
    None
}

proof fn lemma_keys_agree<V, W>(e: Seq<(Seq<char>, V)>, f: Seq<(Seq<char>, W)>, key: Seq<char>)
    requires
        e.len() == f.len(),
        forall|i: int| 0 <= i < e.len() ==> e[i].0 == #[trigger] f[i].0,
    ensures
        last_pos(e, key) == last_pos(f, key),
    decreases e.len(),
{
    if e.len() > 0 {
        lemma_keys_agree(e.drop_last(), f.drop_last(), key);
    }
}

/// Position in `entries` of the value that `last_value` gives for `key`.
fn find_entry<V: View>(entries: &Vec<(Vec<char>, V)>, key: &Vec<char>) -> (r: Option<usize>)
    ensures
        match r {
            Some(i) => i < entries@.len() && last_value(
                entries@.map_values(|x: (Vec<char>, V)| (x.0@, x.1@)),
                key@,
            ) == Some(entries@[i as int].1@),
            None => last_value(entries@.map_values(|x: (Vec<char>, V)| (x.0@, x.1@)), key@) is None,
        },
{
    let r = find_last(entries, key);
    proof {
        let e = entries@.map_values(|x: (Vec<char>, V)| (x.0@, x.1@));
        let f = entries@.map_values(|x: (Vec<char>, V)| (x.0@, ()));
        lemma_keys_agree(e, f, key@);
        lemma_last_pos(e, key@);
    }
    r
}

impl Provider {
    /// A provider with no operators and no definitions.
    pub fn new() -> (r: Provider)
        ensures
            r@.operators.len() == 0,
            r@.in_memory.len() == 0,
            r@.external.len() == 0,
    {
        Provider { operators: Vec::new(), in_memory: Vec::new(), external: Vec::new() }
    }

    /// Registers the constructor with index `kind` under `name`; a later
    /// registration of the same name replaces it.
    pub fn register_operator(&mut self, name: &Vec<char>, kind: usize)
        ensures
            final(self)@ == (ProviderModel {
                operators: old(self)@.operators.push((name@, kind)),
                ..old(self)@
            }),
    {
        let ghost before = self@;
        self.operators.push((copy_chars(name), kind));
        proof {
            assert(self@.operators =~= before.operators.push((name@, kind)));
        }
    }

    /// Registers the definition `text` under `name` on the search level
    /// `level`; a later registration of the same name there replaces it.
    pub fn register_definition(&mut self, level: SearchLevel, name: &Vec<char>, text: &Vec<char>)
        ensures
            level == SearchLevel::InMemory ==> final(self)@ == (ProviderModel {
                in_memory: old(self)@.in_memory.push((name@, text@)),
                ..old(self)@
            }),
            level == SearchLevel::External ==> final(self)@ == (ProviderModel {
                external: old(self)@.external.push((name@, text@)),
                ..old(self)@
            }),
    {
        let ghost before = self@;
        match level {
            SearchLevel::InMemory => {
                self.in_memory.push((copy_chars(name), copy_chars(text)));
                proof {
                    assert(self@.in_memory =~= before.in_memory.push((name@, text@)));
                }
            },
            SearchLevel::External => {
                self.external.push((copy_chars(name), copy_chars(text)));
                proof {
                    assert(self@.external =~= before.external.push((name@, text@)));
                }
            },
        }
    }

    /// The constructor index registered last under `name`.
    pub fn operator(&self, name: &Vec<char>) -> (r: Option<usize>)
        ensures
            r == op_lookup(self@, name@),
    {
        let r = find_last(&self.operators, name);
        proof {
            let f = self.operators@.map_values(|x: (Vec<char>, usize)| (x.0@, ()));
            lemma_keys_agree(self@.operators, f, name@);
            lemma_last_pos(self@.operators, name@);
        }
        match r {
            Some(i) => Some(self.operators[i].1),
            None => None,
        }
    }

    /// The definition of `name` on the first search level that has one.
    pub fn definition(&self, name: &Vec<char>) -> (r: Option<Vec<char>>)
        ensures
            match r {
                Some(t) => def_lookup(self@, name@) == Some(t@),
                None => def_lookup(self@, name@) is None,
            },
    {
        match find_entry(&self.in_memory, name) {
            Some(i) => Some(copy_chars(&self.in_memory[i].1)),
            None => match find_entry(&self.external, name) {
                Some(i) => Some(copy_chars(&self.external[i].1)),
                None => None,
            },
        }
    }
}


/// Once the first `k` steps fail, the first `m` fail the same way for any
/// larger `m`.
proof fn lemma_steps_err(
    p: ProviderModel,
    steps: Seq<StepModel>,
    globals: Seq<ArgModel>,
    depth: nat,
    k: nat,
    m: nat,
    e: ErrorModel,
)
    requires
        k <= m <= steps.len(),
        steps_spec(p, steps, globals, depth, k) == Err::<Seq<LeafModel>, ErrorModel>(e),
    ensures
        steps_spec(p, steps, globals, depth, m) == Err::<Seq<LeafModel>, ErrorModel>(e),
    decreases m - k,
{
    if k < m {
        lemma_steps_err(p, steps, globals, depth, k, (m - 1) as nat, e);
    }
}

impl Provider {
    /// Resolves `name` with the caller's arguments `args` at expansion
    /// depth `depth` into a flat plan of leaf steps, as `resolve_spec` says.
    pub fn resolve(&self, name: &Vec<char>, args: &Vec<GysArg>, depth: usize) -> (r: Result<
        Operator,
        GeodesyError,
    >)
        ensures
            match resolve_spec(self@, name@, arg_views(args@), depth as nat) {
                Ok(plan) => r is Ok && r->Ok_0@ == plan,
                Err(e) => r is Err && r->Err_0.model() == e,
            },
        decreases budget(depth as nat), 0nat,
    {
        if depth > RECURSION_CEILING {
            return Err(GeodesyError::Recursion(string_of(name)));
        }
        match self.operator(name) {
            Some(kind) => {
                let leaf = Leaf { kind, name: copy_chars(name), args: copy_args(args), inverted: false };
                let ghost lv = leaf@;
                let steps = vec![leaf];
                proof {
                    assert(leaf_views(steps@) =~= seq![lv]);
                }
                Ok(Operator { steps })
            },
            None => match self.definition(name) {
                None => Err(GeodesyError::NotFound(string_of(name))),
                Some(text) => match GysResource::parse(name, &text) {
                    Err(e) => Err(e),
                    Ok(res) => {
                        let globals = merge_args(&res.globals, args);
                        self.resolve_steps(&res, &globals, depth + 1)
                    },
                },
            },
        }
    }

    /// Resolves every step of `res` at `depth`, each with the arguments
    /// `globals` followed by its own, and joins their plans in order.
    pub fn resolve_steps(&self, res: &GysResource, globals: &Vec<GysArg>, depth: usize) -> (r:
        Result<Operator, GeodesyError>)
        ensures
            match steps_spec(self@, res@.steps, arg_views(globals@), depth as nat, res@.steps.len()) {
                Ok(plan) => r is Ok && r->Ok_0@ == plan,
                Err(e) => r is Err && r->Err_0.model() == e,
            },
        decreases budget(depth as nat), 1nat,
    {
        let ghost sm = res@.steps;
        let ghost g = arg_views(globals@);
        let mut plan: Vec<Leaf> = Vec::new();
        let mut i: usize = 0;
        proof {
            assert(leaf_views(plan@) =~= seq![]);
        }
        while i < res.steps.len()
            invariant
                i <= res.steps@.len(),
                sm == res@.steps,
                sm.len() == res.steps@.len(),
                g == arg_views(globals@),
                steps_spec(self@, sm, g, depth as nat, i as nat) == Ok::<
                    Seq<LeafModel>,
                    ErrorModel,
                >(leaf_views(plan@)),
            decreases res.steps.len() - i,
        {
            let step = &res.steps[i];
            proof {
                assert(sm[i as int] == step@);
            }
            let step_args = merge_args(globals, &step.args);
            match self.resolve(&step.name, &step_args, depth) {
                Err(e) => {
                    proof {
                        lemma_steps_err(self@, sm, g, depth as nat, (i + 1) as nat, sm.len(), e.model());
                    }
                    return Err(e);
                },
                Ok(sub) => {
                    append_plan(&mut plan, &sub.steps, step.inverted);
                },
            }
            i = i + 1;
        }
        Ok(Operator { steps: plan })
    }
}

impl Provider {
    /// Whether `d` is a bare name, as `is_plain_name` says.
    fn plain_name(d: &Vec<char>) -> (r: bool)
        ensures
            r == is_plain_name(d@),
    {
        if d.len() == 0 {
            return false;
        }
        let mut i: usize = 0;
        while i < d.len()
            invariant
                i <= d@.len(),
                forall|j: int|
                    0 <= j < i ==> !is_space(#[trigger] d@[j]) && d@[j] != '|' && d@[j] != ':'
                        && d@[j] != '=',
            decreases d.len() - i,
        {
            let c = d[i];
            if c == ' ' || c == '\t' || c == '\n' || c == '\r' || c == '|' || c == ':' || c == '=' {
                return false;
            }
            i = i + 1;
        }
        true
    }

    /// Builds a pipeline from a bare name or from definition text, as
    /// `build_spec` says.
    pub fn build(&self, definition: &Vec<char>) -> (r: Result<Operator, GeodesyError>)
        ensures
            match build_spec(self@, definition@) {
                Ok(plan) => r is Ok && r->Ok_0@ == plan,
                Err(e) => r is Err && r->Err_0.model() == e,
            },
    {
        if Self::plain_name(definition) {
            let none: Vec<GysArg> = Vec::new();
            proof {
                assert(arg_views(none@) =~= seq![]);
            }
            self.resolve(definition, &none, 0)
        } else {
            let anonymous: Vec<char> = Vec::new();
            proof {
                assert(anonymous@ =~= seq![]);
            }
            match GysResource::parse(&anonymous, definition) {
                Err(e) => Err(e),
                Ok(res) => self.resolve_steps(&res, &res.globals, 1),
            }
        }
    }
}

/// Last registration wins: after `name` is registered with `kind`, looking
/// it up gives `kind`, and every other name keeps what it had.
pub proof fn lemma_register_last_wins(p: ProviderModel, name: Seq<char>, kind: usize, other: Seq<char>)
    ensures
        op_lookup(ProviderModel { operators: p.operators.push((name, kind)), ..p }, name) == Some(kind),
        other != name ==> op_lookup(ProviderModel { operators: p.operators.push((name, kind)), ..p }, other)
            == op_lookup(p, other),
{
    assert(p.operators.push((name, kind)).drop_last() =~= p.operators);
}

/// The search levels are tried in order: a name defined in memory is found
/// there, whatever the external level holds.
pub proof fn lemma_in_memory_first(p: ProviderModel, name: Seq<char>, text: Seq<char>)
    ensures
        def_lookup(ProviderModel { in_memory: p.in_memory.push((name, text)), ..p }, name) == Some(text),
{
    assert(p.in_memory.push((name, text)).drop_last() =~= p.in_memory);
}

/// Caller arguments win: where the caller's arguments give a key a value,
/// the merged arguments give that value; elsewhere the globals decide.
pub proof fn lemma_caller_wins(globals: Seq<ArgModel>, caller: Seq<ArgModel>, key: Seq<char>)
    ensures
        arg_value(globals + caller, key) == match arg_value(caller, key) {
            Some(v) => Some(v),
            None => arg_value(globals, key),
        },
    decreases caller.len(),
{
    if caller.len() == 0 {
        assert(globals + caller =~= globals);
    } else {
        assert((globals + caller).drop_last() =~= globals + caller.drop_last());
        lemma_caller_wins(globals, caller.drop_last(), key);
    }
}

/// The steps before position `j` are registered operators, so at a depth
/// within the ceiling they resolve.
proof fn lemma_operator_prefix_resolves(
    p: ProviderModel,
    steps: Seq<StepModel>,
    globals: Seq<ArgModel>,
    depth: nat,
    j: nat,
)
    requires
        depth <= RECURSION_CEILING,
        j <= steps.len(),
        forall|k: int| 0 <= k < j ==> op_lookup(p, #[trigger] steps[k].name) is Some,
    ensures
        steps_spec(p, steps, globals, depth, j) is Ok,
    decreases j,
{
    if j > 0 {
        lemma_operator_prefix_resolves(p, steps, globals, depth, (j - 1) as nat);
        assert(op_lookup(p, steps[j - 1].name) is Some);
        assert(resolve_spec(p, steps[j - 1].name, globals + steps[j - 1].args, depth) is Ok);
    }
}

/// The recursion ceiling: a definition that is no operator, and one of
/// whose steps names the definition itself while every step before it is a
/// registered operator, fails with a recursion error, at every
/// depth and with any arguments; resolution never runs deeper than the
/// ceiling.
pub proof fn lemma_self_reference_fails(
    p: ProviderModel,
    name: Seq<char>,
    text: Seq<char>,
    j: nat,
    args: Seq<ArgModel>,
    depth: nat,
)
    requires
        op_lookup(p, name) is None,
        def_lookup(p, name) == Some(text),
        parse_spec(name, text) is Ok,
        j < parse_spec(name, text)->Ok_0.steps.len(),
        parse_spec(name, text)->Ok_0.steps[j as int].name == name,
        forall|k: int|
            0 <= k < j ==> op_lookup(p, #[trigger] parse_spec(name, text)->Ok_0.steps[k].name) is Some,
    ensures
        resolve_spec(p, name, args, depth) is Err,
        resolve_spec(p, name, args, depth)->Err_0 is Recursion,
    decreases budget(depth),
{
    if depth <= RECURSION_CEILING {
        let res = parse_spec(name, text)->Ok_0;
        let g = res.globals + args;
        let st = res.steps[j as int];
        assert(steps_spec(p, res.steps, g, depth + 1, 0) is Ok);
        if depth + 1 > RECURSION_CEILING && j > 0 {
            let e = ErrorModel::Recursion(res.steps[0].name);
            assert(resolve_spec(p, res.steps[0].name, g + res.steps[0].args, depth + 1) == Err::<
                Seq<LeafModel>,
                ErrorModel,
            >(e));
            assert(steps_spec(p, res.steps, g, depth + 1, 1) == Err::<Seq<LeafModel>, ErrorModel>(e));
            lemma_steps_err(p, res.steps, g, depth + 1, 1, res.steps.len(), e);
        } else {
            if j > 0 {
                lemma_operator_prefix_resolves(p, res.steps, g, depth + 1, j);
            }
            lemma_self_reference_fails(p, name, text, j, g + st.args, depth + 1);
            let e = steps_spec(p, res.steps, g, depth + 1, j + 1)->Err_0;
            assert(steps_spec(p, res.steps, g, depth + 1, j + 1) == Err::<Seq<LeafModel>, ErrorModel>(e));
            lemma_steps_err(p, res.steps, g, depth + 1, j + 1, res.steps.len(), e);
        }
    }
}

/// Argument override: a definition whose single step is a registered
/// operator, resolved with caller arguments that give `key` the value `v`,
/// yields that operator configured with `v` for `key`, whatever the
/// definition's global arguments say, unless the step sets `key` itself.
pub proof fn lemma_argument_override(
    p: ProviderModel,
    name: Seq<char>,
    text: Seq<char>,
    caller: Seq<ArgModel>,
    key: Seq<char>,
    v: Seq<char>,
    depth: nat,
)
    requires
        depth < RECURSION_CEILING,
        op_lookup(p, name) is None,
        def_lookup(p, name) == Some(text),
        parse_spec(name, text) is Ok,
        parse_spec(name, text)->Ok_0.steps.len() == 1,
        op_lookup(p, parse_spec(name, text)->Ok_0.steps[0].name) is Some,
        arg_value(parse_spec(name, text)->Ok_0.steps[0].args, key) is None,
        arg_value(caller, key) == Some(v),
    ensures
        resolve_spec(p, name, caller, depth) is Ok,
        resolve_spec(p, name, caller, depth)->Ok_0.len() == 1,
        arg_value(resolve_spec(p, name, caller, depth)->Ok_0[0].args, key) == Some(v),
{
    let res = parse_spec(name, text)->Ok_0;
    let g = res.globals + caller;
    let st = res.steps[0];
    assert(steps_spec(p, res.steps, g, depth + 1, 0) == Ok::<Seq<LeafModel>, ErrorModel>(seq![]));
    let sub = resolve_spec(p, st.name, g + st.args, depth + 1);
    assert(sub is Ok && sub->Ok_0.len() == 1 && sub->Ok_0[0].args == g + st.args);
    let out = steps_spec(p, res.steps, g, depth + 1, 1)->Ok_0;
    if st.inverted {
        assert(out =~= seq![] + invert_plan(sub->Ok_0));
    } else {
        assert(out =~= seq![] + sub->Ok_0);
    }
    assert(out[0].args == g + st.args);
    lemma_caller_wins(g, st.args, key);
    lemma_caller_wins(res.globals, caller, key);
}

} // verus!
