use vstd::prelude::*;
use crate::gys::{arg_views, copy_args, ArgModel, GysArg};
use crate::text::copy_chars;

verus! {

/// The direction in which a two-way operator runs.
#[derive(PartialEq, Eq, Structural, Clone, Copy, Debug)]
pub enum Direction {
    Fwd,
    Inv,
}

impl Direction {
    pub open spec fn flipped(self) -> Direction {
        match self {
            Direction::Fwd => Direction::Inv,
            Direction::Inv => Direction::Fwd,
        }
    }

    /// The other direction.
    pub fn flip(self) -> (r: Direction)
        ensures
            r == self.flipped(),
    {
        match self {
            Direction::Fwd => Direction::Inv,
            Direction::Inv => Direction::Fwd,
        }
    }
}

/// A resolved leaf step, as the contracts see it.
pub ghost struct LeafModel {
    pub kind: usize,
    pub name: Seq<char>,
    pub args: Seq<ArgModel>,
    pub inverted: bool,
}

/// A resolved leaf step: the constructor registered under `name` (its
/// index `kind`), the arguments it receives, and whether it runs inverted.
pub struct Leaf {
    pub kind: usize,
    pub name: Vec<char>,
    pub args: Vec<GysArg>,
    pub inverted: bool,
}

impl View for Leaf {
    type V = LeafModel;

    open spec fn view(&self) -> LeafModel {
        LeafModel {
            kind: self.kind,
            name: self.name@,
            args: arg_views(self.args@),
            inverted: self.inverted,
        }
    }
}

/// The models of a sequence of leaves.
pub open spec fn leaf_views(s: Seq<Leaf>) -> Seq<LeafModel> {
    s.map_values(|x: Leaf| x@)
}

/// The direction a leaf runs in when its pipeline runs in `dir`.
pub open spec fn leaf_direction(l: LeafModel, dir: Direction) -> Direction {
    if l.inverted {
        dir.flipped()
    } else {
        dir
    }
}

/// The same leaf with its inversion flag toggled.
pub open spec fn flip_leaf(l: LeafModel) -> LeafModel {
    LeafModel { inverted: !l.inverted, ..l }
}

/// A plan run the other way round: steps in reverse order, each inverted.
pub open spec fn invert_plan(p: Seq<LeafModel>) -> Seq<LeafModel> {
    Seq::new(p.len(), |i: int| flip_leaf(p[p.len() - 1 - i]))
}

/// The calls that running the plan `p` in direction `dir` makes, in order:
/// which step, and in which direction.
pub open spec fn schedule_spec(p: Seq<LeafModel>, dir: Direction) -> Seq<(usize, Direction)> {
    match dir {
        Direction::Fwd => Seq::new(
            p.len(),
            |i: int| (i as usize, leaf_direction(p[i], Direction::Fwd)),
        ),
        Direction::Inv => Seq::new(
            p.len(),
            |i: int| ((p.len() - 1 - i) as usize, leaf_direction(p[p.len() - 1 - i], Direction::Inv)),
        ),
    }
}

/// A pipeline: leaf steps that run in stored order forward, and in reverse
/// order, each inverted, for the inverse.
pub struct Operator {
    pub steps: Vec<Leaf>,
}

impl View for Operator {
    type V = Seq<LeafModel>;

    open spec fn view(&self) -> Seq<LeafModel> {
        leaf_views(self.steps@)
    }
}

/// A copy of a leaf.
pub fn copy_leaf(l: &Leaf) -> (r: Leaf)
    ensures
        r@ == l@,
{
    Leaf { kind: l.kind, name: copy_chars(&l.name), args: copy_args(&l.args), inverted: l.inverted }
}

proof fn lemma_leaf_views_push(s: Seq<Leaf>, x: Leaf)
    ensures
        leaf_views(s.push(x)) == leaf_views(s).push(x@),
{
    assert(leaf_views(s.push(x)) =~= leaf_views(s).push(x@));
}

/// Appends to `dst` the plan `src`, inverted when `inverted` holds.
pub fn append_plan(dst: &mut Vec<Leaf>, src: &Vec<Leaf>, inverted: bool)
    ensures
        leaf_views(final(dst)@) == leaf_views(old(dst)@) + if inverted {
            invert_plan(leaf_views(src@))
        } else {
            leaf_views(src@)
        },
{
    let ghost base = leaf_views(dst@);
    let ghost sv = leaf_views(src@);
    let ghost added = if inverted { invert_plan(sv) } else { sv };
    let n = src.len();
    let mut i: usize = 0;
    while i < n
        invariant
            n == src@.len(),
            sv == leaf_views(src@),
            added == if inverted { invert_plan(sv) } else { sv },
            i <= n,
            leaf_views(dst@) == base + added.take(i as int),
        decreases n - i,
    {
        let mut x = if inverted {
            copy_leaf(&src[n - 1 - i])
        } else {
            copy_leaf(&src[i])
        };
        if inverted {
            x.inverted = !x.inverted;
        }
        proof {
            assert(x@ == added[i as int]);
            assert(added.take(i + 1) =~= added.take(i as int).push(added[i as int]));
            lemma_leaf_views_push(dst@, x);
        }
        dst.push(x);
        i = i + 1;
    }
    proof {
        assert(added.take(n as int) =~= added);
    }
}

impl Operator {
    /// The calls that running this pipeline in direction `dir` makes, in
    /// order: the index of a step and the direction it runs in. Forward,
    /// the steps come in stored order; inverse, in reverse order, and every
    /// step runs the other way from the forward run.
    pub fn schedule(&self, dir: Direction) -> (r: Vec<(usize, Direction)>)
        ensures
            r@ == schedule_spec(self@, dir),
    {
        let n = self.steps.len();
        let mut r: Vec<(usize, Direction)> = Vec::new();
        let mut i: usize = 0;
        while i < n
            invariant
                n == self.steps@.len(),
                i <= n,
                r@ == schedule_spec(self@, dir).take(i as int),
            decreases n - i,
        {
            let k = match dir {
                Direction::Fwd => i,
                Direction::Inv => n - 1 - i,
            };
            let d = if self.steps[k].inverted {
                dir.flip()
            } else {
                dir
            };
            proof {
                assert(schedule_spec(self@, dir).take(i + 1) =~= schedule_spec(self@, dir).take(
                    i as int,
                ).push((k, d)));
            }
            r.push((k, d));
            i = i + 1;
        }
        proof {
            assert(schedule_spec(self@, dir).take(n as int) =~= schedule_spec(self@, dir));
        }
        r
    }
}

/// Runs the calls `calls` in order on the state `x`, where `step` gives
/// what one leaf does in one direction.
pub open spec fn run_calls<S>(
    p: Seq<LeafModel>,
    calls: Seq<(usize, Direction)>,
    step: spec_fn(LeafModel, Direction, S) -> S,
    x: S,
) -> S
    decreases calls.len(),
{
    if calls.len() == 0 {
        x
    } else {
        step(p[calls.last().0 as int], calls.last().1, run_calls(p, calls.drop_last(), step, x))
    }
}

proof fn lemma_run_concat<S>(
    p: Seq<LeafModel>,
    a: Seq<(usize, Direction)>,
    b: Seq<(usize, Direction)>,
    step: spec_fn(LeafModel, Direction, S) -> S,
    x: S,
)
    ensures
        run_calls(p, a + b, step, x) == run_calls(p, b, step, run_calls(p, a, step, x)),
    decreases b.len(),
{
    if b.len() == 0 {
        assert(a + b =~= a);
    } else {
        assert((a + b).drop_last() =~= a + b.drop_last());
        lemma_run_concat(p, a, b.drop_last(), step, x);
    }
}

/// The round trip of a pipeline: where every leaf's inverse undoes its
/// forward run, running the pipeline forward and then inverse gives back
/// the state it started from.
pub proof fn lemma_round_trip<S>(
    op: Seq<LeafModel>,
    step: spec_fn(LeafModel, Direction, S) -> S,
    x: S,
)
    requires
        op.len() <= usize::MAX,
        forall|l: LeafModel, d: Direction, s: S| #[trigger] step(l, d.flipped(), step(l, d, s)) == s,
    ensures
        run_calls(op, schedule_spec(op, Direction::Inv), step, run_calls(
            op,
            schedule_spec(op, Direction::Fwd),
            step,
            x,
        )) == x,
{
    let n = op.len() as int;
    let f = schedule_spec(op, Direction::Fwd);
    let g = schedule_spec(op, Direction::Inv);
    lemma_round_trip_prefix(op, step, x, n);
    assert(f.take(n) =~= f);
    assert(g.skip(0) =~= g);
}

/// Running the first `k` steps forward and then those same steps back in
/// reverse order returns the starting state.
proof fn lemma_round_trip_prefix<S>(
    op: Seq<LeafModel>,
    step: spec_fn(LeafModel, Direction, S) -> S,
    x: S,
    k: int,
)
    requires
        0 <= k <= op.len() <= usize::MAX,
        forall|l: LeafModel, d: Direction, s: S| #[trigger] step(l, d.flipped(), step(l, d, s)) == s,
    ensures
        run_calls(op, schedule_spec(op, Direction::Inv).skip(op.len() - k), step, run_calls(
            op,
            schedule_spec(op, Direction::Fwd).take(k),
            step,
            x,
        )) == x,
    decreases k,
{
    let n = op.len() as int;
    let f = schedule_spec(op, Direction::Fwd);
    let g = schedule_spec(op, Direction::Inv);
    if k == 0 {
        assert(g.skip(n) =~= seq![]);
        assert(f.take(0) =~= seq![]);
    } else {
        lemma_round_trip_prefix(op, step, x, k - 1);
        let y = run_calls(op, f.take(k - 1), step, x);
        assert(f.take(k).drop_last() =~= f.take(k - 1));
        let c = f[k - 1];
        let z = step(op[k - 1], c.1, y);
        assert(run_calls(op, f.take(k), step, x) == z);
        let head = seq![g[n - k]];
        assert(g.skip(n - k) =~= head + g.skip(n - k + 1));
        lemma_run_concat(op, head, g.skip(n - k + 1), step, z);
        assert(head.drop_last() =~= seq![]);
        assert(run_calls(op, head.drop_last(), step, z) == z);
        assert(head.last() == g[n - k]);
        assert(g[n - k].0 == k - 1);
        assert(g[n - k].1 == c.1.flipped());
        assert(run_calls(op, head, step, z) == step(op[k - 1], c.1.flipped(), z));
        assert(step(op[k - 1], c.1.flipped(), z) == y);
        assert(n - k + 1 == n - (k - 1));
    }
}

/// How many slots of a batch are live.
pub open spec fn count_live(s: Seq<bool>) -> nat
    decreases s.len(),
{
    if s.len() == 0 {
        0
    } else {
        count_live(s.drop_last()) + if s.last() {
            1nat
        } else {
            0nat
        }
    }
}

/// Marks the slots of a batch that a step failed on: a slot stays live only
/// where it was live and the step succeeded on it. Returns how many slots
/// are still live.
pub fn settle(live: &mut Vec<bool>, ok: &Vec<bool>) -> (r: usize)
    requires
        old(live)@.len() == ok@.len(),
    ensures
        final(live)@.len() == old(live)@.len(),
        forall|i: int|
            0 <= i < ok@.len() ==> #[trigger] final(live)@[i] == (old(live)@[i] && ok@[i]),
        r as int == count_live(final(live)@),
{
    let n = live.len();
    let mut count: usize = 0;
    let mut i: usize = 0;
    while i < n
        invariant
            n == live@.len(),
            n == ok@.len(),
            n == old(live)@.len(),
            i <= n,
            count <= i,
            forall|j: int| 0 <= j < i ==> #[trigger] live@[j] == (old(live)@[j] && ok@[j]),
            forall|j: int| i <= j < n ==> #[trigger] live@[j] == old(live)@[j],
            count as int == count_live(live@.take(i as int)),
        decreases n - i,
    {
        let v = live[i] && ok[i];
        let ghost prev = live@;
        live.set(i, v);
        proof {
            assert(live@.take(i as int) =~= prev.take(i as int));
            assert(live@.take(i + 1).drop_last() =~= live@.take(i as int));
        }
        if v {
            count = count + 1;
        }
        i = i + 1;
    }
    proof {
        assert(live@.take(n as int) =~= live@);
    }
    count
}

/// The positions of the live slots of a batch, in increasing order: the
/// slots that the next step runs on. A slot that an earlier step failed on
/// is not among them.
pub fn live_slots(live: &Vec<bool>) -> (r: Vec<usize>)
    ensures
        forall|k: int| 0 <= k < r@.len() ==> r@[k] < live@.len() && live@[r@[k] as int],
        forall|k: int, m: int| 0 <= k < m < r@.len() ==> r@[k] < r@[m],
        forall|i: int| 0 <= i < live@.len() && live@[i] ==> r@.contains(i as usize),
{
    let mut r: Vec<usize> = Vec::new();
    let mut i: usize = 0;
    while i < live.len()
        invariant
            i <= live@.len(),
            forall|k: int| 0 <= k < r@.len() ==> r@[k] < i && live@[r@[k] as int],
            forall|k: int, m: int| 0 <= k < m < r@.len() ==> r@[k] < r@[m],
            forall|j: int| 0 <= j < i && live@[j] ==> r@.contains(j as usize),
        decreases live.len() - i,
    {
        if live[i] {
            let ghost before = r@;
            r.push(i);
            proof {
                assert forall|j: int| 0 <= j < i + 1 && live@[j] implies r@.contains(j as usize) by {
                    if j < i {
                        let k = choose|k: int| 0 <= k < before.len() && before[k] == j as usize;
                        assert(r@[k] == j as usize);
                    } else {
                        assert(r@[r@.len() - 1] == i);
                    }
                }
            }
        }
        i = i + 1;
    }
    r
}

} // verus!
