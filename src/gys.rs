use vstd::prelude::*;
use crate::error::GeodesyError;
use crate::text::{
    copy_chars, find_eq, first_eq, is_space, segments, slice_chars, split_segments, split_words,
    string_of, views, words,
};

verus! {

/// A key and its value, both as characters.
pub type ArgModel = (Seq<char>, Seq<char>);

/// One step of a definition: what is named, its arguments, and whether it
/// runs inverted relative to the pipeline.
pub ghost struct StepModel {
    pub name: Seq<char>,
    pub args: Seq<ArgModel>,
    pub inverted: bool,
}

/// A parsed definition: its name, its global arguments and its steps.
pub ghost struct ResourceModel {
    pub name: Seq<char>,
    pub globals: Seq<ArgModel>,
    pub steps: Seq<StepModel>,
}

/// One `key=value` argument; a bare flag has the value `true`.
pub struct GysArg {
    pub key: Vec<char>,
    pub value: Vec<char>,
}

/// One step of a pipeline definition.
pub struct GysStep {
    pub name: Vec<char>,
    pub args: Vec<GysArg>,
    pub inverted: bool,
}

/// A parsed pipeline definition.
pub struct GysResource {
    pub name: Vec<char>,
    pub globals: Vec<GysArg>,
    pub steps: Vec<GysStep>,
}

impl View for GysArg {
    type V = ArgModel;

    open spec fn view(&self) -> ArgModel {
        (self.key@, self.value@)
    }
}

/// The models of a sequence of arguments.
pub open spec fn arg_views(a: Seq<GysArg>) -> Seq<ArgModel> {
    a.map_values(|x: GysArg| x@)
}

impl View for GysStep {
    type V = StepModel;

    open spec fn view(&self) -> StepModel {
        StepModel { name: self.name@, args: arg_views(self.args@), inverted: self.inverted }
    }
}

impl View for GysResource {
    type V = ResourceModel;

    open spec fn view(&self) -> ResourceModel {
        ResourceModel {
            name: self.name@,
            globals: arg_views(self.globals@),
            steps: self.steps@.map_values(|x: GysStep| x@),
        }
    }
}

/// The word that marks a step as inverted.
pub open spec fn inv_mark() -> Seq<char> {
    seq!['i', 'n', 'v']
}

/// The value of a bare flag.
pub open spec fn flag_value() -> Seq<char> {
    seq!['t', 'r', 'u', 'e']
}

/// The value of `key` among `args`: the last occurrence wins.
pub open spec fn arg_value(args: Seq<ArgModel>, key: Seq<char>) -> Option<Seq<char>>
    decreases args.len(),
{
    if args.len() == 0 {
        None
    } else if args.last().0 == key {
        Some(args.last().1)
    } else {
        arg_value(args.drop_last(), key)
    }
}

/// A single word read as an argument; on failure, the offending word.
pub open spec fn parse_arg(w: Seq<char>) -> Result<ArgModel, Seq<char>> {
    let k = find_eq(w, 0);
    if k == 0 {
        Err(w)
    } else if k == w.len() {
        Ok((w, flag_value()))
    } else {
        Ok((w.subrange(0, k), w.subrange(k + 1, w.len() as int)))
    }
}

/// Words read as arguments, in order. Where `step` holds, the word `inv`
/// is no argument but marks the step as inverted.
pub open spec fn parse_words(ws: Seq<Seq<char>>, step: bool) -> Result<
    (Seq<ArgModel>, bool),
    Seq<char>,
>
    decreases ws.len(),
{
    if ws.len() == 0 {
        Ok((seq![], false))
    } else {
        match parse_words(ws.drop_last(), step) {
            Err(e) => Err(e),
            Ok((a, inv)) => if step && ws.last() == inv_mark() {
                Ok((a, true))
            } else {
                match parse_arg(ws.last()) {
                    Err(e) => Err(e),
                    Ok(x) => Ok((a.push(x), inv)),
                }
            },
        }
    }
}

/// A step name with one trailing `':'` removed.
pub open spec fn strip_colon(w: Seq<char>) -> Seq<char> {
    if w.len() > 0 && w.last() == ':' {
        w.drop_last()
    } else {
        w
    }
}

/// The global arguments and the steps of a sequence of segments. A segment
/// of only whitespace is skipped; one whose first word holds `'='` adds to
/// the global arguments; any other is a step named by its first word.
pub open spec fn parse_segments(segs: Seq<Seq<char>>) -> Result<
    (Seq<ArgModel>, Seq<StepModel>),
    Seq<char>,
>
    decreases segs.len(),
{
    if segs.len() == 0 {
        Ok((seq![], seq![]))
    } else {
        match parse_segments(segs.drop_last()) {
            Err(e) => Err(e),
            Ok((g, st)) => {
                let ws = words(segs.last());
                if ws.len() == 0 {
                    Ok((g, st))
                } else if find_eq(ws[0], 0) < ws[0].len() {
                    match parse_words(ws, false) {
                        Err(e) => Err(e),
                        Ok((a, _)) => Ok((g + a, st)),
                    }
                } else if strip_colon(ws[0]).len() == 0 {
                    Err(ws[0])
                } else {
                    match parse_words(ws.drop_first(), true) {
                        Err(e) => Err(e),
                        Ok((a, inv)) => Ok(
                            (g, st.push(StepModel { name: strip_colon(ws[0]), args: a, inverted: inv })),
                        ),
                    }
                }
            },
        }
    }
}

/// The definition `text` under the name `name`, or the offending fragment.
/// A definition without steps is malformed as a whole.
pub open spec fn parse_spec(name: Seq<char>, text: Seq<char>) -> Result<ResourceModel, Seq<char>> {
    match parse_segments(segments(text)) {
        Err(e) => Err(e),
        Ok((g, st)) => if st.len() == 0 {
            Err(text)
        } else {
            Ok(ResourceModel { name, globals: g, steps: st })
        },
    }
}

/// A copy of an argument list.
pub fn copy_args(a: &Vec<GysArg>) -> (r: Vec<GysArg>)
    ensures
        arg_views(r@) == arg_views(a@),
{
    let mut r: Vec<GysArg> = Vec::new();
    let mut i: usize = 0;
    while i < a.len()
        invariant
            i <= a@.len(),
            arg_views(r@) == arg_views(a@.take(i as int)),
        decreases a.len() - i,
    {
        let x = GysArg { key: copy_chars(&a[i].key), value: copy_chars(&a[i].value) };
        proof {
            assert(a@.take(i + 1) =~= a@.take(i as int).push(a@[i as int]));
            lemma_arg_views_push(r@, x);
            lemma_arg_views_push(a@.take(i as int), a@[i as int]);
        }
        r.push(x);
        i = i + 1;
    }
    proof {
        assert(a@.take(a@.len() as int) =~= a@);
    }
    r
}

/// The arguments `first` followed by `then`: where both give a key, the
/// value from `then` wins.
pub fn merge_args(first: &Vec<GysArg>, then: &Vec<GysArg>) -> (r: Vec<GysArg>)
    ensures
        arg_views(r@) == arg_views(first@) + arg_views(then@),
{
    let mut r = copy_args(first);
    let ghost base = arg_views(r@);
    let mut i: usize = 0;
    while i < then.len()
        invariant
            i <= then@.len(),
            base == arg_views(first@),
            arg_views(r@) == base + arg_views(then@.take(i as int)),
        decreases then.len() - i,
    {
        let x = GysArg { key: copy_chars(&then[i].key), value: copy_chars(&then[i].value) };
        proof {
            assert(then@.take(i + 1) =~= then@.take(i as int).push(then@[i as int]));
            lemma_arg_views_push(r@, x);
            lemma_arg_views_push(then@.take(i as int), then@[i as int]);
        }
        r.push(x);
        i = i + 1;
    }
    proof {
        assert(then@.take(then@.len() as int) =~= then@);
    }
    r
}

/// Reads one word as an argument.
pub fn parse_arg_word(w: &Vec<char>) -> (r: Result<GysArg, Vec<char>>)
    ensures
        match r {
            Ok(a) => parse_arg(w@) == Ok::<ArgModel, Seq<char>>(a@),
            Err(e) => parse_arg(w@) == Err::<ArgModel, Seq<char>>(e@),
        },
{
    let k = first_eq(w);
    proof {
        lemma_find_eq_range(w@, 0);
    }
    if k == 0 {
        Err(copy_chars(w))
    } else if k == w.len() {
        let value = vec!['t', 'r', 'u', 'e'];
        proof {
            assert(value@ =~= flag_value());
        }
        Ok(GysArg { key: copy_chars(w), value })
    } else {
        Ok(GysArg { key: slice_chars(w, 0, k), value: slice_chars(w, k + 1, w.len()) })
    }
}

/// Whether a word is the inversion mark.
fn is_inv_mark(w: &Vec<char>) -> (r: bool)
    ensures
        r == (w@ == inv_mark()),
{
    let m = vec!['i', 'n', 'v'];
    proof {
        assert(m@ =~= inv_mark());
    }
    crate::text::same_chars(w, &m)
}

/// Reads the words `ws[from..]` as arguments, see `parse_words`.
fn parse_word_list(ws: &Vec<Vec<char>>, from: usize, step: bool) -> (r: Result<
    (Vec<GysArg>, bool),
    Vec<char>,
>)
    requires
        from <= ws@.len(),
    ensures
        match r {
            Ok((a, inv)) => parse_words(views(ws@).subrange(from as int, ws@.len() as int), step)
                == Ok::<(Seq<ArgModel>, bool), Seq<char>>((arg_views(a@), inv)),
            Err(e) => parse_words(views(ws@).subrange(from as int, ws@.len() as int), step) == Err::<
                (Seq<ArgModel>, bool),
                Seq<char>,
            >(e@),
        },
{
    let ghost all = views(ws@);
    let mut args: Vec<GysArg> = Vec::new();
    let mut inv = false;
    let mut i: usize = from;
    proof {
        assert(arg_views(args@) =~= seq![]);
        assert(all.subrange(from as int, from as int) =~= seq![]);
    }
    while i < ws.len()
        invariant
            from <= i <= ws@.len(),
            all == views(ws@),
            parse_words(all.subrange(from as int, i as int), step) == Ok::<
                (Seq<ArgModel>, bool),
                Seq<char>,
            >((arg_views(args@), inv)),
        decreases ws.len() - i,
    {
        let ghost pre = all.subrange(from as int, i as int);
        let ghost next = all.subrange(from as int, i + 1);
        proof {
            assert(next.drop_last() =~= pre);
            assert(next.last() == ws@[i as int]@);
        }
        if step && is_inv_mark(&ws[i]) {
            inv = true;
        } else {
            match parse_arg_word(&ws[i]) {
                Err(e) => {
                    proof {
                        assert(next.len() > 0);
                        assert(all.subrange(from as int, ws@.len() as int).take(next.len() as int) =~= next);
                        lemma_parse_words_err(all.subrange(from as int, ws@.len() as int), next.len() as int, step, e@);
                    }
                    return Err(e);
                },
                Ok(a) => {
                    let ghost old_args = arg_views(args@);
                    args.push(a);
                    proof {
                        assert(arg_views(args@) =~= old_args.push(a@));
                    }
                },
            }
        }
        i = i + 1;
    }
    Ok((args, inv))
}

/// Removes one trailing `':'` from a step name.
fn strip_colon_chars(w: &Vec<char>) -> (r: Vec<char>)
    ensures
        r@ == strip_colon(w@),
{
    if w.len() > 0 && w[w.len() - 1] == ':' {
        slice_chars(w, 0, w.len() - 1)
    } else {
        copy_chars(w)
    }
}

impl GysResource {
    /// Parses the definition `text`, known under the name `name`. Fails with
    /// `Syntax` naming the offending word, or the whole text when it holds
    /// no step.
    pub fn parse(name: &Vec<char>, text: &Vec<char>) -> (r: Result<GysResource, GeodesyError>)
        ensures
            match parse_spec(name@, text@) {
                Ok(m) => r is Ok && r->Ok_0@ == m,
                Err(frag) => r is Err && r->Err_0.model() == crate::error::ErrorModel::Syntax(frag),
            },
    {
        let segs = split_segments(text);
        let ghost all = views(segs@);
        let mut globals: Vec<GysArg> = Vec::new();
        let mut steps: Vec<GysStep> = Vec::new();
        let mut i: usize = 0;
        proof {
            assert(arg_views(globals@) =~= seq![]);
            assert(steps@.map_values(|x: GysStep| x@) =~= seq![]);
            assert(all.take(0) =~= seq![]);
        }
        while i < segs.len()
            invariant
                i <= segs@.len(),
                all == views(segs@),
                all == segments(text@),
                parse_segments(all.take(i as int)) == Ok::<
                    (Seq<ArgModel>, Seq<StepModel>),
                    Seq<char>,
                >((arg_views(globals@), steps@.map_values(|x: GysStep| x@))),
            decreases segs.len() - i,
        {
            let ghost pre = all.take(i as int);
            let ghost next = all.take(i + 1);
            proof {
                assert(next.drop_last() =~= pre);
                assert(next.last() == segs@[i as int]@);
            }
            let ws = split_words(&segs[i]);
            let ghost wv = views(ws@);
            if ws.len() == 0 {
            } else if first_eq(&ws[0]) < ws[0].len() {
                proof {
                    assert(wv.subrange(0, wv.len() as int) =~= wv);
                }
                match parse_word_list(&ws, 0, false) {
                    Err(e) => {
                        proof {
                            lemma_parse_segments_err(all, i as int + 1, e@);
                        }
                        return Err(GeodesyError::Syntax(string_of(&e)));
                    },
                    Ok((a, _)) => {
                        globals = merge_args(&globals, &a);
                    },
                }
            } else {
                let step_name = strip_colon_chars(&ws[0]);
                if step_name.len() == 0 {
                    proof {
                        lemma_parse_segments_err(all, i as int + 1, wv[0]);
                    }
                    return Err(GeodesyError::Syntax(string_of(&ws[0])));
                }
                proof {
                    assert(wv.subrange(1, wv.len() as int) =~= wv.drop_first());
                }
                match parse_word_list(&ws, 1, true) {
                    Err(e) => {
                        proof {
                            lemma_parse_segments_err(all, i as int + 1, e@);
                        }
                        return Err(GeodesyError::Syntax(string_of(&e)));
                    },
                    Ok((a, inv)) => {
                        let ghost old_st = steps@.map_values(|x: GysStep| x@);
                        let st = GysStep { name: step_name, args: a, inverted: inv };
                        steps.push(st);
                        proof {
                            assert(steps@.map_values(|x: GysStep| x@) =~= old_st.push(st@));
                        }
                    },
                }
            }
            i = i + 1;
        }
        proof {
            assert(all.take(all.len() as int) =~= all);
        }
        if steps.len() == 0 {
            return Err(GeodesyError::Syntax(string_of(text)));
        }
        Ok(GysResource { name: copy_chars(name), globals, steps })
    }
}

proof fn lemma_arg_views_push(s: Seq<GysArg>, x: GysArg)
    ensures
        arg_views(s.push(x)) == arg_views(s).push(x@),
{
    assert(arg_views(s.push(x)) =~= arg_views(s).push(x@));
}

proof fn lemma_find_eq_range(w: Seq<char>, i: int)
    requires
        0 <= i <= w.len(),
    ensures
        i <= find_eq(w, i) <= w.len(),
    decreases w.len() - i,
{
    if i < w.len() && w[i] != '=' {
        lemma_find_eq_range(w, i + 1);
    }
}

/// Once a prefix of the words fails, every longer prefix fails the same way.
proof fn lemma_parse_words_err(ws: Seq<Seq<char>>, n: int, step: bool, e: Seq<char>)
    requires
        0 < n <= ws.len(),
        parse_words(ws.take(n), step) == Err::<(Seq<ArgModel>, bool), Seq<char>>(e),
    ensures
        parse_words(ws, step) == Err::<(Seq<ArgModel>, bool), Seq<char>>(e),
    decreases ws.len() - n,
{
    if n < ws.len() {
        assert(ws.take(n + 1).drop_last() =~= ws.take(n));
        lemma_parse_words_err(ws, n + 1, step, e);
    } else {
        assert(ws.take(n) =~= ws);
    }
}

/// Once a prefix of the segments fails, every longer prefix fails the same way.
proof fn lemma_parse_segments_err(segs: Seq<Seq<char>>, n: int, e: Seq<char>)
    requires
        0 < n <= segs.len(),
        parse_segments(segs.take(n)) == Err::<(Seq<ArgModel>, Seq<StepModel>), Seq<char>>(e),
    ensures
        parse_segments(segs) == Err::<(Seq<ArgModel>, Seq<StepModel>), Seq<char>>(e),
    decreases segs.len() - n,
{
    if n < segs.len() {
        assert(segs.take(n + 1).drop_last() =~= segs.take(n));
        lemma_parse_segments_err(segs, n + 1, e);
    } else {
        assert(segs.take(n) =~= segs);
    }
}

/// The value of `key` among `args`, the last occurrence winning.
pub fn value_of(args: &Vec<GysArg>, key: &Vec<char>) -> (r: Option<Vec<char>>)
    ensures
        match r {
            Some(v) => arg_value(arg_views(args@), key@) == Some(v@),
            None => arg_value(arg_views(args@), key@) is None,
        },
{
    let ghost all = arg_views(args@);
    let mut i: usize = args.len();
    proof {
        assert(all.take(i as int) =~= all);
    }
    while i > 0
        invariant
            i <= args@.len(),
            all == arg_views(args@),
            arg_value(all.take(i as int), key@) == arg_value(all, key@),
        decreases i,
    {
        proof {
            assert(all.take(i as int).drop_last() =~= all.take(i - 1));
        }
        if crate::text::same_chars(&args[i - 1].key, key) {
            return Some(copy_chars(&args[i - 1].value));
        }
        i = i - 1;
    }
    None
}

} // verus!
