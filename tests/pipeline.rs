use geodesy::{
    chars_of, settle, value_of, Direction, GeodesyError, GysArg, GysResource, Provider,
    SearchLevel,
};

fn c(s: &str) -> Vec<char> {
    chars_of(s)
}

fn text(v: &[char]) -> String {
    v.iter().collect()
}

fn arg(k: &str, v: &str) -> GysArg {
    GysArg { key: c(k), value: c(v) }
}

fn provider_with(ops: &[&str]) -> Provider {
    let mut p = Provider::new();
    for (i, name) in ops.iter().enumerate() {
        p.register_operator(&c(name), i);
    }
    p
}

#[test]
fn chars_of_keeps_every_character() {
    assert_eq!(chars_of("zone=32"), vec!['z', 'o', 'n', 'e', '=', '3', '2']);
    assert!(chars_of("").is_empty());
}

#[test]
fn parse_three_step_pipeline() {
    let r = GysResource::parse(&c("utm"), &c("utm: zone=32 | cart ellps=GRS80 | helmert x=1 y=2 z=3"))
        .ok()
        .unwrap();
    assert_eq!(r.steps.len(), 3);
    assert_eq!(text(&r.steps[0].name), "utm");
    assert_eq!(text(&r.steps[1].name), "cart");
    assert_eq!(text(&r.steps[2].name), "helmert");
    assert_eq!(text(&r.steps[0].args[0].key), "zone");
    assert_eq!(text(&r.steps[0].args[0].value), "32");
    assert_eq!(text(&r.steps[1].args[0].value), "GRS80");
    assert_eq!(r.steps[2].args.len(), 3);
    assert_eq!(text(&r.steps[2].args[1].key), "y");
    assert_eq!(text(&r.steps[2].args[1].value), "2");
    assert!(r.globals.is_empty());
    assert!(r.steps.iter().all(|s| !s.inverted));
}

#[test]
fn parse_globals_flags_and_inversion() {
    let r = GysResource::parse(&c("m"), &c("a=1 b=2 | foo inv fast | bar")).ok().unwrap();
    assert_eq!(r.globals.len(), 2);
    assert_eq!(text(&r.globals[1].key), "b");
    assert_eq!(r.steps.len(), 2);
    assert!(r.steps[0].inverted);
    assert!(!r.steps[1].inverted);
    assert_eq!(r.steps[0].args.len(), 1);
    assert_eq!(text(&r.steps[0].args[0].key), "fast");
    assert_eq!(text(&r.steps[0].args[0].value), "true");
}

#[test]
fn parse_ignores_empty_segments() {
    let r = GysResource::parse(&c("m"), &c("| foo || bar |  |")).ok().unwrap();
    assert_eq!(r.steps.len(), 2);
    assert_eq!(text(&r.steps[1].name), "bar");
}

#[test]
fn parse_empty_pipeline_fails() {
    let r = GysResource::parse(&c("m"), &c(" | | "));
    assert!(matches!(r, Err(GeodesyError::Syntax(s)) if s == " | | "));
    let r = GysResource::parse(&c("m"), &c("a=1"));
    assert!(matches!(r, Err(GeodesyError::Syntax(s)) if s == "a=1"));
}

#[test]
fn parse_bad_argument_names_fragment() {
    let r = GysResource::parse(&c("m"), &c("foo x=1 =5 | bar"));
    assert!(matches!(r, Err(GeodesyError::Syntax(s)) if s == "=5"));
    let r = GysResource::parse(&c("m"), &c("foo | : x=1"));
    assert!(matches!(r, Err(GeodesyError::Syntax(s)) if s == ":"));
}

#[test]
fn value_of_last_wins() {
    let args = vec![arg("a", "1"), arg("b", "x"), arg("a", "2")];
    assert_eq!(value_of(&args, &c("a")), Some(c("2")));
    assert_eq!(value_of(&args, &c("b")), Some(c("x")));
    assert_eq!(value_of(&args, &c("z")), None);
}

#[test]
fn noop_resolves_to_identity_leaf() {
    let p = provider_with(&["noop"]);
    let op = p.resolve(&c("noop"), &Vec::new(), 0).ok().unwrap();
    assert_eq!(op.steps.len(), 1);
    assert_eq!(op.steps[0].kind, 0);
    assert_eq!(text(&op.steps[0].name), "noop");
    assert_eq!(op.schedule(Direction::Fwd), vec![(0, Direction::Fwd)]);
    assert_eq!(op.schedule(Direction::Inv), vec![(0, Direction::Inv)]);
}

#[test]
fn unknown_step_is_not_found() {
    let mut p = provider_with(&["noop"]);
    p.register_definition(SearchLevel::InMemory, &c("bar"), &c("noop | foo"));
    let r = p.build(&c("bar"));
    assert!(matches!(r, Err(GeodesyError::NotFound(s)) if s == "foo"));
    let r = p.build(&c("foo"));
    assert!(matches!(r, Err(GeodesyError::NotFound(s)) if s == "foo"));
}

#[test]
fn self_reference_hits_recursion_ceiling() {
    let mut p = Provider::new();
    p.register_definition(SearchLevel::InMemory, &c("loop"), &c("loop"));
    let r = p.build(&c("loop"));
    assert!(matches!(r, Err(GeodesyError::Recursion(s)) if s == "loop"));
}

#[test]
fn indirect_cycle_hits_recursion_ceiling() {
    let mut p = provider_with(&["noop"]);
    p.register_definition(SearchLevel::InMemory, &c("a"), &c("noop | b"));
    p.register_definition(SearchLevel::External, &c("b"), &c("a inv"));
    let r = p.build(&c("a"));
    assert!(matches!(r, Err(GeodesyError::Recursion(_))));
}

#[test]
fn caller_argument_overrides_global() {
    let mut p = provider_with(&["op"]);
    p.register_definition(SearchLevel::InMemory, &c("m"), &c("a=1 | op"));
    let op = p.resolve(&c("m"), &vec![arg("a", "2")], 0).ok().unwrap();
    assert_eq!(op.steps.len(), 1);
    assert_eq!(value_of(&op.steps[0].args, &c("a")), Some(c("2")));
    let op = p.resolve(&c("m"), &Vec::new(), 0).ok().unwrap();
    assert_eq!(value_of(&op.steps[0].args, &c("a")), Some(c("1")));
}

#[test]
fn composition_order_forward_and_inverse() {
    let p = provider_with(&["a", "b", "c"]);
    let op = p.build(&c("a | b inv | c")).ok().unwrap();
    let names: Vec<String> = op.steps.iter().map(|l| text(&l.name)).collect();
    assert_eq!(names, vec!["a", "b", "c"]);
    assert_eq!(
        op.schedule(Direction::Fwd),
        vec![(0, Direction::Fwd), (1, Direction::Inv), (2, Direction::Fwd)]
    );
    assert_eq!(
        op.schedule(Direction::Inv),
        vec![(2, Direction::Inv), (1, Direction::Fwd), (0, Direction::Inv)]
    );
}

#[test]
fn inverted_macro_step_reverses_its_plan() {
    let mut p = provider_with(&["a", "b", "c"]);
    p.register_definition(SearchLevel::InMemory, &c("m"), &c("a | b"));
    let op = p.build(&c("m inv | c")).ok().unwrap();
    let names: Vec<String> = op.steps.iter().map(|l| text(&l.name)).collect();
    assert_eq!(names, vec!["b", "a", "c"]);
    assert!(op.steps[0].inverted && op.steps[1].inverted && !op.steps[2].inverted);
    assert_eq!(op.steps[0].kind, 1);
}

#[test]
fn last_registration_wins() {
    let mut p = Provider::new();
    p.register_operator(&c("noop"), 1);
    p.register_operator(&c("noop"), 2);
    assert_eq!(p.operator(&c("noop")), Some(2));
    assert_eq!(p.operator(&c("other")), None);
}

#[test]
fn in_memory_level_is_searched_first() {
    let mut p = Provider::new();
    p.register_definition(SearchLevel::External, &c("m"), &c("x"));
    p.register_definition(SearchLevel::InMemory, &c("m"), &c("y"));
    p.register_definition(SearchLevel::External, &c("n"), &c("z"));
    assert_eq!(p.definition(&c("m")), Some(c("y")));
    assert_eq!(p.definition(&c("n")), Some(c("z")));
    assert_eq!(p.definition(&c("q")), None);
}

#[test]
fn syntax_error_in_definition_aborts_build() {
    let mut p = provider_with(&["a"]);
    p.register_definition(SearchLevel::InMemory, &c("m"), &c("a | =bad"));
    assert!(matches!(p.build(&c("m")), Err(GeodesyError::Syntax(s)) if s == "=bad"));
}

#[test]
fn partial_failure_counts_live_slots() {
    let mut live = vec![true, true, true];
    let n = settle(&mut live, &vec![true, false, true]);
    assert_eq!(n, 2);
    assert_eq!(live, vec![true, false, true]);
    let n = settle(&mut live, &vec![false, true, true]);
    assert_eq!(n, 1);
    assert_eq!(live, vec![false, false, true]);
}

#[test]
fn recursion_ceiling_is_exact() {
    let p = provider_with(&["a"]);
    let ceiling = geodesy::RECURSION_CEILING;
    assert!(p.resolve(&c("a"), &Vec::new(), ceiling).is_ok());
    let r = p.resolve(&c("a"), &Vec::new(), ceiling + 1);
    assert!(matches!(r, Err(GeodesyError::Recursion(s)) if s == "a"));
}

fn run_leaf(name: &str, args: &Vec<GysArg>, d: Direction, c: &mut [f64; 4]) {
    let num = |k: &str| -> f64 {
        value_of(args, &chars_of(k)).map(|v| text(&v).parse::<f64>().unwrap()).unwrap_or(0.0)
    };
    let s = if d == Direction::Fwd { 1.0 } else { -1.0 };
    match name {
        "utm" => {
            let f = num("zone");
            if d == Direction::Fwd {
                c[0] *= f;
            } else {
                c[0] /= f;
            }
        }
        "cart" => c[2] += s * 10.0,
        "helmert" => {
            c[0] += s * num("x");
            c[1] += s * num("y");
            c[2] += s * num("z");
        }
        _ => panic!("unexpected leaf"),
    }
}

#[test]
fn three_step_pipeline_round_trips() {
    let p = provider_with(&["utm", "cart", "helmert"]);
    let op = p.build(&c("utm: zone=32 | cart ellps=GRS80 | helmert x=1 y=2 z=3")).ok().unwrap();
    assert_eq!(op.steps.len(), 3);
    let start = [0.2, 0.9, 100.0, 0.0];
    let mut x = start;
    for (k, d) in op.schedule(Direction::Fwd) {
        let l = &op.steps[k];
        run_leaf(&text(&l.name), &l.args, d, &mut x);
    }
    assert!((x[0] - (0.2 * 32.0 + 1.0)).abs() < 1e-12);
    assert!((x[2] - 113.0).abs() < 1e-12);
    for (k, d) in op.schedule(Direction::Inv) {
        let l = &op.steps[k];
        run_leaf(&text(&l.name), &l.args, d, &mut x);
    }
    for i in 0..4 {
        assert!((x[i] - start[i]).abs() < 1e-9);
    }
}

#[test]
fn live_slots_skip_failed() {
    assert_eq!(geodesy::live_slots(&vec![true, false, true]), vec![0, 2]);
    assert!(geodesy::live_slots(&vec![false, false]).is_empty());
}

#[test]
fn quoted_value_stays_one_argument() {
    let r = GysResource::parse(&c("m"), &c("grid file=\"my grids/a b.gsb\" inv")).ok().unwrap();
    assert_eq!(r.steps.len(), 1);
    assert_eq!(r.steps[0].args.len(), 1);
    assert_eq!(text(&r.steps[0].args[0].key), "file");
    assert_eq!(text(&r.steps[0].args[0].value), "my grids/a b.gsb");
    assert!(r.steps[0].inverted);
}
