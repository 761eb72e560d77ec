use ski::Combinator;
use ski::Outcome;

fn s() -> Combinator {
    Combinator::S
}

fn k() -> Combinator {
    Combinator::K
}

fn v(c: char) -> Combinator {
    Combinator::Var(c)
}

/// I = S K K, the identity combinator.
fn i() -> Combinator {
    s().of(&k()).of(&k())
}

fn expect_normal(t: &Combinator, limit: usize) -> Combinator {
    match t.normal_form(limit) {
        Outcome::Normalized(n) => n,
        Outcome::ProvenDivergent => panic!("unexpectedly divergent"),
        Outcome::LimitExceeded => panic!("unexpectedly out of budget"),
    }
}

#[test]
fn budget_zero_is_limit_exceeded() {
    let t = s().of(&k()).of(&k()).of(&v('a'));
    assert!(matches!(t.normal_form(0), Outcome::LimitExceeded));
    // Even a trivial term yields LimitExceeded under a zero budget.
    assert!(matches!(k().normal_form(0), Outcome::LimitExceeded));
}

#[test]
fn leaf_normalizes_to_itself() {
    let n = expect_normal(&k(), 1);
    assert_eq!(n.display(), "K");
}

#[test]
fn already_normal_comes_back_unchanged_with_budget_one() {
    let t = s().of(&k());
    let n = expect_normal(&t, 1);
    assert_eq!(n.display(), "SK");
    let u = k().of(&v('q'));
    let m = expect_normal(&u, 1);
    assert_eq!(m.display(), "Kq");
}

#[test]
fn normalization_is_idempotent() {
    let t = s().of(&k()).of(&k()).of(&v('a'));
    let n = expect_normal(&t, 1000);
    assert_eq!(n.display(), "a");
    // Normalizing the result again, under any positive budget, returns it
    // unchanged.
    let m = expect_normal(&n, 1);
    assert_eq!(m.display(), n.display());
    let m2 = expect_normal(&n, 1000);
    assert_eq!(m2.display(), n.display());
}

#[test]
fn skk_normalizes_to_argument() {
    let t = i().of(&v('x'));
    let n = expect_normal(&t, 1000);
    assert_eq!(n.display(), "x");
}

#[test]
fn boolean_combinators_select_their_branch() {
    // T = K, F = K I: T 't' 'f' -> 't' and F 't' 'f' -> 'f'.
    let tt = k();
    let ff = k().of(&i());
    let picked_t = expect_normal(&tt.of(&v('t')).of(&v('f')), 1000);
    assert_eq!(picked_t.display(), "t");
    let picked_f = expect_normal(&ff.of(&v('t')).of(&v('f')), 1000);
    assert_eq!(picked_f.display(), "f");
}

#[test]
fn self_application_of_self_applicator_is_divergent() {
    // M = S I I, so M M reduces forever; the memo table proves it.
    let m = s().of(&i()).of(&i());
    let mm = m.of(&m);
    match mm.normal_form(10000) {
        Outcome::ProvenDivergent => {},
        Outcome::Normalized(n) => panic!("M M misclassified as normal: {}", n.display()),
        Outcome::LimitExceeded => panic!("M M not recognised within the budget"),
    }
}

#[test]
fn normalize_rewrites_in_place() {
    let mut t = k().of(&v('t')).of(&v('f'));
    let verdict = t.normalize(1000);
    assert_eq!(verdict, Some(true));
    assert_eq!(t.display(), "t");
}

#[test]
fn normalize_with_zero_budget_is_unknown() {
    let mut t = k().of(&v('t')).of(&v('f'));
    assert_eq!(t.normalize(0), None);
    assert_eq!(t.display(), "Ktf");
}

#[test]
fn normalize_detects_divergence() {
    let m = s().of(&i()).of(&i());
    let mut mm = m.of(&m);
    assert_eq!(mm.normalize(10000), Some(false));
}

#[test]
fn deep_argument_normalizes() {
    // K x y where x itself needs work: K (S K K a) b -> a.
    let x = i().of(&v('a'));
    let t = k().of(&x).of(&v('b'));
    let n = expect_normal(&t, 1000);
    assert_eq!(n.display(), "a");
}

#[test]
fn alias_normalizes_through_definition() {
    let idt = Combinator::Named("I", Box::new(i()));
    let t = idt.of(&v('z'));
    let n = expect_normal(&t, 1000);
    assert_eq!(n.display(), "z");
}

#[test]
fn in_normal_form_checks_deeply() {
    assert!(k().in_normal_form());
    assert!(s().of(&k()).in_normal_form());
    assert!(!s().of(&k()).of(&k()).of(&v('a')).in_normal_form());
    // A redex buried in argument position is found.
    let buried = v('h').of(&k().of(&v('p')).of(&v('q')));
    assert!(!buried.in_normal_form());
    assert!(v('h').of(&v('p')).in_normal_form());
}
