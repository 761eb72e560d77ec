use ski::Combinator;

fn s() -> Combinator {
    Combinator::S
}

fn k() -> Combinator {
    Combinator::K
}

fn v(c: char) -> Combinator {
    Combinator::Var(c)
}

#[test]
fn size_of_leaves() {
    assert_eq!(s().size(), 1);
    assert_eq!(k().size(), 1);
    assert_eq!(v('x').size(), 1);
}

#[test]
fn apply_adds_sizes() {
    let f = s().of(&k());
    let x = k().of(&s()).of(&v('a'));
    assert_eq!(f.size(), 2);
    assert_eq!(x.size(), 3);
    let fx = f.of(&x);
    assert_eq!(fx.size(), f.size() + x.size());
    let mut g = f;
    g.apply(x);
    assert_eq!(g.size(), 5);
}

#[test]
fn apply_flattens() {
    // ((S K) K) a prints flat, not nested.
    let t = s().of(&k()).of(&k()).of(&v('a'));
    assert_eq!(t.display(), "SKKa");
    assert_eq!(t.size(), 4);
}

#[test]
fn display_parenthesizes_large_arguments() {
    let t = k().of(&k().of(&s()));
    assert_eq!(t.display(), "K(KS)");
    let u = s().of(&k()).of(&k().of(&s())).of(&v('x'));
    assert_eq!(u.display(), "SK(KS)x");
}

#[test]
fn display_of_alias_uses_name() {
    let i = Combinator::Named("I", Box::new(s().of(&k()).of(&k())));
    assert_eq!(i.display(), "I");
    let t = i.of(&v('x'));
    assert_eq!(t.display(), "Ix");
}

#[test]
fn k_cancels_in_one_step() {
    // K 't' 'f' -> 't' in exactly one step.
    let mut t = k().of(&v('t')).of(&v('f'));
    assert!(t.reduce());
    assert_eq!(t.display(), "t");
    assert!(!t.reduce());
}

#[test]
fn skk_is_identity_within_three_steps() {
    let mut t = s().of(&k()).of(&k()).of(&v('a'));
    let mut steps = 0;
    while steps <= 3 {
        if t.display() == "a" {
            break;
        }
        assert!(t.reduce());
        steps += 1;
    }
    assert_eq!(t.display(), "a");
    assert!(steps <= 3);
}

#[test]
fn s_rule_duplicates_argument() {
    // S f g x -> (f x)(g x)
    let mut t = s().of(&v('f')).of(&v('g')).of(&v('x'));
    assert!(t.reduce());
    assert_eq!(t.display(), "fx(gx)");
}

#[test]
fn reduced_returns_next_term_without_mutating() {
    let t = k().of(&v('t')).of(&v('f'));
    let n = t.reduced().expect("a K redex steps");
    assert_eq!(n.display(), "t");
    assert_eq!(t.display(), "Ktf");
    assert!(k().reduced().is_none());
    assert!(v('q').reduced().is_none());
}

#[test]
fn reduce_unwraps_alias() {
    let i = Combinator::Named("I", Box::new(s().of(&k()).of(&k())));
    let mut t = i;
    assert!(t.reduce());
    assert_eq!(t.display(), "SKK");
}

#[test]
fn alias_reduce_clears_administrative_root() {
    let skk = s().of(&k()).of(&k());
    let i = Combinator::Named("I", Box::new(skk));
    let mut t = i.of(&v('x'));
    // The function position holds an alias; alias_reduce unwraps and
    // flattens without firing the S redex.
    t.alias_reduce();
    assert_eq!(t.display(), "SKKx");
}

#[test]
fn sk_ify_expands_every_alias() {
    let skk = s().of(&k()).of(&k());
    let i = Combinator::Named("I", Box::new(skk));
    let mut t = i.of(&i).of(&v('y'));
    t.sk_ify();
    assert_eq!(t.display(), "SKK(SKK)y");
}

#[test]
fn k_reduced_fires_every_k_redex_once() {
    let t = k().of(&v('t')).of(&v('f'));
    assert_eq!(t.k_reduced().display(), "t");
    // K x y z with x = K a b: both the outer and the inner redex fire.
    let inner = k().of(&v('a')).of(&v('b'));
    let u = k().of(&inner).of(&v('y')).of(&v('z'));
    assert_eq!(u.k_reduced().display(), "az");
    // No redex: unchanged.
    let w = s().of(&v('p'));
    assert_eq!(w.k_reduced().display(), "Sp");
}

#[test]
fn duplicate_is_structural() {
    let t = s().of(&k()).of(&v('m'));
    let d = t.duplicate();
    assert_eq!(d.display(), t.display());
    assert_eq!(d.bcl(), t.bcl());
}

#[test]
fn structural_equality_is_syntactic() {
    let a = Combinator::S.of(&Combinator::K).of(&v('m'));
    assert!(a.equals(&a.duplicate()));
    let b = Combinator::S.of(&Combinator::K).of(&v('n'));
    assert!(!a.equals(&b));
    // An alias and its definition are distinct terms, even though they
    // reduce alike and share a canonical encoding.
    let skk = s().of(&k()).of(&k());
    let named = Combinator::Named("I", Box::new(skk.duplicate()));
    assert!(!named.equals(&skk));
    assert!(named.equals(&Combinator::Named("I", Box::new(skk.duplicate()))));
    assert!(!named.equals(&Combinator::Named("J", Box::new(skk))));
}
