//! Reachability by rewrite steps.
//!
//! `reduces_to(t, u)` says that `u` arises from `t` by zero or more rewrite
//! steps: a step at the root, a step under an alias, or a step inside
//! exactly one child of an application.  Aliases are transparent to
//! reduction and nesting in function position is administrative, so the
//! relation compares pure-SK forms: `t` reaches `u` when some chain of
//! steps leads from `sk_of(t)` to `sk_of(u)`.  Administrative collapses
//! leave the pure-SK form unchanged, and a `K`- or `S`-contraction maps to
//! the same contraction on it.

use vstd::prelude::*;

use crate::rewrite::admin_reduced;
use crate::rewrite::is_admin_root;
use crate::rewrite::lemma_admin_step;
use crate::rewrite::sk_fold;
use crate::rewrite::sk_of;
use crate::step::lemma_step_wf;
use crate::step::spec_step;
use crate::term::Term;
use crate::term::app_to;
use crate::term::is_leaf;
use crate::term::lemma_apply_wf;
use crate::term::lemma_nodes_pos;
use crate::term::lemma_wf_seq;
use crate::term::nodes;
use crate::term::nodes_seq;
use crate::term::spec_apply;
use crate::term::wf;
use crate::term::wf_seq;

verus! {

/// One rewrite step somewhere in a term: at the root, under an alias, or
/// inside exactly one child of an application.
pub open spec fn step_to(t: Term, u: Term) -> bool
    decreases t,
{
    ||| spec_step(t) == Some(u)
    ||| (match (t, u) {
        (Term::Named(n1, d1), Term::Named(n2, d2)) => n1 == n2 && step_to(*d1, *d2),
        (Term::App(ts), Term::App(us)) => ts.len() == us.len() && (exists|i: int|
            0 <= i < ts.len() && #[trigger] step_to(ts[i], us[i]) && (forall|j: int|
                0 <= j < ts.len() && j != i ==> ts[j] == us[j])),
        _ => false,
    })
}

/// A chain of exactly `k` steps from `t` to `u`.
pub open spec fn reduces_in(t: Term, u: Term, k: nat) -> bool
    decreases k,
{
    if k == 0 {
        t == u
    } else {
        exists|m: Term| #[trigger] step_to(t, m) && reduces_in(m, u, (k - 1) as nat)
    }
}

/// Reachability by reduction: some chain of rewrite steps leads from the
/// pure-SK form of `t` to the pure-SK form of `u`.
pub open spec fn reduces_to(t: Term, u: Term) -> bool {
    exists|k: nat| reduces_in(sk_of(t), sk_of(u), k)
}

/// Terms with equal pure-SK forms reach one another; in particular every
/// term reaches itself.
pub proof fn lemma_reduces_refl(t: Term, u: Term)
    requires
        sk_of(t) == sk_of(u),
    ensures
        reduces_to(t, u),
{
    assert(reduces_in(sk_of(t), sk_of(u), 0));
}

/// Chains concatenate.
proof fn lemma_reduces_in_trans(a: Term, b: Term, c: Term, k1: nat, k2: nat)
    requires
        reduces_in(a, b, k1),
        reduces_in(b, c, k2),
    ensures
        reduces_in(a, c, k1 + k2),
    decreases k1,
{
    if k1 > 0 {
        let m = choose|m: Term| #[trigger] step_to(a, m) && reduces_in(m, b, (k1 - 1) as nat);
        lemma_reduces_in_trans(m, b, c, (k1 - 1) as nat, k2);
        assert(step_to(a, m) && reduces_in(m, c, ((k1 + k2) - 1) as nat));
    }
}

/// Reachability is transitive.
pub proof fn lemma_reduces_trans(a: Term, b: Term, c: Term)
    requires
        reduces_to(a, b),
        reduces_to(b, c),
    ensures
        reduces_to(a, c),
{
    let k1 = choose|k: nat| reduces_in(sk_of(a), sk_of(b), k);
    let k2 = choose|k: nat| reduces_in(sk_of(b), sk_of(c), k);
    lemma_reduces_in_trans(sk_of(a), sk_of(b), sk_of(c), k1, k2);
}

/// The pure-SK forms of a sequence of terms, element by element.
pub open spec fn sk_map(ts: Seq<Term>) -> Seq<Term>
    decreases nodes_seq(ts), 1int,
    via sk_map_dec
{
    if ts.len() == 0 {
        Seq::empty()
    } else {
        sk_map(ts.drop_last()).push(sk_of(ts.last()))
    }
}

#[via_fn]
proof fn sk_map_dec(ts: Seq<Term>) {
    if ts.len() > 0 {
        lemma_nodes_pos(ts.last());
    }
}

/// `sk_map` maps `sk_of` over the sequence, index by index.
pub proof fn lemma_sk_map(ts: Seq<Term>)
    ensures
        sk_map(ts).len() == ts.len(),
        forall|i: int| 0 <= i < ts.len() ==> sk_map(ts)[i] == sk_of(ts[i]),
    decreases ts.len(),
{
    if ts.len() > 0 {
        lemma_sk_map(ts.drop_last());
    }
}

/// With a leaf in function position, the pure-SK fold is simply the
/// application of the converted children.
proof fn lemma_fold_shape(ts: Seq<Term>)
    requires
        ts.len() >= 2,
        is_leaf(ts[ts.len() - 1]),
    ensures
        sk_fold(ts) == Term::App(sk_map(ts)),
    decreases ts.len(),
{
    lemma_sk_map(ts);
    lemma_sk_map(ts.skip(1));
    assert(forall|i: int| 0 <= i < ts.len() - 1 ==> ts.skip(1)[i] == ts[i + 1]);
    if ts.len() == 2 {
        assert(ts.skip(1).len() == 1);
        assert(ts.skip(1)[0] == ts[1]);
        assert(sk_fold(ts.skip(1)) == sk_of(ts[1]));
        assert(sk_of(ts[1]) == ts[1]);
        assert(sk_fold(ts) == spec_apply(ts[1], sk_of(ts[0])));
        assert(sk_map(ts) =~= seq![sk_of(ts[0]), ts[1]]);
    } else {
        lemma_fold_shape(ts.skip(1));
        assert(seq![sk_of(ts[0])] + sk_map(ts.skip(1)) =~= sk_map(ts));
    }
}

/// Flattening an application out of function position does not change the
/// pure-SK fold.
proof fn lemma_fold_flat(a: Seq<Term>, inner: Seq<Term>)
    requires
        inner.len() >= 1,
    ensures
        sk_fold(a.push(Term::App(inner))) == sk_fold(a + inner),
    decreases a.len(),
{
    if a.len() == 0 {
        assert(a.push(Term::App(inner)) =~= seq![Term::App(inner)]);
        assert(sk_fold(seq![Term::App(inner)]) == sk_of(Term::App(inner)));
        assert(a + inner =~= inner);
    } else {
        lemma_fold_flat(a.skip(1), inner);
        assert((a.push(Term::App(inner))).skip(1) =~= a.skip(1).push(Term::App(inner)));
        assert((a + inner).skip(1) =~= a.skip(1) + inner);
        assert((a.push(Term::App(inner)))[0] == a[0]);
        assert((a + inner)[0] == a[0]);
        assert((a + inner).len() >= 2);
        assert((a.push(Term::App(inner))).len() >= 2);
    }
}

/// The pure-SK fold depends on the function position only through its
/// pure-SK form.
proof fn lemma_fold_head(a: Seq<Term>, x: Term, y: Term)
    requires
        sk_of(x) == sk_of(y),
    ensures
        sk_fold(a.push(x)) == sk_fold(a.push(y)),
    decreases a.len(),
{
    if a.len() == 0 {
        assert(a.push(x) =~= seq![x]);
        assert(a.push(y) =~= seq![y]);
    } else {
        lemma_fold_head(a.skip(1), x, y);
        assert((a.push(x)).skip(1) =~= a.skip(1).push(x));
        assert((a.push(y)).skip(1) =~= a.skip(1).push(y));
        assert((a.push(x))[0] == a[0]);
        assert((a.push(y))[0] == a[0]);
    }
}

/// The pure-SK fold of a term with pending arguments is the converted term
/// applied to the converted arguments.
proof fn lemma_fold_push_appto(a: Seq<Term>, x: Term)
    requires
        a.len() >= 1,
    ensures
        sk_fold(a.push(x)) == app_to(sk_of(x), sk_map(a)),
    decreases a.len(),
{
    lemma_sk_map(a);
    if a.len() == 1 {
        assert((a.push(x)).skip(1) =~= seq![x]);
        assert(sk_fold(seq![x]) == sk_of(x));
        assert((a.push(x))[0] == a[0]);
        assert(sk_fold(a.push(x)) == spec_apply(sk_of(x), sk_of(a[0])));
        assert(sk_map(a) =~= seq![sk_of(a[0])]);
        match sk_of(x) {
            Term::App(hc) => {
                assert(seq![sk_of(a[0])] + hc =~= sk_map(a) + hc);
            },
            _ => {
                assert(seq![sk_of(a[0]), sk_of(x)] =~= sk_map(a).push(sk_of(x)));
            },
        }
    } else {
        lemma_fold_push_appto(a.skip(1), x);
        lemma_sk_map(a.skip(1));
        assert((a.push(x)).skip(1) =~= a.skip(1).push(x));
        assert((a.push(x))[0] == a[0]);
        assert(sk_fold(a.push(x)) == spec_apply(app_to(sk_of(x), sk_map(a.skip(1))), sk_of(a[0])));
        assert(seq![sk_of(a[0])] + sk_map(a.skip(1)) =~= sk_map(a));
        match sk_of(x) {
            Term::App(hc) => {
                assert(app_to(sk_of(x), sk_map(a.skip(1))) == Term::App(sk_map(a.skip(1)) + hc));
                assert(seq![sk_of(a[0])] + (sk_map(a.skip(1)) + hc) =~= sk_map(a) + hc);
            },
            _ => {
                assert(app_to(sk_of(x), sk_map(a.skip(1))) == Term::App(
                    sk_map(a.skip(1)).push(sk_of(x)),
                ));
                assert(seq![sk_of(a[0])] + sk_map(a.skip(1)).push(sk_of(x)) =~= sk_map(a).push(
                    sk_of(x),
                ));
            },
        }
    }
}

/// Converting an application of pending arguments converts both sides.
proof fn lemma_sk_appto(x: Term, args: Seq<Term>)
    requires
        wf(x),
    ensures
        sk_of(app_to(x, args)) == app_to(sk_of(x), sk_map(args)),
{
    if args.len() == 0 {
        assert(sk_map(args) =~= Seq::<Term>::empty());
    } else {
        match x {
            Term::App(xc) => {
                lemma_fold_flat(args, xc);
                assert(app_to(x, args) == Term::App(args + xc));
                lemma_fold_head(args, Term::App(xc), x);
                lemma_fold_push_appto(args, x);
            },
            _ => {
                assert(app_to(x, args) == Term::App(args.push(x)));
                lemma_fold_push_appto(args, x);
            },
        }
    }
}

/// Converting one application converts its two sides.
proof fn lemma_sk_apply(t: Term, x: Term)
    requires
        wf(t),
    ensures
        sk_of(spec_apply(t, x)) == spec_apply(sk_of(t), sk_of(x)),
{
    match t {
        Term::App(tc) => {
            assert(wf(t));
            assert(tc.len() >= 2);
            assert(spec_apply(t, x) == Term::App(seq![x] + tc));
            assert((seq![x] + tc).len() >= 3);
            assert((seq![x] + tc).skip(1) =~= tc);
            assert((seq![x] + tc)[0] == x);
            assert(sk_of(spec_apply(t, x)) == sk_fold(seq![x] + tc));
            assert(sk_fold(seq![x] + tc) == spec_apply(
                sk_fold((seq![x] + tc).skip(1)),
                sk_of((seq![x] + tc)[0]),
            ));
            assert(sk_of(t) == sk_fold(tc));
        },
        _ => {
            assert(spec_apply(t, x) == Term::App(seq![x, t]));
            assert(seq![x, t].len() == 2);
            assert(seq![x, t].skip(1) =~= seq![t]);
            assert(sk_fold(seq![t]) == sk_of(t));
            assert(seq![x, t][0] == x);
            assert(sk_of(spec_apply(t, x)) == sk_fold(seq![x, t]));
            assert(sk_fold(seq![x, t]) == spec_apply(
                sk_fold(seq![x, t].skip(1)),
                sk_of(seq![x, t][0]),
            ));
        },
    }
}

/// An administrative collapse at the root leaves the pure-SK form
/// unchanged.
pub proof fn lemma_admin_preserves_sk(t: Term)
    requires
        wf(t),
        is_admin_root(t),
    ensures
        spec_step(t) matches Some(u) ==> sk_of(u) == sk_of(t),
{
    match t {
        Term::Named(_, _) => {},
        Term::App(ts) => {
            let n = ts.len() as int;
            lemma_wf_seq(ts);
            if n == 1 {
                assert(sk_fold(ts) == sk_of(ts[0]));
            } else {
                let rest = ts.take(n - 1);
                assert(ts =~= rest.push(ts[n - 1]));
                match ts[n - 1] {
                    Term::App(inner) => {
                        lemma_fold_flat(rest, inner);
                        assert(sk_fold(rest + inner) == sk_fold(ts));
                    },
                    Term::Named(_, d) => {
                        let u = app_to(*d, rest);
                        assert(wf(ts[n - 1]));
                        assert(wf(*d));
                        match *d {
                            Term::App(dc) => {
                                assert(dc.len() >= 2);
                                lemma_fold_flat(rest, dc);
                                assert(u == Term::App(rest + dc));
                                lemma_fold_head(rest, *d, ts[n - 1]);
                                assert(sk_of(u) == sk_fold(rest.push(*d)));
                            },
                            _ => {
                                assert(u == Term::App(rest.push(*d)));
                                lemma_fold_head(rest, *d, ts[n - 1]);
                            },
                        }
                    },
                    _ => {},
                }
            }
        },
        _ => {},
    }
}

/// Clearing every administrative collapse at the root leaves the pure-SK
/// form unchanged.
pub proof fn lemma_admin_reduced_sk(t: Term)
    requires
        wf(t),
    ensures
        sk_of(admin_reduced(t)) == sk_of(t),
    decreases nodes(t),
{
    if is_admin_root(t) {
        lemma_admin_step(t);
        lemma_admin_preserves_sk(t);
        lemma_step_wf(t);
        match spec_step(t) {
            Some(u) => {
                lemma_admin_reduced_sk(u);
            },
            None => {},
        }
    }
}

/// One rewrite step reaches its result: an administrative collapse leaves
/// the pure-SK form unchanged, and a `K`- or `S`-contraction performs the
/// same contraction on it.
pub proof fn lemma_step_reduces(t: Term)
    requires
        wf(t),
    ensures
        spec_step(t) matches Some(u) ==> reduces_to(t, u),
{
    match t {
        Term::Named(_, d) => {
            lemma_reduces_refl(t, *d);
        },
        Term::App(ts) => {
            let n = ts.len() as int;
            lemma_wf_seq(ts);
            if n >= 2 {
                match ts[n - 1] {
                    Term::App(_) | Term::Named(_, _) => {
                        lemma_admin_preserves_sk(t);
                        let u = spec_step(t)->Some_0;
                        lemma_reduces_refl(t, u);
                    },
                    Term::K => {
                        if n >= 3 {
                            let x = ts[n - 2];
                            let rest = ts.take(n - 3);
                            let u = app_to(x, rest);
                            lemma_fold_shape(ts);
                            lemma_sk_map(ts);
                            let m = sk_map(ts);
                            assert(m[n - 1] == Term::K);
                            assert(m.take(n - 3) =~= sk_map(rest)) by {
                                lemma_sk_map(rest);
                                assert(forall|i: int| 0 <= i < n - 3 ==> rest[i] == ts[i]);
                            }
                            assert(wf(x));
                            lemma_sk_appto(x, rest);
                            assert(m.len() == n);
                            assert(m.len() as int == n);
                            assert(!(m[n - 1] is App) && !(m[n - 1] is Named));
                            assert(spec_step(Term::App(m)) == Some(app_to(m[n - 2], m.take(n - 3))));
                            assert(sk_of(u) == app_to(sk_of(x), sk_map(rest)));
                            assert(step_to(sk_of(t), sk_of(u)));
                            assert(reduces_in(sk_of(u), sk_of(u), 0));
                            assert(reduces_in(sk_of(t), sk_of(u), 1));
                        }
                    },
                    Term::S => {
                        if n >= 4 {
                            let f = ts[n - 2];
                            let g = ts[n - 3];
                            let x = ts[n - 4];
                            let fx = spec_apply(f, x);
                            let gx = spec_apply(g, x);
                            let rest = ts.take(n - 4);
                            let u = app_to(fx, rest.push(gx));
                            lemma_fold_shape(ts);
                            lemma_sk_map(ts);
                            let m = sk_map(ts);
                            assert(m[n - 1] == Term::S);
                            assert(m.take(n - 4) =~= sk_map(rest)) by {
                                lemma_sk_map(rest);
                                assert(forall|i: int| 0 <= i < n - 4 ==> rest[i] == ts[i]);
                            }
                            lemma_apply_wf(f, x);
                            lemma_sk_apply(f, x);
                            lemma_sk_apply(g, x);
                            lemma_sk_appto(fx, rest.push(gx));
                            assert(sk_map(rest.push(gx)) =~= sk_map(rest).push(sk_of(gx))) by {
                                lemma_sk_map(rest.push(gx));
                                lemma_sk_map(rest);
                                assert(forall|i: int|
                                    0 <= i < rest.len() ==> rest.push(gx)[i] == rest[i]);
                                assert(rest.push(gx)[rest.len() as int] == gx);
                            }
                            assert(m.len() == n);
                            assert(!(m[n - 1] is App) && !(m[n - 1] is Named));
                            assert(spec_step(Term::App(m)) == Some(
                                app_to(
                                    spec_apply(m[n - 2], m[n - 4]),
                                    m.take(n - 4).push(spec_apply(m[n - 3], m[n - 4])),
                                ),
                            ));
                            assert(sk_of(u) == app_to(
                                spec_apply(sk_of(f), sk_of(x)),
                                sk_map(rest).push(spec_apply(sk_of(g), sk_of(x))),
                            ));
                            assert(step_to(sk_of(t), sk_of(u)));
                            assert(reduces_in(sk_of(u), sk_of(u), 0));
                            assert(reduces_in(sk_of(t), sk_of(u), 1));
                        }
                    },
                    _ => {},
                }
            } else if n == 1 {
                assert(sk_fold(ts) == sk_of(ts[0]));
                lemma_reduces_refl(t, ts[0]);
            }
        },
        _ => {},
    }
}

/// Whether a term is in the pure-SK form: no alias anywhere, a leaf in
/// every function position, and no degenerate one-child application.
pub open spec fn is_canon(t: Term) -> bool
    decreases t,
{
    match t {
        Term::Named(_, _) => false,
        Term::App(ts) => ts.len() >= 2 && is_leaf(ts[ts.len() - 1]) && is_canon_seq(ts),
        _ => true,
    }
}

/// Pure-SK form of every term of a sequence.
pub open spec fn is_canon_seq(ts: Seq<Term>) -> bool
    decreases ts,
{
    if ts.len() == 0 {
        true
    } else {
        is_canon(ts.last()) && is_canon_seq(ts.drop_last())
    }
}

/// `is_canon_seq` holds exactly when every element is in pure-SK form.
pub proof fn lemma_is_canon_seq(ts: Seq<Term>)
    ensures
        is_canon_seq(ts) <==> (forall|i: int| 0 <= i < ts.len() ==> is_canon(ts[i])),
    decreases ts.len(),
{
    if ts.len() > 0 {
        lemma_is_canon_seq(ts.drop_last());
        assert(forall|i: int| 0 <= i < ts.len() - 1 ==> ts.drop_last()[i] == ts[i]);
        assert(ts.last() == ts[ts.len() - 1]);
    }
}

/// Application preserves the pure-SK form.
proof fn lemma_apply_canon(f: Term, x: Term)
    requires
        is_canon(f),
        is_canon(x),
    ensures
        is_canon(spec_apply(f, x)),
{
    match f {
        Term::App(fc) => {
            lemma_is_canon_seq(fc);
            lemma_is_canon_seq(seq![x] + fc);
            assert(forall|i: int| 0 <= i < fc.len() ==> (seq![x] + fc)[i + 1] == fc[i]);
            assert((seq![x] + fc)[0] == x);
        },
        _ => {
            lemma_is_canon_seq(seq![x, f]);
        },
    }
}

/// The pure-SK form of a well-formed term is in pure-SK form.
pub proof fn lemma_sk_canon(t: Term)
    requires
        wf(t),
    ensures
        is_canon(sk_of(t)),
    decreases nodes(t), 0int,
{
    match t {
        Term::Named(_, d) => {
            lemma_sk_canon(*d);
        },
        Term::App(ts) => {
            lemma_wf_seq(ts);
            lemma_sk_fold_canon(ts);
        },
        _ => {},
    }
}

/// The pure-SK fold of a nonempty sequence of well-formed terms is in
/// pure-SK form.
proof fn lemma_sk_fold_canon(ts: Seq<Term>)
    requires
        ts.len() >= 1,
        wf_seq(ts),
    ensures
        is_canon(sk_fold(ts)),
    decreases nodes_seq(ts), 1int,
{
    lemma_wf_seq(ts);
    if ts.len() == 1 {
        assert(ts.drop_last() =~= Seq::<Term>::empty());
        assert(ts.last() == ts[0]);
        lemma_sk_canon(ts[0]);
    } else {
        lemma_wf_seq(ts.skip(1));
        assert(forall|i: int| 0 <= i < ts.skip(1).len() ==> ts.skip(1)[i] == ts[i + 1]);
        assert(seq![ts[0]] + ts.skip(1) =~= ts);
        crate::term::lemma_nodes_seq_concat(seq![ts[0]], ts.skip(1));
        assert(seq![ts[0]].drop_last() =~= Seq::<Term>::empty());
        assert(seq![ts[0]].last() == ts[0]);
        lemma_nodes_pos(ts[0]);
        crate::term::lemma_nodes_seq_ge_len(ts.skip(1));
        lemma_sk_fold_canon(ts.skip(1));
        lemma_sk_canon(ts[0]);
        lemma_apply_canon(sk_fold(ts.skip(1)), sk_of(ts[0]));
    }
}

/// A term already in pure-SK form converts to itself.
pub proof fn lemma_canon_fixed(t: Term)
    requires
        is_canon(t),
    ensures
        sk_of(t) == t,
    decreases nodes(t), 0int,
{
    match t {
        Term::App(ts) => {
            let n = ts.len() as int;
            lemma_fold_shape(ts);
            lemma_sk_map(ts);
            lemma_is_canon_seq(ts);
            assert forall|i: int| 0 <= i < n implies sk_map(ts)[i] == ts[i] by {
                crate::term::lemma_nodes_seq_elem(ts, i);
                lemma_canon_fixed_elem(ts, i);
            }
            assert(sk_map(ts) =~= ts);
        },
        _ => {},
    }
}

/// One element of a pure-SK sequence converts to itself.
proof fn lemma_canon_fixed_elem(ts: Seq<Term>, i: int)
    requires
        is_canon_seq(ts),
        0 <= i < ts.len(),
    ensures
        sk_of(ts[i]) == ts[i],
    decreases nodes_seq(ts), 1int,
{
    lemma_is_canon_seq(ts);
    crate::term::lemma_nodes_seq_elem(ts, i);
    lemma_canon_fixed(ts[i]);
}

/// Converting to the pure-SK basis is idempotent.
pub proof fn lemma_sk_idem(t: Term)
    requires
        wf(t),
    ensures
        sk_of(sk_of(t)) == sk_of(t),
{
    lemma_sk_canon(t);
    lemma_canon_fixed(sk_of(t));
}

} // verus!
