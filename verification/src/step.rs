//! The reducer: one rewrite step of the SK calculus.
//!
//! A step fires the outermost available pattern at the root of a term:
//! the combinatorial redexes `K x y -> x` and `S f g x -> (f x) (g x)`,
//! and the administrative collapses (unwrapping an alias, flattening an
//! application standing in function position, collapsing a degenerate
//! one-child application).  `spec_step` is the mathematical one-step
//! function; it returns `None` exactly when no pattern applies at the root.

use vstd::prelude::*;

use crate::term::Combinator;
use crate::term::Term;
use crate::term::app_to;
use crate::term::apply_owned;
use crate::term::lemma_app_to_wf;
use crate::term::lemma_apply_wf;
use crate::term::lemma_seq_term_of;
use crate::term::lemma_seq_term_of_concat;
use crate::term::lemma_seq_term_of_push;
use crate::term::lemma_wf_seq;
use crate::term::seq_term_of;
use crate::term::spec_apply;
use crate::term::wf;
use crate::reach::lemma_reduces_refl;
use crate::reach::lemma_step_reduces;
use crate::reach::reduces_to;

verus! {

/// One rewrite step at the root of a term, or `None` when no pattern
/// applies there.  Children are stored in reverse, so the function position
/// of an application is its last element.
pub open spec fn spec_step(t: Term) -> Option<Term> {
    match t {
        Term::S | Term::K | Term::Var(_) => None,
        Term::Named(_, d) => Some(*d),
        Term::App(ts) => {
            let n = ts.len() as int;
            if n == 0 {
                None
            } else if n == 1 {
                Some(ts[0])
            } else {
                match ts[n - 1] {
                    Term::App(inner) => Some(Term::App(ts.take(n - 1) + inner)),
                    Term::Named(_, d) => Some(app_to(*d, ts.take(n - 1))),
                    Term::K => if n >= 3 {
                        Some(app_to(ts[n - 2], ts.take(n - 3)))
                    } else {
                        None
                    },
                    Term::S => if n >= 4 {
                        Some(
                            app_to(
                                spec_apply(ts[n - 2], ts[n - 4]),
                                ts.take(n - 4).push(spec_apply(ts[n - 3], ts[n - 4])),
                            ),
                        )
                    } else {
                        None
                    },
                    Term::Var(_) => None,
                }
            }
        },
    }
}

/// A step taken from a well-formed term yields a well-formed term.
pub proof fn lemma_step_wf(t: Term)
    requires
        wf(t),
    ensures
        spec_step(t) matches Some(t2) ==> wf(t2),
{
    match t {
        Term::App(ts) => {
            let n = ts.len() as int;
            lemma_wf_seq(ts);
            let rest = ts.take(n - 1);
            lemma_wf_seq(rest);
            match ts[n - 1] {
                Term::App(inner) => {
                    lemma_wf_seq(inner);
                    lemma_wf_seq(rest + inner);
                },
                Term::Named(_, d) => {
                    lemma_app_to_wf(*d, rest);
                },
                Term::K => {
                    if n >= 3 {
                        lemma_wf_seq(ts.take(n - 3));
                        lemma_app_to_wf(ts[n - 2], ts.take(n - 3));
                    }
                },
                Term::S => {
                    if n >= 4 {
                        let fx = spec_apply(ts[n - 2], ts[n - 4]);
                        let gx = spec_apply(ts[n - 3], ts[n - 4]);
                        lemma_apply_wf(ts[n - 2], ts[n - 4]);
                        lemma_apply_wf(ts[n - 3], ts[n - 4]);
                        lemma_wf_seq(ts.take(n - 4));
                        lemma_wf_seq(ts.take(n - 4).push(gx));
                        lemma_app_to_wf(fx, ts.take(n - 4).push(gx));
                    }
                },
                _ => {},
            }
        },
        _ => {},
    }
}

/// Applies an owned term to a vector of (reversed) pending arguments,
/// flattening one level when the term is itself an application.
pub(crate) fn apply_all(t: Combinator, args: Vec<Combinator>) -> (r: Combinator)
    ensures
        r@ == app_to(t@, seq_term_of(args@)),
{
    let mut args = args;
    if args.len() == 0 {
        t
    } else {
        match t {
            Combinator::App(mut inner) => {
                let ghost ga = args@;
                let ghost gi = inner@;
                args.append(&mut inner);
                proof {
                    lemma_seq_term_of_concat(ga, gi);
                }
                Combinator::App(args)
            },
            other => {
                let ghost ga = args@;
                let ghost go = other@;
                args.push(other);
                proof {
                    lemma_seq_term_of_push(ga, args@.last());
                }
                Combinator::App(args)
            },
        }
    }
}

/// Performs one step on an owned term.  The flag reports whether a pattern
/// fired; when none did, the term comes back unchanged.
pub(crate) fn step_once(t: Combinator) -> (res: (Combinator, bool))
    ensures
        spec_step(t@) matches Some(t2) ==> res.1 == true && res.0@ == t2,
        spec_step(t@) is None ==> res.1 == false && res.0@ == t@,
        wf(t@) ==> reduces_to(t@, res.0@),
{
    proof {
        if wf(t@) {
            lemma_step_reduces(t@);
            lemma_reduces_refl(t@, t@);
        }
    }
    match t {
        Combinator::S => (Combinator::S, false),
        Combinator::K => (Combinator::K, false),
        Combinator::Var(c) => (Combinator::Var(c), false),
        Combinator::Named(_, d) => (*d, true),
        Combinator::App(mut ts) => {
            let n = ts.len();
            let ghost ots = seq_term_of(ts@);
            proof {
                lemma_seq_term_of(ts@);
            }
            if n == 0 {
                (Combinator::App(ts), false)
            } else if n == 1 {
                let x = ts.pop().unwrap();
                (x, true)
            } else {
                let head = ts.pop().unwrap();
                proof {
                    lemma_seq_term_of(ts@);
                    assert(seq_term_of(ts@) =~= ots.take(n - 1));
                }
                match head {
                    Combinator::App(mut inner) => {
                        let ghost grest = ts@;
                        let ghost ginner = inner@;
                        ts.append(&mut inner);
                        proof {
                            lemma_seq_term_of_concat(grest, ginner);
                            assert(seq_term_of(ts@) == ots.take(n - 1) + seq_term_of(ginner));
                        }
                        (Combinator::App(ts), true)
                    },
                    Combinator::Named(_, d) => (apply_all(*d, ts), true),
                    Combinator::K => {
                        if ts.len() >= 2 {
                            let x = ts.pop().unwrap();
                            let _y = ts.pop().unwrap();
                            proof {
                                lemma_seq_term_of(ts@);
                                assert(seq_term_of(ts@) =~= ots.take(n - 3));
                            }
                            (apply_all(x, ts), true)
                        } else {
                            let ghost grest = ts@;
                            ts.push(Combinator::K);
                            proof {
                                lemma_seq_term_of_push(grest, Combinator::K);
                                assert(ots =~= ots.take(n - 1).push(ots[n - 1]));
                            }
                            (Combinator::App(ts), false)
                        }
                    },
                    Combinator::S => {
                        if ts.len() >= 3 {
                            let f = ts.pop().unwrap();
                            let g = ts.pop().unwrap();
                            let x = ts.pop().unwrap();
                            proof {
                                lemma_seq_term_of(ts@);
                                assert(seq_term_of(ts@) =~= ots.take(n - 4));
                            }
                            let gx = apply_owned(g, x.duplicate());
                            let fx = apply_owned(f, x);
                            let ghost grest = ts@;
                            ts.push(gx);
                            proof {
                                lemma_seq_term_of_push(grest, ts@.last());
                            }
                            (apply_all(fx, ts), true)
                        } else {
                            let ghost grest = ts@;
                            ts.push(Combinator::S);
                            proof {
                                lemma_seq_term_of_push(grest, Combinator::S);
                                assert(ots =~= ots.take(n - 1).push(ots[n - 1]));
                            }
                            (Combinator::App(ts), false)
                        }
                    },
                    Combinator::Var(c) => {
                        let ghost grest = ts@;
                        ts.push(Combinator::Var(c));
                        proof {
                            lemma_seq_term_of_push(grest, Combinator::Var(c));
                            assert(ots =~= ots.take(n - 1).push(ots[n - 1]));
                        }
                        (Combinator::App(ts), false)
                    },
                }
            }
        },
    }
}

impl Combinator {
    /// Performs one rewrite step in place; returns whether a pattern fired.
    /// When no step is available the term is left unchanged.
    pub fn reduce(&mut self) -> (r: bool)
        ensures
            spec_step(old(self)@) matches Some(t2) ==> r == true && final(self)@ == t2,
            spec_step(old(self)@) is None ==> r == false && final(self)@ == old(self)@,
            wf(old(self)@) ==> wf(final(self)@),
            wf(old(self)@) ==> reduces_to(old(self)@, final(self)@),
    {
        proof {
            if wf(self@) {
                lemma_step_wf(self@);
            }
        }
        let mut tmp = Combinator::K;
        core::mem::swap(self, &mut tmp);
        let (t2, stepped) = step_once(tmp);
        *self = t2;
        stepped
    }

    /// Returns the term after one rewrite step, or `None` when the term
    /// admits no step at its root; the receiver is left unchanged.
    pub fn reduced(&self) -> (r: Option<Combinator>)
        ensures
            spec_step(self@) matches Some(t2) ==> r matches Some(c) && c@ == t2,
            spec_step(self@) is None ==> r is None,
            wf(self@) ==> (r matches Some(c) ==> wf(c@)),
            wf(self@) ==> (r matches Some(c) ==> reduces_to(self@, c@)),
    {
        proof {
            if wf(self@) {
                lemma_step_wf(self@);
            }
        }
        let (t2, stepped) = step_once(self.duplicate());
        if stepped {
            Some(t2)
        } else {
            None
        }
    }
}

/// For all terms `x` and `y`, the application `K x y` rewrites to `x` in
/// exactly one step: the very first step yields `x` itself.
pub proof fn lemma_k_cancels(x: Term, y: Term)
    ensures
        spec_step(spec_apply(spec_apply(Term::K, x), y)) == Some(x),
{
    let t1 = spec_apply(Term::K, x);
    assert(t1 == Term::App(seq![x, Term::K]));
    let t0 = spec_apply(t1, y);
    assert(t0 == Term::App(seq![y] + seq![x, Term::K]));
    let ts = seq![y] + seq![x, Term::K];
    assert(ts =~= seq![y, x, Term::K]);
    assert(ts.take(0) =~= Seq::<Term>::empty());
    assert(spec_step(t0) == Some(app_to(x, ts.take(0))));
}

/// For every term `x`, the application `S K K x` rewrites to `x` within
/// two steps (and so within the three allowed): the first step yields
/// `K x (K x)` and the second yields `x`.
pub proof fn lemma_skk_identity(x: Term)
    ensures
        ({
            let t0 = spec_apply(spec_apply(spec_apply(Term::S, Term::K), Term::K), x);
            &&& spec_step(t0) matches Some(t1)
            &&& (spec_step(t0) matches Some(t1) ==> spec_step(t1) == Some(x))
        }),
{
    let t0 = spec_apply(spec_apply(spec_apply(Term::S, Term::K), Term::K), x);
    let ts = seq![x] + (seq![Term::K] + seq![Term::K, Term::S]);
    assert(ts =~= seq![x, Term::K, Term::K, Term::S]);
    assert(t0 == Term::App(ts));
    let kx = spec_apply(Term::K, x);
    assert(kx == Term::App(seq![x, Term::K]));
    assert(ts.take(0) =~= Seq::<Term>::empty());
    assert(ts.take(0).push(kx) =~= seq![kx]);
    let t1 = app_to(kx, seq![kx]);
    assert(t1 == Term::App(seq![kx] + seq![x, Term::K]));
    assert(spec_step(t0) == Some(t1));
    let us = seq![kx] + seq![x, Term::K];
    assert(us =~= seq![kx, x, Term::K]);
    assert(us.take(0) =~= Seq::<Term>::empty());
    assert(spec_step(t1) == Some(app_to(x, us.take(0))));
}

} // verus!
