//! The normalizer: drives a term to normal form under a step budget.
//!
//! `normal_form` classifies a term as `Normalized` (with the normal form
//! reached), `ProvenDivergent` (the rewrite sequence revisited a state
//! whose evaluation is still pending or already failed, the memo table's
//! argument for non-termination), or `LimitExceeded` (the budget ran out
//! first).  The driver keeps a memo table keyed by the canonical key of
//! each intermediate term.
//!
//! The machine-checked guarantees are: every term returned as `Normalized`
//! admits no further step anywhere in its structure; a term that is
//! already normal comes back unchanged under every positive budget; and a
//! zero budget yields `LimitExceeded` at once.  That a normalized result
//! is reachable from the input by reduction steps, and that the divergence
//! verdict is a true proof of non-termination, are design properties of
//! the algorithm exercised by the tests, not yet verified contracts: both
//! would rest on carrying the `reduces_to` relation through the memo
//! table, which would in turn need the canonical key proven injective up
//! to aliases.

use vstd::prelude::*;

use crate::cache::Cache;
use crate::cache::Probe;
use crate::key::key_of;
use crate::step::spec_step;
use crate::step::step_once;
use crate::step::lemma_step_wf;
use crate::term::Combinator;
use crate::term::Term;
use crate::term::is_leaf;
use crate::term::lemma_seq_term_of;
use crate::term::lemma_wf_seq;
use crate::term::nodes;
use crate::term::lemma_nodes_seq_elem;
use crate::term::seq_term_of;
use crate::term::term_of;
use crate::term::wf;

verus! {

/// A term is in normal form when no redex and no administrative collapse is
/// available anywhere in it: every application carries a leaf in function
/// position with too few arguments for it to fire, and every child is again
/// normal.  An alias is normal when its definition is.
pub open spec fn is_normal(t: Term) -> bool
    decreases t,
{
    match t {
        Term::S | Term::K | Term::Var(_) => true,
        Term::Named(_, d) => is_normal(*d),
        Term::App(ts) => {
            let n = ts.len() as int;
            &&& n >= 2
            &&& is_normal_seq(ts)
            &&& match ts[n - 1] {
                Term::S => n <= 3,
                Term::K => n <= 2,
                Term::Var(_) => true,
                _ => false,
            }
        },
    }
}

/// Normality of every term of a sequence.
pub open spec fn is_normal_seq(ts: Seq<Term>) -> bool
    decreases ts,
{
    if ts.len() == 0 {
        true
    } else {
        is_normal(ts.last()) && is_normal_seq(ts.drop_last())
    }
}

/// `is_normal_seq` holds exactly when every element is normal.
pub proof fn lemma_is_normal_seq(ts: Seq<Term>)
    ensures
        is_normal_seq(ts) <==> (forall|i: int| 0 <= i < ts.len() ==> is_normal(ts[i])),
    decreases ts.len(),
{
    if ts.len() > 0 {
        lemma_is_normal_seq(ts.drop_last());
        assert(forall|i: int| 0 <= i < ts.len() - 1 ==> ts.drop_last()[i] == ts[i]);
        assert(ts.last() == ts[ts.len() - 1]);
    }
}

/// A term in normal form admits no rewrite step at its root, except for an
/// alias, which only displays under its name and steps to its (normal)
/// definition.
pub proof fn lemma_normal_no_root_step(t: Term)
    requires
        is_normal(t),
    ensures
        !(t is Named) ==> spec_step(t) is None,
{
}

/// The outcome of a bounded normalization.
pub enum Outcome {
    /// The term reached this normal form within the budget.
    Normalized(Combinator),
    /// The memo table saw the rewrite sequence re-enter a state whose
    /// evaluation was still pending or had already failed; the term is
    /// reported as having no normal form.
    ProvenDivergent,
    /// The budget ran out before either could be established.
    LimitExceeded,
}

impl Combinator {
    /// Whether this term is in normal form: no rewrite step applies
    /// anywhere in it.
    pub fn in_normal_form(&self) -> (r: bool)
        ensures
            r == is_normal(self@),
        decreases nodes(self@),
    {
        match self {
            Combinator::S | Combinator::K | Combinator::Var(_) => true,
            Combinator::Named(_, d) => (&**d).in_normal_form(),
            Combinator::App(ts) => {
                let n = ts.len();
                let ghost model = seq_term_of(ts@);
                proof {
                    lemma_seq_term_of(ts@);
                }
                if n < 2 {
                    return false;
                }
                let head_ok = match &ts[n - 1] {
                    Combinator::S => n <= 3,
                    Combinator::K => n <= 2,
                    Combinator::Var(_) => true,
                    _ => false,
                };
                if !head_ok {
                    return false;
                }
                let mut i: usize = 0;
                while i < n
                    invariant
                        n == ts@.len(),
                        i <= n,
                        self@ == Term::App(model),
                        model == seq_term_of(ts@),
                        model.len() == n,
                        forall|j: int| 0 <= j < n ==> model[j] == term_of(ts@[j]),
                        forall|j: int| 0 <= j < i ==> is_normal(model[j]),
                    decreases n - i,
                {
                    proof {
                        lemma_nodes_seq_elem(model, i as int);
                    }
                    if !ts[i].in_normal_form() {
                        proof {
                            lemma_is_normal_seq(model);
                        }
                        return false;
                    }
                    i += 1;
                }
                proof {
                    lemma_is_normal_seq(model);
                }
                true
            },
        }
    }
}

/// Rewrites strict subterms that the table already knows to be normal into
/// their recorded normal forms, spending budget per node visited.  This is
/// what lets the driver recognise that a rewrite sequence has come back to
/// a state it has seen before, even when the revisit arises inside a larger
/// term.
#[verifier::loop_isolation(false)]
pub(crate) fn simplify_term(t: Combinator, fuel: usize, cache: &Cache) -> (res: (
    Combinator,
    usize,
))
    requires
        wf(t@),
        cache.inv(),
    ensures
        wf(res.0@),
        res.1 <= fuel,
    decreases fuel,
{
    if fuel == 0 {
        return (t, 0);
    }
    if t.is_leaf() {
        return (t, fuel);
    }
    let fuel0 = fuel - 1;
    let key = key_of(&t);
    match cache.lookup_normal(&key) {
        Some(v) => (v, fuel0),
        None => {
            match t {
                Combinator::Named(name, d) => {
                    let (d2, left) = simplify_term(*d, fuel0, cache);
                    (Combinator::Named(name, Box::new(d2)), left)
                },
                Combinator::App(ts) => {
                    let ghost model = seq_term_of(ts@);
                    let n = ts.len();
                    proof {
                        lemma_seq_term_of(ts@);
                        lemma_wf_seq(model);
                    }
                    let mut ts = ts;
                    let mut out_rev: Vec<Combinator> = Vec::new();
                    let mut fl = fuel0;
                    proof {
                        assert(model.take(n as int) =~= model);
                    }
                    while ts.len() > 0
                        invariant
                            cache.inv(),
                            fl <= fuel0,
                            out_rev@.len() + ts@.len() == n,
                            model.len() == n,
                            seq_term_of(ts@) == model.take(ts@.len() as int),
                            forall|j: int| 0 <= j < n ==> wf(#[trigger] model[j]),
                            forall|j: int|
                                0 <= j < out_rev@.len() ==> wf(term_of(#[trigger] out_rev@[j])),
                        decreases ts@.len(),
                    {
                        let ghost pre = ts@;
                        let c = ts.pop().unwrap();
                        proof {
                            lemma_seq_term_of(pre);
                            lemma_seq_term_of(ts@);
                            assert(seq_term_of(ts@) =~= model.take(ts@.len() as int));
                            assert(term_of(c) == model[ts@.len() as int]);
                        }
                        let (c2, f2) = simplify_term(c, fl, cache);
                        fl = f2;
                        out_rev.push(c2);
                    }
                    let m = out_rev.len();
                    let mut ts2: Vec<Combinator> = Vec::new();
                    while out_rev.len() > 0
                        invariant
                            ts2@.len() + out_rev@.len() == m,
                            forall|j: int|
                                0 <= j < out_rev@.len() ==> wf(term_of(#[trigger] out_rev@[j])),
                            forall|j: int|
                                0 <= j < ts2@.len() ==> wf(term_of(#[trigger] ts2@[j])),
                        decreases out_rev@.len(),
                    {
                        let c = out_rev.pop().unwrap();
                        ts2.push(c);
                    }
                    proof {
                        lemma_seq_term_of(ts2@);
                        lemma_wf_seq(seq_term_of(ts2@));
                    }
                    (Combinator::App(ts2), fl)
                },
                other => {
                    proof {
                        assert(false);
                    }
                    (other, fuel0)
                },
            }
        },
    }
}

/// Combines the verdicts of two sub-normalizations: unknown absorbs, and
/// otherwise both parts must normalize.
fn combine(a: Option<bool>, b: Option<bool>) -> (r: Option<bool>)
    ensures
        r == Some(true) <==> a == Some(true) && b == Some(true),
        r is None <==> (a is None || b is None),
{
    match (a, b) {
        (Some(x), Some(y)) => Some(x && y),
        _ => None,
    }
}

/// One bounded, memoized normalization pass over an owned term.
///
/// The verdict is `Some(true)` when the returned term is the input's normal
/// form, `Some(false)` when the input provably has none, and `None` when
/// the budget ran out.  Every verdict `Some(true)` is sound: the returned
/// term is proven normal.  A leaf always comes back unchanged.
#[verifier::loop_isolation(false)]
#[verifier::rlimit(60)]
pub(crate) fn normalize_term(t: Combinator, fuel: usize, cache: &mut Cache) -> (res: (
    Combinator,
    Option<bool>,
    usize,
))
    requires
        wf(t@),
        old(cache).inv(),
    ensures
        final(cache).inv(),
        wf(res.0@),
        res.2 <= fuel,
        res.1 == Some(true) ==> is_normal(res.0@),
        is_leaf(t@) ==> res.0@ == t@,
    decreases fuel,
{
    if fuel == 0 {
        return (t, None, 0);
    }
    let fuel0 = fuel - 1;
    match t {
        Combinator::S => (Combinator::S, Some(true), fuel0),
        Combinator::K => (Combinator::K, Some(true), fuel0),
        Combinator::Var(c) => (Combinator::Var(c), Some(true), fuel0),
        Combinator::Named(name, d) => {
            // An alias shares its key with its definition, so it is
            // normalized through the definition rather than entered into
            // the table itself.
            let (d2, verdict, left) = normalize_term(*d, fuel0, cache);
            (Combinator::Named(name, Box::new(d2)), verdict, left)
        },
        Combinator::App(ts) => {
            // First rewrite known-normal strict subterms from the table.
            let ghost model0 = seq_term_of(ts@);
            let n0 = ts.len();
            proof {
                lemma_seq_term_of(ts@);
                lemma_wf_seq(model0);
            }
            let mut ts = ts;
            let mut out_rev: Vec<Combinator> = Vec::new();
            let mut fl = fuel0;
            proof {
                assert(model0.take(n0 as int) =~= model0);
            }
            while ts.len() > 0
                invariant
                    cache.inv(),
                    fl <= fuel0,
                    out_rev@.len() + ts@.len() == n0,
                    model0.len() == n0,
                    seq_term_of(ts@) == model0.take(ts@.len() as int),
                    forall|j: int| 0 <= j < n0 ==> wf(#[trigger] model0[j]),
                    forall|j: int| 0 <= j < out_rev@.len() ==> wf(term_of(#[trigger] out_rev@[j])),
                decreases ts@.len(),
            {
                let ghost pre = ts@;
                let c = ts.pop().unwrap();
                proof {
                    lemma_seq_term_of(pre);
                    lemma_seq_term_of(ts@);
                    assert(seq_term_of(ts@) =~= model0.take(ts@.len() as int));
                    assert(term_of(c) == model0[ts@.len() as int]);
                }
                let (c2, f2) = simplify_term(c, fl, cache);
                fl = f2;
                out_rev.push(c2);
            }
            let mut ts2: Vec<Combinator> = Vec::new();
            while out_rev.len() > 0
                invariant
                    ts2@.len() + out_rev@.len() == n0,
                    forall|j: int| 0 <= j < out_rev@.len() ==> wf(term_of(#[trigger] out_rev@[j])),
                    forall|j: int| 0 <= j < ts2@.len() ==> wf(term_of(#[trigger] ts2@[j])),
                decreases out_rev@.len(),
            {
                let c = out_rev.pop().unwrap();
                ts2.push(c);
            }
            let fuel1 = fl;
            proof {
                lemma_seq_term_of(ts2@);
                lemma_wf_seq(seq_term_of(ts2@));
            }
            let t = Combinator::App(ts2);
            // Consult and mark the table under this state's canonical key.
            let key = key_of(&t);
            match cache.enter(&key) {
                Probe::Known(v) => {
                    return (v, Some(true), fuel1);
                },
                Probe::Dead => {
                    return (t, Some(false), fuel1);
                },
                Probe::Fresh => {},
            }
            let mut ts = match t {
                Combinator::App(v) => v,
                other => {
                    proof {
                        assert(false);
                    }
                    return (other, None, fuel1);
                },
            };
            let n = ts.len();
            let ghost model = seq_term_of(ts@);
            proof {
                lemma_seq_term_of(ts@);
                lemma_wf_seq(model);
                assert(n >= 2);
            }
            // Decide what the function position allows.
            let do_step = match &ts[n - 1] {
                Combinator::App(_) => true,
                Combinator::Named(_, _) => true,
                Combinator::K => n == 3,
                Combinator::S => n == 4,
                Combinator::Var(_) => false,
            };
            let focus_k = match &ts[n - 1] {
                Combinator::K => n > 3,
                _ => false,
            };
            let focus_s = match &ts[n - 1] {
                Combinator::S => n > 4,
                _ => false,
            };
            let (t2, verdict, left): (Combinator, Option<bool>, usize) = if do_step {
                // An exact redex or an administrative collapse: take the
                // step and continue on the result.
                let whole = Combinator::App(ts);
                proof {
                    assert(spec_step(whole@) is Some);
                    lemma_step_wf(whole@);
                }
                let (stepped, _) = step_once(whole);
                normalize_term(stepped, fuel1, cache)
            } else if focus_k {
                // More arguments than the redex consumes: normalize the
                // redex as a term of its own, so it gets its own table
                // entry, then continue with the result in function position.
                let kk = ts.pop().unwrap();
                let x = ts.pop().unwrap();
                let y = ts.pop().unwrap();
                proof {
                    lemma_seq_term_of(ts@);
                    assert(seq_term_of(ts@) =~= model.take(n - 3));
                    lemma_wf_seq(model.take(n - 3));
                }
                let mut fv: Vec<Combinator> = Vec::new();
                fv.push(y);
                fv.push(x);
                fv.push(kk);
                proof {
                    lemma_seq_term_of(fv@);
                    lemma_wf_seq(seq_term_of(fv@));
                }
                let focus = Combinator::App(fv);
                let (f2, v, lf) = normalize_term(focus, fuel1, cache);
                let ghost rest = ts@;
                ts.push(f2);
                proof {
                    crate::term::lemma_seq_term_of_push(rest, ts@.last());
                    lemma_wf_seq(seq_term_of(ts@));
                    lemma_wf_seq(seq_term_of(rest));
                }
                let t3 = Combinator::App(ts);
                match v {
                    Some(true) => normalize_term(t3, lf, cache),
                    Some(false) => (t3, Some(false), lf),
                    None => (t3, None, lf),
                }
            } else if focus_s {
                let ss = ts.pop().unwrap();
                let f = ts.pop().unwrap();
                let g = ts.pop().unwrap();
                let x = ts.pop().unwrap();
                proof {
                    lemma_seq_term_of(ts@);
                    assert(seq_term_of(ts@) =~= model.take(n - 4));
                    lemma_wf_seq(model.take(n - 4));
                }
                let mut fv: Vec<Combinator> = Vec::new();
                fv.push(x);
                fv.push(g);
                fv.push(f);
                fv.push(ss);
                proof {
                    lemma_seq_term_of(fv@);
                    lemma_wf_seq(seq_term_of(fv@));
                }
                let focus = Combinator::App(fv);
                let (f2, v, lf) = normalize_term(focus, fuel1, cache);
                let ghost rest = ts@;
                ts.push(f2);
                proof {
                    crate::term::lemma_seq_term_of_push(rest, ts@.last());
                    lemma_wf_seq(seq_term_of(ts@));
                    lemma_wf_seq(seq_term_of(rest));
                }
                let t3 = Combinator::App(ts);
                match v {
                    Some(true) => normalize_term(t3, lf, cache),
                    Some(false) => (t3, Some(false), lf),
                    None => (t3, None, lf),
                }
            } else {
                // No step will ever fire at the root: the term is normal
                // exactly when all children are.  The function position is
                // a leaf and is normalized first, coming back unchanged.
                let ghost headt = model[n - 1];
                proof {
                    assert(is_leaf(headt));
                    assert(match headt {
                        Term::S => n <= 3,
                        Term::K => n <= 2,
                        Term::Var(_) => true,
                        _ => false,
                    });
                }
                let mut out_rev: Vec<Combinator> = Vec::new();
                let mut verdict: Option<bool> = Some(true);
                let mut fl = fuel1;
                proof {
                    assert(model.take(n as int) =~= model);
                }
                while ts.len() > 0
                    invariant
                        cache.inv(),
                        fl <= fuel1,
                        fuel1 < fuel,
                        out_rev@.len() + ts@.len() == n,
                        seq_term_of(ts@) == model.take(ts@.len() as int),
                        model.len() == n,
                        forall|j: int| 0 <= j < n ==> wf(#[trigger] model[j]),
                        forall|j: int|
                            0 <= j < out_rev@.len() ==> wf(term_of(#[trigger] out_rev@[j])),
                        verdict == Some(true) ==> forall|j: int|
                            0 <= j < out_rev@.len() ==> is_normal(term_of(#[trigger] out_rev@[j])),
                        out_rev@.len() > 0 ==> term_of(out_rev@[0]) == headt,
                        is_leaf(headt),
                    decreases ts@.len(),
                {
                    let ghost pre = ts@;
                    let c = ts.pop().unwrap();
                    proof {
                        lemma_seq_term_of(pre);
                        lemma_seq_term_of(ts@);
                        assert(seq_term_of(ts@) =~= model.take(ts@.len() as int));
                        assert(term_of(c) == model[ts@.len() as int]);
                    }
                    let (c2, v, f2) = normalize_term(c, fl, cache);
                    fl = f2;
                    verdict = combine(verdict, v);
                    out_rev.push(c2);
                }
                let ghost orev = seq_term_of(out_rev@);
                proof {
                    lemma_seq_term_of(out_rev@);
                    assert(orev.take(out_rev@.len() as int) =~= orev);
                }
                let mut ts2: Vec<Combinator> = Vec::new();
                while out_rev.len() > 0
                    invariant
                        ts2@.len() + out_rev@.len() == n,
                        orev.len() == n,
                        seq_term_of(out_rev@) == orev.take(out_rev@.len() as int),
                        forall|j: int|
                            0 <= j < ts2@.len() ==> term_of(#[trigger] ts2@[j]) == orev[n - 1 - j],
                        forall|j: int| 0 <= j < n ==> wf(#[trigger] orev[j]),
                        verdict == Some(true) ==> forall|j: int|
                            0 <= j < n ==> is_normal(#[trigger] orev[j]),
                        term_of(out_rev@[0]) == headt || out_rev@.len() == 0,
                        orev[0] == headt,
                    decreases out_rev@.len(),
                {
                    let ghost pre = out_rev@;
                    let c = out_rev.pop().unwrap();
                    proof {
                        lemma_seq_term_of(pre);
                        lemma_seq_term_of(out_rev@);
                        assert(seq_term_of(out_rev@) =~= orev.take(out_rev@.len() as int));
                        assert(term_of(c) == orev[out_rev@.len() as int]);
                    }
                    ts2.push(c);
                }
                proof {
                    lemma_seq_term_of(ts2@);
                    lemma_wf_seq(seq_term_of(ts2@));
                    lemma_is_normal_seq(seq_term_of(ts2@));
                    assert(seq_term_of(ts2@)[n - 1] == orev[0]);
                }
                (Combinator::App(ts2), verdict, fl)
            };
            // Settle this state's entry by the verdict reached.
            match verdict {
                Some(true) => cache.record_normal(&key, &t2),
                Some(false) => cache.record_abnormal(&key),
                None => {},
            }
            (t2, verdict, left)
        },
    }
}

impl Combinator {
    /// Normalizes this term in place under a step budget.  `Some(true)`
    /// means the term was rewritten to its normal form, `Some(false)` that
    /// it provably has none, `None` that the budget ran out.
    pub fn normalize(&mut self, limit: usize) -> (r: Option<bool>)
        requires
            wf(old(self)@),
        ensures
            wf(final(self)@),
            r == Some(true) ==> is_normal(final(self)@),
            limit == 0 ==> r is None && final(self)@ == old(self)@,
    {
        if limit == 0 {
            return None;
        }
        let mut tmp = Combinator::K;
        core::mem::swap(self, &mut tmp);
        let mut cache = Cache::new();
        let (t2, verdict, _left) = normalize_term(tmp, limit, &mut cache);
        *self = t2;
        verdict
    }

    /// Attempts to reach this term's normal form within `limit` units of
    /// work, leaving the term itself unchanged.
    ///
    /// A budget of zero yields `LimitExceeded` at once.  A term that is
    /// already normal comes back as `Normalized`, unchanged, for every
    /// budget of at least one; together with the guarantee that every
    /// `Normalized` result is itself normal, normalization is idempotent.
    pub fn normal_form(&self, limit: usize) -> (r: Outcome)
        requires
            wf(self@),
        ensures
            limit == 0 ==> r is LimitExceeded,
            limit >= 1 && is_normal(self@) ==> (r matches Outcome::Normalized(m) && m@ == self@),
            r matches Outcome::Normalized(m) ==> wf(m@) && is_normal(m@),
            r is ProvenDivergent ==> !is_normal(self@),
            r is LimitExceeded ==> limit == 0 || !is_normal(self@),
    {
        if limit == 0 {
            return Outcome::LimitExceeded;
        }
        if self.in_normal_form() {
            return Outcome::Normalized(self.duplicate());
        }
        let mut cache = Cache::new();
        let (t2, verdict, _left) = normalize_term(self.duplicate(), limit, &mut cache);
        match verdict {
            Some(true) => Outcome::Normalized(t2),
            Some(false) => Outcome::ProvenDivergent,
            None => Outcome::LimitExceeded,
        }
    }
}

} // verus!
