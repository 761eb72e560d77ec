//! Whole-term rewriting helpers built on the single-step reducer: clearing
//! administrative nesting at the root, expanding every alias into the pure
//! SK basis, and firing every `K`-redex in one structural pass.

use vstd::prelude::*;

use crate::step::spec_step;
use crate::reach::lemma_admin_reduced_sk;
use crate::reach::lemma_reduces_refl;
use crate::reach::lemma_sk_idem;
use crate::reach::reduces_to;
use crate::term::Combinator;
use crate::term::Term;
use crate::term::app_to;
use crate::term::apply_owned;
use crate::term::lemma_apply_wf;
use crate::term::lemma_nodes_pos;
use crate::term::lemma_nodes_seq_concat;
use crate::term::lemma_nodes_seq_elem;
use crate::term::lemma_nodes_seq_push;
use crate::term::lemma_seq_term_of;
use crate::term::lemma_wf_seq;
use crate::term::nodes;
use crate::term::nodes_seq;
use crate::term::seq_term_of;
use crate::term::spec_apply;
use crate::term::term_of;
use crate::term::wf;
use crate::term::wf_seq;

verus! {

/// Whether the root of a term is an administrative shape: an alias, a
/// degenerate one-child application, or an application whose function
/// position is itself an application or an alias.
pub open spec fn is_admin_root(t: Term) -> bool {
    match t {
        Term::Named(_, _) => true,
        Term::App(ts) => ts.len() == 1 || (ts.len() >= 2 && (ts[ts.len() - 1] is App
            || ts[ts.len() - 1] is Named)),
        _ => false,
    }
}

/// An administrative root always admits a step, and the step makes the term
/// strictly smaller.
pub proof fn lemma_admin_step(t: Term)
    requires
        is_admin_root(t),
    ensures
        spec_step(t) is Some,
        spec_step(t) matches Some(u) ==> nodes(u) < nodes(t),
{
    match t {
        Term::Named(_, d) => {
            assert(spec_step(t) == Some(*d));
            assert(nodes(*d) < nodes(t));
        },
        Term::App(ts) => {
            let n = ts.len() as int;
            if n == 1 {
                lemma_nodes_seq_elem(ts, 0);
                assert(spec_step(t) == Some(ts[0]));
                assert(nodes(ts[0]) < nodes(t));
            } else {
                let rest = ts.take(n - 1);
                assert(ts =~= rest.push(ts[n - 1]));
                lemma_nodes_seq_push(rest, ts[n - 1]);
                assert(nodes_seq(ts) == nodes_seq(rest) + nodes(ts[n - 1]));
                match ts[n - 1] {
                    Term::App(inner) => {
                        lemma_nodes_seq_concat(rest, inner);
                        let u = Term::App(rest + inner);
                        assert(spec_step(t) == Some(u));
                        assert(nodes(u) == 1 + nodes_seq(rest) + nodes_seq(inner));
                        assert(nodes(ts[n - 1]) == 1 + nodes_seq(inner));
                        assert(nodes(u) < nodes(t));
                    },
                    Term::Named(_, d) => {
                        let u = app_to(*d, rest);
                        assert(spec_step(t) == Some(u));
                        assert(nodes(ts[n - 1]) == 1 + nodes(*d));
                        match *d {
                            Term::App(inner) => {
                                lemma_nodes_seq_concat(rest, inner);
                                assert(u == Term::App(rest + inner));
                                assert(nodes(u) == 1 + nodes_seq(rest) + nodes_seq(inner));
                                assert(nodes(*d) == 1 + nodes_seq(inner));
                                assert(nodes(u) < nodes(t));
                            },
                            _ => {
                                lemma_nodes_seq_push(rest, *d);
                                assert(u == Term::App(rest.push(*d)));
                                assert(nodes(u) == 1 + nodes_seq(rest) + nodes(*d));
                                assert(nodes(u) < nodes(t));
                            },
                        }
                    },
                    _ => {},
                }
            }
        },
        _ => {},
    }
}

/// The term after every administrative collapse available at the root:
/// aliases unwrapped, nesting in function position flattened, degenerate
/// applications collapsed.
pub open spec fn admin_reduced(t: Term) -> Term
    decreases nodes(t),
    via admin_reduced_dec
{
    if is_admin_root(t) {
        match spec_step(t) {
            Some(u) => admin_reduced(u),
            None => t,
        }
    } else {
        t
    }
}

#[via_fn]
proof fn admin_reduced_dec(t: Term) {
    if is_admin_root(t) {
        lemma_admin_step(t);
    }
}

/// Whether a term is free of aliases.
pub open spec fn no_named(t: Term) -> bool
    decreases t,
{
    match t {
        Term::Named(_, _) => false,
        Term::App(ts) => no_named_seq(ts),
        _ => true,
    }
}

/// Alias-freedom of every term of a sequence.
pub open spec fn no_named_seq(ts: Seq<Term>) -> bool
    decreases ts,
{
    if ts.len() == 0 {
        true
    } else {
        no_named(ts.last()) && no_named_seq(ts.drop_last())
    }
}

/// `no_named_seq` holds exactly when every element is alias-free.
pub proof fn lemma_no_named_seq(ts: Seq<Term>)
    ensures
        no_named_seq(ts) <==> (forall|i: int| 0 <= i < ts.len() ==> no_named(ts[i])),
    decreases ts.len(),
{
    if ts.len() > 0 {
        lemma_no_named_seq(ts.drop_last());
        assert(forall|i: int| 0 <= i < ts.len() - 1 ==> ts.drop_last()[i] == ts[i]);
        assert(ts.last() == ts[ts.len() - 1]);
    }
}

/// The pure-SK form of a term: every alias expanded to its definition and
/// every application rebuilt flat, by applying the converted function to
/// its converted arguments outermost-last.
pub open spec fn sk_of(t: Term) -> Term
    decreases nodes(t), 0int,
{
    match t {
        Term::Named(_, d) => sk_of(*d),
        Term::App(ts) => sk_fold(ts),
        _ => t,
    }
}

/// The pure-SK form of an application's children, in reverse storage
/// order: the first element is the outermost argument, the last the
/// function.
pub open spec fn sk_fold(ts: Seq<Term>) -> Term
    decreases nodes_seq(ts), 1int,
    via sk_fold_dec
{
    if ts.len() == 0 {
        Term::K
    } else if ts.len() == 1 {
        sk_of(ts[0])
    } else {
        spec_apply(sk_fold(ts.skip(1)), sk_of(ts[0]))
    }
}

#[via_fn]
proof fn sk_fold_dec(ts: Seq<Term>) {
    if ts.len() == 1 {
        assert(ts.drop_last() =~= Seq::<Term>::empty());
        assert(ts.last() == ts[0]);
    } else if ts.len() > 1 {
        assert(seq![ts[0]] + ts.skip(1) =~= ts);
        lemma_nodes_seq_concat(seq![ts[0]], ts.skip(1));
        assert(seq![ts[0]].drop_last() =~= Seq::<Term>::empty());
        assert(seq![ts[0]].last() == ts[0]);
        lemma_nodes_pos(ts[0]);
        lemma_nodes_seq_elem(ts, 0);
        lemma_nodes_seq_concat(seq![ts[0]], ts.skip(1));
    }
}

/// The pure-SK form of a well-formed term is well-formed and alias-free.
pub proof fn lemma_sk_of_props(t: Term)
    requires
        wf(t),
    ensures
        wf(sk_of(t)),
        no_named(sk_of(t)),
    decreases nodes(t), 0int,
{
    match t {
        Term::Named(_, d) => {
            lemma_sk_of_props(*d);
        },
        Term::App(ts) => {
            lemma_wf_seq(ts);
            lemma_sk_fold_props(ts);
        },
        _ => {},
    }
}

/// The pure-SK fold of a nonempty sequence of well-formed terms is
/// well-formed and alias-free.
pub proof fn lemma_sk_fold_props(ts: Seq<Term>)
    requires
        ts.len() >= 1,
        wf_seq(ts),
    ensures
        wf(sk_fold(ts)),
        no_named(sk_fold(ts)),
    decreases nodes_seq(ts), 1int,
{
    lemma_wf_seq(ts);
    if ts.len() == 1 {
        assert(ts.drop_last() =~= Seq::<Term>::empty());
        assert(ts.last() == ts[0]);
        lemma_sk_of_props(ts[0]);
    } else {
        lemma_wf_seq(ts.skip(1));
        assert(forall|i: int| 0 <= i < ts.skip(1).len() ==> ts.skip(1)[i] == ts[i + 1]);
        assert(seq![ts[0]] + ts.skip(1) =~= ts);
        lemma_nodes_seq_concat(seq![ts[0]], ts.skip(1));
        assert(seq![ts[0]].drop_last() =~= Seq::<Term>::empty());
        assert(seq![ts[0]].last() == ts[0]);
        lemma_nodes_pos(ts[0]);
        crate::term::lemma_nodes_seq_ge_len(ts.skip(1));
        lemma_sk_fold_props(ts.skip(1));
        lemma_sk_of_props(ts[0]);
        lemma_apply_wf(sk_fold(ts.skip(1)), sk_of(ts[0]));
        let f = sk_fold(ts.skip(1));
        let x = sk_of(ts[0]);
        match f {
            Term::App(inner) => {
                lemma_no_named_seq(inner);
                lemma_no_named_seq(seq![x] + inner);
                assert(forall|i: int| 0 <= i < inner.len() ==> (seq![x] + inner)[i + 1] == inner[i]);
                assert((seq![x] + inner)[0] == x);
            },
            _ => {
                lemma_no_named_seq(seq![x, f]);
            },
        }
    }
}

/// The one-pass `K`-normalization of a term: a `K`-redex at the root fires,
/// its surviving argument and the remaining arguments are `K`-normalized in
/// turn, and every other application keeps its shape with `K`-normalized
/// children.  Leaves and aliases stand as they are.
pub open spec fn spec_kred(t: Term) -> Term
    decreases nodes(t), 0int,
    via spec_kred_dec
{
    match t {
        Term::App(ts) => {
            let n = ts.len() as int;
            if n >= 3 && ts[n - 1] is K {
                if n == 3 {
                    spec_kred(ts[n - 2])
                } else {
                    Term::App(kred_seq(ts.take(n - 3).push(ts[n - 2])))
                }
            } else {
                Term::App(kred_seq(ts))
            }
        },
        _ => t,
    }
}

/// `K`-normalization of every term of a sequence.
pub open spec fn kred_seq(ts: Seq<Term>) -> Seq<Term>
    decreases nodes_seq(ts), 1int,
    via kred_seq_dec
{
    if ts.len() == 0 {
        Seq::empty()
    } else {
        kred_seq(ts.drop_last()).push(spec_kred(ts.last()))
    }
}

/// The nodes of a taken-and-pushed survivor sequence stay strictly below
/// the nodes of the application they came from.
proof fn lemma_kred_survivors(ts: Seq<Term>)
    requires
        ts.len() >= 3,
    ensures
        nodes_seq(ts.take(ts.len() - 3).push(ts[ts.len() - 2])) < nodes_seq(ts),
{
    let n = ts.len() as int;
    assert(ts =~= ts.take(n - 1).push(ts[n - 1]));
    lemma_nodes_seq_push(ts.take(n - 1), ts[n - 1]);
    assert(ts.take(n - 1) =~= ts.take(n - 2).push(ts[n - 2]));
    lemma_nodes_seq_push(ts.take(n - 2), ts[n - 2]);
    assert(ts.take(n - 2) =~= ts.take(n - 3).push(ts[n - 3]));
    lemma_nodes_seq_push(ts.take(n - 3), ts[n - 3]);
    lemma_nodes_seq_push(ts.take(n - 3), ts[n - 2]);
    lemma_nodes_pos(ts[n - 3]);
    lemma_nodes_pos(ts[n - 1]);
}

#[via_fn]
proof fn spec_kred_dec(t: Term) {
    match t {
        Term::App(ts) => {
            let n = ts.len() as int;
            if n >= 3 && ts[n - 1] is K {
                if n == 3 {
                    lemma_nodes_seq_elem(ts, n - 2);
                } else {
                    lemma_kred_survivors(ts);
                }
            }
        },
        _ => {},
    }
}

#[via_fn]
proof fn kred_seq_dec(ts: Seq<Term>) {
    if ts.len() > 0 {
        lemma_nodes_pos(ts.last());
    }
}

/// `kred_seq` maps `spec_kred` over the sequence, index by index.
pub proof fn lemma_kred_seq(ts: Seq<Term>)
    ensures
        kred_seq(ts).len() == ts.len(),
        forall|i: int| 0 <= i < ts.len() ==> kred_seq(ts)[i] == spec_kred(ts[i]),
    decreases ts.len(),
{
    if ts.len() > 0 {
        lemma_kred_seq(ts.drop_last());
    }
}

/// `K`-normalization preserves well-formedness.
pub proof fn lemma_kred_wf(t: Term)
    requires
        wf(t),
    ensures
        wf(spec_kred(t)),
    decreases nodes(t), 0int,
{
    match t {
        Term::App(ts) => {
            let n = ts.len() as int;
            lemma_wf_seq(ts);
            if n >= 3 && ts[n - 1] is K {
                if n == 3 {
                    lemma_nodes_seq_elem(ts, n - 2);
                    lemma_kred_wf(ts[n - 2]);
                } else {
                    let survivors = ts.take(n - 3).push(ts[n - 2]);
                    lemma_kred_survivors(ts);
                    assert(forall|i: int| 0 <= i < n - 3 ==> survivors[i] == ts[i]);
                    assert(survivors[n - 3] == ts[n - 2]);
                    lemma_wf_seq(survivors);
                    lemma_kred_seq_wf(survivors);
                    lemma_kred_seq(survivors);
                }
            } else {
                lemma_kred_seq_wf(ts);
                lemma_kred_seq(ts);
            }
        },
        _ => {},
    }
}

/// `K`-normalization of a sequence preserves well-formedness elementwise.
pub proof fn lemma_kred_seq_wf(ts: Seq<Term>)
    requires
        wf_seq(ts),
    ensures
        wf_seq(kred_seq(ts)),
    decreases nodes_seq(ts), 2int,
{
    lemma_wf_seq(ts);
    lemma_kred_seq(ts);
    lemma_wf_seq(kred_seq(ts));
    assert forall|i: int| 0 <= i < ts.len() implies wf(#[trigger] kred_seq(ts)[i]) by {
        lemma_nodes_seq_elem(ts, i);
        lemma_kred_elem_wf(ts, i);
    }
}

/// One element's `K`-normalization is well-formed.
proof fn lemma_kred_elem_wf(ts: Seq<Term>, i: int)
    requires
        wf_seq(ts),
        0 <= i < ts.len(),
    ensures
        wf(spec_kred(ts[i])),
    decreases nodes_seq(ts), 1int,
{
    lemma_wf_seq(ts);
    lemma_nodes_seq_elem(ts, i);
    lemma_kred_wf(ts[i]);
}

/// The pure-SK form of an owned term.
#[verifier::loop_isolation(false)]
fn sk_worker(t: Combinator) -> (r: Combinator)
    requires
        wf(t@),
    ensures
        r@ == sk_of(t@),
    decreases nodes(t@),
{
    let ghost gt = t@;
    match t {
        Combinator::S => Combinator::S,
        Combinator::K => Combinator::K,
        Combinator::Var(c) => Combinator::Var(c),
        Combinator::Named(_, d) => sk_worker(*d),
        Combinator::App(mut ts) => {
            let ghost model = seq_term_of(ts@);
            let n = ts.len();
            proof {
                assert(gt == Term::App(model));
                lemma_seq_term_of(ts@);
                lemma_wf_seq(model);
                assert(n >= 2);
                lemma_nodes_seq_elem(model, n - 1);
            }
            let h = ts.pop().unwrap();
            let mut acc = sk_worker(h);
            proof {
                assert(model.skip(n - 1).len() == 1);
                assert(model.skip(n - 1)[0] == model[n - 1]);
                assert(acc@ == sk_fold(model.skip(n - 1)));
                lemma_seq_term_of(ts@);
                assert(seq_term_of(ts@) =~= model.take(n - 1));
            }
            while ts.len() > 0
                invariant
                    gt == Term::App(model),
                    model.len() == n,
                    n >= 2,
                    ts@.len() <= n - 1,
                    seq_term_of(ts@) == model.take(ts@.len() as int),
                    forall|j: int| 0 <= j < n ==> wf(#[trigger] model[j]),
                    acc@ == sk_fold(model.skip(ts@.len() as int)),
                decreases ts@.len(),
            {
                let ghost pre = ts@;
                let ghost k = ts@.len() as int;
                let c = ts.pop().unwrap();
                proof {
                    lemma_seq_term_of(pre);
                    lemma_seq_term_of(ts@);
                    assert(seq_term_of(ts@) =~= model.take(k - 1));
                    assert(term_of(c) == model[k - 1]);
                    lemma_nodes_seq_elem(model, k - 1);
                    assert(nodes(term_of(c)) <= nodes_seq(model));
                }
                let cx = sk_worker(c);
                let acc2 = apply_owned(acc, cx);
                acc = acc2;
                proof {
                    assert(seq![model[k - 1]] + model.skip(k) =~= model.skip(k - 1));
                    assert(model.skip(k - 1).len() >= 2);
                    assert(model.skip(k - 1).skip(1) =~= model.skip(k));
                    assert(model.skip(k - 1)[0] == model[k - 1]);
                    assert(acc@ == sk_fold(model.skip(k - 1)));
                }
            }
            proof {
                assert(model.skip(0) =~= model);
            }
            acc
        },
    }
}

impl Combinator {
    /// Performs every administrative collapse available at the root:
    /// unwraps aliases in function position, flattens nested applications
    /// and degenerate one-child applications, and stops at the first root
    /// that is a leaf or a clean application.  No combinatorial redex is
    /// fired.
    pub fn alias_reduce(&mut self)
        requires
            wf(old(self)@),
        ensures
            wf(final(self)@),
            final(self)@ == admin_reduced(old(self)@),
            !is_admin_root(final(self)@),
            reduces_to(old(self)@, final(self)@),
    {
        while self.admin_at_root()
            invariant
                wf(self@),
                admin_reduced(self@) == admin_reduced(old(self)@),
            decreases nodes(self@),
        {
            proof {
                lemma_admin_step(self@);
            }
            let _ = self.reduce();
        }
        proof {
            lemma_admin_reduced_sk(old(self)@);
            lemma_reduces_refl(old(self)@, self@);
        }
    }

    /// Whether the root of this term is an administrative shape.
    fn admin_at_root(&self) -> (r: bool)
        ensures
            r == is_admin_root(self@),
    {
        match self {
            Combinator::Named(_, _) => true,
            Combinator::App(ts) => {
                let n = ts.len();
                proof {
                    lemma_seq_term_of(ts@);
                }
                if n == 1 {
                    true
                } else if n >= 2 {
                    match &ts[n - 1] {
                        Combinator::App(_) => true,
                        Combinator::Named(_, _) => true,
                        _ => false,
                    }
                } else {
                    false
                }
            },
            _ => false,
        }
    }

    /// Rewrites this term into the pure SK basis: every alias is expanded
    /// into its definition and every application is rebuilt flat.  The
    /// result carries no alias anywhere.
    pub fn sk_ify(&mut self)
        requires
            wf(old(self)@),
        ensures
            wf(final(self)@),
            final(self)@ == sk_of(old(self)@),
            no_named(final(self)@),
            reduces_to(old(self)@, final(self)@),
    {
        proof {
            lemma_sk_of_props(self@);
        }
        let mut tmp = Combinator::K;
        core::mem::swap(self, &mut tmp);
        let r = sk_worker(tmp);
        *self = r;
        proof {
            lemma_sk_idem(old(self)@);
            lemma_reduces_refl(old(self)@, self@);
        }
    }

    /// Returns the one-pass `K`-normalization of this term: every `K`-redex
    /// fires once, outermost first, and what survives is `K`-normalized in
    /// turn.  The receiver is left unchanged.
    #[verifier::loop_isolation(false)]
    pub fn k_reduced(&self) -> (r: Combinator)
        requires
            wf(self@),
        ensures
            r@ == spec_kred(self@),
            wf(r@),
        decreases nodes(self@),
    {
        proof {
            lemma_kred_wf(self@);
        }
        match self {
            Combinator::App(ts) => {
                let n = ts.len();
                let ghost model = seq_term_of(ts@);
                proof {
                    lemma_seq_term_of(ts@);
                    lemma_wf_seq(model);
                }
                let is_k = n >= 3 && (match &ts[n - 1] {
                    Combinator::K => true,
                    _ => false,
                });
                if is_k && n == 3 {
                    proof {
                        lemma_nodes_seq_elem(model, n - 2);
                    }
                    ts[n - 2].k_reduced()
                } else if is_k {
                    let ghost survivors = model.take(n - 3).push(model[n - 2]);
                    proof {
                        lemma_kred_survivors(model);
                        assert(forall|i: int| 0 <= i < n - 3 ==> survivors[i] == model[i]);
                        assert(survivors[n - 3] == model[n - 2]);
                        lemma_wf_seq(survivors);
                        lemma_kred_seq(survivors);
                    }
                    let mut out: Vec<Combinator> = Vec::new();
                    let mut i: usize = 0;
                    while i < n - 3
                        invariant
                            i <= n - 3,
                            out@.len() == i,
                            forall|j: int|
                                0 <= j < i ==> term_of(#[trigger] out@[j]) == spec_kred(model[j]),
                        decreases n - 3 - i,
                    {
                        proof {
                            lemma_nodes_seq_elem(model, i as int);
                        }
                        let c = ts[i].k_reduced();
                        out.push(c);
                        i += 1;
                    }
                    proof {
                        lemma_nodes_seq_elem(model, n - 2);
                    }
                    let last = ts[n - 2].k_reduced();
                    out.push(last);
                    proof {
                        lemma_seq_term_of(out@);
                        assert(seq_term_of(out@) =~= kred_seq(survivors));
                    }
                    Combinator::App(out)
                } else {
                    let mut out: Vec<Combinator> = Vec::new();
                    let mut i: usize = 0;
                    proof {
                        lemma_kred_seq(model);
                    }
                    while i < n
                        invariant
                            i <= n,
                            out@.len() == i,
                            forall|j: int|
                                0 <= j < i ==> term_of(#[trigger] out@[j]) == spec_kred(model[j]),
                        decreases n - i,
                    {
                        proof {
                            lemma_nodes_seq_elem(model, i as int);
                        }
                        let c = ts[i].k_reduced();
                        out.push(c);
                        i += 1;
                    }
                    proof {
                        lemma_seq_term_of(out@);
                        assert(seq_term_of(out@) =~= kred_seq(model));
                    }
                    Combinator::App(out)
                }
            },
            _ => self.duplicate(),
        }
    }
}

} // verus!
