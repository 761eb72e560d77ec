//! The term model of the SK combinator calculus.
//!
//! A `Combinator` is a leaf (`S`, `K`, or a free variable), an n-ary
//! application, or a named alias wrapping a definition.  Applications store
//! their children in reverse: the function position is the *last* element of
//! the vector, so that reduction can pop the function and the outermost
//! arguments cheaply.  The mathematical model of a term is the ghost type
//! `Term`, which mirrors the same structure over `Seq`.

use vstd::prelude::*;

verus! {

/// An SK-calculus term, the executable representation.
///
/// `App` children are stored in reverse order: for the application
/// `f a1 a2 ... ak` the vector holds `[ak, ..., a2, a1, f]`.
pub enum Combinator {
    S,
    K,
    /// An n-ary application; well-formed terms have at least two children.
    App(Vec<Combinator>),
    /// A free variable, never rewritten.
    Var(char),
    /// A labelled alias: the name, and the term it stands for.
    Named(&'static str, Box<Combinator>),
}

/// The mathematical model of a term: the same shape over `Seq`.
#[verifier::ext_equal]
pub ghost enum Term {
    S,
    K,
    App(Seq<Term>),
    Var(char),
    Named(Seq<char>, Box<Term>),
}

/// The model of an executable term.
pub open spec fn term_of(c: Combinator) -> Term
    decreases c,
{
    match c {
        Combinator::S => Term::S,
        Combinator::K => Term::K,
        Combinator::App(ts) => Term::App(seq_term_of(ts@)),
        Combinator::Var(x) => Term::Var(x),
        Combinator::Named(name, d) => Term::Named(name@, Box::new(term_of(*d))),
    }
}

/// The models of a sequence of executable terms, element by element.
pub open spec fn seq_term_of(s: Seq<Combinator>) -> Seq<Term>
    decreases s,
{
    if s.len() == 0 {
        Seq::empty()
    } else {
        seq_term_of(s.drop_last()).push(term_of(s.last()))
    }
}

impl View for Combinator {
    type V = Term;

    open spec fn view(&self) -> Term {
        term_of(*self)
    }
}

/// `seq_term_of` maps `term_of` over the sequence, index by index.
pub proof fn lemma_seq_term_of(s: Seq<Combinator>)
    ensures
        seq_term_of(s).len() == s.len(),
        forall|i: int| 0 <= i < s.len() ==> seq_term_of(s)[i] == term_of(s[i]),
    decreases s.len(),
{
    if s.len() > 0 {
        lemma_seq_term_of(s.drop_last());
    }
}

/// Number of leaves of a term; an alias counts as a single leaf.
pub open spec fn size(t: Term) -> nat
    decreases t,
{
    match t {
        Term::App(ts) => size_seq(ts),
        _ => 1,
    }
}

/// Sum of the sizes of a sequence of terms.
pub open spec fn size_seq(ts: Seq<Term>) -> nat
    decreases ts,
{
    if ts.len() == 0 {
        0
    } else {
        size(ts.last()) + size_seq(ts.drop_last())
    }
}

/// Total number of constructors of a term; a structural measure for
/// recursion that rewrites aliases and nesting away.
pub open spec fn nodes(t: Term) -> nat
    decreases t,
{
    match t {
        Term::App(ts) => 1 + nodes_seq(ts),
        Term::Named(_, d) => 1 + nodes(*d),
        _ => 1,
    }
}

/// Sum of the node counts of a sequence of terms.
pub open spec fn nodes_seq(ts: Seq<Term>) -> nat
    decreases ts,
{
    if ts.len() == 0 {
        0
    } else {
        nodes(ts.last()) + nodes_seq(ts.drop_last())
    }
}

/// Taking models commutes with pushing an element.
pub proof fn lemma_seq_term_of_push(s: Seq<Combinator>, c: Combinator)
    ensures
        seq_term_of(s.push(c)) == seq_term_of(s).push(term_of(c)),
{
    assert(s.push(c).drop_last() =~= s);
    assert(s.push(c).last() == c);
}

/// Taking models commutes with concatenation.
pub proof fn lemma_seq_term_of_concat(a: Seq<Combinator>, b: Seq<Combinator>)
    ensures
        seq_term_of(a + b) == seq_term_of(a) + seq_term_of(b),
{
    lemma_seq_term_of(a + b);
    lemma_seq_term_of(a);
    lemma_seq_term_of(b);
    assert(seq_term_of(a + b) =~= seq_term_of(a) + seq_term_of(b));
}

/// Appending one term adds its size to the sum.
pub proof fn lemma_size_seq_push(s: Seq<Term>, x: Term)
    ensures
        size_seq(s.push(x)) == size_seq(s) + size(x),
{
    assert(s.push(x).drop_last() =~= s);
    assert(s.push(x).last() == x);
}

/// The size of a concatenation is the sum of the sizes.
pub proof fn lemma_size_seq_concat(a: Seq<Term>, b: Seq<Term>)
    ensures
        size_seq(a + b) == size_seq(a) + size_seq(b),
    decreases b.len(),
{
    if b.len() == 0 {
        assert(a + b =~= a);
    } else {
        lemma_size_seq_concat(a, b.drop_last());
        assert((a + b).drop_last() =~= a + b.drop_last());
        assert((a + b).last() == b.last());
    }
}

/// An element's node count is bounded by the node count of its sequence.
pub proof fn lemma_nodes_seq_elem(ts: Seq<Term>, i: int)
    requires
        0 <= i < ts.len(),
    ensures
        nodes(ts[i]) <= nodes_seq(ts),
    decreases ts.len(),
{
    if i + 1 < ts.len() {
        lemma_nodes_seq_elem(ts.drop_last(), i);
    }
}

/// Every term has at least one node.
pub proof fn lemma_nodes_pos(t: Term)
    ensures
        nodes(t) >= 1,
{
}

/// Appending one term adds its node count to the sum.
pub proof fn lemma_nodes_seq_push(s: Seq<Term>, x: Term)
    ensures
        nodes_seq(s.push(x)) == nodes_seq(s) + nodes(x),
{
    assert(s.push(x).drop_last() =~= s);
    assert(s.push(x).last() == x);
}

/// The node count of a concatenation is the sum of the node counts.
pub proof fn lemma_nodes_seq_concat(a: Seq<Term>, b: Seq<Term>)
    ensures
        nodes_seq(a + b) == nodes_seq(a) + nodes_seq(b),
    decreases b.len(),
{
    if b.len() == 0 {
        assert(a + b =~= a);
    } else {
        lemma_nodes_seq_concat(a, b.drop_last());
        assert((a + b).drop_last() =~= a + b.drop_last());
        assert((a + b).last() == b.last());
    }
}

/// A sequence of terms has at least one node per element.
pub proof fn lemma_nodes_seq_ge_len(ts: Seq<Term>)
    ensures
        nodes_seq(ts) >= ts.len(),
    decreases ts.len(),
{
    if ts.len() > 0 {
        lemma_nodes_seq_ge_len(ts.drop_last());
        lemma_nodes_pos(ts.last());
    }
}

/// Well-formedness: every application has at least two children.
pub open spec fn wf(t: Term) -> bool
    decreases t,
{
    match t {
        Term::App(ts) => ts.len() >= 2 && wf_seq(ts),
        Term::Named(_, d) => wf(*d),
        _ => true,
    }
}

/// Well-formedness of every term of a sequence.
pub open spec fn wf_seq(ts: Seq<Term>) -> bool
    decreases ts,
{
    if ts.len() == 0 {
        true
    } else {
        wf(ts.last()) && wf_seq(ts.drop_last())
    }
}

/// `wf_seq` holds exactly when every element is well-formed.
pub proof fn lemma_wf_seq(ts: Seq<Term>)
    ensures
        wf_seq(ts) <==> (forall|i: int| 0 <= i < ts.len() ==> wf(ts[i])),
    decreases ts.len(),
{
    if ts.len() > 0 {
        lemma_wf_seq(ts.drop_last());
        assert(forall|i: int| 0 <= i < ts.len() - 1 ==> ts.drop_last()[i] == ts[i]);
        assert(ts.last() == ts[ts.len() - 1]);
    }
}

/// A well-formed term has at least one leaf.
pub proof fn lemma_size_pos(t: Term)
    requires
        wf(t),
    ensures
        size(t) >= 1,
    decreases t,
{
    match t {
        Term::App(ts) => {
            lemma_size_seq_ge_len(ts);
        },
        _ => {},
    }
}

/// A sequence of well-formed terms has at least one leaf per element.
pub proof fn lemma_size_seq_ge_len(ts: Seq<Term>)
    requires
        wf_seq(ts),
    ensures
        size_seq(ts) >= ts.len(),
    decreases ts,
{
    if ts.len() > 0 {
        lemma_size_pos(ts.last());
        lemma_size_seq_ge_len(ts.drop_last());
    }
}

/// A well-formed term has exactly one leaf precisely when it is a leaf or
/// an alias.
pub proof fn lemma_size_one(t: Term)
    requires
        wf(t),
    ensures
        (size(t) == 1) <==> (is_leaf(t) || t is Named),
{
    match t {
        Term::App(ts) => {
            lemma_size_seq_ge_len(ts);
        },
        _ => {},
    }
}

/// Whether a term is a leaf: `S`, `K` or a variable.
pub open spec fn is_leaf(t: Term) -> bool {
    match t {
        Term::S | Term::K | Term::Var(_) => true,
        _ => false,
    }
}

/// The model of applying `t` to one further argument `x`: the new argument
/// is prepended to the (reversed) child sequence, flattening one level when
/// `t` is itself an application.
pub open spec fn spec_apply(t: Term, x: Term) -> Term {
    match t {
        Term::App(ts) => Term::App(seq![x] + ts),
        _ => Term::App(seq![x, t]),
    }
}

/// The model of applying `t` to a (reversed) sequence of remaining
/// arguments, flattening one level when `t` is an application; with no
/// arguments left the result is `t` itself, so no degenerate application
/// arises.
pub open spec fn app_to(t: Term, args: Seq<Term>) -> Term {
    if args.len() == 0 {
        t
    } else {
        match t {
            Term::App(inner) => Term::App(args + inner),
            _ => Term::App(args.push(t)),
        }
    }
}

/// Applying one term to another joins their leaves and nothing else: the
/// size of an application is the sum of the sizes of its two sides.
pub proof fn lemma_apply_size(t: Term, x: Term)
    ensures
        size(spec_apply(t, x)) == size(t) + size(x),
{
    lemma_size_seq_push(Seq::empty(), x);
    assert(Seq::<Term>::empty().push(x) =~= seq![x]);
    assert(size_seq(Seq::<Term>::empty()) == 0);
    match t {
        Term::App(ts) => {
            lemma_size_seq_concat(seq![x], ts);
        },
        _ => {
            lemma_size_seq_push(seq![x], t);
            assert(seq![x].push(t) =~= seq![x, t]);
        },
    }
}

/// Application preserves well-formedness.
pub proof fn lemma_apply_wf(t: Term, x: Term)
    requires
        wf(t),
        wf(x),
    ensures
        wf(spec_apply(t, x)),
{
    match t {
        Term::App(ts) => {
            lemma_wf_seq(ts);
            lemma_wf_seq(seq![x] + ts);
            assert(forall|i: int| 0 <= i < ts.len() ==> (seq![x] + ts)[i + 1] == ts[i]);
            assert((seq![x] + ts)[0] == x);
        },
        _ => {
            lemma_wf_seq(seq![x, t]);
        },
    }
}

/// Applying a term to a sequence of pending arguments preserves
/// well-formedness, provided some argument is left or the base is taken
/// unchanged.
pub proof fn lemma_app_to_wf(t: Term, args: Seq<Term>)
    requires
        wf(t),
        wf_seq(args),
    ensures
        wf(app_to(t, args)),
{
    if args.len() > 0 {
        lemma_wf_seq(args);
        match t {
            Term::App(inner) => {
                lemma_wf_seq(inner);
                lemma_wf_seq(args + inner);
                assert(forall|i: int| 0 <= i < args.len() ==> (args + inner)[i] == args[i]);
                assert(forall|i: int|
                    0 <= i < inner.len() ==> (args + inner)[args.len() + i] == inner[i]);
            },
            _ => {
                lemma_wf_seq(args.push(t));
                assert(forall|i: int| 0 <= i < args.len() ==> args.push(t)[i] == args[i]);
                assert(args.push(t)[args.len() as int] == t);
            },
        }
    }
}

/// Applies an owned term to one owned argument, flattening one level.
pub(crate) fn apply_owned(t: Combinator, x: Combinator) -> (r: Combinator)
    ensures
        r@ == spec_apply(t@, x@),
{
    match t {
        Combinator::App(mut ts) => {
            proof {
                lemma_seq_term_of(ts@);
                lemma_seq_term_of(ts@.insert(0, x));
            }
            let ghost old_ts = ts@;
            ts.insert(0, x);
            proof {
                assert(seq_term_of(ts@) =~= seq![x@] + seq_term_of(old_ts)) by {
                    lemma_seq_term_of(ts@);
                    lemma_seq_term_of(old_ts);
                }
            }
            Combinator::App(ts)
        },
        other => {
            let ghost old_t = other@;
            let mut v: Vec<Combinator> = Vec::new();
            v.push(x);
            v.push(other);
            proof {
                lemma_seq_term_of(v@);
                assert(seq_term_of(v@) =~= seq![x@, old_t]);
            }
            Combinator::App(v)
        },
    }
}

/// Whether two string slices hold the same characters.
///
/// Relies on `str`'s `PartialEq`: two string slices compare equal exactly
/// when their contents do.
#[verifier::external_body]
fn str_eq(a: &str, b: &str) -> (r: bool)
    ensures
        r == (a@ == b@),
{
    a == b
}

impl Combinator {
    /// Structural equality: same leaf kind, name and child structure,
    /// recursively.  Aliases compare by name and definition; no reduction
    /// is performed.
    pub fn equals(&self, other: &Combinator) -> (r: bool)
        ensures
            r == (self@ == other@),
        decreases nodes(self@),
    {
        match (self, other) {
            (Combinator::S, Combinator::S) => true,
            (Combinator::K, Combinator::K) => true,
            (Combinator::Var(a), Combinator::Var(b)) => *a == *b,
            (Combinator::Named(n1, d1), Combinator::Named(n2, d2)) => str_eq(n1, n2) && (
            &**d1).equals(&**d2),
            (Combinator::App(a), Combinator::App(b)) => {
                let n = a.len();
                let ghost ma = seq_term_of(a@);
                let ghost mb = seq_term_of(b@);
                proof {
                    lemma_seq_term_of(a@);
                    lemma_seq_term_of(b@);
                }
                if n != b.len() {
                    return false;
                }
                let mut i: usize = 0;
                while i < n
                    invariant
                        n == a@.len(),
                        n == b@.len(),
                        i <= n,
                        self@ == Term::App(ma),
                        other@ == Term::App(mb),
                        ma == seq_term_of(a@),
                        mb == seq_term_of(b@),
                        ma.len() == n,
                        mb.len() == n,
                        forall|j: int| 0 <= j < n ==> ma[j] == term_of(a@[j]),
                        forall|j: int| 0 <= j < n ==> mb[j] == term_of(b@[j]),
                        forall|j: int| 0 <= j < i ==> ma[j] == mb[j],
                    decreases n - i,
                {
                    proof {
                        lemma_nodes_seq_elem(ma, i as int);
                    }
                    if !a[i].equals(&b[i]) {
                        return false;
                    }
                    i += 1;
                }
                proof {
                    assert(ma =~= mb);
                }
                true
            },
            _ => false,
        }
    }

    /// A structural deep copy.  Subterms duplicated during reduction are
    /// copied rather than shared, so no mutation of one copy can ever be
    /// observed through another.
    pub fn duplicate(&self) -> (r: Combinator)
        ensures
            r@ == self@,
        decreases nodes(self@),
    {
        match self {
            Combinator::S => Combinator::S,
            Combinator::K => Combinator::K,
            Combinator::Var(x) => Combinator::Var(*x),
            Combinator::Named(name, d) => {
                Combinator::Named(*name, Box::new((&**d).duplicate()))
            },
            Combinator::App(ts) => {
                let n = ts.len();
                let mut out: Vec<Combinator> = Vec::new();
                let mut i: usize = 0;
                proof {
                    lemma_seq_term_of(ts@);
                }
                while i < n
                    invariant
                        n == ts@.len(),
                        i <= n,
                        out@.len() == i,
                        self@ == Term::App(seq_term_of(ts@)),
                        seq_term_of(ts@).len() == n,
                        forall|j: int| 0 <= j < n ==> seq_term_of(ts@)[j] == term_of(ts@[j]),
                        forall|j: int| 0 <= j < i ==> term_of(out@[j]) == term_of(ts@[j]),
                    decreases n - i,
                {
                    proof {
                        lemma_nodes_seq_elem(seq_term_of(ts@), i as int);
                        assert(term_of(ts@[i as int]) == seq_term_of(ts@)[i as int]);
                    }
                    let c = ts[i].duplicate();
                    out.push(c);
                    i += 1;
                }
                proof {
                    lemma_seq_term_of(out@);
                    assert(seq_term_of(out@) =~= seq_term_of(ts@));
                }
                Combinator::App(out)
            },
        }
    }

    /// Whether this term is a leaf: `S`, `K` or a variable.
    pub fn is_leaf(&self) -> (r: bool)
        ensures
            r == is_leaf(self@),
    {
        match self {
            Combinator::S | Combinator::K | Combinator::Var(_) => true,
            _ => false,
        }
    }

    /// Applies this term to the argument `x` in place, flattening one level:
    /// an application gains one more pending argument rather than nesting.
    /// The number of leaves of the result is the sum of the leaves of the
    /// two sides.
    pub fn apply(&mut self, x: Combinator)
        ensures
            final(self)@ == spec_apply(old(self)@, x@),
            wf(old(self)@) && wf(x@) ==> wf(final(self)@),
            size(final(self)@) == size(old(self)@) + size(x@),
    {
        proof {
            lemma_apply_size(self@, x@);
            if wf(self@) && wf(x@) {
                lemma_apply_wf(self@, x@);
            }
        }
        let mut tmp = Combinator::K;
        core::mem::swap(self, &mut tmp);
        let r = apply_owned(tmp, x);
        *self = r;
    }

    /// Returns this term applied to `x`, leaving both operands unchanged.
    pub fn of(&self, x: &Combinator) -> (r: Combinator)
        ensures
            r@ == spec_apply(self@, x@),
            wf(self@) && wf(x@) ==> wf(r@),
            size(r@) == size(self@) + size(x@),
    {
        proof {
            lemma_apply_size(self@, x@);
            if wf(self@) && wf(x@) {
                lemma_apply_wf(self@, x@);
            }
        }
        apply_owned(self.duplicate(), x.duplicate())
    }

    /// The number of leaf nodes of this term; an alias counts as one leaf.
    pub fn size(&self) -> (r: usize)
        requires
            size(self@) <= usize::MAX,
        ensures
            r == size(self@),
        decreases nodes(self@),
    {
        match self {
            Combinator::App(ts) => {
                let n = ts.len();
                let mut acc: usize = 0;
                let mut i: usize = 0;
                proof {
                    lemma_seq_term_of(ts@);
                    assert(seq_term_of(ts@).subrange(0, 0) =~= Seq::<Term>::empty());
                }
                while i < n
                    invariant
                        n == ts@.len(),
                        i <= n,
                        size(term_of(*self)) <= usize::MAX,
                        *self is App,
                        self@ == Term::App(seq_term_of(ts@)),
                        seq_term_of(ts@).len() == n,
                        forall|j: int| 0 <= j < n ==> seq_term_of(ts@)[j] == term_of(ts@[j]),
                        acc == size_seq(seq_term_of(ts@).subrange(0, i as int)),
                        acc <= size(self@),
                    decreases n - i,
                {
                    let ghost whole = seq_term_of(ts@);
                    proof {
                        lemma_size_seq_concat(
                            whole.subrange(0, i + 1),
                            whole.subrange(i + 1, n as int),
                        );
                        assert(whole.subrange(0, i + 1) + whole.subrange(i + 1, n as int)
                            =~= whole);
                        lemma_size_seq_push(whole.subrange(0, i as int), whole[i as int]);
                        assert(whole.subrange(0, i as int).push(whole[i as int])
                            =~= whole.subrange(0, i + 1));
                        lemma_nodes_seq_elem(whole, i as int);
                    }
                    let s = ts[i].size();
                    acc = acc + s;
                    i += 1;
                }
                proof {
                    assert(seq_term_of(ts@).subrange(0, n as int) =~= seq_term_of(ts@));
                }
                acc
            },
            _ => 1,
        }
    }
}

} // verus!
