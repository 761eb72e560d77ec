//! Printing a term in juxtaposition notation.
//!
//! A term prints in application order, function first, left to right.  A
//! subterm of a single leaf stands bare; a larger subterm is wrapped in
//! parentheses.  An alias prints under its name without expanding.

use vstd::prelude::*;
use vstd::string::StringExecFns;

use crate::term::Combinator;
use crate::term::Term;
use crate::term::lemma_nodes_pos;
use crate::term::lemma_nodes_seq_elem;
use crate::term::lemma_seq_term_of;
use crate::term::lemma_size_one;
use crate::term::lemma_wf_seq;
use crate::term::nodes;
use crate::term::nodes_seq;
use crate::term::seq_term_of;
use crate::term::size;
use crate::term::wf;

verus! {

/// The printed form of a term: a leaf prints as itself, an alias as its
/// name, an application as its parts in function-first order.
pub open spec fn display_of(t: Term) -> Seq<char>
    decreases nodes(t), 0int,
{
    match t {
        Term::S => seq!['S'],
        Term::K => seq!['K'],
        Term::Var(c) => seq![c],
        Term::Named(name, _) => name,
        Term::App(ts) => display_children(ts),
    }
}

/// The printed form of one application position: bare when it is a single
/// leaf, parenthesized otherwise.
pub open spec fn display_item(t: Term) -> Seq<char>
    decreases nodes(t), 1int,
{
    if size(t) == 1 {
        display_of(t)
    } else {
        seq!['('] + display_of(t) + seq![')']
    }
}

/// The printed forms of an application's children, function position (last
/// element) first.
pub open spec fn display_children(ts: Seq<Term>) -> Seq<char>
    decreases nodes_seq(ts), 2int,
    via display_children_dec
{
    if ts.len() == 0 {
        Seq::empty()
    } else {
        display_item(ts.last()) + display_children(ts.drop_last())
    }
}

#[via_fn]
proof fn display_children_dec(ts: Seq<Term>) {
    if ts.len() > 0 {
        lemma_nodes_pos(ts.last());
    }
}

/// Prepending a child appends its printed form, since children print
/// last-first.
proof fn lemma_display_children_prepend(x: Term, s: Seq<Term>)
    ensures
        display_children(seq![x] + s) == display_children(s) + display_item(x),
    decreases s.len(),
{
    if s.len() == 0 {
        assert(seq![x] + s =~= seq![x]);
        assert(seq![x].last() == x);
        assert(seq![x].drop_last() =~= Seq::<Term>::empty());
        assert(display_children(Seq::<Term>::empty()) =~= Seq::<char>::empty());
        assert(display_children(seq![x]) =~= display_item(x));
        assert(display_children(seq![x]) =~= display_children(s) + display_item(x));
    } else {
        let t = seq![x] + s;
        assert(t.last() == s.last());
        assert(t.drop_last() =~= seq![x] + s.drop_last());
        lemma_display_children_prepend(x, s.drop_last());
        assert(display_item(s.last()) + (display_children(s.drop_last()) + display_item(x)) =~= (
        display_item(s.last()) + display_children(s.drop_last())) + display_item(x));
    }
}

/// Appends one character to a string.
///
/// Relies on `String::push`, which appends the given character to the end
/// of the string.
#[verifier::external_body]
fn push_char(s: &mut String, c: char)
    ensures
        final(s)@ == old(s)@.push(c),
{
    s.push(c);
}

/// Appends the printed form of `t`.
#[verifier::loop_isolation(false)]
fn write_display(t: &Combinator, out: &mut String)
    requires
        wf(t@),
    ensures
        final(out)@ == old(out)@ + display_of(t@),
    decreases nodes(t@), 0int,
{
    match t {
        Combinator::S => {
            push_char(out, 'S');
            proof {
                assert(out@ =~= old(out)@ + display_of(t@));
            }
        },
        Combinator::K => {
            push_char(out, 'K');
            proof {
                assert(out@ =~= old(out)@ + display_of(t@));
            }
        },
        Combinator::Var(c) => {
            push_char(out, *c);
            proof {
                assert(out@ =~= old(out)@ + display_of(t@));
            }
        },
        Combinator::Named(name, _) => {
            out.append(name);
        },
        Combinator::App(ts) => {
            let ghost model = seq_term_of(ts@);
            let n = ts.len();
            proof {
                lemma_seq_term_of(ts@);
                lemma_wf_seq(model);
            }
            let ghost base = out@;
            let mut k = n;
            proof {
                assert(model.skip(n as int) =~= Seq::<Term>::empty());
                assert(display_children(Seq::<Term>::empty()) =~= Seq::<char>::empty());
                assert(out@ =~= base + display_children(model.skip(n as int)));
            }
            while k > 0
                invariant
                    k <= n,
                    out@ == base + display_children(model.skip(k as int)),
                decreases k,
            {
                k -= 1;
                proof {
                    lemma_nodes_seq_elem(model, k as int);
                    assert(seq![model[k as int]] + model.skip(k + 1) =~= model.skip(k as int));
                    lemma_display_children_prepend(model[k as int], model.skip(k + 1));
                }
                write_item(&ts[k], out);
                proof {
                    assert(out@ =~= base + display_children(model.skip(k as int)));
                }
            }
            proof {
                assert(model.skip(0) =~= model);
            }
        },
    }
}

/// Appends the printed form of one application position.
fn write_item(t: &Combinator, out: &mut String)
    requires
        wf(t@),
    ensures
        final(out)@ == old(out)@ + display_item(t@),
    decreases nodes(t@), 1int,
{
    proof {
        lemma_size_one(t@);
    }
    let bare = match t {
        Combinator::App(_) => false,
        _ => true,
    };
    if bare {
        write_display(t, out);
    } else {
        push_char(out, '(');
        write_display(t, out);
        push_char(out, ')');
        proof {
            assert(out@ =~= old(out)@ + display_item(t@));
        }
    }
}

impl Combinator {
    /// The printed form of this term: fully parenthesized juxtaposition,
    /// function first, with parentheses around every multi-leaf subterm in
    /// a non-final position.
    pub fn display(&self) -> (r: String)
        requires
            wf(self@),
        ensures
            r@ == display_of(self@),
    {
        let mut out = String::new();
        write_display(self, &mut out);
        proof {
            assert(Seq::<char>::empty() + display_of(self@) =~= display_of(self@));
        }
        out
    }
}

} // verus!
