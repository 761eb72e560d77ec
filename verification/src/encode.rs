//! The canonical bit-level encoding of a term.
//!
//! `K` encodes as `00`, `S` as `01`, and an n-ary application as n−1 one
//! bits followed by the encodings of its children, function position first.
//! An alias encodes as its definition, so two differently-named but
//! definitionally-identical terms encode identically.  A free variable,
//! which the two-bit scheme leaves open, is written as `10` followed by the
//! thirty-two bits of its code point.  The bits are packed
//! most-significant-bit first into bytes with no length prefix.

use vstd::prelude::*;

use crate::bitwriter::BitWriter;
use crate::bitwriter::byte_bit;
use crate::term::Combinator;
use crate::term::Term;
use crate::term::lemma_nodes_seq_elem;
use crate::term::lemma_seq_term_of;
use crate::term::nodes;
use crate::term::seq_term_of;

verus! {

/// The thirty-two bits of a character's code point, most significant first.
pub open spec fn char_bits(c: char) -> Seq<bool> {
    Seq::new(32, |i: int| ((c as u32) >> ((31 - i) as u32)) & 1 == 1)
}

/// The arity prefix of an application: one fewer one-bits than children.
pub open spec fn arity_bits(n: nat) -> Seq<bool> {
    if n == 0 {
        Seq::empty()
    } else {
        Seq::new((n - 1) as nat, |i: int| true)
    }
}

/// The canonical encoding of a term as a bit stream.
pub open spec fn bits_of(t: Term) -> Seq<bool>
    decreases t,
{
    match t {
        Term::K => seq![false, false],
        Term::S => seq![false, true],
        Term::Var(c) => seq![true, false] + char_bits(c),
        Term::App(ts) => arity_bits(ts.len()) + bits_children(ts),
        Term::Named(_, d) => bits_of(*d),
    }
}

/// The encodings of a sequence of children, function position (last
/// element) first.
pub open spec fn bits_children(ts: Seq<Term>) -> Seq<bool>
    decreases ts,
{
    if ts.len() == 0 {
        Seq::empty()
    } else {
        bits_of(ts.last()) + bits_children(ts.drop_last())
    }
}

/// Prepending a child appends its encoding, since children are written
/// last-first.
proof fn lemma_bits_children_prepend(x: Term, s: Seq<Term>)
    ensures
        bits_children(seq![x] + s) == bits_children(s) + bits_of(x),
    decreases s.len(),
{
    if s.len() == 0 {
        assert(seq![x] + s =~= seq![x]);
        assert(seq![x].last() == x);
        assert(seq![x].drop_last() =~= Seq::<Term>::empty());
        assert(bits_children(Seq::<Term>::empty()) =~= Seq::<bool>::empty());
        assert(bits_children(seq![x]) =~= bits_of(x));
        assert(bits_children(seq![x]) =~= bits_children(s) + bits_of(x));
    } else {
        let t = seq![x] + s;
        assert(t.last() == s.last());
        assert(t.drop_last() =~= seq![x] + s.drop_last());
        lemma_bits_children_prepend(x, s.drop_last());
        assert(bits_of(s.last()) + (bits_children(s.drop_last()) + bits_of(x)) =~= (bits_of(
            s.last(),
        ) + bits_children(s.drop_last())) + bits_of(x));
    }
}

/// The encoding length of a concatenation splits over its two parts.
proof fn lemma_bits_children_split(s: Seq<Term>, k: int)
    requires
        0 <= k <= s.len(),
    ensures
        bits_children(s).len() == bits_children(s.take(k)).len() + bits_children(
            s.skip(k),
        ).len(),
    decreases s.len() - k,
{
    if k == s.len() {
        assert(s.take(k) =~= s);
        assert(s.skip(k) =~= Seq::<Term>::empty());
    } else {
        lemma_bits_children_split(s, k + 1);
        assert(s.take(k + 1).last() == s[k]);
        assert(s.take(k + 1).drop_last() =~= s.take(k));
        assert(seq![s[k]] + s.skip(k + 1) =~= s.skip(k));
        lemma_bits_children_prepend(s[k], s.skip(k + 1));
    }
}

/// Appends the canonical encoding of `t` to the writer.
#[verifier::loop_isolation(false)]
pub(crate) fn write_bits(t: &Combinator, w: &mut BitWriter)
    requires
        old(w).inv(),
        old(w)@.len() + bits_of(t@).len() <= usize::MAX,
    ensures
        final(w).inv(),
        final(w)@ == old(w)@ + bits_of(t@),
    decreases nodes(t@),
{
    match t {
        Combinator::K => {
            w.emit_bit(false);
            w.emit_bit(false);
            proof {
                assert(w@ =~= old(w)@ + bits_of(t@));
            }
        },
        Combinator::S => {
            w.emit_bit(false);
            w.emit_bit(true);
            proof {
                assert(w@ =~= old(w)@ + bits_of(t@));
            }
        },
        Combinator::Var(c) => {
            let x: u32 = *c as u32;
            w.emit_bit(true);
            w.emit_bit(false);
            let ghost base = w@;
            let mut k: usize = 0;
            while k < 32
                invariant
                    w.inv(),
                    k <= 32,
                    w@ == base + char_bits(*c).take(k as int),
                decreases 32 - k,
            {
                let b = (x >> ((31 - k) as u32)) & 1 == 1;
                w.emit_bit(b);
                k += 1;
                proof {
                    assert(char_bits(*c)[k - 1] == b);
                    assert(w@ =~= base + char_bits(*c).take(k as int));
                }
            }
            proof {
                assert(char_bits(*c).take(32) =~= char_bits(*c));
                assert(w@ =~= old(w)@ + bits_of(t@));
            }
        },
        Combinator::Named(_, d) => {
            write_bits(&**d, w);
        },
        Combinator::App(ts) => {
            let ghost model = seq_term_of(ts@);
            let n = ts.len();
            proof {
                lemma_seq_term_of(ts@);
            }
            let ghost base = w@;
            let mut i: usize = 0;
            if n > 0 {
                while i < n - 1
                    invariant
                        w.inv(),
                        n >= 1,
                        i <= n - 1,
                        w@ == base + arity_bits(n as nat).take(i as int),
                    decreases n - i,
                {
                    w.emit_bit(true);
                    i += 1;
                    proof {
                        assert(w@ =~= base + arity_bits(n as nat).take(i as int));
                    }
                }
            }
            proof {
                assert(arity_bits(n as nat).take(arity_bits(n as nat).len() as int) =~= arity_bits(
                    n as nat,
                ));
                assert(w@ == base + arity_bits(n as nat));
            }
            let ghost mid = w@;
            let mut k = n;
            proof {
                assert(model.skip(n as int) =~= Seq::<Term>::empty());
                assert(bits_children(Seq::<Term>::empty()) =~= Seq::<bool>::empty());
                assert(w@ =~= mid + bits_children(model.skip(n as int)));
            }
            while k > 0
                invariant
                    w.inv(),
                    k <= n,
                    w@ == mid + bits_children(model.skip(k as int)),
                decreases k,
            {
                k -= 1;
                proof {
                    lemma_nodes_seq_elem(model, k as int);
                    lemma_bits_children_split(model, k as int);
                    lemma_bits_children_split(model, k + 1);
                    assert(seq![model[k as int]] + model.skip(k + 1) =~= model.skip(k as int));
                    lemma_bits_children_prepend(model[k as int], model.skip(k + 1));
                }
                write_bits(&ts[k], w);
                proof {
                    assert(w@ =~= mid + bits_children(model.skip(k as int)));
                }
            }
            proof {
                assert(model.skip(0) =~= model);
                assert(w@ =~= old(w)@ + bits_of(t@));
            }
        },
    }
}

impl Combinator {
    /// The canonical encoding of this term, packed into bytes: bit `j` of
    /// the stream is bit `j % 8` (most significant first) of byte `j / 8`,
    /// and the unused low bits of the last byte are zero.
    pub fn bcl(&self) -> (r: Vec<u8>)
        requires
            bits_of(self@).len() <= usize::MAX,
        ensures
            r@.len() == (bits_of(self@).len() + 7) / 8,
            forall|j: int|
                0 <= j < bits_of(self@).len() ==> byte_bit(#[trigger] r@[j / 8], j % 8)
                    == bits_of(self@)[j],
            forall|j: int|
                bits_of(self@).len() <= j < r@.len() * 8 ==> !byte_bit(
                    #[trigger] r@[j / 8],
                    j % 8,
                ),
    {
        let mut w = BitWriter::new();
        write_bits(self, &mut w);
        proof {
            assert(Seq::<bool>::empty() + bits_of(self@) =~= bits_of(self@));
        }
        w.finish()
    }
}

} // verus!
