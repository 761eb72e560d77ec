//! The canonical byte key of a term, used by the normalizer's memo table.
//!
//! Two terms receive the same key exactly when they are structurally
//! identical up to aliases: a named alias is keyed by its definition, so two
//! differently-named but definitionally-identical terms share one key.  Each
//! node is written as a tag byte, a variable carries its code point and an
//! application carries its arity, so the scheme needs no bit packing and no
//! length bookkeeping that could overflow.

use vstd::prelude::*;

use crate::term::Combinator;
use crate::term::Term;
use crate::term::lemma_nodes_seq_elem;
use crate::term::lemma_seq_term_of;
use crate::term::nodes;
use crate::term::seq_term_of;
use crate::term::term_of;

verus! {

/// The four little-endian bytes of a 32-bit value.
pub open spec fn u32_le_bytes(x: u32) -> Seq<u8> {
    seq![
        (x % 256) as u8,
        ((x / 256) % 256) as u8,
        ((x / 65536) % 256) as u8,
        ((x / 16777216) % 256) as u8,
    ]
}

/// The eight little-endian bytes of a 64-bit value.
pub open spec fn u64_le_bytes(x: u64) -> Seq<u8> {
    seq![
        (x % 256) as u8,
        ((x / 256) % 256) as u8,
        ((x / 65536) % 256) as u8,
        ((x / 16777216) % 256) as u8,
        ((x / 4294967296) % 256) as u8,
        ((x / 1099511627776) % 256) as u8,
        ((x / 281474976710656) % 256) as u8,
        ((x / 72057594037927936) % 256) as u8,
    ]
}

/// The canonical key of a term: a tag byte per node, a variable's code
/// point, an application's arity and then its children with the function
/// position first; an alias is keyed by its definition alone.
pub open spec fn key_bytes(t: Term) -> Seq<u8>
    decreases t,
{
    match t {
        Term::K => seq![0u8],
        Term::S => seq![1u8],
        Term::Var(c) => seq![2u8] + u32_le_bytes(c as u32),
        Term::App(ts) => seq![3u8] + u64_le_bytes(ts.len() as u64) + key_children(ts),
        Term::Named(_, d) => key_bytes(*d),
    }
}

/// The keys of a sequence of children, function position (last element)
/// first.
pub open spec fn key_children(ts: Seq<Term>) -> Seq<u8>
    decreases ts,
{
    if ts.len() == 0 {
        Seq::empty()
    } else {
        key_bytes(ts.last()) + key_children(ts.drop_last())
    }
}

/// Prepending a child appends its key, since children are keyed last-first.
proof fn lemma_key_children_prepend(x: Term, s: Seq<Term>)
    ensures
        key_children(seq![x] + s) == key_children(s) + key_bytes(x),
    decreases s.len(),
{
    if s.len() == 0 {
        assert(seq![x] + s =~= seq![x]);
        assert(seq![x].last() == x);
        assert(seq![x].drop_last() =~= Seq::<Term>::empty());
        assert(key_children(Seq::<Term>::empty()) =~= Seq::<u8>::empty());
        assert(key_children(seq![x]) =~= key_bytes(x));
        assert(key_children(seq![x]) =~= key_children(s) + key_bytes(x));
    } else {
        let t = seq![x] + s;
        assert(t.last() == s.last());
        assert(t.drop_last() =~= seq![x] + s.drop_last());
        lemma_key_children_prepend(x, s.drop_last());
        assert(key_bytes(s.last()) + (key_children(s.drop_last()) + key_bytes(x)) =~= (key_bytes(
            s.last(),
        ) + key_children(s.drop_last())) + key_bytes(x));
    }
}

/// Appends the four little-endian bytes of `x`.
fn push_u32_le(out: &mut Vec<u8>, x: u32)
    ensures
        final(out)@ == old(out)@ + u32_le_bytes(x),
{
    let ghost base = out@;
    out.push((x % 256) as u8);
    out.push(((x / 256) % 256) as u8);
    out.push(((x / 65536) % 256) as u8);
    out.push(((x / 16777216) % 256) as u8);
    proof {
        assert(out@ =~= base + u32_le_bytes(x));
    }
}

/// Appends the eight little-endian bytes of `x`.
fn push_u64_le(out: &mut Vec<u8>, x: u64)
    ensures
        final(out)@ == old(out)@ + u64_le_bytes(x),
{
    let ghost base = out@;
    out.push((x % 256) as u8);
    out.push(((x / 256) % 256) as u8);
    out.push(((x / 65536) % 256) as u8);
    out.push(((x / 16777216) % 256) as u8);
    out.push(((x / 4294967296) % 256) as u8);
    out.push(((x / 1099511627776) % 256) as u8);
    out.push(((x / 281474976710656) % 256) as u8);
    out.push(((x / 72057594037927936) % 256) as u8);
    proof {
        assert(out@ =~= base + u64_le_bytes(x));
    }
}

/// Appends the canonical key of `t`.
fn write_key(t: &Combinator, out: &mut Vec<u8>)
    ensures
        final(out)@ == old(out)@ + key_bytes(t@),
    decreases nodes(t@),
{
    match t {
        Combinator::K => {
            let ghost base = out@;
            out.push(0);
            proof {
                assert(out@ =~= base + key_bytes(t@));
            }
        },
        Combinator::S => {
            let ghost base = out@;
            out.push(1);
            proof {
                assert(out@ =~= base + key_bytes(t@));
            }
        },
        Combinator::Var(c) => {
            let ghost base = out@;
            out.push(2);
            push_u32_le(out, *c as u32);
            proof {
                assert(out@ =~= base + key_bytes(t@));
            }
        },
        Combinator::Named(_, d) => {
            write_key(&**d, out);
        },
        Combinator::App(ts) => {
            let ghost base = out@;
            let ghost model = seq_term_of(ts@);
            let n = ts.len();
            proof {
                lemma_seq_term_of(ts@);
            }
            out.push(3);
            push_u64_le(out, n as u64);
            let ghost mid = out@;
            proof {
                assert(model.skip(n as int) =~= Seq::<Term>::empty());
                assert(mid =~= base + seq![3u8] + u64_le_bytes(model.len() as u64));
            }
            let mut k = n;
            while k > 0
                invariant
                    k <= n,
                    n == ts@.len(),
                    model == seq_term_of(ts@),
                    t@ == Term::App(model),
                    model.len() == n,
                    forall|j: int| 0 <= j < n ==> model[j] == term_of(ts@[j]),
                    out@ == mid + key_children(model.skip(k as int)),
                decreases k,
            {
                k -= 1;
                proof {
                    lemma_nodes_seq_elem(model, k as int);
                }
                write_key(&ts[k], out);
                proof {
                    assert(seq![model[k as int]] + model.skip(k + 1) =~= model.skip(k as int));
                    lemma_key_children_prepend(model[k as int], model.skip(k + 1));
                    assert(out@ =~= mid + key_children(model.skip(k as int)));
                }
            }
            proof {
                assert(model.skip(0) =~= model);
                assert(out@ =~= base + key_bytes(t@));
            }
        },
    }
}

/// The canonical key of a term, as a byte vector.
pub(crate) fn key_of(t: &Combinator) -> (r: Vec<u8>)
    ensures
        r@ == key_bytes(t@),
{
    let mut out: Vec<u8> = Vec::new();
    write_key(t, &mut out);
    proof {
        assert(Seq::<u8>::empty() + key_bytes(t@) =~= key_bytes(t@));
    }
    out
}

} // verus!
