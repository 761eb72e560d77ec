use ski::BitWriter;
use ski::Combinator;

fn s() -> Combinator {
    Combinator::S
}

fn k() -> Combinator {
    Combinator::K
}

#[test]
fn bitwriter_packs_msb_first() {
    let mut w = BitWriter::new();
    w.emit_bit(true);
    w.emit_bit(false);
    w.emit_bit(true);
    assert_eq!(w.finish(), vec![0b1010_0000]);

    let mut w2 = BitWriter::new();
    for _ in 0..8 {
        w2.emit_bit(true);
    }
    w2.emit_bit(true);
    assert_eq!(w2.finish(), vec![0xFF, 0b1000_0000]);

    let w3 = BitWriter::new();
    assert_eq!(w3.finish(), Vec::<u8>::new());
}

#[test]
fn leaf_encodings() {
    // K -> 00, S -> 01, padded with zeros.
    assert_eq!(k().bcl(), vec![0b0000_0000]);
    assert_eq!(s().bcl(), vec![0b0100_0000]);
}

#[test]
fn application_gets_arity_prefix() {
    // S K: one application bit, then S (01), then K (00): 1 01 00 -> 10100000.
    assert_eq!(s().of(&k()).bcl(), vec![0b1010_0000]);
    // S K K: two arity bits, then S, K, K: 11 01 00 00 -> 11010000 padded.
    assert_eq!(s().of(&k()).of(&k()).bcl(), vec![0b1101_0000]);
}

#[test]
fn alias_encodes_as_its_definition() {
    let skk = s().of(&k()).of(&k());
    let named = Combinator::Named("I", Box::new(skk.duplicate()));
    assert_eq!(named.bcl(), skk.bcl());
}

#[test]
fn encoding_is_deterministic() {
    let t = s().of(&k().of(&s())).of(&k()).of(&s().of(&k()));
    assert_eq!(t.bcl(), t.bcl());
    assert_eq!(t.duplicate().bcl(), t.bcl());
}

#[test]
fn encodings_of_distinct_terms_are_pairwise_distinct() {
    // A corpus of structurally distinct closed terms: two leaves, then all
    // applications x.of(y) drawn from ever larger pools.
    let mut pool: Vec<Combinator> = vec![s(), k()];
    let mut prev = 0;
    let mut round = 0;
    while pool.len() < 120 && round < 3 {
        let base = pool.len();
        for a in 0..base {
            for b in 0..base {
                if a < prev && b < prev {
                    continue;
                }
                if pool.len() >= 120 {
                    break;
                }
                let t = pool[a].of(&pool[b]);
                pool.push(t);
            }
        }
        prev = base;
        round += 1;
    }
    assert!(pool.len() >= 100, "corpus too small: {}", pool.len());
    let encodings: Vec<Vec<u8>> = pool.iter().map(|t| t.bcl()).collect();
    for p in 0..encodings.len() {
        for q in (p + 1)..encodings.len() {
            assert_ne!(
                encodings[p], encodings[q],
                "collision between term {} and term {}: {} vs {}",
                p, q,
                pool[p].display(),
                pool[q].display()
            );
        }
    }
    // Re-encoding the same terms yields byte-identical output.
    for (t, e) in pool.iter().zip(encodings.iter()) {
        assert_eq!(&t.bcl(), e);
    }
}

#[test]
fn encodings_with_variables_stay_distinct() {
    // The two-bit scheme leaves the prefix `10` to free variables; their
    // encodings stay distinct from one another and from small terms built
    // over `S`, `K` and variables.
    fn v(c: char) -> Combinator {
        Combinator::Var(c)
    }
    let mut pool: Vec<Combinator> = vec![s(), k(), v('a'), v('b'), v('z')];
    let mut prev = 0;
    let mut round = 0;
    while pool.len() < 120 && round < 3 {
        let base = pool.len();
        for a in 0..base {
            for b in 0..base {
                if a < prev && b < prev {
                    continue;
                }
                if pool.len() >= 120 {
                    break;
                }
                let t = pool[a].of(&pool[b]);
                pool.push(t);
            }
        }
        prev = base;
        round += 1;
    }
    assert!(pool.len() >= 100, "corpus too small: {}", pool.len());
    let encodings: Vec<Vec<u8>> = pool.iter().map(|t| t.bcl()).collect();
    for p in 0..encodings.len() {
        for q in (p + 1)..encodings.len() {
            assert_ne!(
                encodings[p], encodings[q],
                "collision between {} and {}",
                pool[p].display(),
                pool[q].display()
            );
        }
    }
}
