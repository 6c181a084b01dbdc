use vstd::prelude::*;

verus! {

/// Lexicographic order on sequences of numbers (a proper prefix comes first).
pub open spec fn seq_lt(a: Seq<u64>, b: Seq<u64>) -> bool
    decreases a.len(),
{
    if a.len() == 0 {
        b.len() > 0
    } else if b.len() == 0 {
        false
    } else if a[0] < b[0] {
        true
    } else if a[0] > b[0] {
        false
    } else {
        seq_lt(a.drop_first(), b.drop_first())
    }
}

pub proof fn lemma_seq_lt_irreflexive(a: Seq<u64>)
    ensures
        !seq_lt(a, a),
    decreases a.len(),
{
    if a.len() > 0 {
        lemma_seq_lt_irreflexive(a.drop_first());
    }
}

pub proof fn lemma_seq_lt_transitive(a: Seq<u64>, b: Seq<u64>, c: Seq<u64>)
    requires
        seq_lt(a, b),
        seq_lt(b, c),
    ensures
        seq_lt(a, c),
    decreases a.len(),
{
    if a.len() > 0 && b.len() > 0 && c.len() > 0 {
        if a[0] == b[0] && b[0] == c[0] {
            lemma_seq_lt_transitive(a.drop_first(), b.drop_first(), c.drop_first());
        }
    }
}

pub proof fn lemma_seq_lt_total(a: Seq<u64>, b: Seq<u64>)
    ensures
        a == b || seq_lt(a, b) || seq_lt(b, a),
    decreases a.len(),
{
    if a.len() > 0 && b.len() > 0 && a[0] == b[0] {
        lemma_seq_lt_total(a.drop_first(), b.drop_first());
        if a.drop_first() == b.drop_first() {
            assert(a =~= seq![a[0]] + a.drop_first());
            assert(b =~= seq![b[0]] + b.drop_first());
        }
    } else if a.len() == 0 && b.len() == 0 {
        assert(a =~= b);
    }
}

pub proof fn lemma_seq_lt_asymmetric(a: Seq<u64>, b: Seq<u64>)
    requires
        seq_lt(a, b),
    ensures
        !seq_lt(b, a),
{
    if seq_lt(b, a) {
        lemma_seq_lt_transitive(a, b, a);
        lemma_seq_lt_irreflexive(a);
    }
}

/// `a` before `b`: smaller key, or equal keys and smaller position.
pub open spec fn keyed_lt(ka: Seq<u64>, ia: int, kb: Seq<u64>, ib: int) -> bool {
    seq_lt(ka, kb) || (ka == kb && ia < ib)
}

pub open spec fn key_views(keys: Seq<Vec<u64>>) -> Seq<Seq<u64>> {
    keys.map_values(|k: Vec<u64>| k@)
}

/// `perm` lists each position of `keys` once, in stable ascending key order.
pub open spec fn sorted_perm(perm: Seq<usize>, keys: Seq<Seq<u64>>) -> bool {
    &&& perm.len() == keys.len()
    &&& forall|i: int| 0 <= i < perm.len() ==> #[trigger] perm[i] < keys.len()
    &&& forall|i: int, j: int| 0 <= i < j < perm.len() ==> perm[i] != perm[j]
    &&& forall|i: int, j: int|
        0 <= i < j < perm.len() ==> keyed_lt(
            keys[perm[i] as int],
            perm[i] as int,
            keys[perm[j] as int],
            perm[j] as int,
        )
}

/// Whether `a` comes before `b` lexicographically.
pub fn lex_lt(a: &Vec<u64>, b: &Vec<u64>) -> (r: bool)
    ensures
        r == seq_lt(a@, b@),
{
    let mut i: usize = 0;
    proof {
        assert(a@.subrange(0, a@.len() as int) =~= a@);
        assert(b@.subrange(0, b@.len() as int) =~= b@);
        assert(a@.subrange(0, 0) =~= b@.subrange(0, 0));
    }
    while i < a.len() && i < b.len()
        invariant
            i <= a@.len(),
            i <= b@.len(),
            a@.subrange(0, i as int) == b@.subrange(0, i as int),
            seq_lt(a@, b@) == seq_lt(a@.subrange(i as int, a@.len() as int), b@.subrange(i as int, b@.len() as int)),
        decreases a@.len() - i,
    {
        let ghost ra = a@.subrange(i as int, a@.len() as int);
        let ghost rb = b@.subrange(i as int, b@.len() as int);
        if a[i] < b[i] {
            return true;
        }
        if a[i] > b[i] {
            return false;
        }
        proof {
            assert(ra.drop_first() =~= a@.subrange(i + 1, a@.len() as int));
            assert(rb.drop_first() =~= b@.subrange(i + 1, b@.len() as int));
            assert(a@.subrange(0, i + 1) =~= a@.subrange(0, i as int).push(a@[i as int]));
            assert(b@.subrange(0, i + 1) =~= b@.subrange(0, i as int).push(b@[i as int]));
        }
        i = i + 1;
    }
    i < b.len()
}

/// The positions of `keys` in stable ascending key order.
pub fn sort_perm(keys: &Vec<Vec<u64>>) -> (perm: Vec<usize>)
    ensures
        sorted_perm(perm@, key_views(keys@)),
        forall|k: usize| k < keys@.len() ==> perm@.contains(k),
{
    let ghost kv = key_views(keys@);
    let mut perm: Vec<usize> = Vec::new();
    let mut i: usize = 0;
    while i < keys.len()
        invariant
            kv == key_views(keys@),
            i <= keys@.len(),
            perm@.len() == i,
            forall|a: int| 0 <= a < perm@.len() ==> #[trigger] perm@[a] < i,
            forall|k: usize| k < i ==> perm@.contains(k),
            forall|a: int, b: int| 0 <= a < b < perm@.len() ==> perm@[a] != perm@[b],
            forall|a: int, b: int|
                0 <= a < b < perm@.len() ==> keyed_lt(
                    kv[perm@[a] as int],
                    perm@[a] as int,
                    kv[perm@[b] as int],
                    perm@[b] as int,
                ),
        decreases keys@.len() - i,
    {
        // first position whose key is larger than keys[i]
        let mut p: usize = 0;
        while p < perm.len() && !lex_lt(&keys[i], &keys[perm[p]])
            invariant
                kv == key_views(keys@),
                i < keys@.len(),
                p <= perm@.len(),
                forall|a: int| 0 <= a < perm@.len() ==> #[trigger] perm@[a] < i,
                forall|a: int| 0 <= a < p ==> !seq_lt(kv[i as int], #[trigger] kv[perm@[a] as int]),
            decreases perm@.len() - p,
        {
            p = p + 1;
        }
        let ghost old_perm = perm@;
        proof {
            assert forall|a: int| p <= a < old_perm.len() implies seq_lt(kv[i as int], #[trigger] kv[old_perm[a] as int]) by {
                if p < old_perm.len() {
                    assert(seq_lt(kv[i as int], kv[old_perm[p as int] as int]));
                    if a > p {
                        assert(keyed_lt(kv[old_perm[p as int] as int], old_perm[p as int] as int, kv[old_perm[a] as int], old_perm[a] as int));
                        if seq_lt(kv[old_perm[p as int] as int], kv[old_perm[a] as int]) {
                            lemma_seq_lt_transitive(kv[i as int], kv[old_perm[p as int] as int], kv[old_perm[a] as int]);
                        }
                    }
                }
            }
        }
        perm.insert(p, i);
        proof {
            assert forall|a: int, b: int|
                0 <= a < b < perm@.len() implies keyed_lt(
                    kv[perm@[a] as int],
                    perm@[a] as int,
                    kv[perm@[b] as int],
                    perm@[b] as int,
                ) by {
                if a < p && b == p {
                    let x = old_perm[a];
                    lemma_seq_lt_total(kv[i as int], kv[x as int]);
                } else if a == p && b > p {
                    assert(perm@[b] == old_perm[b - 1]);
                } else if a < p && b > p {
                    assert(perm@[a] == old_perm[a]);
                    assert(perm@[b] == old_perm[b - 1]);
                } else if b < p {
                    assert(perm@[a] == old_perm[a]);
                    assert(perm@[b] == old_perm[b]);
                } else {
                    assert(perm@[a] == old_perm[a - 1]);
                    assert(perm@[b] == old_perm[b - 1]);
                }
            }
            assert forall|a: int, b: int| 0 <= a < b < perm@.len() implies perm@[a] != perm@[b] by {
                if a == p {
                    assert(perm@[b] == old_perm[b - 1]);
                } else if b == p {
                    assert(perm@[a] == old_perm[a]);
                } else if a < p && b < p {
                    assert(perm@[a] == old_perm[a]);
                    assert(perm@[b] == old_perm[b]);
                } else if a < p {
                    assert(perm@[a] == old_perm[a]);
                    assert(perm@[b] == old_perm[b - 1]);
                } else {
                    assert(perm@[a] == old_perm[a - 1]);
                    assert(perm@[b] == old_perm[b - 1]);
                }
            }
            assert forall|k: usize| k < i + 1 implies perm@.contains(k) by {
                if k == i {
                    assert(perm@[p as int] == k);
                } else {
                    assert(old_perm.contains(k));
                    let b = choose|b: int| 0 <= b < old_perm.len() && old_perm[b] == k;
                    if b < p {
                        assert(perm@[b] == k);
                    } else {
                        assert(perm@[b + 1] == k);
                    }
                }
            }
            assert forall|a: int| 0 <= a < perm@.len() implies #[trigger] perm@[a] < i + 1 by {
                if a < p {
                    assert(perm@[a] == old_perm[a]);
                } else if a > p {
                    assert(perm@[a] == old_perm[a - 1]);
                }
            }
        }
        i = i + 1;
    }
    perm
}

/// The key of a piece of text: each character shifted up by one, then a zero,
/// so that the text order is kept and a proper prefix comes first.
pub open spec fn text_key(s: Seq<char>) -> Seq<u64> {
    s.map_values(|c: char| ((c as u32) as u64 + 1) as u64).push(0)
}

/// Appends `text_key(s)` to `out`.
pub fn push_text_key(out: &mut Vec<u64>, s: &[char])
    ensures
        final(out)@ == old(out)@ + text_key(s@),
{
    let ghost start = out@;
    let mut i: usize = 0;
    while i < s.len()
        invariant
            i <= s@.len(),
            out@ == start + s@.subrange(0, i as int).map_values(|c: char| ((c as u32) as u64 + 1) as u64),
        decreases s@.len() - i,
    {
        let c = s[i];
        out.push((c as u32) as u64 + 1);
        proof {
            assert(s@.subrange(0, i + 1).map_values(|c: char| ((c as u32) as u64 + 1) as u64) =~= s@.subrange(
                0,
                i as int,
            ).map_values(|c: char| ((c as u32) as u64 + 1) as u64).push(((c as u32) as u64 + 1) as u64));
        }
        i = i + 1;
    }
    out.push(0);
    proof {
        assert(s@.subrange(0, s@.len() as int) =~= s@);
        assert(out@ =~= start + text_key(s@));
    }
}

/// The key of a signed number, in the order of the numbers.
pub open spec fn i64_key(n: i64) -> u64 {
    (n as int + 0x8000_0000_0000_0000) as u64
}

pub fn i64_to_key(n: i64) -> (r: u64)
    ensures
        r == i64_key(n),
{
    if n < 0 {
        let m: i128 = n as i128 + 0x8000_0000_0000_0000i128;
        m as u64
    } else {
        (n as u64) + 0x8000_0000_0000_0000u64
    }
}

/// `keyed_lt` never holds both ways.
pub proof fn lemma_keyed_lt_asymmetric(ka: Seq<u64>, ia: int, kb: Seq<u64>, ib: int)
    requires
        keyed_lt(ka, ia, kb, ib),
    ensures
        !keyed_lt(kb, ib, ka, ia),
{
    if seq_lt(ka, kb) {
        lemma_seq_lt_asymmetric(ka, kb);
        if kb == ka {
            lemma_seq_lt_irreflexive(ka);
        }
    } else if seq_lt(kb, ka) {
        lemma_seq_lt_irreflexive(ka);
    }
}

proof fn lemma_sorted_perm_prefix(p1: Seq<usize>, p2: Seq<usize>, keys: Seq<Seq<u64>>, n: int)
    requires
        sorted_perm(p1, keys),
        sorted_perm(p2, keys),
        forall|k: usize| k < keys.len() ==> p1.contains(k),
        forall|k: usize| k < keys.len() ==> p2.contains(k),
        0 <= n <= p1.len(),
    ensures
        forall|j: int| 0 <= j < n ==> p1[j] == p2[j],
    decreases n,
{
    if n > 0 {
        lemma_sorted_perm_prefix(p1, p2, keys, n - 1);
        let p = n - 1;
        let a = p1[p];
        let b = p2[p];
        if a != b {
            assert(a < keys.len());
            assert(b < keys.len());
            assert(p2.contains(a));
            let qa = choose|q: int| 0 <= q < p2.len() && p2[q] == a;
            assert(p1.contains(b));
            let qb = choose|q: int| 0 <= q < p1.len() && p1[q] == b;
            if qb < p {
                assert(p1[qb] == p2[qb]);
                assert(p2[qb] != p2[p]);
            }
            if qa < p {
                assert(p1[qa] == p2[qa]);
                assert(p1[qa] != p1[p]);
            }
            assert(qb != p);
            assert(qa != p);
            assert(keyed_lt(keys[p1[p] as int], p1[p] as int, keys[p1[qb] as int], p1[qb] as int));
            assert(keyed_lt(keys[p2[p] as int], p2[p] as int, keys[p2[qa] as int], p2[qa] as int));
            lemma_keyed_lt_asymmetric(keys[a as int], a as int, keys[b as int], b as int);
        }
    }
}

/// There is one stable sorting order: two sorted orders of the same keys
/// that list every position are equal.
pub proof fn lemma_sorted_perm_unique(p1: Seq<usize>, p2: Seq<usize>, keys: Seq<Seq<u64>>)
    requires
        sorted_perm(p1, keys),
        sorted_perm(p2, keys),
        forall|k: usize| k < keys.len() ==> p1.contains(k),
        forall|k: usize| k < keys.len() ==> p2.contains(k),
    ensures
        p1 == p2,
{
    lemma_sorted_perm_prefix(p1, p2, keys, p1.len() as int);
    assert(p1 =~= p2);
}

} // verus!
