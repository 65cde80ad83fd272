use vstd::prelude::*;

verus! {

/// The nibble expansion of a byte string: high nibble first, then low nibble.
pub open spec fn nibbles_of(b: Seq<u8>) -> Seq<u8> {
    Seq::new(2 * b.len(), |i: int| if i % 2 == 0 { b[i / 2] / 16 } else { b[i / 2] % 16 })
}

/// Every element is a nibble (a value below 16).
pub open spec fn all_nibbles(n: Seq<u8>) -> bool {
    forall|i: int| 0 <= i < n.len() ==> #[trigger] n[i] < 16
}

/// Nibbles paired back into bytes, two at a time, high nibble first.
pub open spec fn pack(n: Seq<u8>) -> Seq<u8> {
    Seq::new(n.len() / 2, |i: int| (n[2 * i] * 16 + n[2 * i + 1]) as u8)
}

/// Hex-prefix encoding: a flag byte records the parity of the length; an odd
/// sequence folds its first nibble into the low bits of that flag byte.
pub open spec fn hex_prefix(n: Seq<u8>) -> Seq<u8> {
    if n.len() % 2 == 0 {
        seq![0x00u8] + pack(n)
    } else {
        seq![(0x10 + n[0]) as u8] + pack(n.skip(1))
    }
}

/// Length of the longest common prefix of `a` and `b`, counting from `i`.
pub open spec fn lcp_from(a: Seq<u8>, b: Seq<u8>, i: int) -> int
    decreases a.len() - i,
{
    if 0 <= i < a.len() && i < b.len() && a[i] == b[i] {
        lcp_from(a, b, i + 1)
    } else {
        i
    }
}

/// The longest common prefix of two sequences.
pub open spec fn common2(a: Seq<u8>, b: Seq<u8>) -> Seq<u8> {
    a.take(lcp_from(a, b, 0))
}

/// The longest common prefix of all the words, reduced pairwise from the left.
pub open spec fn common_all(ws: Seq<Seq<u8>>) -> Seq<u8>
    decreases ws.len(),
{
    if ws.len() == 0 {
        Seq::empty()
    } else if ws.len() == 1 {
        ws[0]
    } else {
        common2(common_all(ws.drop_last()), ws.last())
    }
}

/// Scanning on from a common stretch ends at the first disagreement.
pub proof fn lemma_lcp_from(a: Seq<u8>, b: Seq<u8>, i: int)
    requires
        0 <= i <= a.len(),
        i <= b.len(),
        forall|j: int| 0 <= j < i ==> a[j] == b[j],
    ensures
        i <= lcp_from(a, b, i) <= a.len(),
        lcp_from(a, b, i) <= b.len(),
        forall|j: int| 0 <= j < lcp_from(a, b, i) ==> a[j] == b[j],
        lcp_from(a, b, i) < a.len() && lcp_from(a, b, i) < b.len() ==> a[lcp_from(a, b, i)]
            != b[lcp_from(a, b, i)],
    decreases a.len() - i,
{
    if i < a.len() && i < b.len() && a[i] == b[i] {
        lemma_lcp_from(a, b, i + 1);
    }
}

/// What the longest common prefix of two sequences is made of.
pub proof fn lemma_lcp(a: Seq<u8>, b: Seq<u8>)
    ensures
        0 <= lcp_from(a, b, 0) <= a.len(),
        lcp_from(a, b, 0) <= b.len(),
        a.take(lcp_from(a, b, 0)) == b.take(lcp_from(a, b, 0)),
        lcp_from(a, b, 0) < a.len() && lcp_from(a, b, 0) < b.len() ==> a[lcp_from(a, b, 0)]
            != b[lcp_from(a, b, 0)],
        a.len() == b.len() && a != b ==> lcp_from(a, b, 0) < a.len(),
{
    lemma_lcp_from(a, b, 0);
    let m = lcp_from(a, b, 0);
    assert(a.take(m) =~= b.take(m));
    if a.len() == b.len() && m == a.len() {
        assert(a =~= b);
    }
}

/// The nibbles of a byte string are nibbles.
pub proof fn lemma_nibbles_valid(b: Seq<u8>)
    ensures
        all_nibbles(nibbles_of(b)),
        nibbles_of(b).len() == 2 * b.len(),
{
}

/// Distinct byte strings have distinct nibble expansions.
pub proof fn lemma_nibbles_injective(a: Seq<u8>, b: Seq<u8>)
    requires
        nibbles_of(a) == nibbles_of(b),
    ensures
        a == b,
{
    assert(a.len() == b.len()) by {
        assert(nibbles_of(a).len() == 2 * a.len());
    }
    assert forall|j: int| 0 <= j < a.len() implies a[j] == b[j] by {
        let x = a[j];
        let y = b[j];
        assert((2 * j) % 2 == 0 && (2 * j) / 2 == j) by (nonlinear_arith);
        assert((2 * j + 1) % 2 == 1 && (2 * j + 1) / 2 == j) by (nonlinear_arith);
        assert(nibbles_of(a)[2 * j] == x / 16);
        assert(nibbles_of(b)[2 * j] == y / 16);
        assert(nibbles_of(a)[2 * j + 1] == x % 16);
        assert(nibbles_of(b)[2 * j + 1] == y % 16);
        assert(x / 16 == y / 16 && x % 16 == y % 16);
        assert(x == 16 * (x / 16) + x % 16);
        assert(y == 16 * (y / 16) + y % 16);
    }
    assert(a =~= b);
}

/// Expands each byte into two nibbles, high nibble first.
pub fn to_nibbles(data: Vec<u8>) -> (r: Vec<u8>)
    requires
        2 * data.len() <= usize::MAX,
    ensures
        r@ == nibbles_of(data@),
{
    let mut r: Vec<u8> = Vec::with_capacity(2 * data.len());
    let mut i: usize = 0;
    while i < data.len()
        invariant
            i <= data.len(),
            2 * data.len() <= usize::MAX,
            r@ =~= nibbles_of(data@.take(i as int)),
        decreases data.len() - i,
    {
        let byte = data[i];
        r.push(byte / 16);
        r.push(byte % 16);
        proof {
            let t = data@.take(i as int + 1);
            assert forall|k: int| 0 <= k < 2 * i + 2 implies #[trigger] r@[k] == nibbles_of(t)[k] by {
                if k < 2 * i {
                    assert(k / 2 < i) by (nonlinear_arith) requires 0 <= k < 2 * i;
                    assert(nibbles_of(data@.take(i as int))[k] == nibbles_of(t)[k]);
                } else {
                    assert(k / 2 == i) by (nonlinear_arith) requires 2 * i <= k < 2 * i + 2;
                }
            }
        }
        i = i + 1;
    }
    assert(data@.take(data.len() as int) =~= data@);
    r
}

/// Hex-prefix encoding of a nibble sequence.
pub fn encode_path(nibbles: &Vec<u8>) -> (r: Vec<u8>)
    requires
        all_nibbles(nibbles@),
    ensures
        r@ == hex_prefix(nibbles@),
{
    let n = nibbles.len();
    let odd = n % 2 == 1;
    let mut r: Vec<u8> = Vec::new();
    let start: usize = if odd { 1 } else { 0 };
    if odd {
        r.push(0x10 + nibbles[0]);
    } else {
        r.push(0x00);
    }
    let ghost rest = nibbles@.skip(start as int);
    let mut i: usize = start;
    while n - i >= 2
        invariant
            start <= i <= n,
            (i - start) % 2 == 0,
            rest == nibbles@.skip(start as int),
            all_nibbles(nibbles@),
            n == nibbles@.len(),
            r@.len() == 1 + (i - start) / 2,
            r@[0] == hex_prefix(nibbles@)[0],
            forall|k: int| 0 <= k < (i - start) / 2 ==> #[trigger] r@[k + 1] == pack(rest)[k],
        decreases n - i,
    {
        let a = nibbles[i];
        let b = nibbles[i + 1];
        assert(a < 16 && b < 16);
        r.push(a * 16 + b);
        proof {
            let k = (i - start) / 2;
            assert(2 * k == i - start);
            assert(rest[2 * k] == a && rest[2 * k + 1] == b);
        }
        i = i + 2;
    }
    proof {
        assert(rest.len() / 2 == (i - start) / 2);
        let h = hex_prefix(nibbles@);
        assert(h.len() == r@.len());
        assert forall|k: int| 0 <= k < r@.len() implies r@[k] == h[k] by {
            if k > 0 {
                assert(r@[(k - 1) + 1] == pack(rest)[k - 1]);
            }
        }
        assert(r@ =~= h);
    }
    r
}

/// Length of the longest common prefix of two nibble sequences.
fn common_len(a: &Vec<u8>, b: &Vec<u8>) -> (r: usize)
    ensures
        r == lcp_from(a@, b@, 0),
{
    let mut i: usize = 0;
    while i < a.len() && i < b.len() && a[i] == b[i]
        invariant
            i <= a.len(),
            lcp_from(a@, b@, i as int) == lcp_from(a@, b@, 0),
        decreases a.len() - i,
    {
        i = i + 1;
    }
    i
}

/// The longest sequence that is a prefix of every word, reduced pairwise
/// from the left; empty when there are no words.
pub fn common_prefix(words: Vec<&Vec<u8>>) -> (r: Vec<u8>)
    ensures
        r@ == common_all(words@.map_values(|w: &Vec<u8>| w@)),
{
    let ghost ws = words@.map_values(|w: &Vec<u8>| w@);
    let mut prefix: Vec<u8> = Vec::new();
    let mut i: usize = 0;
    while i < words.len()
        invariant
            i <= words.len(),
            ws == words@.map_values(|w: &Vec<u8>| w@),
            prefix@ == common_all(ws.take(i as int)),
        decreases words.len() - i,
    {
        let word = words[i];
        proof {
            assert(ws.take(i as int + 1).drop_last() =~= ws.take(i as int));
        }
        if i == 0 {
            prefix = word.clone();
        } else {
            let m = common_len(&prefix, word);
            proof {
                lemma_lcp(prefix@, word@);
            }
            let mut next: Vec<u8> = Vec::new();
            let mut j: usize = 0;
            while j < m
                invariant
                    j <= m,
                    m <= prefix@.len(),
                    next@ =~= prefix@.take(j as int),
                decreases m - j,
            {
                next.push(prefix[j]);
                j = j + 1;
            }
            prefix = next;
        }
        i = i + 1;
    }
    assert(ws.take(words.len() as int) =~= ws);
    prefix
}

} // verus!
