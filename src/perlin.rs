use vstd::multiset::Multiset;
use vstd::prelude::*;
use vstd::seq_lib::group_to_multiset_ensures;

use crate::aabb::Coords;
use crate::rng::random_below;

verus! {

broadcast use group_to_multiset_ensures;

/// Size of the lattice tables.
pub const TABLE_SIZE: usize = 256;

/// The values `0..n`, each once.
pub open spec fn indices_below(n: nat) -> Multiset<usize> {
    Seq::new(n, |k: int| k as usize).to_multiset()
}

/// `p` is a permutation of `0..256`.
pub open spec fn is_table_permutation(p: Seq<usize>) -> bool {
    p.to_multiset() == indices_below(TABLE_SIZE as nat)
}

/// The slots `0..256` in order.
pub open spec fn identity_table() -> Seq<usize> {
    Seq::new(TABLE_SIZE as nat, |k: int| k as usize)
}

/// `s` with the entries at `i` and `j` exchanged.
pub open spec fn swapped(s: Seq<usize>, i: int, j: int) -> Seq<usize> {
    s.update(i, s[j]).update(j, s[i])
}

/// Fisher-Yates on the first `m` entries of `s`: slot `m - 1` is exchanged
/// with slot `draws[m - 1]`, then the first `m - 1` entries are shuffled.
pub open spec fn fisher_yates(s: Seq<usize>, draws: Seq<usize>, m: int) -> Seq<usize>
    decreases m,
{
    if m <= 0 {
        s
    } else {
        fisher_yates(swapped(s, m - 1, draws[m - 1] as int), draws, m - 1)
    }
}

/// Fisher-Yates keeps the length, the multiset of entries, and every entry
/// past the shuffled prefix.
proof fn lemma_fisher_yates_keeps(s: Seq<usize>, draws: Seq<usize>, m: int)
    requires
        0 <= m <= s.len(),
        m <= draws.len(),
        forall|k: int| 0 <= k < m ==> draws[k] <= k,
    ensures
        fisher_yates(s, draws, m).len() == s.len(),
        fisher_yates(s, draws, m).to_multiset() == s.to_multiset(),
        forall|k: int| m <= k < s.len() ==> fisher_yates(s, draws, m)[k] == s[k],
    decreases m,
{
    if m > 0 {
        let i = m - 1;
        let j = draws[m - 1] as int;
        let s1 = s.update(i, s[j]);
        let t = swapped(s, i, j);
        assert(s1.to_multiset() == s.to_multiset().insert(s[j]).remove(s[i]));
        assert(t.to_multiset() == s1.to_multiset().insert(s[i]).remove(s1[j]));
        assert(s.contains(s[j]));
        assert(t.to_multiset() =~= s.to_multiset());
        lemma_fisher_yates_keeps(t, draws, m - 1);
        assert forall|k: int| m <= k < s.len() implies fisher_yates(s, draws, m)[k] == s[k] by {
            assert(t[k] == s[k]);
        }
    }
}

/// `n` draws, the `k`-th taken at random from `0..=k`.
fn random_draws(n: usize) -> (d: Vec<usize>)
    ensures
        d.len() == n,
        forall|k: int| 0 <= k < n ==> d[k] <= k,
{
    let mut d: Vec<usize> = Vec::new();
    let mut k: usize = 0;
    while k < n
        invariant
            k <= n,
            d.len() == k,
            forall|q: int| 0 <= q < k ==> d[q] <= q,
        decreases n - k,
    {
        d.push(random_below(k + 1));
        k = k + 1;
    }
    d
}

/// Lattice tables of Perlin noise: one gradient vector per slot, and a
/// permutation of the slots for each axis.
pub struct Perlin {
    pub ranvec: Vec<Coords>,
    pub perm_x: Vec<usize>,
    pub perm_y: Vec<usize>,
    pub perm_z: Vec<usize>,
}

/// A value below 256 has no bits above the low eight.
proof fn lemma_below_table(a: usize, b: usize, c: usize)
    requires
        a < 256,
        b < 256,
        c < 256,
    ensures
        a ^ b ^ c < 256,
{
    assert(a < 256 && b < 256 && c < 256 ==> a ^ b ^ c < 256) by (bit_vector);
}

/// A permutation of `0..256` has 256 elements.
proof fn lemma_permutation_len(p: Seq<usize>)
    requires
        is_table_permutation(p),
    ensures
        p.len() == TABLE_SIZE,
{
    let s = Seq::new(TABLE_SIZE as nat, |k: int| k as usize);
    assert(p.to_multiset().len() == p.len());
    assert(s.to_multiset().len() == s.len());
}

/// Every element of a permutation of `0..256` is below 256.
proof fn lemma_permutation_bounded(p: Seq<usize>, k: int)
    requires
        is_table_permutation(p),
        0 <= k < p.len(),
    ensures
        p[k] < TABLE_SIZE,
{
    let x = p[k];
    assert(p.contains(x));
    assert(p.to_multiset().count(x) > 0);
    let s = Seq::new(TABLE_SIZE as nat, |k: int| k as usize);
    assert(s.to_multiset().count(x) > 0);
    assert(s.contains(x));
}

impl Perlin {
    pub open spec fn wf(&self) -> bool {
        &&& self.ranvec.len() == TABLE_SIZE
        &&& is_table_permutation(self.perm_x@)
        &&& is_table_permutation(self.perm_y@)
        &&& is_table_permutation(self.perm_z@)
    }

    /// Tables with the given gradients and three freshly shuffled
    /// permutations.
    pub fn new(ranvec: Vec<Coords>) -> (r: Perlin)
        requires
            ranvec.len() == TABLE_SIZE,
        ensures
            r.wf(),
            r.ranvec@ == ranvec@,
    {
        Perlin {
            ranvec,
            perm_x: Perlin::perlin_generate_perm(),
            perm_y: Perlin::perlin_generate_perm(),
            perm_z: Perlin::perlin_generate_perm(),
        }
    }

    /// Shuffles the first `n` entries of `p` by Fisher-Yates with the given
    /// draws: for each slot `m - 1` from the last down, swaps it with slot
    /// `draws[m - 1]`, which is at or below it.
    pub fn permute_with(p: &mut Vec<usize>, n: usize, draws: &Vec<usize>)
        requires
            n <= old(p).len(),
            draws.len() == n,
            forall|k: int| 0 <= k < n ==> draws[k] <= k,
        ensures
            final(p)@ == fisher_yates(old(p)@, draws@, n as int),
            final(p).len() == old(p).len(),
            final(p)@.to_multiset() == old(p)@.to_multiset(),
            forall|k: int| n <= k < old(p).len() ==> final(p)[k] == old(p)[k],
    {
        proof {
            lemma_fisher_yates_keeps(old(p)@, draws@, n as int);
        }
        let mut i: usize = n;
        while i > 0
            invariant
                i <= n <= p.len(),
                p.len() == old(p).len(),
                draws.len() == n,
                forall|k: int| 0 <= k < n ==> draws[k] <= k,
                fisher_yates(p@, draws@, i as int) == fisher_yates(old(p)@, draws@, n as int),
            decreases i,
        {
            i = i - 1;
            let target = draws[i];
            let a = p[i];
            let b = p[target];
            p.set(i, b);
            p.set(target, a);
        }
    }

    /// Shuffles the first `n` entries of `p` by Fisher-Yates, with slots
    /// drawn at random.
    pub fn permute(p: &mut Vec<usize>, n: usize)
        requires
            n <= old(p).len(),
        ensures
            exists|draws: Seq<usize>|
                #![trigger fisher_yates(old(p)@, draws, n as int)]
                draws.len() == n && (forall|k: int| 0 <= k < n ==> draws[k] <= k) && final(p)@ == fisher_yates(
                    old(p)@,
                    draws,
                    n as int,
                ),
            final(p).len() == old(p).len(),
            final(p)@.to_multiset() == old(p)@.to_multiset(),
            forall|k: int| n <= k < old(p).len() ==> final(p)[k] == old(p)[k],
    {
        let draws = random_draws(n);
        Perlin::permute_with(p, n, &draws);
    }

    /// The permutation of `0..256` that Fisher-Yates makes with the given
    /// draws.
    pub fn perlin_generate_perm_with(draws: &Vec<usize>) -> (r: Vec<usize>)
        requires
            draws.len() == TABLE_SIZE,
            forall|k: int| 0 <= k < TABLE_SIZE ==> draws[k] <= k,
        ensures
            r@ == fisher_yates(identity_table(), draws@, TABLE_SIZE as int),
            is_table_permutation(r@),
            r.len() == TABLE_SIZE,
    {
        let mut p: Vec<usize> = Vec::new();
        let mut i: usize = 0;
        while i < TABLE_SIZE
            invariant
                i <= TABLE_SIZE,
                p@ == Seq::new(i as nat, |k: int| k as usize),
            decreases TABLE_SIZE - i,
        {
            p.push(i);
            proof {
                assert(p@ == Seq::new((i + 1) as nat, |k: int| k as usize));
            }
            i = i + 1;
        }
        proof {
            assert(p@ == identity_table());
        }
        Perlin::permute_with(&mut p, TABLE_SIZE, draws);
        p
    }

    /// A random permutation of `0..256`, made by Fisher-Yates.
    pub fn perlin_generate_perm() -> (r: Vec<usize>)
        ensures
            exists|draws: Seq<usize>|
                #![trigger fisher_yates(identity_table(), draws, TABLE_SIZE as int)]
                draws.len() == TABLE_SIZE && (forall|k: int| 0 <= k < TABLE_SIZE ==> draws[k] <= k) && r@
                    == fisher_yates(identity_table(), draws, TABLE_SIZE as int),
            is_table_permutation(r@),
            r.len() == TABLE_SIZE,
    {
        let draws = random_draws(TABLE_SIZE);
        Perlin::perlin_generate_perm_with(&draws)
    }

    /// Slot of the gradient at lattice corner `(i, j, k)`, with the
    /// coordinates taken modulo 256.
    pub open spec fn spec_corner_slot(&self, i: int, j: int, k: int) -> usize {
        self.perm_x[i % 256] ^ self.perm_y[j % 256] ^ self.perm_z[k % 256]
    }

    /// The gradient vector at the lattice corner `(i + di, j + dj, k + dk)`
    /// of the cell whose lowest corner is `(i, j, k)`.
    pub fn corner_gradient(&self, i: usize, j: usize, k: usize, di: usize, dj: usize, dk: usize) -> (r: Coords)
        requires
            self.wf(),
            di <= 1,
            dj <= 1,
            dk <= 1,
        ensures
            self.spec_corner_slot(i + di, j + dj, k + dk) < TABLE_SIZE,
            r == self.ranvec[self.spec_corner_slot(i + di, j + dj, k + dk) as int],
    {
        let x = wrap_table(i, di);
        let y = wrap_table(j, dj);
        let z = wrap_table(k, dk);
        proof {
            lemma_permutation_len(self.perm_x@);
            lemma_permutation_len(self.perm_y@);
            lemma_permutation_len(self.perm_z@);
            lemma_permutation_bounded(self.perm_x@, x as int);
            lemma_permutation_bounded(self.perm_y@, y as int);
            lemma_permutation_bounded(self.perm_z@, z as int);
            lemma_below_table(self.perm_x[x as int], self.perm_y[y as int], self.perm_z[z as int]);
        }
        let slot = self.perm_x[x] ^ self.perm_y[y] ^ self.perm_z[z];
        self.ranvec[slot]
    }
}

/// `(a + d) mod 256`, without overflow.
fn wrap_table(a: usize, d: usize) -> (r: usize)
    requires
        d <= 1,
    ensures
        r == (a + d) % 256,
        r < 256,
{
    let low = a & 255;
    assert((a & 255) == a % 256) by (bit_vector);
    let s = low + d;
    assert(s <= 256 ==> (s & 255) == s % 256) by (bit_vector);
    assert((a % 256 + d) % 256 == (a + d) % 256) by (nonlinear_arith)
        requires
            d <= 1;
    s & 255
}

} // verus!
