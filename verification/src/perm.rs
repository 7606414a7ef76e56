use vstd::prelude::*;
use vstd::string::StrSliceExecFns;

use crate::matrix::SqMat;
use crate::text::{
    all_digits, digit_val, digits_val, has_prefix, is_digit, is_ws, lemma_digits_val_mono,
    lemma_trim_back_take, lemma_trim_front_skip, split_rec, token_body, token_ok, token_val,
    token_vals, tokens_spec, trim_spec,
};

verus! {

broadcast use crate::matrix::SqMat::lemma_grid_shape;

/// A zero-indexed permutation on the natural numbers.
pub struct Perm {
    inner: Vec<usize>,
}

/// `s` is a bijection onto `0..s.len()`: every entry is below the
/// length and no entry repeats.
pub open spec fn is_perm(s: Seq<usize>) -> bool {
    &&& forall|i: int| 0 <= i < s.len() ==> #[trigger] s[i] < s.len()
    &&& forall|i: int, j: int| 0 <= i < j < s.len() ==> s[i] != s[j]
}

/// The number of entries of `s` strictly below `v` at positions `j` and
/// beyond.
pub open spec fn count_lt_from(s: Seq<usize>, v: usize, j: int) -> nat
    decreases s.len() - j,
{
    if j < 0 || j >= s.len() {
        0
    } else {
        (if s[j] < v {
            1nat
        } else {
            0nat
        }) + count_lt_from(s, v, j + 1)
    }
}

/// The number of entries of `s` strictly below `v` at positions before `j`.
pub open spec fn count_lt_upto(s: Seq<usize>, v: usize, j: int) -> nat
    decreases j,
{
    if j <= 0 || j > s.len() {
        0
    } else {
        count_lt_upto(s, v, j - 1) + (if s[j - 1] < v {
            1nat
        } else {
            0nat
        })
    }
}

/// Entry `i` of the Lehmer code: the number of later entries smaller
/// than entry `i`.
pub open spec fn lehmer_at(s: Seq<usize>, i: int) -> nat {
    count_lt_from(s, s[i], i + 1)
}

/// The sum of the first `i` Lehmer code entries.
pub open spec fn lehmer_sum_upto(s: Seq<usize>, i: int) -> nat
    decreases i,
{
    if i <= 0 {
        0
    } else {
        lehmer_sum_upto(s, i - 1) + lehmer_at(s, i - 1)
    }
}

/// The sum of the Lehmer code of `s`: its Coxeter length.
pub open spec fn lehmer_sum(s: Seq<usize>) -> nat {
    lehmer_sum_upto(s, s.len() as int)
}

/// The Lehmer code of `s` as a sequence.
pub open spec fn lehmer_seq(s: Seq<usize>) -> Seq<usize> {
    Seq::new(s.len(), |m: int| lehmer_at(s, m) as usize)
}

/// `s` read back to front.
pub open spec fn rev_seq(s: Seq<usize>) -> Seq<usize> {
    Seq::new(s.len(), |i: int| s[s.len() - 1 - i])
}

/// The number of entries of `s` strictly above `v` at positions before `j`.
pub open spec fn count_gt_upto(s: Seq<usize>, v: usize, j: int) -> nat
    decreases j,
{
    if j <= 0 || j > s.len() {
        0
    } else {
        count_gt_upto(s, v, j - 1) + (if s[j - 1] > v {
            1nat
        } else {
            0nat
        })
    }
}

/// The inversions of `s` counted by their right end, from position `m` on:
/// the sum over `k >= m` of the entries before `k` that are below `s[k]`.
pub open spec fn colehmer_sum_from(s: Seq<usize>, m: int) -> nat
    decreases s.len() - m,
{
    if m < 0 || m >= s.len() {
        0
    } else {
        count_lt_upto(s, s[m], m) + colehmer_sum_from(s, m + 1)
    }
}

/// The `n`-th triangular number: the number of pairs among `n` items.
pub open spec fn tri(n: nat) -> nat
    decreases n,
{
    if n == 0 {
        0
    } else {
        tri((n - 1) as nat) + ((n - 1) as nat)
    }
}

/// At most `s.len() - j` entries at positions `j` and beyond are below `v`.
pub proof fn lemma_count_lt_from_bound(s: Seq<usize>, v: usize, j: int)
    requires
        0 <= j <= s.len(),
    ensures
        count_lt_from(s, v, j) <= s.len() - j,
    decreases s.len() - j,
{
    if j < s.len() {
        lemma_count_lt_from_bound(s, v, j + 1);
    }
}

/// No entry at or after `j` is below `v`, so none is counted.
pub proof fn lemma_count_lt_from_zero(s: Seq<usize>, v: usize, j: int)
    requires
        forall|k: int| j <= k < s.len() ==> #[trigger] s[k] >= v,
    ensures
        count_lt_from(s, v, j) == 0,
    decreases s.len() - j,
{
    if 0 <= j < s.len() {
        lemma_count_lt_from_zero(s, v, j + 1);
    }
}

/// Dropping the last entry removes its contribution to `count_lt_from`.
proof fn lemma_count_lt_from_drop_last(s: Seq<usize>, v: usize, j: int)
    requires
        s.len() >= 1,
        0 <= j <= s.len(),
    ensures
        count_lt_from(s, v, j) == count_lt_from(s.drop_last(), v, j) + (if j <= s.len() - 1
            && s[s.len() - 1] < v {
            1nat
        } else {
            0nat
        }),
    decreases s.len() - j,
{
    if j < s.len() {
        lemma_count_lt_from_drop_last(s, v, j + 1);
    }
}

/// A prefix that avoids the last entry counts alike with and without it.
proof fn lemma_count_lt_upto_drop_last(s: Seq<usize>, v: usize, j: int)
    requires
        0 <= j <= s.len() - 1,
    ensures
        count_lt_upto(s, v, j) == count_lt_upto(s.drop_last(), v, j),
    decreases j,
{
    if j > 0 {
        lemma_count_lt_upto_drop_last(s, v, j - 1);
    }
}

/// Among entries all different from `v`, each is below or above it.
proof fn lemma_count_split(s: Seq<usize>, v: usize, j: int)
    requires
        0 <= j <= s.len(),
        forall|k: int| 0 <= k < j ==> #[trigger] s[k] != v,
    ensures
        count_lt_upto(s, v, j) + count_gt_upto(s, v, j) == j,
    decreases j,
{
    if j > 0 {
        lemma_count_split(s, v, j - 1);
    }
}

/// Dropping the last entry removes, from each Lehmer entry, its
/// comparison against the dropped value.
proof fn lemma_lehmer_sum_drop(s: Seq<usize>, i: int)
    requires
        s.len() >= 1,
        0 <= i <= s.len() - 1,
    ensures
        lehmer_sum_upto(s, i) == lehmer_sum_upto(s.drop_last(), i) + count_gt_upto(
            s,
            s[s.len() - 1],
            i,
        ),
    decreases i,
{
    if i > 0 {
        lemma_lehmer_sum_drop(s, i - 1);
        lemma_count_lt_from_drop_last(s, s[i - 1], i);
        assert(s.drop_last()[i - 1] == s[i - 1]);
    }
}

/// Dropping the last entry removes exactly its own inversion count.
proof fn lemma_colehmer_drop(s: Seq<usize>, m: int)
    requires
        s.len() >= 1,
        0 <= m <= s.len() - 1,
    ensures
        colehmer_sum_from(s, m) == colehmer_sum_from(s.drop_last(), m) + count_lt_upto(
            s,
            s[s.len() - 1],
            s.len() - 1,
        ),
    decreases s.len() - m,
{
    let n = s.len() as int;
    let t = s.drop_last();
    if m == n - 1 {
        assert(colehmer_sum_from(t, m) == 0);
        assert(colehmer_sum_from(s, m) == count_lt_upto(s, s[n - 1], n - 1) + colehmer_sum_from(
            s,
            n,
        ));
        assert(colehmer_sum_from(s, n) == 0);
    } else {
        lemma_colehmer_drop(s, m + 1);
        lemma_count_lt_upto_drop_last(s, s[m], m);
        assert(t[m] == s[m]);
        assert(colehmer_sum_from(s, m) == count_lt_upto(s, s[m], m) + colehmer_sum_from(s, m + 1));
        assert(colehmer_sum_from(t, m) == count_lt_upto(t, t[m], m) + colehmer_sum_from(t, m + 1));
    }
}

/// For a sequence of pairwise distinct entries, counting inversions by
/// the left end and non-inversions by the right end together covers
/// every pair exactly once.
proof fn lemma_pair_count(s: Seq<usize>)
    requires
        forall|a: int, b: int| 0 <= a < b < s.len() ==> s[a] != s[b],
    ensures
        lehmer_sum(s) + colehmer_sum_from(s, 0) == tri(s.len()),
    decreases s.len(),
{
    if s.len() == 0 {
    } else {
        let n = s.len() as int;
        let z = s[n - 1];
        let t = s.drop_last();
        lemma_pair_count(t);
        assert(lehmer_at(s, n - 1) == 0) by {
            assert(count_lt_from(s, s[n - 1], n) == 0);
        }
        assert(lehmer_sum(s) == lehmer_sum_upto(s, n - 1) + lehmer_at(s, n - 1));
        lemma_lehmer_sum_drop(s, n - 1);
        assert(lehmer_sum_upto(t, n - 1) == lehmer_sum(t));
        lemma_colehmer_drop(s, 0);
        assert(forall|k: int| 0 <= k < n - 1 ==> #[trigger] s[k] != z);
        lemma_count_split(s, z, n - 1);
        assert(tri(s.len()) == tri(t.len()) + (n - 1));
    }
}

/// Counting below `v` in the tail of the reversal is counting below `v`
/// in a prefix of the original.
proof fn lemma_count_lt_from_rev(s: Seq<usize>, v: usize, j: int)
    requires
        0 <= j <= s.len(),
    ensures
        count_lt_from(rev_seq(s), v, j) == count_lt_upto(s, v, s.len() - j),
    decreases s.len() - j,
{
    if j < s.len() {
        lemma_count_lt_from_rev(s, v, j + 1);
    }
}

/// The Lehmer entries of the reversal sum to the right-end inversion
/// counts of the original.
proof fn lemma_lehmer_rev_sum(s: Seq<usize>, i: int)
    requires
        0 <= i <= s.len(),
    ensures
        lehmer_sum_upto(rev_seq(s), i) == colehmer_sum_from(s, s.len() - i),
    decreases i,
{
    if i > 0 {
        let q = rev_seq(s);
        let n = s.len() as int;
        lemma_lehmer_rev_sum(s, i - 1);
        lemma_count_lt_from_rev(s, q[i - 1], i);
        assert(lehmer_at(q, i - 1) == count_lt_upto(s, s[n - i], n - i));
        assert(colehmer_sum_from(s, n - i) == count_lt_upto(s, s[n - i], n - i)
            + colehmer_sum_from(s, n - i + 1));
    }
}

/// The Coxeter lengths of a sequence of distinct entries and of its
/// reversal sum to the number of pairs: every pair is an inversion of
/// exactly one of the two.
pub proof fn lemma_lehmer_sum_reverse(s: Seq<usize>)
    requires
        forall|a: int, b: int| 0 <= a < b < s.len() ==> s[a] != s[b],
    ensures
        lehmer_sum(s) + lehmer_sum(rev_seq(s)) == tri(s.len()),
{
    lemma_lehmer_rev_sum(s, s.len() as int);
    assert(lehmer_sum(rev_seq(s)) == lehmer_sum_upto(rev_seq(s), s.len() as int));
    lemma_pair_count(s);
}

impl View for Perm {
    type V = Seq<usize>;

    closed spec fn view(&self) -> Seq<usize> {
        self.inner@
    }
}

impl Perm {
    /// The stored entries form a permutation.
    pub open spec fn wf(&self) -> bool {
        is_perm(self@)
    }

    /// Create a permutation from a slice, validating that it is a
    /// bijection onto `0..v.len()`; `None` exactly on invalid input.
    pub fn new(v: &[usize]) -> (r: Option<Self>)
        ensures
            r is Some <==> is_perm(v@),
            r is Some ==> r->Some_0@ == v@ && r->Some_0.wf(),
    {
        let n = v.len();
        let mut seen: Vec<bool> = Vec::new();
        let mut k: usize = 0;
        while k < n
            invariant
                seen@.len() == k,
                k <= n,
                forall|m: int| 0 <= m < k ==> !(#[trigger] seen@[m]),
            decreases n - k,
        {
            seen.push(false);
            k += 1;
        }
        let mut i: usize = 0;
        while i < n
            invariant
                n == v@.len(),
                seen@.len() == n,
                i <= n,
                forall|m: int| 0 <= m < i ==> #[trigger] v@[m] < n,
                forall|w: int| 0 <= w < n ==> (#[trigger] seen@[w] <==> exists|m: int|
                    0 <= m < i && v@[m] == w),
                forall|a: int, b: int| 0 <= a < b < i ==> v@[a] != v@[b],
            decreases n - i,
        {
            let x = v[i];
            if x >= n {
                proof {
                    assert(!is_perm(v@));
                }
                return None;
            }
            if seen[x] {
                proof {
                    let m = choose|m: int| 0 <= m < i && v@[m] == x;
                    assert(v@[m] == v@[i as int]);
                    assert(!is_perm(v@));
                }
                return None;
            }
            seen[x] = true;
            proof {
                assert forall|a: int, b: int| 0 <= a < b < i + 1 implies v@[a] != v@[b] by {
                    if b == i && v@[a] == v@[b] {
                        assert(exists|m: int| 0 <= m < i && v@[m] == x as int);
                    }
                }
            }
            i += 1;
        }
        proof {
            assert(is_perm(v@));
        }
        Some(Self { inner: vstd::slice::slice_to_vec(v) })
    }

    /// The length of the permutation.
    pub fn len(&self) -> (r: usize)
        ensures
            r == self@.len(),
    {
        self.inner.len()
    }

    /// The entry at position `i`.
    pub fn at(&self, i: usize) -> (r: usize)
        requires
            i < self@.len(),
        ensures
            r == self@[i as int],
    {
        self.inner[i]
    }

    /// The permutation entries, in array order.
    pub fn iter(&self) -> (r: Vec<usize>)
        ensures
            r@ == self@,
    {
        vstd::slice::slice_to_vec(self.inner.as_slice())
    }

    /// An independent copy of the permutation.
    pub fn duplicate(&self) -> (r: Self)
        ensures
            r@ == self@,
    {
        Self { inner: vstd::slice::slice_to_vec(self.inner.as_slice()) }
    }

    /// The Lehmer code: entry `i` counts the positions `j > i` with
    /// `self[j] < self[i]`.
    pub fn lehmer(&self) -> (r: Vec<usize>)
        ensures
            r@.len() == self@.len(),
            forall|i: int| 0 <= i < self@.len() ==> #[trigger] r@[i] == lehmer_at(self@, i),
    {
        let n = self.inner.len();
        let mut r: Vec<usize> = Vec::new();
        let mut i: usize = 0;
        while i < n
            invariant
                n == self@.len(),
                i <= n,
                r@.len() == i,
                forall|m: int| 0 <= m < i ==> #[trigger] r@[m] == lehmer_at(self@, m),
            decreases n - i,
        {
            let v = self.inner[i];
            let mut cnt: usize = 0;
            let mut j: usize = i + 1;
            proof {
                lemma_count_lt_from_bound(self@, v, i + 1);
            }
            while j < n
                invariant
                    n == self@.len(),
                    i < n,
                    v == self@[i as int],
                    i + 1 <= j <= n,
                    cnt + count_lt_from(self@, v, j as int) == lehmer_at(self@, i as int),
                    lehmer_at(self@, i as int) <= n,
                decreases n - j,
            {
                if self.inner[j] < v {
                    cnt += 1;
                }
                j += 1;
            }
            r.push(cnt);
            i += 1;
        }
        r
    }

    /// The longest permutation of length `n`: `n-1, n-2, ..., 0`.
    pub fn long(n: usize) -> (r: Self)
        ensures
            r@.len() == n,
            forall|i: int| 0 <= i < n ==> #[trigger] r@[i] == n - 1 - i,
            r.wf(),
    {
        let mut inner: Vec<usize> = Vec::new();
        let mut i: usize = 0;
        while i < n
            invariant
                i <= n,
                inner@.len() == i,
                forall|m: int| 0 <= m < i ==> #[trigger] inner@[m] == n - 1 - m,
            decreases n - i,
        {
            inner.push(n - 1 - i);
            i += 1;
        }
        Self { inner }
    }

    /// Compose with another permutation of the same length: entry `i` of
    /// the result is `self[other[i]]`.
    pub fn compose_with(&self, other: &Self) -> (r: Self)
        requires
            self.wf(),
            other.wf(),
            self@.len() == other@.len(),
        ensures
            r@.len() == self@.len(),
            forall|i: int| 0 <= i < self@.len() ==> #[trigger] r@[i] == self@[other@[i] as int],
            r.wf(),
    {
        let n = self.inner.len();
        let mut inner: Vec<usize> = Vec::new();
        let mut i: usize = 0;
        while i < n
            invariant
                self.wf(),
                other.wf(),
                n == self@.len() && n == other@.len(),
                i <= n,
                inner@.len() == i,
                forall|m: int| 0 <= m < i ==> #[trigger] inner@[m] == self@[other@[m] as int],
            decreases n - i,
        {
            inner.push(self.inner[other.inner[i]]);
            i += 1;
        }
        let r = Self { inner };
        proof {
            assert forall|a: int, b: int| 0 <= a < b < n implies r@[a] != r@[b] by {
                if r@[a] == r@[b] {
                    assert(self@[other@[a] as int] == self@[other@[b] as int]);
                    assert(other@[a] != other@[b]);
                    let x = other@[a] as int;
                    let y = other@[b] as int;
                    if x < y {
                        assert(self@[x] != self@[y]);
                    } else {
                        assert(self@[y] != self@[x]);
                    }
                }
            }
        }
        r
    }

    /// Render as `[a, b, c]`: comma-space separated, zero-indexed
    /// values, in array order.
    pub fn to_text(&self) -> (r: String)
        ensures
            r@ == crate::text::perm_text(self@),
    {
        let n = self.inner.len();
        proof {
            reveal_strlit("[");
        }
        let mut s = "[".to_owned();
        proof {
            assert(s@ =~= seq!['['] + crate::text::join_vals(self@, 0));
        }
        let mut i: usize = 0;
        while i < n
            invariant
                n == self@.len(),
                i <= n,
                s@ == seq!['['] + crate::text::join_vals(self@, i as int),
            decreases n - i,
        {
            if i > 0 {
                proof {
                    reveal_strlit(", ");
                }
                s.append(", ");
            }
            let num = crate::text::usize_to_string(self.inner[i]);
            s.append(num.as_str());
            proof {
                if i == 0 {
                    assert(s@ =~= seq!['['] + crate::text::join_vals(self@, 1));
                } else {
                    assert(s@ =~= seq!['['] + (crate::text::join_vals(self@, i as int) + seq![
                        ',',
                        ' ',
                    ] + crate::text::dec_spec(self@[i as int] as nat)));
                }
            }
            i += 1;
        }
        proof {
            reveal_strlit("]");
        }
        s.append("]");
        proof {
            assert(s@ =~= crate::text::perm_text(self@));
        }
        s
    }

    /// The permutation matrix: a `1` at `(i, self[i])`, `0` elsewhere.
    pub fn matrix(&self) -> (m: SqMat<u8>)
        requires
            self.wf(),
            self@.len() * self@.len() <= usize::MAX,
        ensures
            m.wf(),
            m.spec_dim() == self@.len(),
            forall|i: int, j: int|
                0 <= i < self@.len() && 0 <= j < self@.len() ==> #[trigger] m@[i][j] == (if self@[i]
                    == j {
                    1u8
                } else {
                    0u8
                }),
    {
        let n = self.inner.len();
        let mut m = SqMat::<u8>::new(n);
        let mut i: usize = 0;
        while i < n
            invariant
                self.wf(),
                n == self@.len(),
                i <= n,
                m.wf(),
                m.spec_dim() == n,
                forall|a: int, b: int|
                    0 <= a < i && 0 <= b < n ==> #[trigger] m@[a][b] == (if self@[a] == b {
                        1u8
                    } else {
                        0u8
                    }),
                forall|a: int, b: int|
                    i <= a < n && 0 <= b < n ==> #[trigger] m@[a][b] == 0u8,
            decreases n - i,
        {
            let ghost prev = m@;
            m.set(i, self.inner[i], 1u8);
            proof {
                assert forall|a: int, b: int|
                    0 <= a < n && 0 <= b < n && a != i implies #[trigger] m@[a][b] == prev[a][b] by {}
            }
            i += 1;
        }
        m
    }

    /// The Rothe diagram: a `1` at `(i, self[j])` whenever `i < j` and
    /// `self[i] > self[j]`, `0` elsewhere.
    pub fn rothe(&self) -> (m: SqMat<u8>)
        requires
            self.wf(),
            self@.len() * self@.len() <= usize::MAX,
        ensures
            m.wf(),
            m.spec_dim() == self@.len(),
            forall|i: int, c: int|
                0 <= i < self@.len() && 0 <= c < self@.len() ==> #[trigger] m@[i][c] == (if (
                exists|j: int| i < j < self@.len() && self@[j] == c && c < self@[i]) {
                    1u8
                } else {
                    0u8
                }),
    {
        let n = self.inner.len();
        let mut m = SqMat::<u8>::new(n);
        let mut i: usize = 0;
        while i < n
            invariant
                self.wf(),
                n == self@.len(),
                i <= n,
                m.wf(),
                m.spec_dim() == n,
                forall|a: int, c: int|
                    0 <= a < i && 0 <= c < n ==> #[trigger] m@[a][c] == (if (exists|j: int|
                        a < j < n && self@[j] == c && c < self@[a]) {
                        1u8
                    } else {
                        0u8
                    }),
                forall|a: int, c: int|
                    i <= a < n && 0 <= c < n ==> #[trigger] m@[a][c] == 0u8,
            decreases n - i,
        {
            let vi = self.inner[i];
            let mut j: usize = i + 1;
            while j < n
                invariant
                    self.wf(),
                    n == self@.len(),
                    i < n,
                    vi == self@[i as int],
                    i + 1 <= j <= n,
                    m.wf(),
                    m.spec_dim() == n,
                    forall|a: int, c: int|
                        0 <= a < i && 0 <= c < n ==> #[trigger] m@[a][c] == (if (exists|jj: int|
                            a < jj < n && self@[jj] == c && c < self@[a]) {
                            1u8
                        } else {
                            0u8
                        }),
                    forall|c: int|
                        0 <= c < n ==> #[trigger] m@[i as int][c] == (if (exists|jj: int|
                            i < jj < j && self@[jj] == c && c < self@[i as int]) {
                            1u8
                        } else {
                            0u8
                        }),
                    forall|a: int, c: int|
                        i < a < n && 0 <= c < n ==> #[trigger] m@[a][c] == 0u8,
                decreases n - j,
            {
                let vj = self.inner[j];
                let ghost prev = m@;
                if vj < vi {
                    m.set(i, vj, 1u8);
                }
                proof {
                    assert forall|a: int, c: int|
                        0 <= a < n && 0 <= c < n && a != i implies #[trigger] m@[a][c] == prev[a][c]
                    by {}
                    assert forall|c: int|
                        0 <= c < n && c != vj implies #[trigger] m@[i as int][c] == prev[i as int][c]
                    by {}
                    assert forall|c: int|
                        0 <= c < n implies #[trigger] m@[i as int][c] == (if (exists|jj: int|
                        i < jj < j + 1 && self@[jj] == c && c < self@[i as int]) {
                        1u8
                    } else {
                        0u8
                    }) by {
                        if c == vj && vj < vi {
                            assert(m@[i as int][c] == 1u8);
                            assert(i < j + 1 && self@[j as int] == c && c < self@[i as int]);
                        } else {
                            assert(m@[i as int][c] == prev[i as int][c]);
                            if exists|jj: int|
                                i < jj < j + 1 && self@[jj] == c && c < self@[i as int] {
                                let jj = choose|jj: int|
                                    i < jj < j + 1 && self@[jj] == c && c < self@[i as int];
                                if jj == j {
                                    assert(c == vj && vj < vi);
                                } else {
                                    assert(i < jj < j && self@[jj] == c && c < self@[i as int]);
                                }
                            }
                        }
                    }
                }
                j += 1;
            }
            i += 1;
        }
        m
    }
}

impl core::str::FromStr for Perm {
    type Err = PermParseError;

    /// Parse with `parse_perm` and delimiter `,`.
    fn from_str(s: &str) -> Result<Self, Self::Err> {
        parse_perm(s, ",")
    }
}

/// The failure of parsing a permutation from text: a malformed token,
/// or a list that is not a bijection onto its index range.
#[derive(Debug)]
pub struct PermParseError;

/// Whether `c` is ASCII whitespace.
fn ws_char(c: char) -> (b: bool)
    ensures
        b == is_ws(c),
{
    c == ' ' || c == '\t' || c == '\n' || c == '\u{c}' || c == '\r'
}

/// Whether the delimiter `d` occurs in `s` at position `q`, within the
/// window ending at `hi`.
fn match_at(s: &str, q: usize, hi: usize, d: &str, dlen: usize) -> (b: bool)
    requires
        q <= hi <= s@.len(),
        dlen == d@.len(),
    ensures
        b == has_prefix(s@.subrange(q as int, hi as int), d@),
{
    let ghost rem = s@.subrange(q as int, hi as int);
    if dlen > hi - q {
        return false;
    }
    let mut k: usize = 0;
    while k < dlen
        invariant
            q + dlen <= hi <= s@.len(),
            dlen == d@.len(),
            k <= dlen,
            rem == s@.subrange(q as int, hi as int),
            forall|m: int| 0 <= m < k ==> d@[m] == s@[q + m],
        decreases dlen - k,
    {
        if s.get_char(q + k) != d.get_char(k) {
            proof {
                assert(rem[k as int] == s@[q + k]);
                if has_prefix(rem, d@) {
                    assert(rem.subrange(0, dlen as int)[k as int] == d@[k as int]);
                }
            }
            return false;
        }
        k += 1;
    }
    proof {
        assert(rem.subrange(0, dlen as int) =~= d@);
    }
    true
}

/// Parse the token at `[from, to)` of `s` as a non-negative integer:
/// surrounding ASCII whitespace and one optional leading plus sign are
/// accepted; `None` exactly on a malformed or oversized token.
fn parse_token(s: &str, from: usize, to: usize) -> (r: Option<usize>)
    requires
        from <= to <= s@.len(),
    ensures
        ({
            let t = s@.subrange(from as int, to as int);
            match r {
                Some(v) => token_ok(t) && v == token_val(t),
                None => !token_ok(t),
            }
        }),
{
    let ghost t = s@.subrange(from as int, to as int);
    let mut lo = from;
    while lo < to && ws_char(s.get_char(lo))
        invariant
            from <= lo <= to <= s@.len(),
            forall|m: int| from <= m < lo ==> is_ws(#[trigger] s@[m]),
        decreases to - lo,
    {
        lo += 1;
    }
    let mut hi = to;
    while hi > lo && ws_char(s.get_char(hi - 1))
        invariant
            from <= lo <= hi <= to <= s@.len(),
            forall|m: int| hi <= m < to ==> is_ws(#[trigger] s@[m]),
        decreases hi,
    {
        hi -= 1;
    }
    proof {
        assert forall|m: int| 0 <= m < lo - from implies is_ws(#[trigger] t[m]) by {
            assert(t[m] == s@[from + m]);
        }
        if lo < to {
            assert(t[lo - from] == s@[lo as int]);
        }
        lemma_trim_front_skip(t, lo - from);
        let u = t.skip(lo - from);
        assert forall|m: int| hi - lo <= m < u.len() implies is_ws(#[trigger] u[m]) by {
            assert(u[m] == s@[lo + m]);
        }
        if hi > lo {
            assert(u[hi - lo - 1] == s@[hi - 1]);
        }
        lemma_trim_back_take(u, hi - lo);
        assert(trim_spec(t) =~= s@.subrange(lo as int, hi as int));
    }
    let mut pos = lo;
    if pos < hi && s.get_char(pos) == '+' {
        pos += 1;
        proof {
            assert(trim_spec(t)[0] == s@[lo as int]);
            assert(token_body(t) =~= s@.subrange(pos as int, hi as int));
        }
    } else {
        proof {
            if trim_spec(t).len() > 0 {
                assert(trim_spec(t)[0] == s@[lo as int]);
            }
            assert(token_body(t) =~= s@.subrange(pos as int, hi as int));
        }
    }
    let ghost body = s@.subrange(pos as int, hi as int);
    if pos == hi {
        proof {
            assert(token_body(t) == body);
            assert(body.len() == 0);
            assert(!token_ok(t));
        }
        return None;
    }
    let mut val: usize = 0;
    let mut j = pos;
    while j < hi
        invariant
            pos <= j <= hi <= s@.len(),
            t == s@.subrange(from as int, to as int),
            body == s@.subrange(pos as int, hi as int),
            token_body(t) == body,
            forall|m: int| pos <= m < j ==> is_digit(#[trigger] s@[m]),
            val == digits_val(body.take(j - pos)),
        decreases hi - j,
    {
        let c = s.get_char(j);
        let cv = c as u32;
        if cv < 48 || cv > 57 {
            proof {
                assert(body[j - pos] == s@[j as int]);
                assert(!is_digit(body[j - pos]));
                assert(!all_digits(body));
                assert(!token_ok(t));
            }
            return None;
        }
        let dv = (cv - 48) as usize;
        proof {
            assert(body[j - pos] == s@[j as int]);
            assert(is_digit(s@[j as int]));
            assert(dv == digit_val(s@[j as int]));
            assert(body.take(j - pos + 1).drop_last() =~= body.take(j - pos));
            assert(body.take(j - pos + 1).last() == s@[j as int]);
            vstd::arithmetic::div_mod::lemma_fundamental_div_mod(usize::MAX as int, 10);
        }
        if val > usize::MAX / 10 || (val == usize::MAX / 10 && dv > usize::MAX % 10) {
            proof {
                assert(val * 10 + dv > usize::MAX) by (nonlinear_arith)
                    requires
                        dv <= 9,
                        val > usize::MAX / 10 || (val == usize::MAX / 10 && dv > usize::MAX % 10),
                        usize::MAX == 10 * (usize::MAX / 10) + (usize::MAX % 10),
                ;
                assert(digits_val(body.take(j - pos + 1)) > usize::MAX);
                lemma_digits_val_mono(body, j - pos + 1);
                assert(digits_val(token_body(t)) > usize::MAX);
                assert(!token_ok(t));
            }
            return None;
        }
        proof {
            assert(val * 10 + dv <= usize::MAX) by (nonlinear_arith)
                requires
                    dv <= 9,
                    val <= usize::MAX / 10,
                    !(val > usize::MAX / 10 || (val == usize::MAX / 10 && dv > usize::MAX % 10)),
                    usize::MAX == 10 * (usize::MAX / 10) + (usize::MAX % 10),
            ;
        }
        val = val * 10 + dv;
        j += 1;
    }
    proof {
        assert(body.take(hi - pos) =~= body);
        assert forall|m: int| 0 <= m < body.len() implies is_digit(#[trigger] body[m]) by {
            assert(body[m] == s@[pos + m]);
        }
        assert(token_ok(t));
    }
    Some(val)
}

/// Parse a zero-indexed permutation from `input`: a `delim`-separated
/// list of non-negative integers, tokens allowed surrounding ASCII
/// whitespace and one optional leading plus sign. Fails exactly when the
/// delimiter is empty, some token is malformed or oversized, or the
/// values are not a permutation.
pub fn parse_perm(input: &str, delim: &str) -> (r: Result<Perm, PermParseError>)
    ensures
        ({
            let ts = tokens_spec(input@, delim@);
            let ok = delim@.len() > 0 && (forall|k: int|
                0 <= k < ts.len() ==> token_ok(#[trigger] ts[k])) && is_perm(token_vals(ts));
            match r {
                Ok(p) => ok && p@ == token_vals(ts) && p.wf(),
                Err(_) => !ok,
            }
        }),
{
    let ghost ts = tokens_spec(input@, delim@);
    let len = input.unicode_len();
    let dlen = delim.unicode_len();
    if dlen == 0 {
        return Err(PermParseError);
    }
    let mut lo: usize = 0;
    while lo < len && ws_char(input.get_char(lo))
        invariant
            lo <= len == input@.len(),
            forall|m: int| 0 <= m < lo ==> is_ws(#[trigger] input@[m]),
        decreases len - lo,
    {
        lo += 1;
    }
    let mut hi = len;
    while hi > lo && ws_char(input.get_char(hi - 1))
        invariant
            lo <= hi <= len == input@.len(),
            forall|m: int| hi <= m < len ==> is_ws(#[trigger] input@[m]),
        decreases hi,
    {
        hi -= 1;
    }
    proof {
        lemma_trim_front_skip(input@, lo as int);
        let u = input@.skip(lo as int);
        assert forall|m: int| hi - lo <= m < u.len() implies is_ws(#[trigger] u[m]) by {
            assert(u[m] == input@[lo + m]);
        }
        if hi > lo {
            assert(u[hi - lo - 1] == input@[hi - 1]);
        }
        lemma_trim_back_take(u, hi - lo);
        assert(trim_spec(input@) =~= input@.subrange(lo as int, hi as int));
    }
    let ghost trimmed = input@.subrange(lo as int, hi as int);
    let mut vals: Vec<usize> = Vec::new();
    let ghost mut done: Seq<Seq<char>> = Seq::empty();
    let mut tstart = lo;
    let mut q = lo;
    proof {
        assert(trimmed.skip(0) =~= trimmed);
        assert(trimmed.subrange(0, 0) =~= Seq::<char>::empty());
        assert(ts == done + split_rec(
            trimmed.skip(q - lo),
            delim@,
            trimmed.subrange(tstart - lo, q - lo),
        ));
    }
    while q < hi
        invariant
            0 < dlen == delim@.len(),
            lo <= tstart <= q <= hi <= len == input@.len(),
            trimmed == input@.subrange(lo as int, hi as int),
            ts == tokens_spec(input@, delim@),
            ts == done + split_rec(
                trimmed.skip(q - lo),
                delim@,
                trimmed.subrange(tstart - lo, q - lo),
            ),
            vals@.len() == done.len(),
            forall|k: int|
                0 <= k < done.len() ==> token_ok(#[trigger] done[k]) && vals@[k] == token_val(
                    done[k],
                ),
        decreases hi - q,
    {
        let ghost rem = trimmed.skip(q - lo);
        let ghost cur = trimmed.subrange(tstart - lo, q - lo);
        proof {
            assert(rem =~= input@.subrange(q as int, hi as int));
            assert(cur =~= input@.subrange(tstart as int, q as int));
        }
        if match_at(input, q, hi, delim, dlen) {
            match parse_token(input, tstart, q) {
                Some(v) => {
                    vals.push(v);
                    proof {
                        done = done + seq![cur];
                        assert(split_rec(rem, delim@, cur) == seq![cur] + split_rec(
                            rem.skip(dlen as int),
                            delim@,
                            Seq::<char>::empty(),
                        ));
                        assert(rem.skip(dlen as int) =~= trimmed.skip(q + dlen - lo));
                        assert(trimmed.subrange(
                            (q + dlen - lo) as int,
                            (q + dlen - lo) as int,
                        ) =~= Seq::<char>::empty());
                        assert(ts == done + split_rec(
                            trimmed.skip(q + dlen - lo),
                            delim@,
                            trimmed.subrange((q + dlen - lo) as int, (q + dlen - lo) as int),
                        ));
                    }
                    q = q + dlen;
                    tstart = q;
                },
                None => {
                    proof {
                        assert(split_rec(rem, delim@, cur)[0] == cur);
                        assert(ts[done.len() as int] == cur);
                        assert(!token_ok(ts[done.len() as int]));
                    }
                    return Err(PermParseError);
                },
            }
        } else {
            proof {
                assert(rem.len() > 0);
                assert(split_rec(rem, delim@, cur) == split_rec(
                    rem.drop_first(),
                    delim@,
                    cur.push(rem[0]),
                ));
                assert(rem.drop_first() =~= trimmed.skip(q + 1 - lo));
                assert(cur.push(rem[0]) =~= trimmed.subrange(tstart - lo, q + 1 - lo));
            }
            q += 1;
        }
    }
    let ghost cur = trimmed.subrange(tstart - lo, q - lo);
    proof {
        assert(trimmed.skip(q - lo).len() == 0);
        assert(split_rec(trimmed.skip(q - lo), delim@, cur) == seq![cur]);
        assert(cur =~= input@.subrange(tstart as int, hi as int));
    }
    match parse_token(input, tstart, hi) {
        Some(v) => {
            vals.push(v);
            proof {
                done = done + seq![cur];
                assert(ts == done);
            }
        },
        None => {
            proof {
                assert(ts[done.len() as int] == cur);
                assert(!token_ok(ts[done.len() as int]));
            }
            return Err(PermParseError);
        },
    }
    proof {
        assert(token_vals(ts) =~= vals@);
    }
    match Perm::new(vals.as_slice()) {
        Some(p) => Ok(p),
        None => Err(PermParseError),
    }
}

} // verus!
