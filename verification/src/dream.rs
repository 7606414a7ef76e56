use vstd::prelude::*;

use crate::matrix::{is_grid, SqMat};
use crate::perm::{is_perm, lehmer_at, lehmer_seq, rev_seq, Perm};

verus! {

broadcast use crate::matrix::SqMat::lemma_grid_shape;

/// A tile in a pipe dream.
#[derive(Clone, Copy, PartialEq, Eq, Structural, Debug)]
pub enum Tile {
    Elbow,
    Cross,
}

impl Default for Tile {
    fn default() -> (r: Self)
        ensures
            r == Tile::Elbow,
    {
        Tile::Elbow
    }
}

/// An ordinary pipe dream: a square grid of tiles.
pub struct Dream {
    tiles: SqMat<Tile>,
}

/// The first column of `row` at or after `c` holding an elbow, or the
/// row length if there is none.
pub open spec fn start_from(row: Seq<Tile>, c: int) -> int
    decreases row.len() - c,
{
    if c < 0 || c >= row.len() {
        row.len() as int
    } else if row[c] == Tile::Elbow {
        c
    } else {
        start_from(row, c + 1)
    }
}

/// The minimum column of an elbow in row `i` of grid `g`, or the
/// dimension if row `i` is fully crossed.
pub open spec fn start_spec(g: Seq<Seq<Tile>>, i: int) -> int {
    start_from(g[i], 0)
}

/// Column `p` is a ladder position for the mitosis operator on row `i`:
/// strictly left of row `i`'s first elbow, with no cross below it.
pub open spec fn is_cand(g: Seq<Seq<Tile>>, i: int, p: int) -> bool {
    &&& 0 <= p < start_spec(g, i)
    &&& g[i + 1][p] != Tile::Cross
}

/// The ladder positions below `ub`, in increasing order.
pub open spec fn cands_upto(g: Seq<Seq<Tile>>, i: int, ub: int) -> Seq<int>
    decreases ub,
{
    if ub <= 0 {
        Seq::empty()
    } else {
        cands_upto(g, i, ub - 1) + (if is_cand(g, i, ub - 1) {
            seq![ub - 1]
        } else {
            Seq::<int>::empty()
        })
    }
}

/// One ladder move at column `j`: if row `i` holds a cross over an
/// elbow in row `i+1`, push the cross down; otherwise leave `g` as is.
pub open spec fn ladder_swap(g: Seq<Seq<Tile>>, i: int, j: int) -> Seq<Seq<Tile>> {
    if g[i][j] == Tile::Cross && g[i + 1][j] == Tile::Elbow {
        g.update(i, g[i].update(j, Tile::Elbow)).update(i + 1, g[i + 1].update(j, Tile::Cross))
    } else {
        g
    }
}

/// Ladder moves at columns `0, ..., p-1`, applied left to right.
pub open spec fn apply_swaps(g: Seq<Seq<Tile>>, i: int, p: int) -> Seq<Seq<Tile>>
    decreases p,
{
    if p <= 0 {
        g
    } else {
        ladder_swap(apply_swaps(g, i, p - 1), i, p - 1)
    }
}

/// The mitosis child of `g` for row `i` and ladder position `p`: the
/// tile at `(i, p)` becomes an elbow, then every column left of `p`
/// takes a ladder move.
pub open spec fn mitosis_child(g: Seq<Seq<Tile>>, i: int, p: int) -> Seq<Seq<Tile>> {
    apply_swaps(g.update(i, g[i].update(p, Tile::Elbow)), i, p)
}

/// All children of the mitosis operator on row `i`, in increasing order
/// of ladder position.
pub open spec fn mitosis_spec(g: Seq<Seq<Tile>>, i: int) -> Seq<Seq<Seq<Tile>>> {
    cands_upto(g, i, g.len() as int).map_values(|p: int| mitosis_child(g, i, p))
}

/// The seed dream of size `n`: a cross at every cell `(i, j)` with
/// `i + j < n - 1`, elbows elsewhere.
pub open spec fn long_grid(n: nat) -> Seq<Seq<Tile>> {
    Seq::new(
        n,
        |i: int|
            Seq::new(
                n,
                |j: int|
                    if i + j + 1 < n {
                        Tile::Cross
                    } else {
                        Tile::Elbow
                    },
            ),
    )
}

/// The views of a sequence of dreams.
pub open spec fn dream_views(ds: Seq<Dream>) -> Seq<Seq<Seq<Tile>>> {
    Seq::new(ds.len(), |k: int| ds[k]@)
}

/// One for a cross, zero for an elbow.
pub open spec fn tile_cost(t: Tile) -> nat {
    if t == Tile::Cross {
        1
    } else {
        0
    }
}

/// The number of crosses among the first `j` tiles of `row`.
pub open spec fn row_crosses_upto(row: Seq<Tile>, j: int) -> nat
    decreases j,
{
    if j <= 0 {
        0
    } else {
        row_crosses_upto(row, j - 1) + tile_cost(row[j - 1])
    }
}

/// The number of crosses in `row`.
pub open spec fn row_crosses(row: Seq<Tile>) -> nat {
    row_crosses_upto(row, row.len() as int)
}

/// The number of crosses among the first `i` rows of `g`.
pub open spec fn grid_crosses_upto(g: Seq<Seq<Tile>>, i: int) -> nat
    decreases i,
{
    if i <= 0 {
        0
    } else {
        grid_crosses_upto(g, i - 1) + row_crosses(g[i - 1])
    }
}

/// The number of crosses in the grid `g`.
pub open spec fn grid_crosses(g: Seq<Seq<Tile>>) -> nat {
    grid_crosses_upto(g, g.len() as int)
}

/// The sum of the entries of `c` from position `m` on.
pub open spec fn sum_from(c: Seq<usize>, m: int) -> nat
    decreases c.len() - m,
{
    if m < 0 || m >= c.len() {
        0
    } else {
        (c[m] as nat) + sum_from(c, m + 1)
    }
}

/// The descending run `i-1, i-2, ..., i-ci` of `ci` letters.
pub open spec fn run_spec(i: int, ci: int) -> Seq<usize> {
    Seq::new(ci as nat, |k: int| (i - 1 - k) as usize)
}

/// The reduced word built from the last `t` entries of the Lehmer code
/// `c`, processed in reverse index order.
pub open spec fn word_upto(c: Seq<usize>, t: int) -> Seq<usize>
    decreases t,
{
    if t <= 0 {
        Seq::empty()
    } else {
        word_upto(c, t - 1) + run_spec(t - 1, c[c.len() - t] as int)
    }
}

/// The lexicographically-first reduced word of the permutation whose
/// Lehmer code is `c`.
pub open spec fn word_spec(c: Seq<usize>) -> Seq<usize> {
    word_upto(c, c.len() as int)
}

/// All children of all dreams among the first `k` of `ds`, in order.
pub open spec fn expand_upto(ds: Seq<Seq<Seq<Tile>>>, i: int, k: int) -> Seq<Seq<Seq<Tile>>>
    decreases k,
{
    if k <= 0 {
        Seq::empty()
    } else {
        expand_upto(ds, i, k - 1) + mitosis_spec(ds[k - 1], i)
    }
}

/// One generation step: the union, in order, over every dream of `ds`
/// of its mitosis children on row `i`.
pub open spec fn expand_spec(ds: Seq<Seq<Seq<Tile>>>, i: int) -> Seq<Seq<Seq<Tile>>> {
    expand_upto(ds, i, ds.len() as int)
}

/// The working set after feeding `ds` the letters of `w` from position
/// `t` on.
pub open spec fn iterate_spec(ds: Seq<Seq<Seq<Tile>>>, w: Seq<usize>, t: int) -> Seq<
    Seq<Seq<Tile>>,
>
    decreases w.len() - t,
{
    if t < 0 || t >= w.len() {
        ds
    } else {
        iterate_spec(expand_spec(ds, w[t] as int), w, t + 1)
    }
}

/// The set of reduced pipe dreams of the permutation `p`: the seed
/// dream, fed the reversed reduced word of `p` composed with the
/// longest permutation; empty when that word is empty.
pub open spec fn gen_spec(p: Seq<usize>) -> Seq<Seq<Seq<Tile>>> {
    let q = rev_seq(p);
    let w = word_spec(lehmer_seq(q));
    if w.len() == 0 {
        Seq::empty()
    } else {
        iterate_spec(seq![long_grid(p.len())], w.reverse(), 0)
    }
}

impl View for Dream {
    type V = Seq<Seq<Tile>>;

    closed spec fn view(&self) -> Seq<Seq<Tile>> {
        self.tiles@
    }
}

impl Dream {
    /// The dimension, as seen by specifications.
    pub closed spec fn spec_dim(&self) -> nat {
        self.tiles.spec_dim()
    }

    /// The tile storage is well formed.
    pub closed spec fn wf(&self) -> bool {
        self.tiles.wf()
    }

    /// The view of any dream is a grid of its dimension.
    pub broadcast proof fn lemma_shape(&self)
        ensures
            (#[trigger] self@).len() == self.spec_dim(),
            forall|r: int| 0 <= r < self.spec_dim() ==> (#[trigger] self@[r]).len()
                == self.spec_dim(),
    {
    }

    /// Create a dream of dimension `dim` from a flat, row-major tile
    /// slice, which must hold exactly `dim * dim` tiles.
    pub fn from_vec(dim: usize, v: &[Tile]) -> (r: Self)
        requires
            v@.len() == dim * dim,
        ensures
            r.wf(),
            r.spec_dim() == dim,
            forall|i: int, j: int|
                0 <= i < dim && 0 <= j < dim ==> #[trigger] r@[i][j] == v@[i * (dim as int) + j],
    {
        Self { tiles: SqMat::from_vec(dim, v) }
    }

    /// The dimension of the dream.
    pub fn dim(&self) -> (d: usize)
        ensures
            d == self.spec_dim(),
    {
        self.tiles.dim()
    }

    /// An independent copy of the tile grid.
    pub fn tiles(&self) -> (r: SqMat<Tile>)
        requires
            self.wf(),
        ensures
            r.wf(),
            r.spec_dim() == self.spec_dim(),
            r@ == self@,
    {
        self.tiles.duplicate()
    }

    /// The tile at `(r, c)`.
    pub fn get(&self, r: usize, c: usize) -> (t: Tile)
        requires
            self.wf(),
            r < self.spec_dim(),
            c < self.spec_dim(),
        ensures
            t == self@[r as int][c as int],
    {
        self.tiles.get(r, c)
    }

    /// The minimum column of an elbow in row `i`, or the dimension if
    /// row `i` holds no elbow.
    pub fn start(&self, i: usize) -> (r: usize)
        requires
            self.wf(),
            i < self.spec_dim(),
        ensures
            r == start_spec(self@, i as int),
    {
        let dim = self.tiles.dim();
        let mut c: usize = 0;
        while c < dim
            invariant
                self.wf(),
                i < dim && dim == self.spec_dim(),
                c <= dim,
                start_spec(self@, i as int) == start_from(self@[i as int], c as int),
            decreases dim - c,
        {
            if self.tiles.get(i, c) == Tile::Elbow {
                return c;
            }
            c += 1;
        }
        dim
    }

    /// The seed dream of size `n`, the unique reduced pipe dream of the
    /// longest permutation of `n` elements.
    pub fn long(n: usize) -> (r: Self)
        requires
            n * n <= usize::MAX,
        ensures
            r.wf(),
            r.spec_dim() == n,
            r@ == long_grid(n as nat),
    {
        let mut tiles = SqMat::<Tile>::new(n);
        let mut i: usize = 0;
        while i < n
            invariant
                tiles.wf(),
                tiles.spec_dim() == n,
                i <= n,
                forall|a: int, b: int|
                    0 <= a < i && 0 <= b < n ==> #[trigger] tiles@[a][b] == long_grid(n as nat)[a][b],
                forall|a: int, b: int|
                    i <= a < n && 0 <= b < n ==> #[trigger] tiles@[a][b] == Tile::Elbow,
            decreases n - i,
        {
            let mut j: usize = 0;
            while j < n
                invariant
                    tiles.wf(),
                    tiles.spec_dim() == n,
                    i < n,
                    j <= n,
                    forall|a: int, b: int|
                        0 <= a < i && 0 <= b < n ==> #[trigger] tiles@[a][b] == long_grid(
                            n as nat,
                        )[a][b],
                    forall|b: int|
                        0 <= b < j ==> #[trigger] tiles@[i as int][b] == long_grid(
                            n as nat,
                        )[i as int][b],
                    forall|b: int| j <= b < n ==> #[trigger] tiles@[i as int][b] == Tile::Elbow,
                    forall|a: int, b: int|
                        i < a < n && 0 <= b < n ==> #[trigger] tiles@[a][b] == Tile::Elbow,
                decreases n - j,
            {
                let ghost prev = tiles@;
                if i < n - 1 - j {
                    tiles.set(i, j, Tile::Cross);
                }
                proof {
                    assert forall|a: int, b: int|
                        0 <= a < n && 0 <= b < n && !(a == i && b == j) implies #[trigger] tiles@[a][b]
                        == prev[a][b] by {}
                }
                j += 1;
            }
            i += 1;
        }
        let r = Self { tiles };
        proof {
            assert forall|a: int| 0 <= a < n implies r@[a] =~= long_grid(n as nat)[a] by {}
            assert(r@ =~= long_grid(n as nat));
        }
        r
    }

    /// The mitosis operator on row `i`: one child per ladder position,
    /// in increasing order of position. Requires `i + 1` below the
    /// dimension; every child has the dimension of its parent.
    pub fn mitosis(&self, i: usize) -> (r: Vec<Dream>)
        requires
            self.wf(),
            i + 1 < self.spec_dim(),
        ensures
            r@.len() == mitosis_spec(self@, i as int).len(),
            forall|k: int|
                0 <= k < r@.len() ==> (#[trigger] r@[k])@ == mitosis_spec(self@, i as int)[k]
                    && r@[k].wf() && r@[k].spec_dim() == self.spec_dim(),
    {
        let dim = self.tiles.dim();
        let start = self.start(i);
        let mut offspring: Vec<Dream> = Vec::new();
        let mut p: usize = 0;
        while p < dim
            invariant
                self.wf(),
                i + 1 < dim && dim == self.spec_dim(),
                start == start_spec(self@, i as int),
                p <= dim,
                offspring@.len() == cands_upto(self@, i as int, p as int).len(),
                forall|k: int|
                    0 <= k < offspring@.len() ==> (#[trigger] offspring@[k])@ == mitosis_child(
                        self@,
                        i as int,
                        cands_upto(self@, i as int, p as int)[k],
                    ) && offspring@[k].wf() && offspring@[k].spec_dim() == dim,
            decreases dim - p,
        {
            if p < start && self.tiles.get(i + 1, p) != Tile::Cross {
                let mut tiles = self.tiles.duplicate();
                tiles.set(i, p, Tile::Elbow);
                let ghost base = tiles@;
                let mut j: usize = 0;
                while j < p
                    invariant
                        i + 1 < dim,
                        p < dim,
                        j <= p,
                        tiles.wf(),
                        tiles.spec_dim() == dim,
                        tiles@ == apply_swaps(base, i as int, j as int),
                    decreases p - j,
                {
                    let ghost cur = tiles@;
                    if tiles.get(i, j) == Tile::Cross && tiles.get(i + 1, j) == Tile::Elbow {
                        tiles.set(i, j, Tile::Elbow);
                        tiles.set(i + 1, j, Tile::Cross);
                        proof {
                            assert(tiles@ =~= ladder_swap(cur, i as int, j as int));
                        }
                    } else {
                        proof {
                            assert(tiles@ == ladder_swap(cur, i as int, j as int));
                        }
                    }
                    j += 1;
                }
                let child = Dream { tiles };
                proof {
                    assert(child@ == mitosis_child(self@, i as int, p as int));
                    assert(is_cand(self@, i as int, p as int));
                }
                offspring.push(child);
            } else {
                proof {
                    assert(!is_cand(self@, i as int, p as int));
                }
            }
            proof {
                let c1 = cands_upto(self@, i as int, p as int);
                let c2 = cands_upto(self@, i as int, (p + 1) as int);
                if is_cand(self@, i as int, p as int) {
                    assert(c2 =~= c1 + seq![p as int]);
                } else {
                    assert(c2 =~= c1);
                }
            }
            p += 1;
        }
        proof {
            assert(cands_upto(self@, i as int, self@.len() as int) == cands_upto(
                self@,
                i as int,
                dim as int,
            ));
        }
        offspring
    }
}

/// The lexicographically-first reduced word of `p`: the Lehmer code is
/// processed in reverse index order, each entry `ci` at reversed
/// position `i` contributing the descending run `i-1, ..., i-ci`.
/// Every letter `l` of the word satisfies `l + 1 < p.len()`.
pub fn lex_first_reduced_word(p: &Perm) -> (r: Vec<usize>)
    requires
        p.wf(),
    ensures
        r@ == word_spec(lehmer_seq(p@)),
        forall|t: int| 0 <= t < r@.len() ==> #[trigger] r@[t] + 1 < p@.len(),
{
    let c = p.lehmer();
    let n = c.len();
    proof {
        assert(lehmer_seq(p@) =~= c@);
    }
    let mut word: Vec<usize> = Vec::new();
    let mut i: usize = 0;
    while i < n
        invariant
            n == p@.len() && n == c@.len(),
            forall|m: int| 0 <= m < n ==> #[trigger] c@[m] == lehmer_at(p@, m),
            i <= n,
            word@ == word_upto(c@, i as int),
            forall|t: int| 0 <= t < word@.len() ==> #[trigger] word@[t] + 1 < n,
        decreases n - i,
    {
        let ci = c[n - 1 - i];
        proof {
            crate::perm::lemma_count_lt_from_bound(p@, p@[n - 1 - i], n - i);
            assert(ci <= i);
        }
        let ghost before = word@;
        let mut k: usize = 0;
        while k < ci
            invariant
                ci <= i < n,
                k <= ci,
                word@ == before + run_spec(i as int, ci as int).take(k as int),
                forall|t: int| 0 <= t < word@.len() ==> #[trigger] word@[t] + 1 < n,
            decreases ci - k,
        {
            word.push(i - 1 - k);
            proof {
                assert(word@ =~= before + run_spec(i as int, ci as int).take((k + 1) as int));
            }
            k += 1;
        }
        proof {
            assert(run_spec(i as int, ci as int).take(ci as int) =~= run_spec(i as int, ci as int));
            assert(word@ == word_upto(c@, (i + 1) as int));
        }
        i += 1;
    }
    word
}

/// One generation step over a whole working set: every dream of
/// `dreams` is replaced by its mitosis children on row `i`, children of
/// distinct parents kept in parent order.
pub fn mitosis(dreams: &[Dream], i: usize) -> (r: Vec<Dream>)
    requires
        forall|k: int|
            0 <= k < dreams@.len() ==> (#[trigger] dreams@[k]).wf() && i + 1 < dreams@[k].spec_dim(),
    ensures
        dream_views(r@) == expand_spec(dream_views(dreams@), i as int),
        forall|k: int| 0 <= k < r@.len() ==> (#[trigger] r@[k]).wf(),
{
    let n = dreams.len();
    let mut res: Vec<Dream> = Vec::new();
    let mut k: usize = 0;
    while k < n
        invariant
            n == dreams@.len(),
            forall|m: int|
                0 <= m < dreams@.len() ==> (#[trigger] dreams@[m]).wf() && i + 1
                    < dreams@[m].spec_dim(),
            k <= n,
            dream_views(res@) == expand_upto(dream_views(dreams@), i as int, k as int),
            forall|m: int| 0 <= m < res@.len() ==> (#[trigger] res@[m]).wf(),
        decreases n - k,
    {
        let d = &dreams[k];
        let mut children = d.mitosis(i);
        let ghost old_res = res@;
        let ghost children_snap = children@;
        res.append(&mut children);
        proof {
            assert(dream_views(children_snap) =~= mitosis_spec(dreams@[k as int]@, i as int));
            assert(dream_views(res@) =~= dream_views(old_res) + dream_views(children_snap));
            assert(dream_views(dreams@)[k as int] == dreams@[k as int]@);
            assert(dream_views(res@) =~= expand_upto(
                dream_views(dreams@),
                i as int,
                (k + 1) as int,
            ));
        }
        k += 1;
    }
    res
}

/// The complete, ordered set of reduced pipe dreams of `p`.
pub fn reduced_dreams(p: &Perm) -> (r: Vec<Dream>)
    requires
        p.wf(),
        p@.len() * p@.len() <= usize::MAX,
    ensures
        dream_views(r@) == gen_spec(p@),
        forall|k: int|
            0 <= k < r@.len() ==> (#[trigger] r@[k]).wf() && r@[k].spec_dim() == p@.len(),
{
    let n = p.len();
    let w0 = Perm::long(n);
    let q = p.compose_with(&w0);
    proof {
        assert(q@ =~= rev_seq(p@));
    }
    let word = lex_first_reduced_word(&q);
    if word.len() == 0 {
        proof {
            assert(dream_views(Seq::<Dream>::empty()) =~= gen_spec(p@));
        }
        return Vec::new();
    }
    let mut rw: Vec<usize> = Vec::new();
    let mut t: usize = word.len();
    while t > 0
        invariant
            t <= word@.len(),
            rw@.len() == word@.len() - t,
            forall|m: int| 0 <= m < rw@.len() ==> #[trigger] rw@[m] == word@[word@.len() - 1 - m],
        decreases t,
    {
        t -= 1;
        rw.push(word[t]);
    }
    proof {
        assert(rw@ =~= word@.reverse());
    }
    let seed = Dream::long(n);
    let mut res = seed.mitosis(rw[0]);
    let ghost w = rw@;
    proof {
        assert(dream_views(res@) =~= mitosis_spec(long_grid(n as nat), w[0] as int));
        assert(expand_upto(seq![long_grid(n as nat)], w[0] as int, 0)
            == Seq::<Seq<Seq<Tile>>>::empty());
        assert(seq![long_grid(n as nat)][0] == long_grid(n as nat));
        assert(expand_upto(seq![long_grid(n as nat)], w[0] as int, 1) =~= mitosis_spec(
            long_grid(n as nat),
            w[0] as int,
        ));
        assert(expand_spec(seq![long_grid(n as nat)], w[0] as int) == expand_upto(
            seq![long_grid(n as nat)],
            w[0] as int,
            1,
        ));
        assert(iterate_spec(dream_views(res@), w, 1) == gen_spec(p@));
    }
    let mut u: usize = 1;
    while u < rw.len()
        invariant
            w == rw@,
            1 <= u <= rw@.len(),
            forall|m: int| 0 <= m < rw@.len() ==> #[trigger] rw@[m] + 1 < n,
            forall|k: int|
                0 <= k < res@.len() ==> (#[trigger] res@[k]).wf() && res@[k].spec_dim() == n,
            iterate_spec(dream_views(res@), w, u as int) == gen_spec(p@),
        decreases rw@.len() - u,
    {
        let next = mitosis(res.as_slice(), rw[u]);
        proof {
            assert(iterate_spec(dream_views(next@), w, (u + 1) as int) == gen_spec(p@));
            assert forall|k: int| 0 <= k < next@.len() implies (#[trigger] next@[k]).wf()
                && next@[k].spec_dim() == n by {
                lemma_expand_upto_shape(dream_views(res@), rw@[u as int] as int, res@.len() as int, n as nat);
                assert(dream_views(next@)[k].len() == n);
            }
        }
        res = next;
        u += 1;
    }
    res
}

/// Render a dream as a grid of characters: `.` for an elbow, `+` for a
/// cross.
pub fn display_dream(dream: &Dream) -> (r: SqMat<char>)
    requires
        dream.wf(),
    ensures
        r.wf(),
        r.spec_dim() == dream.spec_dim(),
        forall|i: int, j: int|
            0 <= i < dream.spec_dim() && 0 <= j < dream.spec_dim() ==> #[trigger] r@[i][j] == (
            if dream@[i][j] == Tile::Cross {
                '+'
            } else {
                '.'
            }),
{
    let tiles = dream.tiles();
    tiles.map(tile_char)
}

/// The display character of a tile: `.` for an elbow, `+` for a cross.
fn tile_char(t: Tile) -> (c: char)
    ensures
        c == (if t == Tile::Cross {
            '+'
        } else {
            '.'
        }),
{
    match t {
        Tile::Elbow => '.',
        Tile::Cross => '+',
    }
}

/// Every grid produced by `expand_upto` from `n`-grids is an `n`-grid.
proof fn lemma_expand_upto_shape(ds: Seq<Seq<Seq<Tile>>>, i: int, k: int, n: nat)
    requires
        0 <= i && i + 1 < n,
        k <= ds.len(),
        forall|m: int| 0 <= m < ds.len() ==> is_grid(#[trigger] ds[m], n),
    ensures
        forall|m: int|
            0 <= m < expand_upto(ds, i, k).len() ==> is_grid(#[trigger] expand_upto(ds, i, k)[m], n),
    decreases k,
{
    if k > 0 {
        lemma_expand_upto_shape(ds, i, k - 1, n);
        lemma_mitosis_spec_shape(ds[k - 1], i, n);
        assert forall|m: int|
            0 <= m < expand_upto(ds, i, k).len() implies is_grid(
            #[trigger] expand_upto(ds, i, k)[m],
            n,
        ) by {
            if m < expand_upto(ds, i, k - 1).len() {
                assert(expand_upto(ds, i, k)[m] == expand_upto(ds, i, k - 1)[m]);
            } else {
                assert(expand_upto(ds, i, k)[m] == mitosis_spec(ds[k - 1], i)[m - expand_upto(
                    ds,
                    i,
                    k - 1,
                ).len()]);
            }
        }
    }
}

/// Every ladder position is a column of the grid.
proof fn lemma_cands_upto_range(g: Seq<Seq<Tile>>, i: int, ub: int)
    ensures
        forall|k: int|
            0 <= k < cands_upto(g, i, ub).len() ==> 0 <= #[trigger] cands_upto(g, i, ub)[k] < ub
                && is_cand(g, i, cands_upto(g, i, ub)[k]),
    decreases ub,
{
    if ub > 0 {
        lemma_cands_upto_range(g, i, ub - 1);
        let prev = cands_upto(g, i, ub - 1);
        assert forall|k: int|
            0 <= k < cands_upto(g, i, ub).len() implies 0 <= #[trigger] cands_upto(g, i, ub)[k]
            < ub && is_cand(g, i, cands_upto(g, i, ub)[k]) by {
            if k < prev.len() {
                assert(cands_upto(g, i, ub)[k] == prev[k]);
            } else {
                assert(is_cand(g, i, ub - 1));
                assert(cands_upto(g, i, ub)[k] == ub - 1);
            }
        }
    }
}

/// A ladder move keeps the shape of an `n`-grid.
proof fn lemma_ladder_swap_shape(g: Seq<Seq<Tile>>, i: int, j: int, n: nat)
    requires
        is_grid(g, n),
        0 <= i && i + 1 < n,
        0 <= j < n,
    ensures
        is_grid(ladder_swap(g, i, j), n),
{
}

/// Ladder moves keep the shape of an `n`-grid.
proof fn lemma_apply_swaps_shape(g: Seq<Seq<Tile>>, i: int, p: int, n: nat)
    requires
        is_grid(g, n),
        0 <= i && i + 1 < n,
        p <= n,
    ensures
        is_grid(apply_swaps(g, i, p), n),
    decreases p,
{
    if p > 0 {
        lemma_apply_swaps_shape(g, i, p - 1, n);
        lemma_ladder_swap_shape(apply_swaps(g, i, p - 1), i, p - 1, n);
    }
}

/// Every mitosis child of an `n`-grid is an `n`-grid.
proof fn lemma_mitosis_spec_shape(g: Seq<Seq<Tile>>, i: int, n: nat)
    requires
        is_grid(g, n),
        0 <= i && i + 1 < n,
    ensures
        forall|k: int|
            0 <= k < mitosis_spec(g, i).len() ==> is_grid(#[trigger] mitosis_spec(g, i)[k], n),
{
    lemma_cands_upto_range(g, i, g.len() as int);
    assert forall|k: int|
        0 <= k < mitosis_spec(g, i).len() implies is_grid(#[trigger] mitosis_spec(g, i)[k], n) by {
        let p = cands_upto(g, i, g.len() as int)[k];
        let base = g.update(i, g[i].update(p, Tile::Elbow));
        assert(is_grid(base, n));
        lemma_apply_swaps_shape(base, i, p, n);
        assert(mitosis_spec(g, i)[k] == mitosis_child(g, i, p));
    }
}

/// The set of reduced pipe dreams on a permutation.
pub struct ReducedDreams {
    perm: Perm,
    dreams: Vec<Dream>,
}

impl ReducedDreams {
    /// The permutation the dreams were generated for.
    pub closed spec fn spec_perm(&self) -> Seq<usize> {
        self.perm@
    }

    /// The generated dreams.
    pub closed spec fn spec_dreams(&self) -> Seq<Dream> {
        self.dreams@
    }

    /// The permutation is valid and the dreams are exactly its
    /// generated reduced pipe dreams.
    pub open spec fn wf(&self) -> bool {
        &&& is_perm(self.spec_perm())
        &&& dream_views(self.spec_dreams()) == gen_spec(self.spec_perm())
        &&& forall|k: int|
            0 <= k < self.spec_dreams().len() ==> (#[trigger] self.spec_dreams()[k]).wf()
                && self.spec_dreams()[k].spec_dim() == self.spec_perm().len()
    }

    /// Generate the reduced pipe dreams of `perm`.
    pub fn for_perm(perm: &Perm) -> (r: Self)
        requires
            perm.wf(),
            perm@.len() * perm@.len() <= usize::MAX,
        ensures
            r.wf(),
            r.spec_perm() == perm@,
    {
        let dreams = reduced_dreams(perm);
        Self { perm: perm.duplicate(), dreams }
    }

    /// The permutation the dreams belong to.
    pub fn perm(&self) -> (r: &Perm)
        ensures
            r@ == self.spec_perm(),
    {
        &self.perm
    }

    /// The generated dreams, in generation order.
    pub fn iter(&self) -> (r: &Vec<Dream>)
        ensures
            r@ == self.spec_dreams(),
    {
        &self.dreams
    }
}

/// Never more crosses among `j` tiles than `j`.
pub proof fn lemma_row_crosses_upto_bound(row: Seq<Tile>, j: int)
    requires
        0 <= j,
    ensures
        row_crosses_upto(row, j) <= j,
    decreases j,
{
    if j > 0 {
        lemma_row_crosses_upto_bound(row, j - 1);
    }
}

/// Updating one tile shifts the cross count of a row by the cost
/// difference, and leaves prefixes before the update untouched.
proof fn lemma_row_crosses_update(row: Seq<Tile>, c: int, v: Tile, j: int)
    requires
        0 <= c < row.len(),
        0 <= j <= row.len(),
    ensures
        j <= c ==> row_crosses_upto(row.update(c, v), j) == row_crosses_upto(row, j),
        j > c ==> row_crosses_upto(row.update(c, v), j) + tile_cost(row[c]) == row_crosses_upto(
            row,
            j,
        ) + tile_cost(v),
    decreases j,
{
    if j > 0 {
        lemma_row_crosses_update(row, c, v, j - 1);
    }
}

/// Updating one row shifts the cross count of a grid by the row count
/// difference, and leaves prefixes before the update untouched.
proof fn lemma_grid_crosses_update(g: Seq<Seq<Tile>>, r: int, row: Seq<Tile>, i: int)
    requires
        0 <= r < g.len(),
        0 <= i <= g.len(),
    ensures
        i <= r ==> grid_crosses_upto(g.update(r, row), i) == grid_crosses_upto(g, i),
        i > r ==> grid_crosses_upto(g.update(r, row), i) + row_crosses(g[r]) == grid_crosses_upto(
            g,
            i,
        ) + row_crosses(row),
    decreases i,
{
    if i > 0 {
        lemma_grid_crosses_update(g, r, row, i - 1);
    }
}

/// A ladder move neither adds nor removes crosses.
proof fn lemma_ladder_swap_crosses(g: Seq<Seq<Tile>>, i: int, j: int, n: nat)
    requires
        is_grid(g, n),
        0 <= i && i + 1 < n,
        0 <= j < n,
    ensures
        grid_crosses(ladder_swap(g, i, j)) == grid_crosses(g),
{
    if g[i][j] == Tile::Cross && g[i + 1][j] == Tile::Elbow {
        let row_a = g[i].update(j, Tile::Elbow);
        let g1 = g.update(i, row_a);
        let row_b = g[i + 1].update(j, Tile::Cross);
        let g2 = g1.update(i + 1, row_b);
        lemma_row_crosses_update(g[i], j, Tile::Elbow, g[i].len() as int);
        lemma_grid_crosses_update(g, i, row_a, g.len() as int);
        assert(grid_crosses(g1) + 1 == grid_crosses(g));
        assert(g1[i + 1] == g[i + 1]);
        lemma_row_crosses_update(g[i + 1], j, Tile::Cross, g[i + 1].len() as int);
        lemma_grid_crosses_update(g1, i + 1, row_b, g1.len() as int);
        assert(grid_crosses(g2) == grid_crosses(g1) + 1);
    }
}

/// Ladder moves preserve the cross count of a grid.
proof fn lemma_apply_swaps_crosses(g: Seq<Seq<Tile>>, i: int, p: int, n: nat)
    requires
        is_grid(g, n),
        0 <= i && i + 1 < n,
        p <= n,
    ensures
        grid_crosses(apply_swaps(g, i, p)) == grid_crosses(g),
    decreases p,
{
    if p > 0 {
        lemma_apply_swaps_crosses(g, i, p - 1, n);
        lemma_apply_swaps_shape(g, i, p - 1, n);
        lemma_ladder_swap_crosses(apply_swaps(g, i, p - 1), i, p - 1, n);
    }
}

/// Everything left of a row's first elbow is a cross; the first elbow,
/// where it exists, is an elbow.
pub proof fn lemma_start_from_props(row: Seq<Tile>, c: int)
    requires
        0 <= c <= row.len(),
    ensures
        c <= start_from(row, c) <= row.len(),
        forall|k: int| c <= k < start_from(row, c) ==> row[k] == Tile::Cross,
        start_from(row, c) < row.len() ==> row[start_from(row, c)] == Tile::Elbow,
    decreases row.len() - c,
{
    if c < row.len() && row[c] != Tile::Elbow {
        lemma_start_from_props(row, c + 1);
    }
}

/// Each mitosis child has exactly one cross fewer than its parent: the
/// cross at the ladder position becomes an elbow and ladder moves only
/// displace crosses.
pub proof fn lemma_child_crosses(g: Seq<Seq<Tile>>, i: int, p: int, n: nat)
    requires
        is_grid(g, n),
        0 <= i && i + 1 < n,
        is_cand(g, i, p),
    ensures
        grid_crosses(mitosis_child(g, i, p)) + 1 == grid_crosses(g),
{
    lemma_start_from_props(g[i], 0);
    assert(g[i][p] == Tile::Cross);
    let row_a = g[i].update(p, Tile::Elbow);
    let base = g.update(i, row_a);
    lemma_row_crosses_update(g[i], p, Tile::Elbow, g[i].len() as int);
    lemma_grid_crosses_update(g, i, row_a, g.len() as int);
    assert(grid_crosses(base) + 1 == grid_crosses(g));
    assert(is_grid(base, n));
    lemma_apply_swaps_crosses(base, i, p, n);
}

/// Every mitosis child of an `n`-grid is an `n`-grid with one cross
/// fewer than its parent.
proof fn lemma_mitosis_spec_crosses(g: Seq<Seq<Tile>>, i: int, n: nat)
    requires
        is_grid(g, n),
        0 <= i && i + 1 < n,
    ensures
        forall|k: int|
            0 <= k < mitosis_spec(g, i).len() ==> is_grid(#[trigger] mitosis_spec(g, i)[k], n)
                && grid_crosses(mitosis_spec(g, i)[k]) + 1 == grid_crosses(g),
{
    lemma_mitosis_spec_shape(g, i, n);
    lemma_cands_upto_range(g, i, g.len() as int);
    assert forall|k: int|
        0 <= k < mitosis_spec(g, i).len() implies is_grid(#[trigger] mitosis_spec(g, i)[k], n)
        && grid_crosses(mitosis_spec(g, i)[k]) + 1 == grid_crosses(g) by {
        let p = cands_upto(g, i, g.len() as int)[k];
        lemma_child_crosses(g, i, p, n);
        assert(mitosis_spec(g, i)[k] == mitosis_child(g, i, p));
    }
}

/// Every grid of one generation step has one cross fewer than the
/// common count of the step's parents.
proof fn lemma_expand_crosses(ds: Seq<Seq<Seq<Tile>>>, i: int, k: int, n: nat, m: nat)
    requires
        0 <= i && i + 1 < n,
        k <= ds.len(),
        forall|t: int|
            0 <= t < ds.len() ==> is_grid(#[trigger] ds[t], n) && grid_crosses(ds[t]) == m,
    ensures
        forall|t: int|
            0 <= t < expand_upto(ds, i, k).len() ==> is_grid(#[trigger] expand_upto(ds, i, k)[t], n)
                && grid_crosses(expand_upto(ds, i, k)[t]) + 1 == m,
    decreases k,
{
    if k > 0 {
        lemma_expand_crosses(ds, i, k - 1, n, m);
        lemma_mitosis_spec_crosses(ds[k - 1], i, n);
        assert forall|t: int|
            0 <= t < expand_upto(ds, i, k).len() implies is_grid(
            #[trigger] expand_upto(ds, i, k)[t],
            n,
        ) && grid_crosses(expand_upto(ds, i, k)[t]) + 1 == m by {
            let prev = expand_upto(ds, i, k - 1);
            if t < prev.len() {
                assert(expand_upto(ds, i, k)[t] == prev[t]);
            } else {
                assert(expand_upto(ds, i, k)[t] == mitosis_spec(ds[k - 1], i)[t - prev.len()]);
            }
        }
    }
}

/// An empty working set stays empty under iteration.
proof fn lemma_iterate_empty(w: Seq<usize>, t: int)
    ensures
        iterate_spec(Seq::<Seq<Seq<Tile>>>::empty(), w, t).len() == 0,
    decreases w.len() - t,
{
    if 0 <= t < w.len() {
        assert(expand_spec(Seq::<Seq<Seq<Tile>>>::empty(), w[t] as int)
            == Seq::<Seq<Seq<Tile>>>::empty());
        lemma_iterate_empty(w, t + 1);
    }
}

/// Feeding the remaining `w.len() - t` letters removes one cross per
/// letter from every surviving grid.
proof fn lemma_iterate_crosses(ds: Seq<Seq<Seq<Tile>>>, w: Seq<usize>, t: int, n: nat, m: nat)
    requires
        0 <= t <= w.len(),
        forall|u: int| 0 <= u < w.len() ==> #[trigger] w[u] + 1 < n,
        forall|k: int|
            0 <= k < ds.len() ==> is_grid(#[trigger] ds[k], n) && grid_crosses(ds[k]) == m,
    ensures
        forall|k: int|
            0 <= k < iterate_spec(ds, w, t).len() ==> is_grid(#[trigger] iterate_spec(ds, w, t)[k], n)
                && grid_crosses(iterate_spec(ds, w, t)[k]) + w.len() == m + t,
    decreases w.len() - t,
{
    if t < w.len() {
        let eds = expand_spec(ds, w[t] as int);
        assert(iterate_spec(ds, w, t) == iterate_spec(eds, w, t + 1));
        lemma_expand_crosses(ds, w[t] as int, ds.len() as int, n, m);
        if m == 0 {
            assert(eds.len() == 0) by {
                if eds.len() > 0 {
                    assert(grid_crosses(eds[0]) + 1 == 0);
                }
            }
            assert(eds =~= Seq::<Seq<Seq<Tile>>>::empty());
            lemma_iterate_empty(w, t + 1);
            assert(iterate_spec(ds, w, t).len() == 0);
        } else {
            assert forall|k: int| 0 <= k < eds.len() implies is_grid(#[trigger] eds[k], n)
                && grid_crosses(eds[k]) == ((m - 1) as nat) by {
                assert(eds[k] == expand_upto(ds, w[t] as int, ds.len() as int)[k]);
            }
            lemma_iterate_crosses(eds, w, t + 1, n, (m - 1) as nat);
            assert forall|k: int|
                0 <= k < iterate_spec(ds, w, t).len() implies is_grid(
                #[trigger] iterate_spec(ds, w, t)[k],
                n,
            ) && grid_crosses(iterate_spec(ds, w, t)[k]) + w.len() == m + t by {
                assert(iterate_spec(ds, w, t)[k] == iterate_spec(eds, w, t + 1)[k]);
            }
        }
    } else {
        assert(iterate_spec(ds, w, t) == ds);
    }
}

/// The length of the word built from the last `t` code entries is the
/// sum of those entries.
proof fn lemma_word_upto_len(c: Seq<usize>, t: int)
    requires
        0 <= t <= c.len(),
    ensures
        word_upto(c, t).len() == sum_from(c, c.len() - t),
    decreases t,
{
    if t > 0 {
        lemma_word_upto_len(c, t - 1);
    }
}

/// The Lehmer code entries from position `m` on sum to the whole
/// Coxeter length less the first `m` entries.
proof fn lemma_sum_from_lehmer(s: Seq<usize>, m: int)
    requires
        s.len() <= usize::MAX,
        0 <= m <= s.len(),
    ensures
        sum_from(lehmer_seq(s), m) + crate::perm::lehmer_sum_upto(s, m) == crate::perm::lehmer_sum(
            s,
        ),
    decreases s.len() - m,
{
    if m < s.len() {
        crate::perm::lemma_count_lt_from_bound(s, s[m], m + 1);
        assert(lehmer_seq(s)[m] == lehmer_at(s, m));
        lemma_sum_from_lehmer(s, m + 1);
    }
}

/// Every letter of the reduced word leaves room for the row below it.
proof fn lemma_word_letters(s: Seq<usize>, t: int)
    requires
        s.len() <= usize::MAX,
        0 <= t <= s.len(),
    ensures
        forall|u: int|
            0 <= u < word_upto(lehmer_seq(s), t).len() ==> #[trigger] word_upto(
                lehmer_seq(s),
                t,
            )[u] + 1 < s.len(),
    decreases t,
{
    if t > 0 {
        lemma_word_letters(s, t - 1);
        let c = lehmer_seq(s);
        let n = s.len() as int;
        crate::perm::lemma_count_lt_from_bound(s, s[n - t], n - t + 1);
        assert(c[n - t] == lehmer_at(s, n - t));
        let ci = c[n - t] as int;
        assert(ci <= t - 1);
        assert forall|u: int|
            0 <= u < word_upto(c, t).len() implies #[trigger] word_upto(c, t)[u] + 1 < s.len() by {
            let prev = word_upto(c, t - 1);
            if u < prev.len() {
                assert(word_upto(c, t)[u] == prev[u]);
            } else {
                assert(word_upto(c, t)[u] == run_spec(t - 1, ci)[u - prev.len()]);
            }
        }
    }
}

/// Crossing-count invariant: every dream the generator produces for the
/// permutation `p` holds exactly as many crosses as the sum of the
/// Lehmer code of `p`, its Coxeter length.
pub proof fn lemma_crossing_count(p: Seq<usize>, k: int)
    requires
        is_perm(p),
        p.len() <= usize::MAX,
        0 <= k < gen_spec(p).len(),
    ensures
        grid_crosses(gen_spec(p)[k]) == crate::perm::lehmer_sum(p),
{
    let n = p.len();
    let q = rev_seq(p);
    let c = lehmer_seq(q);
    let w = word_spec(c);
    assert(w.len() > 0);
    let rw = w.reverse();
    lemma_word_letters(q, n as int);
    assert forall|u: int| 0 <= u < rw.len() implies #[trigger] rw[u] + 1 < n by {
        assert(rw[u] == w[w.len() - 1 - u]);
    }
    lemma_word_upto_len(c, n as int);
    lemma_sum_from_lehmer(q, 0);
    assert(w.len() == crate::perm::lehmer_sum(q));
    lemma_long_grid_crosses(n);
    assert(is_grid(long_grid(n), n));
    crate::perm::lemma_lehmer_sum_reverse(p);
    assert(crate::perm::lehmer_sum(p) + crate::perm::lehmer_sum(q) == crate::perm::tri(n));
    lemma_iterate_crosses(seq![long_grid(n)], rw, 0, n, crate::perm::tri(n));
    assert(gen_spec(p)[k] == iterate_spec(seq![long_grid(n)], rw, 0)[k]);
}

/// Crossing-count invariant, on a generated dream set: every dream in
/// it holds exactly the Coxeter length of its permutation in crosses.
pub proof fn lemma_dreams_crossing_count(rd: &ReducedDreams, k: int)
    requires
        rd.wf(),
        rd.spec_perm().len() <= usize::MAX,
        0 <= k < rd.spec_dreams().len(),
    ensures
        grid_crosses(rd.spec_dreams()[k]@) == crate::perm::lehmer_sum(rd.spec_perm()),
{
    assert(dream_views(rd.spec_dreams())[k] == rd.spec_dreams()[k]@);
    lemma_crossing_count(rd.spec_perm(), k);
}

/// The first `j` tiles of a row of the seed dream hold `j` crosses up
/// to the anti-diagonal and `n - 1 - i` crosses from there on.
proof fn lemma_long_row_crosses(n: nat, i: int, j: int)
    requires
        0 <= i < n,
        0 <= j <= n,
    ensures
        row_crosses_upto(long_grid(n)[i], j) == if i + j + 1 <= n {
            j as nat
        } else {
            (n - 1 - i) as nat
        },
    decreases j,
{
    if j > 0 {
        lemma_long_row_crosses(n, i, j - 1);
    }
}

/// The first `i` rows of the seed dream hold all its crosses but those
/// of the remaining triangle.
proof fn lemma_long_grid_crosses_upto(n: nat, i: int)
    requires
        0 <= i <= n,
    ensures
        grid_crosses_upto(long_grid(n), i) + crate::perm::tri((n - i) as nat) == crate::perm::tri(
            n,
        ),
    decreases i,
{
    if i > 0 {
        lemma_long_grid_crosses_upto(n, i - 1);
        lemma_long_row_crosses(n, i - 1, n as int);
        assert(crate::perm::tri((n - i + 1) as nat) == crate::perm::tri((n - i) as nat) + (
        (n - i) as nat));
    }
}

/// The seed dream of size `n` holds `tri(n)` crosses, the Coxeter
/// length of the longest permutation.
pub proof fn lemma_long_grid_crosses(n: nat)
    ensures
        grid_crosses(long_grid(n)) == crate::perm::tri(n),
{
    lemma_long_grid_crosses_upto(n, n as int);
}

/// A word built from an all-zero Lehmer code is empty.
proof fn lemma_word_zero(c: Seq<usize>, t: int)
    requires
        0 <= t <= c.len(),
        forall|m: int| 0 <= m < c.len() ==> #[trigger] c[m] == 0,
    ensures
        word_upto(c, t).len() == 0,
    decreases t,
{
    if t > 0 {
        lemma_word_zero(c, t - 1);
        assert(run_spec(t - 1, c[c.len() - t] as int).len() == 0);
    }
}

/// Longest-permutation edge case: for the longest permutation the
/// composed permutation is the identity, its reduced word is empty, and
/// the generator returns the empty dream set -- not the single
/// fully-crossed dream. The early exit is part of the specification.
pub proof fn lemma_longest_dream_set_empty(p: Seq<usize>)
    requires
        forall|i: int| 0 <= i < p.len() ==> #[trigger] p[i] == p.len() - 1 - i,
    ensures
        gen_spec(p).len() == 0,
{
    let n = p.len();
    let q = rev_seq(p);
    assert forall|m: int| 0 <= m < n implies #[trigger] lehmer_seq(q)[m] == 0 by {
        assert forall|j: int| m + 1 <= j < n implies #[trigger] q[j] >= q[m] by {
            assert(q[j] == p[n - 1 - j]);
            assert(q[m] == p[n - 1 - m]);
        }
        crate::perm::lemma_count_lt_from_zero(q, q[m], m + 1);
    }
    lemma_word_zero(lehmer_seq(q), n as int);
}

} // verus!
