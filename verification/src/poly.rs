use vstd::prelude::*;

use crate::dream::{dream_views, row_crosses, row_crosses_upto, grid_crosses, grid_crosses_upto,
    lemma_row_crosses_upto_bound, Dream, ReducedDreams, Tile};
use crate::matrix::is_grid;
use crate::perm::Perm;

verus! {

broadcast use crate::dream::Dream::lemma_shape;

/// The monomial of a grid over its first `i` rows: one `(row, count)`
/// pair per row with a positive cross count, ascending by row.
pub open spec fn mono_spec(g: Seq<Seq<Tile>>, i: int) -> Seq<(usize, usize)>
    decreases i,
{
    if i <= 0 {
        Seq::empty()
    } else {
        mono_spec(g, i - 1) + (if row_crosses(g[i - 1]) > 0 {
            seq![(((i - 1) as usize), (row_crosses(g[i - 1]) as usize))]
        } else {
            Seq::<(usize, usize)>::empty()
        })
    }
}

/// The monomials of the grids with at least one cross, in order.
pub open spec fn parts_upto(gs: Seq<Seq<Seq<Tile>>>, k: int) -> Seq<Seq<(usize, usize)>>
    decreases k,
{
    if k <= 0 {
        Seq::empty()
    } else {
        parts_upto(gs, k - 1) + (if mono_spec(gs[k - 1], gs[k - 1].len() as int).len() > 0 {
            seq![mono_spec(gs[k - 1], gs[k - 1].len() as int)]
        } else {
            Seq::<Seq<(usize, usize)>>::empty()
        })
    }
}

/// The monomial list of a Schubert polynomial built over the dream set
/// `gs`: dreams without crosses contribute nothing.
pub open spec fn parts_spec(gs: Seq<Seq<Seq<Tile>>>) -> Seq<Seq<(usize, usize)>> {
    parts_upto(gs, gs.len() as int)
}

/// Monomial in row-indexed variables with no coefficient: `(i, p)`
/// represents `x_i^p`, exponents strictly positive, rows ascending.
pub struct Monomial {
    powers: Vec<(usize, usize)>,
}

impl View for Monomial {
    type V = Seq<(usize, usize)>;

    closed spec fn view(&self) -> Seq<(usize, usize)> {
        self.powers@
    }
}

impl Monomial {
    /// The `(row, exponent)` pairs of the monomial.
    pub fn powers(&self) -> (r: &Vec<(usize, usize)>)
        ensures
            r@ == self@,
    {
        &self.powers
    }

    /// The monomial of a dream: one `(row, count)` pair per row with at
    /// least one cross, ascending by row.
    pub fn from_dream(d: &Dream) -> (r: Self)
        requires
            d.wf(),
        ensures
            r@ == mono_spec(d@, d@.len() as int),
    {
        let n = d.dim();
        let mut powers: Vec<(usize, usize)> = Vec::new();
        let mut i: usize = 0;
        while i < n
            invariant
                d.wf(),
                n == d.spec_dim(),
                i <= n,
                powers@ == mono_spec(d@, i as int),
            decreases n - i,
        {
            let mut cnt: usize = 0;
            let mut j: usize = 0;
            while j < n
                invariant
                    d.wf(),
                    n == d.spec_dim(),
                    i < n,
                    j <= n,
                    cnt == row_crosses_upto(d@[i as int], j as int),
                    cnt <= j,
                decreases n - j,
            {
                if d.get(i, j) == Tile::Cross {
                    cnt += 1;
                }
                j += 1;
            }
            proof {
                assert(cnt == row_crosses(d@[i as int]));
            }
            let ghost prev = powers@;
            if cnt > 0 {
                powers.push((i, cnt));
                proof {
                    assert(powers@ =~= prev + seq![((i as usize), cnt)]);
                }
            }
            proof {
                assert(powers@ =~= mono_spec(d@, (i + 1) as int));
            }
            i += 1;
        }
        Self { powers }
    }
}

/// The rendered factor `x_i^p`.
fn factor_str(i: usize, p: usize) -> (r: String)
    ensures
        r@ == crate::text::factor_text(i, p),
{
    if p == 0 {
        proof {
            reveal_strlit("1");
            assert("1"@ =~= seq!['1']);
        }
        "1".to_owned()
    } else {
        proof {
            reveal_strlit("x_");
        }
        let mut s = "x_".to_owned();
        proof {
            assert(s@ =~= seq!['x', '_']);
        }
        let num = crate::text::usize_to_string(i);
        s.append(num.as_str());
        if p == 1 {
            proof {
                assert(s@ =~= crate::text::factor_text(i, p));
            }
            s
        } else {
            proof {
                reveal_strlit("^");
            }
            s.append("^");
            let exp = crate::text::usize_to_string(p);
            s.append(exp.as_str());
            proof {
                assert(s@ =~= crate::text::factor_text(i, p));
            }
            s
        }
    }
}

impl Monomial {
    /// Render as a product of `x_i^p` factors joined by `*`, or the
    /// literal `1` when the monomial has no factor.
    pub fn to_text(&self) -> (r: String)
        ensures
            r@ == crate::text::mono_text(self@),
    {
        let n = self.powers.len();
        if n == 0 {
            proof {
                reveal_strlit("1");
                assert("1"@ =~= seq!['1']);
            }
            return "1".to_owned();
        }
        let first = self.powers[0];
        let mut s = factor_str(first.0, first.1);
        proof {
            assert(s@ == crate::text::mono_join(self@, 1));
        }
        let mut k: usize = 1;
        while k < n
            invariant
                n == self@.len(),
                1 <= k <= n,
                s@ == crate::text::mono_join(self@, k as int),
            decreases n - k,
        {
            proof {
                reveal_strlit("*");
            }
            s.append("*");
            let f = self.powers[k];
            let ft = factor_str(f.0, f.1);
            s.append(ft.as_str());
            proof {
                assert(s@ =~= crate::text::mono_join(self@, k as int) + seq!['*']
                    + crate::text::factor_text(self@[k as int].0, self@[k as int].1));
            }
            k += 1;
        }
        s
    }
}

/// A Schubert polynomial: a permutation together with the ordered,
/// uncombined monomials of its reduced pipe dreams.
pub struct Schubert {
    perm: Perm,
    parts: Vec<Monomial>,
}

impl Schubert {
    /// The permutation of the polynomial.
    pub closed spec fn spec_perm(&self) -> Seq<usize> {
        self.perm@
    }

    /// The monomials of the polynomial.
    pub closed spec fn spec_parts(&self) -> Seq<Monomial> {
        self.parts@
    }

    /// The views of the monomials, in order.
    pub open spec fn parts_views(&self) -> Seq<Seq<(usize, usize)>> {
        Seq::new(self.spec_parts().len(), |k: int| self.spec_parts()[k]@)
    }

    /// Assemble the Schubert polynomial of a generated dream set: each
    /// dream maps to its monomial, monomials without entries are
    /// dropped, generation order is kept and equal monomials are not
    /// merged.
    pub fn from_dreams(dreams: &ReducedDreams) -> (r: Self)
        requires
            dreams.wf(),
        ensures
            r.spec_perm() == dreams.spec_perm(),
            r.parts_views() == parts_spec(dream_views(dreams.spec_dreams())),
    {
        let ds = dreams.iter();
        let n = ds.len();
        let ghost gs = dream_views(dreams.spec_dreams());
        let mut parts: Vec<Monomial> = Vec::new();
        let mut k: usize = 0;
        while k < n
            invariant
                dreams.wf(),
                gs == dream_views(dreams.spec_dreams()),
                n == dreams.spec_dreams().len(),
                k <= n,
                Seq::new(parts@.len(), |m: int| parts@[m]@) == parts_upto(gs, k as int),
            decreases n - k,
        {
            let mono = Monomial::from_dream(&dreams.iter()[k]);
            let ghost prev = parts@;
            if mono.powers().len() > 0 {
                parts.push(mono);
            }
            proof {
                assert(gs[k as int] == dreams.spec_dreams()[k as int]@);
                assert(Seq::new(parts@.len(), |m: int| parts@[m]@) =~= parts_upto(
                    gs,
                    (k + 1) as int,
                ));
            }
            k += 1;
        }
        let r = Self { perm: dreams.perm().duplicate(), parts };
        proof {
            assert(r.parts_views() =~= parts_spec(gs));
        }
        r
    }

    /// The permutation of the polynomial.
    pub fn perm(&self) -> (r: &Perm)
        ensures
            r@ == self.spec_perm(),
    {
        &self.perm
    }

    /// The monomials of the polynomial, in generation order.
    pub fn parts(&self) -> (r: &Vec<Monomial>)
        ensures
            r@ == self.spec_parts(),
    {
        &self.parts
    }

    /// Render as the permutation label, then the monomials joined by
    /// formal addition, or the literal `1` when there are none.
    pub fn to_text(&self) -> (r: String)
        ensures
            r@ == crate::text::schubert_text(self.spec_perm(), self.parts_views()),
    {
        proof {
            reveal_strlit("S_");
        }
        let mut s = "S_".to_owned();
        proof {
            assert(s@ =~= seq!['S', '_']);
        }
        let pt = self.perm.to_text();
        s.append(pt.as_str());
        proof {
            reveal_strlit(" = ");
        }
        s.append(" = ");
        let ghost head = seq!['S', '_'] + crate::text::perm_text(self.spec_perm()) + seq![
            ' ',
            '=',
            ' ',
        ];
        proof {
            assert(s@ =~= head);
        }
        let n = self.parts.len();
        if n == 0 {
            proof {
                reveal_strlit("1");
            }
            s.append("1");
            proof {
                assert(s@ =~= crate::text::schubert_text(self.spec_perm(), self.parts_views()));
            }
            return s;
        }
        let ft = self.parts[0].to_text();
        s.append(ft.as_str());
        proof {
            assert(self.parts_views()[0] == self.spec_parts()[0]@);
            assert(s@ =~= head + crate::text::parts_join(self.parts_views(), 1));
        }
        let mut k: usize = 1;
        while k < n
            invariant
                n == self.spec_parts().len(),
                1 <= k <= n,
                head == seq!['S', '_'] + crate::text::perm_text(self.spec_perm()) + seq![
                    ' ',
                    '=',
                    ' ',
                ],
                s@ == head + crate::text::parts_join(self.parts_views(), k as int),
            decreases n - k,
        {
            proof {
                reveal_strlit(" + ");
            }
            s.append(" + ");
            let mt = self.parts[k].to_text();
            s.append(mt.as_str());
            proof {
                assert(self.parts_views()[k as int] == self.spec_parts()[k as int]@);
                assert(s@ =~= head + (crate::text::parts_join(self.parts_views(), k as int) + seq![
                    ' ',
                    '+',
                    ' ',
                ] + crate::text::mono_text(self.parts_views()[k as int])));
            }
            k += 1;
        }
        proof {
            assert(s@ =~= crate::text::schubert_text(self.spec_perm(), self.parts_views()));
        }
        s
    }
}

/// The sum of the exponents of a monomial.
pub open spec fn pow_sum(ps: Seq<(usize, usize)>) -> nat
    decreases ps.len(),
{
    if ps.len() == 0 {
        0
    } else {
        pow_sum(ps.drop_last()) + (ps.last().1 as nat)
    }
}

/// The exponents over the first `i` rows sum to the crosses there.
proof fn lemma_mono_sum_upto(g: Seq<Seq<Tile>>, i: int)
    requires
        0 <= i,
        forall|r: int| 0 <= r < i ==> row_crosses(#[trigger] g[r]) <= usize::MAX,
    ensures
        pow_sum(mono_spec(g, i)) == grid_crosses_upto(g, i),
    decreases i,
{
    if i > 0 {
        lemma_mono_sum_upto(g, i - 1);
        let prev = mono_spec(g, i - 1);
        if row_crosses(g[i - 1]) > 0 {
            let x = (((i - 1) as usize), (row_crosses(g[i - 1]) as usize));
            assert(mono_spec(g, i) == prev + seq![x]);
            assert((prev + seq![x]).drop_last() =~= prev);
            assert((prev + seq![x]).last() == x);
        } else {
            assert(mono_spec(g, i) =~= prev);
        }
    }
}

/// Monomial exponent sum: for every grid, the exponents of its monomial
/// sum to its number of crosses.
pub proof fn lemma_monomial_exponent_sum(g: Seq<Seq<Tile>>, n: nat)
    requires
        is_grid(g, n),
        n <= usize::MAX,
    ensures
        pow_sum(mono_spec(g, g.len() as int)) == grid_crosses(g),
{
    assert forall|r: int| 0 <= r < g.len() implies row_crosses(#[trigger] g[r]) <= usize::MAX by {
        lemma_row_crosses_upto_bound(g[r], g[r].len() as int);
    }
    lemma_mono_sum_upto(g, g.len() as int);
}

} // verus!
