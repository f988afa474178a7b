//! Sparse vectors of field coefficients, keyed by wire id.
//!
//! A sparse vector stands for the linear combination `sum coeff[w] * value(w)`
//! over the wires it names. It is kept canonical at all times: entries are
//! sorted by strictly increasing wire id and no entry holds a zero
//! coefficient, so two sparse vectors denote the same mapping exactly when
//! they are equal.

use crate::fe::{fe_add, fe_mul, modulus, Fe};
use vstd::arithmetic::div_mod::{
    lemma_add_mod_noop, lemma_mod_bound, lemma_mod_twice, lemma_mul_mod_noop_general,
    lemma_small_mod,
};
use vstd::prelude::*;

verus! {

/// Canonical shape of the entry list: strictly increasing wire ids, no zero
/// coefficient, every coefficient canonical.
pub open spec fn sv_wf(s: Seq<(usize, Fe)>) -> bool {
    &&& forall|i: int| 0 <= i < s.len() ==> (#[trigger] s[i]).1.wf() && s[i].1.val() != 0
    &&& forall|i: int, j: int| 0 <= i < j < s.len() ==> (#[trigger] s[i]).0 < (#[trigger] s[j]).0
}

/// Whether some entry names the wire.
pub open spec fn has_key(s: Seq<(usize, Fe)>, k: usize) -> bool {
    exists|i: int| 0 <= i < s.len() && (#[trigger] s[i]).0 == k
}

/// The value a wire holds under an assignment; zero past the end.
pub open spec fn val_at(aux: Seq<Fe>, k: usize) -> int {
    if k < aux.len() {
        aux[k as int].val()
    } else {
        0
    }
}

/// What the sparse vector denotes under an assignment: the plain integer sum
/// of each coefficient times the value of its wire.
pub open spec fn eval(s: Seq<(usize, Fe)>, aux: Seq<Fe>) -> int
    decreases s.len(),
{
    if s.len() == 0 {
        0
    } else {
        s[0].1.val() * val_at(aux, s[0].0) + eval(s.drop_first(), aux)
    }
}

/// All wire ids lie below the bound.
pub open spec fn keys_below(s: Seq<(usize, Fe)>, n: int) -> bool {
    forall|i: int| 0 <= i < s.len() ==> (#[trigger] s[i]).0 < n
}

/// Appending an entry adds its term to the denoted sum.
pub proof fn lemma_eval_push(s: Seq<(usize, Fe)>, x: (usize, Fe), aux: Seq<Fe>)
    ensures
        eval(s.push(x), aux) == eval(s, aux) + x.1.val() * val_at(aux, x.0),
    decreases s.len(),
{
    if s.len() == 0 {
        assert(s.push(x)[0] == x);
        assert(s.push(x).drop_first() =~= Seq::<(usize, Fe)>::empty());
        assert(eval(Seq::<(usize, Fe)>::empty(), aux) == 0);
    } else {
        assert(s.push(x)[0] == s[0]);
        assert(s.push(x).drop_first() =~= s.drop_first().push(x));
        lemma_eval_push(s.drop_first(), x, aux);
    }
}

/// Lengthening a prefix by one entry adds that entry's term.
pub proof fn lemma_eval_prefix_step(s: Seq<(usize, Fe)>, i: int, aux: Seq<Fe>)
    requires
        0 <= i < s.len(),
    ensures
        eval(s.subrange(0, i + 1), aux) == eval(s.subrange(0, i), aux) + s[i].1.val() * val_at(
            aux,
            s[i].0,
        ),
{
    assert(s.subrange(0, i + 1) =~= s.subrange(0, i).push(s[i]));
    lemma_eval_push(s.subrange(0, i), s[i], aux);
}

/// Equal remainders stay equal under addition of equal remainders.
pub proof fn lemma_add_cong_mod(x1: int, y1: int, x2: int, y2: int, m: int)
    requires
        m > 0,
        x1 % m == x2 % m,
        y1 % m == y2 % m,
    ensures
        (x1 + y1) % m == (x2 + y2) % m,
{
    lemma_add_mod_noop(x1, y1, m);
    lemma_add_mod_noop(x2, y2, m);
}

/// Equal remainders stay equal under multiplication by equal remainders.
pub proof fn lemma_mul_cong_mod(x1: int, y1: int, x2: int, y2: int, m: int)
    requires
        m > 0,
        x1 % m == x2 % m,
        y1 % m == y2 % m,
    ensures
        (x1 * y1) % m == (x2 * y2) % m,
{
    lemma_mul_mod_noop_general(x1, y1, m);
    lemma_mul_mod_noop_general(x2, y2, m);
}

/// The denoted sum reads only the wires the vector names: extending the
/// assignment past every named wire changes nothing.
pub proof fn lemma_eval_aux_extend(s: Seq<(usize, Fe)>, aux1: Seq<Fe>, aux2: Seq<Fe>)
    requires
        keys_below(s, aux1.len() as int),
        aux1.len() <= aux2.len(),
        forall|k: int| 0 <= k < aux1.len() ==> aux1[k] == aux2[k],
    ensures
        eval(s, aux2) == eval(s, aux1),
    decreases s.len(),
{
    if s.len() > 0 {
        assert(s[0] == s.drop_first().push(s[0]).last());
        assert(keys_below(s.drop_first(), aux1.len() as int)) by {
            assert(forall|i: int|
                0 <= i < s.drop_first().len() ==> (#[trigger] s.drop_first()[i]) == s[i + 1]);
        };
        lemma_eval_aux_extend(s.drop_first(), aux1, aux2);
        assert(val_at(aux2, s[0].0) == val_at(aux1, s[0].0));
    }
}

/// What a one-entry vector denotes: its single term.
pub proof fn lemma_eval_single(s: Seq<(usize, Fe)>, aux: Seq<Fe>)
    requires
        s.len() == 1,
    ensures
        eval(s, aux) == s[0].1.val() * val_at(aux, s[0].0),
{
    assert(s.drop_first() =~= Seq::<(usize, Fe)>::empty());
    assert(eval(Seq::<(usize, Fe)>::empty(), aux) == 0);
}

/// A bound on one vector's wires carries over to a vector whose wires all
/// come from it.
pub proof fn lemma_keys_below_subset1(x: Seq<(usize, Fe)>, y: Seq<(usize, Fe)>, n: int)
    requires
        forall|k: usize| #[trigger] has_key(x, k) ==> has_key(y, k),
        keys_below(y, n),
    ensures
        keys_below(x, n),
{
    assert forall|i: int| 0 <= i < x.len() implies (#[trigger] x[i]).0 < n by {
        let kk = x[i].0;
        assert(has_key(x, kk));
        let j = choose|j: int| 0 <= j < y.len() && (#[trigger] y[j]).0 == kk;
    };
}

/// A bound on two vectors' wires carries over to a vector whose wires all
/// come from one of them.
pub proof fn lemma_keys_below_subset2(
    x: Seq<(usize, Fe)>,
    y: Seq<(usize, Fe)>,
    z: Seq<(usize, Fe)>,
    n: int,
)
    requires
        forall|k: usize| #[trigger] has_key(x, k) ==> has_key(y, k) || has_key(z, k),
        keys_below(y, n),
        keys_below(z, n),
    ensures
        keys_below(x, n),
{
    assert forall|i: int| 0 <= i < x.len() implies (#[trigger] x[i]).0 < n by {
        let kk = x[i].0;
        assert(has_key(x, kk));
        if has_key(y, kk) {
            let j = choose|j: int| 0 <= j < y.len() && (#[trigger] y[j]).0 == kk;
        } else {
            let j = choose|j: int| 0 <= j < z.len() && (#[trigger] z[j]).0 == kk;
        }
    };
}

/// A sparse mapping from wire ids to non-zero field coefficients.
#[derive(Debug)]
pub struct SparseVec {
    v: Vec<(usize, Fe)>,
}

impl Clone for SparseVec {
    fn clone(&self) -> (r: Self)
        ensures
            r@ == self@,
    {
        proof {
            use_type_invariant(self);
        }
        let mut v: Vec<(usize, Fe)> = Vec::new();
        let mut i: usize = 0;
        while i < self.v.len()
            invariant
                i <= self.v.len(),
                v@ =~= self.v@.subrange(0, i as int),
                sv_wf(self.v@),
            decreases self.v.len() - i,
        {
            let (w, c) = self.v[i];
            v.push((w, c));
            proof {
                assert(v@ =~= self.v@.subrange(0, i + 1 as int));
            }
            i = i + 1;
        }
        proof {
            assert(v@ =~= self.v@);
        }
        SparseVec { v }
    }
}

impl View for SparseVec {
    type V = Seq<(usize, Fe)>;

    closed spec fn view(&self) -> Seq<(usize, Fe)> {
        self.v@
    }
}

impl SparseVec {
    #[verifier::type_invariant]
    pub open spec fn inv(self) -> bool {
        sv_wf(self@)
    }

    /// The empty mapping.
    pub fn new() -> (r: SparseVec)
        ensures
            r@ =~= Seq::<(usize, Fe)>::empty(),
    {
        SparseVec { v: Vec::new() }
    }

    /// The mapping that carries `c` on the single wire `w`; empty when `c` is
    /// zero, so that the canonical shape is kept.
    pub fn single(w: usize, c: Fe) -> (r: SparseVec)
        requires
            c.wf(),
        ensures
            c.val() != 0 ==> r@ =~= seq![(w, c)],
            c.val() == 0 ==> r@ =~= Seq::<(usize, Fe)>::empty(),
    {
        if c.is_zero() {
            SparseVec { v: Vec::new() }
        } else {
            let mut v: Vec<(usize, Fe)> = Vec::new();
            v.push((w, c));
            SparseVec { v }
        }
    }

    /// The mapping `{0 -> c}` that stands for the constant `c`.
    pub fn constant(c: Fe) -> (r: SparseVec)
        requires
            c.wf(),
        ensures
            c.val() != 0 ==> r@ =~= seq![(0usize, c)],
            c.val() == 0 ==> r@ =~= Seq::<(usize, Fe)>::empty(),
    {
        SparseVec::single(0, c)
    }

    /// How many wires carry a coefficient.
    pub fn len(&self) -> (r: usize)
        ensures
            r == self@.len(),
    {
        self.v.len()
    }

    /// Whether no wire carries a coefficient.
    pub fn is_empty(&self) -> (r: bool)
        ensures
            r == (self@.len() == 0),
    {
        self.v.len() == 0
    }

    /// The entries, sorted by wire id.
    pub fn terms(&self) -> (r: Vec<(usize, Fe)>)
        ensures
            r@ == self@,
    {
        let mut out: Vec<(usize, Fe)> = Vec::new();
        let mut i: usize = 0;
        while i < self.v.len()
            invariant
                i <= self.v.len(),
                out@ =~= self.v@.subrange(0, i as int),
            decreases self.v.len() - i,
        {
            let (w, c) = self.v[i];
            out.push((w, c));
            proof {
                assert(out@ =~= self.v@.subrange(0, i + 1 as int));
            }
            i = i + 1;
        }
        proof {
            assert(out@ =~= self.v@);
        }
        out
    }

    /// The entry at a position.
    pub fn entry(&self, i: usize) -> (r: (usize, Fe))
        requires
            i < self@.len(),
        ensures
            r == self@[i as int],
    {
        self.v[i]
    }

    /// `Some(c)` exactly when the mapping is `{0 -> c}`: a constant and
    /// nothing else.
    pub fn constant_part(&self) -> (r: Option<Fe>)
        ensures
            r == (if self@.len() == 1 && self@[0].0 == 0 {
                Some(self@[0].1)
            } else {
                Option::<Fe>::None
            }),
    {
        if self.v.len() == 1 {
            let (w, c) = self.v[0];
            if w == 0 {
                return Some(c);
            }
        }
        None
    }

    /// `Some(w)` exactly when the mapping is `{w -> 1}`: one wire with a unit
    /// coefficient.
    pub fn unit_wire(&self) -> (r: Option<usize>)
        ensures
            r == (if self@.len() == 1 && self@[0].1.val() == 1 {
                Some(self@[0].0)
            } else {
                Option::<usize>::None
            }),
    {
        if self.v.len() == 1 {
            let (w, c) = self.v[0];
            if c.l0 == 1 && c.l1 == 0 && c.l2 == 0 && c.l3 == 0 {
                return Some(w);
            }
            proof {
                if c.val() == 1 {
                    crate::fe::lemma_fe_val_injective(c, Fe { l0: 1, l1: 0, l2: 0, l3: 0 });
                }
            }
        }
        None
    }
}

/// The destination is the source with one entry, the negative unit for wire
/// `w`, inserted at its sorted slot; everything else is kept verbatim.
pub open spec fn neg_unit_inserted(src: Seq<(usize, Fe)>, w: usize, dst: Seq<(usize, Fe)>) -> bool {
    &&& dst.len() == src.len() + 1
    &&& exists|jj: int|
        #![auto]
        0 <= jj < dst.len() && dst[jj] == (w, crate::fe::fe_minus_one_spec()) && (forall|i: int|
            0 <= i < jj ==> dst[i] == src[i]) && (forall|i: int|
            jj < i < dst.len() ==> dst[i] == src[i - 1])
}

/// Inserting one term adds its value to the denoted sum.
pub proof fn lemma_eval_insert(src: Seq<(usize, Fe)>, w: usize, dst: Seq<(usize, Fe)>, aux: Seq<Fe>)
    requires
        neg_unit_inserted(src, w, dst),
    ensures
        eval(dst, aux) == eval(src, aux) + crate::fe::fe_minus_one_spec().val() * val_at(aux, w),
    decreases src.len(),
{
    let jj = choose|jj: int|
        #![auto]
        0 <= jj < dst.len() && dst[jj] == (w, crate::fe::fe_minus_one_spec()) && (forall|i: int|
            0 <= i < jj ==> dst[i] == src[i]) && (forall|i: int|
            jj < i < dst.len() ==> dst[i] == src[i - 1]);
    if jj == 0 {
        assert(dst.drop_first() =~= src);
    } else {
        assert(dst[0] == src[0]);
        assert(neg_unit_inserted(src.drop_first(), w, dst.drop_first())) by {
            assert(forall|i: int|
                0 <= i < src.drop_first().len() ==> (#[trigger] src.drop_first()[i]) == src[i
                    + 1]);
            assert(forall|i: int|
                0 <= i < dst.drop_first().len() ==> (#[trigger] dst.drop_first()[i]) == dst[i
                    + 1]);
            assert(dst.drop_first()[jj - 1] == (w, crate::fe::fe_minus_one_spec()));
            assert(forall|i: int| 0 <= i < jj - 1 ==> dst.drop_first()[i] == src.drop_first()[i]);
            assert(forall|i: int|
                jj - 1 < i < dst.drop_first().len() ==> dst.drop_first()[i] == src.drop_first()[i
                    - 1]);
        };
        lemma_eval_insert(src.drop_first(), w, dst.drop_first(), aux);
    }
}

/// Inserts the negative unit coefficient for wire `w` at its sorted slot;
/// the wire must not already carry a coefficient.
pub fn insert_neg_unit(m: &SparseVec, w: usize) -> (r: SparseVec)
    requires
        !has_key(m@, w),
    ensures
        neg_unit_inserted(m@, w, r@),
{
    proof {
        use_type_invariant(m);
    }
    let m1 = crate::fe::fe_minus_one();
    let ghost mv = m@;
    let mut out: Vec<(usize, Fe)> = Vec::new();
    let mut i: usize = 0;
    // copy the strictly smaller wires
    while i < m.v.len() && m.v[i].0 < w
        invariant
            i <= mv.len(),
            mv == m.v@,
            sv_wf(mv),
            !has_key(mv, w),
            out@ =~= mv.subrange(0, i as int),
            forall|j: int| 0 <= j < i ==> (#[trigger] mv[j]).0 < w,
        decreases mv.len() - i,
    {
        let (k, c) = m.v[i];
        out.push((k, c));
        proof {
            assert(out@ =~= mv.subrange(0, i + 1 as int));
        }
        i = i + 1;
    }
    let ghost slot = i as int;
    out.push((w, m1));
    proof {
        // the remaining wires are strictly larger: equal is excluded, and
        // sortedness rules out smaller past the stop
        assert forall|j: int| slot <= j < mv.len() implies (#[trigger] mv[j]).0 > w by {
            if mv[j].0 == w {
                assert(has_key(mv, w));
            } else if mv[j].0 < w {
                assert(slot < mv.len());
                if j > slot {
                    assert(mv[slot].0 < mv[j].0);
                }
            }
        };
    }
    let mut j: usize = i;
    proof {
        assert(forall|k: int| 0 <= k < slot ==> out@[k] == mv[k]);
    }
    while j < m.v.len()
        invariant
            0 <= slot <= j <= mv.len(),
            mv == m.v@,
            sv_wf(mv),
            m1 == crate::fe::fe_minus_one_spec(),
            out@.len() == j + 1,
            forall|k: int| 0 <= k < slot ==> #[trigger] out@[k] == mv[k],
            out@[slot] == (w, m1),
            forall|k: int| slot < k < out@.len() ==> #[trigger] out@[k] == mv[k - 1],
            forall|k: int| 0 <= k < slot ==> (#[trigger] mv[k]).0 < w,
            forall|k: int| slot <= k < mv.len() ==> (#[trigger] mv[k]).0 > w,
        decreases mv.len() - j,
    {
        let ghost pre = out@;
        let (k2, c2) = m.v[j];
        out.push((k2, c2));
        proof {
            assert(out@.len() == pre.len() + 1);
            assert(forall|k: int| 0 <= k < pre.len() ==> #[trigger] out@[k] == pre[k]);
            assert((k2, c2) == mv[j as int]);
            assert(out@[j + 1] == mv[j as int]);
            assert(out@[slot] == pre[slot]);
            assert(pre[slot] == (w, m1));
            assert forall|k: int| slot < k < out@.len() implies #[trigger] out@[k] == mv[k
                - 1] by {
                if k < pre.len() {
                    assert(out@[k] == pre[k]);
                    assert(pre[k] == mv[k - 1]);
                } else {
                    assert(k == j + 1);
                }
            };
        }
        j = j + 1;
    }
    proof {
        assert(sv_wf(out@)) by {
            assert forall|p: int, q: int| 0 <= p < q < out@.len() implies (#[trigger] out@[p]).0
                < (#[trigger] out@[q]).0 by {
                if q < slot {
                } else if p < slot && q == slot {
                    assert(out@[p] == mv[p]);
                    assert(mv[p].0 < w);
                } else if p == slot {
                    assert(out@[q] == mv[q - 1]);
                    assert(mv[q - 1].0 > w);
                } else if p > slot {
                    assert(out@[p] == mv[p - 1] && out@[q] == mv[q - 1]);
                } else {
                    assert(p < slot && q > slot);
                    assert(out@[p] == mv[p] && out@[q] == mv[q - 1]);
                    assert(mv[p].0 < w);
                    assert(mv[q - 1].0 > w);
                }
            };
            assert forall|k: int| 0 <= k < out@.len() implies (#[trigger] out@[k]).1.wf()
                && out@[k].1.val() != 0 by {
                if k < slot {
                    assert(out@[k] == mv[k]);
                } else if k == slot {
                    assert(out@[k].1 == crate::fe::fe_minus_one_spec());
                    assert(crate::fe::fe_minus_one_spec().val() == crate::fe::modulus() - 1);
                } else {
                    assert(out@[k] == mv[k - 1]);
                }
            };
        };
        assert(neg_unit_inserted(mv, w, out@)) by {
            assert(out@[slot] == (w, crate::fe::fe_minus_one_spec()));
            assert(forall|i2: int| 0 <= i2 < slot ==> #[trigger] out@[i2] == mv[i2]);
            assert(forall|i2: int| slot < i2 < out@.len() ==> #[trigger] out@[i2] == mv[i2 - 1]);
        };
    }
    SparseVec { v: out }
}

/// Coefficient-wise sum of two sparse vectors, dropping entries whose
/// coefficients cancel, so that the result denotes the sum of what the two
/// arguments denote.
#[verifier::rlimit(50)]
pub fn merge_maps(a: &SparseVec, b: &SparseVec) -> (r: SparseVec)
    ensures
        forall|aux: Seq<Fe>| #[trigger]
            eval(r@, aux) % modulus() == (eval(a@, aux) + eval(b@, aux)) % modulus(),
        forall|k: usize| #[trigger] has_key(r@, k) ==> has_key(a@, k) || has_key(b@, k),
{
    proof {
        use_type_invariant(a);
        use_type_invariant(b);
    }
    let mut out: Vec<(usize, Fe)> = Vec::new();
    let mut i: usize = 0;
    let mut j: usize = 0;
    let ghost av = a@;
    let ghost bv = b@;
    while i < a.v.len() || j < b.v.len()
        invariant
            sv_wf(av),
            sv_wf(bv),
            av == a.v@,
            bv == b.v@,
            i <= av.len(),
            j <= bv.len(),
            sv_wf(out@),
            out@.len() > 0 && i < av.len() ==> out@.last().0 < av[i as int].0,
            out@.len() > 0 && j < bv.len() ==> out@.last().0 < bv[j as int].0,
            forall|aux: Seq<Fe>| #[trigger]
                eval(out@, aux) % modulus() == (eval(av.subrange(0, i as int), aux) + eval(
                    bv.subrange(0, j as int),
                    aux,
                )) % modulus(),
            forall|k: int|
                0 <= k < out@.len() ==> has_key(av, (#[trigger] out@[k]).0) || has_key(
                    bv,
                    out@[k].0,
                ),
        decreases av.len() - i + bv.len() - j,
    {
        let ghost out0 = out@;
        let ghost i0 = i as int;
        let ghost j0 = j as int;
        if j >= b.v.len() || (i < a.v.len() && a.v[i].0 < b.v[j].0) {
            let (w, c) = a.v[i];
            out.push((w, c));
            i = i + 1;
            proof {
                assert(has_key(av, w)) by {
                    assert(av[i0].0 == w);
                };
                assert(bv.subrange(0, j0) == bv.subrange(0, j as int));
                assert forall|aux: Seq<Fe>| #[trigger]
                    eval(out@, aux) % modulus() == (eval(av.subrange(0, i as int), aux) + eval(
                        bv.subrange(0, j as int),
                        aux,
                    )) % modulus() by {
                    lemma_eval_push(out0, (w, c), aux);
                    lemma_eval_prefix_step(av, i0, aux);
                    lemma_add_cong_mod(
                        eval(out0, aux),
                        c.val() * val_at(aux, w),
                        eval(av.subrange(0, i0), aux) + eval(bv.subrange(0, j0), aux),
                        c.val() * val_at(aux, w),
                        modulus(),
                    );
                };
            }
        } else if i >= a.v.len() || b.v[j].0 < a.v[i].0 {
            let (w, c) = b.v[j];
            out.push((w, c));
            j = j + 1;
            proof {
                assert(has_key(bv, w)) by {
                    assert(bv[j0].0 == w);
                };
                assert(av.subrange(0, i0) == av.subrange(0, i as int));
                assert forall|aux: Seq<Fe>| #[trigger]
                    eval(out@, aux) % modulus() == (eval(av.subrange(0, i as int), aux) + eval(
                        bv.subrange(0, j as int),
                        aux,
                    )) % modulus() by {
                    lemma_eval_push(out0, (w, c), aux);
                    lemma_eval_prefix_step(bv, j0, aux);
                    lemma_add_cong_mod(
                        eval(out0, aux),
                        c.val() * val_at(aux, w),
                        eval(av.subrange(0, i0), aux) + eval(bv.subrange(0, j0), aux),
                        c.val() * val_at(aux, w),
                        modulus(),
                    );
                };
            }
        } else {
            let (w, ca) = a.v[i];
            let (_wb, cb) = b.v[j];
            let c = fe_add(ca, cb);
            let skipped = c.is_zero();
            if !skipped {
                out.push((w, c));
            }
            i = i + 1;
            j = j + 1;
            proof {
                assert(has_key(av, w)) by {
                    assert(av[i0].0 == w);
                };
                assert forall|aux: Seq<Fe>| #[trigger]
                    eval(out@, aux) % modulus() == (eval(av.subrange(0, i as int), aux) + eval(
                        bv.subrange(0, j as int),
                        aux,
                    )) % modulus() by {
                    let z = val_at(aux, w);
                    lemma_eval_prefix_step(av, i0, aux);
                    lemma_eval_prefix_step(bv, j0, aux);
                    // the two consumed terms sum to the same remainder as the
                    // single merged term
                    assert((c.val() * z) % modulus() == (ca.val() * z + cb.val() * z) % modulus())
                        by {
                        lemma_mod_bound(ca.val() + cb.val(), modulus());
                        lemma_mod_twice(ca.val() + cb.val(), modulus());
                        lemma_mul_cong_mod(
                            c.val(),
                            z,
                            ca.val() + cb.val(),
                            z,
                            modulus(),
                        );
                        vstd::arithmetic::mul::lemma_mul_is_distributive_add_other_way(
                            z,
                            ca.val(),
                            cb.val(),
                        );
                    };
                    if skipped {
                        lemma_add_cong_mod(
                            eval(out0, aux),
                            0,
                            eval(av.subrange(0, i0), aux) + eval(bv.subrange(0, j0), aux),
                            ca.val() * z + cb.val() * z,
                            modulus(),
                        );
                    } else {
                        lemma_eval_push(out0, (w, c), aux);
                        lemma_add_cong_mod(
                            eval(out0, aux),
                            c.val() * z,
                            eval(av.subrange(0, i0), aux) + eval(bv.subrange(0, j0), aux),
                            ca.val() * z + cb.val() * z,
                            modulus(),
                        );
                    }
                };
            }
        }
    }
    proof {
        assert(av.subrange(0, av.len() as int) == av);
        assert(bv.subrange(0, bv.len() as int) == bv);
        assert forall|k: usize| #[trigger] has_key(out@, k) implies has_key(av, k) || has_key(
            bv,
            k,
        ) by {
            let idx = choose|idx: int| 0 <= idx < out@.len() && (#[trigger] out@[idx]).0 == k;
            assert(has_key(av, out@[idx].0) || has_key(bv, out@[idx].0));
        };
    }
    SparseVec { v: out }
}

/// Every coefficient multiplied by `c`, entries that vanish dropped: the
/// result denotes `c` times what the argument denotes.
pub fn scale_map(m: &SparseVec, c: Fe) -> (r: SparseVec)
    requires
        c.wf(),
    ensures
        forall|aux: Seq<Fe>| #[trigger]
            eval(r@, aux) % modulus() == (c.val() * eval(m@, aux)) % modulus(),
        forall|k: usize| #[trigger] has_key(r@, k) ==> has_key(m@, k),
{
    proof {
        use_type_invariant(m);
    }
    let mut out: Vec<(usize, Fe)> = Vec::new();
    let mut i: usize = 0;
    let ghost mv = m@;
    while i < m.v.len()
        invariant
            sv_wf(mv),
            mv == m.v@,
            c.wf(),
            i <= mv.len(),
            sv_wf(out@),
            out@.len() > 0 && i < mv.len() ==> out@.last().0 < mv[i as int].0,
            forall|aux: Seq<Fe>| #[trigger]
                eval(out@, aux) % modulus() == (c.val() * eval(mv.subrange(0, i as int), aux))
                    % modulus(),
            forall|k: int| 0 <= k < out@.len() ==> has_key(mv, (#[trigger] out@[k]).0),
        decreases mv.len() - i,
    {
        let ghost out0 = out@;
        let ghost i0 = i as int;
        let (w, cv) = m.v[i];
        let t = fe_mul(cv, c);
        let skipped = t.is_zero();
        if !skipped {
            out.push((w, t));
        }
        i = i + 1;
        proof {
            assert(has_key(mv, w)) by {
                assert(mv[i0].0 == w);
            };
            assert forall|aux: Seq<Fe>| #[trigger]
                eval(out@, aux) % modulus() == (c.val() * eval(mv.subrange(0, i as int), aux))
                    % modulus() by {
                let z = val_at(aux, w);
                lemma_eval_prefix_step(mv, i0, aux);
                let e0 = eval(mv.subrange(0, i0), aux);
                // c * (e0 + cv*z) == c*e0 + (cv*c)*z
                assert(c.val() * (e0 + cv.val() * z) == c.val() * e0 + (cv.val() * c.val())
                    * z) by {
                    vstd::arithmetic::mul::lemma_mul_is_distributive_add(
                        c.val(),
                        e0,
                        cv.val() * z,
                    );
                    vstd::arithmetic::mul::lemma_mul_is_associative(c.val(), cv.val(), z);
                    vstd::arithmetic::mul::lemma_mul_is_commutative(c.val(), cv.val());
                };
                assert((t.val() * z) % modulus() == ((cv.val() * c.val()) * z) % modulus()) by {
                    lemma_mod_bound(cv.val() * c.val(), modulus());
                    lemma_mod_twice(cv.val() * c.val(), modulus());
                    lemma_mul_cong_mod(t.val(), z, cv.val() * c.val(), z, modulus());
                };
                if skipped {
                    lemma_add_cong_mod(
                        eval(out0, aux),
                        0,
                        c.val() * e0,
                        (cv.val() * c.val()) * z,
                        modulus(),
                    );
                } else {
                    lemma_eval_push(out0, (w, t), aux);
                    lemma_add_cong_mod(
                        eval(out0, aux),
                        t.val() * z,
                        c.val() * e0,
                        (cv.val() * c.val()) * z,
                        modulus(),
                    );
                }
            };
        }
    }
    proof {
        assert(mv.subrange(0, mv.len() as int) == mv);
        assert forall|k: usize| #[trigger] has_key(out@, k) implies has_key(mv, k) by {
            let idx = choose|idx: int| 0 <= idx < out@.len() && (#[trigger] out@[idx]).0 == k;
            assert(has_key(mv, out@[idx].0));
        };
    }
    SparseVec { v: out }
}

} // verus!
