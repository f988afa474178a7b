//! Linear and quadratic forms: the two expression shapes a variable can
//! carry.
//!
//! A linear form `L` is a sparse combination of wires together with the field
//! value it evaluates to; a quadratic form `Q` is `a * b + c` over three
//! linear forms. Well-formedness is relative to an assignment: the stored
//! value equals the combination's evaluation, and every named wire is
//! allocated.

use crate::ar::{ar_grown, Arena};
use crate::fe::{fe_add, fe_mul, fe_one, modulus, Fe};
use crate::sparse::{
    eval, keys_below, lemma_add_cong_mod, lemma_eval_aux_extend, lemma_eval_single,
    lemma_keys_below_subset1, lemma_keys_below_subset2, lemma_mul_cong_mod, merge_maps, scale_map,
    val_at, SparseVec,
};
use vstd::arithmetic::div_mod::{lemma_mod_bound, lemma_mod_twice, lemma_small_mod};
use vstd::prelude::*;

verus! {

/// A linear combination of wires, `sum l[w] * value(w)`, carrying the value
/// it evaluates to.
#[derive(Debug)]
pub struct L {
    pub v: Fe,
    pub l: SparseVec,
}

/// Two linear forms carry the same value and the same terms.
pub open spec fn l_eqv(a: L, b: L) -> bool {
    a.v == b.v && a.l@ == b.l@
}

impl Clone for L {
    fn clone(&self) -> (r: Self)
        ensures
            l_eqv(r, *self),
    {
        L { v: self.v, l: self.l.clone() }
    }
}

/// The product-plus-tail shape `a * b + c` over three linear forms.
#[derive(Debug)]
pub struct Q {
    pub a: L,
    pub b: L,
    pub c: L,
}

/// Two quadratic forms agree part by part.
pub open spec fn q_eqv(x: Q, y: Q) -> bool {
    l_eqv(x.a, y.a) && l_eqv(x.b, y.b) && l_eqv(x.c, y.c)
}

impl Clone for Q {
    fn clone(&self) -> (r: Self)
        ensures
            q_eqv(r, *self),
    {
        Q { a: self.a.clone(), b: self.b.clone(), c: self.c.clone() }
    }
}

/// A linear form is well-formed for an assignment: canonical value, allocated
/// wires, and the value is what the combination evaluates to.
pub open spec fn l_wf(x: L, aux: Seq<Fe>) -> bool {
    &&& x.v.wf()
    &&& keys_below(x.l@, aux.len() as int)
    &&& x.v.val() == eval(x.l@, aux) % modulus()
}

/// A quadratic form is well-formed when its three linear parts are.
pub open spec fn q_wf(x: Q, aux: Seq<Fe>) -> bool {
    l_wf(x.a, aux) && l_wf(x.b, aux) && l_wf(x.c, aux)
}

/// The value a quadratic form stands for: `a * b + c`, reduced.
pub open spec fn q_val(x: Q) -> int {
    (x.a.v.val() * x.b.v.val() + x.c.v.val()) % modulus()
}

/// Well-formedness survives allocation: a form stays well-formed when the
/// assignment grows past every wire it names.
pub proof fn lemma_l_wf_grow(x: L, aux1: Seq<Fe>, aux2: Seq<Fe>)
    requires
        l_wf(x, aux1),
        aux1.len() <= aux2.len(),
        aux2.subrange(0, aux1.len() as int) == aux1,
    ensures
        l_wf(x, aux2),
{
    assert(forall|k: int| 0 <= k < aux1.len() ==> aux1[k] == aux2[k]);
    lemma_eval_aux_extend(x.l@, aux1, aux2);
}

/// Well-formedness of a quadratic form survives allocation too.
pub proof fn lemma_q_wf_grow(x: Q, aux1: Seq<Fe>, aux2: Seq<Fe>)
    requires
        q_wf(x, aux1),
        aux1.len() <= aux2.len(),
        aux2.subrange(0, aux1.len() as int) == aux1,
    ensures
        q_wf(x, aux2),
{
    lemma_l_wf_grow(x.a, aux1, aux2);
    lemma_l_wf_grow(x.b, aux1, aux2);
    lemma_l_wf_grow(x.c, aux1, aux2);
}

impl L {
    /// The empty combination, worth zero under every assignment.
    pub fn new() -> (r: L)
        ensures
            r.v == crate::fe::fe_zero(),
            r.l@ =~= Seq::<(usize, Fe)>::empty(),
            forall|aux: Seq<Fe>| #[trigger] l_wf(r, aux),
    {
        let r = L { v: Fe::zero(), l: SparseVec::new() };
        proof {
            assert forall|aux: Seq<Fe>| #[trigger] l_wf(r, aux) by {
                assert(eval(r.l@, aux) == 0);
                assert(0int % modulus() == 0) by {
                    lemma_small_mod(0nat, modulus() as nat);
                };
            };
        }
        r
    }

    /// The constant `c`, as the combination `{0 -> c}` on the constant wire.
    pub fn constant(c: Fe) -> (r: L)
        requires
            c.wf(),
        ensures
            r.v == c,
            c.val() != 0 ==> r.l@ =~= seq![(0usize, c)],
            c.val() == 0 ==> r.l@ =~= Seq::<(usize, Fe)>::empty(),
            forall|aux: Seq<Fe>|
                aux.len() >= 1 && #[trigger] val_at(aux, 0) == 1 ==> l_wf(r, aux),
    {
        let r = L { v: c, l: SparseVec::constant(c) };
        proof {
            assert forall|aux: Seq<Fe>|
                aux.len() >= 1 && #[trigger] val_at(aux, 0) == 1 implies l_wf(r, aux) by {
                if c.val() == 0 {
                    assert(eval(r.l@, aux) == 0);
                    lemma_small_mod(0nat, modulus() as nat);
                } else {
                    lemma_eval_single(r.l@, aux);
                    assert(eval(r.l@, aux) == c.val() * 1);
                    assert(c.val() * 1 == c.val()) by {
                        vstd::arithmetic::mul::lemma_mul_basics(c.val());
                    };
                    lemma_small_mod(c.val() as nat, modulus() as nat);
                }
            };
        }
        r
    }

    /// Allocates a fresh wire holding `value` and returns the unit
    /// combination on that wire.
    pub fn allocate(ar: Arena, value: Fe) -> (r: (Arena, L))
        requires
            value.wf(),
        ensures
            ar_grown(r.0@, ar@),
            r.0@.auxes == ar@.auxes.push(value),
            r.0@.wires == ar@.wires,
            r.0@.exprs == ar@.exprs,
            r.0@.input == ar@.input,
            l_wf(r.1, r.0@.auxes),
            r.1.v == value,
            r.1.l@ =~= seq![((ar@.auxes.len() as usize), fe_one())],
    {
        let (ar2, idx) = ar.allocate(value);
        let r = L { v: value, l: SparseVec::single(idx, Fe::one()) };
        proof {
            let aux2 = ar2@.auxes;
            lemma_eval_single(r.l@, aux2);
            assert(val_at(aux2, idx) == value.val());
            assert(1 * value.val() == value.val()) by {
                vstd::arithmetic::mul::lemma_mul_basics(value.val());
            };
            lemma_small_mod(value.val() as nat, modulus() as nat);
            assert(ar2@.auxes.subrange(0, ar@.auxes.len() as int) =~= ar@.auxes);
        }
        (ar2, r)
    }
}

/// The sum of two linear forms: term maps merged, values added.
pub fn l_add_l(x: L, y: L) -> (r: L)
    requires
        x.v.wf(),
        y.v.wf(),
    ensures
        r.v.wf(),
        r.v.val() == (x.v.val() + y.v.val()) % modulus(),
        forall|aux: Seq<Fe>| #[trigger] l_wf(x, aux) && l_wf(y, aux) ==> l_wf(r, aux),
{
    let r = L { v: fe_add(x.v, y.v), l: merge_maps(&x.l, &y.l) };
    proof {
        assert forall|aux: Seq<Fe>| #[trigger] l_wf(x, aux) && l_wf(y, aux) implies l_wf(
            r,
            aux,
        ) by {
            lemma_keys_below_subset2(r.l@, x.l@, y.l@, aux.len() as int);
            assert(eval(r.l@, aux) % modulus() == (eval(x.l@, aux) + eval(y.l@, aux))
                % modulus());
            lemma_mod_twice(eval(x.l@, aux), modulus());
            lemma_mod_twice(eval(y.l@, aux), modulus());
            lemma_small_mod(x.v.val() as nat, modulus() as nat);
            lemma_small_mod(y.v.val() as nat, modulus() as nat);
            lemma_add_cong_mod(
                eval(x.l@, aux),
                eval(y.l@, aux),
                x.v.val(),
                y.v.val(),
                modulus(),
            );
        };
    }
    r
}

/// A scalar times a linear form: every coefficient and the value scaled.
pub fn t_mul_l(t: Fe, x: L) -> (r: L)
    requires
        t.wf(),
        x.v.wf(),
    ensures
        r.v.wf(),
        r.v.val() == (t.val() * x.v.val()) % modulus(),
        forall|aux: Seq<Fe>| #[trigger] l_wf(x, aux) ==> l_wf(r, aux),
{
    let r = L { v: fe_mul(t, x.v), l: scale_map(&x.l, t) };
    proof {
        assert forall|aux: Seq<Fe>| #[trigger] l_wf(x, aux) implies l_wf(r, aux) by {
            lemma_keys_below_subset1(r.l@, x.l@, aux.len() as int);
            assert(eval(r.l@, aux) % modulus() == (t.val() * eval(x.l@, aux)) % modulus());
            lemma_mod_twice(eval(x.l@, aux), modulus());
            lemma_small_mod(t.val() as nat, modulus() as nat);
            lemma_small_mod(x.v.val() as nat, modulus() as nat);
            lemma_mul_cong_mod(t.val(), eval(x.l@, aux), t.val(), x.v.val(), modulus());
        };
    }
    r
}

/// A scalar plus a linear form: the constant folded onto the constant wire.
pub fn t_add_l(t: Fe, x: L) -> (r: L)
    requires
        t.wf(),
        x.v.wf(),
    ensures
        r.v.wf(),
        r.v.val() == (t.val() + x.v.val()) % modulus(),
        forall|aux: Seq<Fe>|
            aux.len() >= 1 && #[trigger] val_at(aux, 0) == 1 && l_wf(x, aux) ==> l_wf(r, aux),
{
    l_add_l(L::constant(t), x)
}

/// The product of two linear forms: a quadratic form with an empty tail.
pub fn l_mul_l(x: L, y: L) -> (r: Q)
    requires
        x.v.wf(),
        y.v.wf(),
    ensures
        r.a == x,
        r.b == y,
        r.c.l@ =~= Seq::<(usize, Fe)>::empty(),
        r.c.v == crate::fe::fe_zero(),
        q_val(r) == (x.v.val() * y.v.val()) % modulus(),
        forall|aux: Seq<Fe>| #[trigger] l_wf(x, aux) && l_wf(y, aux) ==> q_wf(r, aux),
{
    let r = Q { a: x, b: y, c: L::new() };
    r
}

/// A linear form folded into a quadratic form's tail.
pub fn q_add_l(x: Q, y: L) -> (r: Q)
    requires
        x.a.v.wf(),
        x.b.v.wf(),
        x.c.v.wf(),
        y.v.wf(),
    ensures
        r.a == x.a,
        r.b == x.b,
        q_val(r) == (q_val(x) + y.v.val()) % modulus(),
        forall|aux: Seq<Fe>| #[trigger] q_wf(x, aux) && l_wf(y, aux) ==> q_wf(r, aux),
{
    let ghost xv = x.a.v.val() * x.b.v.val() + x.c.v.val();
    let r = Q { a: x.a, b: x.b, c: l_add_l(x.c, y) };
    proof {
        // a*b + ((c + y) % p) and ((a*b + c) % p) + y have equal remainders
        let p = modulus();
        lemma_mod_bound(x.c.v.val() + y.v.val(), p);
        lemma_mod_twice(x.c.v.val() + y.v.val(), p);
        lemma_add_cong_mod(
            x.a.v.val() * x.b.v.val(),
            r.c.v.val(),
            x.a.v.val() * x.b.v.val(),
            x.c.v.val() + y.v.val(),
            p,
        );
        lemma_mod_bound(xv, p);
        lemma_mod_twice(xv, p);
        lemma_add_cong_mod(q_val(x), y.v.val(), xv, y.v.val(), p);
    }
    r
}

/// A scalar plus a quadratic form: folded into the tail.
pub fn t_add_q(t: Fe, x: Q) -> (r: Q)
    requires
        t.wf(),
        x.a.v.wf(),
        x.b.v.wf(),
        x.c.v.wf(),
    ensures
        r.a == x.a,
        r.b == x.b,
        q_val(r) == (q_val(x) + t.val()) % modulus(),
        forall|aux: Seq<Fe>|
            aux.len() >= 1 && #[trigger] val_at(aux, 0) == 1 && q_wf(x, aux) ==> q_wf(r, aux),
{
    let ghost xv = x.a.v.val() * x.b.v.val() + x.c.v.val();
    let r = Q { a: x.a, b: x.b, c: t_add_l(t, x.c) };
    proof {
        let p = modulus();
        lemma_mod_bound(t.val() + x.c.v.val(), p);
        lemma_mod_twice(t.val() + x.c.v.val(), p);
        lemma_add_cong_mod(
            x.a.v.val() * x.b.v.val(),
            r.c.v.val(),
            x.a.v.val() * x.b.v.val(),
            t.val() + x.c.v.val(),
            p,
        );
        lemma_mod_bound(xv, p);
        lemma_mod_twice(xv, p);
        lemma_add_cong_mod(q_val(x), t.val(), xv, t.val(), p);
    }
    r
}

/// A scalar times a quadratic form: one factor and the tail scaled, so that
/// `t*(a*b + c) == a*(t*b) + t*c`.
pub fn t_mul_q(t: Fe, x: Q) -> (r: Q)
    requires
        t.wf(),
        x.a.v.wf(),
        x.b.v.wf(),
        x.c.v.wf(),
    ensures
        r.a == x.a,
        q_val(r) == (t.val() * (x.a.v.val() * x.b.v.val() + x.c.v.val())) % modulus(),
        forall|aux: Seq<Fe>| #[trigger] q_wf(x, aux) ==> q_wf(r, aux),
{
    let r = Q { a: x.a, b: t_mul_l(t, x.b), c: t_mul_l(t, x.c) };
    proof {
        let p = modulus();
        let av = x.a.v.val();
        let bv = x.b.v.val();
        let cv = x.c.v.val();
        let tv = t.val();
        assert(av * (tv * bv) + tv * cv == tv * (av * bv + cv)) by {
            vstd::arithmetic::mul::lemma_mul_is_distributive_add(tv, av * bv, cv);
            vstd::arithmetic::mul::lemma_mul_is_associative(tv, av, bv);
            vstd::arithmetic::mul::lemma_mul_is_associative(av, tv, bv);
            vstd::arithmetic::mul::lemma_mul_is_commutative(tv, av);
        };
        lemma_mod_bound(tv * bv, p);
        lemma_mod_twice(tv * bv, p);
        lemma_mul_cong_mod(av, r.b.v.val(), av, tv * bv, p);
        lemma_mod_bound(tv * cv, p);
        lemma_mod_twice(tv * cv, p);
        lemma_add_cong_mod(av * r.b.v.val(), r.c.v.val(), av * (tv * bv), tv * cv, p);
    }
    r
}

/// Materialises a quadratic form as a fresh wire: allocates a wire holding
/// `a*b + c`, records the definition, and returns the unit combination on
/// that wire. This is the only place non-linear structure enters a wire
/// definition.
pub fn reduce(ar: Arena, x: Q) -> (r: (Arena, L))
    requires
        q_wf(x, ar@.auxes),
    ensures
        ar_grown(r.0@, ar@),
        r.0@.auxes == ar@.auxes.push(r.1.v),
        r.0@.exprs == ar@.exprs,
        r.0@.input == ar@.input,
        l_wf(r.1, r.0@.auxes),
        r.1.v.wf(),
        r.1.v.val() == q_val(x),
        r.1.l@ =~= seq![((ar@.auxes.len() as usize), fe_one())],
        ar@.enabled ==> crate::ar::wire_at(r.0@.wires, ar@.auxes.len() as int) is Some,
        forall|u: int|
            u != ar@.auxes.len() ==> #[trigger] crate::ar::wire_at(r.0@.wires, u)
                == crate::ar::wire_at(ar@.wires, u),
        !ar@.enabled ==> r.0@.wires == ar@.wires,
    {
        proof {
            use_type_invariant(&ar);
            assert(crate::ar::arena_struct_wf(ar@));
        }
        let v = fe_add(fe_mul(x.a.v, x.b.v), x.c.v);
        proof {
            let p = modulus();
            lemma_mod_bound(x.a.v.val() * x.b.v.val(), p);
            lemma_mod_twice(x.a.v.val() * x.b.v.val(), p);
            lemma_add_cong_mod(
                (x.a.v.val() * x.b.v.val()) % p,
                x.c.v.val(),
                x.a.v.val() * x.b.v.val(),
                x.c.v.val(),
                p,
            );
            assert(v.val() == q_val(x));
        }
        let ghost aux0 = ar@.auxes;
        let ghost wires0 = ar@.wires;
        let (ar2, w) = ar.allocate(v);
        let ghost aux1 = ar2@.auxes;
        proof {
            use_type_invariant(&ar2);
            assert(crate::ar::arena_struct_wf(ar2@));
            assert(aux1 == aux0.push(v));
            assert(aux1.subrange(0, aux0.len() as int) =~= aux0);
            lemma_l_wf_grow(x.a, aux0, aux1);
            lemma_l_wf_grow(x.b, aux0, aux1);
            lemma_l_wf_grow(x.c, aux0, aux1);
            // when the arena is live, the new definition's inputs evaluate to
            // the allocated value under the effective assignment
            if ar2@.enabled {
                lemma_live_assignment_is_effective(ar2@);
                assert(crate::ar::wire_input_eval(
                    Some((x.a.l, x.b.l)),
                    x.c.l,
                    crate::ar::effective(aux1),
                ) % modulus() == val_at(crate::ar::effective(aux1), w)) by {
                    let eaux = crate::ar::effective(aux1);
                    assert(eaux == aux1);
                    lemma_mod_twice(eval(x.a.l@, aux1), modulus());
                    lemma_mod_twice(eval(x.b.l@, aux1), modulus());
                    lemma_mod_twice(eval(x.c.l@, aux1), modulus());
                    lemma_small_mod(x.a.v.val() as nat, modulus() as nat);
                    lemma_small_mod(x.b.v.val() as nat, modulus() as nat);
                    lemma_small_mod(x.c.v.val() as nat, modulus() as nat);
                    lemma_mul_cong_mod(
                        eval(x.a.l@, aux1),
                        eval(x.b.l@, aux1),
                        x.a.v.val(),
                        x.b.v.val(),
                        modulus(),
                    );
                    lemma_add_cong_mod(
                        eval(x.a.l@, aux1) * eval(x.b.l@, aux1),
                        eval(x.c.l@, aux1),
                        x.a.v.val() * x.b.v.val(),
                        x.c.v.val(),
                        modulus(),
                    );
                    assert(val_at(eaux, w) == v.val());
                };
            }
        }
        let ar3 = ar2.wire(Some((x.a.l, x.b.l)), x.c.l, Some(w));
        let r = L { v, l: SparseVec::single(w, Fe::one()) };
        proof {
            lemma_eval_single(r.l@, ar3@.auxes);
            assert(val_at(ar3@.auxes, w) == v.val());
            assert(1 * v.val() == v.val()) by {
                vstd::arithmetic::mul::lemma_mul_basics(v.val());
            };
            lemma_small_mod(v.val() as nat, modulus() as nat);
            assert(ar3@.auxes.subrange(0, aux0.len() as int) =~= aux0);
        }
        (ar3, r)
    }

/// While the arena is live the stored assignment and the effective one agree:
/// the constant wire already holds `1`.
pub proof fn lemma_live_assignment_is_effective(v: crate::ar::ArenaView)
    requires
        crate::ar::arena_struct_wf(v),
        v.enabled,
    ensures
        crate::ar::effective(v.auxes) == v.auxes,
{
    crate::fe::lemma_fe_val_injective(v.auxes[0], fe_one());
    assert(crate::ar::effective(v.auxes) =~= v.auxes);
}

} // verus!
