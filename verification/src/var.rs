//! Variables: the tagged union over which user circuits are written.
//!
//! A variable is empty (`N`, the additive identity), a linear form, or a
//! quadratic form. Arithmetic follows the promotion rules of the algebra:
//! sums of linear forms stay linear, a product of two linear forms becomes
//! quadratic, and any operation that would take a quadratic form past the
//! shape `a * b + c` first materialises it as a fresh wire (`reduce`).

use crate::ar::{ar_grown, effective, exp_eval, Arena};
use crate::fe::{fe_minus_one, modulus, Fe};
use crate::forms::{
    l_add_l, l_mul_l, l_wf, lemma_l_wf_grow, lemma_live_assignment_is_effective, lemma_q_wf_grow,
    q_add_l, q_val, q_wf, reduce, t_add_l, t_add_q, t_mul_l, t_mul_q, L, Q,
};
use crate::sparse::{eval, lemma_add_cong_mod, lemma_mul_cong_mod, val_at};
use vstd::arithmetic::div_mod::{
    lemma_add_mod_noop_right, lemma_mod_bound, lemma_mod_multiples_vanish, lemma_mod_twice,
    lemma_small_mod, lemma_sub_mod_noop_right,
};
use vstd::prelude::*;

verus! {

/// A variable: empty, linear, or quadratic.
#[derive(Debug)]
pub enum V {
    N,
    L(L),
    Q(Q),
}

/// Two variables have the same shape and carry the same forms.
pub open spec fn v_eqv(x: V, y: V) -> bool {
    match (x, y) {
        (V::N, V::N) => true,
        (V::L(a), V::L(b)) => crate::forms::l_eqv(a, b),
        (V::Q(a), V::Q(b)) => crate::forms::q_eqv(a, b),
        _ => false,
    }
}

/// Equivalent variables are interchangeable: same value, same
/// well-formedness.
pub proof fn lemma_v_eqv(x: V, y: V)
    requires
        v_eqv(x, y),
    ensures
        v_val(x) == v_val(y),
        x is N <==> y is N,
        forall|aux: Seq<Fe>| #[trigger] v_wf(x, aux) <==> v_wf(y, aux),
{
}

impl Clone for V {
    fn clone(&self) -> (r: Self)
        ensures
            v_eqv(r, *self),
    {
        match self {
            V::N => V::N,
            V::L(l) => V::L(l.clone()),
            V::Q(q) => V::Q(q.clone()),
        }
    }
}

/// A variable is well-formed for an assignment when the forms it carries are.
pub open spec fn v_wf(x: V, aux: Seq<Fe>) -> bool {
    match x {
        V::N => true,
        V::L(l) => l_wf(l, aux),
        V::Q(q) => q_wf(q, aux),
    }
}

/// The field value a variable stands for, as a reduced integer.
pub open spec fn v_val(x: V) -> int {
    match x {
        V::N => 0,
        V::L(l) => l.v.val(),
        V::Q(q) => q_val(q),
    }
}

/// What addition returns: the other operand where one side is empty, the sum
/// of the values otherwise.
pub open spec fn v_add_val(x: V, y: V) -> int {
    if x is N {
        v_val(y)
    } else if y is N {
        v_val(x)
    } else {
        (v_val(x) + v_val(y)) % modulus()
    }
}

/// What multiplication returns: the other operand where one side is empty,
/// the product of the values otherwise.
pub open spec fn v_mul_val(x: V, y: V) -> int {
    if x is N {
        v_val(y)
    } else if y is N {
        v_val(x)
    } else {
        (v_val(x) * v_val(y)) % modulus()
    }
}

/// A well-formed variable's value is canonical.
pub proof fn lemma_v_val_wf(x: V, aux: Seq<Fe>)
    requires
        v_wf(x, aux),
    ensures
        0 <= v_val(x) < modulus(),
{
    match x {
        V::N => {},
        V::L(l) => {},
        V::Q(q) => {
            lemma_mod_bound(q.a.v.val() * q.b.v.val() + q.c.v.val(), modulus());
        },
    }
}

/// Well-formedness of a variable survives allocation.
pub proof fn lemma_v_wf_grow(x: V, aux1: Seq<Fe>, aux2: Seq<Fe>)
    requires
        v_wf(x, aux1),
        aux1.len() <= aux2.len(),
        aux2.subrange(0, aux1.len() as int) == aux1,
    ensures
        v_wf(x, aux2),
{
    match x {
        V::N => {},
        V::L(l) => lemma_l_wf_grow(l, aux1, aux2),
        V::Q(q) => lemma_q_wf_grow(q, aux1, aux2),
    }
}

/// Marking a wire as input never disturbs the inputs already declared.
proof fn lemma_input_prefix(old_in: Seq<usize>, new_in: Seq<usize>, w: usize)
    requires
        new_in == old_in || new_in == old_in.push(w),
    ensures
        old_in.len() <= new_in.len(),
        new_in.subrange(0, old_in.len() as int) == old_in,
{
    if new_in == old_in.push(w) {
        assert(new_in.subrange(0, old_in.len() as int) =~= old_in);
    } else {
        assert(new_in.subrange(0, old_in.len() as int) =~= old_in);
    }
}

/// Scaling by the element standing for minus one negates a value.
proof fn lemma_minus_one_scale(x: int)
    ensures
        ((modulus() - 1) * x) % modulus() == (0 - x) % modulus(),
{
    let p = modulus();
    assert((p - 1) * x == p * x - 1 * x) by {
        vstd::arithmetic::mul::lemma_mul_is_distributive_sub_other_way(x, p, 1);
    };
    assert(1 * x == x) by {
        vstd::arithmetic::mul::lemma_mul_basics(x);
    };
    assert(p * x + (0 - x) == (p - 1) * x);
    lemma_mod_multiples_vanish(x, 0 - x, p);
}

/// One square-and-multiply step keeps the running product on track: with
/// `a * b^e` standing for the final power, halving the exponent and squaring
/// the base — taking one factor of `b` into `a` when `e` is odd — stands for
/// the same power.
proof fn lemma_pow_step(a: int, b: int, v0: int, e0: nat, expn: nat)
    requires
        e0 > 0,
        (a * vstd::arithmetic::power::pow(b, e0)) % modulus()
            == vstd::arithmetic::power::pow(v0, expn) % modulus(),
    ensures
        e0 % 2 == 1 ==> (((a * b) % modulus()) * vstd::arithmetic::power::pow(
            (b * b) % modulus(),
            e0 / 2,
        )) % modulus() == vstd::arithmetic::power::pow(v0, expn) % modulus(),
        e0 % 2 == 0 ==> (a * vstd::arithmetic::power::pow((b * b) % modulus(), e0 / 2))
            % modulus() == vstd::arithmetic::power::pow(v0, expn) % modulus(),
{
    let p = modulus();
    let e1 = e0 / 2;
    let pw = vstd::arithmetic::power::pow(b, 2 * e1);
    assert(vstd::arithmetic::power::pow(b, 2) == b * b) by {
        vstd::arithmetic::power::lemma_pow_adds(b, 1, 1);
        vstd::arithmetic::power::lemma_pow1(b);
    };
    vstd::arithmetic::power::lemma_pow_multiplies(b, 2, e1);
    assert(vstd::arithmetic::power::pow(b * b, e1) == pw);
    vstd::arithmetic::power::lemma_pow_mod_noop(b * b, e1, p);
    assert(vstd::arithmetic::power::pow((b * b) % p, e1) % p == pw % p);
    if e0 % 2 == 1 {
        assert(e0 == 2 * e1 + 1);
        assert(vstd::arithmetic::power::pow(b, e0) == b * pw) by {
            vstd::arithmetic::power::lemma_pow_adds(b, 1, 2 * e1);
            vstd::arithmetic::power::lemma_pow1(b);
        };
        lemma_mod_bound(a * b, p);
        lemma_mod_twice(a * b, p);
        lemma_mul_cong_mod((a * b) % p, vstd::arithmetic::power::pow((b * b) % p, e1), a * b, pw, p);
        assert((a * b) * pw == a * (b * pw)) by {
            vstd::arithmetic::mul::lemma_mul_is_associative(a, b, pw);
        };
    } else {
        assert(e0 == 2 * e1);
        lemma_mul_cong_mod(a, vstd::arithmetic::power::pow((b * b) % p, e1), a, pw, p);
        lemma_mod_twice(vstd::arithmetic::power::pow((b * b) % p, e1), p);
    }
}

/// A linear form that is already a bare wire: one term with a unit
/// coefficient.
pub open spec fn unit_linear(x: V) -> bool {
    x is L && x->L_0.l@.len() == 1 && x->L_0.l@[0].1 == crate::fe::fe_one()
}

impl V {
    /// The empty variable.
    pub fn new() -> (r: V)
        ensures
            r is N,
    {
        V::N
    }

    /// The field value this variable stands for; zero for the empty variable.
    pub fn value(&self) -> (r: Fe)
        requires
            exists|aux: Seq<Fe>| #[trigger] v_wf(*self, aux),
        ensures
            r.wf(),
            r.val() == v_val(*self),
    {
        proof {
            let aux = choose|aux: Seq<Fe>| #[trigger] v_wf(*self, aux);
        }
        match self {
            V::N => Fe::zero(),
            V::L(l) => l.v,
            V::Q(q) => {
                let r = crate::fe::fe_add(crate::fe::fe_mul(q.a.v, q.b.v), q.c.v);
                proof {
                    let p = modulus();
                    lemma_mod_bound(q.a.v.val() * q.b.v.val(), p);
                    lemma_mod_twice(q.a.v.val() * q.b.v.val(), p);
                    lemma_add_cong_mod(
                        (q.a.v.val() * q.b.v.val()) % p,
                        q.c.v.val(),
                        q.a.v.val() * q.b.v.val(),
                        q.c.v.val(),
                        p,
                    );
                }
                r
            },
        }
    }

    /// Unary negation: every coefficient and the value scaled by minus one.
    pub fn neg(self) -> (r: V)
        requires
            exists|aux: Seq<Fe>| #[trigger] v_wf(self, aux),
        ensures
            r is N <==> self is N,
            r is Q <==> self is Q,
            v_val(r) == (0 - v_val(self)) % modulus(),
            forall|aux: Seq<Fe>| #[trigger] v_wf(self, aux) ==> v_wf(r, aux),
    {
        proof {
            let aux = choose|aux: Seq<Fe>| #[trigger] v_wf(self, aux);
        }
        let minus = fe_minus_one();
        match self {
            V::N => {
                proof {
                    lemma_small_mod(0nat, modulus() as nat);
                }
                V::N
            },
            V::L(l) => {
                let r = t_mul_l(minus, l);
                proof {
                    lemma_minus_one_scale(l.v.val());
                }
                V::L(r)
            },
            V::Q(q) => {
                let r = t_mul_q(minus, q);
                proof {
                    let p = modulus();
                    let x = q.a.v.val() * q.b.v.val() + q.c.v.val();
                    lemma_minus_one_scale(x);
                    lemma_sub_mod_noop_right(0, x, p);
                }
                V::Q(r)
            },
        }
    }

    /// Addition, by the promotion rules: the empty variable is the identity,
    /// linear forms merge, a linear form folds into a quadratic tail, and the
    /// right quadratic of a quadratic pair is first materialised as a wire.
    pub fn add(self, ar: Arena, rhs: V) -> (res: (Arena, V))
        requires
            v_wf(self, ar@.auxes),
            v_wf(rhs, ar@.auxes),
        ensures
            ar_grown(res.0@, ar@),
            res.0@.exprs == ar@.exprs,
            res.0@.input == ar@.input,
            v_wf(res.1, res.0@.auxes),
            v_val(res.1) == v_add_val(self, rhs),
            res.1 is N <==> (self is N && rhs is N),
            !(self is Q && rhs is Q) ==> res.0@ == ar@,
    {
        proof {
            assert(ar@.auxes.subrange(0, ar@.auxes.len() as int) =~= ar@.auxes);
        }
        match (self, rhs) {
            (V::N, y) => (ar, y),
            (x, V::N) => (ar, x),
            (V::L(x), V::L(y)) => {
                let r = l_add_l(x, y);
                (ar, V::L(r))
            },
            (V::L(x), V::Q(y)) => {
                let r = q_add_l(y, x);
                (ar, V::Q(r))
            },
            (V::Q(x), V::L(y)) => {
                let r = q_add_l(x, y);
                (ar, V::Q(r))
            },
            (V::Q(x), V::Q(y)) => {
                let ghost aux0 = ar@.auxes;
                let (ar2, ly) = reduce(ar, y);
                let r = q_add_l(x, ly);
                proof {
                    assert(ar2@.auxes.subrange(0, aux0.len() as int) =~= aux0);
                    lemma_q_wf_grow(x, aux0, ar2@.auxes);
                }
                (ar2, V::Q(r))
            },
        }
    }

    /// Subtraction: addition of the negated right operand.
    pub fn sub(self, ar: Arena, rhs: V) -> (res: (Arena, V))
        requires
            v_wf(self, ar@.auxes),
            v_wf(rhs, ar@.auxes),
        ensures
            ar_grown(res.0@, ar@),
            res.0@.exprs == ar@.exprs,
            res.0@.input == ar@.input,
            v_wf(res.1, res.0@.auxes),
            v_val(res.1) == (v_val(self) - v_val(rhs)) % modulus(),
            res.1 is N <==> (self is N && rhs is N),
            !(self is Q && rhs is Q) ==> res.0@ == ar@,
    {
        let n = rhs.neg();
        let (ar2, r) = self.add(ar, n);
        proof {
            let p = modulus();
            lemma_v_val_wf(self, ar@.auxes);
            lemma_v_val_wf(rhs, ar@.auxes);
            if self is N {
                if rhs is N {
                    lemma_small_mod(0nat, p as nat);
                } else {
                    lemma_sub_mod_noop_right(0, v_val(rhs), p);
                    assert(v_val(r) == (0 - v_val(rhs)) % p);
                }
            } else if rhs is N {
                lemma_small_mod(v_val(self) as nat, p as nat);
            } else {
                lemma_sub_mod_noop_right(0, v_val(rhs), p);
                lemma_mod_bound(0 - v_val(rhs), p);
                lemma_mod_twice(0 - v_val(rhs), p);
                lemma_add_mod_noop_right(v_val(self), 0 - v_val(rhs), p);
                assert(v_val(r) == (v_val(self) + (0 - v_val(rhs)) % p) % p);
            }
        }
        (ar2, r)
    }

    /// Multiplication, by the promotion rules: the empty variable passes the
    /// other side through, two linear forms become one quadratic form, and a
    /// quadratic operand is first materialised as a wire.
    pub fn mul(self, ar: Arena, rhs: V) -> (res: (Arena, V))
        requires
            v_wf(self, ar@.auxes),
            v_wf(rhs, ar@.auxes),
        ensures
            ar_grown(res.0@, ar@),
            res.0@.exprs == ar@.exprs,
            res.0@.input == ar@.input,
            v_wf(res.1, res.0@.auxes),
            v_val(res.1) == v_mul_val(self, rhs),
            res.1 is N <==> (self is N && rhs is N),
            !(self is Q) && !(rhs is Q) ==> res.0@ == ar@,
            self is L && rhs is L ==> res.1 is Q && res.1->Q_0.a == self->L_0 && res.1->Q_0.b
                == rhs->L_0 && res.1->Q_0.c.l@ =~= Seq::<(usize, Fe)>::empty()
                && res.1->Q_0.c.v == crate::fe::fe_zero(),
    {
        proof {
            assert(ar@.auxes.subrange(0, ar@.auxes.len() as int) =~= ar@.auxes);
        }
        match (self, rhs) {
            (V::N, y) => (ar, y),
            (x, V::N) => (ar, x),
            (V::L(x), V::L(y)) => {
                let r = l_mul_l(x, y);
                (ar, V::Q(r))
            },
            (V::L(x), V::Q(y)) => {
                let ghost aux0 = ar@.auxes;
                let (ar2, ly) = reduce(ar, y);
                let r = l_mul_l(ly, x);
                proof {
                    assert(ar2@.auxes.subrange(0, aux0.len() as int) =~= aux0);
                    lemma_l_wf_grow(x, aux0, ar2@.auxes);
                    vstd::arithmetic::mul::lemma_mul_is_commutative(ly.v.val(), x.v.val());
                }
                (ar2, V::Q(r))
            },
            (V::Q(x), V::L(y)) => {
                let ghost aux0 = ar@.auxes;
                let (ar2, lx) = reduce(ar, x);
                let r = l_mul_l(lx, y);
                proof {
                    assert(ar2@.auxes.subrange(0, aux0.len() as int) =~= aux0);
                    lemma_l_wf_grow(y, aux0, ar2@.auxes);
                    vstd::arithmetic::mul::lemma_mul_is_commutative(lx.v.val(), y.v.val());
                }
                (ar2, V::Q(r))
            },
            (V::Q(x), V::Q(y)) => {
                let ghost aux0 = ar@.auxes;
                let (ar2, lx) = reduce(ar, x);
                let ghost aux1 = ar2@.auxes;
                proof {
                    assert(aux1.subrange(0, aux0.len() as int) =~= aux0);
                    lemma_q_wf_grow(y, aux0, aux1);
                }
                let (ar3, ly) = reduce(ar2, y);
                proof {
                    assert(ar3@.auxes.subrange(0, aux1.len() as int) =~= aux1);
                    assert(ar3@.auxes.subrange(0, aux0.len() as int) =~= aux0);
                    lemma_l_wf_grow(lx, aux1, ar3@.auxes);
                }
                let r = l_mul_l(lx, ly);
                (ar3, V::Q(r))
            },
        }
    }

    /// Marks this variable as a public input of the circuit: a linear form
    /// that is already a bare wire is declared as it stands; anything else is
    /// materialised as a named wire first. The empty variable is a no-op.
    pub fn inputize(self, ar: Arena) -> (r: Arena)
        requires
            v_wf(self, ar@.auxes),
        ensures
            ar_grown(r@, ar@),
            r@.exprs == ar@.exprs,
            ar@.input.len() <= r@.input.len(),
            r@.input.subrange(0, ar@.input.len() as int) == ar@.input,
            self is N ==> r@ == ar@,
            ar@.enabled && !(self is N) ==> exists|w: usize|
                #[trigger] r@.input.contains(w) && w < r@.auxes.len() && val_at(
                    effective(r@.auxes),
                    w,
                ) == v_val(self),
            unit_linear(self) ==> r@.auxes == ar@.auxes && r@.wires == ar@.wires
                && r@.input.contains(self->L_0.l@[0].0) && (if ar@.input.contains(
                self->L_0.l@[0].0,
            ) {
                r@.input == ar@.input
            } else {
                r@.input =~= ar@.input.push(self->L_0.l@[0].0)
            }),
            !(self is N) && !unit_linear(self) ==> r@.auxes.len() == ar@.auxes.len() + 1
                && r@.auxes[ar@.auxes.len() as int].val() == v_val(self) && r@.input
                =~= ar@.input.push((ar@.auxes.len() as usize)),
    {
        proof {
            use_type_invariant(&ar);
            assert(crate::ar::arena_struct_wf(ar@));
            assert(ar@.auxes.subrange(0, ar@.auxes.len() as int) =~= ar@.auxes);
        }
        let nw = ar.num_wires();
        match self {
            V::N => ar,
            V::L(x) => {
                let uw = x.l.unit_wire();
                if let Some(w) = uw {
                    proof {
                        assert(x.l@[0].0 == w && x.l@[0].0 < ar@.auxes.len());
                        assert(x.l@[0].1.val() == 1);
                        crate::fe::lemma_fe_val_injective(x.l@[0].1, crate::fe::fe_one());
                        assert(unit_linear(V::L(x)));
                    }
                    let r = ar.input(w);
                    proof {
                        lemma_input_prefix(ar@.input, r@.input, w);
                        assert(r@.input.contains(w)) by {
                            if ar@.input.contains(w) {
                            } else {
                                assert(r@.input[r@.input.len() - 1] == w);
                            }
                        };
                        if ar@.enabled {
                            lemma_live_assignment_is_effective(ar@);
                            assert(effective(r@.auxes) == r@.auxes);
                            crate::sparse::lemma_eval_single(x.l@, r@.auxes);
                            assert(eval(x.l@, r@.auxes) == 1 * val_at(r@.auxes, w));
                            assert(1 * val_at(r@.auxes, w) == val_at(r@.auxes, w)) by {
                                vstd::arithmetic::mul::lemma_mul_basics(val_at(r@.auxes, w));
                            };
                            assert(r@.auxes[w as int].wf());
                            lemma_small_mod(val_at(r@.auxes, w) as nat, modulus() as nat);
                            assert(val_at(effective(r@.auxes), w) == v_val(self));
                        }
                    }
                    r
                } else {
                    proof {
                        assert(!unit_linear(V::L(x))) by {
                            if x.l@.len() == 1 && x.l@[0].1 == crate::fe::fe_one() {
                                assert(x.l@[0].1.val() == 1);
                            }
                        };
                    }
                    let ghost aux0 = ar@.auxes;
                    let ghost in0 = ar@.input;
                    let (ar2, w) = ar.allocate(x.v);
                    let ghost aux1 = ar2@.auxes;
                    proof {
                        use_type_invariant(&ar2);
                        assert(crate::ar::arena_struct_wf(ar2@));
                        assert(aux1.subrange(0, aux0.len() as int) =~= aux0);
                        lemma_l_wf_grow(x, aux0, aux1);
                        if ar2@.enabled {
                            lemma_live_assignment_is_effective(ar2@);
                            assert(effective(aux1) == aux1);
                            lemma_small_mod(x.v.val() as nat, modulus() as nat);
                            assert(val_at(effective(aux1), w) == x.v.val());
                        }
                        crate::ar::lemma_tip_unreferenced(ar@, ar2@, w);
                    }
                    let ar3 = ar2.wire(None, x.l, Some(w));
                    proof {
                        assert(!in0.contains(w)) by {
                            if in0.contains(w) {
                                let j = choose|j: int| 0 <= j < in0.len() && in0[j] == w;
                                assert(in0[j] < aux0.len());
                            }
                        };
                    }
                    let r = ar3.input(w);
                    proof {
                        lemma_input_prefix(ar3@.input, r@.input, w);
                        assert(r@.input =~= in0.push(w));
                        assert(r@.input.contains(w)) by {
                            assert(r@.input[r@.input.len() - 1] == w);
                        };
                        assert(r@.auxes[aux0.len() as int].val() == v_val(self));
                        if ar@.enabled {
                            assert(val_at(effective(r@.auxes), w) == v_val(self));
                        }
                    }
                    r
                }
            },
            V::Q(q) => {
                let ghost aux0 = ar@.auxes;
                let ghost in0 = ar@.input;
                let (ar2, lx) = reduce(ar, q);
                let uw = lx.l.unit_wire();
                proof {
                    use_type_invariant(&ar2);
                    assert(crate::ar::arena_struct_wf(ar2@));
                    assert(uw is Some);
                    assert(uw->Some_0 < ar2@.auxes.len());
                    assert(ar2@.auxes.subrange(0, aux0.len() as int) =~= aux0);
                }
                let w = match uw {
                    Some(w) => w,
                    None => 0,
                };
                proof {
                    assert(w == aux0.len());
                    assert(!in0.contains(w)) by {
                        if in0.contains(w) {
                            let j = choose|j: int| 0 <= j < in0.len() && in0[j] == w;
                            assert(in0[j] < aux0.len());
                        }
                    };
                }
                let r = ar2.input(w);
                proof {
                    lemma_input_prefix(ar2@.input, r@.input, w);
                    assert(r@.input =~= in0.push(w));
                    assert(r@.input.contains(w)) by {
                        assert(r@.input[r@.input.len() - 1] == w);
                    };
                    assert(r@.auxes[aux0.len() as int] == lx.v);
                    assert(r@.auxes[aux0.len() as int].val() == v_val(self));
                    if ar@.enabled {
                        lemma_live_assignment_is_effective(ar2@);
                        assert(effective(r@.auxes) == r@.auxes);
                        assert(val_at(effective(r@.auxes), w) == v_val(self));
                    }
                }
                r
            },
        }
    }

    /// Records the equality `self = 0` as a free expression; the empty
    /// variable is a no-op, and nothing is recorded while the arena is
    /// disabled.
    pub fn equals_zero(self, ar: Arena) -> (r: Arena)
        requires
            v_wf(self, ar@.auxes),
        ensures
            r@.auxes == ar@.auxes,
            r@.wires == ar@.wires,
            r@.input == ar@.input,
            r@.enabled == ar@.enabled,
            !ar@.enabled || self is N ==> r@.exprs == ar@.exprs,
            ar@.enabled && !(self is N) ==> r@.exprs.len() == ar@.exprs.len() + 1
                && r@.exprs.subrange(0, ar@.exprs.len() as int) == ar@.exprs && exp_eval(
                r@.exprs.last(),
                effective(ar@.auxes),
            ) % modulus() == v_val(self),
    {
        proof {
            use_type_invariant(&ar);
            assert(crate::ar::arena_struct_wf(ar@));
            assert(crate::ar::arena_sem_wf(ar@));
        }
        let ghost eaux = effective(ar@.auxes);
        let ghost enabled = ar@.enabled;
        proof {
            assert(val_at(eaux, 0) == 1) by {
                assert(eaux[0] == crate::fe::fe_one());
            };
            if enabled {
                lemma_live_assignment_is_effective(ar@);
            }
        }
        match self {
            V::N => ar,
            V::L(x) => {
                let r = ar.wire(None, x.l, None);
                proof {
                    if enabled {
                        assert(exp_eval(r@.exprs.last(), eaux) % modulus() == eval(x.l@, eaux)
                            % modulus());
                        assert(eval(x.l@, eaux) % modulus() == x.v.val());
                    }
                }
                r
            },
            V::Q(q) => {
                let r = ar.wire(Some((q.a.l, q.b.l)), q.c.l, None);
                proof {
                    if enabled {
                        let p = modulus();
                        assert(exp_eval(r@.exprs.last(), eaux) % p == (eval(q.a.l@, eaux) * eval(
                            q.b.l@,
                            eaux,
                        ) + eval(q.c.l@, eaux)) % p);
                        lemma_mod_twice(eval(q.a.l@, eaux), p);
                        lemma_mod_twice(eval(q.b.l@, eaux), p);
                        lemma_mod_twice(eval(q.c.l@, eaux), p);
                        lemma_small_mod(q.a.v.val() as nat, p as nat);
                        lemma_small_mod(q.b.v.val() as nat, p as nat);
                        lemma_small_mod(q.c.v.val() as nat, p as nat);
                        lemma_mul_cong_mod(
                            eval(q.a.l@, eaux),
                            eval(q.b.l@, eaux),
                            q.a.v.val(),
                            q.b.v.val(),
                            p,
                        );
                        lemma_add_cong_mod(
                            eval(q.a.l@, eaux) * eval(q.b.l@, eaux),
                            eval(q.c.l@, eaux),
                            q.a.v.val() * q.b.v.val(),
                            q.c.v.val(),
                            p,
                        );
                    }
                }
                r
            },
        }
    }

    /// Records the equality `self = rhs` as the free expression
    /// `self - rhs = 0`.
    pub fn equals(self, ar: Arena, rhs: V) -> (r: Arena)
        requires
            v_wf(self, ar@.auxes),
            v_wf(rhs, ar@.auxes),
        ensures
            ar_grown(r@, ar@),
            r@.input == ar@.input,
            !ar@.enabled || (self is N && rhs is N) ==> r@.exprs == ar@.exprs,
            ar@.enabled && !(self is N && rhs is N) ==> r@.exprs.len() == ar@.exprs.len() + 1
                && r@.exprs.subrange(0, ar@.exprs.len() as int) == ar@.exprs && exp_eval(
                r@.exprs.last(),
                effective(r@.auxes),
            ) % modulus() == (v_val(self) - v_val(rhs)) % modulus(),
            !(self is Q && rhs is Q) ==> r@.auxes == ar@.auxes && r@.wires == ar@.wires,
    {
        let (ar2, d) = self.sub(ar, rhs);
        let r = d.equals_zero(ar2);
        proof {
            assert(effective(r@.auxes) == effective(ar2@.auxes));
        }
        r
    }

    /// Records the equality `self = t` for a constant `t`.
    pub fn equals_const(self, ar: Arena, t: Fe) -> (r: Arena)
        requires
            v_wf(self, ar@.auxes),
            t.wf(),
            ar@.enabled,
        ensures
            ar_grown(r@, ar@),
            r@.input == ar@.input,
            r@.exprs.len() == ar@.exprs.len() + 1,
            r@.exprs.subrange(0, ar@.exprs.len() as int) == ar@.exprs,
            exp_eval(r@.exprs.last(), effective(r@.auxes)) % modulus() == (v_val(self) - t.val())
                % modulus(),
            r@.auxes == ar@.auxes,
            r@.wires == ar@.wires,
    {
        proof {
            use_type_invariant(&ar);
            assert(crate::ar::arena_struct_wf(ar@));
            crate::fe::lemma_fe_val_injective(ar@.auxes[0], crate::fe::fe_one());
            assert(val_at(ar@.auxes, 0) == 1);
        }
        let c = crate::forms::L::constant(t);
        self.equals(ar, V::L(c))
    }

    /// Raises a variable to a constant power by square-and-multiply. The
    /// result starts from the constant one, so the empty variable yields one.
    pub fn pow(self, ar: Arena, exp: u64) -> (res: (Arena, V))
        requires
            v_wf(self, ar@.auxes),
            ar@.enabled,
        ensures
            ar_grown(res.0@, ar@),
            res.0@.exprs == ar@.exprs,
            res.0@.input == ar@.input,
            v_wf(res.1, res.0@.auxes),
            !(res.1 is N),
            self is N ==> v_val(res.1) == 1,
            !(self is N) ==> v_val(res.1) == vstd::arithmetic::power::pow(
                v_val(self),
                exp as nat,
            ) % modulus(),
    {
        proof {
            use_type_invariant(&ar);
            assert(crate::ar::arena_struct_wf(ar@));
            crate::fe::lemma_fe_val_injective(ar@.auxes[0], crate::fe::fe_one());
            assert(val_at(ar@.auxes, 0) == 1);
        }
        let ghost v0 = v_val(self);
        let mut arx = ar;
        let mut base = self;
        let mut e = exp;
        let mut acc = V::L(crate::forms::L::constant(Fe::one()));
        proof {
            assert(ar@.auxes.subrange(0, ar@.auxes.len() as int) =~= ar@.auxes);
            if !(base is N) {
                assert((v_val(acc) * vstd::arithmetic::power::pow(v_val(base), e as nat))
                    % modulus() == vstd::arithmetic::power::pow(v0, exp as nat) % modulus()) by {
                    vstd::arithmetic::mul::lemma_mul_basics(
                        vstd::arithmetic::power::pow(v0, e as nat),
                    );
                };
            }
        }
        while e > 0
            invariant
                ar_grown(arx@, ar@),
                arx@.exprs == ar@.exprs,
                arx@.input == ar@.input,
                v_wf(base, arx@.auxes),
                v_wf(acc, arx@.auxes),
                !(acc is N),
                base is N <==> self is N,
                self is N ==> v_val(acc) == 1,
                !(self is N) ==> (v_val(acc) * vstd::arithmetic::power::pow(v_val(base), e as nat))
                    % modulus() == vstd::arithmetic::power::pow(v0, exp as nat) % modulus(),
            decreases e,
        {
            let ghost e0 = e as nat;
            let ghost av = v_val(acc);
            let ghost bv = v_val(base);
            proof {
                lemma_v_val_wf(acc, arx@.auxes);
                lemma_v_val_wf(base, arx@.auxes);
                if !(self is N) {
                    lemma_pow_step(av, bv, v0, e0, exp as nat);
                }
            }
            let odd = e % 2 == 1;
            if odd {
                let ghost pre = arx@;
                let bc = base.clone();
                proof {
                    lemma_v_eqv(bc, base);
                }
                let (ar2, acc2) = acc.mul(arx, bc);
                proof {
                    crate::ar::lemma_ar_grown_trans(ar2@, pre, ar@);
                    lemma_v_wf_grow(base, pre.auxes, ar2@.auxes);
                }
                arx = ar2;
                acc = acc2;
            }
            let ghost mid = arx@;
            let bc2 = base.clone();
            proof {
                lemma_v_eqv(bc2, base);
            }
            let (ar3, base2) = bc2.mul(arx, base);
            proof {
                crate::ar::lemma_ar_grown_trans(ar3@, mid, ar@);
                lemma_v_wf_grow(acc, mid.auxes, ar3@.auxes);
            }
            arx = ar3;
            base = base2;
            e = e / 2;
            proof {
                if !(self is N) {
                    assert(v_val(base) == (bv * bv) % modulus());
                    assert(e as nat == e0 / 2);
                    if odd {
                        assert(v_val(acc) == (av * bv) % modulus());
                    } else {
                        assert(v_val(acc) == av);
                    }
                }
            }
        }
        proof {
            if !(self is N) {
                vstd::arithmetic::power::lemma_pow0(v_val(base));
                vstd::arithmetic::mul::lemma_mul_basics(v_val(acc));
                lemma_v_val_wf(acc, arx@.auxes);
                lemma_small_mod(v_val(acc) as nat, modulus() as nat);
            }
        }
        (arx, acc)
    }

    /// A constant added to a variable; the empty variable stays empty.
    pub fn add_const(self, t: Fe) -> (r: V)
        requires
            t.wf(),
            exists|aux: Seq<Fe>| #[trigger] v_wf(self, aux),
        ensures
            r is N <==> self is N,
            !(self is N) ==> v_val(r) == (t.val() + v_val(self)) % modulus(),
            forall|aux: Seq<Fe>|
                aux.len() >= 1 && #[trigger] val_at(aux, 0) == 1 && v_wf(self, aux) ==> v_wf(
                    r,
                    aux,
                ),
    {
        proof {
            let aux = choose|aux: Seq<Fe>| #[trigger] v_wf(self, aux);
        }
        match self {
            V::N => V::N,
            V::L(l) => V::L(t_add_l(t, l)),
            V::Q(q) => V::Q(t_add_q(t, q)),
        }
    }

    /// A constant times a variable; the empty variable stays empty.
    pub fn mul_const(self, t: Fe) -> (r: V)
        requires
            t.wf(),
            exists|aux: Seq<Fe>| #[trigger] v_wf(self, aux),
        ensures
            r is N <==> self is N,
            !(self is N) ==> v_val(r) == (t.val() * v_val(self)) % modulus(),
            forall|aux: Seq<Fe>| #[trigger] v_wf(self, aux) ==> v_wf(r, aux),
    {
        proof {
            let aux = choose|aux: Seq<Fe>| #[trigger] v_wf(self, aux);
        }
        match self {
            V::N => V::N,
            V::L(l) => V::L(t_mul_l(t, l)),
            V::Q(q) => {
                let r = t_mul_q(t, q);
                proof {
                    let p = modulus();
                    let x = q.a.v.val() * q.b.v.val() + q.c.v.val();
                    lemma_mod_bound(x, p);
                    lemma_mod_twice(x, p);
                    lemma_mul_cong_mod(t.val(), x, t.val(), x % p, p);
                }
                V::Q(r)
            },
        }
    }
}

} // verus!
