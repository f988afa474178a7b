//! The synthesizer handed to user code, and the driver that runs a whole
//! synthesis.
//!
//! The synthesizer owns the session's arena and exposes the variable
//! algebra: allocation, public inputs, constants, arithmetic and equality
//! obligations. The driver runs a user closure against a fresh synthesizer,
//! compiles the recorded graph into an R1CS on the first run, caches it, and
//! rebuilds only the witness on later runs.

use crate::ar::{ar_grown, effective, exp_eval, Arena, ArenaView};
use crate::fe::{fe_one, modulus, Fe};
use crate::forms::L;
use crate::r1cs::{compile, exprs_zero, satisfied, witness_of, R1csView, R1CS};
use crate::var::{v_add_val, v_mul_val, v_val, v_wf, V};
use vstd::prelude::*;

verus! {

/// A fresh session: the constant wire alone, holding one, already declared
/// as the first public input.
pub open spec fn fresh_session(v: ArenaView) -> bool {
    &&& v.auxes == seq![fe_one()]
    &&& v.wires.len() == 0
    &&& v.exprs.len() == 0
    &&& v.input == seq![0usize]
    &&& v.enabled
}

/// The session object user code builds a circuit through.
#[derive(Debug)]
pub struct ConstraintSynthesizer {
    ar: Arena,
}

impl View for ConstraintSynthesizer {
    type V = ArenaView;

    closed spec fn view(&self) -> ArenaView {
        self.ar@
    }
}

impl ConstraintSynthesizer {
    /// Wraps an arena as a session.
    pub fn new(ar: Arena) -> (r: ConstraintSynthesizer)
        ensures
            r@ == ar@,
    {
        ConstraintSynthesizer { ar }
    }

    /// Starts a fresh session.
    pub fn start() -> (r: ConstraintSynthesizer)
        ensures
            fresh_session(r@),
    {
        ConstraintSynthesizer { ar: Arena::make() }
    }

    /// Hands the session's arena back, to be taken apart.
    pub fn into_arena(self) -> (r: Arena)
        ensures
            r@ == self@,
    {
        self.ar
    }

    /// Takes the arena out for a by-value operation, leaving a fresh one.
    fn take(&mut self) -> (r: Arena)
        ensures
            r@ == old(self)@,
    {
        let mut ar = Arena::make();
        core::mem::swap(&mut ar, &mut self.ar);
        ar
    }

    /// Puts an arena back after a by-value operation.
    fn put(&mut self, ar: Arena)
        ensures
            final(self)@ == ar@,
    {
        let mut ar = ar;
        core::mem::swap(&mut ar, &mut self.ar);
    }

    /// Allocates a fresh auxiliary wire holding the value, as a variable.
    pub fn allocate(&mut self, v: Fe) -> (r: V)
        requires
            v.wf(),
        ensures
            final(self)@.auxes == old(self)@.auxes.push(v),
            final(self)@.wires == old(self)@.wires,
            final(self)@.exprs == old(self)@.exprs,
            final(self)@.input == old(self)@.input,
            final(self)@.enabled == old(self)@.enabled,
            v_wf(r, final(self)@.auxes),
            v_val(r) == v.val(),
            r is L && r->L_0.l@ =~= seq![
                ((old(self)@.auxes.len() as usize), crate::fe::fe_one()),
            ] && r->L_0.v == v,
    {
        let ar = self.take();
        let (ar, l) = L::allocate(ar, v);
        self.put(ar);
        V::L(l)
    }

    /// Allocates a fresh wire holding the value and declares it a public
    /// input.
    pub fn input(&mut self, v: Fe) -> (r: V)
        requires
            v.wf(),
        ensures
            final(self)@.auxes == old(self)@.auxes.push(v),
            final(self)@.wires == old(self)@.wires,
            final(self)@.exprs == old(self)@.exprs,
            final(self)@.input =~= old(self)@.input.push((old(self)@.auxes.len() as usize)),
            final(self)@.enabled == old(self)@.enabled,
            v_wf(r, final(self)@.auxes),
            v_val(r) == v.val(),
            r is L && r->L_0.l@ =~= seq![
                ((old(self)@.auxes.len() as usize), crate::fe::fe_one()),
            ] && r->L_0.v == v,
    {
        let ar = self.take();
        proof {
            use_type_invariant(&ar);
            assert(crate::ar::arena_struct_wf(ar@));
        }
        let ghost pre = ar@;
        let nw = ar.num_wires();
        let (ar, l) = L::allocate(ar, v);
        let ghost idx = pre.auxes.len() as usize;
        proof {
            assert(idx == nw);
            assert(!pre.input.contains(idx)) by {
                if pre.input.contains(idx) {
                    let j = choose|j: int| 0 <= j < pre.input.len() && pre.input[j] == idx;
                    assert(pre.input[j] < pre.auxes.len());
                }
            };
        }
        let w = match l.l.unit_wire() {
            Some(w) => w,
            None => 0,
        };
        let ar = ar.input(w);
        self.put(ar);
        V::L(l)
    }

    /// The constant `t`, as a variable on the constant wire. The session must
    /// be live for the constant wire to carry its term.
    pub fn constant(&mut self, t: Fe) -> (r: V)
        requires
            t.wf(),
            old(self)@.enabled,
        ensures
            final(self)@ == old(self)@,
            v_wf(r, final(self)@.auxes),
            v_val(r) == t.val(),
            r is L && r->L_0.v == t,
            t.val() != 0 ==> r->L_0.l@ =~= seq![(0usize, t)],
            t.val() == 0 ==> r->L_0.l@ =~= Seq::<(usize, Fe)>::empty(),
    {
        proof {
            use_type_invariant(&self.ar);
            assert(crate::ar::arena_struct_wf(self@));
            crate::fe::lemma_fe_val_injective(self@.auxes[0], fe_one());
            assert(crate::sparse::val_at(self@.auxes, 0) == 1);
        }
        V::L(L::constant(t))
    }

    /// The constant one.
    pub fn one(&mut self) -> (r: V)
        requires
            old(self)@.enabled,
        ensures
            final(self)@ == old(self)@,
            v_wf(r, final(self)@.auxes),
            v_val(r) == 1,
            !(r is N),
    {
        let t = Fe::one();
        self.constant(t)
    }

    /// The constant zero.
    pub fn zero(&mut self) -> (r: V)
        requires
            old(self)@.enabled,
        ensures
            final(self)@ == old(self)@,
            v_wf(r, final(self)@.auxes),
            v_val(r) == 0,
            !(r is N),
    {
        let t = Fe::zero();
        self.constant(t)
    }

    /// The sum of two variables.
    pub fn add(&mut self, x: V, y: V) -> (r: V)
        requires
            v_wf(x, old(self)@.auxes),
            v_wf(y, old(self)@.auxes),
        ensures
            ar_grown(final(self)@, old(self)@),
            final(self)@.exprs == old(self)@.exprs,
            final(self)@.input == old(self)@.input,
            v_wf(r, final(self)@.auxes),
            v_val(r) == v_add_val(x, y),
            r is N <==> (x is N && y is N),
            !(x is Q && y is Q) ==> final(self)@ == old(self)@,
    {
        let ar = self.take();
        let (ar, r) = x.add(ar, y);
        self.put(ar);
        r
    }

    /// The difference of two variables.
    pub fn sub(&mut self, x: V, y: V) -> (r: V)
        requires
            v_wf(x, old(self)@.auxes),
            v_wf(y, old(self)@.auxes),
        ensures
            ar_grown(final(self)@, old(self)@),
            final(self)@.exprs == old(self)@.exprs,
            final(self)@.input == old(self)@.input,
            v_wf(r, final(self)@.auxes),
            v_val(r) == (v_val(x) - v_val(y)) % modulus(),
            r is N <==> (x is N && y is N),
            !(x is Q && y is Q) ==> final(self)@ == old(self)@,
    {
        let ar = self.take();
        let (ar, r) = x.sub(ar, y);
        self.put(ar);
        r
    }

    /// The product of two variables.
    pub fn mul(&mut self, x: V, y: V) -> (r: V)
        requires
            v_wf(x, old(self)@.auxes),
            v_wf(y, old(self)@.auxes),
        ensures
            ar_grown(final(self)@, old(self)@),
            final(self)@.exprs == old(self)@.exprs,
            final(self)@.input == old(self)@.input,
            v_wf(r, final(self)@.auxes),
            v_val(r) == v_mul_val(x, y),
            r is N <==> (x is N && y is N),
            !(x is Q) && !(y is Q) ==> final(self)@ == old(self)@,
            x is L && y is L ==> r is Q && r->Q_0.a == x->L_0 && r->Q_0.b == y->L_0
                && r->Q_0.c.l@ =~= Seq::<(usize, Fe)>::empty(),
    {
        let ar = self.take();
        let (ar, r) = x.mul(ar, y);
        self.put(ar);
        r
    }

    /// The negation of a variable.
    pub fn neg(&mut self, x: V) -> (r: V)
        requires
            v_wf(x, old(self)@.auxes),
        ensures
            final(self)@ == old(self)@,
            v_wf(r, final(self)@.auxes),
            v_val(r) == (0 - v_val(x)) % modulus(),
    {
        x.neg()
    }

    /// Enforces `x = y` by recording the free expression `x - y = 0`.
    pub fn equal(&mut self, x: V, y: V)
        requires
            v_wf(x, old(self)@.auxes),
            v_wf(y, old(self)@.auxes),
        ensures
            ar_grown(final(self)@, old(self)@),
            final(self)@.input == old(self)@.input,
            !old(self)@.enabled || (x is N && y is N) ==> final(self)@.exprs
                == old(self)@.exprs,
            !(x is Q && y is Q) ==> final(self)@.auxes == old(self)@.auxes && final(self)@.wires
                == old(self)@.wires,
            old(self)@.enabled && !(x is N && y is N) ==> final(self)@.exprs.len() == old(
                self,
            )@.exprs.len() + 1 && final(self)@.exprs.subrange(0, old(self)@.exprs.len() as int)
                == old(self)@.exprs && exp_eval(
                final(self)@.exprs.last(),
                effective(final(self)@.auxes),
            ) % modulus() == (v_val(x) - v_val(y)) % modulus(),
    {
        let ar = self.take();
        let ar = x.equals(ar, y);
        self.put(ar);
    }

    /// Enforces `x = t` for a constant `t`.
    pub fn equals_const(&mut self, x: V, t: Fe)
        requires
            v_wf(x, old(self)@.auxes),
            t.wf(),
            old(self)@.enabled,
        ensures
            ar_grown(final(self)@, old(self)@),
            final(self)@.input == old(self)@.input,
            final(self)@.exprs.len() == old(self)@.exprs.len() + 1,
            final(self)@.exprs.subrange(0, old(self)@.exprs.len() as int) == old(self)@.exprs,
            exp_eval(final(self)@.exprs.last(), effective(final(self)@.auxes)) % modulus() == (
            v_val(x) - t.val()) % modulus(),
            final(self)@.auxes == old(self)@.auxes,
            final(self)@.wires == old(self)@.wires,
    {
        let ar = self.take();
        let ar = x.equals_const(ar, t);
        self.put(ar);
    }

    /// Declares the wire standing for the variable as a public input,
    /// materialising it as a named wire first where needed.
    pub fn inputize(&mut self, v: V)
        requires
            v_wf(v, old(self)@.auxes),
        ensures
            ar_grown(final(self)@, old(self)@),
            final(self)@.exprs == old(self)@.exprs,
            old(self)@.input.len() <= final(self)@.input.len(),
            final(self)@.input.subrange(0, old(self)@.input.len() as int) == old(self)@.input,
            v is N ==> final(self)@ == old(self)@,
            old(self)@.enabled && !(v is N) ==> exists|w: usize|
                #[trigger] final(self)@.input.contains(w) && w < final(self)@.auxes.len()
                    && crate::sparse::val_at(effective(final(self)@.auxes), w) == v_val(v),
            crate::var::unit_linear(v) ==> final(self)@.auxes == old(self)@.auxes
                && final(self)@.wires == old(self)@.wires && final(self)@.input.contains(
                v->L_0.l@[0].0,
            ) && (if old(self)@.input.contains(v->L_0.l@[0].0) {
                final(self)@.input == old(self)@.input
            } else {
                final(self)@.input =~= old(self)@.input.push(v->L_0.l@[0].0)
            }),
            !(v is N) && !crate::var::unit_linear(v) ==> final(self)@.auxes.len()
                == old(self)@.auxes.len() + 1
                && final(self)@.auxes[old(self)@.auxes.len() as int].val() == v_val(v)
                && final(self)@.input =~= old(self)@.input.push(
                (old(self)@.auxes.len() as usize),
            ),
    {
        let ar = self.take();
        let ar = v.inputize(ar);
        self.put(ar);
    }

    /// Declares the wire standing for the variable as a public output, which
    /// the assignment lists among the public inputs all the same.
    pub fn outputize(&mut self, v: V)
        requires
            v_wf(v, old(self)@.auxes),
        ensures
            ar_grown(final(self)@, old(self)@),
            final(self)@.exprs == old(self)@.exprs,
            old(self)@.input.len() <= final(self)@.input.len(),
            final(self)@.input.subrange(0, old(self)@.input.len() as int) == old(self)@.input,
            old(self)@.enabled && !(v is N) ==> exists|w: usize|
                #[trigger] final(self)@.input.contains(w) && w < final(self)@.auxes.len()
                    && crate::sparse::val_at(effective(final(self)@.auxes), w) == v_val(v),
    {
        self.inputize(v)
    }

    /// Turns the constant wire off or back on: while it is off, constant
    /// terms vanish from freshly computed values and nothing is recorded.
    pub fn disabled(&mut self, b: bool)
        ensures
            final(self)@.auxes =~= old(self)@.auxes.update(
                0,
                if b {
                    crate::fe::fe_zero()
                } else {
                    fe_one()
                },
            ),
            final(self)@.wires == old(self)@.wires,
            final(self)@.exprs == old(self)@.exprs,
            final(self)@.input == old(self)@.input,
            final(self)@.enabled == !b,
    {
        let ar = self.take();
        let ar = if b {
            ar.disable()
        } else {
            ar.enable()
        };
        self.put(ar);
    }

    /// Raises a variable to a constant power.
    pub fn pow(&mut self, x: V, exp: u64) -> (r: V)
        requires
            v_wf(x, old(self)@.auxes),
            old(self)@.enabled,
        ensures
            ar_grown(final(self)@, old(self)@),
            final(self)@.exprs == old(self)@.exprs,
            final(self)@.input == old(self)@.input,
            v_wf(r, final(self)@.auxes),
            !(r is N),
            x is N ==> v_val(r) == 1,
            !(x is N) ==> v_val(r) == vstd::arithmetic::power::pow(v_val(x), exp as nat)
                % modulus(),
    {
        let ar = self.take();
        let (ar, r) = x.pow(ar, exp);
        self.put(ar);
        r
    }

    /// The sum of a list of variables, folded left with the empty variable
    /// as the starting point.
    pub fn sum(&mut self, xs: Vec<V>) -> (r: V)
        requires
            forall|i: int| 0 <= i < xs@.len() ==> v_wf(#[trigger] xs@[i], old(self)@.auxes),
        ensures
            ar_grown(final(self)@, old(self)@),
            final(self)@.exprs == old(self)@.exprs,
            final(self)@.input == old(self)@.input,
            v_wf(r, final(self)@.auxes),
            (r is N) == v_sum_spec(xs@).0,
            v_val(r) == v_sum_spec(xs@).1,
    {
        let ghost pre = self@;
        proof {
            assert(pre.auxes.subrange(0, pre.auxes.len() as int) =~= pre.auxes);
        }
        let mut acc = V::N;
        let mut i: usize = 0;
        while i < xs.len()
            invariant
                i <= xs@.len(),
                ar_grown(self@, pre),
                self@.exprs == pre.exprs,
                self@.input == pre.input,
                forall|j: int| 0 <= j < xs@.len() ==> v_wf(#[trigger] xs@[j], pre.auxes),
                v_wf(acc, self@.auxes),
                (acc is N) == v_sum_spec(xs@.subrange(0, i as int)).0,
                v_val(acc) == v_sum_spec(xs@.subrange(0, i as int)).1,
            decreases xs@.len() - i,
        {
            let ghost mid = self@;
            let ghost acc0 = acc;
            let x = xs[i].clone();
            proof {
                crate::var::lemma_v_eqv(x, xs@[i as int]);
                crate::var::lemma_v_wf_grow(x, pre.auxes, mid.auxes);
            }
            let acc2 = self.add(acc, x);
            proof {
                crate::ar::lemma_ar_grown_trans(self@, mid, pre);
                let whole = xs@.subrange(0, i + 1);
                let pref = xs@.subrange(0, i as int);
                assert(whole.drop_last() =~= pref);
                assert(whole.last() == xs@[i as int]);
                let p = v_sum_spec(pref);
                assert(p.0 == (acc0 is N) && p.1 == v_val(acc0));
                assert(v_sum_spec(whole) == (if p.0 {
                    ((xs@[i as int] is N), v_val(xs@[i as int]))
                } else if xs@[i as int] is N {
                    (false, p.1)
                } else {
                    (false, (p.1 + v_val(xs@[i as int])) % modulus())
                }));
                assert((acc2 is N) == v_sum_spec(whole).0);
                assert(v_val(acc2) == v_sum_spec(whole).1);
            }
            acc = acc2;
            i = i + 1;
        }
        proof {
            assert(xs@.subrange(0, xs@.len() as int) =~= xs@);
        }
        acc
    }

    /// The product of a list of variables, folded left with the empty
    /// variable as the starting point.
    pub fn product(&mut self, xs: Vec<V>) -> (r: V)
        requires
            forall|i: int| 0 <= i < xs@.len() ==> v_wf(#[trigger] xs@[i], old(self)@.auxes),
        ensures
            ar_grown(final(self)@, old(self)@),
            final(self)@.exprs == old(self)@.exprs,
            final(self)@.input == old(self)@.input,
            v_wf(r, final(self)@.auxes),
            (r is N) == v_prod_spec(xs@).0,
            v_val(r) == v_prod_spec(xs@).1,
    {
        let ghost pre = self@;
        proof {
            assert(pre.auxes.subrange(0, pre.auxes.len() as int) =~= pre.auxes);
        }
        let mut acc = V::N;
        let mut i: usize = 0;
        while i < xs.len()
            invariant
                i <= xs@.len(),
                ar_grown(self@, pre),
                self@.exprs == pre.exprs,
                self@.input == pre.input,
                forall|j: int| 0 <= j < xs@.len() ==> v_wf(#[trigger] xs@[j], pre.auxes),
                v_wf(acc, self@.auxes),
                (acc is N) == v_prod_spec(xs@.subrange(0, i as int)).0,
                v_val(acc) == v_prod_spec(xs@.subrange(0, i as int)).1,
            decreases xs@.len() - i,
        {
            let ghost mid = self@;
            let ghost acc0 = acc;
            let x = xs[i].clone();
            proof {
                crate::var::lemma_v_eqv(x, xs@[i as int]);
                crate::var::lemma_v_wf_grow(x, pre.auxes, mid.auxes);
            }
            let acc2 = self.mul(acc, x);
            proof {
                crate::ar::lemma_ar_grown_trans(self@, mid, pre);
                let whole = xs@.subrange(0, i + 1);
                let pref = xs@.subrange(0, i as int);
                assert(whole.drop_last() =~= pref);
                assert(whole.last() == xs@[i as int]);
                let p = v_prod_spec(pref);
                assert(p.0 == (acc0 is N) && p.1 == v_val(acc0));
                assert(v_prod_spec(whole) == (if p.0 {
                    ((xs@[i as int] is N), v_val(xs@[i as int]))
                } else if xs@[i as int] is N {
                    (false, p.1)
                } else {
                    (false, (p.1 * v_val(xs@[i as int])) % modulus())
                }));
                assert((acc2 is N) == v_prod_spec(whole).0);
                assert(v_val(acc2) == v_prod_spec(whole).1);
            }
            acc = acc2;
            i = i + 1;
        }
        proof {
            assert(xs@.subrange(0, xs@.len() as int) =~= xs@);
        }
        acc
    }
}

/// What folding addition over a list yields: whether everything so far was
/// empty, and the running value. The empty variable passes the other side
/// through, so empties in the list leave no trace.
pub open spec fn v_sum_spec(s: Seq<V>) -> (bool, int)
    decreases s.len(),
{
    if s.len() == 0 {
        (true, 0int)
    } else {
        let p = v_sum_spec(s.drop_last());
        let x = s.last();
        if p.0 {
            (x is N, v_val(x))
        } else if x is N {
            (false, p.1)
        } else {
            (false, (p.1 + v_val(x)) % modulus())
        }
    }
}

/// What folding multiplication over a list yields, with the same treatment
/// of empties.
pub open spec fn v_prod_spec(s: Seq<V>) -> (bool, int)
    decreases s.len(),
{
    if s.len() == 0 {
        (true, 0int)
    } else {
        let p = v_prod_spec(s.drop_last());
        let x = s.last();
        if p.0 {
            (x is N, v_val(x))
        } else if x is N {
            (false, p.1)
        } else {
            (false, (p.1 * v_val(x)) % modulus())
        }
    }
}

/// The ghost image of a driver.
pub ghost struct CsView {
    pub r1cs: Option<R1csView>,
    pub witness: Seq<Fe>,
}

/// What one synthesis run leaves behind, given the session the closure
/// returned: a cached system keeps its compiled form and only the witness is
/// rebuilt; a first run compiles the session's graph and builds the witness
/// from its table. The constant wire is restored before anything is read, so
/// the session is measured against its effective assignment.
pub open spec fn run_post(new: CsView, old: CsView, arv: ArenaView) -> bool {
    let aux = effective(arv.auxes);
    match old.r1cs {
        Some(rv) => {
            &&& new.r1cs == old.r1cs
            &&& aux.len() >= rv.nwires ==> new.witness == witness_of(aux, rv.table)
            &&& aux.len() < rv.nwires ==> new.witness.len() == 0
        },
        None => {
            &&& new.r1cs is Some
            &&& {
                let rv = new.r1cs->Some_0;
                &&& rv.nwires == aux.len()
                &&& rv.ninputs == arv.input.len()
                &&& rv.table.len() == rv.ninputs + rv.nauxs
                &&& rv.table.subrange(0, arv.input.len() as int) == arv.input
                &&& new.witness == witness_of(aux, rv.table)
                &&& exists|fwd: Seq<Option<usize>>|
                    #[trigger] crate::r1cs::table_fwd_ok(rv.table, fwd) && fwd.len() == rv.nwires
                        && crate::r1cs::rows_built(
                        rv.constraints,
                        crate::r1cs::pruned(arv.wires, arv.input),
                        arv.exprs,
                        fwd,
                    )
                &&& forall|p: int|
                    arv.input.len() <= p < rv.table.len() ==> #[trigger] crate::r1cs::position_used(
                        rv.constraints,
                        (p as usize),
                    )
                &&& (crate::ar::defs_hold(arv.wires, aux) && exprs_zero(arv.exprs, aux)
                    ==> satisfied(rv.constraints, new.witness))
            }
        },
    }
}

/// The driver: holds the compiled system across synthesis runs, and the
/// current witness.
#[derive(Debug)]
pub struct ConstraintSystem {
    r1cs: Option<R1CS>,
    witness: Vec<Fe>,
}

impl View for ConstraintSystem {
    type V = CsView;

    closed spec fn view(&self) -> CsView {
        CsView {
            r1cs: match self.r1cs {
                Some(r) => Some(r@),
                None => None,
            },
            witness: self.witness@,
        }
    }
}

impl ConstraintSystem {
    #[verifier::type_invariant]
    pub open spec fn inv(self) -> bool {
        forall|i: int| 0 <= i < self@.witness.len() ==> (#[trigger] self@.witness[i]).wf()
    }

    /// A driver with nothing compiled yet.
    pub fn new() -> (r: ConstraintSystem)
        ensures
            r@.r1cs is None,
            r@.witness.len() == 0,
    {
        ConstraintSystem { r1cs: None, witness: Vec::new() }
    }

    /// The compiled system, if a synthesis has run.
    pub fn compiled(&self) -> (r: Option<&R1CS>)
        ensures
            r is Some <==> self@.r1cs is Some,
            r is Some ==> (r->0)@ == self@.r1cs->Some_0,
    {
        match &self.r1cs {
            Some(r1) => Some(r1),
            None => None,
        }
    }

    /// How long the current witness is.
    pub fn witness_len(&self) -> (r: usize)
        ensures
            r == self@.witness.len(),
    {
        self.witness.len()
    }

    /// One value of the current witness.
    pub fn witness_at(&self, i: usize) -> (r: Fe)
        requires
            i < self@.witness.len(),
        ensures
            r == self@.witness[i as int],
    {
        self.witness[i]
    }

    /// Runs one synthesis: a fresh session is handed to the closure, the
    /// graph it leaves behind is compiled on the first run and reused
    /// afterwards, and the witness is rebuilt from the session's values.
    pub fn synthesize_with<R, F: FnOnce(ConstraintSynthesizer) -> (ConstraintSynthesizer, R)>(
        &mut self,
        f: F,
    ) -> (r: R)
        requires
            forall|s: ConstraintSynthesizer| #[trigger] fresh_session(s@) ==> call_requires(
                f,
                (s,),
            ),
        ensures
            old(self)@.r1cs is Some ==> final(self)@.r1cs == old(self)@.r1cs,
            final(self)@.r1cs is Some,
            crate::r1cs::r1cs_wf(final(self)@.r1cs->Some_0),
            exists|s2: ConstraintSynthesizer|
                #[trigger] call_ensures_fresh(f, s2, r) && crate::ar::arena_struct_wf(s2@)
                    && crate::ar::arena_sem_wf(s2@) && run_post(final(self)@, old(self)@, s2@),
    {
        proof {
            use_type_invariant(&*self);
        }
        let s = ConstraintSynthesizer::start();
        let ghost s1v = s;
        let (s2, r) = f(s);
        let ghost s2v = s2;
        proof {
            use_type_invariant(&s2.ar);
        }
        let ar = s2.into_arena();
        let ar = ar.enable();
        let ghost arv = ar@;
        let (auxes, wires, exprs, input) = ar.into_inner();
        proof {
            assert(effective(s2v@.auxes) =~= arv.auxes);
            assert(crate::r1cs::parts_wf(auxes@, wires@, exprs@, input@)) by {
                let v = crate::ar::ArenaView {
                    auxes: auxes@,
                    wires: wires@,
                    exprs: exprs@,
                    input: input@,
                    enabled: true,
                };
                assert(v == arv);
                assert(crate::ar::arena_struct_wf(arv));
            };
            assert(forall|i: int| 0 <= i < auxes@.len() ==> (#[trigger] auxes@[i]).wf());
        }
        let cached = match &self.r1cs {
            Some(_) => true,
            None => false,
        };
        if cached {
            let w = match &self.r1cs {
                Some(r1) => {
                    if auxes.len() >= r1.num_wires() {
                        proof {
                            use_type_invariant(r1);
                        }
                        let ww = r1.witness(&auxes);
                        proof {
                            assert forall|i: int| 0 <= i < ww@.len() implies (
                            #[trigger] ww@[i]).wf() by {
                                assert(ww@[i] == auxes@[r1@.table[i] as int]);
                                assert(r1@.table[i] < r1@.nwires);
                            };
                        }
                        ww
                    } else {
                        Vec::new()
                    }
                },
                None => Vec::new(),
            };
            self.witness = w;
        } else {
            let r1 = compile(&auxes, wires, exprs, input);
            proof {
                use_type_invariant(&r1);
            }
            let w = r1.witness(&auxes);
            proof {
                assert forall|i: int| 0 <= i < w@.len() implies (#[trigger] w@[i]).wf() by {
                    assert(w@[i] == auxes@[r1@.table[i] as int]);
                    assert(r1@.table[i] < r1@.nwires);
                };
            }
            self.witness = w;
            self.r1cs = Some(r1);
        }
        proof {
            assert(call_ensures_fresh(f, s2v, r)) by {
                assert(fresh_session(s1v@));
                assert(call_ensures(f, (s1v,), (s2v, r)));
            };
            assert(run_post(self@, old(self)@, s2v@));
            match &self.r1cs {
                Some(r1) => {
                    use_type_invariant(r1);
                },
                None => {},
            }
        }
        r
    }

    /// Whether the current witness satisfies every row of the compiled
    /// system; `false` while nothing is compiled.
    pub fn is_satisfied(&self) -> (r: bool)
        ensures
            r == match self@.r1cs {
                Some(rv) => self@.witness.len() >= rv.table.len() && satisfied(
                    rv.constraints,
                    self@.witness,
                ),
                None => false,
            },
    {
        proof {
            use_type_invariant(self);
            assert(self@.witness == self.witness@);
            assert(forall|i: int|
                0 <= i < self.witness@.len() ==> (#[trigger] self.witness@[i]).wf());
        }
        match &self.r1cs {
            Some(r1) => r1.satisfies(&self.witness),
            None => false,
        }
    }
}

impl Default for ConstraintSystem {
    /// A driver with nothing compiled yet.
    fn default() -> (r: ConstraintSystem)
        ensures
            r@.r1cs is None,
            r@.witness.len() == 0,
    {
        ConstraintSystem::new()
    }
}

/// The closure ran from some fresh session and returned this session and
/// result.
pub open spec fn call_ensures_fresh<R, F: FnOnce(ConstraintSynthesizer) -> (
    ConstraintSynthesizer,
    R,
)>(f: F, s2: ConstraintSynthesizer, r: R) -> bool {
    exists|s1: ConstraintSynthesizer|
        #[trigger] fresh_session(s1@) && call_ensures(f, (s1,), (s2, r))
}

} // verus!
