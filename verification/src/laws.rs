//! The laws of the compiler, stated over the views that the driver's
//! contracts speak in: what holds of every compiled system and of every
//! witness a synthesis run leaves behind.
//!
//! One law lives elsewhere: that no surviving wire definition is orphaned
//! from the declared inputs is the `ensures` of the reachability pass itself,
//! `crate::r1cs::optimize`.

use crate::ar::{arena_struct_wf, defs_hold, effective, ArenaView};
use crate::cs::{run_post, CsView};
use crate::fe::fe_one;
use crate::r1cs::{constraint_wf, exprs_zero, r1cs_wf, row_wf, satisfied, witness_of};
use vstd::prelude::*;

verus! {

/// The constant wire: position `0` of the witness a synthesis run leaves
/// behind holds the field's one. On a first run this is the constant wire of
/// the session at the head of the table; on a cached run it is the same
/// position of the cached table, which still lists wire `0` first.
pub proof fn lemma_constant_wire(new: CsView, old: CsView, arv: ArenaView)
    requires
        run_post(new, old, arv),
        arena_struct_wf(arv),
        match old.r1cs {
            Some(rv) => r1cs_wf(rv) && effective(arv.auxes).len() >= rv.nwires,
            None => true,
        },
    ensures
        new.witness.len() >= 1,
        new.witness[0] == fe_one(),
{
    let aux = effective(arv.auxes);
    assert(aux[0] == fe_one());
    match old.r1cs {
        Some(rv) => {
            assert(new.witness == witness_of(aux, rv.table));
            assert(rv.table[0] == 0);
            assert(new.witness[0] == aux[0]);
        },
        None => {
            let rv = new.r1cs->Some_0;
            assert(rv.table.subrange(0, arv.input.len() as int)[0] == rv.table[0]);
            assert(rv.table[0] == arv.input[0]);
            assert(new.witness == witness_of(aux, rv.table));
            assert(new.witness[0] == aux[0]);
        },
    }
}

/// Dimensions and canonical rows: in every compiled system — every value of
/// the type keeps `r1cs_wf` — each row's three mappings name only positions
/// below the assignment's length, carry no zero coefficient, and name no
/// position twice; the positions are counted by `ninputs + nauxs`.
pub proof fn lemma_rows_canonical(rv: crate::r1cs::R1csView)
    requires
        r1cs_wf(rv),
    ensures
        forall|i: int|
            0 <= i < rv.constraints.len() ==> constraint_wf(
                #[trigger] rv.constraints[i],
                rv.table.len() as int,
            ),
        forall|i: int|
            0 <= i < rv.constraints.len() ==> row_wf((#[trigger] rv.constraints[i]).a@) && row_wf(
                rv.constraints[i].b@,
            ) && row_wf(rv.constraints[i].c@),
        rv.table.len() == rv.ninputs + rv.nauxs,
        forall|p: int, q: int| 0 <= p < q < rv.table.len() ==> rv.table[p] != rv.table[q],
{
}

/// The public prefix: on a first run, positions `0 .. |inputs|` of the
/// compiled table list exactly the declared public inputs, in declaration
/// order, with wire `0` at position `0`, and the table as a whole is an
/// injective listing of wires.
pub proof fn lemma_public_prefix(new: CsView, old: CsView, arv: ArenaView)
    requires
        run_post(new, old, arv),
        arena_struct_wf(arv),
        old.r1cs is None,
    ensures
        new.r1cs is Some,
        new.r1cs->Some_0.ninputs == arv.input.len(),
        new.r1cs->Some_0.table.subrange(0, arv.input.len() as int) == arv.input,
        new.r1cs->Some_0.table[0] == 0,
{
    let rv = new.r1cs->Some_0;
    assert(rv.table.subrange(0, arv.input.len() as int)[0] == rv.table[0]);
    assert(rv.table[0] == arv.input[0]);
}

/// Satisfaction: on a first run, if every definition the session recorded
/// binds its wire under the effective assignment — the arena's own invariant
/// — and every equality obligation the closure recorded actually evaluates
/// to zero, then the witness the run leaves behind satisfies every row of
/// the compiled system.
pub proof fn lemma_satisfaction(new: CsView, old: CsView, arv: ArenaView)
    requires
        run_post(new, old, arv),
        old.r1cs is None,
        defs_hold(arv.wires, effective(arv.auxes)),
        exprs_zero(arv.exprs, effective(arv.auxes)),
    ensures
        new.r1cs is Some,
        satisfied(new.r1cs->Some_0.constraints, new.witness),
{
}

/// Idempotence of re-synthesis: when a second run's session holds the same
/// auxiliary values as the first — a fixed closure run twice — the second
/// run returns the very system the first compiled, and an equal witness.
pub proof fn lemma_resynthesis_idempotent(
    cs0: CsView,
    cs1: CsView,
    cs2: CsView,
    ar1: ArenaView,
    ar2: ArenaView,
)
    requires
        cs0.r1cs is None,
        run_post(cs1, cs0, ar1),
        run_post(cs2, cs1, ar2),
        ar1.auxes.len() >= 1,
        ar2.auxes == ar1.auxes,
    ensures
        cs2.r1cs == cs1.r1cs,
        cs2.witness == cs1.witness,
{
    let rv = cs1.r1cs->Some_0;
    assert(effective(ar2.auxes) == effective(ar1.auxes));
    assert(effective(ar1.auxes).len() == ar1.auxes.len());
    assert(rv.nwires == effective(ar1.auxes).len());
    assert(cs2.witness == witness_of(effective(ar2.auxes), rv.table));
}

/// A worked synthesis whose satisfaction is proved rather than only tested:
/// the circuit enforces `x * x = 9` over the input `3`, and the run is shown
/// — through the driver's contract and the satisfaction law — to leave a
/// witness that satisfies the compiled system.
pub fn square_run_is_satisfied() -> (ok: bool)
    ensures
        ok,
{
    let mut cs = crate::cs::ConstraintSystem::new();
    let f = |s0: crate::cs::ConstraintSynthesizer| -> (res: (
        crate::cs::ConstraintSynthesizer,
        (),
    ))
        requires
            crate::cs::fresh_session(s0@),
        ensures
            exprs_zero(res.0@.exprs, effective(res.0@.auxes)),
        {
            let mut s = s0;
            let x = s.input(crate::fe::Fe::from_u64(3));
            let xc = x.clone();
            proof {
                crate::var::lemma_v_eqv(xc, x);
            }
            let x2 = s.mul(xc, x);
            s.equals_const(x2, crate::fe::Fe::from_u64(9));
            proof {
                let p = crate::fe::modulus();
                vstd::arithmetic::div_mod::lemma_small_mod(9nat, p as nat);
                vstd::arithmetic::div_mod::lemma_small_mod(0nat, p as nat);
                assert(crate::var::v_val(x2) == 9);
                assert forall|i: int| 0 <= i < s@.exprs.len() implies #[trigger] crate::ar::exp_eval(
                    s@.exprs[i],
                    effective(s@.auxes),
                ) % p == 0 by {
                    assert(s@.exprs[i] == s@.exprs.last());
                };
            }
            (s, ())
        };
    let ghost cs0 = cs@;
    cs.synthesize_with(f);
    let ok = cs.is_satisfied();
    proof {
        let s2 = choose|s2: crate::cs::ConstraintSynthesizer|
            #[trigger] crate::cs::call_ensures_fresh(f, s2, ()) && arena_struct_wf(s2@)
                && crate::ar::arena_sem_wf(s2@) && run_post(cs@, cs0, s2@);
        let s1 = choose|s1: crate::cs::ConstraintSynthesizer|
            #[trigger] crate::cs::fresh_session(s1@) && call_ensures(f, (s1,), (s2, ()));
        assert(exprs_zero(s2@.exprs, effective(s2@.auxes)));
        lemma_satisfaction(cs@, cs0, s2@);
        let rv = cs@.r1cs->Some_0;
        assert(cs@.witness == witness_of(effective(s2@.auxes), rv.table));
    }
    ok
}

/// A second worked run, proved from the contracts alone: a session that
/// declares one input and marks that same bare wire public compiles to a
/// system of exactly two positions — the constant wire and the input — with
/// no rows at all, and the run leaves the witness `[1, 7]`, which satisfies
/// it.
pub fn trivial_input_run() -> (ok: bool)
    ensures
        ok,
{
    let mut cs = crate::cs::ConstraintSystem::new();
    let f = |s0: crate::cs::ConstraintSynthesizer| -> (res: (
        crate::cs::ConstraintSynthesizer,
        (),
    ))
        requires
            crate::cs::fresh_session(s0@),
        ensures
            res.0@.wires.len() == 0,
            res.0@.exprs.len() == 0,
            res.0@.input =~= seq![0usize, 1usize],
            res.0@.auxes.len() == 2,
            res.0@.auxes[1].val() == 7,
        {
            let mut s = s0;
            let x = s.input(crate::fe::Fe::from_u64(7));
            proof {
                assert(s@.input =~= seq![0usize, 1usize]) by {
                    assert(s@.input =~= seq![0usize].push(1usize));
                };
                assert(crate::var::unit_linear(x)) by {
                    assert(x->L_0.l@ == seq![(1usize, crate::fe::fe_one())]);
                    assert(x->L_0.l@[0].1 == crate::fe::fe_one());
                };
                assert(s@.input.contains(x->L_0.l@[0].0)) by {
                    assert(s@.input[1] == 1usize);
                };
            }
            s.inputize(x);
            (s, ())
        };
    let ghost cs0 = cs@;
    cs.synthesize_with(f);
    proof {
        let s2 = choose|s2: crate::cs::ConstraintSynthesizer|
            #[trigger] crate::cs::call_ensures_fresh(f, s2, ()) && arena_struct_wf(s2@)
                && crate::ar::arena_sem_wf(s2@) && run_post(cs@, cs0, s2@);
        let s1 = choose|s1: crate::cs::ConstraintSynthesizer|
            #[trigger] crate::cs::fresh_session(s1@) && call_ensures(f, (s1,), (s2, ()));
        let rv = cs@.r1cs->Some_0;
        let aux = effective(s2@.auxes);
        // no definitions and no expressions survive, so there are no rows
        let pr = crate::r1cs::pruned(s2@.wires, s2@.input);
        assert(pr.len() == 0);
        assert(pr =~= Seq::<Option<crate::ar::Exp>>::empty());
        assert(crate::r1cs::defs_list(pr).len() == 0);
        assert(rv.constraints.len() == 0);
        // no row uses any position, so the table is exactly the two inputs
        assert(rv.ninputs == 2);
        if rv.table.len() > 2 {
            let p2: int = 2;
            assert(crate::r1cs::position_used(rv.constraints, (p2 as usize)));
            let i2 = choose|i2: int|
                0 <= i2 < rv.constraints.len() && crate::r1cs::row_has_pos(
                    #[trigger] rv.constraints[i2],
                    (p2 as usize),
                );
        }
        assert(rv.table.len() == 2 && rv.nauxs == 0);
        // the witness lists the constant one and the declared input
        assert(cs@.witness == witness_of(aux, rv.table));
        assert(cs@.witness.len() == 2);
        assert(rv.table.subrange(0, 2)[0] == rv.table[0]);
        assert(rv.table.subrange(0, 2)[1] == rv.table[1]);
        assert(rv.table[0] == 0usize && rv.table[1] == 1usize);
        assert(aux.len() == 2);
        assert(aux[0] == fe_one());
        assert(aux[1] == s2@.auxes[1]);
        assert(cs@.witness[0].val() == 1);
        assert(cs@.witness[1].val() == 7);
        assert(satisfied(rv.constraints, cs@.witness));
    }
    let ok = cs.is_satisfied();
    ok
}

} // verus!
