//! The compiled rank-1 constraint system.
//!
//! A constraint is a triple of sparse rows `(A, B, C)` over assignment
//! positions; an assignment `z` satisfies it when `<A,z> * <B,z> + <C,z> = 0`
//! in the field. The interning table maps positions back to the wires of the
//! session that produced the system: declared public inputs first — the
//! constant wire at position `0` — then every other wire in order of first
//! reference.

use crate::ar::{def_holds, defs_hold, exp_eval, exp_keys_below, wire_at, Exp};
use crate::fe::{fe_add, fe_mul, modulus, Fe};
use crate::sparse::{
    eval, has_key, keys_below, lemma_add_cong_mod, lemma_eval_prefix_step, lemma_mul_cong_mod,
    val_at, SparseVec,
};
use vstd::arithmetic::div_mod::{lemma_mod_bound, lemma_mod_twice, lemma_small_mod};
use vstd::prelude::*;

verus! {

/// One R1CS row: three sparse mappings from assignment position to non-zero
/// coefficient.
#[derive(Debug)]
pub struct Constraint {
    pub a: Vec<(usize, Fe)>,
    pub b: Vec<(usize, Fe)>,
    pub c: Vec<(usize, Fe)>,
}

/// A row's entries are canonical: distinct positions, no zero coefficient.
pub open spec fn row_wf(s: Seq<(usize, Fe)>) -> bool {
    &&& forall|i: int| 0 <= i < s.len() ==> (#[trigger] s[i]).1.wf() && s[i].1.val() != 0
    &&& forall|i: int, j: int| 0 <= i < j < s.len() ==> (#[trigger] s[i]).0 != (#[trigger] s[j]).0
}

/// A whole constraint is canonical and stays inside the assignment.
pub open spec fn constraint_wf(c: Constraint, n: int) -> bool {
    &&& row_wf(c.a@) && row_wf(c.b@) && row_wf(c.c@)
    &&& keys_below(c.a@, n) && keys_below(c.b@, n) && keys_below(c.c@, n)
}

/// An assignment satisfies a constraint when the row check holds in the
/// field.
pub open spec fn constraint_holds(c: Constraint, z: Seq<Fe>) -> bool {
    (eval(c.a@, z) * eval(c.b@, z) + eval(c.c@, z)) % modulus() == 0
}

/// An assignment satisfies a system when it satisfies every row.
pub open spec fn satisfied(cs: Seq<Constraint>, z: Seq<Fe>) -> bool {
    forall|i: int| 0 <= i < cs.len() ==> constraint_holds(#[trigger] cs[i], z)
}

/// The assignment built by reading each position's wire out of the auxiliary
/// store.
pub open spec fn witness_of(aux: Seq<Fe>, table: Seq<usize>) -> Seq<Fe> {
    Seq::new(table.len(), |p: int| aux[table[p] as int])
}

/// The ghost image of a compiled system.
pub ghost struct R1csView {
    pub ninputs: nat,
    pub nauxs: nat,
    pub constraints: Seq<Constraint>,
    pub table: Seq<usize>,
    pub nwires: nat,
}

/// The structural invariant of a compiled system: the table is an injective
/// listing of wires with the constant wire at position `0`, positions are
/// counted by `ninputs + nauxs`, and every row is canonical over those
/// positions.
pub open spec fn r1cs_wf(v: R1csView) -> bool {
    &&& v.table.len() == v.ninputs + v.nauxs
    &&& v.ninputs >= 1
    &&& v.table.len() >= 1
    &&& v.table[0] == 0
    &&& forall|p: int| 0 <= p < v.table.len() ==> (#[trigger] v.table[p]) < v.nwires
    &&& forall|p: int, q: int| 0 <= p < q < v.table.len() ==> v.table[p] != v.table[q]
    &&& forall|i: int|
        0 <= i < v.constraints.len() ==> constraint_wf(
            #[trigger] v.constraints[i],
            v.table.len() as int,
        )
}

/// A compiled rank-1 constraint system.
#[derive(Debug)]
pub struct R1CS {
    /// The number of public inputs.
    ninputs: usize,
    /// The number of auxiliary (non-public) positions.
    nauxs: usize,
    /// The rows of the system.
    constraints: Vec<Constraint>,
    /// Position to wire id, public inputs first.
    table: Vec<usize>,
    /// How many wires the session that produced the system had allocated.
    nwires: usize,
}

impl View for R1CS {
    type V = R1csView;

    closed spec fn view(&self) -> R1csView {
        R1csView {
            ninputs: self.ninputs as nat,
            nauxs: self.nauxs as nat,
            constraints: self.constraints@,
            table: self.table@,
            nwires: self.nwires as nat,
        }
    }
}

/// Permutes the auxiliary store through the interning table into the final
/// assignment vector, public inputs first.
pub fn build_witness(auxes: &Vec<Fe>, table: &Vec<usize>) -> (r: Vec<Fe>)
    requires
        forall|p: int| 0 <= p < table@.len() ==> (#[trigger] table@[p]) < auxes@.len(),
    ensures
        r@ == witness_of(auxes@, table@),
{
    let mut out: Vec<Fe> = Vec::new();
    let mut p: usize = 0;
    while p < table.len()
        invariant
            p <= table@.len(),
            forall|q: int| 0 <= q < table@.len() ==> (#[trigger] table@[q]) < auxes@.len(),
            out@ =~= witness_of(auxes@, table@).subrange(0, p as int),
        decreases table@.len() - p,
    {
        let w = table[p];
        out.push(auxes[w]);
        proof {
            assert(out@ =~= witness_of(auxes@, table@).subrange(0, p + 1 as int));
        }
        p = p + 1;
    }
    proof {
        assert(out@ =~= witness_of(auxes@, table@));
    }
    out
}

/// Evaluates one sparse row against an assignment; positions past the end
/// read as zero.
fn eval_row(m: &Vec<(usize, Fe)>, z: &Vec<Fe>) -> (r: Fe)
    requires
        forall|i: int| 0 <= i < m@.len() ==> (#[trigger] m@[i]).1.wf(),
        forall|i: int| 0 <= i < z@.len() ==> (#[trigger] z@[i]).wf(),
    ensures
        r.wf(),
        r.val() == eval(m@, z@) % modulus(),
{
    let mut acc = Fe::zero();
    let mut i: usize = 0;
    proof {
        lemma_small_mod(0nat, modulus() as nat);
        assert(m@.subrange(0, 0) =~= Seq::<(usize, Fe)>::empty());
    }
    while i < m.len()
        invariant
            i <= m@.len(),
            forall|j: int| 0 <= j < m@.len() ==> (#[trigger] m@[j]).1.wf(),
            forall|j: int| 0 <= j < z@.len() ==> (#[trigger] z@[j]).wf(),
            acc.wf(),
            acc.val() == eval(m@.subrange(0, i as int), z@) % modulus(),
        decreases m@.len() - i,
    {
        let ghost acc0 = acc;
        let (w, c) = m[i];
        let term = if w < z.len() {
            fe_mul(c, z[w])
        } else {
            proof {
                lemma_small_mod(0nat, modulus() as nat);
            }
            Fe::zero()
        };
        proof {
            if w < z@.len() {
            } else {
                assert(val_at(z@, w) == 0);
                assert(c.val() * 0 == 0) by {
                    vstd::arithmetic::mul::lemma_mul_basics(c.val());
                };
            }
            assert(term.val() == (c.val() * val_at(z@, w)) % modulus());
        }
        acc = fe_add(acc, term);
        i = i + 1;
        proof {
            let p = modulus();
            lemma_eval_prefix_step(m@, i - 1, z@);
            lemma_mod_twice(eval(m@.subrange(0, i - 1), z@), p);
            lemma_mod_twice(c.val() * val_at(z@, w), p);
            lemma_add_cong_mod(
                acc0.val(),
                term.val(),
                eval(m@.subrange(0, i - 1), z@),
                c.val() * val_at(z@, w),
                p,
            );
        }
    }
    proof {
        assert(m@.subrange(0, m@.len() as int) =~= m@);
    }
    acc
}

impl R1CS {
    #[verifier::type_invariant]
    pub open spec fn inv(self) -> bool {
        r1cs_wf(self@)
    }

    /// The number of public inputs.
    pub fn num_inputs(&self) -> (r: usize)
        ensures
            r == self@.ninputs,
    {
        self.ninputs
    }

    /// The number of auxiliary positions.
    pub fn num_auxs(&self) -> (r: usize)
        ensures
            r == self@.nauxs,
    {
        self.nauxs
    }

    /// How many wires the producing session had allocated.
    pub fn num_wires(&self) -> (r: usize)
        ensures
            r == self@.nwires,
    {
        self.nwires
    }

    /// How many rows the system has.
    pub fn num_constraints(&self) -> (r: usize)
        ensures
            r == self@.constraints.len(),
    {
        self.constraints.len()
    }

    /// The wire listed at an assignment position.
    pub fn wire_of(&self, p: usize) -> (r: usize)
        requires
            p < self@.table.len(),
        ensures
            r == self@.table[p as int],
    {
        self.table[p]
    }

    /// One row, as its three sparse mappings.
    pub fn row(&self, i: usize) -> (r: (Vec<(usize, Fe)>, Vec<(usize, Fe)>, Vec<(usize, Fe)>))
        requires
            i < self@.constraints.len(),
        ensures
            r.0@ == self@.constraints[i as int].a@,
            r.1@ == self@.constraints[i as int].b@,
            r.2@ == self@.constraints[i as int].c@,
    {
        let row = &self.constraints[i];
        (copy_row(&row.a), copy_row(&row.b), copy_row(&row.c))
    }

    /// Permutes an auxiliary store through the table into an assignment.
    pub fn witness(&self, auxes: &Vec<Fe>) -> (r: Vec<Fe>)
        requires
            auxes@.len() >= self@.nwires,
        ensures
            r@ == witness_of(auxes@, self@.table),
    {
        proof {
            use_type_invariant(self);
        }
        build_witness(auxes, &self.table)
    }

    /// Whether the assignment satisfies every row; an assignment shorter than
    /// the system's positions satisfies nothing.
    pub fn satisfies(&self, witness: &Vec<Fe>) -> (r: bool)
        requires
            forall|i: int| 0 <= i < witness@.len() ==> (#[trigger] witness@[i]).wf(),
        ensures
            r == (witness@.len() >= self@.table.len() && satisfied(self@.constraints, witness@)),
    {
        proof {
            use_type_invariant(self);
        }
        if witness.len() < self.table.len() {
            return false;
        }
        let mut i: usize = 0;
        while i < self.constraints.len()
            invariant
                i <= self@.constraints.len(),
                r1cs_wf(self@),
                forall|j: int| 0 <= j < witness@.len() ==> (#[trigger] witness@[j]).wf(),
                forall|j: int| 0 <= j < i ==> constraint_holds(#[trigger] self@.constraints[j], witness@),
            decreases self@.constraints.len() - i,
    {
            let row = &self.constraints[i];
            let ea = eval_row(&row.a, witness);
            let eb = eval_row(&row.b, witness);
            let ec = eval_row(&row.c, witness);
            let t = fe_add(fe_mul(ea, eb), ec);
            proof {
                let p = modulus();
                let va = eval(row.a@, witness@);
                let vb = eval(row.b@, witness@);
                let vc = eval(row.c@, witness@);
                lemma_mod_twice(va, p);
                lemma_mod_twice(vb, p);
                lemma_mod_twice(vc, p);
                lemma_mul_cong_mod(ea.val(), eb.val(), va, vb, p);
                lemma_mod_bound(ea.val() * eb.val(), p);
                lemma_mod_twice(ea.val() * eb.val(), p);
                lemma_add_cong_mod((ea.val() * eb.val()) % p, ec.val(), va * vb, vc, p);
                assert(t.val() == (va * vb + vc) % p);
            }
            if !t.is_zero() {
                return false;
            }
            i = i + 1;
        }
        true
    }
}

/// Whether an expression names the wire in any of its parts.
pub open spec fn exp_has_key(e: Exp, k: usize) -> bool {
    match e {
        Exp::L(l) => has_key(l@, k),
        Exp::Q(a, b, c) => has_key(a@, k) || has_key(b@, k) || has_key(c@, k),
    }
}

/// The definition of wire `u` names wire `w`: an edge of the definition
/// graph.
pub open spec fn reach_edge(wires: Seq<Option<Exp>>, u: usize, w: usize) -> bool {
    wire_at(wires, u as int) is Some && exp_has_key(wire_at(wires, u as int)->Some_0, w)
}

/// The wire is reached from the declared inputs in at most `n` steps through
/// the definition graph: an input outright, or named by the definition of a
/// wire reached one step sooner.
pub open spec fn reach_n(
    wires: Seq<Option<Exp>>,
    input: Seq<usize>,
    w: usize,
    n: int,
) -> bool
    decreases n,
{
    if n < 0 {
        false
    } else if input.contains(w) {
        true
    } else {
        n > 0 && exists|u: usize|
            reach_n(wires, input, u, n - 1) && #[trigger] reach_edge(wires, u, w)
    }
}

/// The wire is reached from the declared inputs in some number of steps.
pub open spec fn reachable(wires: Seq<Option<Exp>>, input: Seq<usize>, w: usize) -> bool {
    exists|n: int| reach_n(wires, input, w, n)
}

/// What the reachability pass leaves: exactly the definitions whose wires the
/// declared inputs reach.
pub open spec fn pruned(wires: Seq<Option<Exp>>, input: Seq<usize>) -> Seq<Option<Exp>> {
    Seq::new(
        wires.len(),
        |w: int|
            if wires[w] is Some && reachable(wires, input, w as usize) {
                wires[w]
            } else {
                None
            },
    )
}

/// One more step of reachability: a wire named by the definition of a
/// reached wire is reached.
proof fn lemma_reach_step(
    wires: Seq<Option<Exp>>,
    input: Seq<usize>,
    u: usize,
    k: usize,
    n: int,
)
    requires
        n >= 0,
        reach_n(wires, input, u, n),
        reach_edge(wires, u, k),
    ensures
        reach_n(wires, input, k, n + 1),
{
    let m: int = n + 1;
    if input.contains(k) {
        assert(reach_n(wires, input, k, m));
    } else {
        assert(reach_n(wires, input, u, m - 1));
        assert(reach_n(wires, input, k, m));
    }
}

/// In a marking that covers the inputs and is closed under definition edges,
/// every reachable wire is marked.
proof fn lemma_reach_in_closed(
    wires: Seq<Option<Exp>>,
    input: Seq<usize>,
    reached: Seq<bool>,
    w: usize,
    n: int,
)
    requires
        wires.len() <= reached.len(),
        forall|j: int|
            0 <= j < input.len() ==> (#[trigger] input[j]) < reached.len()
                && reached[input[j] as int],
        forall|k: usize, j: usize|
            k < reached.len() && reached[k as int] && #[trigger] reach_edge(wires, k, j) && j
                < reached.len() ==> reached[j as int],
        forall|u: int|
            0 <= u < wires.len() && wires[u] is Some ==> exp_keys_below(
                (#[trigger] wires[u])->Some_0,
                reached.len() as int,
            ),
        reach_n(wires, input, w, n),
        w < reached.len(),
    ensures
        reached[w as int],
    decreases n,
{
    if input.contains(w) {
        let j = choose|j: int| 0 <= j < input.len() && input[j] == w;
    } else {
        let u = choose|u: usize|
            reach_n(wires, input, u, n - 1) && #[trigger] reach_edge(wires, u, w);
        assert(u < wires.len());
        lemma_reach_in_closed(wires, input, reached, u, n - 1);
    }
}

/// How many positions of a boolean sequence are still unset.
pub open spec fn count_false(s: Seq<bool>) -> nat
    decreases s.len(),
{
    if s.len() == 0 {
        0
    } else {
        count_false(s.drop_last()) + (if s.last() {
            0nat
        } else {
            1nat
        })
    }
}

/// Setting one unset position decrements the count of unset positions.
proof fn lemma_count_false_set(s: Seq<bool>, i: int)
    requires
        0 <= i < s.len(),
        !s[i],
    ensures
        count_false(s.update(i, true)) == count_false(s) - 1,
    decreases s.len(),
{
    let t = s.update(i, true);
    if i == s.len() - 1 {
        assert(t.drop_last() =~= s.drop_last());
    } else {
        assert(t.drop_last() =~= s.drop_last().update(i, true));
        assert(t.last() == s.last());
        lemma_count_false_set(s.drop_last(), i);
    }
}

/// Marks every wire a definition part names as reached, enqueueing the newly
/// marked ones. One mark pays for one enqueue, so the traversal's measure
/// never grows.
fn mark_part(
    m: &SparseVec,
    reached: &mut Vec<bool>,
    queue: &mut Vec<usize>,
    Ghost(wv): Ghost<Seq<Option<Exp>>>,
    Ghost(iv): Ghost<Seq<usize>>,
    Ghost(u): Ghost<usize>,
)
    requires
        reachable(wv, iv, u),
        wire_at(wv, u as int) is Some,
        forall|k: usize| #[trigger] has_key(m@, k) ==> exp_has_key(wire_at(wv, u as int)->Some_0, k),
        keys_below(m@, old(reached)@.len() as int),
        forall|k: int|
            0 <= k < old(reached)@.len() && old(reached)@[k] ==> reachable(wv, iv, k as usize),
        forall|j: int|
            0 <= j < old(queue)@.len() ==> (#[trigger] old(queue)@[j]) < old(reached)@.len()
                && old(reached)@[old(queue)@[j] as int],
    ensures
        final(reached)@.len() == old(reached)@.len(),
        forall|k: int|
            0 <= k < final(reached)@.len() && final(reached)@[k] ==> reachable(
                wv,
                iv,
                k as usize,
            ),
        forall|j: int|
            0 <= j < final(queue)@.len() ==> (#[trigger] final(queue)@[j])
                < final(reached)@.len() && final(reached)@[final(queue)@[j] as int],
        count_false(final(reached)@) + final(queue)@.len() <= count_false(old(reached)@)
            + old(queue)@.len(),
        forall|k: int| 0 <= k < old(reached)@.len() && old(reached)@[k] ==> final(reached)@[k],
        forall|kk: usize| #[trigger] has_key(m@, kk) ==> final(reached)@[kk as int],
        forall|j: int|
            0 <= j < old(queue)@.len() ==> final(queue)@.contains(#[trigger] old(queue)@[j]),
        forall|k: int|
            0 <= k < old(reached)@.len() && !old(reached)@[k] && final(reached)@[k]
                ==> final(queue)@.contains(k as usize),
{
    proof {
        use_type_invariant(m);
    }
    let n = reached.len();
    let mut ki: usize = 0;
    while ki < m.len()
        invariant
            ki <= m@.len(),
            reached@.len() == n,
            keys_below(m@, n as int),
            reachable(wv, iv, u),
            wire_at(wv, u as int) is Some,
            forall|k: usize| #[trigger] has_key(m@, k) ==> exp_has_key(
                wire_at(wv, u as int)->Some_0,
                k,
            ),
            forall|k: int| 0 <= k < n && reached@[k] ==> reachable(wv, iv, k as usize),
            forall|j: int|
                0 <= j < queue@.len() ==> (#[trigger] queue@[j]) < n && reached@[queue@[j] as int],
            count_false(reached@) + queue@.len() <= count_false(old(reached)@)
                + old(queue)@.len(),
            forall|k: int| 0 <= k < n && old(reached)@[k] ==> reached@[k],
            forall|j: int| 0 <= j < ki ==> reached@[(#[trigger] m@[j]).0 as int],
            forall|j: int|
                0 <= j < old(queue)@.len() ==> queue@.contains(#[trigger] old(queue)@[j]),
            forall|k: int|
                0 <= k < n && !old(reached)@[k] && reached@[k] ==> queue@.contains(k as usize),
        decreases m@.len() - ki,
    {
        let ghost qpre = queue@;
        let (k, _c) = m.entry(ki);
        proof {
            assert(m@[ki as int].0 == k && k < n);
        }
        if !reached[k] {
            let ghost rpre = reached@;
            reached[k] = true;
            queue.push(k);
            proof {
                assert forall|j: int|
                    0 <= j < old(queue)@.len() implies queue@.contains(
                    #[trigger] old(queue)@[j],
                ) by {
                    assert(qpre.contains(old(queue)@[j]));
                    let jj = choose|jj: int| 0 <= jj < qpre.len() && qpre[jj] == old(queue)@[j];
                    assert(queue@[jj] == old(queue)@[j]);
                };
                assert forall|kk: int|
                    0 <= kk < n && !old(reached)@[kk] && reached@[kk] implies queue@.contains(
                    kk as usize,
                ) by {
                    if rpre[kk] {
                        assert(qpre.contains(kk as usize));
                        let jj = choose|jj: int| 0 <= jj < qpre.len() && qpre[jj] == kk as usize;
                        assert(queue@[jj] == kk as usize);
                    } else {
                        assert(kk == k);
                        assert(queue@[queue@.len() - 1] == k);
                    }
                };
            }
            proof {
                lemma_count_false_set(rpre, k as int);
                // the wire is reached one step past the wire whose definition
                // names it
                assert(reachable(wv, iv, k)) by {
                    let nn = choose|nn: int| reach_n(wv, iv, u, nn);
                    assert(nn >= 0) by {
                        if nn < 0 {
                            assert(!reach_n(wv, iv, u, nn));
                        }
                    };
                    assert(has_key(m@, k)) by {
                        assert(m@[ki as int].0 == k);
                    };
                    assert(reach_edge(wv, u, k));
                    lemma_reach_step(wv, iv, u, k, nn);
                };
            }
        }
        ki = ki + 1;
    }
}

/// Discards every wire definition that no declared input reaches through the
/// definition graph: such definitions are artefacts of intermediate algebra
/// that nothing constrains. A surviving definition is exactly as it was
/// recorded, and is reached from the inputs. Every wire id in play names an
/// allocated wire, so the traversal cannot meet a dangling one.
pub fn optimize(auxes: &Vec<Fe>, wires: Vec<Option<Exp>>, input: &Vec<usize>) -> (r: Vec<
    Option<Exp>,
>)
    requires
        wires@.len() <= auxes@.len(),
        forall|i: int| 0 <= i < input@.len() ==> (#[trigger] input@[i]) < auxes@.len(),
        forall|w: int|
            0 <= w < wires@.len() && wires@[w] is Some ==> exp_keys_below(
                (#[trigger] wires@[w])->Some_0,
                auxes@.len() as int,
            ),
    ensures
        r@ == pruned(wires@, input@),
        r@.len() == wires@.len(),
        forall|w: int|
            0 <= w < r@.len() && r@[w] is Some ==> r@[w] == wires@[w] && reachable(
                wires@,
                input@,
                w as usize,
            ),
        forall|w: int|
            0 <= w < r@.len() && wires@[w] is Some && reachable(wires@, input@, w as usize)
                ==> r@[w] == wires@[w],
{
    let n = auxes.len();
    let ghost wv = wires@;
    let ghost iv = input@;
    let mut reached: Vec<bool> = vec![false; n];
    let mut queue: Vec<usize> = Vec::new();
    let mut i: usize = 0;
    while i < input.len()
        invariant
            i <= iv.len(),
            iv == input@,
            reached@.len() == n,
            forall|j: int| 0 <= j < iv.len() ==> (#[trigger] iv[j]) < n,
            forall|k: int| 0 <= k < n && reached@[k] ==> reachable(wv, iv, k as usize),
            forall|j: int| 0 <= j < queue@.len() ==> (#[trigger] queue@[j]) < n && reached@[queue@[j] as int],
            forall|k: usize| k < n && reached@[k as int] ==> #[trigger] queue@.contains(k),
            forall|j: int| 0 <= j < i ==> reached@[(#[trigger] iv[j]) as int],
        decreases iv.len() - i,
    {
        let ghost qpre = queue@;
        let ghost rpre = reached@;
        let w = input[i];
        if !reached[w] {
            reached[w] = true;
            queue.push(w);
            proof {
                assert(reach_n(wv, iv, w, 0)) by {
                    assert(iv[i as int] == w);
                    assert(iv.contains(w));
                };
                assert(reachable(wv, iv, w));
                assert forall|k: usize| k < n && reached@[k as int] implies #[trigger] queue@.contains(
                    k,
                ) by {
                    if rpre[k as int] {
                        assert(qpre.contains(k));
                        let jj = choose|jj: int| 0 <= jj < qpre.len() && qpre[jj] == k;
                        assert(queue@[jj] == k);
                    } else {
                        assert(k == w);
                        assert(queue@[queue@.len() - 1] == k);
                    }
                };
            }
        }
        i = i + 1;
    }
    while queue.len() > 0
        invariant
            reached@.len() == n,
            wv == wires@,
            wires@.len() <= n,
            forall|w: int|
                0 <= w < wv.len() && wv[w] is Some ==> exp_keys_below(
                    (#[trigger] wv[w])->Some_0,
                    n as int,
                ),
            forall|k: int| 0 <= k < n && reached@[k] ==> reachable(wv, iv, k as usize),
            forall|j: int| 0 <= j < queue@.len() ==> (#[trigger] queue@[j]) < n && reached@[queue@[j] as int],
            forall|j: int| 0 <= j < iv.len() ==> (#[trigger] iv[j]) < n,
            forall|j: int| 0 <= j < iv.len() ==> reached@[(#[trigger] iv[j]) as int],
            forall|k: usize, j: usize|
                k < n && reached@[k as int] && !queue@.contains(k) && #[trigger] reach_edge(
                    wv,
                    k,
                    j,
                ) && j < n ==> reached@[j as int],
        decreases count_false(reached@) + queue@.len(),
    {
        let ghost reached0 = reached@;
        let ghost queue0 = queue@;
        let u = match queue.pop() {
            Some(u) => u,
            None => 0,
        };
        let ghost queue1 = queue@;
        proof {
            assert(queue0[queue0.len() - 1] == u);
            assert(u < n && reached0[u as int]);
            // dropping the tail keeps every other member
            assert forall|k: usize|
                queue0.contains(k) && k != u implies queue1.contains(k) by {
                let jj = choose|jj: int| 0 <= jj < queue0.len() && queue0[jj] == k;
                assert(jj < queue0.len() - 1);
                assert(queue1[jj] == k);
            };
        }
        if u < wires.len() {
            match &wires[u] {
                Some(Exp::L(l)) => {
                    mark_part(l, &mut reached, &mut queue, Ghost(wv), Ghost(iv), Ghost(u));
                    proof {
                        assert forall|j: int| 0 <= j < iv.len() implies reached@[(
                        #[trigger] iv[j]) as int] by {
                            let w2 = iv[j] as int;
                            assert(0 <= w2 < n);
                            assert(reached0[w2]);
                        };
                    }
                },
                Some(Exp::Q(a, b, c)) => {
                    mark_part(a, &mut reached, &mut queue, Ghost(wv), Ghost(iv), Ghost(u));
                    let ghost r1 = reached@;
                    mark_part(b, &mut reached, &mut queue, Ghost(wv), Ghost(iv), Ghost(u));
                    let ghost r2 = reached@;
                    mark_part(c, &mut reached, &mut queue, Ghost(wv), Ghost(iv), Ghost(u));
                    proof {
                        assert forall|j: int| 0 <= j < iv.len() implies reached@[(
                        #[trigger] iv[j]) as int] by {
                            let w2 = iv[j] as int;
                            assert(0 <= w2 < n);
                            assert(reached0[w2]);
                            assert(r1[w2]);
                            assert(r2[w2]);
                        };
                    }
                },
                None => {},
            }
        }
        proof {
            assert(count_false(reached@) + queue@.len() < count_false(reached0) + queue0.len());
            // the closure survives: the popped wire's edges were all marked,
            // anything else that left no longer guards, marks only grew
            assert forall|k: usize, j: usize|
                k < n && reached@[k as int] && !queue@.contains(k) && #[trigger] reach_edge(
                    wv,
                    k,
                    j,
                ) && j < n implies reached@[j as int] by {
                if k == u {
                    assert(wire_at(wv, u as int) is Some);
                    assert(u < wv.len());
                    match wv[u as int]->Some_0 {
                        Exp::L(l) => {
                            assert(has_key(l@, j));
                        },
                        Exp::Q(a, b, c) => {
                            assert(has_key(a@, j) || has_key(b@, j) || has_key(c@, j));
                        },
                    }
                } else {
                    if reached0[k as int] {
                        if queue0.contains(k) {
                            assert(queue1.contains(k));
                            let jj = choose|jj: int|
                                0 <= jj < queue1.len() && queue1[jj] == k;
                            assert(queue@.contains(k));
                        } else {
                            assert(reached0[j as int]);
                        }
                    } else {
                        // marked during this iteration: it went onto the queue
                        // and stayed there
                        assert(queue@.contains(k));
                    }
                }
            };
        }
    }
    // keep exactly the definitions whose wires were reached
    let mut out: Vec<Option<Exp>> = Vec::new();
    let mut w: usize = 0;
    let mut wires = wires;
    while w < wires.len()
        invariant
            w <= wires@.len(),
            wv.len() == wires@.len(),
            forall|j: int| w <= j < wires@.len() ==> wires@[j] == wv[j],
            reached@.len() == n,
            wires@.len() <= n,
            forall|k: int| 0 <= k < n && reached@[k] ==> reachable(wv, iv, k as usize),
            out@.len() == w,
            forall|j: int|
                0 <= j < w ==> #[trigger] out@[j] == (if reached@[j] {
                    wv[j]
                } else {
                    None
                }),
        decreases wires@.len() - w,
    {
        let keep = reached[w];
        let ghost pre = wires@;
        let mut slot: Option<Exp> = None;
        core::mem::swap(&mut slot, &mut wires[w]);
        proof {
            assert(wires@ =~= pre.update(w as int, None));
        }
        let ghost out0 = out@;
        if keep {
            proof {
                assert(slot == wv[w as int]);
                assert(reached@[w as int]);
                assert(reachable(wv, iv, w));
            }
            out.push(slot);
        } else {
            out.push(None);
        }
        proof {
            assert forall|j: int| 0 <= j < w + 1 implies #[trigger] out@[j] == (if reached@[j] {
                wv[j]
            } else {
                None
            }) by {
                if j < w {
                    assert(out@[j] == out0[j]);
                } else {
                    assert(j == w);
                }
            };
        }
        w = w + 1;
    }
    proof {
        assert forall|w: int| 0 <= w < out@.len() && out@[w] is Some implies out@[w] == wv[w]
            && reachable(wv, iv, w as usize) by {
            assert(out@[w] == (if reached@[w] {
                wv[w]
            } else {
                None
            }));
            assert(reached@[w]);
        };
        // completeness: the traversal left a marking that covers the inputs
        // and is closed under definition edges, so every reachable wire was
        // marked and its definition kept
        assert forall|w: int|
            0 <= w < out@.len() && wv[w] is Some && reachable(wv, iv, w as usize) implies out@[w]
            == wv[w] by {
            let nn = choose|nn: int| #[trigger] reach_n(wv, iv, w as usize, nn);
            lemma_reach_in_closed(wv, iv, reached@, w as usize, nn);
            assert(reached@[w]);
            assert(out@[w] == (if reached@[w] {
                wv[w]
            } else {
                None
            }));
        };
        assert(out@ =~= pruned(wv, iv)) by {
            assert forall|w: int| 0 <= w < out@.len() implies out@[w] == pruned(wv, iv)[w] by {
                if wv[w] is Some && reachable(wv, iv, w as usize) {
                    assert(out@[w] == wv[w]);
                } else {
                    if out@[w] is Some {
                        assert(out@[w] == wv[w] && reachable(wv, iv, w as usize));
                    }
                }
            };
        };
    }
    out
}

/// The interning table and its inverse agree: position `p` lists wire
/// `table[p]`, and `fwd` sends exactly the listed wires back to their
/// positions.
pub open spec fn table_fwd_ok(table: Seq<usize>, fwd: Seq<Option<usize>>) -> bool {
    &&& forall|p: int|
        0 <= p < table.len() ==> (#[trigger] table[p]) < fwd.len() && fwd[table[p] as int]
            == Some(p as usize)
    &&& forall|w: int|
        0 <= w < fwd.len() && fwd[w] is Some ==> ((#[trigger] fwd[w])->Some_0 < table.len()
            && table[fwd[w]->Some_0 as int] == w as usize)
}

/// Registers every wire a mapping names in the interning table, giving an
/// unseen wire the next free position.
pub fn intern_keys(table: &mut Vec<usize>, fwd: &mut Vec<Option<usize>>, m: &SparseVec)
    requires
        table_fwd_ok(old(table)@, old(fwd)@),
        keys_below(m@, old(fwd)@.len() as int),
    ensures
        table_fwd_ok(final(table)@, final(fwd)@),
        final(fwd)@.len() == old(fwd)@.len(),
        old(table)@.len() <= final(table)@.len(),
        final(table)@.subrange(0, old(table)@.len() as int) == old(table)@,
        forall|w: int|
            0 <= w < old(fwd)@.len() && old(fwd)@[w] is Some ==> final(fwd)@[w] == old(fwd)@[w],
        forall|k: usize| #[trigger] has_key(m@, k) ==> final(fwd)@[k as int] is Some,
        forall|w: int|
            0 <= w < final(fwd)@.len() && final(fwd)@[w] is Some ==> old(fwd)@[w] is Some
                || has_key(m@, w as usize),
{
    proof {
        use_type_invariant(m);
    }
    let ghost mv = m@;
    let mut i: usize = 0;
    while i < m.len()
        invariant
            i <= mv.len(),
            mv == m@,
            keys_below(mv, fwd@.len() as int),
            table_fwd_ok(table@, fwd@),
            fwd@.len() == old(fwd)@.len(),
            old(table)@.len() <= table@.len(),
            table@.subrange(0, old(table)@.len() as int) == old(table)@,
            forall|w: int|
                0 <= w < old(fwd)@.len() && old(fwd)@[w] is Some ==> fwd@[w] == old(fwd)@[w],
            forall|j: int| 0 <= j < i ==> fwd@[(#[trigger] mv[j]).0 as int] is Some,
            forall|w: int|
                0 <= w < fwd@.len() && fwd@[w] is Some ==> old(fwd)@[w] is Some || has_key(
                    mv,
                    w as usize,
                ),
        decreases mv.len() - i,
    {
        let (w, _c) = m.entry(i);
        proof {
            assert(mv[i as int].0 == w && w < fwd@.len());
        }
        let absent = match fwd[w] {
            Some(_) => false,
            None => true,
        };
        if absent {
            let ghost t0 = table@;
            let ghost f0 = fwd@;
            let p = table.len();
            fwd[w] = Some(p);
            table.push(w);
            proof {
                assert(has_key(mv, w)) by {
                    assert(mv[i as int].0 == w);
                };
                assert(table@ =~= t0.push(w));
                assert(table@.subrange(0, old(table)@.len() as int) =~= old(table)@);
                assert(table_fwd_ok(table@, fwd@)) by {
                    assert forall|q: int|
                        0 <= q < table@.len() implies (#[trigger] table@[q]) < fwd@.len()
                        && fwd@[table@[q] as int] == Some(q as usize) by {
                        if q < t0.len() {
                            assert(table@[q] == t0[q]);
                            assert(t0[q] != w) by {
                                if t0[q] == w {
                                    assert(f0[w as int] == Some(q as usize));
                                }
                            };
                        } else {
                            assert(table@[q] == w && q == p);
                        }
                    };
                    assert forall|u: int|
                        0 <= u < fwd@.len() && fwd@[u] is Some implies ((
                        #[trigger] fwd@[u])->Some_0 < table@.len() && table@[fwd@[u]->Some_0 as int]
                        == u as usize) by {
                        if u == w {
                            assert(fwd@[u] == Some(p));
                            assert(table@[p as int] == w);
                        } else {
                            assert(fwd@[u] == f0[u]);
                        }
                    };
                };
            }
        }
        i = i + 1;
    }
    proof {
        assert forall|k: usize| #[trigger] has_key(mv, k) implies fwd@[k as int] is Some by {
            let j = choose|j: int| 0 <= j < mv.len() && (#[trigger] mv[j]).0 == k;
        };
    }
}

/// An entry-by-entry image of a source mapping through the interning table:
/// same coefficients, wires rewritten to their positions.
pub open spec fn remap_rel(src: Seq<(usize, Fe)>, dst: Seq<(usize, Fe)>, fwd: Seq<Option<usize>>) -> bool {
    &&& dst.len() == src.len()
    &&& forall|i: int|
        0 <= i < src.len() ==> (#[trigger] dst[i]).1 == src[i].1 && (#[trigger] src[i]).0
            < fwd.len() && fwd[src[i].0 as int] == Some(dst[i].0)
}

/// The image denotes, under the permuted assignment, exactly what the source
/// denotes under the auxiliary store.
pub proof fn lemma_eval_remap(
    src: Seq<(usize, Fe)>,
    dst: Seq<(usize, Fe)>,
    fwd: Seq<Option<usize>>,
    aux: Seq<Fe>,
    z: Seq<Fe>,
)
    requires
        remap_rel(src, dst, fwd),
        forall|w: int|
            0 <= w < fwd.len() && fwd[w] is Some ==> ((#[trigger] fwd[w])->Some_0 < z.len() && w
                < aux.len() && z[fwd[w]->Some_0 as int] == aux[w]),
    ensures
        eval(dst, z) == eval(src, aux),
    decreases src.len(),
{
    if src.len() > 0 {
        assert(remap_rel(src.drop_first(), dst.drop_first(), fwd)) by {
            assert(forall|i: int|
                0 <= i < src.drop_first().len() ==> (#[trigger] src.drop_first()[i]) == src[i
                    + 1]);
            assert(forall|i: int|
                0 <= i < dst.drop_first().len() ==> (#[trigger] dst.drop_first()[i]) == dst[i
                    + 1]);
        };
        lemma_eval_remap(src.drop_first(), dst.drop_first(), fwd, aux, z);
        assert(val_at(z, dst[0].0) == val_at(aux, src[0].0)) by {
            assert(fwd[src[0].0 as int] == Some(dst[0].0));
        };
    }
}

/// Rewrites a mapping's wires to their interned positions, coefficient by
/// coefficient.
pub fn remap_map(m: &SparseVec, fwd: &Vec<Option<usize>>) -> (r: Vec<(usize, Fe)>)
    requires
        keys_below(m@, fwd@.len() as int),
        forall|k: usize| #[trigger] has_key(m@, k) ==> fwd@[k as int] is Some,
        forall|w1: int, w2: int|
            0 <= w1 < w2 < fwd@.len() && fwd@[w1] is Some && fwd@[w2] is Some ==> fwd@[w1]
                != fwd@[w2],
    ensures
        remap_rel(m@, r@, fwd@),
        row_wf(r@),
{
    proof {
        use_type_invariant(m);
    }
    let ghost mv = m@;
    let mut out: Vec<(usize, Fe)> = Vec::new();
    let mut i: usize = 0;
    while i < m.len()
        invariant
            i <= mv.len(),
            mv == m@,
            crate::sparse::sv_wf(mv),
            keys_below(mv, fwd@.len() as int),
            forall|k: usize| #[trigger] has_key(mv, k) ==> fwd@[k as int] is Some,
            forall|w1: int, w2: int|
                0 <= w1 < w2 < fwd@.len() && fwd@[w1] is Some && fwd@[w2] is Some ==> fwd@[w1]
                    != fwd@[w2],
            out@.len() == i,
            forall|j: int|
                0 <= j < i ==> (#[trigger] out@[j]).1 == mv[j].1 && fwd@[mv[j].0 as int] == Some(
                    out@[j].0,
                ),
        decreases mv.len() - i,
    {
        let (w, c) = m.entry(i);
        proof {
            assert(mv[i as int].0 == w);
            assert(has_key(mv, w)) by {
                assert(mv[i as int].0 == w);
            };
        }
        let p = match fwd[w] {
            Some(p) => p,
            None => 0,
        };
        out.push((p, c));
        i = i + 1;
    }
    proof {
        assert(row_wf(out@)) by {
            assert forall|j1: int, j2: int| 0 <= j1 < j2 < out@.len() implies (
            #[trigger] out@[j1]).0 != (#[trigger] out@[j2]).0 by {
                assert(mv[j1].0 != mv[j2].0);
                assert(fwd@[mv[j1].0 as int] == Some(out@[j1].0));
                assert(fwd@[mv[j2].0 as int] == Some(out@[j2].0));
                if mv[j1].0 < mv[j2].0 {
                    assert(fwd@[mv[j1].0 as int] != fwd@[mv[j2].0 as int]);
                } else {
                    assert(fwd@[mv[j2].0 as int] != fwd@[mv[j1].0 as int]);
                }
            };
            assert(forall|j: int|
                0 <= j < out@.len() ==> (#[trigger] out@[j]).1.wf() && out@[j].1.val() != 0);
        };
    }
    out
}

/// Turns one fused expression into an R1CS row: a linear expression becomes
/// a pure `C` row, a quadratic one fills all three mappings.
pub fn exp_to_constraint(e: &Exp, fwd: &Vec<Option<usize>>) -> (r: Constraint)
    requires
        exp_keys_below(*e, fwd@.len() as int),
        forall|k: usize| #[trigger] exp_has_key(*e, k) ==> fwd@[k as int] is Some,
        forall|w1: int, w2: int|
            0 <= w1 < w2 < fwd@.len() && fwd@[w1] is Some && fwd@[w2] is Some ==> fwd@[w1]
                != fwd@[w2],
    ensures
        row_wf(r.a@) && row_wf(r.b@) && row_wf(r.c@),
        match *e {
            Exp::L(l) => r.a@.len() == 0 && r.b@.len() == 0 && remap_rel(l@, r.c@, fwd@),
            Exp::Q(a, b, c) => remap_rel(a@, r.a@, fwd@) && remap_rel(b@, r.b@, fwd@)
                && remap_rel(c@, r.c@, fwd@),
        },
{
    match e {
        Exp::L(l) => {
            proof {
                assert forall|k: usize| #[trigger] has_key(l@, k) implies fwd@[k as int]
                    is Some by {
                    assert(exp_has_key(*e, k));
                };
            }
            Constraint { a: Vec::new(), b: Vec::new(), c: remap_map(l, fwd) }
        },
        Exp::Q(a, b, c) => {
            proof {
                assert forall|k: usize| #[trigger] has_key(a@, k) implies fwd@[k as int]
                    is Some by {
                    assert(exp_has_key(*e, k));
                };
                assert forall|k: usize| #[trigger] has_key(b@, k) implies fwd@[k as int]
                    is Some by {
                    assert(exp_has_key(*e, k));
                };
                assert forall|k: usize| #[trigger] has_key(c@, k) implies fwd@[k as int]
                    is Some by {
                    assert(exp_has_key(*e, k));
                };
            }
            Constraint {
                a: remap_map(a, fwd),
                b: remap_map(b, fwd),
                c: remap_map(c, fwd),
            }
        },
    }
}

/// Every free expression evaluates to zero in the field under the
/// assignment: the equality obligations all hold.
pub open spec fn exprs_zero(exprs: Seq<Exp>, aux: Seq<Fe>) -> bool {
    forall|i: int| 0 <= i < exprs.len() ==> #[trigger] exp_eval(exprs[i], aux) % modulus() == 0
}

/// Fuses a wire definition into a stand-alone equality: subtracting the
/// defined wire turns `w = e` into `e - w = 0`. The fused expression is the
/// definition's own mappings with the negative unit for `w` inserted into
/// the linear part.
fn fuse_def(e: &Exp, w: usize) -> (r: Exp)
    requires
        !exp_has_key(*e, w),
    ensures
        match *e {
            Exp::L(l) => r is L && crate::sparse::neg_unit_inserted(l@, w, r->L_0@),
            Exp::Q(a, b, c) => r is Q && r->Q_0@ == a@ && r->Q_1@ == b@
                && crate::sparse::neg_unit_inserted(c@, w, r->Q_2@),
        },
        forall|n: int| #[trigger] exp_keys_below(*e, n) && w < n ==> exp_keys_below(r, n),
        forall|aux: Seq<Fe>|
            0 <= #[trigger] val_at(aux, w) < modulus() && exp_eval(*e, aux) % modulus() == val_at(
                aux,
                w,
            ) ==> exp_eval(r, aux) % modulus() == 0,
{
    let r = match e {
        Exp::L(l) => {
            proof {
                assert(!has_key(l@, w));
            }
            Exp::L(crate::sparse::insert_neg_unit(l, w))
        },
        Exp::Q(a, b, c) => {
            proof {
                assert(!has_key(c@, w));
            }
            Exp::Q(a.clone(), b.clone(), crate::sparse::insert_neg_unit(c, w))
        },
    };
    proof {
        let p = modulus();
        let m1v = crate::fe::fe_minus_one_spec().val();
        assert(m1v == p - 1);
        assert forall|n: int| #[trigger] exp_keys_below(*e, n) && w < n implies exp_keys_below(
            r,
            n,
        ) by {
            match *e {
                Exp::L(l) => {
                    lemma_inserted_keys_below(l@, w, r->L_0@, n);
                },
                Exp::Q(a, b, c) => {
                    lemma_inserted_keys_below(c@, w, r->Q_2@, n);
                },
            }
        };
        assert forall|aux: Seq<Fe>|
            0 <= #[trigger] val_at(aux, w) < modulus() && exp_eval(*e, aux) % modulus() == val_at(
                aux,
                w,
            ) implies exp_eval(r, aux) % modulus() == 0 by {
            let z = val_at(aux, w);
            assert(z + (p - 1) * z == p * z) by {
                vstd::arithmetic::mul::lemma_mul_is_distributive_sub_other_way(z, p, 1);
                vstd::arithmetic::mul::lemma_mul_basics(z);
            };
            assert((p * z) % p == 0) by {
                vstd::arithmetic::div_mod::lemma_mod_multiples_vanish(z, 0, p);
                lemma_small_mod(0nat, p as nat);
            };
            lemma_small_mod(z as nat, p as nat);
            match *e {
                Exp::L(l) => {
                    crate::sparse::lemma_eval_insert(l@, w, r->L_0@, aux);
                    assert(eval(r->L_0@, aux) == eval(l@, aux) + (p - 1) * z);
                    lemma_mod_twice(eval(l@, aux), p);
                    lemma_add_cong_mod(eval(l@, aux), (p - 1) * z, z, (p - 1) * z, p);
                    assert(exp_eval(r, aux) % p == (z + (p - 1) * z) % p);
                },
                Exp::Q(a, b, c) => {
                    let ea = eval(a@, aux);
                    let eb = eval(b@, aux);
                    let ec = eval(c@, aux);
                    crate::sparse::lemma_eval_insert(c@, w, r->Q_2@, aux);
                    assert(eval(r->Q_0@, aux) == ea && eval(r->Q_1@, aux) == eb);
                    assert(eval(r->Q_2@, aux) == ec + (p - 1) * z);
                    lemma_mod_twice(ea * eb + ec, p);
                    lemma_add_cong_mod(ea * eb + ec, (p - 1) * z, z, (p - 1) * z, p);
                    assert(exp_eval(r, aux) == (ea * eb + ec) + (p - 1) * z);
                },
            }
        };
    }
    r
}

/// An inserted negative unit keeps every wire id below a bound that covers
/// both the source's wires and the defined wire.
proof fn lemma_inserted_keys_below(
    src: Seq<(usize, Fe)>,
    w: usize,
    dst: Seq<(usize, Fe)>,
    n: int,
)
    requires
        crate::sparse::neg_unit_inserted(src, w, dst),
        keys_below(src, n),
        w < n,
    ensures
        keys_below(dst, n),
{
    let jj = choose|jj: int|
        #![auto]
        0 <= jj < dst.len() && dst[jj] == (w, crate::fe::fe_minus_one_spec()) && (forall|i: int|
            0 <= i < jj ==> dst[i] == src[i]) && (forall|i: int|
            jj < i < dst.len() ==> dst[i] == src[i - 1]);
    assert forall|i: int| 0 <= i < dst.len() implies (#[trigger] dst[i]).0 < n by {
        if i < jj {
            assert(dst[i] == src[i]);
        } else if i == jj {
        } else {
            assert(dst[i] == src[i - 1]);
        }
    };
}

/// The defined wires and their definitions, in ascending wire order.
pub open spec fn defs_list(wires: Seq<Option<Exp>>) -> Seq<(usize, Exp)>
    decreases wires.len(),
{
    if wires.len() == 0 {
        Seq::empty()
    } else if wires.last() is Some {
        defs_list(wires.drop_last()).push((((wires.len() - 1) as usize), wires.last()->Some_0))
    } else {
        defs_list(wires.drop_last())
    }
}

/// Appending one slot to the definition table appends its definition, if any,
/// to the list.
proof fn lemma_defs_list_step(s: Seq<Option<Exp>>, w: int)
    requires
        0 <= w < s.len(),
    ensures
        defs_list(s.subrange(0, w + 1)) == (if s[w] is Some {
            defs_list(s.subrange(0, w)).push(((w as usize), s[w]->Some_0))
        } else {
            defs_list(s.subrange(0, w))
        }),
{
    assert(s.subrange(0, w + 1).drop_last() =~= s.subrange(0, w));
    assert(s.subrange(0, w + 1).last() == s[w]);
}

/// The fused image of a definition: the negative unit for the defined wire
/// inserted into the definition's linear part.
pub open spec fn fused_of_def(fe: Exp, w: usize, e: Exp) -> bool {
    match e {
        Exp::L(l) => fe is L && crate::sparse::neg_unit_inserted(l@, w, fe->L_0@),
        Exp::Q(a, b, c) => fe is Q && fe->Q_0@ == a@ && fe->Q_1@ == b@
            && crate::sparse::neg_unit_inserted(c@, w, fe->Q_2@),
    }
}

/// A bound below the defined wire leaves no room for a self-reference.
proof fn lemma_keys_below_no_self(e: Exp, w: usize)
    requires
        exp_keys_below(e, w as int),
    ensures
        !exp_has_key(e, w),
{
    match e {
        Exp::L(l) => {
            if has_key(l@, w) {
                let j = choose|j: int| 0 <= j < l@.len() && (#[trigger] l@[j]).0 == w;
            }
        },
        Exp::Q(a, b, c) => {
            if has_key(a@, w) {
                let j = choose|j: int| 0 <= j < a@.len() && (#[trigger] a@[j]).0 == w;
            }
            if has_key(b@, w) {
                let j = choose|j: int| 0 <= j < b@.len() && (#[trigger] b@[j]).0 == w;
            }
            if has_key(c@, w) {
                let j = choose|j: int| 0 <= j < c@.len() && (#[trigger] c@[j]).0 == w;
            }
        },
    }
}

/// An R1CS row stands for a free expression: a linear expression becomes a
/// pure `C` row, a quadratic one fills all three mappings, each the image of
/// its source through the interning table.
pub open spec fn row_of_expr(row: Constraint, e: Exp, fwd: Seq<Option<usize>>) -> bool {
    match e {
        Exp::L(l) => row.a@.len() == 0 && row.b@.len() == 0 && remap_rel(l@, row.c@, fwd),
        Exp::Q(a, b, c) => remap_rel(a@, row.a@, fwd) && remap_rel(b@, row.b@, fwd) && remap_rel(
            c@,
            row.c@,
            fwd,
        ),
    }
}

/// An R1CS row stands for a wire definition: the definition's mappings, the
/// negative unit for the defined wire inserted into the linear part, all
/// taken through the interning table.
pub open spec fn row_of_def(row: Constraint, w: usize, e: Exp, fwd: Seq<Option<usize>>) -> bool {
    match e {
        Exp::L(l) => row.a@.len() == 0 && row.b@.len() == 0 && (exists|mid: Seq<(usize, Fe)>|
            #[trigger] crate::sparse::neg_unit_inserted(l@, w, mid) && remap_rel(
                mid,
                row.c@,
                fwd,
            )),
        Exp::Q(a, b, c) => remap_rel(a@, row.a@, fwd) && remap_rel(b@, row.b@, fwd) && (exists|
            mid: Seq<(usize, Fe)>,
        |
            #[trigger] crate::sparse::neg_unit_inserted(c@, w, mid) && remap_rel(
                mid,
                row.c@,
                fwd,
            )),
    }
}

/// Some mapping of the row carries a coefficient at the position.
pub open spec fn row_has_pos(c: Constraint, p: usize) -> bool {
    ||| exists|j: int| 0 <= j < c.a@.len() && (#[trigger] c.a@[j]).0 == p
    ||| exists|j: int| 0 <= j < c.b@.len() && (#[trigger] c.b@[j]).0 == p
    ||| exists|j: int| 0 <= j < c.c@.len() && (#[trigger] c.c@[j]).0 == p
}

/// Some row carries a coefficient at the position: no assignment slot past
/// the declared inputs is idle.
pub open spec fn position_used(rows: Seq<Constraint>, p: usize) -> bool {
    exists|i2: int| 0 <= i2 < rows.len() && row_has_pos(#[trigger] rows[i2], p)
}

/// The complete row list of a build: one row per free expression, in order,
/// then one row per wire definition, in ascending wire order, each row the
/// image of its source.
pub open spec fn rows_built(
    rows: Seq<Constraint>,
    wires: Seq<Option<Exp>>,
    exprs: Seq<Exp>,
    fwd: Seq<Option<usize>>,
) -> bool {
    &&& rows.len() == exprs.len() + defs_list(wires).len()
    &&& forall|i: int| 0 <= i < exprs.len() ==> row_of_expr(#[trigger] rows[i], exprs[i], fwd)
    &&& forall|k: int|
        0 <= k < defs_list(wires).len() ==> row_of_def(
            #[trigger] rows[exprs.len() + k],
            defs_list(wires)[k].0,
            defs_list(wires)[k].1,
            fwd,
        )
}

/// Converts the surviving wire definitions and every free expression into a
/// flat list of R1CS rows, interning wire ids into contiguous positions:
/// the declared inputs first, in declaration order, then every other wire in
/// order of first reference.
pub fn build_constraints(
    wires: Vec<Option<Exp>>,
    exprs: Vec<Exp>,
    input: &Vec<usize>,
    nwires: usize,
) -> (r: (Vec<Constraint>, Vec<usize>))
    requires
        wires@.len() <= nwires,
        forall|w: int|
            0 <= w < wires@.len() && wires@[w] is Some ==> exp_keys_below(
                (#[trigger] wires@[w])->Some_0,
                nwires as int,
            ),
        forall|w: int|
            0 <= w < wires@.len() && wires@[w] is Some ==> exp_keys_below(
                (#[trigger] wires@[w])->Some_0,
                w,
            ),
        forall|i: int| 0 <= i < exprs@.len() ==> exp_keys_below(#[trigger] exprs@[i], nwires as int),
        input@.len() >= 1,
        input@[0] == 0,
        forall|i: int| 0 <= i < input@.len() ==> (#[trigger] input@[i]) < nwires,
        forall|i: int, j: int| 0 <= i < j < input@.len() ==> input@[i] != input@[j],
    ensures
        exists|fwd: Seq<Option<usize>>|
            #[trigger] table_fwd_ok(r.1@, fwd) && fwd.len() == nwires && rows_built(
                r.0@,
                wires@,
                exprs@,
                fwd,
            ),
        forall|p: int|
            input@.len() <= p < r.1@.len() ==> #[trigger] position_used(r.0@, (p as usize)),
        r.1@.len() >= input@.len(),
        r.1@.subrange(0, input@.len() as int) == input@,
        forall|p: int| 0 <= p < r.1@.len() ==> (#[trigger] r.1@[p]) < nwires,
        forall|p: int, q: int| 0 <= p < q < r.1@.len() ==> r.1@[p] != r.1@[q],
        forall|i: int|
            0 <= i < r.0@.len() ==> constraint_wf(#[trigger] r.0@[i], r.1@.len() as int),
        forall|aux: Seq<Fe>|
            aux.len() == nwires && defs_hold(wires@, aux) && exprs_zero(exprs@, aux)
                ==> satisfied(r.0@, witness_of(aux, r.1@)),
{
    let ghost wv = wires@;
    let ghost ev0 = exprs@;
    // fuse the surviving definitions into stand-alone equalities
    let mut fused: Vec<Exp> = exprs;
    let mut w: usize = 0;
    proof {
        assert(wv.subrange(0, 0) =~= Seq::<Option<Exp>>::empty());
        assert(fused@.subrange(0, ev0.len() as int) =~= ev0);
    }
    while w < wires.len()
        invariant
            w <= wv.len(),
            wv == wires@,
            wv.len() <= nwires,
            ev0.len() <= fused@.len(),
            forall|u: int|
                0 <= u < wv.len() && wv[u] is Some ==> exp_keys_below(
                    (#[trigger] wv[u])->Some_0,
                    nwires as int,
                ),
            forall|u: int|
                0 <= u < wv.len() && wv[u] is Some ==> exp_keys_below(
                    (#[trigger] wv[u])->Some_0,
                    u,
                ),
            forall|i: int|
                0 <= i < fused@.len() ==> exp_keys_below(#[trigger] fused@[i], nwires as int),
            forall|aux: Seq<Fe>|
                aux.len() == nwires && defs_hold(wv, aux) && exprs_zero(ev0, aux)
                    ==> #[trigger] exprs_zero(fused@, aux),
            fused@.subrange(0, ev0.len() as int) == ev0,
            fused@.len() == ev0.len() + defs_list(wv.subrange(0, w as int)).len(),
            forall|k: int|
                0 <= k < defs_list(wv.subrange(0, w as int)).len() ==> fused_of_def(
                    #[trigger] fused@[ev0.len() + k],
                    defs_list(wv.subrange(0, w as int))[k].0,
                    defs_list(wv.subrange(0, w as int))[k].1,
                ),
        decreases wv.len() - w,
    {
        let ghost dl0 = defs_list(wv.subrange(0, w as int));
        let has_def = match &wires[w] {
            Some(_) => true,
            None => false,
        };
        if has_def {
            let ghost fused0 = fused@;
            let fe = match &wires[w] {
                Some(e) => {
                    proof {
                        lemma_keys_below_no_self(wv[w as int]->Some_0, w);
                    }
                    fuse_def(e, w)
                },
                None => Exp::L(SparseVec::new()),
            };
            fused.push(fe);
            proof {
                let e = wv[w as int]->Some_0;
                assert(exp_keys_below(fe, nwires as int)) by {
                    assert(exp_keys_below(e, nwires as int) && w < nwires);
                };
                assert(fused@.subrange(0, ev0.len() as int) =~= fused0.subrange(
                    0,
                    ev0.len() as int,
                ));
                lemma_defs_list_step(wv, w as int);
                assert(defs_list(wv.subrange(0, w + 1)) == dl0.push(
                    (w, wv[w as int]->Some_0),
                ));
                assert(fused_of_def(fe, w, e));
                assert forall|k: int|
                    0 <= k < defs_list(wv.subrange(0, w + 1)).len() implies fused_of_def(
                    #[trigger] fused@[ev0.len() + k],
                    defs_list(wv.subrange(0, w + 1))[k].0,
                    defs_list(wv.subrange(0, w + 1))[k].1,
                ) by {
                    if k < dl0.len() {
                        assert(fused@[ev0.len() + k] == fused0[ev0.len() + k]);
                        assert(defs_list(wv.subrange(0, w + 1))[k] == dl0[k]);
                    } else {
                        assert(k == dl0.len());
                        assert(fused@[ev0.len() + k] == fe);
                    }
                };
                assert forall|aux: Seq<Fe>|
                    aux.len() == nwires && defs_hold(wv, aux) && exprs_zero(ev0, aux) implies #[trigger] exprs_zero(
                    fused@,
                    aux,
                ) by {
                    assert(exprs_zero(fused0, aux));
                    assert(def_holds(e, aux, w)) by {
                        assert(wv[w as int] is Some);
                    };
                    assert(0 <= val_at(aux, w) < modulus()) by {
                        lemma_mod_bound(exp_eval(e, aux), modulus());
                    };
                    assert(exp_eval(fe, aux) % modulus() == 0);
                    assert forall|i: int| 0 <= i < fused@.len() implies #[trigger] exp_eval(
                        fused@[i],
                        aux,
                    ) % modulus() == 0 by {
                        if i < fused0.len() {
                            assert(fused@[i] == fused0[i]);
                            assert(exp_eval(fused0[i], aux) % modulus() == 0);
                        } else {
                            assert(fused@[i] == fe);
                        }
                    };
                };
            }
        } else {
            proof {
                lemma_defs_list_step(wv, w as int);
                assert(defs_list(wv.subrange(0, w + 1)) == dl0);
            }
        }
        w = w + 1;
    }
    proof {
        assert(wv.subrange(0, wv.len() as int) =~= wv);
        assert(fused@.len() == ev0.len() + defs_list(wv).len());
    }
    // intern the declared inputs at the head of the table
    let mut table: Vec<usize> = Vec::new();
    let mut fwd: Vec<Option<usize>> = vec![None; nwires];
    let mut i: usize = 0;
    while i < input.len()
        invariant
            i <= input@.len(),
            fwd@.len() == nwires,
            table@ =~= input@.subrange(0, i as int),
            forall|j: int| 0 <= j < input@.len() ==> (#[trigger] input@[j]) < nwires,
            forall|j1: int, j2: int| 0 <= j1 < j2 < input@.len() ==> input@[j1] != input@[j2],
            table_fwd_ok(table@, fwd@),
            forall|u: int|
                0 <= u < nwires && fwd@[u] is Some ==> exists|j: int|
                    0 <= j < i && input@[j] == u,
        decreases input@.len() - i,
    {
        let x = input[i];
        let ghost t0 = table@;
        let ghost f0 = fwd@;
        proof {
            assert(f0[x as int] is None) by {
                if f0[x as int] is Some {
                    let j = choose|j: int| 0 <= j < i && input@[j] == x as usize;
                    assert(input@[j] == input@[i as int]);
                }
            };
        }
        fwd[x] = Some(i);
        table.push(x);
        proof {
            assert(table@ =~= input@.subrange(0, i + 1 as int));
            assert(table_fwd_ok(table@, fwd@)) by {
                assert forall|q: int|
                    0 <= q < table@.len() implies (#[trigger] table@[q]) < fwd@.len()
                    && fwd@[table@[q] as int] == Some(q as usize) by {
                    if q < t0.len() {
                        assert(table@[q] == t0[q]);
                        assert(t0[q] != x) by {
                            if t0[q] == x {
                                assert(f0[x as int] == Some(q as usize));
                            }
                        };
                    } else {
                        assert(table@[q] == x && q == i);
                    }
                };
                assert forall|u: int|
                    0 <= u < fwd@.len() && fwd@[u] is Some implies ((
                #[trigger] fwd@[u])->Some_0 < table@.len() && table@[fwd@[u]->Some_0 as int] == u
                    as usize) by {
                    if u == x {
                        assert(table@[i as int] == x);
                    } else {
                        assert(fwd@[u] == f0[u]);
                    }
                };
            };
            assert forall|u: int| 0 <= u < nwires && fwd@[u] is Some implies exists|j: int|
                0 <= j < i + 1 && input@[j] == u by {
                if u == x {
                    assert(input@[i as int] == u);
                } else {
                    let j = choose|j: int| 0 <= j < i && input@[j] == u as usize;
                }
            };
        }
        i = i + 1;
    }
    proof {
        assert(table@ =~= input@);
    }
    // intern every other wire the expressions name, in order of first
    // reference
    let mut j: usize = 0;
    while j < fused.len()
        invariant
            j <= fused@.len(),
            fwd@.len() == nwires,
            table_fwd_ok(table@, fwd@),
            input@.len() <= table@.len(),
            table@.subrange(0, input@.len() as int) == input@,
            forall|i2: int|
                0 <= i2 < fused@.len() ==> exp_keys_below(#[trigger] fused@[i2], nwires as int),
            forall|i2: int, k: usize|
                0 <= i2 < j && #[trigger] exp_has_key(#[trigger] fused@[i2], k) ==> fwd@[k as int]
                    is Some,
            forall|u: int|
                0 <= u < nwires && (#[trigger] fwd@[u]) is Some ==> input@.contains(u as usize)
                    || (exists|i2: int|
                    0 <= i2 < j && #[trigger] exp_has_key(fused@[i2], u as usize)),
        decreases fused@.len() - j,
    {
        let ghost tpre = table@;
        let ghost fpre = fwd@;
        match &fused[j] {
            Exp::L(l) => {
                intern_keys(&mut table, &mut fwd, l);
                proof {
                    assert forall|u: int|
                        0 <= u < nwires && (#[trigger] fwd@[u]) is Some implies input@.contains(
                        u as usize,
                    ) || (exists|i2: int|
                        0 <= i2 < j + 1 && #[trigger] exp_has_key(fused@[i2], u as usize)) by {
                        if fpre[u] is Some {
                            if !input@.contains(u as usize) {
                                let i2 = choose|i2: int|
                                    0 <= i2 < j && #[trigger] exp_has_key(
                                        fused@[i2],
                                        u as usize,
                                    );
                            }
                        } else {
                            assert(has_key(l@, u as usize));
                            assert(exp_has_key(fused@[j as int], u as usize));
                        }
                    };
                }
            },
            Exp::Q(a, b, c) => {
                intern_keys(&mut table, &mut fwd, a);
                let ghost f1 = fwd@;
                intern_keys(&mut table, &mut fwd, b);
                let ghost f2 = fwd@;
                intern_keys(&mut table, &mut fwd, c);
                proof {
                    assert forall|u: int|
                        0 <= u < nwires && (#[trigger] fwd@[u]) is Some implies input@.contains(
                        u as usize,
                    ) || (exists|i2: int|
                        0 <= i2 < j + 1 && #[trigger] exp_has_key(fused@[i2], u as usize)) by {
                        if fpre[u] is Some {
                            if !input@.contains(u as usize) {
                                let i2 = choose|i2: int|
                                    0 <= i2 < j && #[trigger] exp_has_key(
                                        fused@[i2],
                                        u as usize,
                                    );
                            }
                        } else if f1[u] is Some {
                            assert(has_key(a@, u as usize));
                            assert(exp_has_key(fused@[j as int], u as usize));
                        } else if f2[u] is Some {
                            assert(has_key(b@, u as usize));
                            assert(exp_has_key(fused@[j as int], u as usize));
                        } else {
                            assert(has_key(c@, u as usize));
                            assert(exp_has_key(fused@[j as int], u as usize));
                        }
                    };
                }
            },
        }
        proof {
            assert(table@.subrange(0, input@.len() as int) =~= input@) by {
                assert(forall|k: int|
                    0 <= k < input@.len() ==> table@[k] == #[trigger] tpre.subrange(
                        0,
                        input@.len() as int,
                    )[k]);
            };
            assert forall|i2: int, k: usize|
                0 <= i2 < j + 1 && #[trigger] exp_has_key(#[trigger] fused@[i2], k) implies fwd@[k as int]
                is Some by {
                if i2 < j {
                    assert(fpre[k as int] is Some);
                    assert(exp_keys_below(fused@[i2], nwires as int));
                    assert(k < nwires) by {
                        match fused@[i2] {
                            Exp::L(l) => {
                                let jj = choose|jj: int|
                                    0 <= jj < l@.len() && (#[trigger] l@[jj]).0 == k;
                            },
                            Exp::Q(a, b, c) => {
                                if has_key(a@, k) {
                                    let jj = choose|jj: int|
                                        0 <= jj < a@.len() && (#[trigger] a@[jj]).0 == k;
                                } else if has_key(b@, k) {
                                    let jj = choose|jj: int|
                                        0 <= jj < b@.len() && (#[trigger] b@[jj]).0 == k;
                                } else {
                                    let jj = choose|jj: int|
                                        0 <= jj < c@.len() && (#[trigger] c@[jj]).0 == k;
                                }
                            },
                        }
                    };
                } else {
                    assert(i2 == j);
                }
            };
        }
        j = j + 1;
    }
    // emit the rows through the table
    let mut rows: Vec<Constraint> = Vec::new();
    let mut j2: usize = 0;
    while j2 < fused.len()
        invariant
            j2 <= fused@.len(),
            fwd@.len() == nwires,
            table_fwd_ok(table@, fwd@),
            forall|i2: int|
                0 <= i2 < fused@.len() ==> exp_keys_below(#[trigger] fused@[i2], nwires as int),
            forall|i2: int, k: usize|
                0 <= i2 < fused@.len() && #[trigger] exp_has_key(#[trigger] fused@[i2], k)
                    ==> fwd@[k as int] is Some,
            rows@.len() == j2,
            forall|i2: int|
                0 <= i2 < j2 ==> row_wf((#[trigger] rows@[i2]).a@) && row_wf(rows@[i2].b@)
                    && row_wf(rows@[i2].c@),
            forall|i2: int|
                0 <= i2 < j2 ==> match fused@[i2] {
                    Exp::L(l) => (#[trigger] rows@[i2]).a@.len() == 0 && rows@[i2].b@.len() == 0
                        && remap_rel(l@, rows@[i2].c@, fwd@),
                    Exp::Q(a, b, c) => remap_rel(a@, rows@[i2].a@, fwd@) && remap_rel(
                        b@,
                        rows@[i2].b@,
                        fwd@,
                    ) && remap_rel(c@, rows@[i2].c@, fwd@),
                },
        decreases fused@.len() - j2,
    {
        proof {
            assert(forall|w1: int, w2: int|
                0 <= w1 < w2 < fwd@.len() && fwd@[w1] is Some && fwd@[w2] is Some ==> fwd@[w1]
                    != fwd@[w2]) by {
                assert forall|w1: int, w2: int|
                    0 <= w1 < w2 < fwd@.len() && fwd@[w1] is Some && fwd@[w2]
                        is Some implies fwd@[w1] != fwd@[w2] by {
                    if fwd@[w1] == fwd@[w2] {
                        assert(table@[fwd@[w1]->Some_0 as int] == w1 as usize);
                        assert(table@[fwd@[w2]->Some_0 as int] == w2 as usize);
                    }
                };
            };
        }
        let row = exp_to_constraint(&fused[j2], &fwd);
        rows.push(row);
        j2 = j2 + 1;
    }
    // the rows are exactly the images of the free expressions and the fused
    // definitions
    proof {
        assert forall|i: int| 0 <= i < ev0.len() implies row_of_expr(
            #[trigger] rows@[i],
            ev0[i],
            fwd@,
        ) by {
            assert(fused@.subrange(0, ev0.len() as int)[i] == fused@[i]);
            assert(fused@[i] == ev0[i]);
        };
        assert forall|k: int| 0 <= k < defs_list(wv).len() implies row_of_def(
            #[trigger] rows@[ev0.len() + k],
            defs_list(wv)[k].0,
            defs_list(wv)[k].1,
            fwd@,
        ) by {
            let dw = defs_list(wv)[k].0;
            let de = defs_list(wv)[k].1;
            let fe = fused@[ev0.len() + k];
            assert(fused_of_def(fe, dw, de));
            let row = rows@[ev0.len() + k];
            match de {
                Exp::L(l) => {
                    assert(fe is L);
                    assert(crate::sparse::neg_unit_inserted(l@, dw, fe->L_0@));
                    assert(remap_rel(fe->L_0@, row.c@, fwd@));
                },
                Exp::Q(a, b, c) => {
                    assert(fe is Q);
                    assert(remap_rel(fe->Q_0@, row.a@, fwd@));
                    assert(remap_rel(fe->Q_1@, row.b@, fwd@));
                    assert(crate::sparse::neg_unit_inserted(c@, dw, fe->Q_2@));
                    assert(remap_rel(fe->Q_2@, row.c@, fwd@));
                },
            }
        };
        assert(rows_built(rows@, wv, ev0, fwd@));
        assert(table_fwd_ok(table@, fwd@));
        assert(fwd@.len() == nwires);
        assert(exists|f2: Seq<Option<usize>>|
            #[trigger] table_fwd_ok(table@, f2) && f2.len() == nwires && rows_built(
                rows@,
                wv,
                ev0,
                f2,
            )) by {
            assert(table_fwd_ok(table@, fwd@) && fwd@.len() == nwires && rows_built(
                rows@,
                wv,
                ev0,
                fwd@,
            ));
        };
    }
    // what was built satisfies the permuted assignment wherever the session's
    // obligations hold
    let tlen = table.len();
    proof {
        assert forall|p: int| 0 <= p < table@.len() implies (#[trigger] table@[p]) < nwires by {
            assert(table@[p] < fwd@.len());
        };
        assert forall|p: int, q: int| 0 <= p < q < table@.len() implies table@[p]
            != table@[q] by {
            assert(p < tlen && q < tlen);
            assert(fwd@[table@[p] as int] == Some(p as usize));
            assert(fwd@[table@[q] as int] == Some(q as usize));
            assert(p as usize == p && q as usize == q);
        };
        assert forall|i2: int| 0 <= i2 < rows@.len() implies constraint_wf(
            #[trigger] rows@[i2],
            table@.len() as int,
        ) by {
            lemma_remapped_keys(fused@[i2], rows@[i2], fwd@, table@);
        };
        assert forall|aux: Seq<Fe>|
            aux.len() == nwires && defs_hold(wv, aux) && exprs_zero(ev0, aux) implies satisfied(
            rows@,
            witness_of(aux, table@),
        ) by {
            let z = witness_of(aux, table@);
            assert(exprs_zero(fused@, aux));
            assert forall|w2: int|
                0 <= w2 < fwd@.len() && fwd@[w2] is Some implies ((
            #[trigger] fwd@[w2])->Some_0 < z.len() && w2 < aux.len() && z[fwd@[w2]->Some_0 as int]
                == aux[w2]) by {
                let p = fwd@[w2]->Some_0;
                assert(table@[p as int] == w2 as usize);
                assert(z[p as int] == aux[table@[p as int] as int]);
            };
            assert forall|i2: int| 0 <= i2 < rows@.len() implies constraint_holds(
                #[trigger] rows@[i2],
                z,
            ) by {
                assert(exp_eval(fused@[i2], aux) % modulus() == 0);
                match fused@[i2] {
                    Exp::L(l) => {
                        lemma_eval_remap(l@, rows@[i2].c@, fwd@, aux, z);
                        assert(eval(rows@[i2].a@, z) == 0);
                        assert(eval(rows@[i2].b@, z) == 0);
                        assert(eval(rows@[i2].a@, z) * eval(rows@[i2].b@, z) == 0) by {
                            vstd::arithmetic::mul::lemma_mul_basics(eval(rows@[i2].b@, z));
                        };
                    },
                    Exp::Q(a, b, c) => {
                        lemma_eval_remap(a@, rows@[i2].a@, fwd@, aux, z);
                        lemma_eval_remap(b@, rows@[i2].b@, fwd@, aux, z);
                        lemma_eval_remap(c@, rows@[i2].c@, fwd@, aux, z);
                    },
                }
            };
        };
    }
    proof {
        assert forall|p: int| input@.len() <= p < table@.len() implies #[trigger] position_used(
            rows@,
            (p as usize),
        ) by {
            let w2 = table@[p];
            assert(fwd@[w2 as int] == Some(p as usize));
            assert(!input@.contains(w2)) by {
                if input@.contains(w2) {
                    let jj = choose|jj: int| 0 <= jj < input@.len() && input@[jj] == w2;
                    assert(table@.subrange(0, input@.len() as int)[jj] == table@[jj]);
                    assert(table@[jj] == w2);
                    assert(fwd@[w2 as int] == Some(jj as usize));
                }
            };
            assert(w2 < nwires);
            let i2 = choose|i2: int|
                0 <= i2 < fused@.len() && #[trigger] exp_has_key(fused@[i2], w2);
            match fused@[i2] {
                Exp::L(l) => {
                    assert(has_key(l@, w2));
                    let jj = choose|jj: int| 0 <= jj < l@.len() && (#[trigger] l@[jj]).0 == w2;
                    assert(remap_rel(l@, rows@[i2].c@, fwd@));
                    assert(fwd@[l@[jj].0 as int] == Some(rows@[i2].c@[jj].0));
                    assert(rows@[i2].c@[jj].0 == p as usize);
                    assert(row_has_pos(rows@[i2], (p as usize)));
                },
                Exp::Q(a, b, c) => {
                    if has_key(a@, w2) {
                        let jj = choose|jj: int|
                            0 <= jj < a@.len() && (#[trigger] a@[jj]).0 == w2;
                        assert(remap_rel(a@, rows@[i2].a@, fwd@));
                        assert(fwd@[a@[jj].0 as int] == Some(rows@[i2].a@[jj].0));
                        assert(rows@[i2].a@[jj].0 == p as usize);
                    } else if has_key(b@, w2) {
                        let jj = choose|jj: int|
                            0 <= jj < b@.len() && (#[trigger] b@[jj]).0 == w2;
                        assert(remap_rel(b@, rows@[i2].b@, fwd@));
                        assert(fwd@[b@[jj].0 as int] == Some(rows@[i2].b@[jj].0));
                        assert(rows@[i2].b@[jj].0 == p as usize);
                    } else {
                        assert(has_key(c@, w2));
                        let jj = choose|jj: int|
                            0 <= jj < c@.len() && (#[trigger] c@[jj]).0 == w2;
                        assert(remap_rel(c@, rows@[i2].c@, fwd@));
                        assert(fwd@[c@[jj].0 as int] == Some(rows@[i2].c@[jj].0));
                        assert(rows@[i2].c@[jj].0 == p as usize);
                    }
                    assert(row_has_pos(rows@[i2], (p as usize)));
                },
            }
        };
    }
    let result = (rows, table);
    proof {
        assert(result.0@ == rows@ && result.1@ == table@);
        assert(exists|f2: Seq<Option<usize>>|
            #[trigger] table_fwd_ok(result.1@, f2) && f2.len() == nwires && rows_built(
                result.0@,
                wires@,
                exprs@,
                f2,
            )) by {
            assert(table_fwd_ok(result.1@, fwd@) && fwd@.len() == nwires && rows_built(
                result.0@,
                wires@,
                exprs@,
                fwd@,
            ));
        };
    }
    result
}

/// A remapped row's positions all come from the table.
proof fn lemma_remapped_keys(e: Exp, row: Constraint, fwd: Seq<Option<usize>>, table: Seq<usize>)
    requires
        table_fwd_ok(table, fwd),
        row_wf(row.a@) && row_wf(row.b@) && row_wf(row.c@),
        match e {
            Exp::L(l) => row.a@.len() == 0 && row.b@.len() == 0 && remap_rel(l@, row.c@, fwd),
            Exp::Q(a, b, c) => remap_rel(a@, row.a@, fwd) && remap_rel(b@, row.b@, fwd)
                && remap_rel(c@, row.c@, fwd),
        },
    ensures
        constraint_wf(row, table.len() as int),
{
    match e {
        Exp::L(l) => {
            lemma_remap_keys_one(l@, row.c@, fwd, table);
        },
        Exp::Q(a, b, c) => {
            lemma_remap_keys_one(a@, row.a@, fwd, table);
            lemma_remap_keys_one(b@, row.b@, fwd, table);
            lemma_remap_keys_one(c@, row.c@, fwd, table);
        },
    }
}

/// One remapped mapping's positions all come from the table.
proof fn lemma_remap_keys_one(
    src: Seq<(usize, Fe)>,
    dst: Seq<(usize, Fe)>,
    fwd: Seq<Option<usize>>,
    table: Seq<usize>,
)
    requires
        table_fwd_ok(table, fwd),
        remap_rel(src, dst, fwd),
    ensures
        keys_below(dst, table.len() as int),
{
    assert forall|i: int| 0 <= i < dst.len() implies (#[trigger] dst[i]).0 < table.len() by {
        assert(fwd[src[i].0 as int] == Some(dst[i].0));
    };
}

/// Compiles a decomposed session into a canonical R1CS: the reachability
/// pass prunes orphaned definitions, the survivors fuse into equalities, and
/// the interning pass fixes the public-first position table.
pub fn compile(auxes: &Vec<Fe>, wires: Vec<Option<Exp>>, exprs: Vec<Exp>, input: Vec<usize>) -> (r:
    R1CS)
    requires
        parts_wf(auxes@, wires@, exprs@, input@),
    ensures
        r@.nwires == auxes@.len(),
        r@.ninputs == input@.len(),
        r@.table.len() == r@.ninputs + r@.nauxs,
        r@.table.subrange(0, input@.len() as int) == input@,
        exists|fwd: Seq<Option<usize>>|
            #[trigger] table_fwd_ok(r@.table, fwd) && fwd.len() == r@.nwires && rows_built(
                r@.constraints,
                pruned(wires@, input@),
                exprs@,
                fwd,
            ),
        forall|p: int|
            input@.len() <= p < r@.table.len() ==> #[trigger] position_used(
                r@.constraints,
                (p as usize),
            ),
        defs_hold(wires@, auxes@) && exprs_zero(exprs@, auxes@) ==> satisfied(
            r@.constraints,
            witness_of(auxes@, r@.table),
        ),
{
    let ghost wv0 = wires@;
    proof {
        let v = crate::ar::ArenaView {
            auxes: auxes@,
            wires: wires@,
            exprs: exprs@,
            input: input@,
            enabled: true,
        };
        assert(crate::ar::arena_struct_wf(v));
        assert forall|i: int| 0 <= i < exprs@.len() implies exp_keys_below(
            #[trigger] exprs@[i],
            auxes@.len() as int,
        ) by {
            assert(v.exprs[i] == exprs@[i]);
            assert(exp_keys_below(v.exprs[i], v.auxes.len() as int));
        };
        assert(crate::ar::wires_keys_strict(wires@));
        assert forall|w: int|
            0 <= w < wires@.len() && wires@[w] is Some implies exp_keys_below(
            (#[trigger] wires@[w])->Some_0,
            auxes@.len() as int,
        ) by {
            crate::ar::lemma_exp_keys_below_mono(wires@[w]->Some_0, w, auxes@.len() as int);
        };
    }
    let kept = optimize(auxes, wires, &input);
    proof {
        assert forall|w: int|
            0 <= w < kept@.len() && kept@[w] is Some implies exp_keys_below(
            (#[trigger] kept@[w])->Some_0,
            auxes@.len() as int,
        ) by {
            assert(kept@[w] == wv0[w]);
            crate::ar::lemma_exp_keys_below_mono(wv0[w]->Some_0, w, auxes@.len() as int);
        };
        assert forall|w: int|
            0 <= w < kept@.len() && kept@[w] is Some implies exp_keys_below(
            (#[trigger] kept@[w])->Some_0,
            w,
        ) by {
            assert(kept@[w] == wv0[w]);
        };
    }
    let ghost kv = kept@;
    let ghost ev = exprs@;
    let (constraints, table) = build_constraints(kept, exprs, &input, auxes.len());
    let ghost tv = table@;
    let ninputs = input.len();
    let nauxs = table.len() - ninputs;
    let r = R1CS { ninputs, nauxs, constraints, table, nwires: auxes.len() };
    proof {
        assert(r@.table[0] == input@[0]) by {
            assert(r@.table.subrange(0, input@.len() as int)[0] == r@.table[0]);
        };
        // a session whose obligations hold satisfies the pruned system too:
        // the surviving definitions are a subset of the recorded ones
        if defs_hold(wv0, auxes@) && exprs_zero(ev, auxes@) {
            assert(defs_hold(kv, auxes@)) by {
                assert forall|w: int|
                    0 <= w < kv.len() && kv[w] is Some implies def_holds(
                    (#[trigger] kv[w])->Some_0,
                    auxes@,
                    w as usize,
                ) by {
                    assert(kv[w] == wv0[w]);
                    assert(wv0[w] is Some);
                };
            };
            assert(satisfied(r@.constraints, witness_of(auxes@, r@.table)));
        }
    }
    r
}

/// The decomposed parts of a live session: what `arena_struct_wf` guaranteed
/// of the arena, said of the four parts, with the constant wire at `1`.
pub open spec fn parts_wf(
    auxes: Seq<Fe>,
    wires: Seq<Option<Exp>>,
    exprs: Seq<Exp>,
    input: Seq<usize>,
) -> bool {
    crate::ar::arena_struct_wf(
        crate::ar::ArenaView { auxes, wires, exprs, input, enabled: true },
    )
}

/// Copies a sparse row entry by entry.
fn copy_row(m: &Vec<(usize, Fe)>) -> (r: Vec<(usize, Fe)>)
    ensures
        r@ == m@,
{
    let mut out: Vec<(usize, Fe)> = Vec::new();
    let mut i: usize = 0;
    while i < m.len()
        invariant
            i <= m@.len(),
            out@ =~= m@.subrange(0, i as int),
        decreases m@.len() - i,
    {
        let (w, c) = m[i];
        out.push((w, c));
        proof {
            assert(out@ =~= m@.subrange(0, i + 1 as int));
        }
        i = i + 1;
    }
    proof {
        assert(out@ =~= m@);
    }
    out
}

} // verus!
