//! The arena that owns one synthesis session's state: the auxiliary store
//! (one field value per wire), the wire definitions, the free equality
//! expressions, and the set of declared public inputs.
//!
//! Wire `0` is reserved and holds the constant `1`; it is always the first
//! public input. A wire definition binds a wire to a linear or quadratic
//! expression over strictly older wires, so the definition graph is acyclic
//! by construction, and — while the arena is enabled — every definition
//! evaluates to the value stored for its wire.

use crate::fe::{fe_one, fe_zero, modulus, Fe};
use crate::sparse::{
    eval, has_key, keys_below, lemma_add_cong_mod, lemma_eval_aux_extend, lemma_mul_cong_mod,
    merge_maps, scale_map, sv_wf, val_at, SparseVec,
};
use vstd::prelude::*;

verus! {

/// An expression over wires: a linear combination, or a product of two
/// linear combinations plus a linear tail, `a * b + c`.
#[derive(Debug)]
pub enum Exp {
    L(SparseVec),
    Q(SparseVec, SparseVec, SparseVec),
}

/// Every wire id an expression names lies below the bound.
pub open spec fn exp_keys_below(e: Exp, n: int) -> bool {
    match e {
        Exp::L(l) => keys_below(l@, n),
        Exp::Q(a, b, c) => keys_below(a@, n) && keys_below(b@, n) && keys_below(c@, n),
    }
}

/// Whether an expression names the wire in any of its parts.
pub open spec fn exp_has_key(e: Exp, k: usize) -> bool {
    match e {
        Exp::L(l) => has_key(l@, k),
        Exp::Q(a, b, c) => has_key(a@, k) || has_key(b@, k) || has_key(c@, k),
    }
}

/// The wire carries a linear definition.
pub open spec fn linear_defined(wires: Seq<Option<Exp>>, k: usize) -> bool {
    wire_at(wires, k as int) is Some && wire_at(wires, k as int)->Some_0 is L
}

/// The mapping names no wire that carries a linear definition: every chain of
/// linear indirection has been collapsed.
pub open spec fn map_inlined(s: Seq<(usize, Fe)>, wires: Seq<Option<Exp>>) -> bool {
    forall|k: usize| #[trigger] has_key(s, k) ==> !linear_defined(wires, k)
}

/// Every mapping of the expression is collapsed.
pub open spec fn exp_inlined(e: Exp, wires: Seq<Option<Exp>>) -> bool {
    match e {
        Exp::L(l) => map_inlined(l@, wires),
        Exp::Q(a, b, c) => map_inlined(a@, wires) && map_inlined(b@, wires) && map_inlined(
            c@,
            wires,
        ),
    }
}

/// No recorded definition or expression names the wire.
pub open spec fn wire_unreferenced(v: ArenaView, w: usize) -> bool {
    &&& forall|u: int|
        0 <= u < v.wires.len() && v.wires[u] is Some ==> !exp_has_key(
            (#[trigger] v.wires[u])->Some_0,
            w,
        )
    &&& forall|i: int| 0 <= i < v.exprs.len() ==> !exp_has_key(#[trigger] v.exprs[i], w)
}

/// A bound below the wire leaves no room to name it.
pub proof fn lemma_keys_below_no_key(e: Exp, w: usize)
    requires
        exp_keys_below(e, w as int),
    ensures
        !exp_has_key(e, w),
{
    match e {
        Exp::L(l) => {
            if has_key(l@, w) {
                let j = choose|j: int| 0 <= j < l@.len() && (#[trigger] l@[j]).0 == w;
            }
        },
        Exp::Q(a, b, c) => {
            if has_key(a@, w) {
                let j = choose|j: int| 0 <= j < a@.len() && (#[trigger] a@[j]).0 == w;
            }
            if has_key(b@, w) {
                let j = choose|j: int| 0 <= j < b@.len() && (#[trigger] b@[j]).0 == w;
            }
            if has_key(c@, w) {
                let j = choose|j: int| 0 <= j < c@.len() && (#[trigger] c@[j]).0 == w;
            }
        },
    }
}

/// A session's recorded maps name only wires older than the store's length,
/// so a wire at or past the store's end is unreferenced.
pub proof fn lemma_tip_unreferenced(pre: ArenaView, post: ArenaView, w: usize)
    requires
        arena_struct_wf(pre),
        post.wires == pre.wires,
        post.exprs == pre.exprs,
        w >= pre.auxes.len(),
    ensures
        wire_unreferenced(post, w),
{
    assert forall|u: int|
        0 <= u < post.wires.len() && post.wires[u] is Some implies !exp_has_key(
        (#[trigger] post.wires[u])->Some_0,
        w,
    ) by {
        let e = pre.wires[u]->Some_0;
        assert(exp_keys_below(e, u));
        lemma_exp_keys_below_mono(e, u, w as int);
        lemma_keys_below_no_key(e, w);
    };
    assert forall|i: int| 0 <= i < post.exprs.len() implies !exp_has_key(
        #[trigger] post.exprs[i],
        w,
    ) by {
        let e = pre.exprs[i];
        assert(exp_keys_below(e, pre.auxes.len() as int));
        lemma_exp_keys_below_mono(e, pre.auxes.len() as int, w as int);
        lemma_keys_below_no_key(e, w);
    };
}

/// What an expression denotes under an assignment, as a plain integer.
pub open spec fn exp_eval(e: Exp, aux: Seq<Fe>) -> int {
    match e {
        Exp::L(l) => eval(l@, aux),
        Exp::Q(a, b, c) => eval(a@, aux) * eval(b@, aux) + eval(c@, aux),
    }
}

/// A definition binds its wire: the expression evaluates to the wire's value.
pub open spec fn def_holds(e: Exp, aux: Seq<Fe>, w: usize) -> bool {
    exp_eval(e, aux) % modulus() == val_at(aux, w)
}

/// The definition recorded for a wire, `None` past the end of the table.
pub open spec fn wire_at(wires: Seq<Option<Exp>>, w: int) -> Option<Exp> {
    if 0 <= w < wires.len() {
        wires[w]
    } else {
        None
    }
}

/// Every recorded definition names only wires strictly older than its own,
/// and wire `0` is never defined.
pub open spec fn wires_keys_strict(wires: Seq<Option<Exp>>) -> bool {
    &&& wire_at(wires, 0) is None
    &&& forall|w: int|
        0 <= w < wires.len() && wires[w] is Some ==> exp_keys_below(
            (#[trigger] wires[w])->Some_0,
            w,
        )
}

/// Every recorded definition evaluates to its wire's value under the
/// assignment.
pub open spec fn defs_hold(wires: Seq<Option<Exp>>, aux: Seq<Fe>) -> bool {
    forall|w: int|
        0 <= w < wires.len() && wires[w] is Some ==> def_holds(
            (#[trigger] wires[w])->Some_0,
            aux,
            w as usize,
        )
}

/// The assignment with the constant wire forced to `1`: what the recorded
/// graph is measured against, whatever the enable toggle currently holds.
pub open spec fn effective(auxes: Seq<Fe>) -> Seq<Fe> {
    auxes.update(0, fe_one())
}

/// The mapping is exactly a constant on the constant wire.
pub open spec fn const_only(s: Seq<(usize, Fe)>) -> bool {
    s.len() == 1 && s[0].0 == 0
}

/// Whether normalisation turns the prospective expression linear: no product
/// was given, or one of its factors is a lone constant that folds away.
pub open spec fn lin_shape(q: Option<(SparseVec, SparseVec)>) -> bool {
    match q {
        None => true,
        Some(ab) => const_only(ab.0@) || const_only(ab.1@),
    }
}

/// A collapsed expression stays collapsed when a wire none of its mappings
/// name gains a definition.
pub proof fn lemma_inlined_preserved(
    old_wires: Seq<Option<Exp>>,
    new_wires: Seq<Option<Exp>>,
    w: usize,
    e: Exp,
)
    requires
        forall|u: int| u != w ==> #[trigger] wire_at(new_wires, u) == wire_at(old_wires, u),
        exp_inlined(e, old_wires),
        !exp_has_key(e, w),
    ensures
        exp_inlined(e, new_wires),
{
    match e {
        Exp::L(l) => {
            assert forall|k: usize| #[trigger] has_key(l@, k) implies !linear_defined(
                new_wires,
                k,
            ) by {
                assert(k != w);
                assert(wire_at(new_wires, k as int) == wire_at(old_wires, k as int));
            };
        },
        Exp::Q(a, b, c) => {
            assert forall|k: usize| #[trigger] has_key(a@, k) implies !linear_defined(
                new_wires,
                k,
            ) by {
                assert(k != w);
                assert(wire_at(new_wires, k as int) == wire_at(old_wires, k as int));
            };
            assert forall|k: usize| #[trigger] has_key(b@, k) implies !linear_defined(
                new_wires,
                k,
            ) by {
                assert(k != w);
                assert(wire_at(new_wires, k as int) == wire_at(old_wires, k as int));
            };
            assert forall|k: usize| #[trigger] has_key(c@, k) implies !linear_defined(
                new_wires,
                k,
            ) by {
                assert(k != w);
                assert(wire_at(new_wires, k as int) == wire_at(old_wires, k as int));
            };
        },
    }
}

/// Every wire id named by a prospective definition or expression lies below
/// the bound.
pub open spec fn wire_keys_ok(q: Option<(SparseVec, SparseVec)>, l: SparseVec, n: int) -> bool {
    &&& match q {
        Some(ab) => keys_below(ab.0@, n) && keys_below(ab.1@, n),
        None => true,
    }
    &&& keys_below(l@, n)
}

/// What a prospective definition or expression denotes: `a * b + l` when a
/// product is given, `l` alone otherwise.
pub open spec fn wire_input_eval(
    q: Option<(SparseVec, SparseVec)>,
    l: SparseVec,
    aux: Seq<Fe>,
) -> int {
    match q {
        Some(ab) => eval(ab.0@, aux) * eval(ab.1@, aux) + eval(l@, aux),
        None => eval(l@, aux),
    }
}

/// One session grew out of another: wires already allocated keep their
/// values, and the toggle is unchanged.
pub open spec fn ar_grown(new: ArenaView, old: ArenaView) -> bool {
    &&& new.auxes.len() >= old.auxes.len()
    &&& new.auxes.subrange(0, old.auxes.len() as int) == old.auxes
    &&& new.enabled == old.enabled
}

/// Growth composes: a session grown twice grew out of the first.
pub proof fn lemma_ar_grown_trans(c: ArenaView, b: ArenaView, a: ArenaView)
    requires
        ar_grown(c, b),
        ar_grown(b, a),
    ensures
        ar_grown(c, a),
{
    assert(c.auxes.subrange(0, a.auxes.len() as int) =~= a.auxes) by {
        assert(forall|i: int|
            0 <= i < a.auxes.len() ==> a.auxes[i] == #[trigger] b.auxes.subrange(
                0,
                a.auxes.len() as int,
            )[i]);
    };
}

/// The ghost image of an arena.
pub ghost struct ArenaView {
    pub auxes: Seq<Fe>,
    pub wires: Seq<Option<Exp>>,
    pub exprs: Seq<Exp>,
    pub input: Seq<usize>,
    pub enabled: bool,
}

/// The structural invariant of a session: canonical values, a reserved
/// constant wire, definitions over strictly older wires, expressions over
/// allocated wires, and a duplicate-free input list that starts with wire `0`.
pub open spec fn arena_struct_wf(v: ArenaView) -> bool {
    &&& v.auxes.len() >= 1
    &&& forall|i: int| 0 <= i < v.auxes.len() ==> (#[trigger] v.auxes[i]).wf()
    &&& v.auxes[0].val() == (if v.enabled {
        1int
    } else {
        0int
    })
    &&& v.wires.len() <= v.auxes.len()
    &&& wires_keys_strict(v.wires)
    &&& forall|w: int|
        0 <= w < v.wires.len() && v.wires[w] is Some ==> exp_inlined(
            (#[trigger] v.wires[w])->Some_0,
            v.wires,
        )
    &&& forall|i: int| 0 <= i < v.exprs.len() ==> exp_keys_below(#[trigger] v.exprs[i], v.auxes.len() as int)
    &&& forall|i: int| 0 <= i < v.exprs.len() ==> exp_inlined(#[trigger] v.exprs[i], v.wires)
    &&& v.input.len() >= 1
    &&& v.input[0] == 0
    &&& forall|i: int| 0 <= i < v.input.len() ==> (#[trigger] v.input[i]) < v.auxes.len()
    &&& forall|i: int, j: int| 0 <= i < j < v.input.len() ==> v.input[i] != v.input[j]
}

/// The semantic invariant of a session: under the effective assignment, every
/// recorded definition evaluates to its wire's value.
pub open spec fn arena_sem_wf(v: ArenaView) -> bool {
    defs_hold(v.wires, effective(v.auxes))
}

/// One synthesis session's state.
#[derive(Debug)]
pub struct Arena {
    auxes: Vec<Fe>,
    wires: Vec<Option<Exp>>,
    exprs: Vec<Exp>,
    input: Vec<usize>,
    enabled: bool,
}

impl View for Arena {
    type V = ArenaView;

    closed spec fn view(&self) -> ArenaView {
        ArenaView {
            auxes: self.auxes@,
            wires: self.wires@,
            exprs: self.exprs@,
            input: self.input@,
            enabled: self.enabled,
        }
    }
}

impl Arena {
    #[verifier::type_invariant]
    pub open spec fn inv(self) -> bool {
        arena_struct_wf(self@) && arena_sem_wf(self@)
    }

    /// A fresh session: the constant wire alone, holding `1`, already a
    /// public input.
    pub fn make() -> (r: Arena)
        ensures
            r@.auxes =~= seq![fe_one()],
            r@.wires =~= Seq::<Option<Exp>>::empty(),
            r@.exprs =~= Seq::<Exp>::empty(),
            r@.input =~= seq![0usize],
            r@.enabled,
    {
        let mut auxes: Vec<Fe> = Vec::new();
        auxes.push(Fe::one());
        let mut input: Vec<usize> = Vec::new();
        input.push(0);
        proof {
            crate::fe::lemma_fe_val_injective(auxes@[0], fe_one());
        }
        Arena { auxes, wires: Vec::new(), exprs: Vec::new(), input, enabled: true }
    }

    /// How many wires have been allocated.
    pub fn num_wires(&self) -> (r: usize)
        ensures
            r == self@.auxes.len(),
    {
        self.auxes.len()
    }

    /// Whether the constant wire is live.
    pub fn is_enabled(&self) -> (r: bool)
        ensures
            r == self@.enabled,
    {
        self.enabled
    }

    /// Zeroes the constant wire, so that constant terms vanish from values
    /// computed while the toggle is off; the recorded graph keeps its meaning
    /// against the effective assignment.
    pub fn disable(self) -> (r: Arena)
        ensures
            r@.auxes =~= self@.auxes.update(0, fe_zero()),
            r@.wires == self@.wires,
            r@.exprs == self@.exprs,
            r@.input == self@.input,
            !r@.enabled,
    {
        proof {
            use_type_invariant(&self);
        }
        let Arena { mut auxes, wires, exprs, input, enabled: _ } = self;
        let ghost old_auxes = auxes@;
        auxes[0] = Fe::zero();
        proof {
            crate::fe::lemma_fe_val_injective(auxes@[0], fe_zero());
            assert(effective(auxes@) =~= effective(old_auxes));
            assert(auxes@.len() == old_auxes.len());
            assert(exprs@ == self@.exprs);
            assert(old_auxes == self@.auxes);
            assert(arena_struct_wf(self@));
            assert(forall|i: int|
                0 <= i < exprs@.len() ==> exp_keys_below(
                    #[trigger] exprs@[i],
                    auxes@.len() as int,
                ));
        }
        Arena { auxes, wires, exprs, input, enabled: false }
    }

    /// Restores the constant wire to `1`.
    pub fn enable(self) -> (r: Arena)
        ensures
            r@.auxes =~= self@.auxes.update(0, fe_one()),
            r@.wires == self@.wires,
            r@.exprs == self@.exprs,
            r@.input == self@.input,
            r@.enabled,
    {
        proof {
            use_type_invariant(&self);
        }
        let Arena { mut auxes, wires, exprs, input, enabled: _ } = self;
        let ghost old_auxes = auxes@;
        auxes[0] = Fe::one();
        proof {
            crate::fe::lemma_fe_val_injective(auxes@[0], fe_one());
            assert(effective(auxes@) =~= effective(old_auxes));
            assert(auxes@.len() == old_auxes.len());
            assert(exprs@ == self@.exprs);
            assert(old_auxes == self@.auxes);
            assert(arena_struct_wf(self@));
            assert(forall|i: int|
                0 <= i < exprs@.len() ==> exp_keys_below(
                    #[trigger] exprs@[i],
                    auxes@.len() as int,
                ));
        }
        Arena { auxes, wires, exprs, input, enabled: true }
    }

    /// Allocates a fresh wire holding the value, and returns its id.
    pub fn allocate(self, v: Fe) -> (r: (Arena, usize))
        requires
            v.wf(),
        ensures
            r.0@.auxes =~= self@.auxes.push(v),
            r.0@.wires == self@.wires,
            r.0@.exprs == self@.exprs,
            r.0@.input == self@.input,
            r.0@.enabled == self@.enabled,
            r.1 == self@.auxes.len(),
    {
        proof {
            use_type_invariant(&self);
        }
        let Arena { mut auxes, wires, exprs, input, enabled } = self;
        let ghost old_auxes = auxes@;
        let idx = auxes.len();
        auxes.push(v);
        proof {
            assert(arena_struct_wf(self@));
            assert(arena_sem_wf(self@));
            assert(exprs@ == self@.exprs);
            assert(old_auxes == self@.auxes);
            assert(effective(old_auxes) =~= effective(auxes@).subrange(
                0,
                old_auxes.len() as int,
            ));
            assert forall|w: int|
                0 <= w < wires@.len() && wires@[w] is Some implies def_holds(
                (#[trigger] wires@[w])->Some_0,
                effective(auxes@),
                w as usize,
            ) by {
                let e = wires@[w]->Some_0;
                assert(def_holds(e, effective(old_auxes), w as usize));
                assert(exp_keys_below(e, w));
                lemma_exp_eval_aux_extend(e, effective(old_auxes), effective(auxes@));
                assert(val_at(effective(auxes@), w as usize) == val_at(
                    effective(old_auxes),
                    w as usize,
                ));
            };
            assert forall|i: int| 0 <= i < exprs@.len() implies exp_keys_below(
                #[trigger] exprs@[i],
                auxes@.len() as int,
            ) by {
                lemma_exp_keys_below_mono(exprs@[i], old_auxes.len() as int, auxes@.len() as int);
            };
        }
        (Arena { auxes, wires, exprs, input, enabled }, idx)
    }

    /// Marks a wire as a public input; doing it twice is the same as doing it
    /// once.
    pub fn input(self, idx: usize) -> (r: Arena)
        requires
            idx < self@.auxes.len(),
        ensures
            r@.auxes == self@.auxes,
            r@.wires == self@.wires,
            r@.exprs == self@.exprs,
            r@.enabled == self@.enabled,
            self@.input.contains(idx) ==> r@.input == self@.input,
            !self@.input.contains(idx) ==> r@.input =~= self@.input.push(idx),
    {
        proof {
            use_type_invariant(&self);
        }
        let Arena { auxes, wires, exprs, mut input, enabled } = self;
        let mut present = false;
        let mut i: usize = 0;
        while i < input.len()
            invariant
                i <= input.len(),
                present == exists|k: int| 0 <= k < i && input@[k] == idx,
            decreases input.len() - i,
        {
            if input[i] == idx {
                present = true;
            }
            i = i + 1;
        }
        if !present {
            input.push(idx);
        }
        proof {
            if present {
                assert(self@.input.contains(idx));
            } else {
                assert(!self@.input.contains(idx)) by {
                    assert(forall|k: int|
                        0 <= k < self@.input.len() ==> (#[trigger] self@.input[k]) != idx);
                };
            }
            assert(arena_struct_wf(self@));
            assert(exprs@ == self@.exprs);
            assert(auxes@ == self@.auxes);
            assert(forall|i: int|
                0 <= i < exprs@.len() ==> exp_keys_below(
                    #[trigger] exprs@[i],
                    auxes@.len() as int,
                ));
        }
        Arena { auxes, wires, exprs, input, enabled }
    }

    /// Substitutes every wire that has a linear definition by that
    /// definition's terms, scaled by the wire's coefficient, and prunes
    /// zeros: copy-propagation of linear wires. Under any assignment in which
    /// the definitions hold, the result denotes what the argument denotes.
    pub fn apply_subset(&self, m: &SparseVec) -> (r: SparseVec)
        ensures
            forall|aux: Seq<Fe>|
                defs_hold(self@.wires, aux) ==> #[trigger] eval(r@, aux) % modulus() == eval(
                    m@,
                    aux,
                ) % modulus(),
            forall|n: int| #[trigger] keys_below(m@, n) ==> keys_below(r@, n),
            map_inlined(r@, self@.wires),
    {
        proof {
            use_type_invariant(self);
            use_type_invariant(m);
            assert(arena_struct_wf(self@));
            assert(forall|w: int|
                0 <= w < self@.wires.len() && self@.wires[w] is Some ==> exp_inlined(
                    (#[trigger] self@.wires[w])->Some_0,
                    self@.wires,
                ));
        }
        let ghost wv = self@.wires;
        let ghost mv = m@;
        let mut acc = SparseVec::new();
        let mut i: usize = m.len();
        proof {
            assert(mv.subrange(i as int, mv.len() as int) =~= Seq::<(usize, Fe)>::empty());
        }
        while i > 0
            invariant
                i <= mv.len(),
                mv == m@,
                wv == self@.wires,
                sv_wf(mv),
                wires_keys_strict(wv),
                forall|aux: Seq<Fe>|
                    defs_hold(wv, aux) ==> #[trigger] eval(acc@, aux) % modulus() == eval(
                        mv.subrange(i as int, mv.len() as int),
                        aux,
                    ) % modulus(),
                forall|n: int| #[trigger] keys_below(mv, n) ==> keys_below(acc@, n),
                map_inlined(acc@, wv),
                forall|w2: int|
                    0 <= w2 < wv.len() && wv[w2] is Some ==> exp_inlined(
                        (#[trigger] wv[w2])->Some_0,
                        wv,
                    ),
            decreases i,
        {
            i = i - 1;
            let ghost acc0 = acc@;
            let (w, c) = m.entry(i);
            proof {
                assert(c.wf() && c.val() != 0) by {
                    assert(mv[i as int].1.wf() && mv[i as int].1.val() != 0);
                };
            }
            let ghost is_def = w < wv.len() && wv[w as int] is Some && wv[w as int]->Some_0 is L;
            let piece: SparseVec = if w < self.wires.len() {
                match &self.wires[w] {
                    Some(Exp::L(l)) => scale_map(l, c),
                    _ => SparseVec::single(w, c),
                }
            } else {
                SparseVec::single(w, c)
            };
            proof {
                // what the piece denotes, wherever the definitions hold
                assert forall|aux: Seq<Fe>| defs_hold(wv, aux) implies #[trigger] eval(piece@, aux)
                    % modulus() == (c.val() * val_at(aux, w)) % modulus() by {
                    if is_def {
                        let l = wv[w as int]->Some_0->L_0;
                        assert(def_holds(wv[w as int]->Some_0, aux, w));
                        assert(val_at(aux, w) == eval(l@, aux) % modulus());
                        assert(eval(piece@, aux) % modulus() == (c.val() * eval(l@, aux))
                            % modulus());
                        vstd::arithmetic::div_mod::lemma_mul_mod_noop_general(
                            c.val(),
                            eval(l@, aux),
                            modulus(),
                        );
                    } else {
                        assert(piece@ =~= seq![(w, c)]);
                        assert(piece@[0] == (w, c));
                        assert(piece@.drop_first() =~= Seq::<(usize, Fe)>::empty());
                        assert(eval(Seq::<(usize, Fe)>::empty(), aux) == 0);
                        assert(eval(piece@, aux) == c.val() * val_at(aux, w));
                    }
                };
            }
            acc = merge_maps(&piece, &acc);
            proof {
                assert forall|aux: Seq<Fe>| defs_hold(wv, aux) implies #[trigger] eval(acc@, aux)
                    % modulus() == eval(mv.subrange(i as int, mv.len() as int), aux)
                    % modulus() by {
                    let tail = mv.subrange(i + 1, mv.len() as int);
                    let whole = mv.subrange(i as int, mv.len() as int);
                    assert(whole.drop_first() =~= tail);
                    assert(whole[0] == mv[i as int]);
                    assert(eval(whole, aux) == c.val() * val_at(aux, w) + eval(tail, aux));
                    lemma_add_cong_mod(
                        eval(piece@, aux),
                        eval(acc0, aux),
                        c.val() * val_at(aux, w),
                        eval(tail, aux),
                        modulus(),
                    );
                };
                assert forall|n: int| #[trigger] keys_below(mv, n) implies keys_below(
                    acc@,
                    n,
                ) by {
                    assert(mv[i as int].0 == w && w < n);
                    assert(keys_below(acc0, n));
                    assert forall|k: int| 0 <= k < acc@.len() implies (#[trigger] acc@[k]).0
                        < n by {
                        let kk = acc@[k].0;
                        assert(has_key(acc@, kk));
                        if has_key(piece@, kk) {
                            let jj = choose|jj: int|
                                0 <= jj < piece@.len() && (#[trigger] piece@[jj]).0 == kk;
                            if is_def {
                                let l = wv[w as int]->Some_0->L_0;
                                assert(exp_keys_below(wv[w as int]->Some_0, w as int));
                                assert(has_key(l@, kk));
                                let uu = choose|uu: int|
                                    0 <= uu < l@.len() && (#[trigger] l@[uu]).0 == kk;
                                assert(kk < w);
                            } else {
                                assert(piece@ =~= seq![(w, c)]);
                                assert(kk == w);
                            }
                        } else {
                            assert(has_key(acc0, kk));
                            let jj = choose|jj: int|
                                0 <= jj < acc0.len() && (#[trigger] acc0[jj]).0 == kk;
                        }
                    };
                };
            }
        }
        proof {
            assert(mv.subrange(0, mv.len() as int) =~= mv);
        }
        acc
    }

    /// Records an expression, normalised as a definition for wire `idx`
    /// (when one is given) or as a free equality `expression = 0` (when none
    /// is). A product whose left or right factor is a lone constant `{0 -> k}`
    /// is folded into a linear expression — the other factor scaled by `k`
    /// plus the tail — and every linear mapping is run through
    /// `apply_subset`. While the arena is disabled, nothing is recorded.
    #[verifier::rlimit(60)]
    pub fn wire(self, q: Option<(SparseVec, SparseVec)>, l: SparseVec, idx: Option<usize>) -> (r:
        Arena)
        requires
            match idx {
                Some(w) => w != 0 && w < self@.auxes.len() && wire_at(self@.wires, w as int)
                    is None && wire_keys_ok(q, l, w as int),
                None => wire_keys_ok(q, l, self@.auxes.len() as int),
            },
            self@.enabled && idx is Some ==> wire_input_eval(q, l, effective(self@.auxes))
                % modulus() == val_at(effective(self@.auxes), idx->Some_0),
            self@.enabled && idx is Some ==> wire_unreferenced(self@, idx->Some_0),
        ensures
            r@.auxes == self@.auxes,
            r@.input == self@.input,
            r@.enabled == self@.enabled,
            !self@.enabled ==> r@.wires == self@.wires && r@.exprs == self@.exprs,
            idx is Some ==> r@.exprs == self@.exprs,
            self@.enabled && idx is Some ==> wire_at(r@.wires, idx->Some_0 as int) is Some
                && (forall|u: int|
                u != idx->Some_0 ==> wire_at(r@.wires, u) == wire_at(self@.wires, u)),
            self@.enabled && idx is Some ==> (forall|aux: Seq<Fe>|
                defs_hold(self@.wires, aux) && val_at(aux, 0) == 1 ==> #[trigger] exp_eval(
                    wire_at(r@.wires, idx->Some_0 as int)->Some_0,
                    aux,
                ) % modulus() == wire_input_eval(q, l, aux) % modulus()),
            self@.enabled && idx is Some ==> (wire_at(r@.wires, idx->Some_0 as int)->Some_0 is L
                <==> lin_shape(q)),
            self@.enabled && idx is None ==> (r@.exprs.last() is L <==> lin_shape(q)),
            idx is None ==> r@.wires == self@.wires,
            self@.enabled && idx is None ==> r@.exprs.len() == self@.exprs.len() + 1
                && r@.exprs.subrange(0, self@.exprs.len() as int) == self@.exprs && (forall|
                aux: Seq<Fe>,
            |
                defs_hold(self@.wires, aux) && val_at(aux, 0) == 1 ==> #[trigger] exp_eval(
                    r@.exprs.last(),
                    aux,
                ) % modulus() == wire_input_eval(q, l, aux) % modulus()),
    {
        proof {
            use_type_invariant(&self);
            assert(arena_struct_wf(self@));
            assert(arena_sem_wf(self@));
        }
        if !self.enabled {
            return self;
        }
        let ghost qv = q;
        let ghost lv = l;
        let ghost wv = self@.wires;
        let ghost bound: int = match idx {
            Some(w) => w as int,
            None => self@.auxes.len() as int,
        };
        let exp: Exp = match q {
            Some((a, b)) => {
                proof {
                    use_type_invariant(&a);
                    use_type_invariant(&b);
                    use_type_invariant(&l);
                }
                let ka = a.constant_part();
                let kb = b.constant_part();
                if let Some(k) = ka {
                    let sb = scale_map(&b, k);
                    let merged = merge_maps(&sb, &l);
                    let sub = self.apply_subset(&merged);
                    proof {
                        assert(map_inlined(sub@, wv));
                    }
                    let e = Exp::L(sub);
                    proof {
                        lemma_wire_fold_keys(sb@, b@, l@, merged@, e->L_0@, bound);
                        assert forall|aux: Seq<Fe>|
                            defs_hold(wv, aux) && val_at(aux, 0) == 1 implies #[trigger] exp_eval(
                            e,
                            aux,
                        ) % modulus() == wire_input_eval(qv, lv, aux) % modulus() by {
                            assert(a@[0] == (0usize, k));
                            crate::sparse::lemma_eval_single(a@, aux);
                            assert(eval(a@, aux) == k.val() * val_at(aux, 0));
                            assert(k.val() * 1 == k.val()) by {
                                vstd::arithmetic::mul::lemma_mul_basics(k.val());
                            };
                            lemma_wire_fold_eval(sb@, b@, l@, merged@, e->L_0@, k, aux);
                            assert(eval(a@, aux) * eval(b@, aux) == k.val() * eval(b@, aux));
                        };
                        assert(e is L && lin_shape(qv));
                        assert(exp_inlined(e, wv));
                    }
                    e
                } else if let Some(k) = kb {
                    let sa = scale_map(&a, k);
                    let merged = merge_maps(&sa, &l);
                    let sub = self.apply_subset(&merged);
                    proof {
                        assert(map_inlined(sub@, wv));
                    }
                    let e = Exp::L(sub);
                    proof {
                        lemma_wire_fold_keys(sa@, a@, l@, merged@, e->L_0@, bound);
                        assert forall|aux: Seq<Fe>|
                            defs_hold(wv, aux) && val_at(aux, 0) == 1 implies #[trigger] exp_eval(
                            e,
                            aux,
                        ) % modulus() == wire_input_eval(qv, lv, aux) % modulus() by {
                            assert(b@[0] == (0usize, k));
                            crate::sparse::lemma_eval_single(b@, aux);
                            assert(eval(b@, aux) == k.val() * val_at(aux, 0));
                            assert(k.val() * 1 == k.val()) by {
                                vstd::arithmetic::mul::lemma_mul_basics(k.val());
                            };
                            lemma_wire_fold_eval(sa@, a@, l@, merged@, e->L_0@, k, aux);
                            assert(eval(a@, aux) * eval(b@, aux) == k.val() * eval(a@, aux)) by {
                                vstd::arithmetic::mul::lemma_mul_is_commutative(
                                    eval(a@, aux),
                                    k.val(),
                                );
                            };
                        };
                        assert(e is L && lin_shape(qv));
                        assert(exp_inlined(e, wv));
                    }
                    e
                } else {
                    let sa = self.apply_subset(&a);
                    let sb = self.apply_subset(&b);
                    let sc = self.apply_subset(&l);
                    proof {
                        assert(map_inlined(sa@, wv) && map_inlined(sb@, wv) && map_inlined(
                            sc@,
                            wv,
                        ));
                    }
                    let e = Exp::Q(sa, sb, sc);
                    proof {
                        assert(exp_keys_below(e, bound));
                        assert(e is Q && !lin_shape(qv));
                        assert(exp_inlined(e, wv));
                        assert forall|aux: Seq<Fe>|
                            defs_hold(wv, aux) && val_at(aux, 0) == 1 implies #[trigger] exp_eval(
                            e,
                            aux,
                        ) % modulus() == wire_input_eval(qv, lv, aux) % modulus() by {
                            lemma_mul_cong_mod(
                                eval(sa@, aux),
                                eval(sb@, aux),
                                eval(a@, aux),
                                eval(b@, aux),
                                modulus(),
                            );
                            lemma_add_cong_mod(
                                eval(sa@, aux) * eval(sb@, aux),
                                eval(sc@, aux),
                                eval(a@, aux) * eval(b@, aux),
                                eval(l@, aux),
                                modulus(),
                            );
                        };
                    }
                    e
                }
            },
            None => {
                proof {
                    use_type_invariant(&l);
                }
                let sub = self.apply_subset(&l);
                proof {
                    assert(map_inlined(sub@, wv));
                }
                let e = Exp::L(sub);
                proof {
                    assert(exp_keys_below(e, bound));
                    assert(e is L && lin_shape(qv));
                    assert(exp_inlined(e, wv));
                }
                e
            },
        };
        proof {
            assert(exp_keys_below(exp, bound));
            assert(forall|aux: Seq<Fe>|
                defs_hold(wv, aux) && val_at(aux, 0) == 1 ==> #[trigger] exp_eval(exp, aux)
                    % modulus() == wire_input_eval(qv, lv, aux) % modulus());
            assert(exp_inlined(exp, wv));
            assert(exp is L <==> lin_shape(qv));
        }
        let ghost eaux = effective(self@.auxes);
        let Arena { auxes, mut wires, mut exprs, input, enabled } = self;
        proof {
            assert(defs_hold(wv, eaux));
            assert(val_at(eaux, 0) == 1) by {
                assert(eaux[0] == fe_one());
            };
        }
        let n_aux = auxes.len();
        match idx {
            Some(w) => {
                let ghost wires0 = wires@;
                while wires.len() < w + 1
                    invariant
                        w < n_aux,
                        n_aux == auxes@.len(),
                        wires0.len() <= wires@.len(),
                        wires@.len() <= wires0.len() || wires@.len() <= w + 1,
                        wires@.subrange(0, wires0.len() as int) == wires0,
                        forall|u: int| wires0.len() <= u < wires@.len() ==> wires@[u] is None,
                    decreases w + 1 - wires@.len(),
                {
                    wires.push(None);
                    proof {
                        assert(wires@.subrange(0, wires0.len() as int) =~= wires0);
                    }
                }
                proof {
                    assert(forall|u: int| #![auto] wire_at(wires@, u) == wire_at(wires0, u));
                }
                let ghost wires1 = wires@;
                wires[w] = Some(exp);
                proof {
                    assert(forall|u: int|
                        u != w ==> #[trigger] wire_at(wires@, u) == wire_at(wires0, u));
                    assert(wire_at(wires@, w as int) == Some(exp));
                    // the new definition binds its wire under the effective
                    // assignment
                    assert(def_holds(exp, eaux, w));
                    assert(wires_keys_strict(wires@)) by {
                        assert(wire_at(wires@, 0) == wire_at(wires0, 0));
                        assert forall|u: int|
                            0 <= u < wires@.len() && wires@[u] is Some implies exp_keys_below(
                            (#[trigger] wires@[u])->Some_0,
                            u,
                        ) by {
                            if u == w {
                                assert(wires@[u] == Some(exp));
                                assert(exp_keys_below(exp, w as int));
                            } else {
                                assert(wires@[u] == wire_at(wires@, u));
                                assert(wire_at(wires@, u) == wire_at(wires0, u));
                                assert(u < wires0.len() && wires0[u] is Some);
                                assert(exp_keys_below(wires0[u]->Some_0, u));
                            }
                        };
                    };
                    assert(defs_hold(wires@, eaux)) by {
                        assert forall|u: int|
                            0 <= u < wires@.len() && wires@[u] is Some implies def_holds(
                            (#[trigger] wires@[u])->Some_0,
                            eaux,
                            u as usize,
                        ) by {
                            if u == w {
                                assert(wires@[u] == Some(exp));
                            } else {
                                assert(wires@[u] == wire_at(wires@, u));
                                assert(wire_at(wires@, u) == wire_at(wires0, u));
                                assert(u < wires0.len() && wires0[u] is Some);
                                assert(def_holds(wires0[u]->Some_0, eaux, u as usize));
                            }
                        };
                    };
                    // no recorded map named the fresh wire, so every collapsed
                    // map stays collapsed under the new definition
                    assert forall|u: int|
                        0 <= u < wires@.len() && wires@[u] is Some implies exp_inlined(
                        (#[trigger] wires@[u])->Some_0,
                        wires@,
                    ) by {
                        if u == w {
                            lemma_inlined_preserved(wires0, wires@, w, exp);
                            assert(!exp_has_key(exp, w)) by {
                                lemma_keys_below_no_key(exp, w);
                            };
                        } else {
                            assert(wire_at(wires@, u) == wire_at(wires0, u));
                            assert(u < wires0.len() && wires0[u] is Some);
                            let e0 = wires0[u]->Some_0;
                            assert(exp_inlined(e0, wires0));
                            assert(!exp_has_key(e0, w));
                            lemma_inlined_preserved(wires0, wires@, w, e0);
                        }
                    };
                    assert forall|i: int| 0 <= i < exprs@.len() implies exp_inlined(
                        #[trigger] exprs@[i],
                        wires@,
                    ) by {
                        assert(exp_inlined(exprs@[i], wires0));
                        assert(!exp_has_key(exprs@[i], w));
                        lemma_inlined_preserved(wires0, wires@, w, exprs@[i]);
                    };
                }
            },
            None => {
                exprs.push(exp);
                proof {
                    assert(exprs@.last() == exp);
                    assert(exprs@.subrange(0, self@.exprs.len() as int) =~= self@.exprs);
                    assert(exp_keys_below(exp, auxes@.len() as int));
                }
            },
        }
        proof {
            assert(auxes@ == self@.auxes);
            assert(forall|i: int|
                0 <= i < exprs@.len() ==> exp_keys_below(
                    #[trigger] exprs@[i],
                    auxes@.len() as int,
                ));
        }
        Arena { auxes, wires, exprs, input, enabled }
    }

    /// Takes the session apart into its four parts, in allocation order:
    /// auxiliary values, wire definitions, free expressions, declared inputs.
    /// What the invariants guaranteed of the live session is stated of the
    /// parts.
    pub fn into_inner(self) -> (r: (Vec<Fe>, Vec<Option<Exp>>, Vec<Exp>, Vec<usize>))
        ensures
            r.0@ == self@.auxes,
            r.1@ == self@.wires,
            r.2@ == self@.exprs,
            r.3@ == self@.input,
            arena_struct_wf(self@),
            arena_sem_wf(self@),
    {
        proof {
            use_type_invariant(&self);
        }
        let Arena { auxes, wires, exprs, input, enabled: _ } = self;
        (auxes, wires, exprs, input)
    }
}

/// Chains the key bounds through scale, merge and substitution: folding a
/// constant factor into the tail names no new wires.
pub proof fn lemma_wire_fold_keys(
    sb: Seq<(usize, Fe)>,
    b: Seq<(usize, Fe)>,
    l: Seq<(usize, Fe)>,
    merged: Seq<(usize, Fe)>,
    sub: Seq<(usize, Fe)>,
    n: int,
)
    requires
        forall|k: usize| #[trigger] has_key(sb, k) ==> has_key(b, k),
        forall|k: usize| #[trigger] has_key(merged, k) ==> has_key(sb, k) || has_key(l, k),
        forall|m: int| #[trigger] keys_below(merged, m) ==> keys_below(sub, m),
        keys_below(b, n),
        keys_below(l, n),
    ensures
        keys_below(sub, n),
{
    crate::sparse::lemma_keys_below_subset1(sb, b, n);
    crate::sparse::lemma_keys_below_subset2(merged, sb, l, n);
}

/// Chains the denotations through scale, merge and substitution: the folded
/// expression denotes `k * b + l`.
pub proof fn lemma_wire_fold_eval(
    sb: Seq<(usize, Fe)>,
    b: Seq<(usize, Fe)>,
    l: Seq<(usize, Fe)>,
    merged: Seq<(usize, Fe)>,
    sub: Seq<(usize, Fe)>,
    k: Fe,
    aux: Seq<Fe>,
)
    requires
        eval(sb, aux) % modulus() == (k.val() * eval(b, aux)) % modulus(),
        eval(merged, aux) % modulus() == (eval(sb, aux) + eval(l, aux)) % modulus(),
        eval(sub, aux) % modulus() == eval(merged, aux) % modulus(),
    ensures
        eval(sub, aux) % modulus() == (k.val() * eval(b, aux) + eval(l, aux)) % modulus(),
{
    lemma_add_cong_mod(
        eval(sb, aux),
        eval(l, aux),
        k.val() * eval(b, aux),
        eval(l, aux),
        modulus(),
    );
}

/// A bound on named wires stays a bound when it is raised.
pub proof fn lemma_keys_below_mono(s: Seq<(usize, Fe)>, n1: int, n2: int)
    requires
        keys_below(s, n1),
        n1 <= n2,
    ensures
        keys_below(s, n2),
{
}

/// A bound on an expression's wires stays a bound when it is raised.
pub proof fn lemma_exp_keys_below_mono(e: Exp, n1: int, n2: int)
    requires
        exp_keys_below(e, n1),
        n1 <= n2,
    ensures
        exp_keys_below(e, n2),
{
    match e {
        Exp::L(l) => lemma_keys_below_mono(l@, n1, n2),
        Exp::Q(a, b, c) => {
            lemma_keys_below_mono(a@, n1, n2);
            lemma_keys_below_mono(b@, n1, n2);
            lemma_keys_below_mono(c@, n1, n2);
        },
    }
}

/// An expression reads only the wires it names: extending the assignment past
/// every named wire changes nothing.
pub proof fn lemma_exp_eval_aux_extend(e: Exp, aux1: Seq<Fe>, aux2: Seq<Fe>)
    requires
        exp_keys_below(e, aux1.len() as int),
        aux1.len() <= aux2.len(),
        forall|k: int| 0 <= k < aux1.len() ==> aux1[k] == aux2[k],
    ensures
        exp_eval(e, aux2) == exp_eval(e, aux1),
{
    match e {
        Exp::L(l) => {
            lemma_eval_aux_extend(l@, aux1, aux2);
        },
        Exp::Q(a, b, c) => {
            lemma_eval_aux_extend(a@, aux1, aux2);
            lemma_eval_aux_extend(b@, aux1, aux2);
            lemma_eval_aux_extend(c@, aux1, aux2);
        },
    }
}

} // verus!
