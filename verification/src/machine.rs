//! The dataization machine as a function on values.
//!
//! A state is a table of objects, which never changes, and an arena of
//! baskets, which only grows. A tick visits every basket that is there when
//! the tick begins, in the order of the arena, and in each basket every slot,
//! in the order of the slots; each visit advances the slot by at most one
//! state.

use crate::atom::{atom_value, Atom};
use crate::basket::{BasketView, Bk, Kid};
use crate::data::Data;
use crate::error::Failure;
use crate::loc::Loc;
use crate::locmap::ordered;
use crate::object::{Ob, ObjectView};
use vstd::prelude::*;

verus! {

/// The most steps that the search for one path may take.
pub const MAX_HOPS: usize = 256;

/// The most ticks that a dataization may take where ticks are counted.
pub const MAX_CYCLES: usize = 65536;

/// What a path leads to.
#[derive(Clone, Copy, Debug, PartialEq, Eq, Structural)]
pub enum Target {
    /// An object, to be activated under the given parent.
    Object(Ob, Bk),
    /// Data, read from an object.
    Data(Data),
}

/// The arena with the state `kid` under the slot `loc` of the basket `bk`.
pub open spec fn put(baskets: Seq<BasketView>, bk: int, loc: Loc, kid: Kid) -> Seq<BasketView> {
    baskets.update(bk, BasketView { kids: baskets[bk].kids.insert(loc, kid), ..baskets[bk] })
}

/// The basket that an activation starts with: the result is asked for, and
/// every slot of the object is there, empty.
pub open spec fn fresh(obj: ObjectView, ob: Ob, psi: Bk) -> BasketView {
    BasketView {
        ob,
        psi,
        kids: Map::new(
            |l: Loc| l == Loc::Phi || obj.attrs.dom().contains(l),
            |l: Loc|
                if l == Loc::Phi {
                    Kid::Rqtd
                } else {
                    Kid::Empt
                },
        ),
    }
}

/// Where the steps `locs` lead, seen from the basket `cur` while `psi` is
/// the parent in force and `ob` the object looked at. `𝜋`, `ρ` and `σ` go to
/// the parent basket; `Φ` goes to the first basket; `ν` looks at an object;
/// `𝜑` and `𝛼` go on along the path that the object keeps under that slot;
/// `Δ`, at the end, reads the object's data. `None` where the steps lead
/// nowhere or are more than `fuel`.
pub open spec fn search(
    objects: Seq<ObjectView>,
    baskets: Seq<BasketView>,
    locs: Seq<Loc>,
    cur: int,
    psi: int,
    ob: int,
    fuel: nat,
) -> Option<Target>
    decreases fuel,
{
    if locs.len() == 0 {
        if 0 <= ob <= usize::MAX && isize::MIN <= psi <= isize::MAX {
            Some(Target::Object(ob as Ob, psi as Bk))
        } else {
            None
        }
    } else if fuel == 0 {
        None
    } else {
        let rest = locs.drop_first();
        match locs[0] {
            Loc::Root => if baskets.len() > 0 {
                search(
                    objects,
                    baskets,
                    rest,
                    0,
                    baskets[0].psi as int,
                    baskets[0].ob as int,
                    (fuel - 1) as nat,
                )
            } else {
                None
            },
            Loc::Pi | Loc::Rho | Loc::Sigma => if 0 <= cur < baskets.len() && 0
                <= baskets[cur].psi < baskets.len() {
                let p = baskets[cur].psi as int;
                search(objects, baskets, rest, p, p, baskets[p].ob as int, (fuel - 1) as nat)
            } else {
                None
            },
            Loc::Obj(n) => search(objects, baskets, rest, cur, psi, n as int, (fuel - 1) as nat),
            Loc::Delta => if rest.len() == 0 && 0 <= ob < objects.len() {
                match objects[ob].delta {
                    Some(d) => Some(Target::Data(d)),
                    None => None,
                }
            } else {
                None
            },
            Loc::Phi | Loc::Attr(_) => if 0 <= ob < objects.len() && objects[ob].attrs.dom().contains(
                locs[0],
            ) {
                search(
                    objects,
                    baskets,
                    objects[ob].attrs[locs[0]].0 + rest,
                    cur,
                    psi,
                    ob,
                    (fuel - 1) as nat,
                )
            } else {
                None
            },
        }
    }
}

/// What an atom reads under a slot: the data where the slot holds data,
/// nothing yet where it does not; a slot that is not there is a failure.
pub open spec fn operand(baskets: Seq<BasketView>, bk: int, loc: Loc) -> Result<
    Option<Data>,
    Failure,
> {
    if !baskets[bk].kids.dom().contains(loc) {
        Err(Failure::EmptySlot(bk as Bk, loc))
    } else {
        match baskets[bk].kids[loc] {
            Kid::Dtzd(d) => Ok(Some(d)),
            _ => Ok(None),
        }
    }
}

/// The arena after an atom has looked at a slot that holds no data yet: an
/// empty slot is now asked for.
pub open spec fn asked(baskets: Seq<BasketView>, bk: int, loc: Loc) -> Seq<BasketView> {
    if baskets[bk].kids[loc] == Kid::Empt {
        put(baskets, bk, loc, Kid::Rqtd)
    } else {
        baskets
    }
}

/// The slot that holds the second operand of an atom, the first being `x`.
pub open spec fn second(atom: Atom, x: Data) -> Loc {
    if atom == Atom::BoolIf && x == 0 {
        Loc::Attr(1)
    } else {
        Loc::Attr(0)
    }
}

/// One turn of an atom in the basket `bk`: it reads `ρ`, then, but for
/// `int-neg`, its second operand, asking for what is not there yet, and
/// settles the result once both are data.
pub open spec fn delegate(baskets: Seq<BasketView>, bk: int, atom: Atom) -> Result<
    Seq<BasketView>,
    Failure,
> {
    match operand(baskets, bk, Loc::Rho) {
        Err(f) => Err(f),
        Ok(None) => Ok(asked(baskets, bk, Loc::Rho)),
        Ok(Some(x)) => if atom == Atom::IntNeg {
            Ok(put(baskets, bk, Loc::Phi, Kid::Dtzd(atom_value(atom, x as int, 0)->Some_0 as Data)))
        } else {
            match operand(baskets, bk, second(atom, x)) {
                Err(f) => Err(f),
                Ok(None) => Ok(asked(baskets, bk, second(atom, x))),
                Ok(Some(y)) => match atom_value(atom, x as int, y as int) {
                    None => Err(Failure::DivisionByZero(bk as Bk)),
                    Some(v) => Ok(put(baskets, bk, Loc::Phi, Kid::Dtzd(v as Data))),
                },
            }
        },
    }
}

/// What becomes of a slot that is asked for. Data of the object settles the
/// result at once; a path of the object is searched, and the object found
/// is needed under the parent found, or under this basket where the path is
/// anchored here; an atom takes its turn; a slot that nothing defines stays
/// as it is.
pub open spec fn find(objects: Seq<ObjectView>, baskets: Seq<BasketView>, bk: int, loc: Loc) -> Result<
    Seq<BasketView>,
    Failure,
> {
    let b = baskets[bk];
    if b.ob >= objects.len() {
        Err(Failure::BadReference(bk as Bk, loc))
    } else {
        let obj = objects[b.ob as int];
        if loc == Loc::Phi && obj.delta is Some {
            Ok(put(baskets, bk, loc, Kid::Dtzd(obj.delta->Some_0)))
        } else if obj.attrs.dom().contains(loc) {
            match search(
                objects,
                baskets,
                obj.attrs[loc].0,
                bk,
                b.psi as int,
                b.ob as int,
                MAX_HOPS as nat,
            ) {
                None => Err(Failure::BadReference(bk as Bk, loc)),
                Some(Target::Data(d)) => Ok(put(baskets, bk, loc, Kid::Dtzd(d))),
                Some(Target::Object(tob, psi)) => Ok(
                    put(
                        baskets,
                        bk,
                        loc,
                        Kid::Need(
                            tob,
                            if obj.attrs[loc].1 {
                                bk as Bk
                            } else {
                                psi
                            },
                        ),
                    ),
                ),
            }
        } else if loc == Loc::Phi && obj.lambda is Some {
            delegate(baskets, bk, obj.lambda->Some_0.1)
        } else {
            Ok(baskets)
        }
    }
}

/// One visit to the slot `loc` of the basket `bk`.
pub open spec fn step(objects: Seq<ObjectView>, baskets: Seq<BasketView>, bk: int, loc: Loc) -> Result<
    Seq<BasketView>,
    Failure,
> {
    match baskets[bk].kids[loc] {
        Kid::Empt => Ok(baskets),
        Kid::Dtzd(_) => Ok(baskets),
        Kid::Rqtd => find(objects, baskets, bk, loc),
        Kid::Need(ob, psi) => if ob >= objects.len() || !(0 <= psi < baskets.len()) {
            Err(Failure::BadReference(bk as Bk, loc))
        } else if baskets.len() >= isize::MAX {
            Err(Failure::ArenaFull)
        } else {
            Ok(
                put(baskets, bk, loc, Kid::Wait(baskets.len() as Bk, Loc::Phi)).push(
                    fresh(objects[ob as int], ob, psi),
                ),
            )
        },
        Kid::Wait(t, l) => if !(0 <= t < baskets.len()) || !baskets[t as int].kids.dom().contains(
            l,
        ) {
            Err(Failure::BadReference(bk as Bk, loc))
        } else {
            match baskets[t as int].kids[l] {
                Kid::Dtzd(d) => Ok(put(baskets, bk, loc, Kid::Dtzd(d))),
                _ => Ok(baskets),
            }
        },
    }
}

/// An arena, and whether any visit so far has changed it.
pub struct Progress {
    pub baskets: Seq<BasketView>,
    pub changed: bool,
}

/// The arena after visits to the first `j` slots of the basket `bk`.
pub open spec fn slots_done(objects: Seq<ObjectView>, start: Progress, bk: int, j: nat) -> Result<
    Progress,
    Failure,
>
    decreases j,
{
    if j == 0 {
        Ok(start)
    } else {
        match slots_done(objects, start, bk, (j - 1) as nat) {
            Err(f) => Err(f),
            Ok(p) => {
                let slots = ordered(p.baskets[bk].kids);
                if j - 1 < slots.len() {
                    match step(objects, p.baskets, bk, slots[j - 1].0) {
                        Err(f) => Err(f),
                        Ok(b) => Ok(
                            Progress { baskets: b, changed: p.changed || b != p.baskets },
                        ),
                    }
                } else {
                    Ok(p)
                }
            },
        }
    }
}

/// The arena after visits to all slots of the first `i` baskets.
pub open spec fn baskets_done(objects: Seq<ObjectView>, start: Progress, i: nat) -> Result<
    Progress,
    Failure,
>
    decreases i,
{
    if i == 0 {
        Ok(start)
    } else {
        match baskets_done(objects, start, (i - 1) as nat) {
            Err(f) => Err(f),
            Ok(p) => slots_done(objects, p, i - 1, ordered(p.baskets[i - 1].kids).len()),
        }
    }
}

/// One tick: a visit to every slot of every basket that is there when the
/// tick begins.
pub open spec fn tick(objects: Seq<ObjectView>, baskets: Seq<BasketView>) -> Result<
    Progress,
    Failure,
> {
    baskets_done(objects, Progress { baskets, changed: false }, baskets.len())
}

/// The data that the first basket holds as its result, if it does.
pub open spec fn root_data(baskets: Seq<BasketView>) -> Option<Data> {
    if baskets.len() > 0 && baskets[0].kids.dom().contains(Loc::Phi) {
        match baskets[0].kids[Loc::Phi] {
            Kid::Dtzd(d) => Some(d),
            _ => None,
        }
    } else {
        None
    }
}

/// How a dataization ends.
pub struct Outcome {
    /// The data, or why there is none.
    pub result: Result<Data, Failure>,
    /// The ticks that came to their end.
    pub cycles: nat,
    /// The arena that is left.
    pub baskets: Seq<BasketView>,
}

/// Ticks, from the arena `baskets` on, until the first basket holds its
/// result, a tick fails, a tick changes nothing while `stuck` is set, or
/// `limit` ticks are done.
pub open spec fn run(
    objects: Seq<ObjectView>,
    baskets: Seq<BasketView>,
    stuck: bool,
    cycles: nat,
    limit: nat,
) -> Outcome
    decreases limit - cycles,
{
    if cycles >= limit {
        Outcome { result: Err(Failure::TooManyCycles), cycles, baskets }
    } else {
        match tick(objects, baskets) {
            Err(f) => Outcome { result: Err(f), cycles, baskets },
            Ok(p) => match root_data(p.baskets) {
                Some(d) => Outcome { result: Ok(d), cycles: cycles + 1, baskets: p.baskets },
                None => if stuck && !p.changed {
                    Outcome { result: Err(Failure::Stuck), cycles: cycles + 1, baskets: p.baskets }
                } else {
                    run(objects, p.baskets, stuck, cycles + 1, limit)
                },
            },
        }
    }
}

/// Once a visit fails, the visits after it change nothing.
pub proof fn lemma_slots_fail(objects: Seq<ObjectView>, start: Progress, bk: int, j: nat, m: nat)
    requires
        j <= m,
        slots_done(objects, start, bk, j) is Err,
    ensures
        slots_done(objects, start, bk, m) == slots_done(objects, start, bk, j),
    decreases m - j,
{
    if j < m {
        lemma_slots_fail(objects, start, bk, j, (m - 1) as nat);
    }
}

/// Once a basket fails, the baskets after it change nothing.
pub proof fn lemma_baskets_fail(objects: Seq<ObjectView>, start: Progress, i: nat, n: nat)
    requires
        i <= n,
        baskets_done(objects, start, i) is Err,
    ensures
        baskets_done(objects, start, n) == baskets_done(objects, start, i),
    decreases n - i,
{
    if i < n {
        lemma_baskets_fail(objects, start, i, (n - 1) as nat);
    }
}

/// The arena after `k` ticks from the beginning, none of which fails.
pub open spec fn after(objects: Seq<ObjectView>, k: nat) -> Seq<BasketView>
    decreases k,
{
    if k == 0 {
        root_arena()
    } else {
        match tick(objects, after(objects, (k - 1) as nat)) {
            Ok(p) => p.baskets,
            Err(_) => after(objects, (k - 1) as nat),
        }
    }
}

/// The arena in which a dataization begins: the first object, activated
/// under itself, with its result asked for.
pub open spec fn root_arena() -> Seq<BasketView> {
    seq![BasketView { ob: 0, psi: 0, kids: Map::empty().insert(Loc::Phi, Kid::Rqtd) }]
}

/// The ticks allowed.
pub open spec fn cycle_limit(counted: bool) -> nat {
    if counted {
        MAX_CYCLES as nat
    } else {
        usize::MAX as nat
    }
}

/// How far a slot has come: empty, asked for, needed, waiting, data.
pub open spec fn rank(k: Kid) -> nat {
    match k {
        Kid::Empt => 0,
        Kid::Rqtd => 1,
        Kid::Need(_, _) => 2,
        Kid::Wait(_, _) => 3,
        Kid::Dtzd(_) => 4,
    }
}

/// The state `b` is the state `a` or one further on.
pub open spec fn advanced(a: Kid, b: Kid) -> bool {
    a == b || rank(a) < rank(b)
}

/// Every basket of the arena `a` is found in `b` at its place, with its
/// object and its parent and with every slot it had, none of them further
/// back than it was.
pub open spec fn stable(a: Seq<BasketView>, b: Seq<BasketView>) -> bool {
    &&& a.len() <= b.len()
    &&& forall|i: int|
        0 <= i < a.len() ==> {
            &&& (#[trigger] b[i]).ob == a[i].ob
            &&& b[i].psi == a[i].psi
            &&& forall|l: Loc| #[trigger]
                a[i].kids.dom().contains(l) ==> b[i].kids.dom().contains(l) && advanced(
                    a[i].kids[l],
                    b[i].kids[l],
                )
        }
}

/// Stability of arenas passes on.
pub proof fn lemma_stable_transitive(a: Seq<BasketView>, b: Seq<BasketView>, c: Seq<BasketView>)
    requires
        stable(a, b),
        stable(b, c),
    ensures
        stable(a, c),
{
    assert forall|i: int| 0 <= i < a.len() implies {
        &&& (#[trigger] c[i]).ob == a[i].ob
        &&& c[i].psi == a[i].psi
        &&& forall|l: Loc| #[trigger]
            a[i].kids.dom().contains(l) ==> c[i].kids.dom().contains(l) && advanced(
                a[i].kids[l],
                c[i].kids[l],
            )
    } by {
        assert(b[i].ob == a[i].ob);
        assert(c[i].ob == b[i].ob);
        assert forall|l: Loc| #[trigger] a[i].kids.dom().contains(l) implies c[i].kids.dom().contains(
            l,
        ) && advanced(a[i].kids[l], c[i].kids[l]) by {
            assert(b[i].kids.dom().contains(l));
        }
    }
}

/// Putting a state that is further on leaves the arena stable.
pub proof fn lemma_put_stable(baskets: Seq<BasketView>, bk: int, loc: Loc, kid: Kid)
    requires
        0 <= bk < baskets.len(),
        baskets[bk].kids.dom().contains(loc) ==> advanced(baskets[bk].kids[loc], kid),
    ensures
        stable(baskets, put(baskets, bk, loc, kid)),
{
    let b = put(baskets, bk, loc, kid);
    assert forall|i: int| 0 <= i < baskets.len() implies {
        &&& (#[trigger] b[i]).ob == baskets[i].ob
        &&& b[i].psi == baskets[i].psi
        &&& forall|l: Loc| #[trigger]
            baskets[i].kids.dom().contains(l) ==> b[i].kids.dom().contains(l) && advanced(
                baskets[i].kids[l],
                b[i].kids[l],
            )
    } by {}
}

/// A turn of an atom leaves the arena stable.
pub proof fn lemma_delegate_stable(baskets: Seq<BasketView>, bk: int, atom: Atom)
    requires
        0 <= bk < baskets.len(),
        baskets[bk].kids.dom().contains(Loc::Phi) ==> rank(baskets[bk].kids[Loc::Phi]) <= 1,
    ensures
        delegate(baskets, bk, atom) is Ok ==> stable(baskets, delegate(baskets, bk, atom)->Ok_0),
{
    assert(stable(baskets, baskets));
    if baskets[bk].kids[Loc::Rho] == Kid::Empt {
        lemma_put_stable(baskets, bk, Loc::Rho, Kid::Rqtd);
    }
    if baskets[bk].kids[Loc::Attr(0)] == Kid::Empt {
        lemma_put_stable(baskets, bk, Loc::Attr(0), Kid::Rqtd);
    }
    if baskets[bk].kids[Loc::Attr(1)] == Kid::Empt {
        lemma_put_stable(baskets, bk, Loc::Attr(1), Kid::Rqtd);
    }
    match operand(baskets, bk, Loc::Rho) {
        Ok(Some(x)) => {
            if atom == Atom::IntNeg {
                lemma_put_stable(
                    baskets,
                    bk,
                    Loc::Phi,
                    Kid::Dtzd(atom_value(atom, x as int, 0)->Some_0 as Data),
                );
            } else {
                match operand(baskets, bk, second(atom, x)) {
                    Ok(Some(y)) => {
                        match atom_value(atom, x as int, y as int) {
                            Some(v) => {
                                lemma_put_stable(baskets, bk, Loc::Phi, Kid::Dtzd(v as Data));
                            },
                            None => {},
                        }
                    },
                    _ => {},
                }
            }
        },
        _ => {},
    }
}

/// A visit to a slot leaves the arena stable: what was there stays in its
/// place, and no slot goes back.
pub proof fn lemma_step_stable(
    objects: Seq<ObjectView>,
    baskets: Seq<BasketView>,
    bk: int,
    loc: Loc,
)
    requires
        0 <= bk < baskets.len(),
    ensures
        step(objects, baskets, bk, loc) is Ok ==> stable(
            baskets,
            step(objects, baskets, bk, loc)->Ok_0,
        ),
{
    match baskets[bk].kids[loc] {
        Kid::Rqtd => {
            let b = baskets[bk];
            if b.ob < objects.len() {
                let obj = objects[b.ob as int];
                if loc == Loc::Phi && obj.delta is Some {
                    lemma_put_stable(baskets, bk, loc, Kid::Dtzd(obj.delta->Some_0));
                } else if obj.attrs.dom().contains(loc) {
                    match search(
                        objects,
                        baskets,
                        obj.attrs[loc].0,
                        bk,
                        b.psi as int,
                        b.ob as int,
                        MAX_HOPS as nat,
                    ) {
                        Some(Target::Data(d)) => {
                            lemma_put_stable(baskets, bk, loc, Kid::Dtzd(d));
                        },
                        Some(Target::Object(tob, psi)) => {
                            lemma_put_stable(
                                baskets,
                                bk,
                                loc,
                                Kid::Need(
                                    tob,
                                    if obj.attrs[loc].1 {
                                        bk as Bk
                                    } else {
                                        psi
                                    },
                                ),
                            );
                        },
                        None => {},
                    }
                } else if loc == Loc::Phi && obj.lambda is Some {
                    lemma_delegate_stable(baskets, bk, obj.lambda->Some_0.1);
                }
            }
        },
        Kid::Need(ob, psi) => {
            let kid = Kid::Wait(baskets.len() as Bk, Loc::Phi);
            lemma_put_stable(baskets, bk, loc, kid);
            let b = put(baskets, bk, loc, kid);
            let c = b.push(fresh(objects[ob as int], ob, psi));
            assert forall|i: int| 0 <= i < b.len() implies c[i] == b[i] by {}
            assert(stable(b, c));
            lemma_stable_transitive(baskets, b, c);
        },
        Kid::Wait(t, l) => {
            if 0 <= t < baskets.len() && baskets[t as int].kids.dom().contains(l) {
                match baskets[t as int].kids[l] {
                    Kid::Dtzd(d) => {
                        lemma_put_stable(baskets, bk, loc, Kid::Dtzd(d));
                    },
                    _ => {},
                }
            }
        },
        _ => {},
    }
}

/// Visits to the slots of a basket leave the arena stable.
pub proof fn lemma_slots_stable(objects: Seq<ObjectView>, start: Progress, bk: int, j: nat)
    requires
        0 <= bk < start.baskets.len(),
    ensures
        slots_done(objects, start, bk, j) is Ok ==> stable(
            start.baskets,
            slots_done(objects, start, bk, j)->Ok_0.baskets,
        ),
    decreases j,
{
    if j > 0 {
        lemma_slots_stable(objects, start, bk, (j - 1) as nat);
        match slots_done(objects, start, bk, (j - 1) as nat) {
            Ok(p) => {
                let slots = ordered(p.baskets[bk].kids);
                if j - 1 < slots.len() {
                    lemma_step_stable(objects, p.baskets, bk, slots[j - 1].0);
                    match step(objects, p.baskets, bk, slots[j - 1].0) {
                        Ok(b) => {
                            lemma_stable_transitive(start.baskets, p.baskets, b);
                        },
                        Err(_) => {},
                    }
                }
            },
            Err(_) => {},
        }
    }
}

/// Visits to the first baskets of an arena leave the arena stable.
pub proof fn lemma_baskets_stable(objects: Seq<ObjectView>, start: Progress, i: nat)
    requires
        i <= start.baskets.len(),
    ensures
        baskets_done(objects, start, i) is Ok ==> stable(
            start.baskets,
            baskets_done(objects, start, i)->Ok_0.baskets,
        ),
    decreases i,
{
    if i > 0 {
        lemma_baskets_stable(objects, start, (i - 1) as nat);
        match baskets_done(objects, start, (i - 1) as nat) {
            Ok(p) => {
                let m = ordered(p.baskets[i - 1].kids).len();
                lemma_slots_stable(objects, p, i - 1, m);
                match slots_done(objects, p, i - 1, m) {
                    Ok(q) => {
                        lemma_stable_transitive(start.baskets, p.baskets, q.baskets);
                    },
                    Err(_) => {},
                }
            },
            Err(_) => {},
        }
    }
}

/// A tick leaves the arena stable.
pub proof fn lemma_tick_stable(objects: Seq<ObjectView>, baskets: Seq<BasketView>)
    ensures
        tick(objects, baskets) is Ok ==> stable(baskets, tick(objects, baskets)->Ok_0.baskets),
{
    lemma_baskets_stable(objects, Progress { baskets, changed: false }, baskets.len());
}

/// Within one dataization, whatever basket the arena holds after `i` ticks
/// it holds after `j >= i` ticks at the same place, with the same object and
/// the same parent, and every slot of it has only moved forward.
pub proof fn lemma_arena_stable(objects: Seq<ObjectView>, i: nat, j: nat)
    requires
        i <= j,
    ensures
        stable(after(objects, i), after(objects, j)),
    decreases j - i,
{
    if i == j {
        let a = after(objects, i);
        assert(stable(a, a));
    } else {
        lemma_arena_stable(objects, i, (j - 1) as nat);
        let b = after(objects, (j - 1) as nat);
        lemma_tick_stable(objects, b);
        assert(stable(b, b));
        lemma_stable_transitive(after(objects, i), b, after(objects, j));
    }
}

/// Every slot of the set `c` waits for a slot of the set: the slots of `c`
/// wait for one another, in a ring or in chains that end in one.
#[verifier::opaque]
pub open spec fn blocked(baskets: Seq<BasketView>, c: Set<(int, Loc)>) -> bool {
    forall|b: int, l: Loc| #[trigger]
        c.contains((b, l)) ==> {
            &&& 0 <= b < baskets.len()
            &&& baskets[b].kids.dom().contains(l)
            &&& baskets[b].kids[l] is Wait
            &&& c.contains((baskets[b].kids[l]->Wait_0 as int, baskets[b].kids[l]->Wait_1))
        }
}

/// The slots of `c` hold in `b` what they hold in `a`.
#[verifier::opaque]
pub open spec fn kept(a: Seq<BasketView>, b: Seq<BasketView>, c: Set<(int, Loc)>) -> bool {
    forall|i: int, l: Loc| #[trigger]
        c.contains((i, l)) ==> 0 <= i < b.len() && b[i].kids.dom().contains(l) && b[i].kids[l]
            == a[i].kids[l]
}

/// Putting a state under a slot outside of `c` keeps the slots of `c`.
proof fn lemma_put_kept(baskets: Seq<BasketView>, bk: int, loc: Loc, kid: Kid, c: Set<(int, Loc)>)
    requires
        0 <= bk < baskets.len(),
        blocked(baskets, c),
        !c.contains((bk, loc)),
    ensures
        kept(baskets, put(baskets, bk, loc, kid), c),
{
    reveal(blocked);
    reveal(kept);
    let b = put(baskets, bk, loc, kid);
    assert forall|i: int, l: Loc| #[trigger] c.contains((i, l)) implies 0 <= i < b.len()
        && b[i].kids.dom().contains(l) && b[i].kids[l] == baskets[i].kids[l] by {
        assert(0 <= i < baskets.len());
    }
}

/// A visit to any slot keeps the slots that wait for one another.
pub proof fn lemma_step_kept(
    objects: Seq<ObjectView>,
    baskets: Seq<BasketView>,
    bk: int,
    loc: Loc,
    c: Set<(int, Loc)>,
)
    requires
        0 <= bk < baskets.len(),
        blocked(baskets, c),
    ensures
        step(objects, baskets, bk, loc) is Ok ==> kept(
            baskets,
            step(objects, baskets, bk, loc)->Ok_0,
            c,
        ),
{
    reveal(blocked);
    reveal(kept);
    assert(kept(baskets, baskets, c)) by {
        assert forall|i: int, l: Loc| #[trigger] c.contains((i, l)) implies 0 <= i < baskets.len()
            && baskets[i].kids.dom().contains(l) by {}
    }
    if c.contains((bk, loc)) {
        reveal(blocked);
        let t = baskets[bk].kids[loc]->Wait_0 as int;
        let l = baskets[bk].kids[loc]->Wait_1;
        assert(c.contains((t, l)));
    } else {
        match baskets[bk].kids[loc] {
            Kid::Rqtd => {
                let b = baskets[bk];
                if b.ob < objects.len() {
                    let obj = objects[b.ob as int];
                    if loc == Loc::Phi && obj.delta is Some {
                        lemma_put_kept(baskets, bk, loc, Kid::Dtzd(obj.delta->Some_0), c);
                    } else if obj.attrs.dom().contains(loc) {
                        match search(
                            objects,
                            baskets,
                            obj.attrs[loc].0,
                            bk,
                            b.psi as int,
                            b.ob as int,
                            MAX_HOPS as nat,
                        ) {
                            Some(Target::Data(d)) => {
                                lemma_put_kept(baskets, bk, loc, Kid::Dtzd(d), c);
                            },
                            Some(Target::Object(tob, psi)) => {
                                lemma_put_kept(
                                    baskets,
                                    bk,
                                    loc,
                                    Kid::Need(
                                        tob,
                                        if obj.attrs[loc].1 {
                                            bk as Bk
                                        } else {
                                            psi
                                        },
                                    ),
                                    c,
                                );
                            },
                            None => {},
                        }
                    } else if loc == Loc::Phi && obj.lambda is Some {
                        let atom = obj.lambda->Some_0.1;
                        if baskets[bk].kids[Loc::Rho] == Kid::Empt {
                            lemma_put_kept(baskets, bk, Loc::Rho, Kid::Rqtd, c);
                        }
                        if baskets[bk].kids[Loc::Attr(0)] == Kid::Empt {
                            lemma_put_kept(baskets, bk, Loc::Attr(0), Kid::Rqtd, c);
                        }
                        if baskets[bk].kids[Loc::Attr(1)] == Kid::Empt {
                            lemma_put_kept(baskets, bk, Loc::Attr(1), Kid::Rqtd, c);
                        }
                        match delegate(baskets, bk, atom) {
                            Ok(after) => {
                                match operand(baskets, bk, Loc::Rho) {
                                    Ok(Some(x)) => {
                                        if atom == Atom::IntNeg {
                                            lemma_put_kept(
                                                baskets,
                                                bk,
                                                Loc::Phi,
                                                Kid::Dtzd(
                                                    atom_value(atom, x as int, 0)->Some_0 as Data,
                                                ),
                                                c,
                                            );
                                        } else {
                                            match operand(baskets, bk, second(atom, x)) {
                                                Ok(Some(y)) => {
                                                    lemma_put_kept(
                                                        baskets,
                                                        bk,
                                                        Loc::Phi,
                                                        Kid::Dtzd(
                                                            atom_value(
                                                                atom,
                                                                x as int,
                                                                y as int,
                                                            )->Some_0 as Data,
                                                        ),
                                                        c,
                                                    );
                                                },
                                                _ => {},
                                            }
                                        }
                                    },
                                    _ => {},
                                }
                            },
                            Err(_) => {},
                        }
                    }
                }
            },
            Kid::Need(ob, psi) => {
                let kid = Kid::Wait(baskets.len() as Bk, Loc::Phi);
                lemma_put_kept(baskets, bk, loc, kid, c);
            },
            Kid::Wait(t, l) => {
                if 0 <= t < baskets.len() && baskets[t as int].kids.dom().contains(l) {
                    match baskets[t as int].kids[l] {
                        Kid::Dtzd(d) => {
                            lemma_put_kept(baskets, bk, loc, Kid::Dtzd(d), c);
                        },
                        _ => {},
                    }
                }
            },
            _ => {},
        }
    }
}

/// Slots that are kept as they wait for one another go on waiting.
proof fn lemma_kept_blocked(a: Seq<BasketView>, b: Seq<BasketView>, c: Set<(int, Loc)>)
    requires
        blocked(a, c),
        kept(a, b, c),
    ensures
        blocked(b, c),
{
    reveal(blocked);
    reveal(kept);
    assert forall|i: int, l: Loc| #[trigger] c.contains((i, l)) implies {
        &&& 0 <= i < b.len()
        &&& b[i].kids.dom().contains(l)
        &&& b[i].kids[l] is Wait
        &&& c.contains((b[i].kids[l]->Wait_0 as int, b[i].kids[l]->Wait_1))
    } by {}
}

/// A visit to any slot leaves waiting the slots that wait for one another,
/// and the arena no shorter.
pub proof fn lemma_step_blocked(
    objects: Seq<ObjectView>,
    baskets: Seq<BasketView>,
    bk: int,
    loc: Loc,
    c: Set<(int, Loc)>,
)
    requires
        0 <= bk < baskets.len(),
        blocked(baskets, c),
    ensures
        step(objects, baskets, bk, loc) is Ok ==> blocked(
            step(objects, baskets, bk, loc)->Ok_0,
            c,
        ) && baskets.len() <= step(objects, baskets, bk, loc)->Ok_0.len(),
{
    lemma_step_kept(objects, baskets, bk, loc, c);
    lemma_step_stable(objects, baskets, bk, loc);
    if step(objects, baskets, bk, loc) is Ok {
        lemma_kept_blocked(baskets, step(objects, baskets, bk, loc)->Ok_0, c);
    }
}

/// The first basket, where its result waits, holds no data.
pub proof fn lemma_blocked_root(baskets: Seq<BasketView>, c: Set<(int, Loc)>)
    requires
        blocked(baskets, c),
        c.contains((0int, Loc::Phi)),
    ensures
        root_data(baskets) is None,
{
    reveal(blocked);
}

/// Visits to the slots of a basket keep the slots that wait for one another.
pub proof fn lemma_slots_blocked(
    objects: Seq<ObjectView>,
    start: Progress,
    bk: int,
    j: nat,
    c: Set<(int, Loc)>,
)
    requires
        0 <= bk < start.baskets.len(),
        blocked(start.baskets, c),
    ensures
        slots_done(objects, start, bk, j) is Ok ==> blocked(
            slots_done(objects, start, bk, j)->Ok_0.baskets,
            c,
        ) && start.baskets.len() <= slots_done(objects, start, bk, j)->Ok_0.baskets.len(),
    decreases j,
{
    if j > 0 {
        lemma_slots_blocked(objects, start, bk, (j - 1) as nat, c);
        match slots_done(objects, start, bk, (j - 1) as nat) {
            Ok(p) => {
                let slots = ordered(p.baskets[bk].kids);
                if j - 1 < slots.len() {
                    lemma_step_blocked(objects, p.baskets, bk, slots[j - 1].0, c);
                }
            },
            Err(_) => {},
        }
    }
}

/// Visits to the first baskets of an arena keep the slots that wait for one
/// another.
pub proof fn lemma_baskets_blocked(
    objects: Seq<ObjectView>,
    start: Progress,
    i: nat,
    c: Set<(int, Loc)>,
)
    requires
        i <= start.baskets.len(),
        blocked(start.baskets, c),
    ensures
        baskets_done(objects, start, i) is Ok ==> blocked(
            baskets_done(objects, start, i)->Ok_0.baskets,
            c,
        ) && start.baskets.len() <= baskets_done(objects, start, i)->Ok_0.baskets.len(),
    decreases i,
{
    if i > 0 {
        lemma_baskets_blocked(objects, start, (i - 1) as nat, c);
        match baskets_done(objects, start, (i - 1) as nat) {
            Ok(p) => {
                lemma_slots_blocked(objects, p, i - 1, ordered(p.baskets[i - 1].kids).len(), c);
            },
            Err(_) => {},
        }
    }
}

/// Where the result of the first basket is one of a set of slots that wait
/// for one another, no number of ticks brings the dataization to data: it
/// ends, and it ends in failure.
pub proof fn lemma_wait_cycle_fails(
    objects: Seq<ObjectView>,
    baskets: Seq<BasketView>,
    stuck: bool,
    cycles: nat,
    limit: nat,
    c: Set<(int, Loc)>,
)
    requires
        blocked(baskets, c),
        c.contains((0int, Loc::Phi)),
    ensures
        run(objects, baskets, stuck, cycles, limit).result is Err,
    decreases limit - cycles,
{
    if cycles < limit {
        lemma_baskets_blocked(objects, Progress { baskets, changed: false }, baskets.len(), c);
        match tick(objects, baskets) {
            Ok(p) => {
                lemma_blocked_root(p.baskets, c);
                if !(stuck && !p.changed) {
                    lemma_wait_cycle_fails(objects, p.baskets, stuck, cycles + 1, limit, c);
                }
            },
            Err(_) => {},
        }
    }
}

/// A tick that changes nothing is reported where that is asked for: the
/// dataization ends at that tick, stuck.
pub proof fn lemma_idle_tick_is_stuck(
    objects: Seq<ObjectView>,
    baskets: Seq<BasketView>,
    cycles: nat,
    limit: nat,
)
    requires
        cycles < limit,
        tick(objects, baskets) is Ok,
        !tick(objects, baskets)->Ok_0.changed,
        root_data(tick(objects, baskets)->Ok_0.baskets) is None,
    ensures
        run(objects, baskets, true, cycles, limit).result == Err::<Data, Failure>(Failure::Stuck),
        run(objects, baskets, true, cycles, limit).cycles == cycles + 1,
{
}

/// A failure that a visit to a slot may end in.
pub open spec fn of_a_visit(f: Failure) -> bool {
    f != Failure::Stuck && f != Failure::TooManyCycles
}

/// Visits to the slots of a basket fail, if they do, as a visit fails.
pub proof fn lemma_slots_failure(objects: Seq<ObjectView>, start: Progress, bk: int, j: nat)
    ensures
        slots_done(objects, start, bk, j) is Err ==> of_a_visit(
            slots_done(objects, start, bk, j)->Err_0,
        ),
    decreases j,
{
    if j > 0 {
        lemma_slots_failure(objects, start, bk, (j - 1) as nat);
    }
}

/// Visits to the baskets of an arena fail, if they do, as a visit fails.
pub proof fn lemma_baskets_failure(objects: Seq<ObjectView>, start: Progress, i: nat)
    ensures
        baskets_done(objects, start, i) is Err ==> of_a_visit(
            baskets_done(objects, start, i)->Err_0,
        ),
    decreases i,
{
    if i > 0 {
        lemma_baskets_failure(objects, start, (i - 1) as nat);
        match baskets_done(objects, start, (i - 1) as nat) {
            Ok(p) => {
                lemma_slots_failure(objects, p, i - 1, ordered(p.baskets[i - 1].kids).len());
            },
            Err(_) => {},
        }
    }
}

/// A dataization ends stuck only where that is asked for, and only with the
/// ticks to spare; it ends for want of ticks only when none is left.
pub proof fn lemma_stuck_only_when_asked(
    objects: Seq<ObjectView>,
    baskets: Seq<BasketView>,
    stuck: bool,
    cycles: nat,
    limit: nat,
)
    requires
        cycles <= limit,
    ensures
        run(objects, baskets, stuck, cycles, limit).result == Err::<Data, Failure>(Failure::Stuck)
            ==> stuck,
        run(objects, baskets, stuck, cycles, limit).result == Err::<Data, Failure>(
            Failure::TooManyCycles,
        ) ==> run(objects, baskets, stuck, cycles, limit).cycles == limit,
        cycles <= run(objects, baskets, stuck, cycles, limit).cycles <= limit,
    decreases limit - cycles,
{
    if cycles < limit {
        lemma_baskets_failure(objects, Progress { baskets, changed: false }, baskets.len());
        match tick(objects, baskets) {
            Ok(p) => {
                if root_data(p.baskets) is None && !(stuck && !p.changed) {
                    lemma_stuck_only_when_asked(objects, p.baskets, stuck, cycles + 1, limit);
                }
            },
            Err(f) => {},
        }
    }
}

/// Every basket activates an object of the table under a basket of the
/// arena, and every slot that waits waits for a slot that is there.
pub open spec fn sane(objects: Seq<ObjectView>, baskets: Seq<BasketView>) -> bool {
    forall|i: int|
        0 <= i < baskets.len() ==> {
            &&& (#[trigger] baskets[i]).ob < objects.len()
            &&& 0 <= baskets[i].psi < baskets.len()
            &&& forall|l: Loc| #[trigger]
                baskets[i].kids.dom().contains(l) && baskets[i].kids[l] is Wait ==> {
                    let t = baskets[i].kids[l]->Wait_0;
                    &&& 0 <= t < baskets.len()
                    &&& baskets[t as int].kids.dom().contains(baskets[i].kids[l]->Wait_1)
                }
        }
}

/// A state that does not wait, put under any slot, leaves the arena sane.
proof fn lemma_put_sane(
    objects: Seq<ObjectView>,
    baskets: Seq<BasketView>,
    bk: int,
    loc: Loc,
    kid: Kid,
)
    requires
        0 <= bk < baskets.len(),
        sane(objects, baskets),
        !(kid is Wait),
    ensures
        sane(objects, put(baskets, bk, loc, kid)),
{
    let b = put(baskets, bk, loc, kid);
    assert forall|i: int| 0 <= i < b.len() implies {
        &&& (#[trigger] b[i]).ob < objects.len()
        &&& 0 <= b[i].psi < b.len()
        &&& forall|l: Loc| #[trigger]
            b[i].kids.dom().contains(l) && b[i].kids[l] is Wait ==> {
                let t = b[i].kids[l]->Wait_0;
                &&& 0 <= t < b.len()
                &&& b[t as int].kids.dom().contains(b[i].kids[l]->Wait_1)
            }
    } by {
        assert(baskets[i].ob < objects.len());
        assert forall|l: Loc| #[trigger]
            b[i].kids.dom().contains(l) && b[i].kids[l] is Wait implies {
            let t = b[i].kids[l]->Wait_0;
            &&& 0 <= t < b.len()
            &&& b[t as int].kids.dom().contains(b[i].kids[l]->Wait_1)
        } by {
            assert(baskets[i].kids.dom().contains(l));
            let t = baskets[i].kids[l]->Wait_0;
            assert(baskets[t as int].kids.dom().contains(baskets[i].kids[l]->Wait_1));
        }
    }
}

/// A visit to a slot leaves a sane arena sane.
pub proof fn lemma_step_sane(
    objects: Seq<ObjectView>,
    baskets: Seq<BasketView>,
    bk: int,
    loc: Loc,
)
    requires
        0 <= bk < baskets.len(),
        sane(objects, baskets),
    ensures
        step(objects, baskets, bk, loc) is Ok ==> sane(
            objects,
            step(objects, baskets, bk, loc)->Ok_0,
        ),
{
    match baskets[bk].kids[loc] {
        Kid::Rqtd => {
            let b = baskets[bk];
            if b.ob < objects.len() {
                let obj = objects[b.ob as int];
                if loc == Loc::Phi && obj.delta is Some {
                    lemma_put_sane(objects, baskets, bk, loc, Kid::Dtzd(obj.delta->Some_0));
                } else if obj.attrs.dom().contains(loc) {
                    match search(
                        objects,
                        baskets,
                        obj.attrs[loc].0,
                        bk,
                        b.psi as int,
                        b.ob as int,
                        MAX_HOPS as nat,
                    ) {
                        Some(Target::Data(d)) => {
                            lemma_put_sane(objects, baskets, bk, loc, Kid::Dtzd(d));
                        },
                        Some(Target::Object(tob, psi)) => {
                            lemma_put_sane(
                                objects,
                                baskets,
                                bk,
                                loc,
                                Kid::Need(
                                    tob,
                                    if obj.attrs[loc].1 {
                                        bk as Bk
                                    } else {
                                        psi
                                    },
                                ),
                            );
                        },
                        None => {},
                    }
                } else if loc == Loc::Phi && obj.lambda is Some {
                    let atom = obj.lambda->Some_0.1;
                    lemma_put_sane(objects, baskets, bk, Loc::Rho, Kid::Rqtd);
                    lemma_put_sane(objects, baskets, bk, Loc::Attr(0), Kid::Rqtd);
                    lemma_put_sane(objects, baskets, bk, Loc::Attr(1), Kid::Rqtd);
                    match operand(baskets, bk, Loc::Rho) {
                        Ok(Some(x)) => {
                            if atom == Atom::IntNeg {
                                lemma_put_sane(
                                    objects,
                                    baskets,
                                    bk,
                                    Loc::Phi,
                                    Kid::Dtzd(atom_value(atom, x as int, 0)->Some_0 as Data),
                                );
                            } else {
                                match operand(baskets, bk, second(atom, x)) {
                                    Ok(Some(y)) => {
                                        lemma_put_sane(
                                            objects,
                                            baskets,
                                            bk,
                                            Loc::Phi,
                                            Kid::Dtzd(
                                                atom_value(atom, x as int, y as int)->Some_0 as Data,
                                            ),
                                        );
                                    },
                                    _ => {},
                                }
                            }
                        },
                        _ => {},
                    }
                }
            }
        },
        Kid::Need(ob, psi) => {
            if ob < objects.len() && 0 <= psi < baskets.len() && baskets.len() < isize::MAX {
                let kid = Kid::Wait(baskets.len() as Bk, Loc::Phi);
                let b = put(baskets, bk, loc, kid);
                let f = fresh(objects[ob as int], ob, psi);
                let c = b.push(f);
                assert forall|i: int| 0 <= i < c.len() implies {
                    &&& (#[trigger] c[i]).ob < objects.len()
                    &&& 0 <= c[i].psi < c.len()
                    &&& forall|l: Loc| #[trigger]
                        c[i].kids.dom().contains(l) && c[i].kids[l] is Wait ==> {
                            let t = c[i].kids[l]->Wait_0;
                            &&& 0 <= t < c.len()
                            &&& c[t as int].kids.dom().contains(c[i].kids[l]->Wait_1)
                        }
                } by {
                    if i < baskets.len() {
                        assert(baskets[i].ob < objects.len());
                        assert forall|l: Loc| #[trigger]
                            c[i].kids.dom().contains(l) && c[i].kids[l] is Wait implies {
                            let t = c[i].kids[l]->Wait_0;
                            &&& 0 <= t < c.len()
                            &&& c[t as int].kids.dom().contains(c[i].kids[l]->Wait_1)
                        } by {
                            if i == bk && l == loc {
                                assert(c[baskets.len() as int] == f);
                            } else {
                                assert(baskets[i].kids.dom().contains(l));
                                let t = baskets[i].kids[l]->Wait_0;
                                assert(baskets[t as int].kids.dom().contains(
                                    baskets[i].kids[l]->Wait_1,
                                ));
                            }
                        }
                    }
                }
            }
        },
        Kid::Wait(t, l) => {
            if 0 <= t < baskets.len() && baskets[t as int].kids.dom().contains(l) {
                match baskets[t as int].kids[l] {
                    Kid::Dtzd(d) => {
                        lemma_put_sane(objects, baskets, bk, loc, Kid::Dtzd(d));
                    },
                    _ => {},
                }
            }
        },
        _ => {},
    }
}

/// Visits to the slots of a basket leave a sane arena sane.
pub proof fn lemma_slots_sane(objects: Seq<ObjectView>, start: Progress, bk: int, j: nat)
    requires
        0 <= bk < start.baskets.len(),
        sane(objects, start.baskets),
    ensures
        slots_done(objects, start, bk, j) is Ok ==> sane(
            objects,
            slots_done(objects, start, bk, j)->Ok_0.baskets,
        ) && start.baskets.len() <= slots_done(objects, start, bk, j)->Ok_0.baskets.len(),
    decreases j,
{
    if j > 0 {
        lemma_slots_sane(objects, start, bk, (j - 1) as nat);
        match slots_done(objects, start, bk, (j - 1) as nat) {
            Ok(p) => {
                let slots = ordered(p.baskets[bk].kids);
                if j - 1 < slots.len() {
                    lemma_step_sane(objects, p.baskets, bk, slots[j - 1].0);
                    lemma_step_stable(objects, p.baskets, bk, slots[j - 1].0);
                }
            },
            Err(_) => {},
        }
    }
}

/// Visits to the first baskets of an arena leave a sane arena sane.
pub proof fn lemma_baskets_sane(objects: Seq<ObjectView>, start: Progress, i: nat)
    requires
        i <= start.baskets.len(),
        sane(objects, start.baskets),
    ensures
        baskets_done(objects, start, i) is Ok ==> sane(
            objects,
            baskets_done(objects, start, i)->Ok_0.baskets,
        ) && start.baskets.len() <= baskets_done(objects, start, i)->Ok_0.baskets.len(),
    decreases i,
{
    if i > 0 {
        lemma_baskets_sane(objects, start, (i - 1) as nat);
        match baskets_done(objects, start, (i - 1) as nat) {
            Ok(p) => {
                lemma_slots_sane(objects, p, i - 1, ordered(p.baskets[i - 1].kids).len());
            },
            Err(_) => {},
        }
    }
}

/// Within one dataization of a table that is not empty, the arena is sane
/// after any number of ticks: every basket has its object and its parent,
/// and every slot that waits has what it waits for.
pub proof fn lemma_arena_sane(objects: Seq<ObjectView>, k: nat)
    requires
        objects.len() > 0,
    ensures
        sane(objects, after(objects, k)),
    decreases k,
{
    if k == 0 {
        let root = root_arena();
        assert forall|i: int| 0 <= i < root.len() implies {
            &&& (#[trigger] root[i]).ob < objects.len()
            &&& 0 <= root[i].psi < root.len()
            &&& forall|l: Loc| #[trigger]
                root[i].kids.dom().contains(l) && root[i].kids[l] is Wait ==> {
                    let t = root[i].kids[l]->Wait_0;
                    &&& 0 <= t < root.len()
                    &&& root[t as int].kids.dom().contains(root[i].kids[l]->Wait_1)
                }
        } by {}
    } else {
        lemma_arena_sane(objects, (k - 1) as nat);
        let b = after(objects, (k - 1) as nat);
        lemma_baskets_sane(objects, Progress { baskets: b, changed: false }, b.len());
    }
}

} // verus!
