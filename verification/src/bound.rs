//! How many ticks a dataization can take.
//!
//! Every tick that changes the arena moves at least one slot forward, and a
//! slot moves forward four times at most. So the ticks of a dataization
//! that stops when stuck are bounded by the slots of the arena it leaves.

use crate::atom::{atom_value, Atom};
use crate::basket::{BasketView, Bk, Kid};
use crate::data::Data;
use crate::loc::Loc;
use crate::locmap::{
    as_map, ascending, lemma_listable, lemma_listable_insert, lemma_listable_update,
    lemma_ordered_values, listable, ordered, place_of,
};
use crate::machine::{
    baskets_done, delegate, fresh, operand, put, rank, root_arena, run, search, second, slots_done,
    step, tick, MAX_HOPS, Progress, Target,
};
use crate::object::{Ob, ObjectView};
use vstd::prelude::*;

verus! {

/// The states that the slots have passed through, all in all.
pub open spec fn slots_weight(slots: Seq<(Loc, Kid)>) -> nat
    decreases slots.len(),
{
    if slots.len() == 0 {
        0
    } else {
        slots_weight(slots.drop_last()) + rank(slots.last().1)
    }
}

/// The states that the slots of a basket have passed through.
pub open spec fn basket_weight(b: BasketView) -> nat {
    slots_weight(ordered(b.kids))
}

/// The states that the slots of an arena have passed through.
pub open spec fn arena_weight(baskets: Seq<BasketView>) -> nat
    decreases baskets.len(),
{
    if baskets.len() == 0 {
        0
    } else {
        arena_weight(baskets.drop_last()) + basket_weight(baskets.last())
    }
}

/// The number of slots of an arena.
pub open spec fn arena_slots(baskets: Seq<BasketView>) -> nat
    decreases baskets.len(),
{
    if baskets.len() == 0 {
        0
    } else {
        arena_slots(baskets.drop_last()) + ordered(baskets.last().kids).len()
    }
}

/// Every basket is the view of a `Basket`.
pub open spec fn listed(baskets: Seq<BasketView>) -> bool {
    forall|i: int| 0 <= i < baskets.len() ==> listable((#[trigger] baskets[i]).kids)
}

/// Every object is the view of an `Object`.
pub open spec fn tabled(objects: Seq<ObjectView>) -> bool {
    forall|i: int| 0 <= i < objects.len() ==> listable((#[trigger] objects[i]).attrs)
}

/// No slot has passed through more than four states.
pub proof fn lemma_slots_weight_bound(slots: Seq<(Loc, Kid)>)
    ensures
        slots_weight(slots) <= 4 * slots.len(),
    decreases slots.len(),
{
    if slots.len() > 0 {
        lemma_slots_weight_bound(slots.drop_last());
    }
}

/// No arena weighs more than four times its slots.
pub proof fn lemma_arena_weight_bound(baskets: Seq<BasketView>)
    ensures
        arena_weight(baskets) <= 4 * arena_slots(baskets),
    decreases baskets.len(),
{
    if baskets.len() > 0 {
        lemma_arena_weight_bound(baskets.drop_last());
        lemma_slots_weight_bound(ordered(baskets.last().kids));
    }
}

proof fn lemma_slots_weight_update(s: Seq<(Loc, Kid)>, i: int, e: (Loc, Kid))
    requires
        0 <= i < s.len(),
    ensures
        slots_weight(s.update(i, e)) + rank(s[i].1) == slots_weight(s) + rank(e.1),
    decreases s.len(),
{
    let t = s.update(i, e);
    if i == s.len() - 1 {
        assert(t.drop_last() =~= s.drop_last());
    } else {
        assert(t.drop_last() =~= s.drop_last().update(i, e));
        lemma_slots_weight_update(s.drop_last(), i, e);
    }
}

proof fn lemma_arena_weight_update(bs: Seq<BasketView>, i: int, b: BasketView)
    requires
        0 <= i < bs.len(),
    ensures
        arena_weight(bs.update(i, b)) + basket_weight(bs[i]) == arena_weight(bs) + basket_weight(
            b,
        ),
    decreases bs.len(),
{
    let t = bs.update(i, b);
    if i == bs.len() - 1 {
        assert(t.drop_last() =~= bs.drop_last());
    } else {
        assert(t.drop_last() =~= bs.drop_last().update(i, b));
        lemma_arena_weight_update(bs.drop_last(), i, b);
    }
}

/// A state put under a slot that is there changes the weight of the arena
/// by what the slot has moved.
pub proof fn lemma_put_weight(baskets: Seq<BasketView>, bk: int, loc: Loc, kid: Kid)
    requires
        0 <= bk < baskets.len(),
        listed(baskets),
        baskets[bk].kids.dom().contains(loc),
    ensures
        listed(put(baskets, bk, loc, kid)),
        arena_weight(put(baskets, bk, loc, kid)) + rank(baskets[bk].kids[loc]) == arena_weight(
            baskets,
        ) + rank(kid),
{
    let old = baskets[bk];
    let new = BasketView { kids: old.kids.insert(loc, kid), ..old };
    let after = put(baskets, bk, loc, kid);
    assert(listable(old.kids));
    lemma_listable_update(old.kids, loc, kid);
    lemma_listable(old.kids);
    let s = ordered(old.kids);
    let i = place_of(s, loc);
    lemma_slots_weight_update(s, i, (loc, kid));
    assert(s[i].1 == old.kids[loc]);
    lemma_arena_weight_update(baskets, bk, new);
    assert forall|j: int| 0 <= j < after.len() implies listable((#[trigger] after[j]).kids) by {
        if j != bk {
            assert(after[j] == baskets[j]);
        }
    }
}

/// The basket that an activation starts with is the view of a `Basket`.
pub proof fn lemma_fresh_listable(obj: ObjectView, ob: Ob, psi: Bk)
    requires
        listable(obj.attrs),
    ensures
        listable(fresh(obj, ob, psi).kids),
{
    lemma_listable(obj.attrs);
    let s = ordered(obj.attrs);
    let f = |v: (Seq<Loc>, bool)| Kid::Empt;
    lemma_ordered_values(s, f);
    let t = s.map_values(|e: (Loc, (Seq<Loc>, bool))| (e.0, f(e.1)));
    let m = as_map(s).map_values(f);
    assert(ascending(t));
    crate::locmap::lemma_ordered_covers(t);
    assert(as_map(t) == m) by {
        assert(crate::locmap::ordered(m) == t);
        let a = as_map(t);
        assert forall|l: Loc| a.dom().contains(l) == m.dom().contains(l) by {
            if crate::locmap::has_key(t, l) {
                let i = place_of(t, l);
                assert(s[i].0 == l);
            }
            if crate::locmap::has_key(s, l) {
                let i = place_of(s, l);
                assert(t[i].0 == l);
            }
        }
        assert forall|l: Loc| a.dom().contains(l) implies a[l] == m[l] by {
            let i = place_of(t, l);
            assert(t[i].1 == Kid::Empt);
        }
        assert(a =~= m);
    }
    assert(listable(m));
    lemma_listable_insert(m, Loc::Phi, Kid::Rqtd);
    assert(m.insert(Loc::Phi, Kid::Rqtd) =~= fresh(obj, ob, psi).kids);
}

/// The weight of an arena with one more basket.
proof fn lemma_arena_weight_push(bs: Seq<BasketView>, b: BasketView)
    ensures
        arena_weight(bs.push(b)) == arena_weight(bs) + basket_weight(b),
{
    assert(bs.push(b).drop_last() =~= bs);
}

/// A turn of an atom moves no slot back, and changes the arena only by
/// moving a slot forward.
proof fn lemma_delegate_weight(baskets: Seq<BasketView>, bk: int, atom: Atom)
    requires
        0 <= bk < baskets.len(),
        listed(baskets),
        baskets[bk].kids.dom().contains(Loc::Phi),
        baskets[bk].kids[Loc::Phi] == Kid::Rqtd,
    ensures
        delegate(baskets, bk, atom) is Ok ==> {
            let b = delegate(baskets, bk, atom)->Ok_0;
            &&& listed(b)
            &&& arena_weight(b) >= arena_weight(baskets)
            &&& b != baskets ==> arena_weight(b) > arena_weight(baskets)
        },
{
    match operand(baskets, bk, Loc::Rho) {
        Ok(None) => {
            if baskets[bk].kids[Loc::Rho] == Kid::Empt {
                lemma_put_weight(baskets, bk, Loc::Rho, Kid::Rqtd);
            }
        },
        Ok(Some(x)) => {
            if atom == Atom::IntNeg {
                lemma_put_weight(
                    baskets,
                    bk,
                    Loc::Phi,
                    Kid::Dtzd(atom_value(atom, x as int, 0)->Some_0 as Data),
                );
            } else {
                let l = second(atom, x);
                match operand(baskets, bk, l) {
                    Ok(None) => {
                        if baskets[bk].kids[l] == Kid::Empt {
                            lemma_put_weight(baskets, bk, l, Kid::Rqtd);
                        }
                    },
                    Ok(Some(y)) => {
                        match atom_value(atom, x as int, y as int) {
                            Some(v) => {
                                lemma_put_weight(baskets, bk, Loc::Phi, Kid::Dtzd(v as Data));
                            },
                            None => {},
                        }
                    },
                    Err(_) => {},
                }
            }
        },
        Err(_) => {},
    }
}

/// A visit to a slot moves no slot back, and changes the arena only by
/// moving a slot forward.
pub proof fn lemma_step_weight(
    objects: Seq<ObjectView>,
    baskets: Seq<BasketView>,
    bk: int,
    loc: Loc,
)
    requires
        0 <= bk < baskets.len(),
        tabled(objects),
        listed(baskets),
        baskets[bk].kids.dom().contains(loc),
    ensures
        step(objects, baskets, bk, loc) is Ok ==> {
            let b = step(objects, baskets, bk, loc)->Ok_0;
            &&& listed(b)
            &&& baskets.len() <= b.len()
            &&& arena_weight(b) >= arena_weight(baskets)
            &&& b != baskets ==> arena_weight(b) > arena_weight(baskets)
        },
{
    match baskets[bk].kids[loc] {
        Kid::Rqtd => {
            let b = baskets[bk];
            if b.ob < objects.len() {
                let obj = objects[b.ob as int];
                if loc == Loc::Phi && obj.delta is Some {
                    lemma_put_weight(baskets, bk, loc, Kid::Dtzd(obj.delta->Some_0));
                } else if obj.attrs.dom().contains(loc) {
                    match search(
                        objects,
                        baskets,
                        obj.attrs[loc].0,
                        bk,
                        b.psi as int,
                        b.ob as int,
                        MAX_HOPS as nat,
                    ) {
                        Some(Target::Data(d)) => {
                            lemma_put_weight(baskets, bk, loc, Kid::Dtzd(d));
                        },
                        Some(Target::Object(tob, psi)) => {
                            lemma_put_weight(
                                baskets,
                                bk,
                                loc,
                                Kid::Need(
                                    tob,
                                    if obj.attrs[loc].1 {
                                        bk as Bk
                                    } else {
                                        psi
                                    },
                                ),
                            );
                        },
                        None => {},
                    }
                } else if loc == Loc::Phi && obj.lambda is Some {
                    lemma_delegate_weight(baskets, bk, obj.lambda->Some_0.1);
                }
            }
        },
        Kid::Need(ob, psi) => {
            if ob < objects.len() {
                let kid = Kid::Wait(baskets.len() as Bk, Loc::Phi);
                lemma_put_weight(baskets, bk, loc, kid);
                let b = put(baskets, bk, loc, kid);
                let f = fresh(objects[ob as int], ob, psi);
                lemma_fresh_listable(objects[ob as int], ob, psi);
                lemma_arena_weight_push(b, f);
                let c = b.push(f);
                assert forall|j: int| 0 <= j < c.len() implies listable((#[trigger] c[j]).kids) by {
                    if j < b.len() {
                        assert(c[j] == b[j]);
                    }
                }
            }
        },
        Kid::Wait(t, l) => {
            if 0 <= t < baskets.len() && baskets[t as int].kids.dom().contains(l) {
                match baskets[t as int].kids[l] {
                    Kid::Dtzd(d) => {
                        lemma_put_weight(baskets, bk, loc, Kid::Dtzd(d));
                    },
                    _ => {},
                }
            }
        },
        _ => {},
    }
}

/// Visits to the slots of a basket move no slot back; where they change the
/// arena, they move a slot forward.
pub proof fn lemma_slots_weight(objects: Seq<ObjectView>, start: Progress, bk: int, j: nat)
    requires
        0 <= bk < start.baskets.len(),
        tabled(objects),
        listed(start.baskets),
    ensures
        slots_done(objects, start, bk, j) is Ok ==> {
            let p = slots_done(objects, start, bk, j)->Ok_0;
            &&& listed(p.baskets)
            &&& start.baskets.len() <= p.baskets.len()
            &&& arena_weight(p.baskets) >= arena_weight(start.baskets)
            &&& start.changed ==> p.changed
            &&& p.changed && !start.changed ==> arena_weight(p.baskets) > arena_weight(
                start.baskets,
            )
            &&& !p.changed ==> p.baskets == start.baskets
        },
    decreases j,
{
    if j > 0 {
        lemma_slots_weight(objects, start, bk, (j - 1) as nat);
        match slots_done(objects, start, bk, (j - 1) as nat) {
            Ok(p) => {
                assert(listable(p.baskets[bk].kids));
                lemma_listable(p.baskets[bk].kids);
                let slots = ordered(p.baskets[bk].kids);
                if j - 1 < slots.len() {
                    assert(p.baskets[bk].kids.dom().contains(slots[j - 1].0));
                    lemma_step_weight(objects, p.baskets, bk, slots[j - 1].0);
                }
            },
            Err(_) => {},
        }
    }
}

/// Visits to the first baskets of an arena move no slot back; where they
/// change the arena, they move a slot forward.
pub proof fn lemma_baskets_weight(objects: Seq<ObjectView>, start: Progress, i: nat)
    requires
        i <= start.baskets.len(),
        tabled(objects),
        listed(start.baskets),
    ensures
        baskets_done(objects, start, i) is Ok ==> {
            let p = baskets_done(objects, start, i)->Ok_0;
            &&& listed(p.baskets)
            &&& start.baskets.len() <= p.baskets.len()
            &&& arena_weight(p.baskets) >= arena_weight(start.baskets)
            &&& start.changed ==> p.changed
            &&& p.changed && !start.changed ==> arena_weight(p.baskets) > arena_weight(
                start.baskets,
            )
            &&& !p.changed ==> p.baskets == start.baskets
        },
    decreases i,
{
    if i > 0 {
        lemma_baskets_weight(objects, start, (i - 1) as nat);
        match baskets_done(objects, start, (i - 1) as nat) {
            Ok(p) => {
                lemma_slots_weight(objects, p, i - 1, ordered(p.baskets[i - 1].kids).len());
            },
            Err(_) => {},
        }
    }
}

/// A tick moves no slot back. Where it changes the arena, it moves a slot
/// forward; where it does not, the arena is as it was.
pub proof fn lemma_tick_weight(objects: Seq<ObjectView>, baskets: Seq<BasketView>)
    requires
        tabled(objects),
        listed(baskets),
    ensures
        tick(objects, baskets) is Ok ==> {
            let p = tick(objects, baskets)->Ok_0;
            &&& listed(p.baskets)
            &&& arena_weight(p.baskets) >= arena_weight(baskets)
            &&& p.changed ==> arena_weight(p.baskets) > arena_weight(baskets)
            &&& !p.changed ==> p.baskets == baskets
        },
{
    lemma_baskets_weight(objects, Progress { baskets, changed: false }, baskets.len());
}

/// A dataization that stops when stuck takes, from any arena on, at most one
/// tick more than its slots move forward.
pub proof fn lemma_run_bounded(
    objects: Seq<ObjectView>,
    baskets: Seq<BasketView>,
    cycles: nat,
    limit: nat,
)
    requires
        tabled(objects),
        listed(baskets),
    ensures
        run(objects, baskets, true, cycles, limit).cycles + arena_weight(baskets) <= cycles
            + arena_weight(run(objects, baskets, true, cycles, limit).baskets) + 1,
    decreases limit - cycles,
{
    if cycles < limit {
        lemma_tick_weight(objects, baskets);
        match tick(objects, baskets) {
            Ok(p) => {
                if crate::machine::root_data(p.baskets) is None && p.changed {
                    lemma_run_bounded(objects, p.baskets, cycles + 1, limit);
                }
            },
            Err(_) => {},
        }
    }
}

/// The ticks of a dataization that stops when stuck are bounded by the
/// slots of the arena it leaves: each slot moves forward four times at most,
/// and every tick but the last moves one.
pub proof fn lemma_cycles_bounded(objects: Seq<ObjectView>, limit: nat)
    requires
        tabled(objects),
    ensures
        run(objects, root_arena(), true, 0, limit).cycles <= 4 * arena_slots(
            run(objects, root_arena(), true, 0, limit).baskets,
        ),
{
    let root = root_arena();
    lemma_root_listed();
    lemma_run_bounded(objects, root, 0, limit);
    lemma_arena_weight_bound(run(objects, root, true, 0, limit).baskets);
}

/// Once a tick changes nothing, no later tick changes anything: a
/// dataization that does not stop when stuck goes on until its ticks are
/// used up.
pub proof fn lemma_idle_forever(
    objects: Seq<ObjectView>,
    baskets: Seq<BasketView>,
    cycles: nat,
    limit: nat,
)
    requires
        tick(objects, baskets) is Ok,
        tick(objects, baskets)->Ok_0.baskets == baskets,
        crate::machine::root_data(baskets) is None,
    ensures
        run(objects, baskets, false, cycles, limit).result is Err,
    decreases limit - cycles,
{
    if cycles < limit {
        lemma_idle_forever(objects, baskets, cycles + 1, limit);
    }
}

/// A dataization that comes to data has never been stuck: it ends as it
/// would if it stopped when stuck.
pub proof fn lemma_success_never_stuck(
    objects: Seq<ObjectView>,
    baskets: Seq<BasketView>,
    cycles: nat,
    limit: nat,
)
    requires
        tabled(objects),
        listed(baskets),
        run(objects, baskets, false, cycles, limit).result is Ok,
    ensures
        run(objects, baskets, true, cycles, limit) == run(objects, baskets, false, cycles, limit),
    decreases limit - cycles,
{
    if cycles < limit {
        lemma_tick_weight(objects, baskets);
        match tick(objects, baskets) {
            Ok(p) => {
                if crate::machine::root_data(p.baskets) is None {
                    if !p.changed {
                        lemma_idle_forever(objects, baskets, cycles + 1, limit);
                    } else {
                        lemma_success_never_stuck(objects, p.baskets, cycles + 1, limit);
                    }
                }
            },
            Err(_) => {},
        }
    }
}

/// The arena in which a dataization begins is the view of baskets.
pub proof fn lemma_root_listed()
    ensures
        listed(root_arena()),
        arena_weight(root_arena()) == 1,
{
    let root = root_arena();
    let kids = Map::<Loc, Kid>::empty().insert(Loc::Phi, Kid::Rqtd);
    let s = seq![(Loc::Phi, Kid::Rqtd)];
    assert(ascending(s));
    assert(as_map(s) =~= kids) by {
        assert forall|l: Loc| as_map(s).dom().contains(l) == kids.dom().contains(l) by {
            if l == Loc::Phi {
                assert(s[0].0 == l);
            }
        }
        assert forall|l: Loc| as_map(s).dom().contains(l) implies as_map(s)[l] == kids[l] by {
            crate::locmap::lemma_as_map_entry(s, 0);
        }
    }
    assert(listable(kids));
    assert(listed(root));
    crate::locmap::lemma_ordered(s);
    assert(basket_weight(root[0]) == 1) by {
        assert(ordered(kids) == s);
        assert(s.drop_last() =~= Seq::<(Loc, Kid)>::empty());
        assert(slots_weight(s) == slots_weight(s.drop_last()) + rank(s.last().1));
    }
    assert(arena_weight(root) == 1) by {
        assert(root.drop_last() =~= Seq::<BasketView>::empty());
        assert(arena_weight(root) == arena_weight(root.drop_last()) + basket_weight(root.last()));
    }
}

/// The ticks of a dataization that comes to data, whether or not it would
/// stop when stuck, are bounded by the slots of the arena it leaves.
pub proof fn lemma_success_bounded(objects: Seq<ObjectView>, stuck: bool, limit: nat)
    requires
        tabled(objects),
        run(objects, root_arena(), stuck, 0, limit).result is Ok,
    ensures
        run(objects, root_arena(), stuck, 0, limit).cycles <= 4 * arena_slots(
            run(objects, root_arena(), stuck, 0, limit).baskets,
        ),
{
    lemma_root_listed();
    if !stuck {
        lemma_success_never_stuck(objects, root_arena(), 0, limit);
    }
    lemma_cycles_bounded(objects, limit);
}

/// Where the result of the first basket is one of a set of slots that wait
/// for one another, a dataization that stops when stuck ends in failure, and
/// within the ticks that its slots allow: for want of ticks it fails only
/// when none is left.
pub proof fn lemma_wait_cycle_reported(
    objects: Seq<ObjectView>,
    baskets: Seq<BasketView>,
    cycles: nat,
    limit: nat,
    c: Set<(int, Loc)>,
)
    requires
        tabled(objects),
        listed(baskets),
        crate::machine::blocked(baskets, c),
        c.contains((0int, Loc::Phi)),
        cycles <= limit,
    ensures
        run(objects, baskets, true, cycles, limit).result is Err,
        run(objects, baskets, true, cycles, limit).cycles + arena_weight(baskets) <= cycles
            + arena_weight(run(objects, baskets, true, cycles, limit).baskets) + 1,
        run(objects, baskets, true, cycles, limit).result == Err::<Data, crate::error::Failure>(
            crate::error::Failure::TooManyCycles,
        ) ==> run(objects, baskets, true, cycles, limit).cycles == limit,
{
    crate::machine::lemma_wait_cycle_fails(objects, baskets, true, cycles, limit, c);
    lemma_run_bounded(objects, baskets, cycles, limit);
    crate::machine::lemma_stuck_only_when_asked(objects, baskets, true, cycles, limit);
}

} // verus!
