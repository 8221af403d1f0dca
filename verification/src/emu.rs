//! `Emu`: the table of objects, the arena of baskets, and the engine.

use crate::atom::Atom;
use crate::basket::{basket_text, parse_ob, what_in, why, Basket, BasketView, Bk, Kid};
use crate::data::Data;
use crate::error::{Error, Failure};
use crate::loc::Loc;
use crate::locator::Locator;
use crate::locmap::ordered;
use crate::machine::{
    after, asked, baskets_done, cycle_limit, delegate, fresh, lemma_baskets_fail, lemma_slots_fail,
    operand, put, root_arena, root_data, run, search, second, slots_done, step, tick, MAX_CYCLES,
    MAX_HOPS, Outcome, Progress, Target,
};
use crate::number::{dec, int_error_message, int_error_text, push_dec, read_int};
use crate::object::{empty_object, object_text, parse_object, Ob, Object, ObjectView};
use crate::text::{append_str, chars_of, failure, find, index_of, is_space, slice, space, string_of};
use vstd::prelude::*;

verus! {

/// What may be asked of a dataization.
#[derive(Clone, Copy, Debug, PartialEq, Eq, Hash, Structural)]
pub enum Opt {
    /// Keep the text of the arena after every tick.
    LogSnapshots,
    /// Fail once more than `MAX_CYCLES` ticks would be needed.
    StopWhenTooManyCycles,
    /// Fail once a tick changes nothing.
    StopWhenStuck,
}

/// The emulator.
pub struct Emu {
    /// The objects, each at the place of its number; a place that no object
    /// was put at holds the object with nothing inside.
    pub objects: Vec<Object>,
    /// The arena of the last dataization.
    pub baskets: Vec<Basket>,
    /// Whether `Opt::LogSnapshots` is set.
    pub log_snapshots: bool,
    /// Whether `Opt::StopWhenTooManyCycles` is set.
    pub stop_when_too_many_cycles: bool,
    /// Whether `Opt::StopWhenStuck` is set.
    pub stop_when_stuck: bool,
    /// The snapshots of the last dataization, one for each tick that came
    /// to its end, where they were asked for.
    pub snapshots: Vec<String>,
}

/// An emulator as a value.
pub struct EmuView {
    pub objects: Seq<ObjectView>,
    pub baskets: Seq<BasketView>,
}

/// The objects as values.
pub open spec fn object_views(objects: Seq<Object>) -> Seq<ObjectView> {
    objects.map_values(|o: Object| o@)
}

/// The baskets as values.
pub open spec fn basket_views(baskets: Seq<Basket>) -> Seq<BasketView> {
    baskets.map_values(|b: Basket| b@)
}

impl View for Emu {
    type V = EmuView;

    open spec fn view(&self) -> EmuView {
        EmuView { objects: object_views(self.objects@), baskets: basket_views(self.baskets@) }
    }
}

/// A state of a slot can be told from another.
proof fn lemma_put_differs(baskets: Seq<BasketView>, bk: int, loc: Loc, kid: Kid)
    requires
        0 <= bk < baskets.len(),
        baskets[bk].kids.dom().contains(loc),
        baskets[bk].kids[loc] != kid,
    ensures
        put(baskets, bk, loc, kid) != baskets,
{
    assert(put(baskets, bk, loc, kid)[bk].kids[loc] == kid);
}

impl Emu {
    /// The emulator without objects.
    pub fn empty() -> (r: Emu)
        ensures
            r@.objects.len() == 0,
            r@.baskets.len() == 0,
            !r.log_snapshots && !r.stop_when_too_many_cycles && !r.stop_when_stuck,
            r.snapshots@.len() == 0,
    {
        Emu {
            objects: Vec::new(),
            baskets: Vec::new(),
            log_snapshots: false,
            stop_when_too_many_cycles: false,
            stop_when_stuck: false,
            snapshots: Vec::new(),
        }
    }

    /// Whether an option is set.
    pub open spec fn has(&self, opt: Opt) -> bool {
        match opt {
            Opt::LogSnapshots => self.log_snapshots,
            Opt::StopWhenTooManyCycles => self.stop_when_too_many_cycles,
            Opt::StopWhenStuck => self.stop_when_stuck,
        }
    }

    /// Sets an option.
    pub fn opt(&mut self, opt: Opt)
        ensures
            final(self)@ == old(self)@,
            final(self).snapshots == old(self).snapshots,
            forall|o: Opt| final(self).has(o) == (old(self).has(o) || o == opt),
    {
        match opt {
            Opt::LogSnapshots => {
                self.log_snapshots = true;
            },
            Opt::StopWhenTooManyCycles => {
                self.stop_when_too_many_cycles = true;
            },
            Opt::StopWhenStuck => {
                self.stop_when_stuck = true;
            },
        }
    }

    /// The state of a slot, if the basket has the slot.
    fn kid(&self, bk: usize, loc: &Loc) -> (r: Option<Kid>)
        requires
            bk < self@.baskets.len(),
        ensures
            match r {
                Some(k) => self@.baskets[bk as int].kids.dom().contains(*loc)
                    && self@.baskets[bk as int].kids[*loc] == k,
                None => !self@.baskets[bk as int].kids.dom().contains(*loc),
            },
    {
        match self.baskets[bk].kids.get(loc) {
            Some(k) => Some(*k),
            None => None,
        }
    }

    /// Puts a state under a slot of a basket.
    fn set_kid(&mut self, bk: usize, loc: Loc, kid: Kid)
        requires
            bk < old(self)@.baskets.len(),
        ensures
            final(self)@.objects == old(self)@.objects,
            final(self)@.baskets.len() == old(self)@.baskets.len(),
            final(self)@.baskets == put(old(self)@.baskets, bk as int, loc, kid),
            final(self).log_snapshots == old(self).log_snapshots,
            final(self).stop_when_too_many_cycles == old(self).stop_when_too_many_cycles,
            final(self).stop_when_stuck == old(self).stop_when_stuck,
            final(self).snapshots == old(self).snapshots,
    {
        let mut b = Basket::empty();
        core::mem::swap(&mut self.baskets[bk], &mut b);
        b.put(loc, kid);
        self.baskets[bk] = b;
        assert(self@.baskets =~= put(old(self)@.baskets, bk as int, loc, kid));
    }

    /// The steps of `p`, then those of `locs` from place `from` on.
    fn spliced(p: &Locator, locs: &Vec<Loc>, from: usize) -> (r: Vec<Loc>)
        requires
            from <= locs@.len(),
        ensures
            r@ == p@ + locs@.subrange(from as int, locs@.len() as int),
    {
        let mut r = p.to_vec();
        let mut i: usize = from;
        while i < locs.len()
            invariant
                from <= i <= locs@.len(),
                r@ == p@ + locs@.subrange(from as int, i as int),
            decreases locs@.len() - i,
        {
            r.push(locs[i]);
            assert(r@ =~= p@ + locs@.subrange(from as int, i + 1));
            i += 1;
        }
        r
    }

    /// Where the steps of `locs` from place `at` on lead.
    fn seek(&self, locs: &Vec<Loc>, at: usize, cur: usize, psi: Bk, ob: Ob, fuel: usize) -> (r:
        Option<Target>)
        requires
            at <= locs@.len(),
        ensures
            r == search(
                self@.objects,
                self@.baskets,
                locs@.subrange(at as int, locs@.len() as int),
                cur as int,
                psi as int,
                ob as int,
                fuel as nat,
            ),
        decreases fuel,
    {
        let ghost rest_all = locs@.subrange(at as int, locs@.len() as int);
        if at >= locs.len() {
            return Some(Target::Object(ob, psi));
        }
        if fuel == 0 {
            return None;
        }
        let ghost rest = rest_all.drop_first();
        assert(rest == locs@.subrange(at + 1, locs@.len() as int));
        assert(rest_all[0] == locs@[at as int]);
        let loc = locs[at];
        match loc {
            Loc::Root => {
                if self.baskets.len() > 0 {
                    let b = &self.baskets[0];
                    self.seek(locs, at + 1, 0, b.psi, b.ob, fuel - 1)
                } else {
                    None
                }
            },
            Loc::Pi | Loc::Rho | Loc::Sigma => {
                if cur < self.baskets.len() {
                    let p = self.baskets[cur].psi;
                    if 0 <= p && (p as usize) < self.baskets.len() {
                        let q = p as usize;
                        self.seek(locs, at + 1, q, p, self.baskets[q].ob, fuel - 1)
                    } else {
                        None
                    }
                } else {
                    None
                }
            },
            Loc::Obj(n) => self.seek(locs, at + 1, cur, psi, n, fuel - 1),
            Loc::Delta => {
                if at + 1 == locs.len() && ob < self.objects.len() {
                    match self.objects[ob].delta {
                        Some(d) => Some(Target::Data(d)),
                        None => None,
                    }
                } else {
                    None
                }
            },
            Loc::Phi | Loc::Attr(_) => {
                if ob < self.objects.len() {
                    match self.objects[ob].attrs.get(&loc) {
                        Some(v) => {
                            let next = Emu::spliced(&v.0, locs, at + 1);
                            assert(next@.subrange(0, next@.len() as int) == next@);
                            self.seek(&next, 0, cur, psi, ob, fuel - 1)
                        },
                        None => None,
                    }
                } else {
                    None
                }
            },
        }
    }

    /// What an atom reads under a slot. The flag tells whether the slot was
    /// empty and is now asked for.
    fn look(&mut self, bk: usize, loc: Loc) -> (r: Result<(Option<Data>, bool), Failure>)
        requires
            bk < old(self)@.baskets.len(),
            bk <= isize::MAX,
        ensures
            final(self)@.objects == old(self)@.objects,
            final(self)@.baskets.len() == old(self)@.baskets.len(),
            final(self).log_snapshots == old(self).log_snapshots,
            final(self).stop_when_too_many_cycles == old(self).stop_when_too_many_cycles,
            final(self).stop_when_stuck == old(self).stop_when_stuck,
            final(self).snapshots == old(self).snapshots,
            match r {
                Err(f) => operand(old(self)@.baskets, bk as int, loc) == Err::<
                    Option<Data>,
                    Failure,
                >(f),
                Ok((d, changed)) => {
                    &&& operand(old(self)@.baskets, bk as int, loc) == Ok::<Option<Data>, Failure>(d)
                    &&& changed == (final(self)@.baskets != old(self)@.baskets)
                    &&& final(self)@.baskets == (if d is None {
                        asked(old(self)@.baskets, bk as int, loc)
                    } else {
                        old(self)@.baskets
                    })
                },
            },
    {
        match self.kid(bk, &loc) {
            None => Err(Failure::EmptySlot(bk as isize, loc)),
            Some(Kid::Dtzd(d)) => Ok((Some(d), false)),
            Some(Kid::Empt) => {
                proof {
                    lemma_put_differs(self@.baskets, bk as int, loc, Kid::Rqtd);
                }
                self.set_kid(bk, loc, Kid::Rqtd);
                Ok((None, true))
            },
            Some(_) => Ok((None, false)),
        }
    }

    /// One turn of an atom. The flag tells whether the arena has changed.
    fn turn(&mut self, bk: usize, atom: Atom) -> (r: Result<bool, Failure>)
        requires
            bk < old(self)@.baskets.len(),
            bk <= isize::MAX,
            old(self)@.baskets[bk as int].kids.dom().contains(Loc::Phi),
            old(self)@.baskets[bk as int].kids[Loc::Phi] == Kid::Rqtd,
        ensures
            final(self)@.objects == old(self)@.objects,
            final(self)@.baskets.len() == old(self)@.baskets.len(),
            final(self).log_snapshots == old(self).log_snapshots,
            final(self).stop_when_too_many_cycles == old(self).stop_when_too_many_cycles,
            final(self).stop_when_stuck == old(self).stop_when_stuck,
            final(self).snapshots == old(self).snapshots,
            match r {
                Ok(changed) => delegate(old(self)@.baskets, bk as int, atom) == Ok::<
                    Seq<BasketView>,
                    Failure,
                >(final(self)@.baskets) && changed == (final(self)@.baskets != old(self)@.baskets),
                Err(f) => delegate(old(self)@.baskets, bk as int, atom) == Err::<
                    Seq<BasketView>,
                    Failure,
                >(f),
            },
    {
        let ghost before = self@.baskets;
        let x = match self.look(bk, Loc::Rho) {
            Err(f) => {
                return Err(f);
            },
            Ok((None, changed)) => {
                return Ok(changed);
            },
            Ok((Some(x), _)) => x,
        };
        if atom == Atom::IntNeg {
            match atom.apply(x, 0) {
                Some(v) => {
                    proof {
                        lemma_put_differs(before, bk as int, Loc::Phi, Kid::Dtzd(v));
                    }
                    self.set_kid(bk, Loc::Phi, Kid::Dtzd(v));
                },
                None => {},
            }
            return Ok(true);
        }
        let branch = if atom == Atom::BoolIf && x == 0 {
            Loc::Attr(1)
        } else {
            Loc::Attr(0)
        };
        assert(branch == second(atom, x));
        let y = match self.look(bk, branch) {
            Err(f) => {
                return Err(f);
            },
            Ok((None, changed)) => {
                return Ok(changed);
            },
            Ok((Some(y), _)) => y,
        };
        match atom.apply(x, y) {
            None => Err(Failure::DivisionByZero(bk as isize)),
            Some(v) => {
                proof {
                    lemma_put_differs(before, bk as int, Loc::Phi, Kid::Dtzd(v));
                }
                self.set_kid(bk, Loc::Phi, Kid::Dtzd(v));
                Ok(true)
            },
        }
    }

    /// What becomes of a slot that is asked for. The flag tells whether the
    /// arena has changed.
    fn settle(&mut self, bk: usize, loc: Loc) -> (r: Result<bool, Failure>)
        requires
            bk < old(self)@.baskets.len(),
            bk <= isize::MAX,
            old(self)@.baskets[bk as int].kids.dom().contains(loc),
            old(self)@.baskets[bk as int].kids[loc] == Kid::Rqtd,
        ensures
            final(self)@.objects == old(self)@.objects,
            final(self)@.baskets.len() == old(self)@.baskets.len(),
            final(self).log_snapshots == old(self).log_snapshots,
            final(self).stop_when_too_many_cycles == old(self).stop_when_too_many_cycles,
            final(self).stop_when_stuck == old(self).stop_when_stuck,
            final(self).snapshots == old(self).snapshots,
            match r {
                Ok(changed) => {
                    &&& crate::machine::find(old(self)@.objects, old(self)@.baskets, bk as int, loc)
                        == Ok::<Seq<BasketView>, Failure>(final(self)@.baskets)
                    &&& changed == (final(self)@.baskets != old(self)@.baskets)
                },
                Err(f) => crate::machine::find(old(self)@.objects, old(self)@.baskets, bk as int, loc)
                    == Err::<Seq<BasketView>, Failure>(f),
            },
    {
        let ghost before = self@.baskets;
        let ob = self.baskets[bk].ob;
        let psi = self.baskets[bk].psi;
        if ob >= self.objects.len() {
            return Err(Failure::BadReference(bk as isize, loc));
        }
        if loc == Loc::Phi {
            match self.objects[ob].delta {
                Some(d) => {
                    proof {
                        lemma_put_differs(before, bk as int, loc, Kid::Dtzd(d));
                    }
                    self.set_kid(bk, loc, Kid::Dtzd(d));
                    return Ok(true);
                },
                None => {},
            }
        }
        let found = match self.objects[ob].attrs.get(&loc) {
            Some(v) => {
                let locs = v.0.to_vec();
                assert(locs@.subrange(0, locs@.len() as int) == locs@);
                Some((self.seek(&locs, 0, bk, psi, ob, MAX_HOPS), v.1))
            },
            None => None,
        };
        match found {
            Some((None, _)) => Err(Failure::BadReference(bk as isize, loc)),
            Some((Some(Target::Data(d)), _)) => {
                proof {
                    lemma_put_differs(before, bk as int, loc, Kid::Dtzd(d));
                }
                self.set_kid(bk, loc, Kid::Dtzd(d));
                Ok(true)
            },
            Some((Some(Target::Object(tob, tpsi)), xi)) => {
                let parent = if xi {
                    bk as isize
                } else {
                    tpsi
                };
                proof {
                    lemma_put_differs(before, bk as int, loc, Kid::Need(tob, parent));
                }
                self.set_kid(bk, loc, Kid::Need(tob, parent));
                Ok(true)
            },
            None => {
                if loc == Loc::Phi {
                    let atom = match &self.objects[ob].lambda {
                        Some((_, a)) => Some(*a),
                        None => None,
                    };
                    match atom {
                        Some(a) => self.turn(bk, a),
                        None => Ok(false),
                    }
                } else {
                    Ok(false)
                }
            },
        }
    }

    /// The basket that an activation starts with.
    fn start(&self, ob: Ob, psi: Bk) -> (r: Basket)
        requires
            ob < self@.objects.len(),
        ensures
            r@ == fresh(self@.objects[ob as int], ob, psi),
    {
        let mut b = Basket::start(ob, psi);
        let obj = &self.objects[ob];
        let n = obj.attrs.len();
        let ghost all = obj.attrs.entries();
        let mut i: usize = 0;
        while i < n
            invariant
                i <= n,
                n == all.len(),
                obj == self.objects@[ob as int],
                all == obj.attrs.entries(),
                crate::locmap::ascending(all),
                crate::locmap::as_map(all) == obj.attrs@,
                b.ob == ob,
                b.psi == psi,
                forall|l: Loc| #[trigger]
                    b.kids@.dom().contains(l) ==> obj.attrs@.dom().contains(l) && b.kids@[l]
                        == Kid::Empt,
                forall|j: int| 0 <= j < i ==> b.kids@.dom().contains((#[trigger] all[j]).0),
            decreases n - i,
        {
            let (k, _) = obj.attrs.entry(i);
            b.put(*k, Kid::Empt);
            i += 1;
        }
        b.put(Loc::Phi, Kid::Rqtd);
        proof {
            crate::locmap::lemma_ordered_covers(all);
            let want = fresh(self@.objects[ob as int], ob, psi);
            assert forall|l: Loc| want.kids.dom().contains(l) implies b@.kids.dom().contains(l) by {
                if l != Loc::Phi {
                    assert(obj.attrs@.dom().contains(l));
                    let j = crate::locmap::place_of(all, l);
                    assert(all[j].0 == l);
                }
            }
            assert(b@.kids =~= want.kids);
        }
        b
    }

    /// One visit to a slot. The flag tells whether the arena has changed.
    fn step(&mut self, bk: usize, loc: Loc) -> (r: Result<bool, Failure>)
        requires
            bk < old(self)@.baskets.len(),
            old(self)@.baskets.len() <= isize::MAX,
            old(self)@.baskets[bk as int].kids.dom().contains(loc),
        ensures
            old(self)@.baskets.len() <= final(self)@.baskets.len() <= isize::MAX,
            final(self)@.objects == old(self)@.objects,
            final(self).log_snapshots == old(self).log_snapshots,
            final(self).stop_when_too_many_cycles == old(self).stop_when_too_many_cycles,
            final(self).stop_when_stuck == old(self).stop_when_stuck,
            final(self).snapshots == old(self).snapshots,
            match r {
                Ok(changed) => step(old(self)@.objects, old(self)@.baskets, bk as int, loc) == Ok::<
                    Seq<BasketView>,
                    Failure,
                >(final(self)@.baskets) && changed == (final(self)@.baskets != old(self)@.baskets),
                Err(f) => step(old(self)@.objects, old(self)@.baskets, bk as int, loc) == Err::<
                    Seq<BasketView>,
                    Failure,
                >(f),
            },
    {
        let ghost before = self@.baskets;
        match self.kid(bk, &loc) {
            None => Ok(false),
            Some(Kid::Empt) => Ok(false),
            Some(Kid::Dtzd(_)) => Ok(false),
            Some(Kid::Rqtd) => self.settle(bk, loc),
            Some(Kid::Need(ob, psi)) => {
                if ob >= self.objects.len() || !(0 <= psi && (psi as usize) < self.baskets.len()) {
                    return Err(Failure::BadReference(bk as isize, loc));
                }
                if self.baskets.len() >= isize::MAX as usize {
                    return Err(Failure::ArenaFull);
                }
                let b = self.start(ob, psi);
                let id = self.baskets.len() as isize;
                self.set_kid(bk, loc, Kid::Wait(id, Loc::Phi));
                self.baskets.push(b);
                assert(self@.baskets =~= put(before, bk as int, loc, Kid::Wait(id, Loc::Phi)).push(
                    fresh(self@.objects[ob as int], ob, psi),
                ));
                Ok(true)
            },
            Some(Kid::Wait(t, l)) => {
                if !(0 <= t && (t as usize) < self.baskets.len()) {
                    return Err(Failure::BadReference(bk as isize, loc));
                }
                match self.kid(t as usize, &l) {
                    None => Err(Failure::BadReference(bk as isize, loc)),
                    Some(Kid::Dtzd(d)) => {
                        self.set_kid(bk, loc, Kid::Dtzd(d));
                        proof {
                            lemma_put_differs(before, bk as int, loc, Kid::Dtzd(d));
                        }
                        Ok(true)
                    },
                    Some(_) => Ok(false),
                }
            },
        }
    }
}

/// The text of the first `n` baskets of an arena, a line for each: `β`, the
/// number of the basket, a space, and the text of the basket.
pub open spec fn arena_text(baskets: Seq<BasketView>, n: nat) -> Seq<char>
    decreases n,
{
    if n == 0 {
        Seq::empty()
    } else {
        arena_text(baskets, (n - 1) as nat) + (if n > 1 {
            seq!['\n']
        } else {
            Seq::empty()
        }) + seq!['β'] + dec((n - 1) as nat) + seq![' '] + basket_text(baskets[n - 1])
    }
}

/// What a dataization hands out for the way it ended.
pub open spec fn handed(out: Outcome) -> Result<(Data, usize), Error> {
    match out.result {
        Ok(d) => Ok((d, out.cycles as usize)),
        Err(f) => Err(Error::EmuFailure(f, out.cycles as usize)),
    }
}

impl Emu {
    /// The text of the arena.
    pub fn snapshot(&self) -> (r: String)
        ensures
            r@ == arena_text(self@.baskets, self@.baskets.len()),
    {
        let mut out: Vec<char> = Vec::new();
        let mut i: usize = 0;
        while i < self.baskets.len()
            invariant
                i <= self@.baskets.len(),
                out@ == arena_text(self@.baskets, i as nat),
            decreases self@.baskets.len() - i,
        {
            let ghost before = out@;
            if i > 0 {
                out.push('\n');
            }
            out.push('β');
            push_dec(&mut out, i as u64);
            out.push(' ');
            let t = self.baskets[i].to_string();
            append_str(&mut out, t.as_str());
            assert(out@ =~= arena_text(self@.baskets, (i + 1) as nat));
            i += 1;
        }
        string_of(&out)
    }

    /// One tick. The flag tells whether the arena has changed.
    #[verifier::rlimit(40)]
    pub fn cycle(&mut self) -> (r: Result<bool, Failure>)
        requires
            old(self)@.baskets.len() <= isize::MAX,
        ensures
            old(self)@.baskets.len() <= final(self)@.baskets.len() <= isize::MAX,
            final(self)@.objects == old(self)@.objects,
            final(self).log_snapshots == old(self).log_snapshots,
            final(self).stop_when_too_many_cycles == old(self).stop_when_too_many_cycles,
            final(self).stop_when_stuck == old(self).stop_when_stuck,
            final(self).snapshots == old(self).snapshots,
            r is Ok ==> crate::machine::stable(old(self)@.baskets, final(self)@.baskets),
            match r {
                Ok(changed) => tick(old(self)@.objects, old(self)@.baskets) == Ok::<
                    Progress,
                    Failure,
                >(Progress { baskets: final(self)@.baskets, changed }),
                Err(f) => tick(old(self)@.objects, old(self)@.baskets) == Err::<Progress, Failure>(
                    f,
                ),
            },
    {
        let n = self.baskets.len();
        let ghost objects = self@.objects;
        let ghost start = Progress { baskets: self@.baskets, changed: false };
        let mut changed = false;
        let mut i: usize = 0;
        while i < n
            invariant
                i <= n,
                n == start.baskets.len(),
                n <= self@.baskets.len() <= isize::MAX,
                start == (Progress { baskets: old(self)@.baskets, changed: false }),
                objects == old(self)@.objects,
                self@.objects == objects,
                self.log_snapshots == old(self).log_snapshots,
                self.stop_when_too_many_cycles == old(self).stop_when_too_many_cycles,
                self.stop_when_stuck == old(self).stop_when_stuck,
                self.snapshots == old(self).snapshots,
                baskets_done(objects, start, i as nat) == Ok::<Progress, Failure>(
                    Progress { baskets: self@.baskets, changed },
                ),
            decreases n - i,
        {
            let m = self.baskets[i].kids.len();
            let ghost first = Progress { baskets: self@.baskets, changed };
            assert(m == ordered(first.baskets[i as int].kids).len());
            let mut j: usize = 0;
            while j < m
                invariant
                    j <= m,
                    i < n,
                    n == start.baskets.len(),
                    n <= self@.baskets.len() <= isize::MAX,
                    n <= first.baskets.len(),
                    start == (Progress { baskets: old(self)@.baskets, changed: false }),
                    objects == old(self)@.objects,
                    self@.objects == objects,
                    self.log_snapshots == old(self).log_snapshots,
                    self.stop_when_too_many_cycles == old(self).stop_when_too_many_cycles,
                    self.stop_when_stuck == old(self).stop_when_stuck,
                    self.snapshots == old(self).snapshots,
                    m == ordered(first.baskets[i as int].kids).len(),
                    baskets_done(objects, start, i as nat) == Ok::<Progress, Failure>(first),
                    slots_done(objects, first, i as int, j as nat) == Ok::<Progress, Failure>(
                        Progress { baskets: self@.baskets, changed },
                    ),
                decreases m - j,
            {
                let count = self.baskets[i].kids.len();
                if j < count {
                    let loc = *self.baskets[i].kids.entry(j).0;
                    match self.step(i, loc) {
                        Err(f) => {
                            proof {
                                assert(slots_done(objects, first, i as int, (j + 1) as nat) is Err);
                                lemma_slots_fail(objects, first, i as int, (j + 1) as nat, m as nat);
                                assert(baskets_done(objects, start, (i + 1) as nat) is Err);
                                lemma_baskets_fail(objects, start, (i + 1) as nat, n as nat);
                            }
                            return Err(f);
                        },
                        Ok(c) => {
                            changed = changed || c;
                        },
                    }
                }
                j += 1;
            }
            i += 1;
        }
        proof {
            crate::machine::lemma_tick_stable(objects, old(self)@.baskets);
        }
        Ok(changed)
    }

    /// The data that the first basket holds as its result, if it does.
    pub fn result(&self) -> (r: Option<Data>)
        ensures
            r == root_data(self@.baskets),
    {
        if self.baskets.len() == 0 {
            return None;
        }
        match self.baskets[0].kids.get(&Loc::Phi) {
            Some(Kid::Dtzd(d)) => Some(*d),
            _ => None,
        }
    }

    /// Every object of the table is the view of an `Object`.
    fn tabled(&self)
        ensures
            crate::bound::tabled(self@.objects),
    {
        let mut i: usize = 0;
        while i < self.objects.len()
            invariant
                i <= self@.objects.len(),
                forall|k: int|
                    0 <= k < i ==> crate::locmap::listable((#[trigger] self@.objects[k]).attrs),
            decreases self@.objects.len() - i,
        {
            self.objects[i].listed();
            i += 1;
        }
    }

    /// Dataizes the first object: ticks, from a fresh arena on, until the
    /// first basket holds its result, a visit fails, a tick changes nothing
    /// while `StopWhenStuck` is set, or the ticks allowed are done. The count
    /// is that of the ticks done. The arena is left as the last tick left it,
    /// unless a visit failed. A dataization that comes to data, or that stops
    /// when stuck, takes no more ticks than four for each slot of the arena.
    #[verifier::rlimit(40)]
    pub fn dataize(&mut self) -> (r: Result<(Data, usize), Error>)
        ensures
            final(self)@.objects == old(self)@.objects,
            final(self).log_snapshots == old(self).log_snapshots,
            final(self).stop_when_too_many_cycles == old(self).stop_when_too_many_cycles,
            final(self).stop_when_stuck == old(self).stop_when_stuck,
            ({
                let out = run(
                    old(self)@.objects,
                    root_arena(),
                    old(self).stop_when_stuck,
                    0,
                    cycle_limit(old(self).stop_when_too_many_cycles),
                );
                &&& r == handed(out)
                &&& !(out.result is Err && crate::machine::of_a_visit(out.result->Err_0))
                    ==> final(self)@.baskets == out.baskets
                &&& out.result is Ok || old(self).stop_when_stuck ==> out.cycles <= 4
                    * crate::bound::arena_slots(out.baskets)
                &&& final(self).snapshots@.len() == (if old(self).log_snapshots {
                    out.cycles
                } else {
                    0
                })
                &&& forall|k: int|
                    0 <= k < final(self).snapshots@.len() ==> {
                        let arena = after(old(self)@.objects, (k + 1) as nat);
                        (#[trigger] final(self).snapshots@[k])@ == arena_text(arena, arena.len())
                    }
            }),
    {
        let mut root = Basket::start(0, 0);
        root.put(Loc::Phi, Kid::Rqtd);
        let mut arena: Vec<Basket> = Vec::new();
        arena.push(root);
        self.baskets = arena;
        self.snapshots = Vec::new();
        assert(self@.baskets =~= root_arena());
        let limit: usize = if self.stop_when_too_many_cycles {
            MAX_CYCLES
        } else {
            usize::MAX
        };
        let ghost objects = self@.objects;
        let ghost stuck = self.stop_when_stuck;
        let ghost whole = run(objects, root_arena(), stuck, 0, limit as nat);
        self.tabled();
        proof {
            if whole.result is Ok {
                crate::bound::lemma_success_bounded(objects, stuck, limit as nat);
            }
            if stuck {
                crate::bound::lemma_cycles_bounded(objects, limit as nat);
            }
        }
        let mut cycles: usize = 0;
        while cycles < limit
            invariant
                cycles <= limit,
                limit == cycle_limit(old(self).stop_when_too_many_cycles),
                1 <= self@.baskets.len() <= isize::MAX,
                self@.objects == objects,
                objects == old(self)@.objects,
                stuck == old(self).stop_when_stuck,
                self.log_snapshots == old(self).log_snapshots,
                self.stop_when_too_many_cycles == old(self).stop_when_too_many_cycles,
                self.stop_when_stuck == old(self).stop_when_stuck,
                whole == run(objects, root_arena(), stuck, 0, limit as nat),
                whole == run(objects, self@.baskets, stuck, cycles as nat, limit as nat),
                whole.result is Ok || stuck ==> whole.cycles <= 4 * crate::bound::arena_slots(
                    whole.baskets,
                ),
                self@.baskets == after(objects, cycles as nat),
                self.snapshots@.len() == (if self.log_snapshots {
                    cycles
                } else {
                    0
                }),
                forall|k: int|
                    0 <= k < self.snapshots@.len() ==> (#[trigger] self.snapshots@[k])@
                        == arena_text(
                        after(objects, (k + 1) as nat),
                        after(objects, (k + 1) as nat).len(),
                    ),
            decreases limit - cycles,
        {
            let ghost before = self@.baskets;
            match self.cycle() {
                Err(f) => {
                    proof {
                        crate::machine::lemma_baskets_failure(
                            objects,
                            Progress { baskets: before, changed: false },
                            before.len(),
                        );
                    }
                    return Err(Error::EmuFailure(f, cycles));
                },
                Ok(changed) => {
                    cycles += 1;
                    if self.log_snapshots {
                        let text = self.snapshot();
                        self.snapshots.push(text);
                    }
                    match self.result() {
                        Some(d) => {
                            return Ok((d, cycles));
                        },
                        None => {
                            if self.stop_when_stuck && !changed {
                                return Err(Error::EmuFailure(Failure::Stuck, cycles));
                            }
                        },
                    }
                },
            }
        }
        Err(Error::EmuFailure(Failure::TooManyCycles, cycles))
    }
}

/// The most objects that a table may hold.
pub const MAX_OBJECTS: usize = 65536;

/// Whether an object has nothing inside.
pub open spec fn is_vacant(o: ObjectView) -> bool {
    o.lambda is None && o.delta is None && o.attrs == Map::<Loc, (Seq<Loc>, bool)>::empty()
}

/// The table made at least `n` places long, with nothing at the new places.
pub open spec fn grown(table: Seq<ObjectView>, n: int) -> Seq<ObjectView> {
    if table.len() >= n {
        table
    } else {
        table + Seq::new((n - table.len()) as nat, |i: int| empty_object())
    }
}

/// The table with an object at the place `ob`: `None` where the place is
/// taken or beyond `MAX_OBJECTS`.
pub open spec fn table_put(table: Seq<ObjectView>, ob: int, obj: ObjectView) -> Option<
    Seq<ObjectView>,
> {
    if ob >= MAX_OBJECTS || (ob < table.len() && !is_vacant(table[ob])) {
        None
    } else {
        Some(grown(table, ob + 1).update(ob, obj))
    }
}

/// One declaration: `ν`, the number of the object up to the first opening
/// bracket, and the object.
pub open spec fn parse_decl(decl: Seq<char>) -> Result<(Ob, ObjectView), Seq<char>> {
    let a = index_of(decl, '(');
    if decl.len() == 0 || decl[0] != 'ν' || !(1 <= a <= decl.len()) {
        Err(what_in("Can't parse the declaration '"@, decl))
    } else {
        match parse_ob(decl.subrange(1, a)) {
            Err(e) => Err(
                why("Can't parse the object number '"@, decl.subrange(1, a), int_error_text(e)),
            ),
            Ok(n) => match parse_object(decl) {
                Err(e) => Err(e),
                Ok(o) => Ok((n as Ob, o)),
            },
        }
    }
}

/// The declarations of a text, put into a table one after the other. A
/// declaration ends with the first `⟧`; white space before one counts for
/// nothing.
pub open spec fn parse_decls(s: Seq<char>, table: Seq<ObjectView>) -> Result<
    Seq<ObjectView>,
    Seq<char>,
>
    decreases s.len(),
{
    if s.len() == 0 {
        Ok(table)
    } else if is_space(s[0]) {
        parse_decls(s.drop_first(), table)
    } else {
        let e = index_of(s, '⟧');
        if 0 <= e < s.len() {
            match parse_decl(s.subrange(0, e + 1)) {
                Err(m) => Err(m),
                Ok((n, o)) => match table_put(table, n as int, o) {
                    None => Err(what_in("Can't put the object in '"@, s.subrange(0, e + 1))),
                    Some(t) => parse_decls(s.subrange(e + 1, s.len() as int), t),
                },
            }
        } else {
            Err(what_in("Can't find the end of the object in '"@, s))
        }
    }
}

/// The table of objects that a program text denotes.
pub open spec fn parse_program(s: Seq<char>) -> Result<Seq<ObjectView>, Seq<char>> {
    parse_decls(s, Seq::empty())
}

/// The text of one declaration.
pub open spec fn decl_text(n: nat, o: ObjectView) -> Seq<char> {
    seq!['ν'] + dec(n) + seq!['(', '𝜋', ')', ' ', '↦', ' '] + object_text(o)
}

/// The text of the first `n` places of a table: a line for each object
/// that has anything inside.
pub open spec fn program_text(table: Seq<ObjectView>, n: nat) -> Seq<char>
    decreases n,
{
    if n == 0 {
        Seq::empty()
    } else {
        let head = program_text(table, (n - 1) as nat);
        if is_vacant(table[n - 1]) {
            head
        } else {
            head + (if head.len() > 0 {
                seq!['\n']
            } else {
                Seq::empty()
            }) + decl_text((n - 1) as nat, table[n - 1])
        }
    }
}

impl Emu {
    /// Puts an object at the place `ob`. `false`, and nothing changes, where
    /// the place is taken or beyond `MAX_OBJECTS`.
    pub fn put(&mut self, ob: Ob, obj: Object) -> (r: bool)
        ensures
            final(self)@.baskets == old(self)@.baskets,
            final(self).log_snapshots == old(self).log_snapshots,
            final(self).stop_when_too_many_cycles == old(self).stop_when_too_many_cycles,
            final(self).stop_when_stuck == old(self).stop_when_stuck,
            final(self).snapshots == old(self).snapshots,
            match table_put(old(self)@.objects, ob as int, obj@) {
                None => !r && final(self)@.objects == old(self)@.objects,
                Some(t) => r && final(self)@.objects == t,
            },
    {
        if ob >= MAX_OBJECTS {
            return false;
        }
        if ob < self.objects.len() && !self.objects[ob].is_empty() {
            return false;
        }
        let ghost before = self@.objects;
        while self.objects.len() <= ob
            invariant
                ob < MAX_OBJECTS,
                self@.baskets == old(self)@.baskets,
                self.log_snapshots == old(self).log_snapshots,
                self.stop_when_too_many_cycles == old(self).stop_when_too_many_cycles,
                self.stop_when_stuck == old(self).stop_when_stuck,
                self.snapshots == old(self).snapshots,
                before == old(self)@.objects,
                before.len() <= self@.objects.len(),
                self@.objects.len() <= before.len() || self@.objects.len() <= ob + 1,
                self@.objects == grown(before, self@.objects.len() as int),
            decreases ob + 1 - self.objects@.len(),
        {
            let ghost now = self@.objects;
            self.objects.push(Object::open());
            assert(self@.objects =~= now.push(empty_object()));
            assert(self@.objects =~= grown(before, self@.objects.len() as int));
        }
        self.objects[ob] = obj;
        assert(self@.objects =~= grown(before, ob + 1).update(ob as int, obj@));
        true
    }

    /// Appends the declaration of the object at the place `n`.
    fn write_decl(out: &mut Vec<char>, n: usize, obj: &Object)
        ensures
            final(out)@ == old(out)@ + decl_text(n as nat, obj@),
    {
        out.push('ν');
        push_dec(out, n as u64);
        out.push('(');
        out.push('𝜋');
        out.push(')');
        out.push(' ');
        out.push('↦');
        out.push(' ');
        let t = obj.to_string();
        append_str(out, t.as_str());
        assert(out@ =~= old(out)@ + decl_text(n as nat, obj@));
    }

    /// The program: a declaration for each object that has anything inside.
    #[verifier::rlimit(40)]
    pub fn to_string(&self) -> (r: String)
        ensures
            r@ == program_text(self@.objects, self@.objects.len()),
    {
        let mut out: Vec<char> = Vec::new();
        let mut i: usize = 0;
        while i < self.objects.len()
            invariant
                i <= self@.objects.len(),
                out@ == program_text(self@.objects, i as nat),
            decreases self@.objects.len() - i,
        {
            let ghost head = out@;
            if !self.objects[i].is_empty() {
                if out.len() > 0 {
                    out.push('\n');
                }
                Emu::write_decl(&mut out, i, &self.objects[i]);
                assert(out@ =~= head + (if head.len() > 0 {
                    seq!['\n']
                } else {
                    Seq::<char>::empty()
                }) + decl_text(i as nat, self@.objects[i as int]));
            }
            assert(out@ == program_text(self@.objects, (i + 1) as nat));
            i += 1;
        }
        string_of(&out)
    }

    /// Reads one declaration.
    fn read_decl(decl: &Vec<char>) -> (r: Result<(Ob, Object), Vec<char>>)
        ensures
            match r {
                Ok((n, o)) => parse_decl(decl@) == Ok::<(Ob, ObjectView), Seq<char>>((n, o@)),
                Err(e) => parse_decl(decl@) == Err::<(Ob, ObjectView), Seq<char>>(e@),
            },
    {
        proof {
            reveal_strlit("");
            assert(decl@.subrange(0, decl@.len() as int) == decl@);
        }
        let a = find(decl, '(', 0);
        if decl.len() == 0 || decl[0] != 'ν' || a < 1 {
            let e = failure("Can't parse the declaration '", decl, "'", "");
            assert(e@ =~= what_in("Can't parse the declaration '"@, decl@));
            return Err(e);
        }
        let number = slice(decl, 1, a);
        let n = match read_int(&number, false, false, 0, usize::MAX as i128) {
            Err(e) => {
                let mut m = failure("Can't parse the object number '", &number, "': ", "");
                append_str(&mut m, int_error_message(e));
                assert(m@ =~= why(
                    "Can't parse the object number '"@,
                    number@,
                    int_error_text(e),
                ));
                return Err(m);
            },
            Ok(n) => n as usize,
        };
        match Object::read(decl) {
            Err(e) => Err(e),
            Ok(o) => Ok((n, o)),
        }
    }

    /// Reads a program from characters.
    pub fn read(s: &Vec<char>) -> (r: Result<Emu, Vec<char>>)
        ensures
            match r {
                Ok(emu) => parse_program(s@) == Ok::<Seq<ObjectView>, Seq<char>>(emu@.objects)
                    && emu@.baskets.len() == 0 && !emu.log_snapshots
                    && !emu.stop_when_too_many_cycles && !emu.stop_when_stuck,
                Err(e) => parse_program(s@) == Err::<Seq<ObjectView>, Seq<char>>(e@),
            },
    {
        let mut emu = Emu::empty();
        assert(emu@.objects =~= Seq::<ObjectView>::empty());
        assert(s@.subrange(0, s@.len() as int) == s@);
        let mut at: usize = 0;
        while at < s.len()
            invariant
                at <= s@.len(),
                emu@.baskets.len() == 0,
                !emu.log_snapshots && !emu.stop_when_too_many_cycles && !emu.stop_when_stuck,
                parse_program(s@) == parse_decls(
                    s@.subrange(at as int, s@.len() as int),
                    emu@.objects,
                ),
            decreases s@.len() - at,
        {
            let ghost rest = s@.subrange(at as int, s@.len() as int);
            assert(rest[0] == s@[at as int]);
            if space(s[at]) {
                assert(rest.drop_first() == s@.subrange(at + 1, s@.len() as int));
                at += 1;
            } else {
                let e = find(s, '⟧', at);
                proof {
                    reveal_strlit("");
                    crate::text::lemma_index_of_bounds(rest, '⟧');
                }
                if e >= s.len() {
                    let tail = slice(s, at, s.len());
                    let m = failure("Can't find the end of the object in '", &tail, "'", "");
                    assert(m@ =~= what_in("Can't find the end of the object in '"@, rest));
                    return Err(m);
                }
                let decl = slice(s, at, e + 1);
                assert(decl@ == rest.subrange(0, e - at + 1));
                assert(rest.subrange(e - at + 1, rest.len() as int) == s@.subrange(
                    e + 1,
                    s@.len() as int,
                ));
                match Emu::read_decl(&decl) {
                    Err(m) => {
                        return Err(m);
                    },
                    Ok((n, o)) => {
                        if !emu.put(n, o) {
                            let m = failure("Can't put the object in '", &decl, "'", "");
                            assert(m@ =~= what_in("Can't put the object in '"@, decl@));
                            return Err(m);
                        }
                    },
                }
                at = e + 1;
            }
        }
        Ok(emu)
    }

    /// Reads a program from its text.
    pub fn from_str(s: &str) -> (r: Result<Emu, String>)
        ensures
            match r {
                Ok(emu) => parse_program(s@) == Ok::<Seq<ObjectView>, Seq<char>>(emu@.objects)
                    && emu@.baskets.len() == 0 && !emu.log_snapshots
                    && !emu.stop_when_too_many_cycles && !emu.stop_when_stuck,
                Err(e) => parse_program(s@) == Err::<Seq<ObjectView>, Seq<char>>(e@),
            },
    {
        let v = chars_of(s);
        match Emu::read(&v) {
            Ok(emu) => Ok(emu),
            Err(e) => Err(string_of(&e)),
        }
    }
}

impl Emu {
    /// Reads a program from its text; what is said of a failure is kept in
    /// `Error::EmuFromStrFailed`.
    pub fn parse(s: &str) -> (r: Result<Emu, Error>)
        ensures
            match r {
                Ok(emu) => parse_program(s@) == Ok::<Seq<ObjectView>, Seq<char>>(emu@.objects)
                    && emu@.baskets.len() == 0 && !emu.log_snapshots
                    && !emu.stop_when_too_many_cycles && !emu.stop_when_stuck,
                Err(Error::EmuFromStrFailed(m)) => parse_program(s@) == Err::<
                    Seq<ObjectView>,
                    Seq<char>,
                >(m@),
                Err(_) => false,
            },
    {
        match Emu::from_str(s) {
            Ok(emu) => Ok(emu),
            Err(m) => Err(Error::EmuFromStrFailed(m)),
        }
    }
}

impl std::str::FromStr for Emu {
    type Err = String;

    /// Reads a program from its text, as `Emu::from_str` does.
    fn from_str(s: &str) -> (r: Result<Emu, String>)
        ensures
            match r {
                Ok(emu) => parse_program(s@) == Ok::<Seq<ObjectView>, Seq<char>>(emu@.objects)
                    && emu@.baskets.len() == 0 && !emu.log_snapshots
                    && !emu.stop_when_too_many_cycles && !emu.stop_when_stuck,
                Err(e) => parse_program(s@) == Err::<Seq<ObjectView>, Seq<char>>(e@),
            },
    {
        Emu::from_str(s)
    }
}

} // verus!
