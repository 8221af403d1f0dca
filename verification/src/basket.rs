//! `Basket`: one activation of an object, with the state of each slot.

use crate::data::Data;
use crate::error::Error;
use crate::loc::{loc_text, outcome, outcome_chars, parse_loc, Loc};
use crate::locator::viewed;
use crate::locmap::{ascending, ordered, LocMap};
use crate::number::{
    dec, dec_int, hex4, int_error_message, int_error_text, parse_data, parse_int, push_dec,
    push_hex4, push_int, read_data, read_int, IntError,
};
use crate::object::Ob;
use crate::text::{
    append, append_str, cells, cells_of, chars_of, failure, find, find_last, index_of, join, joined,
    last_index_of, lemma_index_of_bounds, lemma_last_index_of_bounds, pieces, rows, slice,
    sort_strings, sorted, split, string_of, texts, trim, trimmed,
};
use vstd::prelude::*;

verus! {

/// The number of a basket: its place in the arena, or a negative number
/// where there is none.
pub type Bk = isize;

/// The state of one slot of a basket.
#[derive(Clone, Copy, Debug, PartialEq, Eq, Structural)]
pub enum Kid {
    /// Nothing is asked for, and nothing is there.
    Empt,
    /// The slot is asked for; what fills it is yet to be found.
    Rqtd,
    /// A basket is to be started for the object, under the given parent.
    Need(Ob, Bk),
    /// The slot will hold what the given slot of the given basket holds.
    Wait(Bk, Loc),
    /// The slot holds data.
    Dtzd(Data),
}

/// One activation: the object, the parent basket, and the slots.
pub struct Basket {
    /// The object that is activated.
    pub ob: Ob,
    /// The basket in which the activation was asked for; negative in the
    /// basket that stands for none.
    pub psi: Bk,
    /// The state of each slot.
    pub kids: LocMap<Kid>,
}

/// A basket as a value.
pub struct BasketView {
    pub ob: Ob,
    pub psi: Bk,
    pub kids: Map<Loc, Kid>,
}

impl View for Basket {
    type V = BasketView;

    open spec fn view(&self) -> BasketView {
        BasketView { ob: self.ob, psi: self.psi, kids: self.kids@ }
    }
}

/// The marks that part a slot from its state.
#[derive(Clone, Copy, Debug, PartialEq, Eq, Structural)]
pub enum Mark {
    /// `⇶0x`, before data.
    Data,
    /// `⇉β`, before the basket and slot waited for.
    Wait,
    /// `→(ν`, before the object and parent needed.
    Need,
    /// `→∅`.
    Empt,
    /// `→?`.
    Rqtd,
}

/// The text of a mark.
pub open spec fn mark_text(m: Mark) -> Seq<char> {
    match m {
        Mark::Data => seq!['⇶', '0', 'x'],
        Mark::Wait => seq!['⇉', 'β'],
        Mark::Need => seq!['→', '(', 'ν'],
        Mark::Empt => seq!['→', '∅'],
        Mark::Rqtd => seq!['→', '?'],
    }
}

/// The text of a slot's state.
pub open spec fn kid_text(k: Kid) -> Seq<char> {
    match k {
        Kid::Empt => mark_text(Mark::Empt),
        Kid::Rqtd => mark_text(Mark::Rqtd),
        Kid::Need(ob, bk) => mark_text(Mark::Need) + dec(ob as nat) + seq![';', 'β'] + dec_int(
            bk as int,
        ) + seq![')'],
        Kid::Wait(bk, loc) => mark_text(Mark::Wait) + dec_int(bk as int) + seq!['.'] + loc_text(
            loc,
        ),
        Kid::Dtzd(d) => mark_text(Mark::Data) + hex4(d as int),
    }
}

/// The text of one slot with its state.
pub open spec fn kid_part(e: (Loc, Kid)) -> Seq<char> {
    loc_text(e.0) + kid_text(e.1)
}

/// The text of the object's number.
pub open spec fn ob_part(ob: Ob) -> Seq<char> {
    seq!['ν'] + dec(ob as nat)
}

/// The text of the parent's number.
pub open spec fn psi_part(psi: Bk) -> Seq<char> {
    seq!['ξ', ':', 'β'] + dec_int(psi as int)
}

/// The texts of a basket's entries: the object, the parent, then the slots
/// in ascending order of their texts.
pub open spec fn basket_parts(b: BasketView) -> Seq<Seq<char>> {
    seq![ob_part(b.ob), psi_part(b.psi)] + sorted(
        ordered(b.kids).map_values(|e: (Loc, Kid)| kid_part(e)),
    )
}

/// The canonical text of a basket.
pub open spec fn basket_text(b: BasketView) -> Seq<char> {
    seq!['['] + join(basket_parts(b), seq![',', ' ']) + seq![']']
}

/// The mark that starts at place `i` of `p`, if one does.
pub open spec fn mark_at(p: Seq<char>, i: int) -> Option<Mark> {
    if i + 3 <= p.len() && p[i] == '⇶' && p[i + 1] == '0' && p[i + 2] == 'x' {
        Some(Mark::Data)
    } else if i + 2 <= p.len() && p[i] == '⇉' && p[i + 1] == 'β' {
        Some(Mark::Wait)
    } else if i + 3 <= p.len() && p[i] == '→' && p[i + 1] == '(' && p[i + 2] == 'ν' {
        Some(Mark::Need)
    } else if i + 2 <= p.len() && p[i] == '→' && p[i + 1] == '∅' {
        Some(Mark::Empt)
    } else if i + 2 <= p.len() && p[i] == '→' && p[i + 1] == '?' {
        Some(Mark::Rqtd)
    } else {
        None
    }
}

/// The last place below `n` at which a mark starts, or `-1`.
pub open spec fn last_mark(p: Seq<char>, n: int) -> int
    decreases n,
{
    if n <= 0 {
        -1
    } else if mark_at(p, n - 1) is Some {
        n - 1
    } else {
        last_mark(p, n - 1)
    }
}

/// `s` from place `n` on, or nothing where it is shorter.
pub open spec fn tail_from(s: Seq<char>, n: int) -> Seq<char> {
    if 0 <= n <= s.len() {
        s.subrange(n, s.len() as int)
    } else {
        Seq::empty()
    }
}

/// `s` without a closing bracket at its end.
pub open spec fn unclosed(s: Seq<char>) -> Seq<char> {
    if s.len() > 0 && s.last() == ')' {
        s.drop_last()
    } else {
        s
    }
}

/// A message: what failed, the text in quotes, and why.
pub open spec fn why(what: Seq<char>, text: Seq<char>, e: Seq<char>) -> Seq<char> {
    what + text + "': "@ + e
}

/// A message: what failed and the text in quotes.
pub open spec fn what_in(what: Seq<char>, text: Seq<char>) -> Seq<char> {
    what + text + "'"@
}

/// An object's number read from text.
pub open spec fn parse_ob(s: Seq<char>) -> Result<int, IntError> {
    parse_int(s, false, false, 0, usize::MAX as int)
}

/// A basket's number read from text.
pub open spec fn parse_bk(s: Seq<char>) -> Result<int, IntError> {
    parse_int(s, false, true, isize::MIN as int, isize::MAX as int)
}

/// The state that stands behind a mark.
#[verifier::opaque]
pub open spec fn parse_kid(m: Mark, rest: Seq<char>) -> Result<Kid, Seq<char>> {
    match m {
        Mark::Empt => Ok(Kid::Empt),
        Mark::Rqtd => Ok(Kid::Rqtd),
        Mark::Data => match parse_data(rest) {
            Err(e) => Err(why("Can't parse data '"@, rest, int_error_text(e))),
            Ok(d) => Ok(Kid::Dtzd(d as Data)),
        },
        Mark::Wait => {
            let ba = split(rest, '.');
            if ba.len() != 2 {
                Err(what_in("Invalid wait format in '"@, rest))
            } else {
                match parse_bk(ba[0]) {
                    Err(e) => Err(why("Can't parse wait number '"@, ba[0], int_error_text(e))),
                    Ok(bk) => match parse_loc(ba[1]) {
                        Err(e) => Err(why("Can't parse wait loc '"@, ba[1], e)),
                        Ok(loc) => Ok(Kid::Wait(bk as Bk, loc)),
                    },
                }
            }
        },
        Mark::Need => {
            let op = split(rest, ';');
            if op.len() != 2 {
                Err(what_in("Can't parse the needed pair '"@, rest))
            } else {
                match parse_ob(op[0]) {
                    Err(e) => Err(why("Can't parse need obj '"@, op[0], int_error_text(e))),
                    Ok(ob) => match parse_bk(tail_from(op[1], 1)) {
                        Err(e) => Err(
                            why("Can't parse need psi '"@, tail_from(op[1], 1), int_error_text(e)),
                        ),
                        Ok(bk) => Ok(Kid::Need(ob as Ob, bk as Bk)),
                    },
                }
            }
        },
    }
}

/// One slot with its state. The last mark in the text parts the slot from
/// the state; a closing bracket at the end counts for nothing.
#[verifier::opaque]
pub open spec fn parse_slot(p: Seq<char>) -> Result<(Loc, Kid), Seq<char>> {
    let at = last_mark(p, p.len() as int);
    if at < 0 {
        Err(what_in("Can't parse kid pattern in '"@, p))
    } else {
        let m = mark_at(p, at)->Some_0;
        let rest = unclosed(tail_from(p, at + mark_text(m).len()));
        match parse_kid(m, rest) {
            Err(e) => Err(e),
            Ok(kid) => match parse_loc(p.subrange(0, at)) {
                Err(e) => Err(why("Can't parse location '"@, p.subrange(0, at), e)),
                Ok(loc) => Ok((loc, kid)),
            },
        }
    }
}

/// The slots read one after the other; the first that fails decides the
/// message, and a slot read twice holds what was read last.
pub open spec fn parse_slots(parts: Seq<Seq<char>>, acc: Map<Loc, Kid>) -> Result<
    Map<Loc, Kid>,
    Seq<char>,
>
    decreases parts.len(),
{
    if parts.len() == 0 {
        Ok(acc)
    } else {
        match parse_slots(parts.drop_last(), acc) {
            Err(e) => Err(e),
            Ok(m) => match parse_slot(parts.last()) {
                Err(e) => Err(e),
                Ok(e) => Ok(m.insert(e.0, e.1)),
            },
        }
    }
}

/// The basket that a text denotes. What stands before the first `[` and
/// after the last `]` is passed over. Between them stand entries with commas
/// between: the object's number behind one character, the parent's behind
/// three, then the slots.
pub open spec fn parse_basket(s: Seq<char>) -> Result<BasketView, Seq<char>> {
    let a = index_of(s, '[');
    let b = last_index_of(s, ']');
    if !(a < b) {
        Err(what_in("Can't parse the basket: '"@, s))
    } else {
        let parts = cells(trim(s.subrange(a + 1, b)), ',');
        match parse_ob(tail_from(parts[0], 1)) {
            Err(e) => Err(why("Can't parse the v part '"@, tail_from(parts[0], 1), int_error_text(e))),
            Ok(ob) => if parts.len() < 2 {
                Err(what_in("Missing psi part in basket '"@, s))
            } else {
                match parse_bk(tail_from(parts[1], 3)) {
                    Err(e) => Err(
                        why(
                            "Can't parse the psi part '"@,
                            tail_from(parts[1], 3),
                            int_error_text(e),
                        ),
                    ),
                    Ok(psi) => match parse_slots(
                        parts.subrange(2, parts.len() as int),
                        Map::empty(),
                    ) {
                        Err(e) => Err(e),
                        Ok(kids) => Ok(BasketView { ob: ob as Ob, psi: psi as Bk, kids }),
                    },
                }
            },
        }
    }
}

/// The slots of a printed basket are those of the basket, each once, in
/// ascending order of their texts.
pub proof fn lemma_basket_slots_ordered(b: BasketView)
    ensures
        ({
            let parts = ordered(b.kids).map_values(|e: (Loc, Kid)| kid_part(e));
            &&& vstd::relations::sorted_by(sorted(parts), crate::text::text_order())
            &&& sorted(parts).to_multiset() == parts.to_multiset()
            &&& basket_parts(b).subrange(2, basket_parts(b).len() as int) == sorted(parts)
        }),
{
    let parts = ordered(b.kids).map_values(|e: (Loc, Kid)| kid_part(e));
    crate::text::lemma_text_order_total();
    parts.lemma_sort_by_ensures(crate::text::text_order());
    assert(basket_parts(b).subrange(2, basket_parts(b).len() as int) =~= sorted(parts));
}

/// Two states put under different slots give the same text whichever is
/// put first.
pub proof fn lemma_basket_insertion_order(b: BasketView, l1: Loc, k1: Kid, l2: Loc, k2: Kid)
    requires
        l1 != l2,
    ensures
        basket_text(BasketView { kids: b.kids.insert(l1, k1).insert(l2, k2), ..b })
            == basket_text(BasketView { kids: b.kids.insert(l2, k2).insert(l1, k1), ..b }),
{
    assert(b.kids.insert(l1, k1).insert(l2, k2) =~= b.kids.insert(l2, k2).insert(l1, k1));
}

/// Once a slot fails, the slots after it change nothing.
pub proof fn lemma_slots_fail(parts: Seq<Seq<char>>, acc: Map<Loc, Kid>, i: int)
    requires
        0 <= i <= parts.len(),
        parse_slots(parts.subrange(0, i), acc) is Err,
    ensures
        parse_slots(parts, acc) == parse_slots(parts.subrange(0, i), acc),
    decreases parts.len() - i,
{
    if i == parts.len() {
        assert(parts.subrange(0, i) == parts);
    } else {
        assert(parts.drop_last().subrange(0, i) == parts.subrange(0, i));
        lemma_slots_fail(parts.drop_last(), acc, i);
    }
}

/// The characters of `s` from place `n` on.
fn from_place(s: &Vec<char>, n: usize) -> (r: Vec<char>)
    ensures
        r@ == tail_from(s@, n as int),
{
    if n <= s.len() {
        slice(s, n, s.len())
    } else {
        Vec::new()
    }
}

/// A message: what failed, the text in quotes, and why.
fn because(what: &str, text: &Vec<char>, e: &Vec<char>) -> (r: Vec<char>)
    ensures
        r@ == why(what@, text@, e@),
{
    let mut m = failure(what, text, "': ", "");
    proof {
        reveal_strlit("");
    }
    append(&mut m, e);
    assert(m@ =~= why(what@, text@, e@));
    m
}

/// A message: what failed, the text in quotes, and the kind of failure.
fn because_int(what: &str, text: &Vec<char>, e: IntError) -> (r: Vec<char>)
    ensures
        r@ == why(what@, text@, int_error_text(e)),
{
    let v = chars_of(int_error_message(e));
    because(what, text, &v)
}

/// A message: what failed and the text in quotes.
fn failed(what: &str, text: &Vec<char>) -> (r: Vec<char>)
    ensures
        r@ == what_in(what@, text@),
{
    proof {
        reveal_strlit("");
    }
    let m = failure(what, text, "'", "");
    assert(m@ =~= what_in(what@, text@));
    m
}

/// Reads an object's number.
fn read_ob(s: &Vec<char>) -> (r: Result<Ob, IntError>)
    ensures
        match r {
            Ok(v) => parse_ob(s@) == Ok::<int, IntError>(v as int),
            Err(e) => parse_ob(s@) == Err::<int, IntError>(e),
        },
{
    match read_int(s, false, false, 0, usize::MAX as i128) {
        Ok(v) => Ok(v as usize),
        Err(e) => Err(e),
    }
}

/// Reads a basket's number.
fn read_bk(s: &Vec<char>) -> (r: Result<Bk, IntError>)
    ensures
        match r {
            Ok(v) => parse_bk(s@) == Ok::<int, IntError>(v as int),
            Err(e) => parse_bk(s@) == Err::<int, IntError>(e),
        },
{
    match read_int(s, false, true, isize::MIN as i128, isize::MAX as i128) {
        Ok(v) => Ok(v as isize),
        Err(e) => Err(e),
    }
}

/// The mark that starts at place `i`, if one does.
fn mark_here(p: &Vec<char>, i: usize) -> (r: Option<Mark>)
    requires
        i < p.len(),
    ensures
        r == mark_at(p@, i as int),
{
    let n = p.len();
    let c = p[i];
    if n - i >= 3 && c == '⇶' && p[i + 1] == '0' && p[i + 2] == 'x' {
        Some(Mark::Data)
    } else if n - i >= 2 && c == '⇉' && p[i + 1] == 'β' {
        Some(Mark::Wait)
    } else if n - i >= 3 && c == '→' && p[i + 1] == '(' && p[i + 2] == 'ν' {
        Some(Mark::Need)
    } else if n - i >= 2 && c == '→' && p[i + 1] == '∅' {
        Some(Mark::Empt)
    } else if n - i >= 2 && c == '→' && p[i + 1] == '?' {
        Some(Mark::Rqtd)
    } else {
        None
    }
}

/// The length of a mark.
fn mark_width(m: Mark) -> (r: usize)
    ensures
        r == mark_text(m).len(),
{
    match m {
        Mark::Data => 3,
        Mark::Wait => 2,
        Mark::Need => 3,
        Mark::Empt => 2,
        Mark::Rqtd => 2,
    }
}

/// The last place at which a mark starts, with the mark.
fn last_mark_of(p: &Vec<char>) -> (r: Option<(usize, Mark)>)
    ensures
        match r {
            None => last_mark(p@, p@.len() as int) < 0,
            Some((at, m)) => at + mark_text(m).len() <= p@.len() && last_mark(
                p@,
                p@.len() as int,
            ) == at && mark_at(p@, at as int) == Some(m),
        },
{
    let mut i: usize = p.len();
    let mut found: Option<Mark> = None;
    while i > 0 && found.is_none()
        invariant
            i <= p.len(),
            found is None ==> last_mark(p@, p@.len() as int) == last_mark(p@, i as int),
            found is Some ==> i < p.len() && last_mark(p@, p@.len() as int) == i && mark_at(
                p@,
                i as int,
            ) == found,
        decreases i,
    {
        found = mark_here(p, i - 1);
        i -= 1;
    }
    match found {
        None => {
            assert(last_mark(p@, 0) == -1);
            None
        },
        Some(m) => Some((i, m)),
    }
}

impl Kid {
    /// Appends the text of the state.
    pub fn write(&self, out: &mut Vec<char>)
        ensures
            final(out)@ == old(out)@ + kid_text(*self),
    {
        match self {
            Kid::Empt => {
                out.push('→');
                out.push('∅');
                assert(out@ =~= old(out)@ + kid_text(*self));
            },
            Kid::Rqtd => {
                out.push('→');
                out.push('?');
                assert(out@ =~= old(out)@ + kid_text(*self));
            },
            Kid::Need(ob, bk) => {
                out.push('→');
                out.push('(');
                out.push('ν');
                push_dec(out, *ob as u64);
                out.push(';');
                out.push('β');
                push_int(out, *bk as i64);
                out.push(')');
                assert(out@ =~= old(out)@ + kid_text(*self));
            },
            Kid::Wait(bk, loc) => {
                out.push('⇉');
                out.push('β');
                push_int(out, *bk as i64);
                out.push('.');
                loc.write(out);
                assert(out@ =~= old(out)@ + kid_text(*self));
            },
            Kid::Dtzd(d) => {
                out.push('⇶');
                out.push('0');
                out.push('x');
                push_hex4(out, *d);
                assert(out@ =~= old(out)@ + kid_text(*self));
            },
        }
    }

    /// The text of the state.
    pub fn to_string(&self) -> (r: String)
        ensures
            r@ == kid_text(*self),
    {
        let mut out: Vec<char> = Vec::new();
        self.write(&mut out);
        string_of(&out)
    }

    /// Reads the state that stands behind a mark.
    fn read(m: Mark, rest: &Vec<char>) -> (r: Result<Kid, Vec<char>>)
        ensures
            outcome_chars(r) == parse_kid(m, rest@),
    {
        proof {
            reveal(parse_kid);
        }
        match m {
            Mark::Empt => Ok(Kid::Empt),
            Mark::Rqtd => Ok(Kid::Rqtd),
            Mark::Data => match read_data(rest) {
                Err(e) => Err(because_int("Can't parse data '", rest, e)),
                Ok(d) => Ok(Kid::Dtzd(d)),
            },
            Mark::Wait => {
                let ba = pieces(rest, '.');
                if ba.len() != 2 {
                    return Err(failed("Invalid wait format in '", rest));
                }
                assert(rows(ba@)[0] == ba@[0]@);
                assert(rows(ba@)[1] == ba@[1]@);
                match read_bk(&ba[0]) {
                    Err(e) => Err(because_int("Can't parse wait number '", &ba[0], e)),
                    Ok(bk) => match Loc::read(&ba[1]) {
                        Err(e) => Err(because("Can't parse wait loc '", &ba[1], &e)),
                        Ok(loc) => Ok(Kid::Wait(bk, loc)),
                    },
                }
            },
            Mark::Need => {
                let op = pieces(rest, ';');
                if op.len() != 2 {
                    return Err(failed("Can't parse the needed pair '", rest));
                }
                assert(rows(op@)[0] == op@[0]@);
                assert(rows(op@)[1] == op@[1]@);
                let psi = from_place(&op[1], 1);
                match read_ob(&op[0]) {
                    Err(e) => Err(because_int("Can't parse need obj '", &op[0], e)),
                    Ok(ob) => match read_bk(&psi) {
                        Err(e) => Err(because_int("Can't parse need psi '", &psi, e)),
                        Ok(bk) => Ok(Kid::Need(ob, bk)),
                    },
                }
            },
        }
    }
}

impl Basket {
    /// The basket that stands for none.
    pub fn empty() -> (r: Basket)
        ensures
            r@ == (BasketView { ob: 0, psi: -1isize, kids: Map::empty() }),
    {
        Basket { ob: 0, psi: -1, kids: LocMap::new() }
    }

    /// The activation of `ob` under the parent `psi`, without slots.
    pub fn start(ob: Ob, psi: Bk) -> (r: Basket)
        ensures
            r@ == (BasketView { ob, psi, kids: Map::empty() }),
    {
        Basket { ob, psi, kids: LocMap::new() }
    }

    /// Whether the basket stands for none.
    pub fn is_empty(&self) -> (r: bool)
        ensures
            r == (self@.psi < 0),
    {
        self.psi < 0
    }

    /// Shows that the slots of the view are listable. Nothing is computed.
    pub fn listed(&self)
        ensures
            crate::locmap::listable(self@.kids),
    {
        self.kids.listed();
    }

    /// Puts the state `kid` under the slot `loc`, in place of what was there.
    pub fn put(&mut self, loc: Loc, kid: Kid)
        ensures
            final(self)@ == (BasketView { kids: old(self)@.kids.insert(loc, kid), ..old(self)@ }),
    {
        self.kids.insert(loc, kid);
    }

    /// The canonical text.
    pub fn to_string(&self) -> (r: String)
        ensures
            r@ == basket_text(self@),
    {
        let mut slots: Vec<String> = Vec::new();
        let n = self.kids.len();
        let ghost all = self.kids.entries();
        let ghost tail = all.map_values(|e: (Loc, Kid)| kid_part(e));
        let mut i: usize = 0;
        while i < n
            invariant
                i <= n,
                n == all.len(),
                all == self.kids.entries(),
                all == ordered(self.kids@),
                tail == all.map_values(|e: (Loc, Kid)| kid_part(e)),
                texts(slots@) == tail.subrange(0, i as int),
            decreases n - i,
        {
            let (k, v) = self.kids.entry(i);
            let mut t: Vec<char> = Vec::new();
            k.write(&mut t);
            v.write(&mut t);
            let ghost before = texts(slots@);
            slots.push(string_of(&t));
            proof {
                assert(t@ =~= kid_part(all[i as int]));
                assert(texts(slots@) =~= before.push(t@));
                assert(texts(slots@) =~= tail.subrange(0, i + 1));
            }
            i += 1;
        }
        assert(tail.subrange(0, n as int) =~= tail);
        let slots = sort_strings(slots);
        let mut parts: Vec<String> = Vec::new();
        let mut t: Vec<char> = Vec::new();
        t.push('ν');
        push_dec(&mut t, self.ob as u64);
        parts.push(string_of(&t));
        assert(t@ =~= ob_part(self.ob));
        let mut u: Vec<char> = Vec::new();
        u.push('ξ');
        u.push(':');
        u.push('β');
        push_int(&mut u, self.psi as i64);
        parts.push(string_of(&u));
        assert(u@ =~= psi_part(self.psi));
        let ghost head = texts(parts@);
        assert(head =~= seq![ob_part(self.ob), psi_part(self.psi)]);
        let mut j: usize = 0;
        while j < slots.len()
            invariant
                j <= slots@.len(),
                texts(parts@) == head + texts(slots@).subrange(0, j as int),
            decreases slots@.len() - j,
        {
            let ghost before = texts(parts@);
            parts.push(slots[j].clone());
            proof {
                assert(texts(parts@) =~= before.push(slots@[j as int]@));
                assert(texts(parts@) =~= head + texts(slots@).subrange(0, j + 1));
            }
            j += 1;
        }
        assert(texts(slots@).subrange(0, slots@.len() as int) =~= texts(slots@));
        assert(texts(parts@) =~= basket_parts(self@));
        let body = joined(&parts, ", ");
        proof {
            reveal_strlit(", ");
            assert(", "@ =~= seq![',', ' ']);
        }
        let mut out: Vec<char> = Vec::new();
        out.push('[');
        append_str(&mut out, body.as_str());
        out.push(']');
        assert(out@ =~= basket_text(self@));
        string_of(&out)
    }

    /// Reads one slot with its state.
    fn read_slot(p: &Vec<char>) -> (r: Result<(Loc, Kid), Vec<char>>)
        ensures
            outcome_chars(r) == parse_slot(p@),
    {
        proof {
            reveal(parse_slot);
        }
        let (at, m) = match last_mark_of(p) {
            None => {
                return Err(failed("Can't parse kid pattern in '", p));
            },
            Some(found) => found,
        };
        let width: usize = mark_width(m);
        let n = p.len();
        assert(at + width <= n);
        let tail = from_place(p, at + width);
        let rest = if tail.len() > 0 && tail[tail.len() - 1] == ')' {
            slice(&tail, 0, tail.len() - 1)
        } else {
            tail
        };
        assert(rest@ =~= unclosed(tail_from(p@, at + width)));
        let name = slice(p, 0, at);
        match Kid::read(m, &rest) {
            Err(e) => Err(e),
            Ok(kid) => match Loc::read(&name) {
                Err(e) => Err(because("Can't parse location '", &name, &e)),
                Ok(loc) => Ok((loc, kid)),
            },
        }
    }

    /// Reads a basket from characters.
    pub fn read(s: &Vec<char>) -> (r: Result<Basket, Vec<char>>)
        ensures
            viewed(outcome_chars(r)) == parse_basket(s@),
    {
        let a = find(s, '[', 0);
        let found = find_last(s, ']');
        proof {
            assert(s@.subrange(0, s@.len() as int) == s@);
            lemma_index_of_bounds(s@, '[');
            lemma_last_index_of_bounds(s@, ']');
        }
        let b = match found {
            Some(b) => b,
            None => {
                return Err(failed("Can't parse the basket: '", s));
            },
        };
        if !(a < b) {
            return Err(failed("Can't parse the basket: '", s));
        }
        let inner = trimmed(&slice(s, a + 1, b));
        let parts = cells_of(&inner, ',');
        let ghost all = cells(inner@, ',');
        proof {
            crate::locator::lemma_split_some(inner@, ',');
        }
        assert(all[0] == parts@[0]@);
        let ob_text = from_place(&parts[0], 1);
        let ob = match read_ob(&ob_text) {
            Err(e) => {
                return Err(because_int("Can't parse the v part '", &ob_text, e));
            },
            Ok(ob) => ob,
        };
        if parts.len() < 2 {
            return Err(failed("Missing psi part in basket '", s));
        }
        assert(all[1] == parts@[1]@);
        let psi_text = from_place(&parts[1], 3);
        let psi = match read_bk(&psi_text) {
            Err(e) => {
                return Err(because_int("Can't parse the psi part '", &psi_text, e));
            },
            Ok(psi) => psi,
        };
        let mut bsk = Basket::start(ob, psi);
        let ghost slots = all.subrange(2, all.len() as int);
        let ghost none = Map::<Loc, Kid>::empty();
        assert(slots.subrange(0, 0) =~= Seq::<Seq<char>>::empty());
        let mut i: usize = 2;
        while i < parts.len()
            invariant
                2 <= i <= parts@.len(),
                all == rows(parts@),
                slots == all.subrange(2, all.len() as int),
                bsk.ob == ob,
                bsk.psi == psi,
                parse_slots(slots.subrange(0, i - 2), none) == Ok::<Map<Loc, Kid>, Seq<char>>(
                    bsk.kids@,
                ),
                parse_basket(s@) == match parse_slots(slots, none) {
                    Err(e) => Err(e),
                    Ok(kids) => Ok(BasketView { ob, psi, kids }),
                },
            decreases parts@.len() - i,
        {
            let ghost head = slots.subrange(0, i - 2);
            let ghost next = slots.subrange(0, i - 1);
            assert(next.drop_last() == head);
            assert(next.last() == parts@[i as int]@);
            match Basket::read_slot(&parts[i]) {
                Ok((loc, kid)) => {
                    bsk.put(loc, kid);
                },
                Err(e) => {
                    proof {
                        assert(parse_slots(next, none) == Err::<Map<Loc, Kid>, Seq<char>>(e@));
                        lemma_slots_fail(slots, none, i - 1);
                    }
                    return Err(e);
                },
            }
            i += 1;
        }
        assert(slots.subrange(0, slots.len() as int) == slots);
        Ok(bsk)
    }

    /// Reads a basket from its text.
    pub fn from_str(s: &str) -> (r: Result<Basket, String>)
        ensures
            viewed(outcome(r)) == parse_basket(s@),
    {
        let v = chars_of(s);
        match Basket::read(&v) {
            Ok(b) => Ok(b),
            Err(e) => Err(string_of(&e)),
        }
    }
}

impl Basket {
    /// Reads a basket from its text; what is said of a failure is kept in
    /// `Error::BasketFromStrFailed`.
    pub fn parse(s: &str) -> (r: Result<Basket, Error>)
        ensures
            match r {
                Ok(b) => parse_basket(s@) == Ok::<BasketView, Seq<char>>(b@),
                Err(Error::BasketFromStrFailed(m)) => parse_basket(s@) == Err::<
                    BasketView,
                    Seq<char>,
                >(m@),
                Err(_) => false,
            },
    {
        match Basket::from_str(s) {
            Ok(b) => Ok(b),
            Err(m) => Err(Error::BasketFromStrFailed(m)),
        }
    }
}

impl std::str::FromStr for Basket {
    type Err = String;

    /// Reads a basket from its text, as `Basket::from_str` does.
    fn from_str(s: &str) -> (r: Result<Basket, String>)
        ensures
            viewed(outcome(r)) == parse_basket(s@),
    {
        Basket::from_str(s)
    }
}

} // verus!
