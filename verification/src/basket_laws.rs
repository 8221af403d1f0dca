//! What is written of a basket reads back as the basket.

use crate::basket::{
    basket_parts, basket_text, kid_part, kid_text, last_mark, mark_at, mark_text, ob_part,
    parse_basket, parse_kid, parse_slot, parse_slots, psi_part, tail_from, unclosed, BasketView,
    Kid, Mark,
};
use crate::data::Data;
use crate::loc::{is_loc_char, lemma_loc_round_trip, lemma_loc_text_chars, loc_text, Loc};
use crate::locmap::{has_key, lemma_listable, listable, ordered, place_of};
use crate::number::{
    dec, dec_int, hex4, lemma_dec_int_chars, lemma_dec_is_number, lemma_hex4_chars, lemma_parse_dec,
    lemma_parse_dec_int, lemma_parse_hex4,
};
use crate::text::{
    blank, cells, is_space, join, lacks, last_index_of, lemma_cells_join, lemma_index_of_is,
    lemma_join_ends, lemma_last_index_of_bounds, lemma_split_two, lemma_text_order_total,
    lemma_trim_tight, sorted, text_order, tight,
};
use vstd::prelude::*;

verus! {

/// A character at which a mark may start.
pub open spec fn is_mark_start(c: char) -> bool {
    c == '⇶' || c == '⇉' || c == '→'
}

/// A character that is neither white space nor a comma nor the start of a
/// mark.
pub open spec fn plain(c: char) -> bool {
    !is_space(c) && c != ',' && !is_mark_start(c)
}

/// Every character of `s` is plain.
pub open spec fn all_plain(s: Seq<char>) -> bool {
    forall|i: int| 0 <= i < s.len() ==> plain(#[trigger] s[i])
}

/// The mark that the text of a state begins with.
pub open spec fn mark_of(k: Kid) -> Mark {
    match k {
        Kid::Empt => Mark::Empt,
        Kid::Rqtd => Mark::Rqtd,
        Kid::Need(_, _) => Mark::Need,
        Kid::Wait(_, _) => Mark::Wait,
        Kid::Dtzd(_) => Mark::Data,
    }
}

/// What follows the mark in the text of a state.
pub open spec fn rest_of(k: Kid) -> Seq<char> {
    match k {
        Kid::Empt => Seq::empty(),
        Kid::Rqtd => Seq::empty(),
        Kid::Need(ob, bk) => dec(ob as nat) + seq![';', 'β'] + dec_int(bk as int) + seq![')'],
        Kid::Wait(bk, loc) => dec_int(bk as int) + seq!['.'] + loc_text(loc),
        Kid::Dtzd(d) => hex4(d as int),
    }
}

/// A state whose text reads back: one that waits waits for a canonical slot.
pub open spec fn kid_printable(k: Kid) -> bool {
    match k {
        Kid::Wait(_, l) => l.canonical(),
        _ => true,
    }
}

/// A basket whose text reads back: the view of a `Basket` with canonical
/// slots.
pub open spec fn basket_printable(b: BasketView) -> bool {
    &&& listable(b.kids)
    &&& forall|l: Loc| #[trigger]
        b.kids.dom().contains(l) ==> l.canonical() && kid_printable(b.kids[l])
}

/// The text of a slot is plain.
pub proof fn lemma_loc_text_plain(l: Loc)
    ensures
        all_plain(loc_text(l)),
        loc_text(l).len() >= 1,
        lacks(loc_text(l), '.'),
        lacks(loc_text(l), ';'),
{
    lemma_loc_text_chars(l);
    assert forall|i: int| 0 <= i < loc_text(l).len() implies plain(#[trigger] loc_text(l)[i]) by {
        assert(is_loc_char(loc_text(l)[i]));
    }
    assert forall|i: int| 0 <= i < loc_text(l).len() implies loc_text(l)[i] != '.' && loc_text(
        l,
    )[i] != ';' by {
        assert(is_loc_char(loc_text(l)[i]));
    }
}

/// The text of a state is its mark and its rest; the rest is plain.
pub proof fn lemma_kid_text_shape(k: Kid)
    ensures
        kid_text(k) == mark_text(mark_of(k)) + rest_of(k),
        all_plain(rest_of(k)),
        rest_of(k).len() > 0 ==> !is_space(rest_of(k).last()),
{
    let r = rest_of(k);
    match k {
        Kid::Need(ob, bk) => {
            lemma_dec_is_number(ob as nat);
            lemma_dec_int_chars(bk as int);
            let a = dec(ob as nat);
            let b = dec_int(bk as int);
            assert(kid_text(k) =~= mark_text(mark_of(k)) + r);
            assert forall|i: int| 0 <= i < r.len() implies plain(#[trigger] r[i]) by {
                if i < a.len() {
                    assert(r[i] == a[i]);
                } else if i < a.len() + 2 {
                } else if i < a.len() + 2 + b.len() {
                    assert(r[i] == b[i - a.len() - 2]);
                }
            }
        },
        Kid::Wait(bk, loc) => {
            lemma_dec_int_chars(bk as int);
            lemma_loc_text_plain(loc);
            let a = dec_int(bk as int);
            let b = loc_text(loc);
            assert(kid_text(k) =~= mark_text(mark_of(k)) + r);
            assert forall|i: int| 0 <= i < r.len() implies plain(#[trigger] r[i]) by {
                if i < a.len() {
                    assert(r[i] == a[i]);
                } else if i > a.len() {
                    assert(r[i] == b[i - a.len() - 1]);
                }
            }
            assert(r.last() == b.last());
        },
        Kid::Dtzd(d) => {
            lemma_hex4_chars(d as int);
            assert(kid_text(k) =~= mark_text(mark_of(k)) + r);
        },
        _ => {
            assert(kid_text(k) =~= mark_text(mark_of(k)) + r);
        },
    }
}

/// What follows the mark of a state, without its closing bracket, reads
/// back as the state.
#[verifier::rlimit(40)]
pub proof fn lemma_kid_round_trip(k: Kid)
    requires
        kid_printable(k),
    ensures
        parse_kid(mark_of(k), unclosed(rest_of(k))) == Ok::<Kid, Seq<char>>(k),
{
    reveal(parse_kid);
    let r = rest_of(k);
    match k {
        Kid::Need(ob, bk) => {
            let a = dec(ob as nat);
            let b = dec_int(bk as int);
            lemma_dec_is_number(ob as nat);
            lemma_dec_int_chars(bk as int);
            let u = a + seq![';'] + seq!['β'] + b;
            assert(r.drop_last() =~= u);
            assert(unclosed(r) == u);
            assert(lacks(a, ';'));
            assert(lacks(b, ';'));
            assert(lacks(seq!['β'], ';'));
            lemma_split_two(a, b, ';', seq!['β']);
            let q = seq!['β'] + b;
            assert(tail_from(q, 1) =~= b);
            lemma_parse_dec(ob as nat, false, 0, usize::MAX as int);
            lemma_parse_dec_int(bk as int, isize::MIN as int, isize::MAX as int);
        },
        Kid::Wait(bk, loc) => {
            let a = dec_int(bk as int);
            let b = loc_text(loc);
            lemma_dec_int_chars(bk as int);
            lemma_loc_text_plain(loc);
            lemma_loc_text_chars(loc);
            assert(r.last() == b.last());
            assert(is_loc_char(b.last()));
            assert(unclosed(r) == r);
            let e = Seq::<char>::empty();
            assert(lacks(a, '.'));
            lemma_split_two(a, b, '.', e);
            assert(a + seq!['.'] + e + b =~= r);
            assert(e + b =~= b);
            lemma_parse_dec_int(bk as int, isize::MIN as int, isize::MAX as int);
            lemma_loc_round_trip(loc);
        },
        Kid::Dtzd(d) => {
            lemma_hex4_chars(d as int);
            assert(unclosed(r) == r);
            lemma_parse_hex4(d as int);
        },
        _ => {},
    }
}

/// The last mark is the one behind which no mark starts.
pub proof fn lemma_last_mark(p: Seq<char>, at: int, n: int)
    requires
        0 <= at < n <= p.len(),
        mark_at(p, at) is Some,
        forall|i: int| at < i < p.len() ==> !is_mark_start(#[trigger] p[i]),
    ensures
        last_mark(p, n) == at,
    decreases n,
{
    if n - 1 > at {
        assert(!is_mark_start(p[n - 1]));
        lemma_last_mark(p, at, n - 1);
    }
}

/// The text of a slot with its state falls into the slot, the mark and
/// the rest at the last mark; it is tight and holds no comma.
#[verifier::rlimit(40)]
pub proof fn lemma_slot_shape(e: (Loc, Kid))
    ensures
        last_mark(kid_part(e), kid_part(e).len() as int) == loc_text(e.0).len(),
        mark_at(kid_part(e), loc_text(e.0).len() as int) == Some(mark_of(e.1)),
        tail_from(kid_part(e), (loc_text(e.0).len() + mark_text(mark_of(e.1)).len()) as int)
            == rest_of(e.1),
        kid_part(e).subrange(0, loc_text(e.0).len() as int) == loc_text(e.0),
        tight(kid_part(e)),
        lacks(kid_part(e), ','),
{
    let name = loc_text(e.0);
    let m = mark_of(e.1);
    let mark = mark_text(m);
    let r = rest_of(e.1);
    let p = kid_part(e);
    lemma_loc_text_plain(e.0);
    lemma_kid_text_shape(e.1);
    assert(p =~= name + mark + r);
    let at = name.len() as int;
    assert forall|i: int| at < i < p.len() implies !is_mark_start(#[trigger] p[i]) by {
        if i >= at + mark.len() {
            assert(p[i] == r[i - at - mark.len()]);
            assert(plain(r[i - at - mark.len()]));
        } else {
            assert(p[i] == mark[i - at]);
        }
    }
    assert(p[at] == mark[0]);
    assert(p[at + 1] == mark[1]);
    if mark.len() > 2 {
        assert(p[at + 2] == mark[2]);
    }
    assert(mark_at(p, at) == Some(m));
    lemma_last_mark(p, at, p.len() as int);
    assert(tail_from(p, at + mark.len()) =~= r);
    assert(p.subrange(0, at) =~= name);
    assert forall|i: int| 0 <= i < p.len() implies !is_space(#[trigger] p[i]) && p[i] != ',' by {
        if i < at {
            assert(p[i] == name[i]);
            assert(plain(name[i]));
        } else if i < at + mark.len() {
            assert(p[i] == mark[i - at]);
        } else {
            assert(p[i] == r[i - at - mark.len()]);
            assert(plain(r[i - at - mark.len()]));
        }
    }
}

/// A canonical slot with its state, written and read, is the same slot with
/// the same state.
pub proof fn lemma_slot_round_trip(e: (Loc, Kid))
    requires
        e.0.canonical(),
        kid_printable(e.1),
    ensures
        parse_slot(kid_part(e)) == Ok::<(Loc, Kid), Seq<char>>(e),
{
    reveal(parse_slot);
    lemma_slot_shape(e);
    lemma_kid_round_trip(e.1);
    lemma_loc_round_trip(e.0);
}

/// The text `q` is that of a slot of the basket.
pub open spec fn slot_of(q: Seq<char>, kids: Map<Loc, Kid>) -> bool {
    exists|l: Loc| kids.dom().contains(l) && q == kid_part((l, kids[l]))
}

/// Texts of slots of a basket, read one after the other into slots of the
/// same basket, give slots of that basket, and each slot that was read is
/// among them.
pub proof fn lemma_slots_round_trip(qs: Seq<Seq<char>>, kids: Map<Loc, Kid>, acc: Map<Loc, Kid>)
    requires
        forall|l: Loc| #[trigger]
            kids.dom().contains(l) ==> l.canonical() && kid_printable(kids[l]),
        forall|k: int| 0 <= k < qs.len() ==> slot_of(#[trigger] qs[k], kids),
        acc.submap_of(kids),
    ensures
        parse_slots(qs, acc) is Ok,
        parse_slots(qs, acc)->Ok_0.submap_of(kids),
        forall|k: int|
            0 <= k < qs.len() ==> parse_slot(#[trigger] qs[k]) is Ok && parse_slots(
                qs,
                acc,
            )->Ok_0.dom().contains(parse_slot(qs[k])->Ok_0.0),
    decreases qs.len(),
{
    if qs.len() > 0 {
        let head = qs.drop_last();
        assert forall|k: int| 0 <= k < head.len() implies slot_of(#[trigger] head[k], kids) by {
            assert(head[k] == qs[k]);
        }
        lemma_slots_round_trip(head, kids, acc);
        let m = parse_slots(head, acc)->Ok_0;
        let q = qs.last();
        assert(slot_of(q, kids));
        let l = choose|l: Loc| kids.dom().contains(l) && q == kid_part((l, kids[l]));
        lemma_slot_round_trip((l, kids[l]));
        let got = m.insert(l, kids[l]);
        assert(parse_slots(qs, acc) == Ok::<Map<Loc, Kid>, Seq<char>>(got));
        assert forall|k: int| 0 <= k < qs.len() implies parse_slot(#[trigger] qs[k]) is Ok
            && got.dom().contains(parse_slot(qs[k])->Ok_0.0) by {
            if k < head.len() {
                assert(head[k] == qs[k]);
            }
        }
    }
}

/// A printable basket, written and read, is the same basket: the text that
/// is printed of it parses, and prints again as it is.
#[verifier::rlimit(40)]
pub proof fn lemma_basket_round_trip(b: BasketView)
    requires
        basket_printable(b),
    ensures
        parse_basket(basket_text(b)) == Ok::<BasketView, Seq<char>>(b),
{
    let entries = ordered(b.kids);
    let raw = entries.map_values(|e: (Loc, Kid)| kid_part(e));
    let slots = sorted(raw);
    let parts = basket_parts(b);
    let sep = seq![',', ' '];
    let body = join(parts, sep);
    let t = basket_text(b);
    lemma_listable(b.kids);
    lemma_text_order_total();
    raw.lemma_sort_by_ensures(text_order());
    broadcast use vstd::seq_lib::group_to_multiset_ensures;

    // Every slot that is printed is a slot of the basket.
    assert forall|k: int| 0 <= k < slots.len() implies slot_of(#[trigger] slots[k], b.kids) by {
        assert(slots.contains(slots[k]));
        assert(slots.to_multiset().count(slots[k]) > 0);
        assert(raw.contains(slots[k]));
        let j = choose|j: int| 0 <= j < raw.len() && raw[j] == slots[k];
        assert(b.kids.dom().contains(entries[j].0));
        assert(raw[j] == kid_part((entries[j].0, b.kids[entries[j].0])));
    }
    // The parts are tight and hold no comma.
    lemma_dec_is_number(b.ob as nat);
    lemma_dec_int_chars(b.psi as int);
    assert(parts[0] == ob_part(b.ob));
    assert(parts[1] == psi_part(b.psi));
    assert forall|i: int| 0 <= i < parts.len() implies lacks(#[trigger] parts[i], ',') && tight(
        parts[i],
    ) by {
        if i == 0 {
            let d = dec(b.ob as nat);
            assert forall|k: int| 0 <= k < parts[0].len() implies parts[0][k] != ',' by {
                if k > 0 {
                    assert(parts[0][k] == d[k - 1]);
                }
            }
            assert(parts[0].last() == d.last());
        } else if i == 1 {
            let d = dec_int(b.psi as int);
            assert forall|k: int| 0 <= k < parts[1].len() implies parts[1][k] != ',' by {
                if k > 2 {
                    assert(parts[1][k] == d[k - 3]);
                }
            }
            assert(parts[1].last() == d.last());
        } else {
            assert(parts[i] == slots[i - 2]);
            assert(slot_of(slots[i - 2], b.kids));
            let l = choose|l: Loc|
                b.kids.dom().contains(l) && slots[i - 2] == kid_part((l, b.kids[l]));
            lemma_slot_shape((l, b.kids[l]));
        }
    }
    // The brackets are found, and between them the parts.
    assert forall|i: int| 0 <= i < parts.len() implies (#[trigger] parts[i]).len() > 0 by {
        assert(tight(parts[i]));
    }
    lemma_join_ends(parts, sep);
    assert(tight(parts[0]));
    assert(tight(parts.last()));
    assert(t[0] == '[');
    lemma_index_of_is(t, '[', 0);
    lemma_last_index_of_bounds(t, ']');
    assert(t.last() == ']');
    assert(last_index_of(t, ']') == t.len() - 1);
    assert(t.subrange(1, t.len() - 1) =~= body);
    lemma_trim_tight(body);
    let e = Seq::<char>::empty();
    assert(blank(e));
    assert(blank(seq![' ']));
    lemma_cells_join(parts, ',', e, seq![' ']);
    assert(seq![','] + seq![' '] =~= sep);
    assert(e + body =~= body);
    assert(cells(body, ',') == parts);
    // The numbers read back.
    assert(tail_from(parts[0], 1) =~= dec(b.ob as nat));
    lemma_parse_dec(b.ob as nat, false, 0, usize::MAX as int);
    assert(tail_from(parts[1], 3) =~= dec_int(b.psi as int));
    lemma_parse_dec_int(b.psi as int, isize::MIN as int, isize::MAX as int);
    // The slots read back.
    assert(parts.subrange(2, parts.len() as int) =~= slots);
    let none = Map::<Loc, Kid>::empty();
    lemma_slots_round_trip(slots, b.kids, none);
    let got = parse_slots(slots, none)->Ok_0;
    assert forall|l: Loc| b.kids.dom().contains(l) implies got.dom().contains(l) by {
        assert(has_key(entries, l));
        let j = place_of(entries, l);
        let q = raw[j];
        assert(q == kid_part((l, b.kids[l])));
        assert(raw.contains(q));
        assert(raw.to_multiset().count(q) > 0);
        assert(slots.contains(q));
        let k = choose|k: int| 0 <= k < slots.len() && slots[k] == q;
        lemma_slot_round_trip((l, b.kids[l]));
        assert(parse_slot(slots[k])->Ok_0.0 == l);
    }
    assert(got =~= b.kids);
}

} // verus!
