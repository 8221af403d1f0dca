//! What is written of an object reads back as the object.

use crate::atom::{atom_name, lemma_atom_names, Atom};
use crate::data::Data;
use crate::loc::{is_loc_char, lemma_loc_round_trip, lemma_loc_text_chars, loc_text, Loc};
use crate::locator::{
    is_path_char, lemma_locator_round_trip, lemma_locator_text_chars, locator_text,
};
use crate::locmap::{has_key, lemma_listable, listable, ordered, place_of};
use crate::number::{hex4, lemma_hex4_chars, lemma_parse_hex4};
use crate::object::{
    after_prefix, attr_mark, attr_part, delta_part, empty_object, lambda_part, object_parts,
    object_text, parse_object, parse_pair, parse_pairs, pi_mark, xi_mark, ObjectView,
};
use crate::text::{
    blank, cells, ends_with, index_of, is_space, join, lacks, last_index_of, lemma_cells_join,
    lemma_index_of_is, lemma_join_chars, lemma_join_ends, lemma_last_index_of_bounds, lemma_split_two,
    lemma_text_order_total, lemma_trim_blank, lemma_trim_padded, lemma_trim_tight, sorted,
    text_order, tight, trim, without,
};
use vstd::prelude::*;

verus! {

/// A character that is neither white space nor a comma nor `↦` nor a
/// bracket of an object.
pub open spec fn solid(c: char) -> bool {
    !is_space(c) && c != ',' && c != '↦' && c != '⟦' && c != '⟧'
}

/// The text is not empty and every character of it is solid.
pub open spec fn all_solid(s: Seq<char>) -> bool {
    s.len() > 0 && forall|i: int| 0 <= i < s.len() ==> solid(#[trigger] s[i])
}

/// A path whose text reads back: at least one step, all of them canonical.
pub open spec fn steps_printable(p: Seq<Loc>) -> bool {
    p.len() >= 1 && forall|i: int| 0 <= i < p.len() ==> (#[trigger] p[i]).canonical()
}

/// An object whose text reads back: the view of an `Object` that is not
/// data and atom at once, whose atom goes by its registered name, and whose
/// attributes stand under canonical slots other than `Δ`, with canonical
/// paths.
pub open spec fn object_printable(o: ObjectView) -> bool {
    &&& !(o.delta is Some && o.lambda is Some)
    &&& o.lambda is Some ==> o.lambda->Some_0.0 == atom_name(o.lambda->Some_0.1)
    &&& listable(o.attrs)
    &&& forall|l: Loc| #[trigger]
        o.attrs.dom().contains(l) ==> l.canonical() && l != Loc::Delta && steps_printable(
            o.attrs[l].0,
        )
}

/// A name and a body, both solid, written with `↦` between them, come apart
/// into the name and the body.
pub proof fn lemma_cells_pair(k: Seq<char>, v: Seq<char>)
    requires
        all_solid(k),
        all_solid(v),
    ensures
        cells(k + seq!['↦'] + v, '↦') == seq![k, v],
        tight(k + seq!['↦'] + v),
        lacks(k + seq!['↦'] + v, ','),
        lacks(k + seq!['↦'] + v, '⟦'),
        lacks(k + seq!['↦'] + v, '⟧'),
{
    let e = Seq::<char>::empty();
    let q = k + seq!['↦'] + v;
    assert(lacks(k, '↦')) by {
        assert forall|i: int| 0 <= i < k.len() implies k[i] != '↦' by {
            assert(solid(k[i]));
        }
    }
    assert(lacks(v, '↦')) by {
        assert forall|i: int| 0 <= i < v.len() implies v[i] != '↦' by {
            assert(solid(v[i]));
        }
    }
    lemma_split_two(k, v, '↦', e);
    assert(k + seq!['↦'] + e + v =~= q);
    assert(e + v =~= v);
    assert(solid(k[0]));
    assert(solid(k.last()));
    assert(solid(v[0]));
    assert(solid(v.last()));
    lemma_trim_tight(k);
    lemma_trim_tight(v);
    assert(cells(q, '↦') =~= seq![k, v]);
    assert(q[0] == k[0]);
    assert(q.last() == v.last());
    assert forall|i: int| 0 <= i < q.len() implies q[i] != ',' && q[i] != '⟦' && q[i]
        != '⟧' by {
        if i < k.len() {
            assert(q[i] == k[i]);
            assert(solid(k[i]));
        } else if i > k.len() {
            assert(q[i] == v[i - k.len() - 1]);
            assert(solid(v[i - k.len() - 1]));
        }
    }
}

/// The text of a slot is solid, and does not begin as the atom's or the
/// data's entry does, unless the slot is `Δ`.
pub proof fn lemma_loc_text_solid(l: Loc)
    ensures
        all_solid(loc_text(l)),
        loc_text(l)[0] != 'λ',
        l != Loc::Delta ==> loc_text(l)[0] != 'Δ',
        loc_text(l)[0] != '!',
{
    lemma_loc_text_chars(l);
    assert forall|i: int| 0 <= i < loc_text(l).len() implies solid(#[trigger] loc_text(l)[i]) by {
        assert(is_loc_char(loc_text(l)[i]));
    }
}

/// The body of an attribute is solid, and falls into the path and what
/// follows it.
pub proof fn lemma_attr_body(p: Seq<Loc>, xi: bool)
    requires
        p.len() >= 1,
    ensures
        all_solid(locator_text(p) + attr_mark(p, xi)),
        ends_with(without(locator_text(p) + attr_mark(p, xi), pi_mark()), xi_mark()) == xi,
        without(without(locator_text(p) + attr_mark(p, xi), pi_mark()), xi_mark())
            == locator_text(p),
{
    let t = locator_text(p);
    let m = attr_mark(p, xi);
    let v = t + m;
    lemma_locator_text_chars(p);
    assert(is_loc_char(t.last()));
    assert forall|i: int| 0 <= i < v.len() implies solid(#[trigger] v[i]) by {
        if i < t.len() {
            assert(v[i] == t[i]);
            assert(is_path_char(t[i]));
        } else {
            assert(v[i] == m[i - t.len()]);
        }
    }
    if m.len() == 0 {
        assert(v =~= t);
        assert(!ends_with(t, pi_mark())) by {
            if ends_with(t, pi_mark()) {
                let tail = t.subrange(t.len() - 3, t.len() as int);
                assert(tail[2] == t.last());
            }
        }
        assert(!ends_with(t, xi_mark())) by {
            if ends_with(t, xi_mark()) {
                let tail = t.subrange(t.len() - 3, t.len() as int);
                assert(tail[2] == t.last());
            }
        }
    } else if xi {
        assert(m == xi_mark());
        assert(!ends_with(v, pi_mark())) by {
            if ends_with(v, pi_mark()) {
                let tail = v.subrange(v.len() - 3, v.len() as int);
                assert(tail[1] == v[v.len() - 2]);
                assert(v[v.len() - 2] == m[1]);
            }
        }
        assert(v.subrange(v.len() - 3, v.len() as int) =~= xi_mark());
        assert(v.subrange(0, v.len() - 3) =~= t);
    } else {
        assert(m == pi_mark());
        assert(v.subrange(v.len() - 3, v.len() as int) =~= pi_mark());
        assert(v.subrange(0, v.len() - 3) =~= t);
        assert(!ends_with(t, xi_mark())) by {
            if ends_with(t, xi_mark()) {
                let tail = t.subrange(t.len() - 3, t.len() as int);
                assert(tail[2] == t.last());
            }
        }
    }
}

/// An attribute under a canonical slot, written and read into an object,
/// is put into the object.
pub proof fn lemma_attr_pair(e: (Loc, (Seq<Loc>, bool)), s: Seq<char>, acc: ObjectView)
    requires
        e.0.canonical(),
        e.0 != Loc::Delta,
        steps_printable(e.1.0),
    ensures
        parse_pair(attr_part(e), s, acc) == Ok::<ObjectView, Seq<char>>(
            ObjectView { attrs: acc.attrs.insert(e.0, e.1), ..acc },
        ),
        tight(attr_part(e)),
        lacks(attr_part(e), ','),
        lacks(attr_part(e), '⟦'),
        lacks(attr_part(e), '⟧'),
        attr_part(e)[0] == loc_text(e.0)[0],
{
    reveal(parse_pair);
    let k = loc_text(e.0);
    let v = locator_text(e.1.0) + attr_mark(e.1.0, e.1.1);
    lemma_loc_text_solid(e.0);
    lemma_attr_body(e.1.0, e.1.1);
    lemma_cells_pair(k, v);
    assert(attr_part(e) =~= k + seq!['↦'] + v);
    lemma_loc_round_trip(e.0);
    lemma_locator_round_trip(e.1.0);
}

/// The entry of a registered atom, written and read into an object, makes
/// the object that atom.
pub proof fn lemma_lambda_pair(a: Atom, s: Seq<char>, acc: ObjectView)
    ensures
        parse_pair(lambda_part(atom_name(a)), s, acc) == Ok::<ObjectView, Seq<char>>(
            ObjectView { lambda: Some((atom_name(a), a)), delta: None, ..acc },
        ),
        tight(lambda_part(atom_name(a))),
        lacks(lambda_part(atom_name(a)), ','),
        lacks(lambda_part(atom_name(a)), '⟦'),
        lacks(lambda_part(atom_name(a)), '⟧'),
        lambda_part(atom_name(a))[0] == 'λ',
{
    reveal(parse_pair);
    let k = seq!['λ'];
    let v = atom_name(a);
    lemma_atom_names(a);
    assert(all_solid(v)) by {
        assert forall|i: int| 0 <= i < v.len() implies solid(#[trigger] v[i]) by {
            assert('a' <= v[i] <= 'z' || v[i] == '-');
        }
    }
    lemma_cells_pair(k, v);
    assert(lambda_part(v) =~= k + seq!['↦'] + v);
}

/// The entry of data, written and read into an object, makes the object
/// that data.
pub proof fn lemma_delta_pair(d: Data, s: Seq<char>, acc: ObjectView)
    ensures
        parse_pair(delta_part(d), s, acc) == Ok::<ObjectView, Seq<char>>(
            ObjectView { delta: Some(d), lambda: None, ..acc },
        ),
        tight(delta_part(d)),
        lacks(delta_part(d), ','),
        lacks(delta_part(d), '⟦'),
        lacks(delta_part(d), '⟧'),
        delta_part(d)[0] == 'Δ',
{
    reveal(parse_pair);
    let k = seq!['Δ'];
    let v = seq!['0', 'x'] + hex4(d as int);
    lemma_hex4_chars(d as int);
    assert(all_solid(v)) by {
        assert forall|i: int| 0 <= i < v.len() implies solid(#[trigger] v[i]) by {
            if i >= 2 {
                assert(v[i] == hex4(d as int)[i - 2]);
            }
        }
    }
    lemma_cells_pair(k, v);
    assert(delta_part(d) =~= k + seq!['↦'] + v);
    assert(after_prefix(v) =~= hex4(d as int));
    lemma_parse_hex4(d as int);
}

/// The text `q` is that of an entry of the object.
pub open spec fn part_of(q: Seq<char>, o: ObjectView) -> bool {
    ||| o.lambda is Some && q == lambda_part(o.lambda->Some_0.0)
    ||| o.delta is Some && q == delta_part(o.delta->Some_0)
    ||| exists|l: Loc| o.attrs.dom().contains(l) && q == attr_part((l, o.attrs[l]))
}

/// The object `a` holds nothing that the object `o` does not hold.
pub open spec fn within(a: ObjectView, o: ObjectView) -> bool {
    &&& a.lambda is None || a.lambda == o.lambda
    &&& a.delta is None || a.delta == o.delta
    &&& a.constant == o.constant
    &&& a.attrs.submap_of(o.attrs)
}

/// The object `r` holds what the object `a` holds.
pub open spec fn extends(a: ObjectView, r: ObjectView) -> bool {
    &&& a.lambda is Some ==> r.lambda == a.lambda
    &&& a.delta is Some ==> r.delta == a.delta
    &&& a.attrs.dom().subset_of(r.attrs.dom())
}

/// The object `r` holds the entry of `o` whose text is `q`.
pub open spec fn recorded(q: Seq<char>, r: ObjectView, o: ObjectView) -> bool {
    &&& o.lambda is Some && q == lambda_part(o.lambda->Some_0.0) ==> r.lambda == o.lambda
    &&& o.delta is Some && q == delta_part(o.delta->Some_0) ==> r.delta == o.delta
    &&& forall|l: Loc| #[trigger]
        o.attrs.dom().contains(l) && q == attr_part((l, o.attrs[l])) ==> r.attrs.dom().contains(
            l,
        )
}

/// An entry of a printable object, read into an object that holds nothing
/// else, is held afterwards, with all that was held before.
pub proof fn lemma_pair_round_trip(q: Seq<char>, s: Seq<char>, acc: ObjectView, o: ObjectView)
    requires
        object_printable(o),
        part_of(q, o),
        within(acc, o),
    ensures
        parse_pair(q, s, acc) is Ok,
        within(parse_pair(q, s, acc)->Ok_0, o),
        extends(acc, parse_pair(q, s, acc)->Ok_0),
        recorded(q, parse_pair(q, s, acc)->Ok_0, o),
        tight(q),
        lacks(q, ','),
        lacks(q, '⟦'),
        lacks(q, '⟧'),
        q[0] != '!',
{
    let r = parse_pair(q, s, acc)->Ok_0;
    if o.lambda is Some && q == lambda_part(o.lambda->Some_0.0) {
        lemma_lambda_pair(o.lambda->Some_0.1, s, acc);
        if o.delta is Some {
            lemma_delta_pair(o.delta->Some_0, s, acc);
        }
        assert forall|l: Loc| #[trigger]
            o.attrs.dom().contains(l) && q == attr_part((l, o.attrs[l])) implies r.attrs.dom().contains(
            l,
        ) by {
            lemma_attr_pair((l, o.attrs[l]), s, acc);
            lemma_loc_text_solid(l);
        }
    } else if o.delta is Some && q == delta_part(o.delta->Some_0) {
        lemma_delta_pair(o.delta->Some_0, s, acc);
        assert forall|l: Loc| #[trigger]
            o.attrs.dom().contains(l) && q == attr_part((l, o.attrs[l])) implies r.attrs.dom().contains(
            l,
        ) by {
            lemma_attr_pair((l, o.attrs[l]), s, acc);
            lemma_loc_text_solid(l);
        }
    } else {
        let l = choose|l: Loc| o.attrs.dom().contains(l) && q == attr_part((l, o.attrs[l]));
        lemma_attr_pair((l, o.attrs[l]), s, acc);
        lemma_loc_text_solid(l);
        assert forall|k: Loc| #[trigger]
            o.attrs.dom().contains(k) && q == attr_part((k, o.attrs[k])) implies r.attrs.dom().contains(
            k,
        ) by {
            lemma_attr_pair((k, o.attrs[k]), s, acc);
            assert(acc.attrs.insert(k, o.attrs[k]) == acc.attrs.insert(l, o.attrs[l]));
            assert(acc.attrs.insert(k, o.attrs[k]).dom().contains(k));
        }
        if o.lambda is Some {
            lemma_lambda_pair(o.lambda->Some_0.1, s, acc);
        }
        if o.delta is Some {
            lemma_delta_pair(o.delta->Some_0, s, acc);
        }
    }
}

/// Entries of a printable object, read one after the other into an object
/// that holds nothing else, are all held afterwards.
pub proof fn lemma_pairs_round_trip(
    qs: Seq<Seq<char>>,
    s: Seq<char>,
    acc: ObjectView,
    o: ObjectView,
)
    requires
        object_printable(o),
        forall|k: int| 0 <= k < qs.len() ==> part_of(#[trigger] qs[k], o),
        within(acc, o),
    ensures
        parse_pairs(qs, s, acc) is Ok,
        within(parse_pairs(qs, s, acc)->Ok_0, o),
        extends(acc, parse_pairs(qs, s, acc)->Ok_0),
        forall|k: int|
            0 <= k < qs.len() ==> recorded(#[trigger] qs[k], parse_pairs(qs, s, acc)->Ok_0, o),
    decreases qs.len(),
{
    if qs.len() > 0 {
        let head = qs.drop_last();
        assert forall|k: int| 0 <= k < head.len() implies part_of(#[trigger] head[k], o) by {
            assert(head[k] == qs[k]);
        }
        lemma_pairs_round_trip(head, s, acc, o);
        let m = parse_pairs(head, s, acc)->Ok_0;
        lemma_pair_round_trip(qs.last(), s, m, o);
        let r = parse_pair(qs.last(), s, m)->Ok_0;
        assert(parse_pairs(qs, s, acc) == Ok::<ObjectView, Seq<char>>(r));
        assert forall|k: int| 0 <= k < qs.len() implies recorded(#[trigger] qs[k], r, o) by {
            if k < head.len() {
                assert(head[k] == qs[k]);
                assert(recorded(head[k], m, o));
            }
        }
    }
}

/// Every entry that is printed of an object is an entry of the object, and
/// every entry of the object is printed.
#[verifier::rlimit(40)]
pub proof fn lemma_object_parts(o: ObjectView)
    requires
        listable(o.attrs),
    ensures
        forall|k: int|
            0 <= k < sorted(object_parts(o)).len() ==> part_of(
                #[trigger] sorted(object_parts(o))[k],
                o,
            ),
        o.lambda is Some ==> sorted(object_parts(o)).contains(lambda_part(o.lambda->Some_0.0)),
        o.delta is Some ==> sorted(object_parts(o)).contains(delta_part(o.delta->Some_0)),
        forall|l: Loc| #[trigger]
            o.attrs.dom().contains(l) ==> sorted(object_parts(o)).contains(
                attr_part((l, o.attrs[l])),
            ),
        sorted(object_parts(o)).len() == object_parts(o).len(),
        object_parts(o).len() == 0 ==> o.lambda is None && o.delta is None && o.attrs
            == Map::<Loc, (Seq<Loc>, bool)>::empty(),
{
    let entries = ordered(o.attrs);
    let tail = entries.map_values(|e: (Loc, (Seq<Loc>, bool))| attr_part(e));
    let first: Seq<Seq<char>> = match o.lambda {
        Some((n, _)) => seq![lambda_part(n)],
        None => Seq::empty(),
    };
    let second: Seq<Seq<char>> = match o.delta {
        Some(d) => seq![delta_part(d)],
        None => Seq::empty(),
    };
    let raw = object_parts(o);
    let q = sorted(raw);
    assert(raw =~= first + second + tail);
    lemma_listable(o.attrs);
    lemma_text_order_total();
    raw.lemma_sort_by_ensures(text_order());
    broadcast use vstd::seq_lib::group_to_multiset_ensures;

    assert(q.len() == raw.len()) by {
        assert(q.to_multiset().len() == raw.to_multiset().len());
    }
    assert forall|j: int| 0 <= j < raw.len() implies part_of(#[trigger] raw[j], o) by {
        if j < first.len() {
            assert(raw[j] == first[j]);
        } else if j < first.len() + second.len() {
            assert(raw[j] == second[j - first.len()]);
        } else {
            let i = j - first.len() - second.len();
            assert(raw[j] == tail[i]);
            assert(o.attrs.dom().contains(entries[i].0));
            assert(tail[i] == attr_part((entries[i].0, o.attrs[entries[i].0])));
        }
    }
    assert forall|k: int| 0 <= k < q.len() implies part_of(#[trigger] q[k], o) by {
        assert(q.contains(q[k]));
        assert(q.to_multiset().count(q[k]) > 0);
        assert(raw.contains(q[k]));
        let j = choose|j: int| 0 <= j < raw.len() && raw[j] == q[k];
        assert(part_of(raw[j], o));
    }
    if o.lambda is Some {
        let p = lambda_part(o.lambda->Some_0.0);
        assert(raw[0] == p);
        assert(raw.contains(p));
        assert(raw.to_multiset().count(p) > 0);
        assert(q.contains(p));
    }
    if o.delta is Some {
        let p = delta_part(o.delta->Some_0);
        assert(raw[first.len() as int] == p);
        assert(raw.contains(p));
        assert(raw.to_multiset().count(p) > 0);
        assert(q.contains(p));
    }
    assert forall|l: Loc| #[trigger] o.attrs.dom().contains(l) implies q.contains(
        attr_part((l, o.attrs[l])),
    ) by {
        assert(has_key(entries, l));
        let i = place_of(entries, l);
        let p = attr_part((l, o.attrs[l]));
        assert(raw[first.len() + second.len() + i] == p);
        assert(raw.contains(p));
        assert(raw.to_multiset().count(p) > 0);
        assert(q.contains(p));
    }
    if raw.len() == 0 {
        assert(entries.len() == 0);
        assert(o.attrs =~= Map::<Loc, (Seq<Loc>, bool)>::empty()) by {
            assert forall|l: Loc| !o.attrs.dom().contains(l) by {
                if o.attrs.dom().contains(l) {
                    assert(has_key(entries, l));
                }
            }
        }
    }
}

/// The text of an object falls into the brackets, the flag and the body.
pub proof fn lemma_object_frame(o: ObjectView, body: Seq<char>)
    requires
        body == join(sorted(object_parts(o)), seq![',', ' ']),
        body.len() > 0 ==> tight(body) && body[0] != '!',
    ensures
        index_of(object_text(o), '⟦') == 0,
        last_index_of(object_text(o), '⟧') == object_text(o).len() - 1,
        object_text(o).len() >= 2,
        (object_text(o)[1] == '!') == o.constant,
        trim(
            object_text(o).subrange(
                if o.constant {
                    2
                } else {
                    1
                },
                object_text(o).len() - 1,
            ),
        ) == body,
{
    let t = object_text(o);
    let flag: Seq<char> = if o.constant {
        seq!['!', ' ']
    } else {
        Seq::empty()
    };
    assert(t =~= seq!['⟦'] + flag + body + seq!['⟧']);
    assert(t[0] == '⟦');
    lemma_index_of_is(t, '⟦', 0);
    lemma_last_index_of_bounds(t, '⟧');
    assert(t.last() == '⟧');
    let e = Seq::<char>::empty();
    if o.constant {
        assert(t[1] == '!');
        let raw = t.subrange(2, t.len() - 1);
        assert(raw =~= seq![' '] + body);
        if body.len() > 0 {
            lemma_trim_padded(seq![' '], body, e);
            assert(seq![' '] + body + e =~= raw);
        } else {
            lemma_trim_blank(raw);
        }
    } else {
        let raw = t.subrange(1, t.len() - 1);
        assert(raw =~= body);
        if body.len() > 0 {
            assert(t[1] == body[0]);
            lemma_trim_tight(body);
        } else {
            assert(t[1] == '⟧');
            lemma_trim_blank(body);
        }
    }
}

/// A printable object, written and read, is the same object: the text that
/// is printed of it parses, and prints again as it is.
#[verifier::rlimit(40)]
pub proof fn lemma_object_round_trip(o: ObjectView)
    requires
        object_printable(o),
    ensures
        parse_object(object_text(o)) == Ok::<ObjectView, Seq<char>>(o),
{
    let q = sorted(object_parts(o));
    let sep = seq![',', ' '];
    let body = join(q, sep);
    let t = object_text(o);
    let start = ObjectView { constant: o.constant, ..empty_object() };
    lemma_object_parts(o);
    assert(within(start, o));
    lemma_pairs_round_trip(q, t, start, o);
    let r = parse_pairs(q, t, start)->Ok_0;
    assert forall|i: int| 0 <= i < q.len() implies lacks(#[trigger] q[i], ',') && tight(q[i])
        && q[i][0] != '!' by {
        lemma_pair_round_trip(q[i], t, start, o);
    }
    if q.len() > 0 {
        assert forall|i: int| 0 <= i < q.len() implies (#[trigger] q[i]).len() > 0 by {
            assert(tight(q[i]));
        }
        lemma_join_ends(q, sep);
        assert(tight(q[0]));
        assert(tight(q.last()));
        let e = Seq::<char>::empty();
        assert(blank(e));
        assert(blank(seq![' ']));
        lemma_cells_join(q, ',', e, seq![' ']);
        assert(seq![','] + seq![' '] =~= sep);
        assert(e + body =~= body);
        assert(cells(body, ',') == q);
    } else {
        assert(body =~= Seq::<char>::empty());
    }
    lemma_object_frame(o, body);
    if q.len() == 0 {
        assert(start == o);
    } else {
        // Whatever the object holds was printed, and so was read.
        if o.lambda is Some {
            let p = lambda_part(o.lambda->Some_0.0);
            let k = choose|k: int| 0 <= k < q.len() && q[k] == p;
            assert(recorded(q[k], r, o));
        }
        if o.delta is Some {
            let p = delta_part(o.delta->Some_0);
            let k = choose|k: int| 0 <= k < q.len() && q[k] == p;
            assert(recorded(q[k], r, o));
        }
        assert forall|l: Loc| o.attrs.dom().contains(l) implies r.attrs.dom().contains(l) by {
            let p = attr_part((l, o.attrs[l]));
            assert(q.contains(p));
            let k = choose|k: int| 0 <= k < q.len() && q[k] == p;
            assert(recorded(q[k], r, o));
        }
        assert(r.attrs =~= o.attrs);
        assert(r == o);
    }
}

/// Between its brackets the text of a printable object holds no bracket.
pub proof fn lemma_object_text_shape(o: ObjectView)
    requires
        object_printable(o),
    ensures
        object_text(o).len() >= 2,
        object_text(o)[0] == '⟦',
        object_text(o).last() == '⟧',
        forall|k: int|
            1 <= k < object_text(o).len() - 1 ==> #[trigger] object_text(o)[k] != '⟦'
                && object_text(o)[k] != '⟧',
{
    let q = sorted(object_parts(o));
    let sep = seq![',', ' '];
    let body = join(q, sep);
    let t = object_text(o);
    let flag: Seq<char> = if o.constant {
        seq!['!', ' ']
    } else {
        Seq::empty()
    };
    let start = ObjectView { constant: o.constant, ..empty_object() };
    lemma_object_parts(o);
    let holds = |c: char| c != '⟦' && c != '⟧';
    assert forall|i: int, k: int| 0 <= i < q.len() && 0 <= k < q[i].len() implies holds(
        #[trigger] q[i][k],
    ) by {
        lemma_pair_round_trip(q[i], t, start, o);
    }
    lemma_join_chars(q, sep, holds);
    assert(t =~= seq!['⟦'] + flag + body + seq!['⟧']);
    assert forall|k: int| 1 <= k < t.len() - 1 implies #[trigger] t[k] != '⟦' && t[k] != '⟧' by {
        if k >= 1 + flag.len() {
            assert(t[k] == body[k - 1 - flag.len()]);
            assert(holds(body[k - 1 - flag.len()]));
        } else {
            assert(t[k] == flag[k - 1]);
        }
    }
}

/// An entry that reads into an object reads into it the same whatever the
/// text it is said to stand in.
pub proof fn lemma_pair_any_text(q: Seq<char>, s1: Seq<char>, s2: Seq<char>, acc: ObjectView)
    requires
        parse_pair(q, s1, acc) is Ok,
    ensures
        parse_pair(q, s2, acc) == parse_pair(q, s1, acc),
{
    reveal(parse_pair);
}

/// Entries that read into an object read into it the same whatever the text
/// they are said to stand in.
pub proof fn lemma_pairs_any_text(
    qs: Seq<Seq<char>>,
    s1: Seq<char>,
    s2: Seq<char>,
    acc: ObjectView,
)
    requires
        parse_pairs(qs, s1, acc) is Ok,
    ensures
        parse_pairs(qs, s2, acc) == parse_pairs(qs, s1, acc),
    decreases qs.len(),
{
    if qs.len() > 0 {
        lemma_pairs_any_text(qs.drop_last(), s1, s2, acc);
        lemma_pair_any_text(qs.last(), s1, s2, parse_pairs(qs.drop_last(), s1, acc)->Ok_0);
    }
}

/// What stands before an object, and holds no bracket, changes nothing of
/// what is read.
pub proof fn lemma_object_prefixed(pre: Seq<char>, t: Seq<char>)
    requires
        parse_object(t) is Ok,
        lacks(pre, '⟦'),
        lacks(pre, '⟧'),
    ensures
        parse_object(pre + t) == parse_object(t),
{
    let s = pre + t;
    let n = pre.len() as int;
    let a = index_of(t, '⟦');
    let b = last_index_of(t, '⟧');
    crate::text::lemma_index_of_bounds(t, '⟦');
    lemma_last_index_of_bounds(t, '⟧');
    assert(a < b);
    assert forall|j: int| 0 <= j < n + a implies s[j] != '⟦' by {
        if j >= n {
            assert(s[j] == t[j - n]);
        } else {
            assert(s[j] == pre[j]);
        }
    }
    assert(s[n + a] == t[a]);
    lemma_index_of_is(s, '⟦', n + a);
    assert(s[n + b] == t[b]);
    assert forall|j: int| n + b < j < s.len() implies s[j] != '⟧' by {
        assert(s[j] == t[j - n]);
    }
    crate::text::lemma_last_index_of_is(s, '⟧', n + b);
    assert(s[n + a + 1] == t[a + 1]);
    let from = if t[a + 1] == '!' {
        a + 2
    } else {
        a + 1
    };
    assert(s.subrange(n + from, n + b) =~= t.subrange(from, b));
    let body = trim(t.subrange(from, b));
    let start = ObjectView { constant: t[a + 1] == '!', ..empty_object() };
    if body.len() > 0 {
        lemma_pairs_any_text(cells(body, ','), t, s, start);
    }
}

} // verus!
