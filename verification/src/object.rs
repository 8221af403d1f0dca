//! `Object`: one node of the graph.

use crate::atom::{atom_named, Atom};
use crate::data::Data;
use crate::error::Error;
use crate::loc::{loc_text, outcome, outcome_chars, parse_loc, Loc};
use crate::locator::{locator_text, parse_locator, viewed, Locator};
use crate::locmap::{lemma_ordered_values, ordered, LocMap};
use crate::number::{hex4, int_error_message, int_error_text, parse_data, push_hex4, read_data};
use crate::text::{
    append, append_str, cells, cells_of, chars_of, ends, ends_with, failure, failure2, find,
    find_last, index_of, join, joined, last_index_of, lemma_index_of_bounds,
    lemma_last_index_of_bounds, slice, sort_strings, sorted, string_of, stripped, texts, trim,
    trimmed, without,
};
use vstd::prelude::*;

verus! {

/// The number of an object: its place in the table of objects.
pub type Ob = usize;

/// One node of the graph: data or an atom, a flag, and attributes.
pub struct Object {
    /// The data, where the object is data.
    pub delta: Option<Data>,
    /// The atom and the name it was given under, where the object is one.
    pub lambda: Option<(String, Atom)>,
    /// Whether the object is marked constant.
    pub constant: bool,
    /// Under each slot, the path to what fills it, and whether the path is
    /// anchored at the activation that asks.
    pub attrs: LocMap<(Locator, bool)>,
}

/// An object as a value.
pub struct ObjectView {
    pub delta: Option<Data>,
    pub lambda: Option<(Seq<char>, Atom)>,
    pub constant: bool,
    pub attrs: Map<Loc, (Seq<Loc>, bool)>,
}

/// An attribute as a value.
pub open spec fn attr_view() -> spec_fn((Locator, bool)) -> (Seq<Loc>, bool) {
    |p: (Locator, bool)| (p.0@, p.1)
}

impl View for Object {
    type V = ObjectView;

    open spec fn view(&self) -> ObjectView {
        ObjectView {
            delta: self.delta,
            lambda: match self.lambda {
                Some((n, a)) => Some((n@, a)),
                None => None,
            },
            constant: self.constant,
            attrs: self.attrs@.map_values(attr_view()),
        }
    }
}

/// The object with nothing inside.
pub open spec fn empty_object() -> ObjectView {
    ObjectView { delta: None, lambda: None, constant: false, attrs: Map::empty() }
}

/// `(𝜋)`, which follows a path that starts at an object.
pub open spec fn pi_mark() -> Seq<char> {
    seq!['(', '𝜋', ')']
}

/// `(ξ)`, which follows a path anchored at the activation that asks.
pub open spec fn xi_mark() -> Seq<char> {
    seq!['(', 'ξ', ')']
}

/// What follows the path of an attribute.
pub open spec fn attr_mark(p: Seq<Loc>, xi: bool) -> Seq<char> {
    if xi {
        xi_mark()
    } else if p.len() > 0 && p[0] is Obj {
        pi_mark()
    } else {
        Seq::empty()
    }
}

/// The text of one attribute.
pub open spec fn attr_part(e: (Loc, (Seq<Loc>, bool))) -> Seq<char> {
    loc_text(e.0) + seq!['↦'] + locator_text(e.1.0) + attr_mark(e.1.0, e.1.1)
}

/// The text of the atom's entry.
pub open spec fn lambda_part(name: Seq<char>) -> Seq<char> {
    seq!['λ', '↦'] + name
}

/// The text of the data's entry.
pub open spec fn delta_part(d: Data) -> Seq<char> {
    seq!['Δ', '↦', '0', 'x'] + hex4(d as int)
}

/// The texts of all entries of an object, before they are put in order.
pub open spec fn object_parts(o: ObjectView) -> Seq<Seq<char>> {
    (match o.lambda {
        Some((n, _)) => seq![lambda_part(n)],
        None => Seq::empty(),
    }) + (match o.delta {
        Some(d) => seq![delta_part(d)],
        None => Seq::empty(),
    }) + ordered(o.attrs).map_values(|e: (Loc, (Seq<Loc>, bool))| attr_part(e))
}

/// The canonical text of an object: its entries in ascending order of their
/// texts, with `! ` before them where the object is constant.
pub open spec fn object_text(o: ObjectView) -> Seq<char> {
    seq!['⟦'] + (if o.constant {
        seq!['!', ' ']
    } else {
        Seq::empty()
    }) + join(sorted(object_parts(o)), seq![',', ' ']) + seq!['⟧']
}

/// The message for a text without brackets.
pub open spec fn format_failure(s: Seq<char>) -> Seq<char> {
    "Can't parse object format in '"@ + s + "'"@
}

/// The message for an entry that is not a name and a body.
pub open spec fn split_failure(pair: Seq<char>, s: Seq<char>) -> Seq<char> {
    "Can't split '"@ + pair + "' in two parts at '"@ + s + "'"@
}

/// The message for an entry without a name.
pub open spec fn name_failure(pair: Seq<char>) -> Seq<char> {
    "Empty attribute name in '"@ + pair + "'"@
}

/// The message for an atom that is not registered.
pub open spec fn lambda_failure(name: Seq<char>, s: Seq<char>) -> Seq<char> {
    "Unknown lambda '"@ + name + "' in '"@ + s + "'"@
}

/// The message for data that is no number.
pub open spec fn hex_failure(hex: Seq<char>, s: Seq<char>, e: Seq<char>) -> Seq<char> {
    "Can't parse hex '"@ + hex + "' in '"@ + s + "': "@ + e
}

/// The message for a slot that is none.
pub open spec fn location_failure(name: Seq<char>, e: Seq<char>) -> Seq<char> {
    "Can't parse location '"@ + name + "': "@ + e
}

/// The message for a path that is none.
pub open spec fn locator_failure(path: Seq<char>, e: Seq<char>) -> Seq<char> {
    "Can't parse locator '"@ + path + "': "@ + e
}

/// `s` without its first two characters.
pub open spec fn after_prefix(s: Seq<char>) -> Seq<char> {
    if s.len() >= 2 {
        s.subrange(2, s.len() as int)
    } else {
        Seq::empty()
    }
}

/// One entry read into an object. The name decides: `λ` names an atom, `Δ`
/// holds data behind a prefix of two characters, anything else is a slot
/// with a path, which `(𝜋)` or `(ξ)` may follow. An atom takes the place of
/// data and data that of an atom.
#[verifier::opaque]
pub open spec fn parse_pair(pair: Seq<char>, s: Seq<char>, acc: ObjectView) -> Result<
    ObjectView,
    Seq<char>,
> {
    let kv = cells(pair, '↦');
    if kv.len() != 2 {
        Err(split_failure(pair, s))
    } else if kv[0].len() == 0 {
        Err(name_failure(pair))
    } else if kv[0][0] == 'λ' {
        match atom_named(kv[1]) {
            None => Err(lambda_failure(kv[1], s)),
            Some(a) => Ok(ObjectView { lambda: Some((kv[1], a)), delta: None, ..acc }),
        }
    } else if kv[0][0] == 'Δ' {
        match parse_data(after_prefix(kv[1])) {
            Err(e) => Err(hex_failure(after_prefix(kv[1]), s, int_error_text(e))),
            Ok(d) => Ok(ObjectView { delta: Some(d as Data), lambda: None, ..acc }),
        }
    } else {
        let tail = without(kv[1], pi_mark());
        let xi = ends_with(tail, xi_mark());
        let path = without(tail, xi_mark());
        match parse_loc(kv[0]) {
            Err(e) => Err(location_failure(kv[0], e)),
            Ok(loc) => match parse_locator(path) {
                Err(e) => Err(locator_failure(path, e)),
                Ok(locs) => Ok(ObjectView { attrs: acc.attrs.insert(loc, (locs, xi)), ..acc }),
            },
        }
    }
}

/// The entries read one after the other, from the left; the first that
/// fails decides the message.
pub open spec fn parse_pairs(pairs: Seq<Seq<char>>, s: Seq<char>, acc: ObjectView) -> Result<
    ObjectView,
    Seq<char>,
>
    decreases pairs.len(),
{
    if pairs.len() == 0 {
        Ok(acc)
    } else {
        match parse_pairs(pairs.drop_last(), s, acc) {
            Err(e) => Err(e),
            Ok(o) => parse_pair(pairs.last(), s, o),
        }
    }
}

/// The object that a text denotes. What stands before the first `⟦` and
/// after the last `⟧` is passed over; `!` right behind `⟦` marks the object
/// constant; between them stand entries with commas between, and white
/// space around entries, names and bodies counts for nothing.
pub open spec fn parse_object(s: Seq<char>) -> Result<ObjectView, Seq<char>> {
    let a = index_of(s, '⟦');
    let b = last_index_of(s, '⟧');
    if !(a < b) {
        Err(format_failure(s))
    } else {
        let flagged = s[a + 1] == '!';
        let from = if flagged {
            a + 2
        } else {
            a + 1
        };
        let body = trim(s.subrange(from, b));
        let start = ObjectView { constant: flagged, ..empty_object() };
        if body.len() == 0 {
            Ok(start)
        } else {
            parse_pairs(cells(body, ','), s, start)
        }
    }
}

/// The entries of a printed object are those of the object, each once, in
/// ascending order of their texts.
pub proof fn lemma_object_entries_ordered(o: ObjectView)
    ensures
        vstd::relations::sorted_by(sorted(object_parts(o)), crate::text::text_order()),
        sorted(object_parts(o)).to_multiset() == object_parts(o).to_multiset(),
{
    crate::text::lemma_text_order_total();
    object_parts(o).lemma_sort_by_ensures(crate::text::text_order());
}

/// Two attributes put under different slots give the same text whichever
/// is put first.
pub proof fn lemma_object_insertion_order(
    o: ObjectView,
    l1: Loc,
    v1: (Seq<Loc>, bool),
    l2: Loc,
    v2: (Seq<Loc>, bool),
)
    requires
        l1 != l2,
    ensures
        object_text(ObjectView { attrs: o.attrs.insert(l1, v1).insert(l2, v2), ..o })
            == object_text(ObjectView { attrs: o.attrs.insert(l2, v2).insert(l1, v1), ..o }),
{
    assert(o.attrs.insert(l1, v1).insert(l2, v2) =~= o.attrs.insert(l2, v2).insert(l1, v1));
}

/// Once an entry fails, the entries after it change nothing.
pub proof fn lemma_pairs_fail(pairs: Seq<Seq<char>>, s: Seq<char>, acc: ObjectView, i: int)
    requires
        0 <= i <= pairs.len(),
        parse_pairs(pairs.subrange(0, i), s, acc) is Err,
    ensures
        parse_pairs(pairs, s, acc) == parse_pairs(pairs.subrange(0, i), s, acc),
    decreases pairs.len() - i,
{
    if i == pairs.len() {
        assert(pairs.subrange(0, i) == pairs);
    } else {
        assert(pairs.drop_last().subrange(0, i) == pairs.subrange(0, i));
        lemma_pairs_fail(pairs.drop_last(), s, acc, i);
    }
}

impl Object {
    /// The object with nothing inside.
    pub fn open() -> (r: Object)
        ensures
            r@ == empty_object(),
    {
        let r = Object { delta: None, lambda: None, constant: false, attrs: LocMap::new() };
        assert(r@.attrs =~= Map::empty());
        r
    }

    /// The constant object that is the data `d`.
    pub fn dataic(d: Data) -> (r: Object)
        ensures
            r@ == (ObjectView { delta: Some(d), constant: true, ..empty_object() }),
    {
        let r = Object { delta: Some(d), lambda: None, constant: true, attrs: LocMap::new() };
        assert(r@.attrs =~= Map::empty());
        r
    }

    /// The object that is the atom `a`, named `n`.
    pub fn atomic(n: String, a: Atom) -> (r: Object)
        ensures
            r@ == (ObjectView { lambda: Some((n@, a)), ..empty_object() }),
    {
        let r = Object { delta: None, lambda: Some((n, a)), constant: false, attrs: LocMap::new() };
        assert(r@.attrs =~= Map::empty());
        r
    }

    /// Whether the object has neither atom nor data nor attributes.
    pub fn is_empty(&self) -> (r: bool)
        ensures
            r == (self@.lambda is None && self@.delta is None && self@.attrs
                == Map::<Loc, (Seq<Loc>, bool)>::empty()),
    {
        let none = self.attrs.is_empty();
        proof {
            if none {
                assert(self@.attrs =~= Map::empty());
            } else {
                assert(self.attrs@ != Map::<Loc, (Locator, bool)>::empty());
                assert(!(self.attrs@.dom() =~= Set::<Loc>::empty())) by {
                    if self.attrs@.dom() =~= Set::<Loc>::empty() {
                        assert(self.attrs@ =~= Map::<Loc, (Locator, bool)>::empty());
                    }
                }
                let l = choose|l: Loc| self.attrs@.dom().contains(l);
                assert(self@.attrs.dom().contains(l));
            }
        }
        self.lambda.is_none() && self.delta.is_none() && none
    }

    /// Puts the path `p` under the slot `loc`, in place of what was there,
    /// and hands the object back for more.
    pub fn push(&mut self, loc: Loc, p: Locator, xi: bool) -> (r: &mut Object)
        ensures
            r@ == (ObjectView { attrs: old(self)@.attrs.insert(loc, (p@, xi)), ..old(self)@ }),
            *final(self) == *final(r),
    {
        let ghost before = self.attrs@;
        self.attrs.insert(loc, (p, xi));
        assert(self.attrs@.map_values(attr_view()) =~= before.map_values(attr_view()).insert(
            loc,
            (p@, xi),
        ));
        self
    }

    /// Shows that the attributes of the view are listable. Nothing is
    /// computed.
    pub fn listed(&self)
        ensures
            crate::locmap::listable(self@.attrs),
    {
        self.attrs.listed();
        proof {
            let entries = self.attrs.entries();
            lemma_ordered_values(entries, attr_view());
            let seen = entries.map_values(|e: (Loc, (Locator, bool))| (e.0, attr_view()(e.1)));
            crate::locmap::lemma_ordered_covers(seen);
            crate::locmap::lemma_ordered_covers(entries);
            let m = self@.attrs;
            let a = crate::locmap::as_map(seen);
            assert forall|l: Loc| a.dom().contains(l) == m.dom().contains(l) by {
                if crate::locmap::has_key(seen, l) {
                    let j = crate::locmap::place_of(seen, l);
                    assert(entries[j].0 == l);
                }
                if m.dom().contains(l) {
                    let j = crate::locmap::place_of(entries, l);
                    assert(seen[j].0 == l);
                }
            }
            assert forall|l: Loc| a.dom().contains(l) implies a[l] == m[l] by {
                let j = crate::locmap::place_of(seen, l);
                crate::locmap::lemma_as_map_entry(seen, j);
                crate::locmap::lemma_as_map_entry(entries, j);
            }
            assert(a =~= m);
        }
    }

    /// A copy with the path `p` under the slot `loc`.
    pub fn with(&self, loc: Loc, p: Locator, xi: bool) -> (r: Object)
        ensures
            r@ == (ObjectView { attrs: self@.attrs.insert(loc, (p@, xi)), ..self@ }),
    {
        let mut obj = self.copy();
        obj.push(loc, p, xi);
        obj
    }

    /// A copy marked constant.
    pub fn as_constant(&self) -> (r: Object)
        ensures
            r@ == (ObjectView { constant: true, ..self@ }),
    {
        let mut obj = self.copy();
        obj.constant = true;
        obj
    }

    /// A copy.
    pub fn copy(&self) -> (r: Object)
        ensures
            r@ == self@,
    {
        let mut attrs: LocMap<(Locator, bool)> = LocMap::new();
        let n = self.attrs.len();
        let ghost all = self.attrs.entries();
        let mut i: usize = 0;
        while i < n
            invariant
                i <= n,
                n == all.len(),
                all == self.attrs.entries(),
                crate::locmap::ascending(all),
                crate::locmap::as_map(all) == self.attrs@,
                forall|l: Loc| #[trigger]
                    attrs@.dom().contains(l) ==> self.attrs@.dom().contains(l) && attr_view()(
                        attrs@[l],
                    ) == attr_view()(self.attrs@[l]),
                forall|j: int| 0 <= j < i ==> attrs@.dom().contains((#[trigger] all[j]).0),
            decreases n - i,
        {
            let (k, v) = self.attrs.entry(i);
            let p = v.0.clone();
            attrs.insert(*k, (p, v.1));
            i += 1;
        }
        let lambda = match &self.lambda {
            Some((name, a)) => Some((name.clone(), *a)),
            None => None,
        };
        let r = Object { delta: self.delta, lambda, constant: self.constant, attrs };
        proof {
            crate::locmap::lemma_ordered_covers(all);
            assert forall|l: Loc| self.attrs@.dom().contains(l) implies r.attrs@.dom().contains(
                l,
            ) by {
                let j = crate::locmap::place_of(all, l);
                assert(all[j].0 == l);
            }
            assert(r@.attrs =~= self@.attrs);
        }
        r
    }

    /// The canonical text.
    #[verifier::rlimit(40)]
    pub fn to_string(&self) -> (r: String)
        ensures
            r@ == object_text(self@),
    {
        let mut parts: Vec<String> = Vec::new();
        match &self.lambda {
            Some((name, _)) => {
                let mut t: Vec<char> = Vec::new();
                t.push('λ');
                t.push('↦');
                append_str(&mut t, name.as_str());
                parts.push(string_of(&t));
                assert(t@ =~= lambda_part(name@));
            },
            None => {},
        }
        match self.delta {
            Some(d) => {
                let mut t: Vec<char> = Vec::new();
                t.push('Δ');
                t.push('↦');
                t.push('0');
                t.push('x');
                push_hex4(&mut t, d);
                parts.push(string_of(&t));
                assert(t@ =~= delta_part(d));
            },
            None => {},
        }
        let ghost head = texts(parts@);
        let n = self.attrs.len();
        let ghost all = self.attrs.entries();
        let ghost seen = all.map_values(|e: (Loc, (Locator, bool))| (e.0, attr_view()(e.1)));
        let ghost tail = seen.map_values(|e: (Loc, (Seq<Loc>, bool))| attr_part(e));
        proof {
            lemma_ordered_values(all, attr_view());
            assert(ordered(self@.attrs) =~= seen);
            assert(head + ordered(self@.attrs).map_values(
                |e: (Loc, (Seq<Loc>, bool))| attr_part(e),
            ) =~= object_parts(self@));
        }
        let mut i: usize = 0;
        while i < n
            invariant
                i <= n,
                n == all.len(),
                all == self.attrs.entries(),
                seen == all.map_values(|e: (Loc, (Locator, bool))| (e.0, attr_view()(e.1))),
                tail == seen.map_values(|e: (Loc, (Seq<Loc>, bool))| attr_part(e)),
                texts(parts@) == head + tail.subrange(0, i as int),
            decreases n - i,
        {
            let (k, v) = self.attrs.entry(i);
            let mut t: Vec<char> = Vec::new();
            k.write(&mut t);
            t.push('↦');
            v.0.write(&mut t);
            let first_is_obj = match v.0.loc(0) {
                Some(Loc::Obj(_)) => true,
                _ => false,
            };
            if v.1 {
                t.push('(');
                t.push('ξ');
                t.push(')');
            } else if first_is_obj {
                t.push('(');
                t.push('𝜋');
                t.push(')');
            }
            let ghost before = texts(parts@);
            parts.push(string_of(&t));
            proof {
                assert(t@ =~= attr_part(seen[i as int]));
                assert(texts(parts@) =~= before.push(t@));
                assert(texts(parts@) =~= head + tail.subrange(0, i + 1));
            }
            i += 1;
        }
        proof {
            assert(tail.subrange(0, n as int) =~= tail);
            assert(texts(parts@) =~= object_parts(self@));
        }
        let parts = sort_strings(parts);
        let body = joined(&parts, ", ");
        proof {
            reveal_strlit(", ");
            assert(", "@ =~= seq![',', ' ']);
        }
        let mut out: Vec<char> = Vec::new();
        out.push('⟦');
        if self.constant {
            out.push('!');
            out.push(' ');
        }
        append_str(&mut out, body.as_str());
        out.push('⟧');
        assert(out@ =~= object_text(self@));
        string_of(&out)
    }

    /// Reads one entry into the object.
    fn read_pair(&mut self, pair: &Vec<char>, whole: &Vec<char>) -> (r: Result<(), Vec<char>>)
        ensures
            match r {
                Ok(_) => parse_pair(pair@, whole@, old(self)@) == Ok::<ObjectView, Seq<char>>(
                    final(self)@,
                ),
                Err(e) => parse_pair(pair@, whole@, old(self)@) == Err::<ObjectView, Seq<char>>(
                    e@,
                ),
            },
    {
        proof {
            reveal(parse_pair);
        }
        let kv = cells_of(pair, '↦');
        if kv.len() != 2 {
            return Err(failure2("Can't split '", pair, "' in two parts at '", whole, "'"));
        }
        let name = &kv[0];
        let body = &kv[1];
        assert(name@ == cells(pair@, '↦')[0]);
        assert(body@ == cells(pair@, '↦')[1]);
        if name.len() == 0 {
            proof {
                reveal_strlit("");
            }
            let e = failure("Empty attribute name in '", pair, "'", "");
            assert(e@ =~= name_failure(pair@));
            return Err(e);
        }
        let first = name[0];
        if first == 'λ' {
            match Atom::named(body) {
                None => {
                    return Err(failure2("Unknown lambda '", body, "' in '", whole, "'"));
                },
                Some(a) => {
                    self.lambda = Some((string_of(body), a));
                    self.delta = None;
                    return Ok(());
                },
            }
        }
        if first == 'Δ' {
            let hex = if body.len() >= 2 {
                slice(body, 2, body.len())
            } else {
                Vec::new()
            };
            assert(hex@ =~= after_prefix(body@));
            match read_data(&hex) {
                Err(e) => {
                    let mut m = failure2("Can't parse hex '", &hex, "' in '", whole, "': ");
                    append_str(&mut m, int_error_message(e));
                    return Err(m);
                },
                Ok(d) => {
                    self.delta = Some(d);
                    self.lambda = None;
                    return Ok(());
                },
            }
        }
        let mut pi: Vec<char> = Vec::new();
        pi.push('(');
        pi.push('𝜋');
        pi.push(')');
        let mut xm: Vec<char> = Vec::new();
        xm.push('(');
        xm.push('ξ');
        xm.push(')');
        assert(pi@ =~= pi_mark());
        assert(xm@ =~= xi_mark());
        let tail = stripped(body, &pi);
        let xi = ends(&tail, &xm);
        let path = stripped(&tail, &xm);
        match Loc::read(name) {
            Err(e) => {
                let mut m = failure("Can't parse location '", name, "': ", "");
                proof {
                    reveal_strlit("");
                }
                append(&mut m, &e);
                assert(m@ =~= location_failure(name@, e@));
                Err(m)
            },
            Ok(loc) => match Locator::read(&path) {
                Err(e) => {
                    let mut m = failure("Can't parse locator '", &path, "': ", "");
                    proof {
                        reveal_strlit("");
                    }
                    append(&mut m, &e);
                    assert(m@ =~= locator_failure(path@, e@));
                    Err(m)
                },
                Ok(locator) => {
                    self.push(loc, locator, xi);
                    Ok(())
                },
            },
        }
    }

    /// Reads an object from characters.
    pub fn read(s: &Vec<char>) -> (r: Result<Object, Vec<char>>)
        ensures
            viewed(outcome_chars(r)) == parse_object(s@),
    {
        let a = find(s, '⟦', 0);
        let found = find_last(s, '⟧');
        proof {
            assert(s@.subrange(0, s@.len() as int) == s@);
            lemma_index_of_bounds(s@, '⟦');
            lemma_last_index_of_bounds(s@, '⟧');
            reveal_strlit("");
        }
        let b = match found {
            Some(b) => b,
            None => {
                let e = failure("Can't parse object format in '", s, "'", "");
                assert(e@ =~= format_failure(s@));
                return Err(e);
            },
        };
        if !(a < b) {
            let e = failure("Can't parse object format in '", s, "'", "");
            assert(e@ =~= format_failure(s@));
            return Err(e);
        }
        let flagged = s[a + 1] == '!';
        let from = if flagged {
            a + 2
        } else {
            a + 1
        };
        let body = trimmed(&slice(s, from, b));
        let mut obj = Object::open();
        obj.constant = flagged;
        if body.len() == 0 {
            return Ok(obj);
        }
        let pairs = cells_of(&body, ',');
        let ghost all = cells(body@, ',');
        let ghost start = obj@;
        assert(parse_object(s@) == parse_pairs(all, s@, start));
        assert(all.subrange(0, 0) =~= Seq::<Seq<char>>::empty());
        let mut i: usize = 0;
        while i < pairs.len()
            invariant
                i <= pairs@.len(),
                all == crate::text::rows(pairs@),
                parse_object(s@) == parse_pairs(all, s@, start),
                parse_pairs(all.subrange(0, i as int), s@, start) == Ok::<ObjectView, Seq<char>>(
                    obj@,
                ),
            decreases pairs@.len() - i,
        {
            let ghost head = all.subrange(0, i as int);
            let ghost next = all.subrange(0, i + 1);
            assert(next.drop_last() == head);
            assert(next.last() == pairs@[i as int]@);
            assert(parse_pairs(next, s@, start) == parse_pair(next.last(), s@, obj@));
            match obj.read_pair(&pairs[i], s) {
                Ok(_) => {},
                Err(e) => {
                    proof {
                        lemma_pairs_fail(all, s@, start, i + 1);
                    }
                    return Err(e);
                },
            }
            i += 1;
        }
        assert(all.subrange(0, all.len() as int) == all);
        Ok(obj)
    }

    /// Reads an object from its text.
    pub fn from_str(s: &str) -> (r: Result<Object, String>)
        ensures
            viewed(outcome(r)) == parse_object(s@),
    {
        let v = chars_of(s);
        match Object::read(&v) {
            Ok(o) => Ok(o),
            Err(e) => Err(string_of(&e)),
        }
    }
}

impl Object {
    /// Reads an object from its text; what is said of a failure is kept in
    /// `Error::ObjectFromStrFailed`.
    pub fn parse(s: &str) -> (r: Result<Object, Error>)
        ensures
            match r {
                Ok(o) => parse_object(s@) == Ok::<ObjectView, Seq<char>>(o@),
                Err(Error::ObjectFromStrFailed(m)) => parse_object(s@) == Err::<
                    ObjectView,
                    Seq<char>,
                >(m@),
                Err(_) => false,
            },
    {
        match Object::from_str(s) {
            Ok(o) => Ok(o),
            Err(m) => Err(Error::ObjectFromStrFailed(m)),
        }
    }
}

impl std::str::FromStr for Object {
    type Err = String;

    /// Reads an object from its text, as `Object::from_str` does.
    fn from_str(s: &str) -> (r: Result<Object, String>)
        ensures
            viewed(outcome(r)) == parse_object(s@),
    {
        Object::from_str(s)
    }
}

} // verus!
