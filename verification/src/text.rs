//! Character sequences: the plumbing shared by every printer and parser.
//!
//! All surface syntax is specified over `Seq<char>`. The executable side
//! works on `Vec<char>` for reading and on `String` for what is handed out.

use vstd::prelude::*;
use vstd::string::*;

verus! {

/// Appending one character to a `String` (`String::push`): the text grows by
/// exactly that character at its end.
pub assume_specification[ String::push ](s: &mut String, c: char)
    ensures
        final(s)@ == old(s)@.push(c),
;

/// The views of a sequence of strings.
pub open spec fn texts(parts: Seq<String>) -> Seq<Seq<char>> {
    parts.map_values(|s: String| s@)
}

/// The views of a sequence of character vectors.
pub open spec fn rows(parts: Seq<Vec<char>>) -> Seq<Seq<char>> {
    parts.map_values(|v: Vec<char>| v@)
}

/// Unicode `White_Space`.
pub open spec fn is_space(c: char) -> bool {
    ||| '\u{09}' <= c <= '\u{0D}'
    ||| c == ' '
    ||| c == '\u{85}'
    ||| c == '\u{A0}'
    ||| c == '\u{1680}'
    ||| '\u{2000}' <= c <= '\u{200A}'
    ||| c == '\u{2028}'
    ||| c == '\u{2029}'
    ||| c == '\u{202F}'
    ||| c == '\u{205F}'
    ||| c == '\u{3000}'
}

/// `s` without its leading white space.
pub open spec fn trim_start(s: Seq<char>) -> Seq<char>
    decreases s.len(),
{
    if s.len() > 0 && is_space(s[0]) {
        trim_start(s.drop_first())
    } else {
        s
    }
}

/// `s` without its trailing white space.
pub open spec fn trim_end(s: Seq<char>) -> Seq<char>
    decreases s.len(),
{
    if s.len() > 0 && is_space(s.last()) {
        trim_end(s.drop_last())
    } else {
        s
    }
}

/// `s` without white space at either end.
pub open spec fn trim(s: Seq<char>) -> Seq<char> {
    trim_end(trim_start(s))
}

/// The first position of `c` in `s`, or `s.len()` when there is none.
pub open spec fn index_of(s: Seq<char>, c: char) -> int
    decreases s.len(),
{
    if s.len() == 0 {
        0
    } else if s[0] == c {
        0
    } else {
        1 + index_of(s.drop_first(), c)
    }
}

/// The pieces of `s` between the occurrences of `c`: one more piece than
/// there are occurrences, empty pieces included.
pub open spec fn split(s: Seq<char>, c: char) -> Seq<Seq<char>>
    decreases s.len(),
{
    let i = index_of(s, c);
    if 0 <= i < s.len() {
        seq![s.subrange(0, i)] + split(s.subrange(i + 1, s.len() as int), c)
    } else {
        seq![s]
    }
}

/// The parts in order with `sep` between each two neighbours.
pub open spec fn join(parts: Seq<Seq<char>>, sep: Seq<char>) -> Seq<char>
    decreases parts.len(),
{
    if parts.len() == 0 {
        Seq::empty()
    } else if parts.len() == 1 {
        parts[0]
    } else {
        join(parts.drop_last(), sep) + sep + parts.last()
    }
}

/// `s` ends with `p`.
pub open spec fn ends_with(s: Seq<char>, p: Seq<char>) -> bool {
    p.len() <= s.len() && s.subrange(s.len() - p.len(), s.len() as int) == p
}

/// Lexicographic order by code point, the order of `str`.
pub open spec fn text_le(a: Seq<char>, b: Seq<char>) -> bool
    decreases a.len(),
{
    if a.len() == 0 {
        true
    } else if b.len() == 0 {
        false
    } else if a[0] != b[0] {
        a[0] < b[0]
    } else {
        text_le(a.drop_first(), b.drop_first())
    }
}

/// `text_le` as a relation value.
pub open spec fn text_order() -> spec_fn(Seq<char>, Seq<char>) -> bool {
    |a: Seq<char>, b: Seq<char>| text_le(a, b)
}

/// The parts in ascending order.
pub open spec fn sorted(parts: Seq<Seq<char>>) -> Seq<Seq<char>> {
    parts.sort_by(text_order())
}

pub proof fn lemma_index_of_bounds(s: Seq<char>, c: char)
    ensures
        0 <= index_of(s, c) <= s.len(),
        index_of(s, c) < s.len() ==> s[index_of(s, c)] == c,
        forall|j: int| 0 <= j < index_of(s, c) ==> s[j] != c,
    decreases s.len(),
{
    if s.len() > 0 && s[0] != c {
        lemma_index_of_bounds(s.drop_first(), c);
        assert forall|j: int| 0 <= j < index_of(s, c) implies s[j] != c by {
            if j > 0 {
                assert(s[j] == s.drop_first()[j - 1]);
            }
        }
    }
}

/// The position at which `c` first occurs is where the definition finds it.
pub proof fn lemma_index_of_is(s: Seq<char>, c: char, i: int)
    requires
        0 <= i <= s.len(),
        i < s.len() ==> s[i] == c,
        forall|j: int| 0 <= j < i ==> s[j] != c,
    ensures
        index_of(s, c) == i,
{
    lemma_index_of_bounds(s, c);
    let k = index_of(s, c);
    if k < i {
        assert(s[k] == c);
    } else if k > i {
        assert(s[i] == c);
    }
}

pub proof fn lemma_text_le_reflexive(a: Seq<char>)
    ensures
        text_le(a, a),
    decreases a.len(),
{
    if a.len() > 0 {
        lemma_text_le_reflexive(a.drop_first());
    }
}

pub proof fn lemma_text_le_antisymmetric(a: Seq<char>, b: Seq<char>)
    requires
        text_le(a, b),
        text_le(b, a),
    ensures
        a == b,
    decreases a.len(),
{
    if a.len() == 0 || b.len() == 0 {
        assert(a =~= b);
    } else {
        lemma_text_le_antisymmetric(a.drop_first(), b.drop_first());
        assert(a =~= seq![a[0]] + a.drop_first());
        assert(b =~= seq![b[0]] + b.drop_first());
    }
}

pub proof fn lemma_text_le_transitive(a: Seq<char>, b: Seq<char>, c: Seq<char>)
    requires
        text_le(a, b),
        text_le(b, c),
    ensures
        text_le(a, c),
    decreases a.len(),
{
    if a.len() > 0 && b.len() > 0 && c.len() > 0 {
        if a[0] == b[0] && b[0] == c[0] {
            lemma_text_le_transitive(a.drop_first(), b.drop_first(), c.drop_first());
        }
    }
}

pub proof fn lemma_text_le_connected(a: Seq<char>, b: Seq<char>)
    ensures
        text_le(a, b) || text_le(b, a),
    decreases a.len(),
{
    if a.len() > 0 && b.len() > 0 {
        if a[0] == b[0] {
            lemma_text_le_connected(a.drop_first(), b.drop_first());
        }
    }
}

/// The order of `str` is a total order.
pub proof fn lemma_text_order_total()
    ensures
        vstd::relations::total_ordering(text_order()),
{
    let r = text_order();
    assert forall|x: Seq<char>| #[trigger] r(x, x) by {
        lemma_text_le_reflexive(x);
    }
    assert forall|x: Seq<char>, y: Seq<char>| #[trigger] r(x, y) && #[trigger] r(y, x) implies x
        == y by {
        lemma_text_le_antisymmetric(x, y);
    }
    assert forall|x: Seq<char>, y: Seq<char>, z: Seq<char>| #[trigger]
        r(x, y) && #[trigger] r(y, z) implies r(x, z) by {
        lemma_text_le_transitive(x, y, z);
    }
    assert forall|x: Seq<char>, y: Seq<char>| #[trigger] r(x, y) || #[trigger] r(y, x) by {
        lemma_text_le_connected(x, y);
    }
}

/// No character of `s` is `c`.
pub open spec fn lacks(s: Seq<char>, c: char) -> bool {
    forall|i: int| 0 <= i < s.len() ==> s[i] != c
}

/// `s` is not empty and has no white space at either end.
pub open spec fn tight(s: Seq<char>) -> bool {
    s.len() > 0 && !is_space(s[0]) && !is_space(s.last())
}

/// Every character of `s` is white space.
pub open spec fn blank(s: Seq<char>) -> bool {
    forall|i: int| 0 <= i < s.len() ==> is_space(s[i])
}

/// The pieces of `s` between the occurrences of `c`, each without white
/// space at either end.
pub open spec fn cells(s: Seq<char>, c: char) -> Seq<Seq<char>> {
    split(s, c).map_values(|p: Seq<char>| trim(p))
}

/// Trimming removes blank text around tight text.
pub proof fn lemma_trim_padded(a: Seq<char>, s: Seq<char>, b: Seq<char>)
    requires
        blank(a),
        blank(b),
        tight(s),
    ensures
        trim(a + s + b) == s,
{
    let t = a + s + b;
    lemma_trim_start_skip(t, a.len() as int);
    let u = t.subrange(a.len() as int, t.len() as int);
    assert(u =~= s + b);
    assert(trim_start(u) == u);
    lemma_trim_end_skip(u, s.len() as int);
    assert(u.subrange(0, s.len() as int) =~= s);
    assert(trim_end(s) == s);
}

/// Trimming leaves tight text as it is.
pub proof fn lemma_trim_tight(s: Seq<char>)
    requires
        tight(s),
    ensures
        trim(s) == s,
{
    let e = Seq::<char>::empty();
    lemma_trim_padded(e, s, e);
    assert(e + s + e =~= s);
}

/// Trimming blank text leaves nothing.
pub proof fn lemma_trim_blank(s: Seq<char>)
    requires
        blank(s),
    ensures
        trim(s) == Seq::<char>::empty(),
{
    lemma_trim_start_skip(s, s.len() as int);
    assert(s.subrange(s.len() as int, s.len() as int) =~= Seq::<char>::empty());
}

/// Joining takes the first part, then the separator, then the rest joined.
pub proof fn lemma_join_first(parts: Seq<Seq<char>>, sep: Seq<char>)
    requires
        parts.len() >= 2,
    ensures
        join(parts, sep) == parts[0] + sep + join(parts.drop_first(), sep),
    decreases parts.len(),
{
    let head = parts.drop_last();
    let tail = parts.drop_first();
    if parts.len() == 2 {
        assert(head =~= seq![parts[0]]);
        assert(tail =~= seq![parts[1]]);
        assert(join(head, sep) == parts[0]);
        assert(join(tail, sep) == parts[1]);
    } else {
        lemma_join_first(head, sep);
        assert(head.drop_first() =~= tail.drop_last());
        assert(head[0] == parts[0]);
        assert(tail.last() == parts.last());
        assert(join(parts, sep) =~= parts[0] + sep + join(tail, sep));
    }
}

/// What joining with `c` and `pad` put together, cutting at `c` takes apart:
/// the first piece is the first part behind `lead`, every other piece a part
/// behind `pad`.
pub open spec fn padded(parts: Seq<Seq<char>>, lead: Seq<char>, pad: Seq<char>) -> Seq<Seq<char>> {
    Seq::new(
        parts.len(),
        |i: int|
            if i == 0 {
                lead + parts[0]
            } else {
                pad + parts[i]
            },
    )
}

pub proof fn lemma_split_join(parts: Seq<Seq<char>>, c: char, lead: Seq<char>, pad: Seq<char>)
    requires
        parts.len() >= 1,
        forall|i: int| 0 <= i < parts.len() ==> lacks(#[trigger] parts[i], c),
        lacks(lead, c),
        lacks(pad, c),
    ensures
        split(lead + join(parts, seq![c] + pad), c) == padded(parts, lead, pad),
    decreases parts.len(),
{
    let sep = seq![c] + pad;
    let s = lead + join(parts, sep);
    let first = lead + parts[0];
    assert(lacks(parts[0], c));
    if parts.len() == 1 {
        assert(s =~= first);
        lemma_index_of_is(s, c, s.len() as int);
        assert(split(s, c) =~= padded(parts, lead, pad));
    } else {
        let tail = parts.drop_first();
        lemma_join_first(parts, sep);
        let rest = pad + join(tail, sep);
        assert(s =~= first + seq![c] + rest);
        lemma_index_of_is(s, c, first.len() as int);
        assert(s.subrange(0, first.len() as int) =~= first);
        assert(s.subrange(first.len() as int + 1, s.len() as int) =~= rest);
        assert forall|i: int| 0 <= i < tail.len() implies lacks(#[trigger] tail[i], c) by {
            assert(tail[i] == parts[i + 1]);
        }
        lemma_split_join(tail, c, pad, pad);
        assert(split(s, c) =~= seq![first] + padded(tail, pad, pad));
        assert(seq![first] + padded(tail, pad, pad) =~= padded(parts, lead, pad)) by {
            assert forall|i: int| 0 <= i < parts.len() implies (seq![first] + padded(
                tail,
                pad,
                pad,
            ))[i] == padded(parts, lead, pad)[i] by {
                if i > 0 {
                    assert(tail[i - 1] == parts[i]);
                }
            }
        }
    }
}

/// Two parts with `c` and `pad` between them come apart at `c`.
pub proof fn lemma_split_two(a: Seq<char>, b: Seq<char>, c: char, pad: Seq<char>)
    requires
        lacks(a, c),
        lacks(b, c),
        lacks(pad, c),
    ensures
        split(a + seq![c] + pad + b, c) == seq![a, pad + b],
{
    let parts = seq![a, b];
    let e = Seq::<char>::empty();
    assert forall|i: int| 0 <= i < parts.len() implies lacks(#[trigger] parts[i], c) by {}
    lemma_split_join(parts, c, e, pad);
    assert(parts.drop_last() =~= seq![a]);
    assert(join(parts.drop_last(), seq![c] + pad) == a);
    assert(join(parts, seq![c] + pad) =~= a + seq![c] + pad + b);
    assert(e + join(parts, seq![c] + pad) =~= a + seq![c] + pad + b);
    assert(padded(parts, e, pad) =~= seq![a, pad + b]) by {
        assert(e + parts[0] =~= a);
    }
}

/// Tight parts joined begin as the first part does and end as the last.
pub proof fn lemma_join_ends(parts: Seq<Seq<char>>, sep: Seq<char>)
    requires
        parts.len() >= 1,
        forall|i: int| 0 <= i < parts.len() ==> (#[trigger] parts[i]).len() > 0,
    ensures
        join(parts, sep).len() > 0,
        join(parts, sep)[0] == parts[0][0],
        join(parts, sep).last() == parts.last().last(),
    decreases parts.len(),
{
    if parts.len() > 1 {
        let head = parts.drop_last();
        assert forall|i: int| 0 <= i < head.len() implies (#[trigger] head[i]).len() > 0 by {
            assert(head[i] == parts[i]);
        }
        lemma_join_ends(head, sep);
        assert(head[0] == parts[0]);
        assert(parts.last().len() > 0);
    } else {
        assert(parts[0].len() > 0);
    }
}

/// Tight parts joined with `c` and blank padding come back as cells.
pub proof fn lemma_cells_join(parts: Seq<Seq<char>>, c: char, lead: Seq<char>, pad: Seq<char>)
    requires
        parts.len() >= 1,
        forall|i: int| 0 <= i < parts.len() ==> lacks(#[trigger] parts[i], c) && tight(parts[i]),
        lacks(lead, c),
        lacks(pad, c),
        blank(lead),
        blank(pad),
    ensures
        cells(lead + join(parts, seq![c] + pad), c) == parts,
{
    lemma_split_join(parts, c, lead, pad);
    let got = cells(lead + join(parts, seq![c] + pad), c);
    assert forall|i: int| 0 <= i < parts.len() implies got[i] == parts[i] by {
        assert(lacks(parts[i], c) && tight(parts[i]));
        let e = Seq::<char>::empty();
        if i == 0 {
            lemma_trim_padded(lead, parts[i], e);
            assert(lead + parts[i] + e =~= lead + parts[i]);
        } else {
            lemma_trim_padded(pad, parts[i], e);
            assert(pad + parts[i] + e =~= pad + parts[i]);
        }
    }
    assert(got =~= parts);
}

/// The characters of a string slice.
pub fn chars_of(s: &str) -> (r: Vec<char>)
    ensures
        r@ == s@,
{
    let mut r: Vec<char> = Vec::new();
    for c in it: s.chars()
        invariant
            r@ == it.seq().take(it.index()),
            it.seq() == s@,
    {
        r.push(c);
    }
    r
}

/// The string made of the given characters.
pub fn string_of(v: &Vec<char>) -> (r: String)
    ensures
        r@ == v@,
{
    let mut r = String::new();
    let mut i: usize = 0;
    while i < v.len()
        invariant
            i <= v.len(),
            r@ == v@.subrange(0, i as int),
        decreases v.len() - i,
    {
        r.push(v[i]);
        i += 1;
    }
    assert(v@.subrange(0, v.len() as int) == v@);
    r
}

/// Appends the characters of `src` to `dst`.
pub fn append(dst: &mut Vec<char>, src: &Vec<char>)
    ensures
        final(dst)@ == old(dst)@ + src@,
{
    let mut i: usize = 0;
    while i < src.len()
        invariant
            i <= src.len(),
            dst@ == old(dst)@ + src@.subrange(0, i as int),
        decreases src.len() - i,
    {
        dst.push(src[i]);
        i += 1;
    }
    assert(src@.subrange(0, src.len() as int) == src@);
}

/// Appends the characters of a string slice to `dst`.
pub fn append_str(dst: &mut Vec<char>, src: &str)
    ensures
        final(dst)@ == old(dst)@ + src@,
{
    let v = chars_of(src);
    append(dst, &v);
}

/// The characters of `v` from `from` up to, not including, `to`.
pub fn slice(v: &Vec<char>, from: usize, to: usize) -> (r: Vec<char>)
    requires
        from <= to <= v.len(),
    ensures
        r@ == v@.subrange(from as int, to as int),
{
    let mut r: Vec<char> = Vec::new();
    let mut i: usize = from;
    while i < to
        invariant
            from <= i <= to <= v.len(),
            r@ == v@.subrange(from as int, i as int),
        decreases to - i,
    {
        r.push(v[i]);
        i += 1;
    }
    r
}

/// Whether two character vectors hold the same text.
pub fn same(a: &Vec<char>, b: &Vec<char>) -> (r: bool)
    ensures
        r == (a@ == b@),
{
    if a.len() != b.len() {
        return false;
    }
    let mut i: usize = 0;
    while i < a.len()
        invariant
            i <= a.len(),
            a.len() == b.len(),
            a@.subrange(0, i as int) == b@.subrange(0, i as int),
        decreases a.len() - i,
    {
        if a[i] != b[i] {
            return false;
        }
        assert(a@.subrange(0, i + 1) == a@.subrange(0, i as int).push(a@[i as int]));
        assert(b@.subrange(0, i + 1) == b@.subrange(0, i as int).push(b@[i as int]));
        i += 1;
    }
    assert(a@.subrange(0, a.len() as int) == a@);
    assert(b@.subrange(0, b.len() as int) == b@);
    true
}

/// Whether the characters are exactly those of `lit`.
pub fn is_text(a: &Vec<char>, lit: &str) -> (r: bool)
    ensures
        r == (a@ == lit@),
{
    let b = chars_of(lit);
    same(a, &b)
}

/// Whether `c` is white space.
pub fn space(c: char) -> (r: bool)
    ensures
        r == is_space(c),
{
    ('\u{09}' <= c && c <= '\u{0D}') || c == ' ' || c == '\u{85}' || c == '\u{A0}' || c
        == '\u{1680}' || ('\u{2000}' <= c && c <= '\u{200A}') || c == '\u{2028}' || c
        == '\u{2029}' || c == '\u{202F}' || c == '\u{205F}' || c == '\u{3000}'
}

proof fn lemma_trim_start_skip(s: Seq<char>, i: int)
    requires
        0 <= i <= s.len(),
        forall|j: int| 0 <= j < i ==> is_space(s[j]),
    ensures
        trim_start(s) == trim_start(s.subrange(i, s.len() as int)),
    decreases i,
{
    if i == 0 {
        assert(s.subrange(0, s.len() as int) == s);
    } else {
        lemma_trim_start_skip(s.drop_first(), i - 1);
        assert(s.drop_first().subrange(i - 1, s.len() - 1) == s.subrange(i, s.len() as int));
    }
}

proof fn lemma_trim_end_skip(s: Seq<char>, i: int)
    requires
        0 <= i <= s.len(),
        forall|j: int| i <= j < s.len() ==> is_space(s[j]),
    ensures
        trim_end(s) == trim_end(s.subrange(0, i)),
    decreases s.len() - i,
{
    if i == s.len() {
        assert(s.subrange(0, s.len() as int) == s);
    } else {
        lemma_trim_end_skip(s.drop_last(), i);
        assert(s.drop_last().subrange(0, i) == s.subrange(0, i));
    }
}

/// A copy of `v` without white space at either end.
pub fn trimmed(v: &Vec<char>) -> (r: Vec<char>)
    ensures
        r@ == trim(v@),
{
    let mut from: usize = 0;
    while from < v.len() && space(v[from])
        invariant
            from <= v.len(),
            forall|j: int| 0 <= j < from ==> is_space(v@[j]),
        decreases v.len() - from,
    {
        from += 1;
    }
    let mut to: usize = v.len();
    while to > from && space(v[to - 1])
        invariant
            from <= to <= v.len(),
            forall|j: int| to <= j < v.len() ==> is_space(v@[j]),
        decreases to,
    {
        to -= 1;
    }
    proof {
        let tail = v@.subrange(from as int, v.len() as int);
        lemma_trim_start_skip(v@, from as int);
        assert(trim_start(v@) == tail);
        lemma_trim_end_skip(tail, to - from);
        assert(tail.subrange(0, to - from) == v@.subrange(from as int, to as int));
    }
    slice(v, from, to)
}

/// The first position of `c` at or after `from`, or `v.len()`.
pub fn find(v: &Vec<char>, c: char, from: usize) -> (r: usize)
    requires
        from <= v.len(),
    ensures
        r == from + index_of(v@.subrange(from as int, v.len() as int), c),
        from <= r <= v.len(),
{
    let mut i: usize = from;
    while i < v.len() && v[i] != c
        invariant
            from <= i <= v.len(),
            forall|j: int| from <= j < i ==> v@[j] != c,
        decreases v.len() - i,
    {
        i += 1;
    }
    proof {
        lemma_index_of_is(v@.subrange(from as int, v.len() as int), c, i - from);
    }
    i
}

/// The pieces of `v` between the occurrences of `c`.
pub fn pieces(v: &Vec<char>, c: char) -> (r: Vec<Vec<char>>)
    ensures
        rows(r@) == split(v@, c),
{
    let mut r: Vec<Vec<char>> = Vec::new();
    let mut from: usize = 0;
    assert(v@.subrange(0, v.len() as int) == v@);
    assert(rows(r@) + split(v@, c) =~= split(v@, c));
    loop
        invariant
            from <= v.len(),
            rows(r@) + split(v@.subrange(from as int, v.len() as int), c) == split(v@, c),
        decreases v.len() - from,
    {
        let ghost rest = v@.subrange(from as int, v.len() as int);
        let at = find(v, c, from);
        let piece = slice(v, from, at);
        assert(piece@ == rest.subrange(0, at - from));
        let ghost before = rows(r@);
        r.push(piece);
        assert(rows(r@) == before + seq![piece@]);
        if at >= v.len() {
            assert(piece@ == rest);
            return r;
        }
        assert(rest.subrange(at - from + 1, rest.len() as int) == v@.subrange(
            at + 1,
            v.len() as int,
        ));
        from = at + 1;
    }
}

/// Whether `v` ends with `p`.
pub fn ends(v: &Vec<char>, p: &Vec<char>) -> (r: bool)
    ensures
        r == ends_with(v@, p@),
{
    if p.len() > v.len() {
        return false;
    }
    let tail = slice(v, v.len() - p.len(), v.len());
    same(&tail, p)
}

/// A message in four parts, the second of them quoted text.
pub fn failure(a: &str, quoted: &Vec<char>, b: &str, c: &str) -> (r: Vec<char>)
    ensures
        r@ == a@ + quoted@ + b@ + c@,
{
    let mut r = chars_of(a);
    append(&mut r, quoted);
    append_str(&mut r, b);
    append_str(&mut r, c);
    r
}

/// The pieces of `v` between the occurrences of `c`, each trimmed.
pub fn cells_of(v: &Vec<char>, c: char) -> (r: Vec<Vec<char>>)
    ensures
        rows(r@) == cells(v@, c),
{
    let parts = pieces(v, c);
    let mut r: Vec<Vec<char>> = Vec::new();
    let mut i: usize = 0;
    while i < parts.len()
        invariant
            i <= parts@.len(),
            rows(parts@) == split(v@, c),
            rows(r@) == cells(v@, c).subrange(0, i as int),
        decreases parts@.len() - i,
    {
        let t = trimmed(&parts[i]);
        let ghost before = rows(r@);
        r.push(t);
        assert(rows(parts@)[i as int] == parts@[i as int]@);
        assert(rows(r@) =~= before.push(t@));
        assert(rows(r@) =~= cells(v@, c).subrange(0, i + 1));
        i += 1;
    }
    assert(cells(v@, c).subrange(0, parts@.len() as int) =~= cells(v@, c));
    r
}

/// `s` without `mark` at its end, where it ends with it.
pub open spec fn without(s: Seq<char>, mark: Seq<char>) -> Seq<char> {
    if ends_with(s, mark) {
        s.subrange(0, s.len() - mark.len())
    } else {
        s
    }
}

/// A copy of `v` without `mark` at its end, where it ends with it.
pub fn stripped(v: &Vec<char>, mark: &Vec<char>) -> (r: Vec<char>)
    ensures
        r@ == without(v@, mark@),
{
    if ends(v, mark) {
        slice(v, 0, v.len() - mark.len())
    } else {
        let r = slice(v, 0, v.len());
        assert(v@.subrange(0, v.len() as int) == v@);
        r
    }
}

/// A message in five parts, the second and the fourth of them quoted text.
pub fn failure2(a: &str, x: &Vec<char>, b: &str, y: &Vec<char>, c: &str) -> (r: Vec<char>)
    ensures
        r@ == a@ + x@ + b@ + y@ + c@,
{
    let mut r = chars_of(a);
    append(&mut r, x);
    append_str(&mut r, b);
    append(&mut r, y);
    append_str(&mut r, c);
    r
}

/// The last position of `c` in `s`, or `-1` when there is none.
pub open spec fn last_index_of(s: Seq<char>, c: char) -> int
    decreases s.len(),
{
    if s.len() == 0 {
        -1
    } else if s.last() == c {
        s.len() - 1
    } else {
        last_index_of(s.drop_last(), c)
    }
}

pub proof fn lemma_last_index_of_bounds(s: Seq<char>, c: char)
    ensures
        -1 <= last_index_of(s, c) < s.len(),
        last_index_of(s, c) >= 0 ==> s[last_index_of(s, c)] == c,
        forall|j: int| last_index_of(s, c) < j < s.len() ==> s[j] != c,
    decreases s.len(),
{
    if s.len() > 0 && s.last() != c {
        lemma_last_index_of_bounds(s.drop_last(), c);
        assert forall|j: int| last_index_of(s, c) < j < s.len() implies s[j] != c by {
            if j < s.len() - 1 {
                assert(s[j] == s.drop_last()[j]);
            }
        }
    }
}

/// The position behind which `c` does not occur is where the definition
/// finds the last `c`.
pub proof fn lemma_last_index_of_is(s: Seq<char>, c: char, i: int)
    requires
        0 <= i < s.len(),
        s[i] == c,
        forall|j: int| i < j < s.len() ==> s[j] != c,
    ensures
        last_index_of(s, c) == i,
{
    lemma_last_index_of_bounds(s, c);
    let k = last_index_of(s, c);
    if k > i {
        assert(s[k] == c);
    }
}

/// Whatever holds of every character of the parts and of the separator
/// holds of every character of what they are joined to.
pub proof fn lemma_join_chars(parts: Seq<Seq<char>>, sep: Seq<char>, holds: spec_fn(char) -> bool)
    requires
        forall|i: int, k: int|
            0 <= i < parts.len() && 0 <= k < parts[i].len() ==> holds(#[trigger] parts[i][k]),
        forall|k: int| 0 <= k < sep.len() ==> holds(#[trigger] sep[k]),
    ensures
        forall|k: int| 0 <= k < join(parts, sep).len() ==> holds(#[trigger] join(parts, sep)[k]),
    decreases parts.len(),
{
    if parts.len() == 1 {
        assert forall|k: int| 0 <= k < parts[0].len() implies holds(#[trigger] parts[0][k]) by {}
    } else if parts.len() > 1 {
        let head = parts.drop_last();
        assert forall|i: int, k: int| 0 <= i < head.len() && 0 <= k < head[i].len() implies holds(
            #[trigger] head[i][k],
        ) by {
            assert(head[i] == parts[i]);
        }
        lemma_join_chars(head, sep, holds);
        let a = join(head, sep);
        let last = parts.last();
        let all = join(parts, sep);
        assert forall|k: int| 0 <= k < all.len() implies holds(#[trigger] all[k]) by {
            if k < a.len() {
                assert(all[k] == a[k]);
            } else if k < a.len() + sep.len() {
                assert(all[k] == sep[k - a.len()]);
            } else {
                assert(all[k] == last[k - a.len() - sep.len()]);
                assert(holds(parts[parts.len() - 1][k - a.len() - sep.len()]));
            }
        }
    }
}

/// The last position of `c` in `v`, if there is one.
pub fn find_last(v: &Vec<char>, c: char) -> (r: Option<usize>)
    ensures
        match r {
            Some(i) => i == last_index_of(v@, c),
            None => last_index_of(v@, c) == -1,
        },
{
    let mut i: usize = v.len();
    assert(v@.subrange(0, v.len() as int) == v@);
    while i > 0
        invariant
            i <= v.len(),
            last_index_of(v@, c) == last_index_of(v@.subrange(0, i as int), c),
        decreases i,
    {
        let ghost head = v@.subrange(0, i as int);
        assert(head.last() == v@[i - 1]);
        assert(head.drop_last() == v@.subrange(0, i - 1));
        if v[i - 1] == c {
            return Some(i - 1);
        }
        i -= 1;
    }
    None
}

/// `Itertools::join` over strings: the items in order, with `sep` between
/// each two neighbours and nothing at either end.
#[verifier::external_body]
pub(crate) fn joined(parts: &Vec<String>, sep: &str) -> (r: String)
    ensures
        r@ == join(texts(parts@), sep@),
{
    itertools::Itertools::join(&mut parts.iter(), sep)
}

/// `Itertools::sorted` over strings: the same items, in ascending order of
/// `str`.
#[verifier::external_body]
pub(crate) fn in_order(parts: Vec<String>) -> (r: Vec<String>)
    ensures
        texts(r@).to_multiset() == texts(parts@).to_multiset(),
        vstd::relations::sorted_by(texts(r@), text_order()),
{
    itertools::Itertools::sorted(parts.into_iter()).collect()
}

/// The strings in ascending order.
pub fn sort_strings(parts: Vec<String>) -> (r: Vec<String>)
    ensures
        texts(r@) == sorted(texts(parts@)),
{
    let ghost before = texts(parts@);
    let r = in_order(parts);
    proof {
        lemma_text_order_total();
        before.lemma_sort_by_ensures(text_order());
        vstd::seq_lib::lemma_sorted_unique(texts(r@), sorted(before), text_order());
    }
    r
}

} // verus!
