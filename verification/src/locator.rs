//! `Locator`: a path of `Loc` steps.

use crate::loc::{
    is_loc_char, lemma_loc_round_trip, lemma_loc_text_chars, loc_text, outcome, outcome_chars,
    parse_loc, Loc,
};
use crate::text::{chars_of, join, lacks, lemma_split_join, padded, pieces, rows, split, string_of};
use vstd::prelude::*;

verus! {

/// A non-empty sequence of steps, written with dots between them.
#[derive(Debug)]
pub struct Locator {
    locs: Vec<Loc>,
}

/// The texts of the steps.
pub open spec fn step_texts(locs: Seq<Loc>) -> Seq<Seq<char>> {
    locs.map_values(|l: Loc| loc_text(l))
}

/// The canonical text of a path: its steps joined by dots.
pub open spec fn locator_text(locs: Seq<Loc>) -> Seq<char> {
    join(step_texts(locs), seq!['.'])
}

/// The steps that the pieces denote, or the message of the first piece that
/// denotes none.
pub open spec fn parse_steps(parts: Seq<Seq<char>>) -> Result<Seq<Loc>, Seq<char>>
    decreases parts.len(),
{
    if parts.len() == 0 {
        Ok(Seq::empty())
    } else {
        match parse_steps(parts.drop_last()) {
            Err(e) => Err(e),
            Ok(locs) => match parse_loc(parts.last()) {
                Err(e) => Err(e),
                Ok(l) => Ok(locs.push(l)),
            },
        }
    }
}

/// The path that a text denotes: the text is cut at every dot and each piece
/// is read as a `Loc`.
pub open spec fn parse_locator(s: Seq<char>) -> Result<Seq<Loc>, Seq<char>> {
    parse_steps(split(s, '.'))
}

/// A parser's result with its value seen through the view.
pub open spec fn viewed<T: View>(r: Result<T, Seq<char>>) -> Result<T::V, Seq<char>> {
    match r {
        Ok(v) => Ok(v@),
        Err(e) => Err(e),
    }
}

impl View for Locator {
    type V = Seq<Loc>;

    closed spec fn view(&self) -> Seq<Loc> {
        self.locs@
    }
}

impl Clone for Locator {
    fn clone(&self) -> (r: Self)
        ensures
            r@ == self@,
    {
        proof {
            use_type_invariant(self);
        }
        let mut locs: Vec<Loc> = Vec::new();
        let mut i: usize = 0;
        while i < self.locs.len()
            invariant
                i <= self.locs@.len(),
                locs@ == self.locs@.subrange(0, i as int),
            decreases self.locs@.len() - i,
        {
            locs.push(self.locs[i]);
            i += 1;
        }
        assert(self.locs@.subrange(0, self.locs@.len() as int) == self.locs@);
        Locator { locs }
    }
}

impl Locator {
    #[verifier::type_invariant]
    spec fn has_steps(self) -> bool {
        self.locs@.len() >= 1
    }

    /// The path of one step.
    pub fn from_loc(loc: Loc) -> (r: Locator)
        ensures
            r@ == seq![loc],
    {
        let mut locs: Vec<Loc> = Vec::new();
        locs.push(loc);
        Locator { locs }
    }

    /// The path of the given steps, if there is at least one.
    pub fn from_vec(locs: Vec<Loc>) -> (r: Option<Locator>)
        ensures
            match r {
                Some(p) => locs@.len() >= 1 && p@ == locs@,
                None => locs@.len() == 0,
            },
    {
        if locs.len() == 0 {
            None
        } else {
            Some(Locator { locs })
        }
    }

    /// The number of steps, which is at least one.
    pub fn len(&self) -> (r: usize)
        ensures
            r == self@.len(),
            r >= 1,
    {
        proof {
            use_type_invariant(self);
        }
        self.locs.len()
    }

    /// The step at place `i`, if the path is that long.
    pub fn loc(&self, i: usize) -> (r: Option<&Loc>)
        ensures
            match r {
                Some(l) => i < self@.len() && *l == self@[i as int],
                None => i >= self@.len(),
            },
    {
        if i < self.locs.len() {
            Some(&self.locs[i])
        } else {
            None
        }
    }

    /// The steps.
    pub fn to_vec(&self) -> (r: Vec<Loc>)
        ensures
            r@ == self@,
    {
        self.clone().locs
    }

    /// Appends the canonical text.
    pub fn write(&self, out: &mut Vec<char>)
        ensures
            final(out)@ == old(out)@ + locator_text(self@),
    {
        proof {
            use_type_invariant(self);
        }
        let ghost texts = step_texts(self.locs@);
        self.locs[0].write(out);
        assert(texts.subrange(0, 1) == seq![texts[0]]);
        let mut i: usize = 1;
        while i < self.locs.len()
            invariant
                1 <= i <= self.locs@.len(),
                texts == step_texts(self.locs@),
                out@ == old(out)@ + join(texts.subrange(0, i as int), seq!['.']),
            decreases self.locs@.len() - i,
        {
            let ghost head = texts.subrange(0, i as int);
            let ghost next = texts.subrange(0, i + 1);
            out.push('.');
            self.locs[i].write(out);
            assert(next.drop_last() == head);
            assert(next.last() == loc_text(self.locs@[i as int]));
            assert(out@ == old(out)@ + (join(head, seq!['.']) + seq!['.'] + next.last()));
            i += 1;
        }
        assert(texts.subrange(0, texts.len() as int) == texts);
    }

    /// The canonical text.
    pub fn to_string(&self) -> (r: String)
        ensures
            r@ == locator_text(self@),
    {
        let mut out: Vec<char> = Vec::new();
        self.write(&mut out);
        string_of(&out)
    }

    /// Reads a path from characters.
    pub fn read(s: &Vec<char>) -> (r: Result<Locator, Vec<char>>)
        ensures
            viewed(outcome_chars(r)) == parse_locator(s@),
    {
        let parts = pieces(s, '.');
        proof {
            lemma_split_some(s@, '.');
        }
        let ghost all = rows(parts@);
        let mut locs: Vec<Loc> = Vec::new();
        let mut i: usize = 0;
        while i < parts.len()
            invariant
                i <= parts@.len(),
                all == rows(parts@),
                all == split(s@, '.'),
                parse_steps(all.subrange(0, i as int)) == Ok::<Seq<Loc>, Seq<char>>(locs@),
                locs@.len() == i,
            decreases parts@.len() - i,
        {
            let ghost head = all.subrange(0, i as int);
            let ghost next = all.subrange(0, i + 1);
            assert(next.drop_last() == head);
            assert(next.last() == parts@[i as int]@);
            let ghost one = parse_loc(next.last());
            assert(parse_steps(next) == match parse_steps(head) {
                Err(e) => Err(e),
                Ok(ls) => match one {
                    Err(e) => Err(e),
                    Ok(l) => Ok(ls.push(l)),
                },
            });
            match Loc::read(&parts[i]) {
                Ok(l) => {
                    locs.push(l);
                },
                Err(e) => {
                    proof {
                        assert(parse_steps(next) == Err::<Seq<Loc>, Seq<char>>(e@));
                        lemma_steps_fail(all, i + 1);
                        assert(all.subrange(0, all.len() as int) == all);
                    }
                    return Err(e);
                },
            }
            i += 1;
        }
        assert(all.subrange(0, all.len() as int) == all);
        Ok(Locator { locs })
    }

    /// Reads a path from its text.
    pub fn from_str(s: &str) -> (r: Result<Locator, String>)
        ensures
            viewed(outcome(r)) == parse_locator(s@),
    {
        let v = chars_of(s);
        match Locator::read(&v) {
            Ok(l) => Ok(l),
            Err(e) => Err(string_of(&e)),
        }
    }
}

impl std::str::FromStr for Locator {
    type Err = String;

    /// Reads a path from its text, as `Locator::from_str` does.
    fn from_str(s: &str) -> (r: Result<Locator, String>)
        ensures
            viewed(outcome(r)) == parse_locator(s@),
    {
        Locator::from_str(s)
    }
}

/// The characters that the text of a path is made of.
pub open spec fn is_path_char(c: char) -> bool {
    is_loc_char(c) || c == '.'
}

/// The text of a path is not empty, begins and ends with the character of a
/// slot, and holds none but those and dots.
pub proof fn lemma_locator_text_chars(locs: Seq<Loc>)
    requires
        locs.len() >= 1,
    ensures
        locator_text(locs).len() >= 1,
        is_loc_char(locator_text(locs)[0]),
        is_loc_char(locator_text(locs).last()),
        forall|i: int|
            0 <= i < locator_text(locs).len() ==> is_path_char(#[trigger] locator_text(locs)[i]),
    decreases locs.len(),
{
    let texts = step_texts(locs);
    lemma_loc_text_chars(locs.last());
    assert(texts.last() == loc_text(locs.last()));
    if locs.len() > 1 {
        lemma_locator_text_chars(locs.drop_last());
        assert(texts.drop_last() =~= step_texts(locs.drop_last()));
        let t = locator_text(locs);
        assert(t == locator_text(locs.drop_last()) + seq!['.'] + loc_text(locs.last()));
    }
}

/// The steps written one by one read back as they were.
pub proof fn lemma_steps_round_trip(locs: Seq<Loc>)
    requires
        forall|i: int| 0 <= i < locs.len() ==> (#[trigger] locs[i]).canonical(),
    ensures
        parse_steps(step_texts(locs)) == Ok::<Seq<Loc>, Seq<char>>(locs),
    decreases locs.len(),
{
    let texts = step_texts(locs);
    if locs.len() == 0 {
        assert(locs =~= Seq::<Loc>::empty());
    } else {
        lemma_steps_round_trip(locs.drop_last());
        assert(texts.drop_last() =~= step_texts(locs.drop_last()));
        assert(locs.last().canonical());
        lemma_loc_round_trip(locs.last());
        assert(locs.drop_last().push(locs.last()) =~= locs);
    }
}

/// A path of canonical steps, written and read, is the same path.
pub proof fn lemma_locator_round_trip(locs: Seq<Loc>)
    requires
        locs.len() >= 1,
        forall|i: int| 0 <= i < locs.len() ==> (#[trigger] locs[i]).canonical(),
    ensures
        parse_locator(locator_text(locs)) == Ok::<Seq<Loc>, Seq<char>>(locs),
{
    let texts = step_texts(locs);
    let e = Seq::<char>::empty();
    assert forall|i: int| 0 <= i < texts.len() implies lacks(#[trigger] texts[i], '.') by {
        lemma_loc_text_chars(locs[i]);
    }
    lemma_split_join(texts, '.', e, e);
    assert(seq!['.'] + e =~= seq!['.']);
    assert(e + locator_text(locs) =~= locator_text(locs));
    assert(padded(texts, e, e) =~= texts) by {
        assert forall|i: int| 0 <= i < texts.len() implies padded(texts, e, e)[i] == texts[i] by {
            assert(e + texts[i] =~= texts[i]);
        }
    }
    lemma_steps_round_trip(locs);
}

/// A text is cut into at least one piece.
pub proof fn lemma_split_some(s: Seq<char>, c: char)
    ensures
        split(s, c).len() >= 1,
    decreases s.len(),
{
    let i = crate::text::index_of(s, c);
    if 0 <= i < s.len() {
        lemma_split_some(s.subrange(i + 1, s.len() as int), c);
    }
}

/// Once a piece fails, the pieces after it change nothing.
pub proof fn lemma_steps_fail(parts: Seq<Seq<char>>, i: int)
    requires
        0 <= i <= parts.len(),
        parse_steps(parts.subrange(0, i)) is Err,
    ensures
        parse_steps(parts) == parse_steps(parts.subrange(0, i)),
    decreases parts.len() - i,
{
    if i == parts.len() {
        assert(parts.subrange(0, i) == parts);
    } else {
        assert(parts.drop_last().subrange(0, i) == parts.subrange(0, i));
        lemma_steps_fail(parts.drop_last(), i);
    }
}

} // verus!
