//! `Loc`: the name of one slot of an object.

use crate::number::{
    dec, dec_int, int_error_message, int_error_text, is_number, lemma_dec_is_number,
    lemma_parse_dec, lemma_scan_range, number, parse_int, push_dec, push_int, read_int, IntError,
};
use crate::object::Ob;
use crate::text::{chars_of, failure, slice, string_of};
use vstd::prelude::*;

verus! {

/// One step of a path through the object graph, or the name of a slot.
#[derive(Debug, Clone, Copy, PartialEq, Eq, Hash, Structural)]
pub enum Loc {
    /// `Φ`, the root.
    Root,
    /// `ρ`, the parent of the object itself.
    Rho,
    /// `𝜑`, the result.
    Phi,
    /// `𝜋`, the activation.
    Pi,
    /// `Δ`, the data.
    Delta,
    /// `σ`, the enclosing scope.
    Sigma,
    /// `𝛼i`, the argument number `i`.
    Attr(i8),
    /// `νn`, the object number `n`.
    Obj(Ob),
}

/// The canonical text of a `Loc`.
pub open spec fn loc_text(l: Loc) -> Seq<char> {
    match l {
        Loc::Root => seq!['Φ'],
        Loc::Rho => seq!['ρ'],
        Loc::Phi => seq!['𝜑'],
        Loc::Pi => seq!['𝜋'],
        Loc::Delta => seq!['Δ'],
        Loc::Sigma => seq!['σ'],
        Loc::Attr(i) => seq!['𝛼'] + dec_int(i as int),
        Loc::Obj(n) => seq!['ν'] + dec(n as nat),
    }
}

/// The message for an argument number that is out of range.
pub open spec fn attr_failure(digits: Seq<char>, e: IntError) -> Seq<char> {
    "Failed to parse attr number '"@ + digits + "': "@ + int_error_text(e)
}

/// The message for an object number that is out of range.
pub open spec fn obj_failure(digits: Seq<char>, e: IntError) -> Seq<char> {
    "Failed to parse obj number '"@ + digits + "': "@ + int_error_text(e)
}

/// The message for a text that is no `Loc` at all.
pub open spec fn unknown_loc(s: Seq<char>) -> Seq<char> {
    "Unknown loc: '"@ + s + "'"@
}

/// `s` without the `𝛼` that may stand before an argument number.
pub open spec fn attr_digits(s: Seq<char>) -> Seq<char> {
    if s.len() > 0 && s[0] == '𝛼' {
        s.drop_first()
    } else {
        s
    }
}

/// The `Loc` that a text denotes, or the message that says why it denotes
/// none. Digits, with or without `𝛼` before them, are an argument; `ν` and
/// digits are an object; the six special slots have a symbol and an ASCII
/// alias each.
#[verifier::opaque]
pub open spec fn parse_loc(s: Seq<char>) -> Result<Loc, Seq<char>> {
    if is_number(attr_digits(s)) {
        match parse_int(attr_digits(s), false, true, i8::MIN as int, i8::MAX as int) {
            Ok(n) => Ok(Loc::Attr(n as i8)),
            Err(e) => Err(attr_failure(attr_digits(s), e)),
        }
    } else if s.len() > 0 && s[0] == 'ν' && is_number(s.drop_first()) {
        match parse_int(s.drop_first(), false, false, 0, usize::MAX as int) {
            Ok(n) => Ok(Loc::Obj(n as usize)),
            Err(e) => Err(obj_failure(s.drop_first(), e)),
        }
    } else if s == seq!['Φ'] || s == seq!['Q'] {
        Ok(Loc::Root)
    } else if s == seq!['Δ'] || s == seq!['D'] {
        Ok(Loc::Delta)
    } else if s == seq!['𝜋'] || s == seq!['P'] {
        Ok(Loc::Pi)
    } else if s == seq!['ρ'] || s == seq!['^'] {
        Ok(Loc::Rho)
    } else if s == seq!['𝜑'] || s == seq!['@'] {
        Ok(Loc::Phi)
    } else if s == seq!['σ'] || s == seq!['&'] {
        Ok(Loc::Sigma)
    } else {
        Err(unknown_loc(s))
    }
}

/// What a parser hands out, seen through the views of its two sides.
pub open spec fn outcome<T>(r: Result<T, String>) -> Result<T, Seq<char>> {
    match r {
        Ok(v) => Ok(v),
        Err(e) => Err(e@),
    }
}

/// The same for a parser that reports in characters.
pub open spec fn outcome_chars<T>(r: Result<T, Vec<char>>) -> Result<T, Seq<char>> {
    match r {
        Ok(v) => Ok(v),
        Err(e) => Err(e@),
    }
}

impl Loc {
    /// A `Loc` that some text denotes: every one but a negative argument.
    pub open spec fn canonical(self) -> bool {
        match self {
            Loc::Attr(i) => i >= 0,
            _ => true,
        }
    }

    /// The rank of the variant, by which slots are ordered first.
    pub open spec fn tag(self) -> int {
        match self {
            Loc::Root => 0,
            Loc::Rho => 1,
            Loc::Phi => 2,
            Loc::Pi => 3,
            Loc::Delta => 4,
            Loc::Sigma => 5,
            Loc::Attr(_) => 6,
            Loc::Obj(_) => 7,
        }
    }

    /// The number a variant carries, by which slots are ordered next.
    pub open spec fn number(self) -> int {
        match self {
            Loc::Attr(i) => i as int,
            Loc::Obj(n) => n as int,
            _ => 0,
        }
    }

    /// The strict order in which slots are kept and visited.
    pub open spec fn precedes(self, other: Loc) -> bool {
        self.tag() < other.tag() || (self.tag() == other.tag() && self.number() < other.number())
    }

    fn rank(&self) -> (r: (u8, i128))
        ensures
            r.0 == self.tag(),
            r.1 == self.number(),
    {
        match self {
            Loc::Root => (0, 0),
            Loc::Rho => (1, 0),
            Loc::Phi => (2, 0),
            Loc::Pi => (3, 0),
            Loc::Delta => (4, 0),
            Loc::Sigma => (5, 0),
            Loc::Attr(i) => (6, *i as i128),
            Loc::Obj(n) => (7, *n as i128),
        }
    }

    /// Whether this slot comes before the other.
    pub fn before(&self, other: &Loc) -> (r: bool)
        ensures
            r == self.precedes(*other),
    {
        let a = self.rank();
        let b = other.rank();
        a.0 < b.0 || (a.0 == b.0 && a.1 < b.1)
    }

    /// Appends the canonical text.
    pub fn write(&self, out: &mut Vec<char>)
        ensures
            final(out)@ == old(out)@ + loc_text(*self),
    {
        match self {
            Loc::Root => out.push('Φ'),
            Loc::Rho => out.push('ρ'),
            Loc::Phi => out.push('𝜑'),
            Loc::Pi => out.push('𝜋'),
            Loc::Delta => out.push('Δ'),
            Loc::Sigma => out.push('σ'),
            Loc::Attr(i) => {
                out.push('𝛼');
                let ghost mid = out@;
                push_int(out, *i as i64);
                assert(out@ == old(out)@ + (seq!['𝛼'] + dec_int(*i as int)));
            },
            Loc::Obj(n) => {
                out.push('ν');
                push_dec(out, *n as u64);
                assert(out@ == old(out)@ + (seq!['ν'] + dec(*n as nat)));
            },
        }
    }

    /// The canonical text.
    pub fn to_string(&self) -> (r: String)
        ensures
            r@ == loc_text(*self),
    {
        let mut out: Vec<char> = Vec::new();
        self.write(&mut out);
        string_of(&out)
    }

    /// Reads a `Loc` from characters.
    pub fn read(s: &Vec<char>) -> (r: Result<Loc, Vec<char>>)
        ensures
            outcome_chars(r) == parse_loc(s@),
    {
        proof {
            reveal(parse_loc);
        }
        let digits = if s.len() > 0 && s[0] == '𝛼' {
            slice(s, 1, s.len())
        } else {
            slice(s, 0, s.len())
        };
        assert(digits@ == attr_digits(s@));
        if number(&digits) {
            return match read_int(&digits, false, true, -128, 127) {
                Ok(n) => Ok(Loc::Attr(n as i8)),
                Err(e) => Err(
                    failure("Failed to parse attr number '", &digits, "': ", int_error_message(e)),
                ),
            };
        }
        if s.len() > 0 && s[0] == 'ν' {
            let tail = slice(s, 1, s.len());
            if number(&tail) {
                return match read_int(&tail, false, false, 0, usize::MAX as i128) {
                    Ok(n) => Ok(Loc::Obj(n as usize)),
                    Err(e) => Err(
                        failure("Failed to parse obj number '", &tail, "': ", int_error_message(e)),
                    ),
                };
            }
        }
        if s.len() == 1 {
            assert(s@ == seq![s@[0]]);
            let c = s[0];
            if c == 'Φ' || c == 'Q' {
                return Ok(Loc::Root);
            } else if c == 'Δ' || c == 'D' {
                return Ok(Loc::Delta);
            } else if c == '𝜋' || c == 'P' {
                return Ok(Loc::Pi);
            } else if c == 'ρ' || c == '^' {
                return Ok(Loc::Rho);
            } else if c == '𝜑' || c == '@' {
                return Ok(Loc::Phi);
            } else if c == 'σ' || c == '&' {
                return Ok(Loc::Sigma);
            }
        }
        proof {
            reveal_strlit("");
            assert(s@.len() != 1 ==> s@ != seq!['Φ'] && s@ != seq!['Q'] && s@ != seq!['Δ'] && s@
                != seq!['D'] && s@ != seq!['𝜋'] && s@ != seq!['P'] && s@ != seq!['ρ'] && s@
                != seq!['^'] && s@ != seq!['𝜑'] && s@ != seq!['@'] && s@ != seq!['σ'] && s@
                != seq!['&']);
        }
        let e = failure("Unknown loc: '", s, "'", "");
        assert(e@ =~= unknown_loc(s@));
        Err(e)
    }

    /// Reads a `Loc` from its text, symbolic or ASCII.
    pub fn from_str(s: &str) -> (r: Result<Loc, String>)
        ensures
            outcome(r) == parse_loc(s@),
    {
        let v = chars_of(s);
        match Loc::read(&v) {
            Ok(l) => Ok(l),
            Err(e) => Err(string_of(&e)),
        }
    }
}

impl std::str::FromStr for Loc {
    type Err = String;

    /// Reads a `Loc` from its text, as `Loc::from_str` does.
    fn from_str(s: &str) -> (r: Result<Loc, String>)
        ensures
            outcome(r) == parse_loc(s@),
    {
        Loc::from_str(s)
    }
}

/// The characters that the text of a slot is made of.
pub open spec fn is_loc_char(c: char) -> bool {
    ||| '0' <= c <= '9'
    ||| c == '-'
    ||| c == 'Φ'
    ||| c == 'ρ'
    ||| c == '𝜑'
    ||| c == '𝜋'
    ||| c == 'Δ'
    ||| c == 'σ'
    ||| c == '𝛼'
    ||| c == 'ν'
}

/// The text of a slot is not empty, starts with no digit unless it is an
/// argument's number, and holds none but the characters of slots.
pub proof fn lemma_loc_text_chars(l: Loc)
    ensures
        loc_text(l).len() >= 1,
        forall|i: int| 0 <= i < loc_text(l).len() ==> is_loc_char(#[trigger] loc_text(l)[i]),
        !('0' <= loc_text(l)[0] <= '9') && loc_text(l)[0] != '-',
{
    match l {
        Loc::Attr(i) => {
            if i < 0 {
                lemma_dec_is_number((-i) as nat);
            } else {
                lemma_dec_is_number(i as nat);
            }
        },
        Loc::Obj(n) => {
            lemma_dec_is_number(n as nat);
        },
        _ => {},
    }
}

/// Whatever canonical slot is written, reading the text gives the slot back:
/// printing what was read from a canonical text yields that text again.
pub proof fn lemma_loc_round_trip(l: Loc)
    requires
        l.canonical(),
    ensures
        parse_loc(loc_text(l)) == Ok::<Loc, Seq<char>>(l),
{
    reveal(parse_loc);
    let s = loc_text(l);
    match l {
        Loc::Attr(i) => {
            lemma_dec_is_number(i as nat);
            assert(attr_digits(s) =~= dec(i as nat));
            lemma_parse_dec(i as nat, true, i8::MIN as int, i8::MAX as int);
        },
        Loc::Obj(n) => {
            lemma_dec_is_number(n as nat);
            assert(s.drop_first() =~= dec(n as nat));
            assert(attr_digits(s) == s);
            assert(!is_number(s)) by {
                assert(s[0] == 'ν');
            }
            lemma_parse_dec(n as nat, false, 0, usize::MAX as int);
        },
        _ => {
            assert(attr_digits(s) == s);
            assert(!is_number(s)) by {
                assert(!('0' <= s[0] <= '9'));
            }
        },
    }
}

/// Every text that is read denotes a canonical slot, so that printing and
/// reading once more changes nothing: the printed form is the canonical one
/// of whatever alias was read.
pub proof fn lemma_loc_canonical_form(s: Seq<char>)
    requires
        parse_loc(s) is Ok,
    ensures
        parse_loc(s)->Ok_0.canonical(),
        parse_loc(loc_text(parse_loc(s)->Ok_0)) == parse_loc(s),
{
    reveal(parse_loc);
    let l = parse_loc(s)->Ok_0;
    if is_number(attr_digits(s)) {
        lemma_scan_range(attr_digits(s), false, false, i8::MIN as int, i8::MAX as int, 0);
    }
    lemma_loc_round_trip(l);
}

} // verus!
