//! `Atom`: the primitive operations, a closed registry of seven.

use crate::data::Data;
use crate::text::is_text;
use vstd::prelude::*;

verus! {

/// One of the primitive operations that an object may name under `λ`.
#[derive(Clone, Copy, Debug, PartialEq, Eq, Hash, Structural)]
pub enum Atom {
    /// `int-times`: the product of `ρ` and `𝛼0`.
    IntTimes,
    /// `int-div`: the quotient of `ρ` by `𝛼0`.
    IntDiv,
    /// `int-sub`: `ρ` less `𝛼0`.
    IntSub,
    /// `int-add`: the sum of `ρ` and `𝛼0`.
    IntAdd,
    /// `int-neg`: `ρ` negated.
    IntNeg,
    /// `bool-if`: `𝛼0` where `ρ` is not zero, else `𝛼1`.
    BoolIf,
    /// `int-less`: one where `ρ` is below `𝛼0`, else zero.
    IntLess,
}

/// The name under which an atom is registered.
pub open spec fn atom_name(a: Atom) -> Seq<char> {
    match a {
        Atom::IntTimes => "int-times"@,
        Atom::IntDiv => "int-div"@,
        Atom::IntSub => "int-sub"@,
        Atom::IntAdd => "int-add"@,
        Atom::IntNeg => "int-neg"@,
        Atom::BoolIf => "bool-if"@,
        Atom::IntLess => "int-less"@,
    }
}

/// The atom registered under a name, if there is one.
pub open spec fn atom_named(s: Seq<char>) -> Option<Atom> {
    if s == "int-times"@ {
        Some(Atom::IntTimes)
    } else if s == "int-div"@ {
        Some(Atom::IntDiv)
    } else if s == "int-sub"@ {
        Some(Atom::IntSub)
    } else if s == "int-add"@ {
        Some(Atom::IntAdd)
    } else if s == "int-neg"@ {
        Some(Atom::IntNeg)
    } else if s == "bool-if"@ {
        Some(Atom::BoolIf)
    } else if s == "int-less"@ {
        Some(Atom::IntLess)
    } else {
        None
    }
}

/// `i` brought into sixteen bits by wrapping around.
pub open spec fn wrap16(i: int) -> int {
    (i + 32768) % 65536 - 32768
}

/// The quotient rounded toward zero.
pub open spec fn quotient(a: int, b: int) -> int
    recommends
        b != 0,
{
    if a >= 0 && b > 0 {
        a / b
    } else if a < 0 && b > 0 {
        -((-a) / b)
    } else if a >= 0 {
        -(a / (-b))
    } else {
        (-a) / (-b)
    }
}

/// What an atom of two operands makes of them; `None` is a division by
/// zero. Arithmetic wraps around in sixteen bits.
pub open spec fn atom_value(a: Atom, rho: int, arg: int) -> Option<int> {
    match a {
        Atom::IntTimes => Some(wrap16(rho * arg)),
        Atom::IntDiv => if arg == 0 {
            None
        } else {
            Some(wrap16(quotient(rho, arg)))
        },
        Atom::IntSub => Some(wrap16(rho - arg)),
        Atom::IntAdd => Some(wrap16(rho + arg)),
        Atom::IntNeg => Some(wrap16(-rho)),
        Atom::BoolIf => Some(arg),
        Atom::IntLess => Some(
            if rho < arg {
                1
            } else {
                0
            },
        ),
    }
}

/// Every atom is found again under its own name.
pub proof fn lemma_atom_names(a: Atom)
    ensures
        atom_named(atom_name(a)) == Some(a),
        atom_name(a).len() > 0,
        forall|i: int|
            0 <= i < atom_name(a).len() ==> 'a' <= #[trigger] atom_name(a)[i] <= 'z' || atom_name(
                a,
            )[i] == '-',
{
    reveal_strlit("int-times");
    reveal_strlit("int-div");
    reveal_strlit("int-sub");
    reveal_strlit("int-add");
    reveal_strlit("int-neg");
    reveal_strlit("bool-if");
    reveal_strlit("int-less");
    assert("int-times"@[4] == 't');
    assert("int-div"@[4] == 'd');
    assert("int-sub"@[4] == 's');
    assert("int-add"@[4] == 'a');
    assert("int-neg"@[4] == 'n');
    assert("bool-if"@[4] == '-');
    assert("int-less"@[4] == 'l');
}

fn wrapped(v: i64) -> (r: Data)
    requires
        -0x4000_0000 <= v <= 0x4000_0000,
    ensures
        r == wrap16(v as int),
{
    let m: i64 = (v + 32768) % 65536;
    let n: i64 = if m < 0 {
        m + 65536
    } else {
        m
    };
    (n - 32768) as i16
}

impl Atom {
    /// The name under which the atom is registered.
    pub fn name(&self) -> (r: &'static str)
        ensures
            r@ == atom_name(*self),
    {
        match self {
            Atom::IntTimes => "int-times",
            Atom::IntDiv => "int-div",
            Atom::IntSub => "int-sub",
            Atom::IntAdd => "int-add",
            Atom::IntNeg => "int-neg",
            Atom::BoolIf => "bool-if",
            Atom::IntLess => "int-less",
        }
    }

    /// The atom registered under a name, if there is one.
    pub fn named(s: &Vec<char>) -> (r: Option<Atom>)
        ensures
            r == atom_named(s@),
    {
        if is_text(s, "int-times") {
            Some(Atom::IntTimes)
        } else if is_text(s, "int-div") {
            Some(Atom::IntDiv)
        } else if is_text(s, "int-sub") {
            Some(Atom::IntSub)
        } else if is_text(s, "int-add") {
            Some(Atom::IntAdd)
        } else if is_text(s, "int-neg") {
            Some(Atom::IntNeg)
        } else if is_text(s, "bool-if") {
            Some(Atom::BoolIf)
        } else if is_text(s, "int-less") {
            Some(Atom::IntLess)
        } else {
            None
        }
    }

    /// What the atom makes of its operands; `None` is a division by zero.
    pub fn apply(&self, rho: Data, arg: Data) -> (r: Option<Data>)
        ensures
            match r {
                Some(d) => atom_value(*self, rho as int, arg as int) == Some(d as int),
                None => atom_value(*self, rho as int, arg as int) is None,
            },
    {
        let a: i64 = rho as i64;
        let b: i64 = arg as i64;
        match self {
            Atom::IntTimes => {
                assert(-0x4000_0000 <= a * b <= 0x4000_0000) by (nonlinear_arith)
                    requires
                        -32768 <= a <= 32767,
                        -32768 <= b <= 32767,
                ;
                Some(wrapped(a * b))
            },
            Atom::IntDiv => {
                if b == 0 {
                    None
                } else {
                    let x: u64 = if a < 0 {
                        (-a) as u64
                    } else {
                        a as u64
                    };
                    let y: u64 = if b < 0 {
                        (-b) as u64
                    } else {
                        b as u64
                    };
                    let q: i64 = (x / y) as i64;
                    let v: i64 = if (a < 0) != (b < 0) {
                        -q
                    } else {
                        q
                    };
                    Some(wrapped(v))
                }
            },
            Atom::IntSub => Some(wrapped(a - b)),
            Atom::IntAdd => Some(wrapped(a + b)),
            Atom::IntNeg => Some(wrapped(-a)),
            Atom::BoolIf => Some(arg),
            Atom::IntLess => Some(
                if rho < arg {
                    1
                } else {
                    0
                },
            ),
        }
    }
}

} // verus!
