//! What is written of a program reads back as the program.

use crate::emu::{
    decl_text, grown, is_vacant, parse_decl, parse_decls, parse_program, program_text, table_put,
    MAX_OBJECTS,
};
use crate::number::{dec, lemma_dec_is_number, lemma_parse_dec};
use crate::object::{empty_object, object_text, Ob, ObjectView};
use crate::object_laws::{
    lemma_object_prefixed, lemma_object_round_trip, lemma_object_text_shape, object_printable,
};
use crate::text::{is_space, lemma_index_of_is};
use vstd::prelude::*;

verus! {

/// A table whose text reads back: within `MAX_OBJECTS`, without vacant
/// places at its end, each place holding a printable object or the object
/// with nothing inside.
pub open spec fn table_printable(table: Seq<ObjectView>) -> bool {
    &&& table.len() <= MAX_OBJECTS
    &&& table.len() > 0 ==> !is_vacant(table.last())
    &&& forall|i: int|
        0 <= i < table.len() ==> if is_vacant(#[trigger] table[i]) {
            table[i] == empty_object()
        } else {
            object_printable(table[i])
        }
}

/// The first `n` places of a table, up to the last that is not vacant.
pub open spec fn filled(table: Seq<ObjectView>, n: nat) -> Seq<ObjectView>
    decreases n,
{
    if n == 0 {
        Seq::empty()
    } else if is_vacant(table[n - 1]) {
        filled(table, (n - 1) as nat)
    } else {
        table.subrange(0, n as int)
    }
}

/// What `filled` leaves out is vacant.
pub proof fn lemma_filled(table: Seq<ObjectView>, n: nat)
    requires
        n <= table.len(),
    ensures
        filled(table, n).len() <= n,
        filled(table, n) == table.subrange(0, filled(table, n).len() as int),
        forall|i: int| filled(table, n).len() <= i < n ==> is_vacant(#[trigger] table[i]),
    decreases n,
{
    if n > 0 && is_vacant(table[n - 1]) {
        lemma_filled(table, (n - 1) as nat);
    }
}

/// What stands before the object in a declaration.
pub open spec fn decl_head(n: nat) -> Seq<char> {
    seq!['ν'] + dec(n) + seq!['(', '𝜋', ')', ' ', '↦', ' ']
}

/// The declaration of a printable object, written and read, gives the
/// place and the object.
pub proof fn lemma_decl_round_trip(n: nat, o: ObjectView)
    requires
        n <= usize::MAX,
        object_printable(o),
    ensures
        parse_decl(decl_text(n, o)) == Ok::<(Ob, ObjectView), Seq<char>>((n as Ob, o)),
        decl_text(n, o).len() > 0,
        decl_text(n, o)[0] == 'ν',
        decl_text(n, o).last() == '⟧',
        forall|k: int|
            0 <= k < decl_text(n, o).len() - 1 ==> #[trigger] decl_text(n, o)[k] != '⟧',
{
    let pre = decl_head(n);
    let t = object_text(o);
    let decl = decl_text(n, o);
    let d = dec(n);
    assert(decl =~= pre + t);
    lemma_dec_is_number(n);
    lemma_object_text_shape(o);
    lemma_object_round_trip(o);
    assert forall|k: int| 0 <= k < pre.len() implies pre[k] != '⟦' && pre[k] != '⟧' by {
        if 1 <= k < 1 + d.len() {
            assert(pre[k] == d[k - 1]);
        }
    }
    lemma_object_prefixed(pre, t);
    let a = 1 + d.len() as int;
    assert forall|k: int| 0 <= k < a implies decl[k] != '(' by {
        if k >= 1 {
            assert(decl[k] == d[k - 1]);
        }
    }
    assert(decl[a] == '(');
    lemma_index_of_is(decl, '(', a);
    assert(decl.subrange(1, a) =~= d);
    lemma_parse_dec(n, false, 0, usize::MAX as int);
    assert forall|k: int| 0 <= k < decl.len() - 1 implies #[trigger] decl[k] != '⟧' by {
        if k >= pre.len() {
            assert(decl[k] == t[k - pre.len()]);
        } else {
            assert(decl[k] == pre[k]);
        }
    }
    assert(decl.last() == t.last());
}

/// A declaration at the head of a text is read, its object put into the
/// table, and the rest of the text read on.
pub proof fn lemma_decl_read(n: nat, o: ObjectView, tail: Seq<char>, table: Seq<ObjectView>)
    requires
        n <= usize::MAX,
        object_printable(o),
        table_put(table, n as int, o) is Some,
    ensures
        parse_decls(decl_text(n, o) + tail, table) == parse_decls(
            tail,
            table_put(table, n as int, o)->Some_0,
        ),
{
    let decl = decl_text(n, o);
    let s = decl + tail;
    lemma_decl_round_trip(n, o);
    let e = decl.len() - 1;
    assert(s[0] == decl[0]);
    assert forall|k: int| 0 <= k < e implies s[k] != '⟧' by {
        assert(s[k] == decl[k]);
    }
    assert(s[e] == decl[e]);
    lemma_index_of_is(s, '⟧', e);
    assert(s.subrange(0, e + 1) =~= decl);
    assert(s.subrange(e + 1, s.len() as int) =~= tail);
}

/// The text of the first places of a printable table, with whatever
/// follows it, reads as those places and then as what follows.
pub proof fn lemma_program_read(table: Seq<ObjectView>, n: nat, tail: Seq<char>)
    requires
        table_printable(table),
        n <= table.len(),
    ensures
        parse_decls(program_text(table, n) + tail, Seq::empty()) == parse_decls(
            tail,
            filled(table, n),
        ),
    decreases n,
{
    let e = Seq::<char>::empty();
    if n == 0 {
        assert(program_text(table, 0) + tail =~= tail);
    } else if is_vacant(table[n - 1]) {
        lemma_program_read(table, (n - 1) as nat, tail);
    } else {
        let head = program_text(table, (n - 1) as nat);
        let sep: Seq<char> = if head.len() > 0 {
            seq!['\n']
        } else {
            e
        };
        let o = table[n - 1];
        let decl = decl_text((n - 1) as nat, o);
        let before = filled(table, (n - 1) as nat);
        lemma_program_read(table, (n - 1) as nat, sep + decl + tail);
        assert(program_text(table, n) + tail =~= head + (sep + decl + tail));
        lemma_filled(table, (n - 1) as nat);
        // The object is put behind what was read, over vacant places.
        let put = grown(before, n as int).update(n - 1, o);
        assert(table_put(before, n - 1, o) == Some(put));
        assert(put =~= table.subrange(0, n as int)) by {
            assert forall|i: int| 0 <= i < n implies put[i] == table[i] by {
                if i < before.len() {
                    assert(before[i] == table[i]);
                } else if i < n - 1 {
                    assert(is_vacant(table[i]));
                }
            }
        }
        lemma_decl_read((n - 1) as nat, o, tail, before);
        if head.len() > 0 {
            let rest = sep + decl + tail;
            assert(rest[0] == '\n');
            assert(is_space(rest[0]));
            assert(rest.drop_first() =~= decl + tail);
        } else {
            assert(sep + decl + tail =~= decl + tail);
        }
    }
}

/// A printable table, written and read, is the same table: the program
/// that is printed of it parses, and prints again as it is.
pub proof fn lemma_program_round_trip(table: Seq<ObjectView>)
    requires
        table_printable(table),
    ensures
        parse_program(program_text(table, table.len())) == Ok::<Seq<ObjectView>, Seq<char>>(
            table,
        ),
{
    let e = Seq::<char>::empty();
    lemma_program_read(table, table.len(), e);
    assert(program_text(table, table.len()) + e =~= program_text(table, table.len()));
    if table.len() > 0 {
        assert(filled(table, table.len()) =~= table);
    } else {
        assert(filled(table, 0) =~= table);
    }
}

} // verus!
