//! Finding a column by its name.

use vstd::prelude::*;

use crate::storage::schema::columns_view;
use crate::storage::schema::Column;
use crate::storage::schema::ColumnInfo;
use crate::text::chars_of;
use crate::text::ends_with;
use crate::text::has_suffix;
use crate::text::index_of;
use crate::text::position_of;
use crate::text::same_chars;
use crate::text::slice;
use crate::text::string_of;

verus! {

/// The part of a name behind its last dot; all of it where it has none.
pub open spec fn last_part(s: Seq<char>) -> Seq<char>
    decreases s.len(),
{
    let i = index_of(s, '.');
    if i < 0 || i >= s.len() {
        s
    } else {
        last_part(s.skip(i + 1))
    }
}

/// The part of a name behind its last dot.
pub fn bare_name(s: &Vec<char>) -> (r: Vec<char>)
    ensures
        r@ == last_part(s@),
    decreases s@.len(),
{
    let i: usize = position_of(s, '.');
    let mut rest = crate::text::copy_chars(s);
    let mut k: usize = i;
    while k < rest.len()
        invariant
            last_part(rest@) == last_part(s@),
            k == index_of(rest@, '.'),
            k <= rest@.len(),
        decreases rest@.len(),
    {
        assert(rest@.skip(k + 1) =~= rest@.subrange(k + 1, rest@.len() as int));
        rest = slice(&rest, k + 1, rest.len());
        k = position_of(&rest, '.');
    }
    rest
}

/// Which names of columns a name stands for.
#[derive(Clone, Copy)]
pub enum Naming {
    /// The column with that very name.
    Exact,
    /// The column whose name is the last part of that name, alone or behind a dot.
    Bare,
    /// Either of these.
    Either,
}

/// A column's name is the last part of the name, alone or behind a dot.
pub open spec fn is_bare(column: Seq<char>, name: Seq<char>) -> bool {
    let bare = last_part(name);
    ||| column == bare
    ||| ends_with(column, seq!['.'] + bare) && last_part(column) == bare
}

/// The name stands for the column.
pub open spec fn names(how: Naming, column: Seq<char>, name: Seq<char>) -> bool {
    match how {
        Naming::Exact => column == name,
        Naming::Bare => is_bare(column, name),
        Naming::Either => column == name || is_bare(column, name),
    }
}

/// The index of the first column that the name stands for, or the number of columns.
pub open spec fn column_index(c: Seq<Column>, how: Naming, name: Seq<char>) -> int
    decreases c.len(),
{
    if c.len() == 0 || names(how, c[0].name, name) {
        0
    } else {
        1 + column_index(c.skip(1), how, name)
    }
}

/// The first column that the name stands for.
pub open spec fn find_column(c: Seq<Column>, how: Naming, name: Seq<char>) -> Option<Column> {
    let i = column_index(c, how, name);
    if i < c.len() {
        Some(c[i])
    } else {
        None
    }
}

/// The column that a name in a statement stands for: the one with that very name, or
/// else the first whose name is its last part.
pub open spec fn resolve(c: Seq<Column>, name: Seq<char>) -> Option<Column> {
    match find_column(c, Naming::Exact, name) {
        Some(x) => Some(x),
        None => find_column(c, Naming::Bare, name),
    }
}

proof fn lemma_column_index(c: Seq<Column>, how: Naming, name: Seq<char>, i: int)
    requires
        0 <= i <= c.len(),
        forall|j: int| 0 <= j < i ==> !names(how, (#[trigger] c[j]).name, name),
        i < c.len() ==> names(how, c[i].name, name),
    ensures
        column_index(c, how, name) == i,
    decreases c.len(),
{
    if i > 0 {
        assert(!names(how, c[0].name, name));
        let d = c.skip(1);
        assert forall|j: int| 0 <= j < i - 1 implies !names(how, (#[trigger] d[j]).name, name) by {
            assert(d[j] == c[j + 1]);
        }
        lemma_column_index(d, how, name, i - 1);
    }
}

fn named(how: Naming, column: &Vec<char>, name: &Vec<char>) -> (r: bool)
    ensures
        r == names(how, column@, name@),
{
    let exact: bool = same_chars(column, name);
    let bare = bare_name(name);
    let mut dotted: Vec<char> = Vec::new();
    dotted.push('.');
    crate::text::push_chars(&mut dotted, &bare);
    assert(dotted@ =~= seq!['.'] + bare@);
    let is_bare_name: bool = same_chars(column, &bare) || (has_suffix(
        column,
        string_of(&dotted).as_str(),
    ) && same_chars(&bare_name(column), &bare));
    match how {
        Naming::Exact => exact,
        Naming::Bare => is_bare_name,
        Naming::Either => exact || is_bare_name,
    }
}

/// The index of the first column that the name stands for, or the number of columns.
pub fn position_of_column(c: &Vec<ColumnInfo>, how: Naming, name: &Vec<char>) -> (r: usize)
    ensures
        r == column_index(columns_view(c@), how, name@),
        r <= c@.len(),
{
    let ghost v = columns_view(c@);
    let mut i: usize = 0;
    while i < c.len()
        invariant
            i <= c.len(),
            v == columns_view(c@),
            forall|j: int| 0 <= j < i ==> !names(how, (#[trigger] v[j]).name, name@),
        decreases c.len() - i,
    {
        assert(v[i as int] == c@[i as int]@);
        if named(how, &chars_of(c[i].name.as_str()), name) {
            proof {
                lemma_column_index(v, how, name@, i as int);
            }
            return i;
        }
        i += 1;
    }
    proof {
        lemma_column_index(v, how, name@, i as int);
    }
    i
}

/// The column that a name in a statement stands for.
pub fn resolve_column<'a>(c: &'a Vec<ColumnInfo>, name: &Vec<char>) -> (r: Option<&'a ColumnInfo>)
    ensures
        match r {
            Some(x) => resolve(columns_view(c@), name@) == Some(x@),
            None => resolve(columns_view(c@), name@) is None,
        },
{
    let i: usize = position_of_column(c, Naming::Exact, name);
    if i < c.len() {
        return Some(&c[i]);
    }
    let j: usize = position_of_column(c, Naming::Bare, name);
    if j < c.len() {
        return Some(&c[j]);
    }
    None
}

/// There is no such column.
pub open spec fn no_column(name: Seq<char>) -> Seq<char> {
    "列 '"@ + name + "' 不存在"@
}

} // verus!
