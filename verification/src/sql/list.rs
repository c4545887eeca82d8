//! Lists in parentheses: where they end, and how commas part them.

use vstd::prelude::*;

use crate::text::slice;
use crate::text::texts;
use crate::text::trim;
use crate::text::trimmed;

verus! {

/// The index from `i` on of the parenthesis that closes the one before, where `depth`
/// more are open.
pub open spec fn close_index(s: Seq<char>, i: int, depth: nat) -> Option<int>
    decreases s.len() - i,
{
    if i < 0 || i >= s.len() {
        None
    } else if s[i] == '(' {
        close_index(s, i + 1, depth + 1)
    } else if s[i] == ')' {
        if depth > 0 {
            close_index(s, i + 1, (depth - 1) as nat)
        } else {
            Some(i)
        }
    } else {
        close_index(s, i + 1, depth)
    }
}

/// A closing parenthesis is found behind where the search starts.
pub proof fn lemma_close_index(s: Seq<char>, i: int, depth: nat)
    requires
        0 <= i,
    ensures
        close_index(s, i, depth) matches Some(e) ==> i <= e < s.len() && s[e] == ')',
    decreases s.len() - i,
{
    if i < s.len() {
        if s[i] == '(' {
            lemma_close_index(s, i + 1, depth + 1);
        } else if s[i] == ')' {
            if depth > 0 {
                lemma_close_index(s, i + 1, (depth - 1) as nat);
            }
        } else {
            lemma_close_index(s, i + 1, depth);
        }
    }
}

/// The index from `from` on of the parenthesis that closes the one before.
pub fn closing(s: &Vec<char>, from: usize) -> (r: Option<usize>)
    requires
        from <= s@.len(),
    ensures
        match r {
            Some(e) => close_index(s@, from as int, 0) == Some(e as int) && from <= e < s@.len(),
            None => close_index(s@, from as int, 0) is None,
        },
{
    let mut i: usize = from;
    let mut depth: usize = 0;
    while i < s.len()
        invariant
            from <= i <= s.len(),
            depth <= i - from,
            close_index(s@, from as int, 0) == close_index(s@, i as int, depth as nat),
        decreases s.len() - i,
    {
        if s[i] == '(' {
            depth += 1;
        } else if s[i] == ')' {
            if depth == 0 {
                return Some(i);
            }
            depth -= 1;
        }
        i += 1;
    }
    None
}

/// What keeps a comma from parting a list.
#[derive(Clone, Copy, PartialEq, Eq, Structural)]
pub enum ListKind {
    /// Parentheses: the columns of a table.
    Columns,
    /// Quotes: the values of a row.
    Values,
    /// Parentheses, brackets and quotes: the arguments of a function.
    Arguments,
}

/// How deep a place in a list lies.
#[derive(Clone, Copy)]
pub struct Nest {
    pub paren: i128,
    pub bracket: i128,
    pub quote: bool,
}

/// The outermost level.
pub open spec fn outermost() -> Nest {
    Nest { paren: 0, bracket: 0, quote: false }
}

/// How deep the place behind the character `c` lies.
pub open spec fn nest_after(kind: ListKind, n: Nest, c: char) -> Nest {
    match kind {
        ListKind::Columns => if c == '(' {
            Nest { paren: (n.paren + 1) as i128, ..n }
        } else if c == ')' {
            Nest { paren: (n.paren - 1) as i128, ..n }
        } else {
            n
        },
        ListKind::Values => if c == '\'' {
            Nest { quote: !n.quote, ..n }
        } else {
            n
        },
        ListKind::Arguments => if c == '(' {
            Nest { paren: (n.paren + 1) as i128, ..n }
        } else if c == ')' && n.paren > 0 {
            Nest { paren: (n.paren - 1) as i128, ..n }
        } else if c == '[' {
            Nest { bracket: (n.bracket + 1) as i128, ..n }
        } else if c == ']' && n.bracket > 0 {
            Nest { bracket: (n.bracket - 1) as i128, ..n }
        } else if c == '\'' {
            Nest { quote: !n.quote, ..n }
        } else {
            n
        },
    }
}

/// A comma parts the list here.
pub open spec fn is_outermost(n: Nest) -> bool {
    n.paren == 0 && n.bracket == 0 && !n.quote
}

/// The pieces of `s` from `start` on, where the characters before `i` have been
/// looked at and `n` tells how deep `i` lies.
pub open spec fn pieces_from(s: Seq<char>, kind: ListKind, start: int, i: int, n: Nest) -> Seq<
    Seq<char>,
>
    decreases s.len() - i,
{
    if i < 0 || i >= s.len() {
        seq![s.subrange(start, s.len() as int)]
    } else if s[i] == ',' && is_outermost(n) {
        seq![s.subrange(start, i)] + pieces_from(s, kind, i + 1, i + 1, n)
    } else {
        pieces_from(s, kind, start, i + 1, nest_after(kind, n, s[i]))
    }
}

/// The texts trimmed; the last one is left out where nothing is left of it.
pub open spec fn tidy(p: Seq<Seq<char>>) -> Seq<Seq<char>> {
    let t = p.map_values(|x: Seq<char>| trim(x));
    if t.len() > 0 && t.last().len() == 0 {
        t.drop_last()
    } else {
        t
    }
}

/// The items of a list that commas part.
pub open spec fn list_items(s: Seq<char>, kind: ListKind) -> Seq<Seq<char>> {
    tidy(pieces_from(s, kind, 0, 0, outermost()))
}

/// The items of a list that commas part.
pub fn items_of(s: &Vec<char>, kind: ListKind) -> (r: Vec<Vec<char>>)
    ensures
        texts(r@) == list_items(s@, kind),
{
    let mut r: Vec<Vec<char>> = Vec::new();
    let mut start: usize = 0;
    let mut i: usize = 0;
    let mut n = Nest { paren: 0, bracket: 0, quote: false };
    let ghost all = pieces_from(s@, kind, 0, 0, outermost());
    let ghost mut raw: Seq<Seq<char>> = Seq::empty();
    assert(raw + all =~= all);
    while i < s.len()
        invariant
            start <= i <= s.len(),
            -i <= n.paren <= i,
            0 <= n.bracket <= i,
            all == raw + pieces_from(s@, kind, start as int, i as int, n),
            texts(r@) == raw.map_values(|x: Seq<char>| trim(x)),
        decreases s.len() - i,
    {
        let c: char = s[i];
        if c == ',' && n.paren == 0 && n.bracket == 0 && !n.quote {
            let piece = slice(s, start, i);
            let item = trimmed(&piece);
            let ghost before = r@;
            r.push(item);
            proof {
                let rest = pieces_from(s@, kind, i + 1, i + 1, n);
                assert(raw + (seq![piece@] + rest) =~= raw.push(piece@) + rest);
                raw = raw.push(piece@);
                assert(texts(r@) =~= texts(before).push(item@));
                assert(raw.map_values(|x: Seq<char>| trim(x)) =~= texts(before).push(item@));
            }
            start = i + 1;
        } else {
            n = step(kind, n, c);
        }
        i += 1;
    }
    let piece = slice(s, start, s.len());
    let item = trimmed(&piece);
    let ghost before = r@;
    proof {
        assert(all == raw.push(piece@));
        assert(all.map_values(|x: Seq<char>| trim(x)) =~= texts(before).push(item@));
    }
    if item.len() > 0 {
        r.push(item);
        assert(texts(r@) =~= texts(before).push(item@));
    } else {
        assert(texts(before).push(item@).drop_last() =~= texts(before));
    }
    r
}

fn step(kind: ListKind, n: Nest, c: char) -> (r: Nest)
    requires
        -0x1_0000_0000_0000_0000 <= n.paren <= 0x1_0000_0000_0000_0000,
        0 <= n.bracket <= 0x1_0000_0000_0000_0000,
    ensures
        r == nest_after(kind, n, c),
{
    let mut r = n;
    match kind {
        ListKind::Columns => if c == '(' {
            r.paren = n.paren + 1;
        } else if c == ')' {
            r.paren = n.paren - 1;
        },
        ListKind::Values => if c == '\'' {
            r.quote = !n.quote;
        },
        ListKind::Arguments => if c == '(' {
            r.paren = n.paren + 1;
        } else if c == ')' && n.paren > 0 {
            r.paren = n.paren - 1;
        } else if c == '[' {
            r.bracket = n.bracket + 1;
        } else if c == ']' && n.bracket > 0 {
            r.bracket = n.bracket - 1;
        } else if c == '\'' {
            r.quote = !n.quote;
        },
    }
    r
}

} // verus!
