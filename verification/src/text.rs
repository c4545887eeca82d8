//! Text as sequences of characters.
//!
//! A `String` is viewed as a `Seq<char>`. The functions here work on `Vec<char>`,
//! where a character is reached by its index.

use vstd::prelude::*;

verus! {

// ---------------------------------------------------------------------------
// Strings and vectors of characters
// ---------------------------------------------------------------------------

/// Trusted: `String::push` appends the character to the end of the string.
pub assume_specification[ String::push ](s: &mut String, c: char)
    ensures
        final(s)@ == old(s)@.push(c),
;

/// The characters of `s`, one by one.
pub fn chars_of(s: &str) -> (r: Vec<char>)
    ensures
        r@ == s@,
{
    let mut r: Vec<char> = Vec::new();
    for c in it: s.chars()
        invariant
            r@ == it.seq().take(it.index() as int),
            it.seq() == s@,
    {
        r.push(c);
    }
    r
}

/// The string that holds the characters of `v`.
pub fn string_of(v: &Vec<char>) -> (r: String)
    ensures
        r@ == v@,
{
    let mut r = String::new();
    let mut i: usize = 0;
    while i < v.len()
        invariant
            i <= v.len(),
            r@ == v@.take(i as int),
        decreases v.len() - i,
    {
        r.push(v[i]);
        i += 1;
    }
    r
}

/// The texts that a sequence of character vectors holds.
pub open spec fn texts(v: Seq<Vec<char>>) -> Seq<Seq<char>> {
    v.map_values(|x: Vec<char>| x@)
}

/// The texts that a sequence of strings holds.
pub open spec fn string_texts(v: Seq<String>) -> Seq<Seq<char>> {
    v.map_values(|x: String| x@)
}

/// Appends the characters of `s` to `out`.
pub fn push_str(out: &mut Vec<char>, s: &str)
    ensures
        final(out)@ == old(out)@ + s@,
{
    let ghost start = out@;
    for c in it: s.chars()
        invariant
            out@ == start + it.seq().take(it.index() as int),
            it.seq() == s@,
    {
        out.push(c);
    }
}

/// Appends the characters of `s` to `out`.
pub fn push_chars(out: &mut Vec<char>, s: &Vec<char>)
    ensures
        final(out)@ == old(out)@ + s@,
{
    let ghost start = out@;
    let mut i: usize = 0;
    while i < s.len()
        invariant
            i <= s.len(),
            out@ == start + s@.take(i as int),
        decreases s.len() - i,
    {
        out.push(s[i]);
        i += 1;
    }
}

/// The characters `s[from..to]`.
pub fn slice(s: &Vec<char>, from: usize, to: usize) -> (r: Vec<char>)
    requires
        from <= to <= s@.len(),
    ensures
        r@ == s@.subrange(from as int, to as int),
{
    let mut r: Vec<char> = Vec::new();
    let mut i: usize = from;
    while i < to
        invariant
            from <= i <= to <= s@.len(),
            r@ == s@.subrange(from as int, i as int),
        decreases to - i,
    {
        r.push(s[i]);
        i += 1;
    }
    r
}

/// A copy of `s`.
pub fn copy_chars(s: &Vec<char>) -> (r: Vec<char>)
    ensures
        r@ == s@,
{
    slice(s, 0, s.len())
}

/// A copy of `s`.
pub fn copy_string(s: &String) -> (r: String)
    ensures
        r@ == s@,
{
    s.as_str().to_owned()
}

/// The two texts one after the other.
pub fn join2(a: &str, b: &str) -> (r: String)
    ensures
        r@ == a@ + b@,
{
    let mut r = a.to_owned();
    r.append(b);
    r
}

/// The three texts one after the other.
pub fn join3(a: &str, b: &str, c: &str) -> (r: String)
    ensures
        r@ == a@ + b@ + c@,
{
    let mut r = a.to_owned();
    r.append(b);
    r.append(c);
    r
}

/// Whether the two texts are the same.
pub fn same_chars(a: &Vec<char>, b: &Vec<char>) -> (r: bool)
    ensures
        r == (a@ == b@),
{
    if a.len() != b.len() {
        return false;
    }
    let mut i: usize = 0;
    while i < a.len()
        invariant
            i <= a.len(),
            a.len() == b.len(),
            forall|j: int| 0 <= j < i ==> a@[j] == b@[j],
        decreases a.len() - i,
    {
        if a[i] != b[i] {
            assert(a@[i as int] != b@[i as int]);
            return false;
        }
        i += 1;
    }
    assert(a@ =~= b@);
    true
}

/// Whether `s` is the text `t`.
pub fn is_text(s: &Vec<char>, t: &str) -> (r: bool)
    ensures
        r == (s@ == t@),
{
    same_chars(s, &chars_of(t))
}

/// Whether the two strings hold the same text.
pub fn same_str(a: &str, b: &str) -> (r: bool)
    ensures
        r == (a@ == b@),
{
    same_chars(&chars_of(a), &chars_of(b))
}

// ---------------------------------------------------------------------------
// Characters
// ---------------------------------------------------------------------------

/// White space: the code points with Unicode's White_Space property.
pub open spec fn is_space(c: char) -> bool {
    let n = c as u32;
    ||| 9 <= n <= 13
    ||| n == 32
    ||| n == 0x85
    ||| n == 0xA0
    ||| n == 0x1680
    ||| 0x2000 <= n <= 0x200A
    ||| n == 0x2028
    ||| n == 0x2029
    ||| n == 0x202F
    ||| n == 0x205F
    ||| n == 0x3000
}

/// Whether `c` is white space.
pub fn space(c: char) -> (r: bool)
    ensures
        r == is_space(c),
{
    let n: u32 = c as u32;
    (9 <= n && n <= 13) || n == 32 || n == 0x85 || n == 0xA0 || n == 0x1680 || (0x2000 <= n && n
        <= 0x200A) || n == 0x2028 || n == 0x2029 || n == 0x202F || n == 0x205F || n == 0x3000
}

/// An ASCII character.
pub open spec fn is_ascii_char(c: char) -> bool {
    (c as u32) < 128
}

/// Every character of `s` is ASCII.
pub open spec fn is_ascii_text(s: Seq<char>) -> bool {
    forall|i: int| 0 <= i < s.len() ==> is_ascii_char(#[trigger] s[i])
}

/// The upper case of an ASCII letter; any other character as it is.
pub open spec fn ascii_upper(c: char) -> char {
    if 97 <= (c as u32) && (c as u32) <= 122 {
        ((c as u32) - 32) as char
    } else {
        c
    }
}

/// The lower case of an ASCII letter; any other character as it is.
pub open spec fn ascii_lower(c: char) -> char {
    if 65 <= (c as u32) && (c as u32) <= 90 {
        ((c as u32) + 32) as char
    } else {
        c
    }
}

fn upper_char(c: char) -> (r: char)
    ensures
        r == ascii_upper(c),
{
    let n: u32 = c as u32;
    if 97 <= n && n <= 122 {
        ((n - 32) as u8) as char
    } else {
        c
    }
}

fn lower_char(c: char) -> (r: char)
    ensures
        r == ascii_lower(c),
{
    let n: u32 = c as u32;
    if 65 <= n && n <= 90 {
        ((n + 32) as u8) as char
    } else {
        c
    }
}

/// Trusted: what `str::to_uppercase` returns for a text.
pub uninterp spec fn unicode_upper(s: Seq<char>) -> Seq<char>;

/// Trusted: what `str::to_lowercase` returns for a text.
pub uninterp spec fn unicode_lower(s: Seq<char>) -> Seq<char>;

/// Trusted: what `char::is_alphanumeric` returns for a character.
pub uninterp spec fn unicode_alphanumeric(c: char) -> bool;

/// Calls `str::to_uppercase`. Its result depends on the text alone; which upper
/// case Unicode gives to each character is not said here.
#[verifier::external_body]
fn std_to_uppercase(s: &str) -> (r: String)
    ensures
        r@ == unicode_upper(s@),
{
    s.to_uppercase()
}

/// Calls `str::to_lowercase`. Its result depends on the text alone; which lower
/// case Unicode gives to each character is not said here.
#[verifier::external_body]
fn std_to_lowercase(s: &str) -> (r: String)
    ensures
        r@ == unicode_lower(s@),
{
    s.to_lowercase()
}

/// Calls `char::is_alphanumeric`. Its result depends on the character alone; which
/// characters Unicode counts as letters and numbers is not said here.
#[verifier::external_body]
fn std_is_alphanumeric(c: char) -> (r: bool)
    ensures
        r == unicode_alphanumeric(c),
{
    c.is_alphanumeric()
}

/// The upper case of a text: letter by letter for an ASCII text, by Unicode's rules
/// for any other.
pub open spec fn upper(s: Seq<char>) -> Seq<char> {
    if is_ascii_text(s) {
        s.map_values(|c: char| ascii_upper(c))
    } else {
        unicode_upper(s)
    }
}

/// The lower case of a text: letter by letter for an ASCII text, by Unicode's rules
/// for any other.
pub open spec fn lower(s: Seq<char>) -> Seq<char> {
    if is_ascii_text(s) {
        s.map_values(|c: char| ascii_lower(c))
    } else {
        unicode_lower(s)
    }
}

/// An ASCII letter or digit, or what Unicode counts as a letter or a number.
pub open spec fn is_alphanumeric(c: char) -> bool {
    let n = c as u32;
    if n < 128 {
        48 <= n <= 57 || 65 <= n <= 90 || 97 <= n <= 122
    } else {
        unicode_alphanumeric(c)
    }
}

/// Whether `c` is a letter or a number.
pub fn alphanumeric(c: char) -> (r: bool)
    ensures
        r == is_alphanumeric(c),
{
    let n: u32 = c as u32;
    if n < 128 {
        (48 <= n && n <= 57) || (65 <= n && n <= 90) || (97 <= n && n <= 122)
    } else {
        std_is_alphanumeric(c)
    }
}

/// Whether every character of `s` is ASCII.
pub fn ascii_only(s: &Vec<char>) -> (r: bool)
    ensures
        r == is_ascii_text(s@),
{
    let mut i: usize = 0;
    while i < s.len()
        invariant
            i <= s.len(),
            forall|j: int| 0 <= j < i ==> is_ascii_char(#[trigger] s@[j]),
        decreases s.len() - i,
    {
        if (s[i] as u32) >= 128 {
            assert(!is_ascii_char(s@[i as int]));
            return false;
        }
        i += 1;
    }
    true
}

/// The upper case of `s`.
pub fn to_upper(s: &Vec<char>) -> (r: Vec<char>)
    ensures
        r@ == upper(s@),
{
    if !ascii_only(s) {
        let t = string_of(s);
        let u = std_to_uppercase(t.as_str());
        return chars_of(u.as_str());
    }
    let mut r: Vec<char> = Vec::new();
    let mut i: usize = 0;
    while i < s.len()
        invariant
            i <= s.len(),
            r@ =~= s@.take(i as int).map_values(|c: char| ascii_upper(c)),
        decreases s.len() - i,
    {
        r.push(upper_char(s[i]));
        i += 1;
    }
    assert(s@.take(s@.len() as int) =~= s@);
    r
}

/// The lower case of `s`.
pub fn to_lower(s: &Vec<char>) -> (r: Vec<char>)
    ensures
        r@ == lower(s@),
{
    if !ascii_only(s) {
        let t = string_of(s);
        let u = std_to_lowercase(t.as_str());
        return chars_of(u.as_str());
    }
    let mut r: Vec<char> = Vec::new();
    let mut i: usize = 0;
    while i < s.len()
        invariant
            i <= s.len(),
            r@ =~= s@.take(i as int).map_values(|c: char| ascii_lower(c)),
        decreases s.len() - i,
    {
        r.push(lower_char(s[i]));
        i += 1;
    }
    assert(s@.take(s@.len() as int) =~= s@);
    r
}

// ---------------------------------------------------------------------------
// Trimming
// ---------------------------------------------------------------------------

/// A kind of character that trimming removes.
#[derive(Clone, Copy)]
pub enum CharKind {
    Space,
    Is(char),
}

impl CharKind {
    pub open spec fn holds(self, c: char) -> bool {
        match self {
            CharKind::Space => is_space(c),
            CharKind::Is(d) => c == d,
        }
    }

    fn test(self, c: char) -> (r: bool)
        ensures
            r == self.holds(c),
    {
        match self {
            CharKind::Space => space(c),
            CharKind::Is(d) => c == d,
        }
    }
}

/// `s` without the leading characters of the kind `k`.
pub open spec fn trim_start_kind(s: Seq<char>, k: CharKind) -> Seq<char>
    decreases s.len(),
{
    if s.len() > 0 && k.holds(s[0]) {
        trim_start_kind(s.skip(1), k)
    } else {
        s
    }
}

/// `s` without the trailing characters of the kind `k`.
pub open spec fn trim_end_kind(s: Seq<char>, k: CharKind) -> Seq<char>
    decreases s.len(),
{
    if s.len() > 0 && k.holds(s.last()) {
        trim_end_kind(s.drop_last(), k)
    } else {
        s
    }
}

/// `s` without the white space at both ends.
pub open spec fn trim(s: Seq<char>) -> Seq<char> {
    trim_end_kind(trim_start_kind(s, CharKind::Space), CharKind::Space)
}

/// `s` without the characters `c` at both ends.
pub open spec fn trim_char(s: Seq<char>, c: char) -> Seq<char> {
    trim_end_kind(trim_start_kind(s, CharKind::Is(c)), CharKind::Is(c))
}

fn trim_start_by(s: &Vec<char>, k: CharKind) -> (r: Vec<char>)
    ensures
        r@ == trim_start_kind(s@, k),
{
    let mut i: usize = 0;
    assert(s@.skip(0) =~= s@);
    while i < s.len() && k.test(s[i])
        invariant
            i <= s.len(),
            trim_start_kind(s@, k) == trim_start_kind(s@.skip(i as int), k),
        decreases s.len() - i,
    {
        assert(s@.skip(i as int).skip(1) =~= s@.skip(i + 1));
        i += 1;
    }
    assert(s@.skip(i as int) =~= s@.subrange(i as int, s@.len() as int));
    slice(s, i, s.len())
}

fn trim_end_by(s: &Vec<char>, k: CharKind) -> (r: Vec<char>)
    ensures
        r@ == trim_end_kind(s@, k),
{
    let mut n: usize = s.len();
    assert(s@.take(n as int) =~= s@);
    while n > 0 && k.test(s[n - 1])
        invariant
            n <= s.len(),
            trim_end_kind(s@, k) == trim_end_kind(s@.take(n as int), k),
        decreases n,
    {
        assert(s@.take(n as int).drop_last() =~= s@.take(n - 1));
        n -= 1;
    }
    assert(s@.take(n as int) =~= s@.subrange(0, n as int));
    slice(s, 0, n)
}

/// `s` without the white space at both ends.
pub fn trimmed(s: &Vec<char>) -> (r: Vec<char>)
    ensures
        r@ == trim(s@),
{
    let t = trim_start_by(s, CharKind::Space);
    trim_end_by(&t, CharKind::Space)
}

/// `s` without the white space at its end.
pub fn trimmed_end(s: &Vec<char>) -> (r: Vec<char>)
    ensures
        r@ == trim_end_kind(s@, CharKind::Space),
{
    trim_end_by(s, CharKind::Space)
}

/// `s` without the characters `c` at both ends.
pub fn trimmed_of(s: &Vec<char>, c: char) -> (r: Vec<char>)
    ensures
        r@ == trim_char(s@, c),
{
    let t = trim_start_by(s, CharKind::Is(c));
    trim_end_by(&t, CharKind::Is(c))
}

// ---------------------------------------------------------------------------
// Searching
// ---------------------------------------------------------------------------

/// `pat` stands in `s` at the index `i`.
pub open spec fn occurs_at(s: Seq<char>, pat: Seq<char>, i: int) -> bool {
    0 <= i && i + pat.len() <= s.len() && s.subrange(i, i + pat.len()) == pat
}

/// Whether `s` starts with `pat`.
pub open spec fn starts_with(s: Seq<char>, pat: Seq<char>) -> bool {
    occurs_at(s, pat, 0)
}

/// Whether `s` ends with `pat`.
pub open spec fn ends_with(s: Seq<char>, pat: Seq<char>) -> bool {
    occurs_at(s, pat, s.len() - pat.len())
}

/// The first index from `i` on at which `pat` stands in `s`.
pub open spec fn find_from(s: Seq<char>, pat: Seq<char>, i: int) -> Option<int>
    decreases s.len() + 1 - i,
{
    if i < 0 || i + pat.len() > s.len() {
        None
    } else if occurs_at(s, pat, i) {
        Some(i)
    } else {
        find_from(s, pat, i + 1)
    }
}

/// The first index at which `pat` stands in `s`.
pub open spec fn find(s: Seq<char>, pat: Seq<char>) -> Option<int> {
    find_from(s, pat, 0)
}

/// What a search returns: the first place from `i` on, or none.
pub proof fn lemma_find_from(s: Seq<char>, pat: Seq<char>, i: int)
    requires
        0 <= i,
    ensures
        match find_from(s, pat, i) {
            Some(p) => {
                &&& i <= p
                &&& occurs_at(s, pat, p)
                &&& forall|j: int| i <= j < p ==> !#[trigger] occurs_at(s, pat, j)
            },
            None => forall|j: int| i <= j ==> !#[trigger] occurs_at(s, pat, j),
        },
    decreases s.len() + 1 - i,
{
    if i + pat.len() <= s.len() && !occurs_at(s, pat, i) {
        lemma_find_from(s, pat, i + 1);
        match find_from(s, pat, i + 1) {
            Some(p) => {
                assert forall|j: int| i <= j < p implies !#[trigger] occurs_at(s, pat, j) by {
                    if j > i {
                    }
                }
            },
            None => {
                assert forall|j: int| i <= j implies !#[trigger] occurs_at(s, pat, j) by {
                    if j > i {
                    }
                }
            },
        }
    }
}

/// Whether `pat` stands in `s` at the index `i`.
pub fn stands_at(s: &Vec<char>, pat: &Vec<char>, i: usize) -> (r: bool)
    ensures
        r == occurs_at(s@, pat@, i as int),
{
    if i > s.len() || s.len() - i < pat.len() {
        return false;
    }
    let mut j: usize = 0;
    while j < pat.len()
        invariant
            i + pat.len() <= s.len(),
            j <= pat.len(),
            forall|k: int| 0 <= k < j ==> s@[i + k] == pat@[k],
        decreases pat.len() - j,
    {
        if s[i + j] != pat[j] {
            assert(s@.subrange(i as int, i + pat@.len())[j as int] != pat@[j as int]);
            return false;
        }
        j += 1;
    }
    assert(s@.subrange(i as int, i + pat@.len()) =~= pat@);
    true
}

/// Whether `s` starts with `pat`.
pub fn has_prefix(s: &Vec<char>, pat: &str) -> (r: bool)
    ensures
        r == starts_with(s@, pat@),
{
    stands_at(s, &chars_of(pat), 0)
}

/// Whether `s` ends with `pat`.
pub fn has_suffix(s: &Vec<char>, pat: &str) -> (r: bool)
    ensures
        r == ends_with(s@, pat@),
{
    let p = chars_of(pat);
    if p.len() > s.len() {
        return false;
    }
    stands_at(s, &p, s.len() - p.len())
}

/// The first index from `from` on at which `pat` stands in `s`.
pub fn search_from(s: &Vec<char>, pat: &Vec<char>, from: usize) -> (r: Option<usize>)
    requires
        from <= s@.len(),
    ensures
        match r {
            Some(p) => find_from(s@, pat@, from as int) == Some(p as int) && p + pat@.len()
                <= s@.len(),
            None => find_from(s@, pat@, from as int) is None,
        },
{
    let mut i: usize = from;
    while i < s.len() && s.len() - i >= pat.len()
        invariant
            from <= i <= s.len(),
            find_from(s@, pat@, from as int) == find_from(s@, pat@, i as int),
        decreases s.len() - i,
    {
        if stands_at(s, pat, i) {
            return Some(i);
        }
        i += 1;
    }
    if i == s.len() && pat.len() == 0 {
        assert(occurs_at(s@, pat@, i as int)) by {
            assert(s@.subrange(i as int, i as int) =~= pat@);
        }
        return Some(i);
    }
    None
}

/// The first index at which `pat` stands in `s`.
pub fn search(s: &Vec<char>, pat: &str) -> (r: Option<usize>)
    ensures
        match r {
            Some(p) => find(s@, pat@) == Some(p as int) && p + pat@.len() <= s@.len(),
            None => find(s@, pat@) is None,
        },
{
    search_from(s, &chars_of(pat), 0)
}

/// The last index up to `i` at which `pat` stands in `s`.
pub open spec fn rfind_from(s: Seq<char>, pat: Seq<char>, i: int) -> Option<int>
    decreases i + 1,
{
    if i < 0 {
        None
    } else if occurs_at(s, pat, i) {
        Some(i)
    } else {
        rfind_from(s, pat, i - 1)
    }
}

/// The last index at which `pat` stands in `s`.
pub open spec fn rfind(s: Seq<char>, pat: Seq<char>) -> Option<int> {
    rfind_from(s, pat, s.len() - pat.len())
}

/// The last index at which `pat` stands in `s`.
pub fn search_last(s: &Vec<char>, pat: &str) -> (r: Option<usize>)
    ensures
        match r {
            Some(p) => rfind(s@, pat@) == Some(p as int) && p + pat@.len() <= s@.len(),
            None => rfind(s@, pat@) is None,
        },
{
    let w = chars_of(pat);
    if w.len() > s.len() {
        return None;
    }
    let mut i: usize = s.len() - w.len();
    let mut done: bool = false;
    while !done
        invariant
            i <= s@.len(),
            i + w@.len() <= s@.len(),
            w@ == pat@,
            !done ==> rfind(s@, pat@) == rfind_from(s@, pat@, i as int),
            done ==> rfind(s@, pat@) is None,
        decreases (if done { 0int } else { 1int }) + i,
    {
        if stands_at(s, &w, i) {
            return Some(i);
        }
        if i == 0 {
            assert(rfind_from(s@, pat@, -1) is None);
            done = true;
        } else {
            i -= 1;
        }
    }
    None
}

/// The first index of the character `c` in `s`, or the length of `s`.
pub open spec fn index_of(s: Seq<char>, c: char) -> int
    decreases s.len(),
{
    if s.len() == 0 || s[0] == c {
        0
    } else {
        1 + index_of(s.skip(1), c)
    }
}

/// The index of the first `c` is where `c` stands with none before it.
pub proof fn lemma_index_of(s: Seq<char>, c: char)
    ensures
        0 <= index_of(s, c) <= s.len(),
        forall|j: int| 0 <= j < index_of(s, c) ==> s[j] != c,
        index_of(s, c) < s.len() ==> s[index_of(s, c)] == c,
    decreases s.len(),
{
    if s.len() > 0 && s[0] != c {
        lemma_index_of(s.skip(1), c);
        assert forall|j: int| 0 <= j < index_of(s, c) implies s[j] != c by {
            if j > 0 {
                assert(s[j] == s.skip(1)[j - 1]);
            }
        }
    }
}

/// Only one index can be that of the first `c`.
pub proof fn lemma_index_of_is(s: Seq<char>, c: char, i: int)
    requires
        0 <= i <= s.len(),
        forall|j: int| 0 <= j < i ==> s[j] != c,
        i < s.len() ==> s[i] == c,
    ensures
        index_of(s, c) == i,
{
    lemma_index_of(s, c);
    let k = index_of(s, c);
    if k < i {
        assert(s[k] != c);
    }
    if i < k {
        assert(s[i] != c);
    }
}

/// The first index of `c` in `s`, or the length of `s`.
pub fn position_of(s: &Vec<char>, c: char) -> (r: usize)
    ensures
        r == index_of(s@, c),
        r <= s@.len(),
{
    let mut i: usize = 0;
    while i < s.len() && s[i] != c
        invariant
            i <= s.len(),
            forall|j: int| 0 <= j < i ==> s@[j] != c,
        decreases s.len() - i,
    {
        i += 1;
    }
    proof {
        lemma_index_of_is(s@, c, i as int);
    }
    i
}

/// Whether `c` occurs in `s`.
pub fn has_char(s: &Vec<char>, c: char) -> (r: bool)
    ensures
        r == s@.contains(c),
{
    let i = position_of(s, c);
    proof {
        lemma_index_of(s@, c);
        if i < s@.len() {
            assert(s@.contains(s@[i as int]));
        }
    }
    i < s.len()
}

// ---------------------------------------------------------------------------
// Splitting and joining
// ---------------------------------------------------------------------------

/// The pieces of `s` between the characters `c`: always at least one.
pub open spec fn split(s: Seq<char>, c: char) -> Seq<Seq<char>>
    decreases s.len(),
{
    let i = index_of(s, c);
    if i < 0 || i >= s.len() {
        seq![s]
    } else {
        seq![s.take(i)] + split(s.skip(i + 1), c)
    }
}

/// The pieces of `s` between the characters `c`.
pub fn pieces(s: &Vec<char>, c: char) -> (r: Vec<Vec<char>>)
    ensures
        texts(r@) == split(s@, c),
        r@.len() > 0,
{
    let mut r: Vec<Vec<char>> = Vec::new();
    let mut start: usize = 0;
    let mut i: usize = 0;
    assert(s@.skip(0) =~= s@);
    while i < s.len()
        invariant
            start <= i <= s.len(),
            forall|j: int| start <= j < i ==> s@[j] != c,
            texts(r@) + split(s@.skip(start as int), c) == split(s@, c),
        decreases s.len() - i,
    {
        if s[i] == c {
            let ghost before = r@;
            let piece = slice(s, start, i);
            r.push(piece);
            proof {
                let rest = s@.skip(start as int);
                lemma_index_of_is(rest, c, i - start);
                assert(rest.take(i - start) =~= piece@);
                assert(rest.skip(i - start + 1) =~= s@.skip(i + 1));
                assert(texts(r@) =~= texts(before).push(piece@));
                assert(texts(r@) + split(s@.skip(i + 1), c) =~= texts(before) + (seq![piece@]
                    + split(s@.skip(i + 1), c)));
            }
            start = i + 1;
        }
        i += 1;
    }
    let ghost before = r@;
    let piece = slice(s, start, s.len());
    r.push(piece);
    proof {
        let rest = s@.skip(start as int);
        lemma_index_of_is(rest, c, rest.len() as int);
        assert(rest =~= piece@);
        assert(texts(r@) =~= texts(before) + seq![piece@]);
    }
    r
}

/// The texts joined, with `sep` between each two.
pub open spec fn join(parts: Seq<Seq<char>>, sep: Seq<char>) -> Seq<char>
    decreases parts.len(),
{
    if parts.len() == 0 {
        Seq::empty()
    } else if parts.len() == 1 {
        parts[0]
    } else {
        join(parts.drop_last(), sep) + sep + parts.last()
    }
}

/// The texts joined, with `sep` between each two.
pub fn joined(parts: &Vec<Vec<char>>, sep: &str) -> (r: Vec<char>)
    ensures
        r@ == join(texts(parts@), sep@),
{
    let mut r: Vec<char> = Vec::new();
    let mut i: usize = 0;
    while i < parts.len()
        invariant
            i <= parts.len(),
            r@ == join(texts(parts@).take(i as int), sep@),
        decreases parts.len() - i,
    {
        if i > 0 {
            push_str(&mut r, sep);
        }
        push_chars(&mut r, &parts[i]);
        proof {
            let t = texts(parts@);
            assert(t.take(i + 1).drop_last() =~= t.take(i as int));
            assert(t.take(i + 1).last() == parts@[i as int]@);
            if i == 0 {
                assert(t.take(0) =~= Seq::empty());
                assert(r@ =~= parts@[0]@);
            }
        }
        i += 1;
    }
    assert(texts(parts@).take(parts@.len() as int) =~= texts(parts@));
    r
}

/// A line without a carriage return at its end.
pub open spec fn strip_return(s: Seq<char>) -> Seq<char> {
    if s.len() > 0 && s.last() == '\r' {
        s.drop_last()
    } else {
        s
    }
}

/// The lines of a text. A line ends at a line feed, with or without a carriage
/// return before it; the last line need not end.
pub open spec fn lines(s: Seq<char>) -> Seq<Seq<char>>
    decreases s.len(),
{
    let i = index_of(s, '\n');
    if i < 0 || i >= s.len() {
        if s.len() == 0 {
            Seq::empty()
        } else {
            seq![s]
        }
    } else {
        seq![strip_return(s.take(i))] + lines(s.skip(i + 1))
    }
}

/// The lines of `s`.
pub fn lines_of(s: &Vec<char>) -> (r: Vec<Vec<char>>)
    ensures
        texts(r@) == lines(s@),
{
    let mut r: Vec<Vec<char>> = Vec::new();
    let mut start: usize = 0;
    let mut i: usize = 0;
    assert(s@.skip(0) =~= s@);
    while i < s.len()
        invariant
            start <= i <= s.len(),
            forall|j: int| start <= j < i ==> s@[j] != '\n',
            texts(r@) + lines(s@.skip(start as int)) == lines(s@),
        decreases s.len() - i,
    {
        if s[i] == '\n' {
            let ghost before = r@;
            let end: usize = if start < i && s[i - 1] == '\r' {
                i - 1
            } else {
                i
            };
            let piece = slice(s, start, end);
            r.push(piece);
            proof {
                let rest = s@.skip(start as int);
                lemma_index_of_is(rest, '\n', i - start);
                assert(strip_return(rest.take(i - start)) =~= piece@);
                assert(rest.skip(i - start + 1) =~= s@.skip(i + 1));
                assert(texts(r@) =~= texts(before).push(piece@));
                assert(texts(r@) + lines(s@.skip(i + 1)) =~= texts(before) + (seq![piece@]
                    + lines(s@.skip(i + 1))));
            }
            start = i + 1;
        }
        i += 1;
    }
    proof {
        let rest = s@.skip(start as int);
        lemma_index_of_is(rest, '\n', rest.len() as int);
        if start == s@.len() {
            assert(texts(r@) + Seq::<Seq<char>>::empty() =~= texts(r@));
        }
    }
    if start < s.len() {
        let ghost before = r@;
        let piece = slice(s, start, s.len());
        r.push(piece);
        proof {
            assert(s@.skip(start as int) =~= piece@);
            assert(texts(r@) =~= texts(before) + seq![piece@]);
        }
    }
    r
}

// ---------------------------------------------------------------------------
// Order
// ---------------------------------------------------------------------------

/// `a` comes before `b` in the order of their characters' code points.
pub open spec fn text_less(a: Seq<char>, b: Seq<char>) -> bool
    decreases a.len(),
{
    if b.len() == 0 {
        false
    } else if a.len() == 0 {
        true
    } else if a[0] != b[0] {
        (a[0] as u32) < (b[0] as u32)
    } else {
        text_less(a.skip(1), b.skip(1))
    }
}

/// Whether `a` comes before `b`.
pub fn comes_before(a: &Vec<char>, b: &Vec<char>) -> (r: bool)
    ensures
        r == text_less(a@, b@),
{
    let mut i: usize = 0;
    assert(a@.skip(0) =~= a@);
    assert(b@.skip(0) =~= b@);
    while i < a.len() && i < b.len()
        invariant
            i <= a.len(),
            i <= b.len(),
            text_less(a@, b@) == text_less(a@.skip(i as int), b@.skip(i as int)),
        decreases a.len() - i,
    {
        proof {
            assert(a@.skip(i as int).skip(1) =~= a@.skip(i + 1));
            assert(b@.skip(i as int).skip(1) =~= b@.skip(i + 1));
        }
        if a[i] != b[i] {
            return (a[i] as u32) < (b[i] as u32);
        }
        i += 1;
    }
    i < b.len()
}

/// Texts that start with texts of one length compare by these first.
pub proof fn lemma_text_less_concat(a: Seq<char>, b: Seq<char>, x: Seq<char>, y: Seq<char>)
    requires
        a.len() == b.len(),
    ensures
        text_less(a + x, b + y) == (text_less(a, b) || (a == b && text_less(x, y))),
    decreases a.len(),
{
    if a.len() == 0 {
        assert(a =~= b);
        assert(a + x =~= x);
        assert(b + y =~= y);
    } else {
        let (ax, by) = (a + x, b + y);
        assert(ax[0] == a[0] && by[0] == b[0]);
        assert(ax.skip(1) =~= a.skip(1) + x);
        assert(by.skip(1) =~= b.skip(1) + y);
        lemma_text_less_concat(a.skip(1), b.skip(1), x, y);
        if a[0] == b[0] {
            assert(a == b <==> a.skip(1) == b.skip(1)) by {
                if a.skip(1) == b.skip(1) {
                    assert(a =~= seq![a[0]] + a.skip(1));
                    assert(b =~= seq![b[0]] + b.skip(1));
                }
            }
        }
    }
}

/// Of two texts at most one comes before the other, and one does where they differ.
pub proof fn lemma_text_order(a: Seq<char>, b: Seq<char>)
    ensures
        !(text_less(a, b) && text_less(b, a)),
        text_less(a, b) || text_less(b, a) || a == b,
        a == b ==> !text_less(a, b),
    decreases a.len(),
{
    if a.len() > 0 && b.len() > 0 && a[0] == b[0] {
        lemma_text_order(a.skip(1), b.skip(1));
        if a.skip(1) == b.skip(1) {
            assert(a =~= seq![a[0]] + a.skip(1));
            assert(b =~= seq![b[0]] + b.skip(1));
        }
    } else if a.len() > 0 && b.len() > 0 {
        lemma_code_points(a[0], b[0]);
    } else if a.len() == 0 && b.len() == 0 {
        assert(a =~= b);
    }
}

proof fn lemma_code_points(a: char, b: char)
    ensures
        a == b <==> a as u32 == b as u32,
{
}

/// The order of texts is transitive.
pub proof fn lemma_text_less_trans(a: Seq<char>, b: Seq<char>, c: Seq<char>)
    requires
        text_less(a, b),
        text_less(b, c),
    ensures
        text_less(a, c),
    decreases a.len(),
{
    if a.len() > 0 {
        lemma_code_points(a[0], b[0]);
        lemma_code_points(b[0], c[0]);
        lemma_code_points(a[0], c[0]);
        if a[0] == b[0] && b[0] == c[0] {
            lemma_text_less_trans(a.skip(1), b.skip(1), c.skip(1));
        }
    }
}

// ---------------------------------------------------------------------------
// Facts on splitting
// ---------------------------------------------------------------------------

/// A text without the separator is one piece.
pub proof fn lemma_split_single(s: Seq<char>, c: char)
    requires
        !s.contains(c),
    ensures
        split(s, c) == seq![s],
{
    lemma_index_of_is(s, c, s.len() as int);
}

/// What stands before the first separator is the first piece.
pub proof fn lemma_split_first(s: Seq<char>, t: Seq<char>, c: char)
    requires
        !s.contains(c),
    ensures
        split(s + seq![c] + t, c) == seq![s] + split(t, c),
{
    let w = s + seq![c] + t;
    assert(w[s.len() as int] == c);
    assert forall|j: int| 0 <= j < s.len() implies w[j] != c by {
        assert(w[j] == s[j]);
    }
    lemma_index_of_is(w, c, s.len() as int);
    assert(w.take(s.len() as int) =~= s);
    assert(w.skip(s.len() as int + 1) =~= t);
}

/// A piece put at the end, behind a separator, is the last piece.
pub proof fn lemma_split_last(s: Seq<char>, t: Seq<char>, c: char)
    requires
        !t.contains(c),
    ensures
        split(s + seq![c] + t, c) == split(s, c).push(t),
    decreases s.len(),
{
    lemma_index_of(s, c);
    let i = index_of(s, c);
    if i == s.len() {
        assert(!s.contains(c));
        lemma_split_first(s, t, c);
        lemma_split_single(t, c);
        assert(seq![s] + seq![t] =~= seq![s].push(t));
    } else {
        let w = s + seq![c] + t;
        assert forall|j: int| 0 <= j < i implies w[j] != c by {
            assert(w[j] == s[j]);
        }
        assert(w[i] == s[i]);
        lemma_index_of_is(w, c, i);
        let rest = s.skip(i + 1);
        assert(w.skip(i + 1) =~= rest + seq![c] + t);
        assert(w.take(i) =~= s.take(i));
        lemma_split_last(rest, t, c);
        assert(seq![s.take(i)] + split(rest, c).push(t) =~= (seq![s.take(i)] + split(
            rest,
            c,
        )).push(t));
    }
}

/// A text is its first piece, the separator, and the rest.
pub proof fn lemma_split_cons(s: Seq<char>, c: char)
    ensures
        split(s, c).len() > 0,
        !split(s, c)[0].contains(c),
        split(s, c).len() == 1 ==> s == split(s, c)[0],
        split(s, c).len() > 1 ==> {
            let i = index_of(s, c);
            &&& s == split(s, c)[0] + seq![c] + s.skip(i + 1)
            &&& split(s.skip(i + 1), c) == split(s, c).skip(1)
        },
{
    lemma_index_of(s, c);
    let i = index_of(s, c);
    if i < s.len() {
        let p = split(s, c);
        assert(p.skip(1) =~= split(s.skip(i + 1), c));
        assert(s =~= s.take(i) + seq![c] + s.skip(i + 1));
        assert forall|j: int| 0 <= j < i implies s.take(i)[j] != c by {
            assert(s[j] != c);
        }
        lemma_split_nonempty(s.skip(i + 1), c);
    }
}

pub proof fn lemma_split_nonempty(s: Seq<char>, c: char)
    ensures
        split(s, c).len() > 0,
{
}

// ---------------------------------------------------------------------------
// Words
// ---------------------------------------------------------------------------

/// The index of the first white space in `s`, or the length of `s`.
pub open spec fn space_index(s: Seq<char>) -> int
    decreases s.len(),
{
    if s.len() == 0 || is_space(s[0]) {
        0
    } else {
        1 + space_index(s.skip(1))
    }
}

pub proof fn lemma_space_index(s: Seq<char>, i: int)
    requires
        0 <= i <= s.len(),
        forall|j: int| 0 <= j < i ==> !is_space(#[trigger] s[j]),
        i < s.len() ==> is_space(s[i]),
    ensures
        space_index(s) == i,
    decreases s.len(),
{
    if i > 0 {
        assert(!is_space(s[0]));
        let t = s.skip(1);
        assert forall|j: int| 0 <= j < i - 1 implies !is_space(#[trigger] t[j]) by {
            assert(t[j] == s[j + 1]);
        }
        lemma_space_index(t, i - 1);
    }
}

/// The index of the first white space in `s`, or the length of `s`.
pub fn position_of_space(s: &Vec<char>) -> (r: usize)
    ensures
        r == space_index(s@),
        r <= s@.len(),
{
    let mut i: usize = 0;
    while i < s.len() && !space(s[i])
        invariant
            i <= s.len(),
            forall|j: int| 0 <= j < i ==> !is_space(#[trigger] s@[j]),
        decreases s.len() - i,
    {
        i += 1;
    }
    proof {
        lemma_space_index(s@, i as int);
    }
    i
}

/// The words of a text: what stands between white space.
pub open spec fn words(s: Seq<char>) -> Seq<Seq<char>>
    decreases s.len(),
    via words_end
{
    let t = trim_start_kind(s, CharKind::Space);
    if t.len() == 0 {
        Seq::empty()
    } else {
        seq![t.take(space_index(t))] + words(t.skip(space_index(t)))
    }
}

#[via_fn]
proof fn words_end(s: Seq<char>) {
    let t = trim_start_kind(s, CharKind::Space);
    lemma_trim_start(s, CharKind::Space);
    if t.len() > 0 {
        lemma_space_index_bound(t);
    }
}

proof fn lemma_space_index_bound(s: Seq<char>)
    ensures
        0 <= space_index(s) <= s.len(),
        s.len() > 0 && !is_space(s[0]) ==> space_index(s) > 0,
    decreases s.len(),
{
    if s.len() > 0 && !is_space(s[0]) {
        lemma_space_index_bound(s.skip(1));
    }
}

/// What is left of a text trimmed at its start does not start with what was trimmed.
pub proof fn lemma_trim_start(s: Seq<char>, k: CharKind)
    ensures
        trim_start_kind(s, k).len() <= s.len(),
        trim_start_kind(s, k).len() > 0 ==> !k.holds(trim_start_kind(s, k)[0]),
    decreases s.len(),
{
    if s.len() > 0 && k.holds(s[0]) {
        lemma_trim_start(s.skip(1), k);
    }
}

pub proof fn lemma_trim_end(s: Seq<char>, k: CharKind)
    ensures
        trim_end_kind(s, k).len() <= s.len(),
        trim_end_kind(s, k).len() > 0 ==> trim_end_kind(s, k)[0] == s[0],
    decreases s.len(),
{
    if s.len() > 0 && k.holds(s.last()) {
        lemma_trim_end(s.drop_last(), k);
    }
}

/// Trimming never makes a text longer.
pub proof fn lemma_trim_len(s: Seq<char>)
    ensures
        trim(s).len() <= s.len(),
{
    lemma_trim_start(s, CharKind::Space);
    lemma_trim_end(trim_start_kind(s, CharKind::Space), CharKind::Space);
}

/// The words of `s`.
pub fn words_of(s: &Vec<char>) -> (r: Vec<Vec<char>>)
    ensures
        texts(r@) == words(s@),
{
    let mut r: Vec<Vec<char>> = Vec::new();
    let mut rest = copy_chars(s);
    let mut done: bool = false;
    assert(texts(r@) + words(s@) =~= words(s@));
    while !done
        invariant
            !done ==> texts(r@) + words(rest@) == words(s@),
            done ==> texts(r@) == words(s@),
        decreases (if done { 0int } else { 1int }) + rest@.len(),
    {
        let t = trim_start_by(&rest, CharKind::Space);
        proof {
            lemma_trim_start(rest@, CharKind::Space);
            lemma_space_index_bound(t@);
        }
        if t.len() == 0 {
            done = true;
            assert(texts(r@) + Seq::<Seq<char>>::empty() =~= texts(r@));
        } else {
            let end: usize = position_of_space(&t);
            let word = slice(&t, 0, end);
            let ghost before = r@;
            r.push(word);
            let next = slice(&t, end, t.len());
            proof {
                assert(t@.take(end as int) =~= word@);
                assert(t@.skip(end as int) =~= next@);
                assert(texts(r@) =~= texts(before).push(word@));
                assert(texts(r@) + words(next@) =~= texts(before) + (seq![word@] + words(next@)));
            }
            rest = next;
        }
    }
    r
}

// ---------------------------------------------------------------------------
// Keywords
// ---------------------------------------------------------------------------

/// The number of bytes that UTF-8 takes for a character.
pub open spec fn char_width(c: char) -> nat {
    let n = c as u32;
    if n < 0x80 {
        1
    } else if n < 0x800 {
        2
    } else if n < 0x1_0000 {
        3
    } else {
        4
    }
}

/// The number of bytes that UTF-8 takes for a text.
pub open spec fn byte_len(s: Seq<char>) -> nat
    decreases s.len(),
{
    if s.len() == 0 {
        0
    } else {
        byte_len(s.drop_last()) + char_width(s.last())
    }
}

/// The number of characters of `s` that lie within its first `n` bytes.
pub open spec fn chars_within(s: Seq<char>, n: int) -> int
    decreases s.len(),
{
    if s.len() == 0 || char_width(s[0]) > n {
        0
    } else {
        1 + chars_within(s.skip(1), n - char_width(s[0]))
    }
}

/// The characters of `s` within its first `n` bytes.
pub open spec fn take_bytes(s: Seq<char>, n: int) -> Seq<char> {
    s.take(chars_within(s, n))
}

/// The characters of `s` behind its first `n` bytes.
pub open spec fn skip_bytes(s: Seq<char>, n: int) -> Seq<char> {
    s.skip(chars_within(s, n))
}

/// Whether `s` starts with the keyword `word`, whatever the case of its letters.
pub open spec fn starts_with_keyword(s: Seq<char>, word: Seq<char>) -> bool {
    starts_with(upper(s), word)
}

/// Where the keyword `word` first stands in the upper case of `s`, in bytes.
pub open spec fn find_keyword(s: Seq<char>, word: Seq<char>) -> Option<int> {
    match find(upper(s), word) {
        Some(i) => Some(byte_len(upper(s).take(i)) as int),
        None => None,
    }
}

pub proof fn lemma_chars_within(s: Seq<char>, n: int)
    ensures
        0 <= chars_within(s, n) <= s.len(),
    decreases s.len(),
{
    if s.len() > 0 && char_width(s[0]) <= n {
        lemma_chars_within(s.skip(1), n - char_width(s[0]));
    }
}

/// In an ASCII text bytes and characters are counted alike.
pub proof fn lemma_ascii_bytes(s: Seq<char>, n: int)
    requires
        is_ascii_text(s),
        0 <= n <= s.len(),
    ensures
        byte_len(s.take(n)) == n,
        chars_within(s, n) == n,
    decreases s.len() + n,
{
    if n > 0 {
        lemma_ascii_bytes(s, n - 1);
        assert(s.take(n).drop_last() =~= s.take(n - 1));
        assert(is_ascii_char(s[n - 1]));
        assert(is_ascii_char(s[0]));
        let t = s.skip(1);
        assert forall|i: int| 0 <= i < t.len() implies is_ascii_char(#[trigger] t[i]) by {
            assert(t[i] == s[i + 1]);
        }
        lemma_ascii_bytes(t, n - 1);
    } else {
        if s.len() > 0 {
            assert(char_width(s[0]) >= 1);
        }
    }
}

fn width_of(c: char) -> (r: u128)
    ensures
        r == char_width(c),
        1 <= r <= 4,
{
    let n: u32 = c as u32;
    if n < 0x80 {
        1
    } else if n < 0x800 {
        2
    } else if n < 0x1_0000 {
        3
    } else {
        4
    }
}

/// The number of bytes of the first `n` characters of `s`.
pub fn bytes_before(s: &Vec<char>, n: usize) -> (r: u128)
    requires
        n <= s@.len(),
    ensures
        r == byte_len(s@.take(n as int)),
        r <= 4 * n,
{
    let mut r: u128 = 0;
    let mut i: usize = 0;
    while i < n
        invariant
            i <= n <= s@.len(),
            r == byte_len(s@.take(i as int)),
            r <= 4 * i,
        decreases n - i,
    {
        assert(s@.take(i + 1).drop_last() =~= s@.take(i as int));
        r = r + width_of(s[i]);
        i += 1;
    }
    r
}

/// The number of characters of `s` that lie within its first `n` bytes.
pub fn chars_in_bytes(s: &Vec<char>, n: u128) -> (r: usize)
    ensures
        r == chars_within(s@, n as int),
        r <= s@.len(),
{
    let mut left: u128 = n;
    let mut i: usize = 0;
    assert(s@.skip(0) =~= s@);
    while i < s.len() && width_of(s[i]) <= left
        invariant
            i <= s.len(),
            chars_within(s@, n as int) == i + chars_within(s@.skip(i as int), left as int),
        decreases s.len() - i,
    {
        assert(s@.skip(i as int).skip(1) =~= s@.skip(i + 1));
        left = left - width_of(s[i]);
        i += 1;
    }
    i
}

/// The characters of `s` within its first `n` bytes.
pub fn first_bytes(s: &Vec<char>, n: u128) -> (r: Vec<char>)
    ensures
        r@ == take_bytes(s@, n as int),
{
    let k: usize = chars_in_bytes(s, n);
    assert(s@.take(k as int) =~= s@.subrange(0, k as int));
    slice(s, 0, k)
}

/// The characters of `s` behind its first `n` bytes.
pub fn after_bytes(s: &Vec<char>, n: u128) -> (r: Vec<char>)
    ensures
        r@ == skip_bytes(s@, n as int),
{
    let k: usize = chars_in_bytes(s, n);
    assert(s@.skip(k as int) =~= s@.subrange(k as int, s@.len() as int));
    slice(s, k, s.len())
}

/// Whether `s` starts with the keyword `word`.
pub fn has_keyword(s: &Vec<char>, word: &str) -> (r: bool)
    ensures
        r == starts_with_keyword(s@, word@),
{
    has_prefix(&to_upper(s), word)
}

/// Where the keyword `word` first stands in the upper case of `s`, in bytes.
pub fn search_keyword(s: &Vec<char>, word: &str) -> (r: Option<u128>)
    ensures
        match r {
            Some(n) => find_keyword(s@, word@) == Some(n as int) && n <= 4 * usize::MAX,
            None => find_keyword(s@, word@) is None,
        },
{
    let u = to_upper(s);
    match search(&u, word) {
        Some(i) => Some(bytes_before(&u, i)),
        None => None,
    }
}

// ---------------------------------------------------------------------------
// Facts on joining and on lines
// ---------------------------------------------------------------------------

/// Joined texts are the first one, the separator, and the rest joined.
pub proof fn lemma_join_front(parts: Seq<Seq<char>>, sep: Seq<char>)
    requires
        parts.len() > 1,
    ensures
        join(parts, sep) == parts[0] + (sep + join(parts.skip(1), sep)),
    decreases parts.len(),
{
    let rest = parts.skip(1);
    if parts.len() == 2 {
        assert(parts.drop_last() =~= seq![parts[0]]);
        assert(rest =~= seq![parts[1]]);
        assert(join(seq![parts[0]], sep) == parts[0]);
        assert(join(seq![parts[1]], sep) == parts[1]);
        assert(join(parts, sep) =~= parts[0] + (sep + parts[1]));
    } else {
        lemma_join_front(parts.drop_last(), sep);
        assert(parts.drop_last().skip(1) =~= rest.drop_last());
        assert(join(parts, sep) =~= parts[0] + (sep + (join(rest.drop_last(), sep) + sep
            + rest.last())));
    }
}

/// Texts without the separator come back from where they are joined.
pub proof fn lemma_split_join(parts: Seq<Seq<char>>, c: char)
    requires
        parts.len() > 0,
        forall|i: int| 0 <= i < parts.len() ==> !(#[trigger] parts[i]).contains(c),
    ensures
        split(join(parts, seq![c]), c) == parts,
    decreases parts.len(),
{
    if parts.len() == 1 {
        lemma_split_single(parts[0], c);
        assert(parts =~= seq![parts[0]]);
    } else {
        let front = parts.drop_last();
        lemma_split_join(front, c);
        lemma_split_last(join(front, seq![c]), parts.last(), c);
        assert(front.push(parts.last()) =~= parts);
    }
}

/// A line with its line feed comes before the lines that follow.
pub proof fn lemma_lines_cons(x: Seq<char>, t: Seq<char>)
    requires
        !x.contains('\n'),
    ensures
        lines(x + seq!['\n'] + t) == seq![strip_return(x)] + lines(t),
{
    let w = x + seq!['\n'] + t;
    assert forall|j: int| 0 <= j < x.len() implies w[j] != '\n' by {
        assert(w[j] == x[j]);
    }
    lemma_index_of_is(w, '\n', x.len() as int);
    assert(w.take(x.len() as int) =~= x);
    assert(w.skip(x.len() as int + 1) =~= t);
}

} // verus!
