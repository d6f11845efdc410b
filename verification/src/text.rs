//! Characters and character sequences: the vocabulary the parsers share.
//!
//! Every function here is stated over `Seq<char>`, the view of a string.
//! The executable versions work on `Vec<char>`; [`chars_of`] and
//! [`string_of`] convert at the boundary.

use vstd::prelude::*;

verus! {

/// Appends one character to the end of a string (`String::push`).
pub assume_specification[ std::string::String::push ](s: &mut std::string::String, c: char)
    ensures
        final(s)@ == old(s)@.push(c),
;

/// Whether two string slices hold the same characters (`==` on `str`).
pub assume_specification[ <str as PartialEq>::eq ](a: &str, b: &str) -> (r: bool)
    ensures
        r == (a@ == b@),
;

/// Whether Unicode counts `c` as white space (`White_Space`).
pub open spec fn is_space(c: char) -> bool {
    let n = c as u32;
    ||| 0x09 <= n <= 0x0D
    ||| n == 0x20
    ||| n == 0x85
    ||| n == 0xA0
    ||| n == 0x1680
    ||| 0x2000 <= n <= 0x200A
    ||| n == 0x2028
    ||| n == 0x2029
    ||| n == 0x202F
    ||| n == 0x205F
    ||| n == 0x3000
}

/// A bracket or a double quote: what wraps a section's name and description.
pub open spec fn is_mark(c: char) -> bool {
    c == '[' || c == ']' || c == '"'
}

/// What a trim removes from the ends: white space, and marks too when
/// `marks` is set.
pub open spec fn strips(c: char, marks: bool) -> bool {
    is_space(c) || (marks && is_mark(c))
}

/// A tab, a line feed or a carriage return.
pub open spec fn is_control(c: char) -> bool {
    c == '\t' || c == '\n' || c == '\r'
}

/// The predicate "is not a tab, line feed or carriage return".
pub open spec fn not_control() -> spec_fn(char) -> bool {
    |c: char| !is_control(c)
}

/// The first index at or after `i` whose character a trim keeps
/// (`s.len()` if there is none).
pub open spec fn first_kept(s: Seq<char>, marks: bool, i: int) -> int
    decreases s.len() - i,
{
    if 0 <= i < s.len() && strips(s[i], marks) {
        first_kept(s, marks, i + 1)
    } else {
        i
    }
}

/// One past the last index before `j` whose character a trim keeps
/// (`0` if there is none).
pub open spec fn last_kept(s: Seq<char>, marks: bool, j: int) -> int
    decreases j,
{
    if 0 < j <= s.len() && strips(s[j - 1], marks) {
        last_kept(s, marks, j - 1)
    } else {
        j
    }
}

/// `s` without the characters at either end that a trim removes.
pub open spec fn trim_with(s: Seq<char>, marks: bool) -> Seq<char> {
    let a = first_kept(s, marks, 0);
    let b = last_kept(s, marks, s.len() as int);
    if a < b {
        s.subrange(a, b)
    } else {
        Seq::empty()
    }
}

/// `s` without its leading and trailing white space.
pub open spec fn trim(s: Seq<char>) -> Seq<char> {
    trim_with(s, false)
}

/// The first index at or after `i` that holds `c` (`s.len()` if none does).
pub open spec fn first_index(s: Seq<char>, c: char, i: int) -> int
    decreases s.len() - i,
{
    if 0 <= i < s.len() && s[i] != c {
        first_index(s, c, i + 1)
    } else {
        i
    }
}

/// The index of the first `c` in `s`, or `s.len()` if `s` holds none.
pub open spec fn position(s: Seq<char>, c: char) -> int {
    first_index(s, c, 0)
}

/// `line` without one trailing carriage return, if it has one.
pub open spec fn strip_cr(line: Seq<char>) -> Seq<char> {
    if line.len() > 0 && line.last() == '\r' {
        line.drop_last()
    } else {
        line
    }
}

/// The lines of `s` from index `start` on. A line ends at a line feed, or
/// at a carriage return directly followed by one; neither belongs to the
/// line. What follows the last line feed is a line only if it is not empty.
pub open spec fn lines_from(s: Seq<char>, start: int) -> Seq<Seq<char>>
    decreases s.len() - start,
    via lines_from_decreases
{
    if start < 0 || start >= s.len() {
        Seq::empty()
    } else {
        let n = first_index(s, '\n', start);
        if n >= s.len() {
            seq![s.subrange(start, s.len() as int)]
        } else {
            seq![strip_cr(s.subrange(start, n))] + lines_from(s, n + 1)
        }
    }
}

#[via_fn]
proof fn lines_from_decreases(s: Seq<char>, start: int) {
    if 0 <= start < s.len() {
        lemma_first_index(s, '\n', start);
    }
}

/// The lines of `s`.
pub open spec fn split_lines(s: Seq<char>) -> Seq<Seq<char>> {
    lines_from(s, 0)
}

/// Whether `s` begins with `prefix`.
pub open spec fn has_prefix(s: Seq<char>, prefix: Seq<char>) -> bool {
    prefix.len() <= s.len() && s.subrange(0, prefix.len() as int) == prefix
}

/// Whether `pattern` stands in `s` at index `i`.
pub open spec fn occurs_at(s: Seq<char>, pattern: Seq<char>, i: int) -> bool {
    0 <= i && i + pattern.len() <= s.len() && s.subrange(i, i + pattern.len()) == pattern
}

/// Whether `pattern` occurs somewhere in `s`.
pub open spec fn contains(s: Seq<char>, pattern: Seq<char>) -> bool {
    exists|i: int| occurs_at(s, pattern, i)
}

/// The views of a sequence of character vectors.
pub open spec fn views(lines: Seq<Vec<char>>) -> Seq<Seq<char>> {
    lines.map_values(|l: Vec<char>| l@)
}

/// The views of a sequence of strings.
pub open spec fn texts(items: Seq<String>) -> Seq<Seq<char>> {
    items.map_values(|s: String| s@)
}

/// `first_index` finds the first occurrence: it stays in range, nothing
/// before it is `c`, and it holds `c` unless it ran off the end.
pub proof fn lemma_first_index(s: Seq<char>, c: char, i: int)
    requires
        0 <= i <= s.len(),
    ensures
        i <= first_index(s, c, i) <= s.len(),
        forall|k: int| i <= k < first_index(s, c, i) ==> s[k] != c,
        first_index(s, c, i) < s.len() ==> s[first_index(s, c, i)] == c,
    decreases s.len() - i,
{
    if i < s.len() && s[i] != c {
        lemma_first_index(s, c, i + 1);
    }
}

/// `first_kept` stays in range; everything it passed over is stripped and
/// what it stops at is kept.
pub proof fn lemma_first_kept(s: Seq<char>, marks: bool, i: int)
    requires
        0 <= i <= s.len(),
    ensures
        i <= first_kept(s, marks, i) <= s.len(),
        forall|k: int| i <= k < first_kept(s, marks, i) ==> strips(s[k], marks),
        first_kept(s, marks, i) < s.len() ==> !strips(s[first_kept(s, marks, i)], marks),
    decreases s.len() - i,
{
    if i < s.len() && strips(s[i], marks) {
        lemma_first_kept(s, marks, i + 1);
    }
}

/// `last_kept` stays in range; everything it passed over is stripped and
/// what it stops behind is kept.
pub proof fn lemma_last_kept(s: Seq<char>, marks: bool, j: int)
    requires
        0 <= j <= s.len(),
    ensures
        0 <= last_kept(s, marks, j) <= j,
        forall|k: int| last_kept(s, marks, j) <= k < j ==> strips(s[k], marks),
        last_kept(s, marks, j) > 0 ==> !strips(s[last_kept(s, marks, j) - 1], marks),
    decreases j,
{
    if 0 < j && strips(s[j - 1], marks) {
        lemma_last_kept(s, marks, j - 1);
    }
}

/// A trimmed sequence neither begins nor ends with a character that the
/// trim removes, and it is a run of the untrimmed one.
pub proof fn lemma_trim_ends(s: Seq<char>, marks: bool)
    ensures
        trim_with(s, marks).len() > 0 ==> !strips(trim_with(s, marks).first(), marks) && !strips(
            trim_with(s, marks).last(),
            marks,
        ),
        trim_with(s, marks).len() <= s.len(),
        exists|a: int, b: int| 0 <= a <= b <= s.len() && trim_with(s, marks) == s.subrange(a, b),
{
    lemma_first_kept(s, marks, 0);
    lemma_last_kept(s, marks, s.len() as int);
    let a = first_kept(s, marks, 0);
    let b = last_kept(s, marks, s.len() as int);
    if a < b {
        assert(trim_with(s, marks) == s.subrange(a, b));
    } else {
        assert(trim_with(s, marks) == s.subrange(0, 0));
    }
}

/// Whether `c` is white space.
pub fn is_space_char(c: char) -> (r: bool)
    ensures
        r == is_space(c),
{
    let n: u32 = c as u32;
    (0x09 <= n && n <= 0x0D) || n == 0x20 || n == 0x85 || n == 0xA0 || n == 0x1680 || (0x2000 <= n
        && n <= 0x200A) || n == 0x2028 || n == 0x2029 || n == 0x202F || n == 0x205F || n == 0x3000
}

/// Whether a trim removes `c`.
pub fn strips_char(c: char, marks: bool) -> (r: bool)
    ensures
        r == strips(c, marks),
{
    is_space_char(c) || (marks && (c == '[' || c == ']' || c == '"'))
}

/// The characters of a string, in order.
pub fn chars_of(s: &str) -> (out: Vec<char>)
    ensures
        out@ == s@,
{
    let mut out: Vec<char> = Vec::new();
    for c in it: s.chars()
        invariant
            it.seq() == s@,
            out@ == it.seq().take(it.index()),
    {
        out.push(c);
    }
    out
}

/// The string that holds the characters of `chars`.
pub fn string_of(chars: &Vec<char>) -> (out: String)
    ensures
        out@ == chars@,
{
    let mut out = String::new();
    let mut i: usize = 0;
    while i < chars.len()
        invariant
            i <= chars.len(),
            out@ == chars@.take(i as int),
        decreases chars.len() - i,
    {
        out.push(chars[i]);
        i += 1;
    }
    out
}

/// A copy of `chars[from..to]`.
pub fn subvec(chars: &Vec<char>, from: usize, to: usize) -> (out: Vec<char>)
    requires
        from <= to <= chars.len(),
    ensures
        out@ == chars@.subrange(from as int, to as int),
{
    let mut out: Vec<char> = Vec::new();
    let mut i: usize = from;
    while i < to
        invariant
            from <= i <= to <= chars.len(),
            out@ == chars@.subrange(from as int, i as int),
        decreases to - i,
    {
        out.push(chars[i]);
        i += 1;
    }
    out
}

/// Whether two character vectors are equal.
pub fn same_chars(a: &Vec<char>, b: &Vec<char>) -> (r: bool)
    ensures
        r == (a@ == b@),
{
    if a.len() != b.len() {
        return false;
    }
    let mut i: usize = 0;
    while i < a.len()
        invariant
            i <= a.len(),
            a.len() == b.len(),
            a@.take(i as int) == b@.take(i as int),
        decreases a.len() - i,
    {
        if a[i] != b[i] {
            return false;
        }
        assert(a@.take(i + 1) == a@.take(i as int).push(a@[i as int]));
        assert(b@.take(i + 1) == b@.take(i as int).push(b@[i as int]));
        i += 1;
    }
    assert(a@ == a@.take(a.len() as int));
    assert(b@ == b@.take(b.len() as int));
    true
}

/// The index of the first `c` at or after `from`, or the length if there is
/// none.
pub fn find_char(chars: &Vec<char>, c: char, from: usize) -> (at: usize)
    requires
        from <= chars.len(),
    ensures
        at == first_index(chars@, c, from as int),
        from <= at <= chars.len(),
{
    let mut i: usize = from;
    while i < chars.len() && chars[i] != c
        invariant
            from <= i <= chars.len(),
            first_index(chars@, c, from as int) == first_index(chars@, c, i as int),
        decreases chars.len() - i,
    {
        i += 1;
    }
    i
}

/// `chars` trimmed at both ends.
pub fn trim_chars(chars: &Vec<char>, marks: bool) -> (out: Vec<char>)
    ensures
        out@ == trim_with(chars@, marks),
{
    let mut a: usize = 0;
    while a < chars.len() && strips_char(chars[a], marks)
        invariant
            a <= chars.len(),
            first_kept(chars@, marks, 0) == first_kept(chars@, marks, a as int),
        decreases chars.len() - a,
    {
        a += 1;
    }
    let mut b: usize = chars.len();
    while b > 0 && strips_char(chars[b - 1], marks)
        invariant
            b <= chars.len(),
            last_kept(chars@, marks, chars.len() as int) == last_kept(chars@, marks, b as int),
        decreases b,
    {
        b -= 1;
    }
    if a < b {
        subvec(chars, a, b)
    } else {
        Vec::new()
    }
}

/// `chars` without its tabs, line feeds and carriage returns.
pub fn drop_controls(chars: &Vec<char>) -> (out: Vec<char>)
    ensures
        out@ == chars@.filter(not_control()),
{
    let mut out: Vec<char> = Vec::new();
    let mut i: usize = 0;
    while i < chars.len()
        invariant
            i <= chars.len(),
            out@ == chars@.take(i as int).filter(not_control()),
        decreases chars.len() - i,
    {
        let c = chars[i];
        proof {
            reveal(Seq::filter);
            assert(chars@.take(i + 1).drop_last() == chars@.take(i as int));
        }
        if !(c == '\t' || c == '\n' || c == '\r') {
            out.push(c);
        }
        i += 1;
    }
    assert(chars@.take(chars.len() as int) == chars@);
    out
}

/// The lines of `text`.
pub fn lines_of(text: &Vec<char>) -> (out: Vec<Vec<char>>)
    ensures
        views(out@) == split_lines(text@),
{
    let mut out: Vec<Vec<char>> = Vec::new();
    let mut start: usize = 0;
    while start < text.len()
        invariant
            start <= text.len(),
            split_lines(text@) == views(out@) + lines_from(text@, start as int),
        decreases text.len() - start,
    {
        let n = find_char(text, '\n', start);
        let ghost before = out@;
        if n >= text.len() {
            let line = subvec(text, start, text.len());
            out.push(line);
            assert(views(out@) == views(before).push(line@));
            start = text.len();
        } else {
            let end = if n > start && text[n - 1] == '\r' {
                n - 1
            } else {
                n
            };
            let line = subvec(text, start, end);
            assert(line@ == strip_cr(text@.subrange(start as int, n as int)));
            out.push(line);
            assert(views(out@) == views(before).push(line@));
            start = n + 1;
        }
    }
    out
}

/// Whether `chars` begins with `prefix`.
pub fn starts_with(chars: &Vec<char>, prefix: &Vec<char>) -> (r: bool)
    ensures
        r == has_prefix(chars@, prefix@),
{
    if prefix.len() > chars.len() {
        return false;
    }
    let head = subvec(chars, 0, prefix.len());
    same_chars(&head, prefix)
}

/// Whether `pattern` occurs somewhere in `chars`.
pub fn contains_chars(chars: &Vec<char>, pattern: &Vec<char>) -> (r: bool)
    ensures
        r == contains(chars@, pattern@),
{
    if pattern.len() > chars.len() {
        return false;
    }
    let last: usize = chars.len() - pattern.len();
    let mut i: usize = 0;
    loop
        invariant
            i <= last,
            last == chars.len() - pattern.len(),
            forall|k: int| 0 <= k < i ==> !occurs_at(chars@, pattern@, k),
        decreases last - i,
    {
        let window = subvec(chars, i, i + pattern.len());
        if same_chars(&window, pattern) {
            assert(occurs_at(chars@, pattern@, i as int));
            return true;
        }
        if i == last {
            return false;
        }
        i += 1;
    }
}

/// Appends the characters of `tail` to `out`.
pub fn push_chars(out: &mut Vec<char>, tail: &str)
    ensures
        final(out)@ == old(out)@ + tail@,
{
    let chars = chars_of(tail);
    let mut i: usize = 0;
    while i < chars.len()
        invariant
            i <= chars.len(),
            chars@ == tail@,
            out@ == old(out)@ + chars@.take(i as int),
        decreases chars.len() - i,
    {
        out.push(chars[i]);
        assert(chars@.take(i + 1) == chars@.take(i as int).push(chars@[i as int]));
        i += 1;
    }
    assert(chars@.take(chars.len() as int) == chars@);
}

/// The pieces of `s` from index `start` on that `sep` parts: what stands
/// between two separators, before the first and behind the last. A
/// sequence without separator is one piece.
pub open spec fn split_from(s: Seq<char>, sep: char, start: int) -> Seq<Seq<char>>
    decreases s.len() - start,
    via split_from_decreases
{
    if start < 0 || start > s.len() {
        Seq::empty()
    } else {
        let n = first_index(s, sep, start);
        if n >= s.len() {
            seq![s.subrange(start, s.len() as int)]
        } else {
            seq![s.subrange(start, n)] + split_from(s, sep, n + 1)
        }
    }
}

#[via_fn]
proof fn split_from_decreases(s: Seq<char>, sep: char, start: int) {
    if 0 <= start <= s.len() {
        lemma_first_index(s, sep, start);
    }
}

/// The pieces of `s` that `sep` parts.
pub open spec fn split_on(s: Seq<char>, sep: char) -> Seq<Seq<char>> {
    split_from(s, sep, 0)
}

/// The first index at or after `i` that holds white space (`s.len()` if
/// none does).
pub open spec fn next_space(s: Seq<char>, i: int) -> int
    decreases s.len() - i,
{
    if 0 <= i < s.len() && !is_space(s[i]) {
        next_space(s, i + 1)
    } else {
        i
    }
}

/// `next_space` stays in range and passes over no white space.
pub proof fn lemma_next_space(s: Seq<char>, i: int)
    requires
        0 <= i <= s.len(),
    ensures
        i <= next_space(s, i) <= s.len(),
        forall|k: int| i <= k < next_space(s, i) ==> !is_space(s[k]),
        next_space(s, i) < s.len() ==> is_space(s[next_space(s, i)]),
        i < s.len() && !is_space(s[i]) ==> next_space(s, i) > i,
    decreases s.len() - i,
{
    if i < s.len() && !is_space(s[i]) {
        lemma_next_space(s, i + 1);
    }
}

/// The words of `s` from index `i` on: the longest runs without white
/// space.
pub open spec fn words_from(s: Seq<char>, i: int) -> Seq<Seq<char>>
    decreases s.len() - i,
    via words_from_decreases
{
    if i < 0 || first_kept(s, false, i) >= s.len() {
        Seq::empty()
    } else {
        let a = first_kept(s, false, i);
        let b = next_space(s, a);
        seq![s.subrange(a, b)] + words_from(s, b)
    }
}

#[via_fn]
proof fn words_from_decreases(s: Seq<char>, i: int) {
    if 0 <= i && first_kept(s, false, i) < s.len() {
        if i <= s.len() {
            lemma_first_kept(s, false, i);
            lemma_next_space(s, first_kept(s, false, i));
        }
    }
}

/// The words of `s`.
pub open spec fn words(s: Seq<char>) -> Seq<Seq<char>> {
    words_from(s, 0)
}

/// The pieces of `chars` that `sep` parts.
pub fn split_chars(chars: &Vec<char>, sep: char) -> (out: Vec<Vec<char>>)
    ensures
        views(out@) == split_on(chars@, sep),
{
    let mut out: Vec<Vec<char>> = Vec::new();
    let mut start: usize = 0;
    loop
        invariant
            start <= chars.len(),
            split_on(chars@, sep) == views(out@) + split_from(chars@, sep, start as int),
        decreases chars.len() - start,
    {
        let n = find_char(chars, sep, start);
        let ghost before = out@;
        let piece = subvec(chars, start, n);
        out.push(piece);
        assert(views(out@) == views(before).push(piece@));
        if n >= chars.len() {
            return out;
        }
        start = n + 1;
    }
}

/// The words of `chars`.
pub fn words_of(chars: &Vec<char>) -> (out: Vec<Vec<char>>)
    ensures
        views(out@) == words(chars@),
{
    let mut out: Vec<Vec<char>> = Vec::new();
    let mut i: usize = 0;
    loop
        invariant
            i <= chars.len(),
            words(chars@) == views(out@) + words_from(chars@, i as int),
        decreases chars.len() - i,
    {
        let mut a: usize = i;
        while a < chars.len() && is_space_char(chars[a])
            invariant
                i <= a <= chars.len(),
                first_kept(chars@, false, i as int) == first_kept(chars@, false, a as int),
            decreases chars.len() - a,
        {
            a += 1;
        }
        if a >= chars.len() {
            return out;
        }
        let mut b: usize = a;
        while b < chars.len() && !is_space_char(chars[b])
            invariant
                a <= b <= chars.len(),
                next_space(chars@, a as int) == next_space(chars@, b as int),
            decreases chars.len() - b,
        {
            b += 1;
        }
        proof {
            lemma_next_space(chars@, a as int);
        }
        let ghost before = out@;
        let word = subvec(chars, a, b);
        out.push(word);
        assert(views(out@) == views(before).push(word@));
        i = b;
    }
}

/// `lines`, each with a line feed behind it, one after the other.
pub open spec fn stacked(lines: Seq<Seq<char>>) -> Seq<char>
    decreases lines.len(),
{
    if lines.len() == 0 {
        Seq::empty()
    } else {
        stacked(lines.drop_last()) + lines.last() + seq!['\n']
    }
}

/// Whether `line` can stand as a line of a text: it holds no line feed and
/// does not end with a carriage return.
pub open spec fn is_line(line: Seq<char>) -> bool {
    &&& forall|i: int| 0 <= i < line.len() ==> line[i] != '\n'
    &&& line.len() > 0 ==> line.last() != '\r'
}

/// Behind a prefix, `first_index` finds what it finds in the rest.
pub proof fn lemma_first_index_shift(s: Seq<char>, u: Seq<char>, c: char, j: int)
    requires
        0 <= j <= u.len(),
    ensures
        first_index(s + u, c, s.len() + j) == s.len() + first_index(u, c, j),
    decreases u.len() - j,
{
    if j < u.len() {
        assert((s + u)[s.len() + j] == u[j]);
        if u[j] != c {
            lemma_first_index_shift(s, u, c, j + 1);
        }
    }
}

/// What `first_index` finds in a sequence it finds in any longer one.
pub proof fn lemma_first_index_prefix(s: Seq<char>, u: Seq<char>, c: char, i: int)
    requires
        0 <= i <= s.len(),
        first_index(s, c, i) < s.len(),
    ensures
        first_index(s + u, c, i) == first_index(s, c, i),
    decreases s.len() - i,
{
    if i < s.len() {
        assert((s + u)[i] == s[i]);
        if s[i] != c {
            lemma_first_index_prefix(s, u, c, i + 1);
        }
    }
}

/// Behind a prefix, the lines are the lines of the rest.
pub proof fn lemma_lines_shift(s: Seq<char>, u: Seq<char>, j: int)
    requires
        0 <= j <= u.len(),
    ensures
        lines_from(s + u, s.len() + j) == lines_from(u, j),
    decreases u.len() - j,
{
    if j < u.len() {
        lemma_first_index_shift(s, u, '\n', j);
        lemma_first_index(u, '\n', j);
        let n = first_index(u, '\n', j);
        if n >= u.len() {
            assert((s + u).subrange(s.len() + j, (s + u).len() as int) == u.subrange(
                j,
                u.len() as int,
            ));
        } else {
            assert((s + u).subrange(s.len() + j, s.len() + n) == u.subrange(j, n));
            lemma_lines_shift(s, u, n + 1);
        }
    }
}

/// The lines of a text that ends with a line feed, followed by more text,
/// are the lines of the one and then the lines of the other.
pub proof fn lemma_lines_concat(s: Seq<char>, u: Seq<char>, i: int)
    requires
        0 <= i <= s.len(),
        s.len() > 0 ==> s.last() == '\n',
    ensures
        lines_from(s + u, i) == lines_from(s, i) + lines_from(u, 0),
    decreases s.len() - i,
{
    if i == s.len() {
        lemma_lines_shift(s, u, 0);
        assert(lines_from(s, i) + lines_from(u, 0) == lines_from(u, 0));
    } else {
        lemma_first_index(s, '\n', i);
        let n = first_index(s, '\n', i);
        if n >= s.len() {
            assert(s[s.len() - 1] == '\n');
        }
        lemma_first_index_prefix(s, u, '\n', i);
        assert((s + u).subrange(i, n) == s.subrange(i, n));
        lemma_lines_concat(s, u, n + 1);
        assert(seq![strip_cr(s.subrange(i, n))] + (lines_from(s, n + 1) + lines_from(u, 0)) == (
        seq![strip_cr(s.subrange(i, n))] + lines_from(s, n + 1)) + lines_from(u, 0));
    }
}

/// Lines that are stacked and split again are the same lines.
pub proof fn lemma_split_stacked(lines: Seq<Seq<char>>)
    requires
        forall|i: int| 0 <= i < lines.len() ==> is_line(#[trigger] lines[i]),
    ensures
        split_lines(stacked(lines)) == lines,
        stacked(lines).len() > 0 ==> stacked(lines).last() == '\n',
    decreases lines.len(),
{
    if lines.len() > 0 {
        let before = lines.drop_last();
        let line = lines.last();
        assert forall|i: int| 0 <= i < before.len() implies is_line(#[trigger] before[i]) by {
            assert(before[i] == lines[i]);
        }
        lemma_split_stacked(before);
        let s = stacked(before);
        let u = line + seq!['\n'];
        assert(stacked(lines) == s + u);
        lemma_lines_concat(s, u, 0);
        assert(is_line(line));
        lemma_first_index(u, '\n', 0);
        let n = first_index(u, '\n', 0);
        if n < line.len() {
            assert(u[n] == line[n]);
        }
        assert(u[line.len() as int] == '\n');
        assert(n == line.len());
        assert(u.subrange(0, n) == line);
        assert(lines_from(u, n + 1) == Seq::<Seq<char>>::empty());
        assert(lines_from(u, 0) == seq![line]);
        assert(before + seq![line] == lines);
    }
}

} // verus!
