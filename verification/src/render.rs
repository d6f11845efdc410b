//! Writing a configuration back as text, and why reading the text again
//! gives the same configuration.

use vstd::prelude::*;
use crate::config::{
    all_wf, ConfigValue, GitConfig, GitConfigSection, header_description, header_name, is_header,
    key_in, lemma_next_header, lemma_pairs_of_concat, lookup, next_header, OptionValue, Pair,
    pairs_of, parse_pair, parse_text, sanitize_text, section_of, sections_from, SectionView,
    table_of, text_of, value_in, values_of,
};
use crate::text::{
    first_index, first_kept, is_control, is_line, is_space, last_kept, lemma_first_index,
    lemma_first_kept, lemma_last_kept, lemma_split_stacked, lemma_trim_ends, lines_from,
    not_control, position, push_chars, split_lines, stacked, string_of, strip_cr, strips, texts,
    trim, trim_with, views,
};

verus! {

/// Behind a prefix, `next_header` finds what it finds in the rest.
pub proof fn lemma_next_header_shift(a: Seq<Seq<char>>, b: Seq<Seq<char>>, j: int)
    requires
        0 <= j <= b.len(),
    ensures
        next_header(a + b, a.len() + j) == a.len() + next_header(b, j),
    decreases b.len() - j,
{
    if j < b.len() {
        assert((a + b)[a.len() + j] == b[j]);
        if !is_header(b[j]) {
            lemma_next_header_shift(a, b, j + 1);
        }
    }
}

/// In front of lines that begin with a header, or of none, `next_header`
/// finds what it finds without them.
pub proof fn lemma_next_header_prefix(a: Seq<Seq<char>>, b: Seq<Seq<char>>, i: int)
    requires
        0 <= i <= a.len(),
        b.len() > 0 ==> is_header(b[0]),
    ensures
        next_header(a + b, i) == next_header(a, i),
    decreases a.len() - i,
{
    if i < a.len() {
        assert((a + b)[i] == a[i]);
        if !is_header(a[i]) {
            lemma_next_header_prefix(a, b, i + 1);
        }
    } else if b.len() > 0 {
        assert((a + b)[i] == b[0]);
    }
}

/// Behind a prefix, the sections are the sections of the rest.
pub proof fn lemma_sections_shift(a: Seq<Seq<char>>, b: Seq<Seq<char>>, j: int)
    requires
        0 <= j <= b.len(),
    ensures
        sections_from(a + b, a.len() + j) == sections_from(b, j),
    decreases b.len() - j,
{
    if j < b.len() {
        assert((a + b)[a.len() + j] == b[j]);
        if is_header(b[j]) {
            lemma_next_header_shift(a, b, j + 1);
            lemma_next_header(b, j + 1);
            let k = next_header(b, j + 1);
            assert((a + b).subrange(a.len() + j + 1, a.len() + k) == b.subrange(j + 1, k));
            lemma_sections_shift(a, b, k);
        } else {
            lemma_sections_shift(a, b, j + 1);
        }
    }
}

/// The sections of lines followed by lines that begin with a header are
/// the sections of the one and then the sections of the other.
pub proof fn lemma_sections_concat(a: Seq<Seq<char>>, b: Seq<Seq<char>>, i: int)
    requires
        0 <= i <= a.len(),
        b.len() > 0 ==> is_header(b[0]),
    ensures
        sections_from(a + b, i) == sections_from(a, i) + sections_from(b, 0),
    decreases a.len() - i,
{
    if i == a.len() {
        lemma_sections_shift(a, b, 0);
        assert(sections_from(a, i) + sections_from(b, 0) == sections_from(b, 0));
    } else {
        assert((a + b)[i] == a[i]);
        if is_header(a[i]) {
            lemma_next_header_prefix(a, b, i + 1);
            lemma_next_header(a, i + 1);
            let k = next_header(a, i + 1);
            assert((a + b).subrange(i + 1, k) == a.subrange(i + 1, k));
            lemma_sections_concat(a, b, k);
            let first = section_of(a[i], a.subrange(i + 1, k));
            assert(seq![first] + (sections_from(a, k) + sections_from(b, 0)) == (seq![first]
                + sections_from(a, k)) + sections_from(b, 0));
        } else {
            lemma_sections_concat(a, b, i + 1);
        }
    }
}

/// Where nothing before index `n` is `c` and `n` holds `c` or is the end,
/// `first_index` finds `n`.
pub proof fn lemma_first_index_is(s: Seq<char>, c: char, n: int)
    requires
        0 <= n <= s.len(),
        forall|k: int| 0 <= k < n ==> s[k] != c,
        n < s.len() ==> s[n] == c,
    ensures
        first_index(s, c, 0) == n,
{
    lemma_first_index(s, c, 0);
}

/// A sequence wrapped in characters that a trim removes is what the trim
/// leaves, if it neither begins nor ends with such a character itself.
pub proof fn lemma_trim_wrapped(pre: Seq<char>, core: Seq<char>, post: Seq<char>, marks: bool)
    requires
        forall|i: int| 0 <= i < pre.len() ==> strips(pre[i], marks),
        forall|i: int| 0 <= i < post.len() ==> strips(post[i], marks),
        core.len() > 0 ==> !strips(core.first(), marks) && !strips(core.last(), marks),
    ensures
        trim_with(pre + core + post, marks) == core,
{
    let s = pre + core + post;
    lemma_first_kept(s, marks, 0);
    lemma_last_kept(s, marks, s.len() as int);
    let a = first_kept(s, marks, 0);
    let b = last_kept(s, marks, s.len() as int);
    assert forall|k: int| 0 <= k < s.len() && !(pre.len() <= k < pre.len() + core.len()) implies strips(
        s[k],
        marks,
    ) by {
        if k < pre.len() {
            assert(s[k] == pre[k]);
        } else {
            assert(s[k] == post[k - pre.len() - core.len()]);
        }
    }
    if core.len() > 0 {
        assert(s[pre.len() as int] == core.first());
        assert(s[pre.len() + core.len() - 1] == core.last());
        assert(a == pre.len());
        assert(b == pre.len() + core.len());
        assert(s.subrange(a, b) == core);
    } else {
        assert(a == s.len());
        assert(core == Seq::<char>::empty());
    }
}

/// A sequence without tabs, line feeds and carriage returns loses nothing
/// when they are taken out.
pub proof fn lemma_filter_keeps(s: Seq<char>)
    requires
        forall|i: int| 0 <= i < s.len() ==> !is_control(s[i]),
    ensures
        s.filter(not_control()) == s,
    decreases s.len(),
{
    reveal(Seq::filter);
    if s.len() > 0 {
        lemma_filter_keeps(s.drop_last());
        assert(s.drop_last().push(s.last()) == s);
    }
}

/// Whether `s` reads back unchanged as a name or a description: it holds
/// no tab, line feed or carriage return, and neither begins nor ends with
/// white space, a bracket or a quote.
pub open spec fn is_clean(s: Seq<char>) -> bool {
    &&& forall|i: int| 0 <= i < s.len() ==> !is_control(#[trigger] s[i])
    &&& s.len() > 0 ==> !strips(s.first(), true) && !strips(s.last(), true)
}

/// Whether `s` reads back unchanged as the name of a section: it is clean
/// and holds no space.
pub open spec fn is_name(s: Seq<char>) -> bool {
    &&& is_clean(s)
    &&& forall|i: int| 0 <= i < s.len() ==> #[trigger] s[i] != ' '
}

/// Whether `s` reads back unchanged as a value: it is not empty, holds no
/// line feed, and neither begins nor ends with white space.
pub open spec fn is_value(s: Seq<char>) -> bool {
    &&& s.len() > 0
    &&& !is_space(s.first())
    &&& !is_space(s.last())
    &&& forall|i: int| 0 <= i < s.len() ==> #[trigger] s[i] != '\n'
}

/// Whether `s` reads back unchanged as a key: it could be a value, holds
/// no `=`, and does not begin with `[`.
pub open spec fn is_key(s: Seq<char>) -> bool {
    &&& is_value(s)
    &&& s.first() != '['
    &&& forall|i: int| 0 <= i < s.len() ==> #[trigger] s[i] != '='
}

/// The header line of a section: `[name]`, or `[name "description"]`.
pub open spec fn header_line(name: Seq<char>, description: Option<Seq<char>>) -> Seq<char> {
    match description {
        None => seq!['['] + name + seq![']'],
        Some(d) => seq!['['] + name + seq![' ', '"'] + d + seq!['"', ']'],
    }
}

/// The line that gives `key` the value `value`: a tab, the key, ` = `, and
/// the value.
pub open spec fn option_line(key: Seq<char>, value: Seq<char>) -> Seq<char> {
    seq!['\t'] + key + seq![' ', '=', ' '] + value
}

/// A header line reads back as the name and the description that it was
/// made of.
pub proof fn lemma_header_reads_back(name: Seq<char>, description: Option<Seq<char>>)
    requires
        is_name(name),
        description matches Some(d) ==> is_clean(d),
    ensures
        is_header(header_line(name, description)),
        is_line(header_line(name, description)),
        header_name(header_line(name, description)) == name,
        header_description(header_line(name, description)) == description,
{
    let line = header_line(name, description);
    let none = Seq::<char>::empty();
    assert(line[0] == '[');
    assert(line.last() == ']');
    assert(forall|i: int| 0 <= i < line.len() ==> line[i] != '\n') by {
        assert forall|i: int| 0 <= i < line.len() implies line[i] != '\n' by {
            if 1 <= i < 1 + name.len() {
                assert(line[i] == name[i - 1]);
            } else if description is Some && 3 + name.len() <= i < 3 + name.len()
                + description->0.len() {
                assert(line[i] == description->0[i - 3 - name.len()]);
            }
        }
    }
    lemma_trim_wrapped(none, line, none, false);
    assert(none + line + none == line);
    assert(trim(line) == line);
    match description {
        None => {
            assert forall|k: int| 0 <= k < line.len() implies line[k] != ' ' by {
                if 1 <= k < 1 + name.len() {
                    assert(line[k] == name[k - 1]);
                }
            }
            lemma_first_index_is(line, ' ', line.len() as int);
            assert(line.subrange(0, line.len() as int) == line);
            lemma_trim_wrapped(seq!['['], name, seq![']'], true);
            lemma_filter_keeps(name);
        },
        Some(d) => {
            let n: int = 1 + name.len() as int;
            assert forall|k: int| 0 <= k < n implies line[k] != ' ' by {
                if 1 <= k {
                    assert(line[k] == name[k - 1]);
                }
            }
            assert(line[n] == ' ');
            lemma_first_index_is(line, ' ', n);
            assert(line.subrange(0, n) == seq!['['] + name + none);
            lemma_trim_wrapped(seq!['['], name, none, true);
            lemma_filter_keeps(name);
            assert(line.subrange(n + 1, line.len() as int) == seq!['"'] + d + seq!['"', ']']);
            lemma_trim_wrapped(seq!['"'], d, seq!['"', ']'], true);
            lemma_filter_keeps(d);
        },
    }
}

/// An option line reads back as the key and the value that it was made
/// of, and is no header.
pub proof fn lemma_option_reads_back(key: Seq<char>, value: Seq<char>)
    requires
        is_key(key),
        is_value(value),
    ensures
        !is_header(option_line(key, value)),
        is_line(option_line(key, value)),
        parse_pair(option_line(key, value)) == Some((key, value)),
{
    let line = option_line(key, value);
    let none = Seq::<char>::empty();
    let n: int = key.len() as int + 2;
    assert forall|k: int| 0 <= k < line.len() implies line[k] != '\n' by {
        if 1 <= k < 1 + key.len() {
            assert(line[k] == key[k - 1]);
        } else if k >= 4 + key.len() {
            assert(line[k] == value[k - 4 - key.len()]);
        }
    }
    assert(line.last() == value.last());
    assert forall|k: int| 0 <= k < n implies line[k] != '=' by {
        if 1 <= k < 1 + key.len() {
            assert(line[k] == key[k - 1]);
        }
    }
    assert(line[n] == '=');
    lemma_first_index_is(line, '=', n);
    assert(line.subrange(0, n) == seq!['\t'] + key + seq![' ']);
    lemma_trim_wrapped(seq!['\t'], key, seq![' '], false);
    assert(line.subrange(n + 1, line.len() as int) == seq![' '] + value + none);
    lemma_trim_wrapped(seq![' '], value, none, false);
    let core = key + seq![' ', '=', ' '] + value;
    assert(core.first() == key.first());
    assert(core.last() == value.last());
    lemma_trim_wrapped(seq!['\t'], core, none, false);
    assert(seq!['\t'] + core + none == line);
}

/// The keys of a section in some order, each with what it holds.
pub type Listing = Seq<(Seq<char>, ConfigValue)>;

/// The values that a key holds, in order.
pub open spec fn values_in(held: ConfigValue) -> Seq<Seq<char>> {
    match held {
        ConfigValue::Single(value) => seq![value],
        ConfigValue::Multiple(values) => values,
    }
}

/// Whether what a key holds reads back unchanged: a single value that
/// does, or two or more values that do.
pub open spec fn is_held(held: ConfigValue) -> bool {
    match held {
        ConfigValue::Single(value) => is_value(value),
        ConfigValue::Multiple(values) => values.len() >= 2 && forall|i: int|
            0 <= i < values.len() ==> is_value(#[trigger] values[i]),
    }
}

/// Whether a listing reads back unchanged: no key stands twice, and every
/// key and what it holds read back unchanged.
pub open spec fn is_listing(listing: Listing) -> bool {
    &&& forall|i: int, j: int|
        0 <= i < j < listing.len() ==> (#[trigger] listing[i]).0 != (#[trigger] listing[j]).0
    &&& forall|i: int|
        0 <= i < listing.len() ==> is_key((#[trigger] listing[i]).0) && is_held(listing[i].1)
}

/// The index of the first entry at or after `i` that has this key (the
/// number of entries if none has).
pub open spec fn entry_index(listing: Listing, key: Seq<char>, i: int) -> int
    decreases listing.len() - i,
{
    if 0 <= i < listing.len() && listing[i].0 != key {
        entry_index(listing, key, i + 1)
    } else {
        i
    }
}

/// The options that a listing lists.
pub open spec fn map_of(listing: Listing) -> Map<Seq<char>, ConfigValue> {
    Map::new(
        |key: Seq<char>| entry_index(listing, key, 0) < listing.len(),
        |key: Seq<char>| listing[entry_index(listing, key, 0)].1,
    )
}

/// The lines that give `key` each of `values`, in order.
pub open spec fn value_lines(key: Seq<char>, values: Seq<Seq<char>>) -> Seq<Seq<char>> {
    Seq::new(values.len(), |i: int| option_line(key, values[i]))
}

/// `key` with each of `values`, in order.
pub open spec fn entry_pairs(key: Seq<char>, values: Seq<Seq<char>>) -> Seq<Pair> {
    Seq::new(values.len(), |i: int| (key, values[i]))
}

/// The lines below the header of a section: for each key in the order of
/// the listing, a line for each of its values.
pub open spec fn body_lines(listing: Listing) -> Seq<Seq<char>>
    decreases listing.len(),
{
    if listing.len() == 0 {
        Seq::empty()
    } else {
        body_lines(listing.drop_last()) + value_lines(
            listing.last().0,
            values_in(listing.last().1),
        )
    }
}

/// Each key of a listing with each of its values, in order.
pub open spec fn listing_pairs(listing: Listing) -> Seq<Pair>
    decreases listing.len(),
{
    if listing.len() == 0 {
        Seq::empty()
    } else {
        listing_pairs(listing.drop_last()) + entry_pairs(
            listing.last().0,
            values_in(listing.last().1),
        )
    }
}

/// `entry_index` finds the first entry of the key.
pub proof fn lemma_entry_index(listing: Listing, key: Seq<char>, i: int)
    requires
        0 <= i <= listing.len(),
    ensures
        i <= entry_index(listing, key, i) <= listing.len(),
        forall|k: int| i <= k < entry_index(listing, key, i) ==> (#[trigger] listing[k]).0 != key,
        entry_index(listing, key, i) < listing.len() ==> listing[entry_index(listing, key, i)].0
            == key,
    decreases listing.len() - i,
{
    if i < listing.len() && listing[i].0 != key {
        lemma_entry_index(listing, key, i + 1);
    }
}

/// The lines of one key read back as the key with each of its values.
pub proof fn lemma_value_lines_read_back(key: Seq<char>, values: Seq<Seq<char>>)
    requires
        is_key(key),
        forall|i: int| 0 <= i < values.len() ==> is_value(#[trigger] values[i]),
    ensures
        pairs_of(value_lines(key, values)) == entry_pairs(key, values),
        forall|i: int|
            0 <= i < values.len() ==> !is_header(#[trigger] value_lines(key, values)[i]) && is_line(
                value_lines(key, values)[i],
            ),
    decreases values.len(),
{
    let lines = value_lines(key, values);
    if values.len() > 0 {
        let fewer = values.drop_last();
        assert forall|i: int| 0 <= i < fewer.len() implies is_value(#[trigger] fewer[i]) by {
            assert(fewer[i] == values[i]);
        }
        lemma_value_lines_read_back(key, fewer);
        assert(lines.drop_last() == value_lines(key, fewer));
        assert(is_value(values[values.len() - 1]));
        lemma_option_reads_back(key, values.last());
        assert(lines.last() == option_line(key, values.last()));
        assert(entry_pairs(key, fewer).push((key, values.last())) == entry_pairs(key, values));
        assert forall|i: int| 0 <= i < values.len() implies !is_header(#[trigger] lines[i])
            && is_line(lines[i]) by {
            if i < fewer.len() {
                assert(lines[i] == value_lines(key, fewer)[i]);
            }
        }
    } else {
        assert(entry_pairs(key, values) == Seq::<Pair>::empty());
    }
}

/// The lines of a listing read back as its keys with their values, and
/// none of them is a header.
pub proof fn lemma_body_reads_back(listing: Listing)
    requires
        is_listing(listing),
    ensures
        pairs_of(body_lines(listing)) == listing_pairs(listing),
        forall|i: int|
            0 <= i < body_lines(listing).len() ==> !is_header(#[trigger] body_lines(listing)[i])
                && is_line(body_lines(listing)[i]),
    decreases listing.len(),
{
    if listing.len() > 0 {
        let rest = listing.drop_last();
        let last = listing.last();
        assert forall|i: int, j: int| 0 <= i < j < rest.len() implies (#[trigger] rest[i]).0 != (
        #[trigger] rest[j]).0 by {
            assert(rest[i] == listing[i] && rest[j] == listing[j]);
        }
        assert forall|i: int| 0 <= i < rest.len() implies is_key((#[trigger] rest[i]).0)
            && is_held(rest[i].1) by {
            assert(rest[i] == listing[i]);
        }
        lemma_body_reads_back(rest);
        assert(is_key(listing[listing.len() - 1].0) && is_held(last.1));
        let values = values_in(last.1);
        assert forall|i: int| 0 <= i < values.len() implies is_value(#[trigger] values[i]) by {}
        lemma_value_lines_read_back(last.0, values);
        lemma_pairs_of_concat(body_lines(rest), value_lines(last.0, values));
        let lines = body_lines(listing);
        assert forall|i: int| 0 <= i < lines.len() implies !is_header(#[trigger] lines[i])
            && is_line(lines[i]) by {
            if i < body_lines(rest).len() {
                assert(lines[i] == body_lines(rest)[i]);
            } else {
                assert(lines[i] == value_lines(last.0, values)[i - body_lines(rest).len()]);
            }
        }
    } else {
        assert(pairs_of(Seq::<Seq<char>>::empty()) == Seq::<Pair>::empty());
    }
}

/// The values of a key in two runs of pairs, one after the other, are its
/// values in the first followed by its values in the second.
pub proof fn lemma_values_of_concat(a: Seq<Pair>, b: Seq<Pair>, key: Seq<char>)
    ensures
        values_of(a + b, key) == values_of(a, key) + values_of(b, key),
    decreases b.len(),
{
    if b.len() == 0 {
        assert(a + b == a);
        assert(values_of(a, key) + values_of(b, key) == values_of(a, key));
    } else {
        assert((a + b).drop_last() == a + b.drop_last());
        lemma_values_of_concat(a, b.drop_last(), key);
        if b.last().0 == key {
            assert(values_of(a, key) + values_of(b.drop_last(), key).push(b.last().1) == (
            values_of(a, key) + values_of(b.drop_last(), key)).push(b.last().1));
        }
    }
}

/// Among the pairs of one key, that key has all the values and no other
/// key has any.
pub proof fn lemma_values_of_entry(key: Seq<char>, values: Seq<Seq<char>>, other: Seq<char>)
    ensures
        values_of(entry_pairs(key, values), other) == if other == key {
            values
        } else {
            Seq::<Seq<char>>::empty()
        },
    decreases values.len(),
{
    let pairs = entry_pairs(key, values);
    if values.len() > 0 {
        lemma_values_of_entry(key, values.drop_last(), other);
        assert(pairs.drop_last() == entry_pairs(key, values.drop_last()));
        assert(pairs.last() == (key, values.last()));
        if other == key {
            assert(values.drop_last().push(values.last()) == values);
        }
    }
}

/// Among the pairs of a listing, each key has the values that the listing
/// gives it.
pub proof fn lemma_values_of_listing(listing: Listing, key: Seq<char>)
    requires
        forall|i: int, j: int|
            0 <= i < j < listing.len() ==> (#[trigger] listing[i]).0 != (#[trigger] listing[j]).0,
    ensures
        values_of(listing_pairs(listing), key) == if entry_index(listing, key, 0) < listing.len() {
            values_in(listing[entry_index(listing, key, 0)].1)
        } else {
            Seq::<Seq<char>>::empty()
        },
    decreases listing.len(),
{
    lemma_entry_index(listing, key, 0);
    if listing.len() > 0 {
        let rest = listing.drop_last();
        let last = listing.last();
        assert forall|i: int, j: int| 0 <= i < j < rest.len() implies (#[trigger] rest[i]).0 != (
        #[trigger] rest[j]).0 by {
            assert(rest[i] == listing[i] && rest[j] == listing[j]);
        }
        lemma_values_of_listing(rest, key);
        lemma_values_of_concat(listing_pairs(rest), entry_pairs(last.0, values_in(last.1)), key);
        lemma_values_of_entry(last.0, values_in(last.1), key);
        lemma_entry_index(rest, key, 0);
        let at = entry_index(listing, key, 0);
        let before = entry_index(rest, key, 0);
        if before < rest.len() {
            assert(rest[before] == listing[before]);
            if at < before {
                assert(rest[at] == listing[at]);
            }
            if before < at {
                assert(listing[before].0 != key);
            }
            assert(at == before);
            assert(last.0 != key) by {
                assert(listing[before].0 != listing[listing.len() - 1].0);
            }
            assert(values_in(rest[before].1) + Seq::<Seq<char>>::empty() == values_in(
                rest[before].1,
            ));
        } else {
            if at < rest.len() {
                assert(rest[at] == listing[at]);
            }
            assert(at >= rest.len());
            if last.0 == key {
                assert(at == rest.len());
                assert(Seq::<Seq<char>>::empty() + values_in(last.1) == values_in(last.1));
            } else {
                assert(at == listing.len());
                assert(Seq::<Seq<char>>::empty() + Seq::<Seq<char>>::empty() == Seq::<
                    Seq<char>,
                >::empty());
            }
        }
    }
}

/// The pairs of a listing make the options that the listing lists.
pub proof fn lemma_table_of_listing(listing: Listing)
    requires
        is_listing(listing),
    ensures
        table_of(listing_pairs(listing)) == map_of(listing),
{
    let pairs = listing_pairs(listing);
    assert forall|key: Seq<char>| #[trigger] lookup(pairs, key) == (if entry_index(listing, key, 0)
        < listing.len() {
        Some(listing[entry_index(listing, key, 0)].1)
    } else {
        None
    }) by {
        lemma_values_of_listing(listing, key);
        lemma_entry_index(listing, key, 0);
        let at = entry_index(listing, key, 0);
        if at < listing.len() {
            assert(is_held(listing[at].1));
            match listing[at].1 {
                ConfigValue::Single(value) => {
                    assert(seq![value][0] == value);
                },
                ConfigValue::Multiple(values) => {},
            }
        }
    }
    assert(table_of(pairs) =~= map_of(listing));
}

/// The name, the description and the listing of a section.
pub struct SectionListing {
    pub name: Seq<char>,
    pub description: Option<Seq<char>>,
    pub listing: Listing,
}

impl SectionListing {
    /// The section that is listed.
    pub open spec fn section(self) -> SectionView {
        SectionView {
            name: self.name,
            description: self.description,
            options: map_of(self.listing),
        }
    }

    /// Whether the section reads back unchanged.
    pub open spec fn reads_back(self) -> bool {
        &&& is_name(self.name)
        &&& self.description matches Some(d) ==> is_clean(d)
        &&& is_listing(self.listing)
    }

    /// The lines of the section: its header and the lines below it.
    pub open spec fn lines(self) -> Seq<Seq<char>> {
        seq![header_line(self.name, self.description)] + body_lines(self.listing)
    }
}

/// The sections that are listed.
pub open spec fn sections_of(listings: Seq<SectionListing>) -> Seq<SectionView> {
    listings.map_values(|l: SectionListing| l.section())
}

/// The lines of a configuration: those of its sections, in order.
pub open spec fn config_lines(listings: Seq<SectionListing>) -> Seq<Seq<char>>
    decreases listings.len(),
{
    if listings.len() == 0 {
        Seq::empty()
    } else {
        config_lines(listings.drop_last()) + listings.last().lines()
    }
}

/// The text of a configuration: its lines, each with a line feed behind
/// it.
pub open spec fn render(listings: Seq<SectionListing>) -> Seq<char> {
    stacked(config_lines(listings))
}

/// The lines of a section read back as the section.
pub proof fn lemma_section_reads_back(listing: SectionListing)
    requires
        listing.reads_back(),
    ensures
        sections_from(listing.lines(), 0) == seq![listing.section()],
        is_header(listing.lines()[0]),
        forall|i: int| 0 <= i < listing.lines().len() ==> is_line(#[trigger] listing.lines()[i]),
{
    let lines = listing.lines();
    let body = body_lines(listing.listing);
    lemma_header_reads_back(listing.name, listing.description);
    lemma_body_reads_back(listing.listing);
    lemma_table_of_listing(listing.listing);
    assert(lines[0] == header_line(listing.name, listing.description));
    assert forall|i: int| 1 <= i < lines.len() implies !is_header(#[trigger] lines[i]) && is_line(
        lines[i],
    ) by {
        assert(lines[i] == body[i - 1]);
    }
    lemma_next_header(lines, 1);
    assert(next_header(lines, 1) == lines.len());
    assert(lines.subrange(1, lines.len() as int) == body);
    assert(sections_from(lines, lines.len() as int) == Seq::<SectionView>::empty());
    assert(section_of(lines[0], body) == listing.section());
    assert(sections_from(lines, 0) == seq![listing.section()] + Seq::<SectionView>::empty());
}

/// The lines of a configuration read back as its sections.
pub proof fn lemma_lines_read_back(listings: Seq<SectionListing>)
    requires
        forall|i: int| 0 <= i < listings.len() ==> (#[trigger] listings[i]).reads_back(),
    ensures
        sections_from(config_lines(listings), 0) == sections_of(listings),
        forall|i: int|
            0 <= i < config_lines(listings).len() ==> is_line(#[trigger] config_lines(listings)[i]),
    decreases listings.len(),
{
    if listings.len() > 0 {
        let rest = listings.drop_last();
        let last = listings.last();
        assert forall|i: int| 0 <= i < rest.len() implies (#[trigger] rest[i]).reads_back() by {
            assert(rest[i] == listings[i]);
        }
        lemma_lines_read_back(rest);
        assert(listings[listings.len() - 1].reads_back());
        lemma_section_reads_back(last);
        lemma_sections_concat(config_lines(rest), last.lines(), 0);
        assert(sections_of(rest) + seq![last.section()] == sections_of(listings));
        let lines = config_lines(listings);
        assert forall|i: int| 0 <= i < lines.len() implies is_line(#[trigger] lines[i]) by {
            if i < config_lines(rest).len() {
                assert(lines[i] == config_lines(rest)[i]);
            } else {
                assert(lines[i] == last.lines()[i - config_lines(rest).len()]);
            }
        }
    } else {
        assert(sections_of(listings) == Seq::<SectionView>::empty());
    }
}

/// A configuration that is written as text and read again is the same
/// configuration, if each of its names, descriptions, keys and values is
/// one that reads back unchanged.
pub proof fn lemma_render_reads_back(listings: Seq<SectionListing>)
    requires
        forall|i: int| 0 <= i < listings.len() ==> (#[trigger] listings[i]).reads_back(),
    ensures
        parse_text(render(listings)) == sections_of(listings),
{
    lemma_lines_read_back(listings);
    lemma_split_stacked(config_lines(listings));
}

/// Whether a section is one that reads back unchanged: its name, its
/// description, its keys and what they hold all do.
pub open spec fn is_clean_section(section: SectionView) -> bool {
    &&& is_name(section.name)
    &&& section.description matches Some(d) ==> is_clean(d)
    &&& forall|key: Seq<char>| #[trigger]
        section.options.contains_key(key) ==> is_key(key) && is_held(section.options[key])
}

/// Whether `s` holds no line feed.
pub open spec fn is_one_line(s: Seq<char>) -> bool {
    forall|i: int| 0 <= i < s.len() ==> #[trigger] s[i] != '\n'
}

/// The lines of a text hold no line feed.
pub proof fn lemma_lines_hold_no_line_feed(s: Seq<char>, start: int)
    requires
        0 <= start <= s.len(),
    ensures
        forall|i: int|
            0 <= i < lines_from(s, start).len() ==> is_one_line(#[trigger] lines_from(s, start)[i]),
    decreases s.len() - start,
{
    if start < s.len() {
        lemma_first_index(s, '\n', start);
        let n = first_index(s, '\n', start);
        let lines = lines_from(s, start);
        if n >= s.len() {
            let line = s.subrange(start, s.len() as int);
            assert forall|k: int| 0 <= k < line.len() implies #[trigger] line[k] != '\n' by {
                assert(line[k] == s[start + k]);
            }
            assert(lines[0] == line);
        } else {
            lemma_lines_hold_no_line_feed(s, n + 1);
            let raw = s.subrange(start, n);
            let line = strip_cr(raw);
            assert forall|k: int| 0 <= k < line.len() implies #[trigger] line[k] != '\n' by {
                assert(line[k] == s[start + k]);
            }
            assert forall|i: int| 0 <= i < lines.len() implies is_one_line(#[trigger] lines[i]) by {
                if i == 0 {
                    assert(lines[0] == line);
                } else {
                    assert(lines[i] == lines_from(s, n + 1)[i - 1]);
                }
            }
        }
    }
}

/// What is left of a sequence that begins with a character that is no
/// tab, line feed or carriage return begins with that character.
pub proof fn lemma_filter_first(s: Seq<char>)
    requires
        s.len() > 0,
        !is_control(s.first()),
    ensures
        s.filter(not_control()).len() > 0,
        s.filter(not_control()).first() == s.first(),
    decreases s.len(),
{
    reveal(Seq::filter);
    if s.len() > 1 {
        assert(s.drop_last().first() == s.first());
        lemma_filter_first(s.drop_last());
    } else {
        assert(s.drop_last().filter(not_control()) == Seq::<char>::empty());
    }
}

/// Every character that is left of a sequence stands in the sequence.
pub proof fn lemma_filter_subset(s: Seq<char>, i: int)
    requires
        0 <= i < s.filter(not_control()).len(),
    ensures
        exists|j: int| 0 <= j < s.len() && s[j] == s.filter(not_control())[i],
        !is_control(s.filter(not_control())[i]),
    decreases s.len(),
{
    reveal(Seq::filter);
    if s.len() > 0 {
        let rest = s.drop_last().filter(not_control());
        if i < rest.len() {
            lemma_filter_subset(s.drop_last(), i);
            let j = choose|j: int| 0 <= j < s.drop_last().len() && s.drop_last()[j] == rest[i];
            assert(s[j] == s.filter(not_control())[i]);
        } else {
            assert(s[s.len() - 1] == s.filter(not_control())[i]);
        }
    }
}

/// A sanitized sequence is clean, and it holds no space if the sequence
/// it was made of holds none.
pub proof fn lemma_sanitized_is_clean(s: Seq<char>)
    ensures
        is_clean(sanitize_text(s)),
        (forall|i: int| 0 <= i < s.len() ==> s[i] != ' ') ==> is_name(sanitize_text(s)),
{
    let t = trim_with(s, true);
    let f = sanitize_text(s);
    lemma_trim_ends(s, true);
    let (a, b) = choose|a: int, b: int| 0 <= a <= b <= s.len() && t == s.subrange(a, b);
    assert forall|i: int| 0 <= i < f.len() implies !is_control(#[trigger] f[i]) by {
        lemma_filter_subset(t, i);
    }
    if f.len() > 0 {
        if t.len() == 0 {
            reveal(Seq::filter);
        }
        assert(t.len() > 0);
        lemma_filter_first(t);
        reveal(Seq::filter);
        assert(f.last() == t.last());
    }
    if forall|i: int| 0 <= i < s.len() ==> s[i] != ' ' {
        assert forall|i: int| 0 <= i < f.len() implies #[trigger] f[i] != ' ' by {
            lemma_filter_subset(t, i);
            let j = choose|j: int| 0 <= j < t.len() && t[j] == f[i];
            assert(t[j] == s[a + j]);
        }
    }
}

/// The key and the value of a `key = value` line read back unchanged, if
/// the line holds no line feed and is no header.
pub proof fn lemma_pair_is_clean(line: Seq<char>)
    requires
        parse_pair(line) is Some,
        is_one_line(line),
        !is_header(line),
    ensures
        is_key(key_in(line)),
        is_value(value_in(line)),
{
    let n = position(line, '=');
    lemma_first_index(line, '=', 0);
    let part = line.subrange(0, n);
    let rest = line.subrange(n + 1, line.len() as int);
    let key = trim(part);
    let value = trim(rest);
    lemma_trim_ends(part, false);
    lemma_trim_ends(rest, false);
    let (a, b) = choose|a: int, b: int| 0 <= a <= b <= part.len() && key == part.subrange(a, b);
    let (c, d) = choose|c: int, d: int| 0 <= c <= d <= rest.len() && value == rest.subrange(c, d);
    assert forall|i: int| 0 <= i < key.len() implies #[trigger] key[i] != '=' && key[i] != '\n' by {
        assert(key[i] == line[a + i]);
    }
    assert forall|i: int| 0 <= i < value.len() implies #[trigger] value[i] != '\n' by {
        assert(value[i] == line[n + 1 + c + i]);
    }
    // The first character of the key is the first of the line that is no
    // white space, and so the first of the trimmed line.
    lemma_first_kept(part, false, 0);
    lemma_last_kept(part, false, part.len() as int);
    let first = first_kept(part, false, 0);
    assert(first < last_kept(part, false, part.len() as int));
    assert(key == part.subrange(first, last_kept(part, false, part.len() as int)));
    assert(key[0] == part[first]);
    lemma_first_kept(line, false, 0);
    lemma_last_kept(line, false, line.len() as int);
    let start = first_kept(line, false, 0);
    let end = last_kept(line, false, line.len() as int);
    assert(line[first] == part[first]);
    if start < first {
        assert(line[start] == part[start]);
    }
    assert(start == first);
    if end <= start {
        assert(strips(line[start], false));
    }
    assert(trim(line) == line.subrange(start, end));
    assert(trim(line)[0] == key[0]);
}

/// Every value of a key among pairs is the value of a pair with that key.
pub proof fn lemma_value_has_pair(pairs: Seq<Pair>, key: Seq<char>, i: int)
    requires
        0 <= i < values_of(pairs, key).len(),
    ensures
        exists|j: int| 0 <= j < pairs.len() && #[trigger] pairs[j] == (key, values_of(pairs, key)[i]),
    decreases pairs.len(),
{
    if pairs.len() > 0 {
        let rest = values_of(pairs.drop_last(), key);
        if i < rest.len() {
            lemma_value_has_pair(pairs.drop_last(), key, i);
            let j = choose|j: int|
                0 <= j < pairs.drop_last().len() && #[trigger] pairs.drop_last()[j] == (
                    key,
                    rest[i],
                );
            assert(pairs[j] == (key, values_of(pairs, key)[i]));
        } else {
            assert(pairs[pairs.len() - 1] == (key, values_of(pairs, key)[i]));
        }
    }
}

/// Every pair of a run of lines is the pair of one of the lines.
pub proof fn lemma_pair_has_line(lines: Seq<Seq<char>>, i: int)
    requires
        0 <= i < pairs_of(lines).len(),
    ensures
        exists|j: int| 0 <= j < lines.len() && parse_pair(#[trigger] lines[j]) == Some(pairs_of(lines)[i]),
    decreases lines.len(),
{
    if lines.len() > 0 {
        let rest = pairs_of(lines.drop_last());
        if i < rest.len() {
            lemma_pair_has_line(lines.drop_last(), i);
            let j = choose|j: int|
                0 <= j < lines.drop_last().len() && parse_pair(#[trigger] lines.drop_last()[j])
                    == Some(rest[i]);
            assert(lines[j] == lines.drop_last()[j]);
        } else {
            assert(parse_pair(lines[lines.len() - 1]) == Some(pairs_of(lines)[i]));
        }
    }
}

/// The section that a header line and the lines below it make reads back
/// unchanged, if none of the lines holds a line feed and none below the
/// header is a header.
pub proof fn lemma_section_is_clean(header: Seq<char>, body: Seq<Seq<char>>)
    requires
        forall|i: int| 0 <= i < body.len() ==> is_one_line(#[trigger] body[i]) && !is_header(body[i]),
    ensures
        is_clean_section(section_of(header, body)),
{
    let section = section_of(header, body);
    let t = trim(header);
    lemma_first_index(t, ' ', 0);
    let n = position(t, ' ');
    let token = t.subrange(0, n);
    assert forall|i: int| 0 <= i < token.len() implies token[i] != ' ' by {
        assert(token[i] == t[i]);
    }
    lemma_sanitized_is_clean(token);
    if n < t.len() {
        lemma_sanitized_is_clean(t.subrange(n + 1, t.len() as int));
    }
    let pairs = pairs_of(body);
    assert forall|key: Seq<char>| #[trigger] section.options.contains_key(key) implies is_key(key)
        && is_held(section.options[key]) by {
        let values = values_of(pairs, key);
        assert(lookup(pairs, key) is Some);
        assert(values.len() > 0);
        assert forall|i: int| 0 <= i < values.len() implies is_key(key) && is_value(
            #[trigger] values[i],
        ) by {
            lemma_value_has_pair(pairs, key, i);
            let j = choose|j: int| 0 <= j < pairs.len() && #[trigger] pairs[j] == (key, values[i]);
            lemma_pair_has_line(body, j);
            let k = choose|k: int|
                0 <= k < body.len() && parse_pair(#[trigger] body[k]) == Some(pairs[j]);
            lemma_pair_is_clean(body[k]);
        }
        assert(is_value(values[0]));
    }
}

/// The sections that lines make read back unchanged, if none of the lines
/// holds a line feed.
pub proof fn lemma_sections_are_clean(lines: Seq<Seq<char>>, i: int)
    requires
        0 <= i <= lines.len(),
        forall|k: int| 0 <= k < lines.len() ==> is_one_line(#[trigger] lines[k]),
    ensures
        forall|k: int|
            0 <= k < sections_from(lines, i).len() ==> is_clean_section(
                #[trigger] sections_from(lines, i)[k],
            ),
    decreases lines.len() - i,
{
    if i < lines.len() {
        let sections = sections_from(lines, i);
        if is_header(lines[i]) {
            lemma_next_header(lines, i + 1);
            let j = next_header(lines, i + 1);
            let body = lines.subrange(i + 1, j);
            assert forall|k: int| 0 <= k < body.len() implies is_one_line(#[trigger] body[k])
                && !is_header(body[k]) by {
                assert(body[k] == lines[i + 1 + k]);
            }
            lemma_section_is_clean(lines[i], body);
            lemma_sections_are_clean(lines, j);
            let first = section_of(lines[i], body);
            assert(sections == seq![first] + sections_from(lines, j));
            assert forall|k: int| 0 <= k < sections.len() implies is_clean_section(
                #[trigger] sections[k],
            ) by {
                if k > 0 {
                    assert(sections[k] == sections_from(lines, j)[k - 1]);
                } else {
                    assert(sections[0] == first);
                }
            }
        } else {
            lemma_sections_are_clean(lines, i + 1);
            assert(sections == sections_from(lines, i + 1));
        }
    }
}

/// Every section that a text makes reads back unchanged.
pub proof fn lemma_parsed_is_clean(text: Seq<char>)
    ensures
        forall|k: int|
            0 <= k < parse_text(text).len() ==> is_clean_section(#[trigger] parse_text(text)[k]),
{
    lemma_lines_hold_no_line_feed(text, 0);
    lemma_sections_are_clean(split_lines(text), 0);
}

/// Whether `listing` lists `section`: it has the name and the description
/// of the section, and its listing names each key of the section once,
/// with what the key holds.
pub open spec fn lists(listing: SectionListing, section: SectionView) -> bool {
    &&& listing.name == section.name
    &&& listing.description == section.description
    &&& forall|i: int, j: int|
        0 <= i < j < listing.listing.len() ==> (#[trigger] listing.listing[i]).0 != (
        #[trigger] listing.listing[j]).0
    &&& map_of(listing.listing) == section.options
}

/// A listing of a section that reads back unchanged reads back unchanged.
pub proof fn lemma_listing_is_clean(listing: SectionListing, section: SectionView)
    requires
        lists(listing, section),
        is_clean_section(section),
    ensures
        listing.reads_back(),
        listing.section() == section,
{
    let entries = listing.listing;
    assert forall|i: int| 0 <= i < entries.len() implies is_key((#[trigger] entries[i]).0)
        && is_held(entries[i].1) by {
        let key = entries[i].0;
        lemma_entry_index(entries, key, 0);
        let at = entry_index(entries, key, 0);
        if at < i {
            assert(entries[at].0 != entries[i].0);
        }
        assert(at == i);
        assert(section.options.contains_key(key));
        assert(section.options[key] == entries[i].1);
    }
}

/// Reading is idempotent: the text that a configuration is written as,
/// whatever the order in which the keys of each section are listed, reads
/// back as the configuration that was read.
pub proof fn lemma_parse_is_idempotent(text: Seq<char>, listings: Seq<SectionListing>)
    requires
        listings.len() == parse_text(text).len(),
        forall|i: int|
            0 <= i < listings.len() ==> lists(#[trigger] listings[i], parse_text(text)[i]),
    ensures
        parse_text(render(listings)) == parse_text(text),
{
    let sections = parse_text(text);
    lemma_parsed_is_clean(text);
    assert forall|i: int| 0 <= i < listings.len() implies (#[trigger] listings[i]).reads_back()
        && listings[i].section() == sections[i] by {
        lemma_listing_is_clean(listings[i], sections[i]);
    }
    lemma_render_reads_back(listings);
    assert(sections_of(listings) == sections);
}

/// The name, the description and the listing of a section as it is held.
pub open spec fn listing_of(section: GitConfigSection) -> SectionListing {
    SectionListing {
        name: section.name@,
        description: text_of(section.description),
        listing: section.options.listed(),
    }
}

/// The names, the descriptions and the listings of sections as they are
/// held.
pub open spec fn listings_of(sections: Seq<GitConfigSection>) -> Seq<SectionListing> {
    sections.map_values(|s: GitConfigSection| listing_of(s))
}

/// The header line of a section.
fn header_chars(section: &GitConfigSection) -> (line: Vec<char>)
    ensures
        line@ == header_line(section.name@, text_of(section.description)),
{
    let mut line: Vec<char> = Vec::new();
    line.push('[');
    push_chars(&mut line, section.name.as_str());
    match &section.description {
        Some(description) => {
            line.push(' ');
            line.push('"');
            push_chars(&mut line, description.as_str());
            line.push('"');
            line.push(']');
            assert(line@ == seq!['['] + section.name@ + seq![' ', '"'] + description@ + seq![
                '"',
                ']',
            ]);
        },
        None => {
            line.push(']');
            assert(line@ == seq!['['] + section.name@ + seq![']']);
        },
    }
    line
}

/// The line that gives `key` the value `value`.
fn option_chars(key: &str, value: &str) -> (line: Vec<char>)
    ensures
        line@ == option_line(key@, value@),
{
    let mut line: Vec<char> = Vec::new();
    line.push('\t');
    push_chars(&mut line, key);
    line.push(' ');
    line.push('=');
    line.push(' ');
    push_chars(&mut line, value);
    assert(line@ == seq!['\t'] + key@ + seq![' ', '=', ' '] + value@);
    line
}

/// The lines of a section: its header and the lines below it.
fn section_lines(section: &GitConfigSection) -> (lines: Vec<Vec<char>>)
    ensures
        views(lines@) == listing_of(*section).lines(),
{
    let ghost listing = section.options.listed();
    let ghost header = header_line(section.name@, text_of(section.description));
    let mut lines: Vec<Vec<char>> = Vec::new();
    let head = header_chars(section);
    lines.push(head);
    let entries = section.options.entries();
    let mut i: usize = 0;
    assert(listing.take(0) == Seq::<(Seq<char>, ConfigValue)>::empty());
    assert(views(lines@) == seq![header] + body_lines(listing.take(0)));
    while i < entries.len()
        invariant
            i <= entries.len(),
            listing == entries@.map_values(|e: (String, OptionValue)| (e.0@, e.1@)),
            views(lines@) == seq![header] + body_lines(listing.take(i as int)),
        decreases entries.len() - i,
    {
        let ghost before = views(lines@);
        let ghost body = body_lines(listing.take(i as int));
        assert(listing.take(i + 1).drop_last() == listing.take(i as int));
        assert(listing.take(i + 1).last() == (entries[i as int].0@, entries[i as int].1@));
        let key = entries[i].0.as_str();
        match &entries[i].1 {
            OptionValue::String(value) => {
                let line = option_chars(key, value.as_str());
                let ghost held = lines@;
                lines.push(line);
                assert(views(lines@) == views(held).push(line@));
                assert(value_lines(key@, seq![value@]) == seq![line@]);
                assert(views(lines@) == seq![header] + (body + seq![line@]));
            },
            OptionValue::List(values) => {
                let ghost wanted = value_lines(key@, texts(values@));
                let mut k: usize = 0;
                assert(before + wanted.take(0) == before);
                while k < values.len()
                    invariant
                        k <= values.len(),
                        wanted == value_lines(key@, texts(values@)),
                        views(lines@) == before + wanted.take(k as int),
                    decreases values.len() - k,
                {
                    let line = option_chars(key, values[k].as_str());
                    let ghost held = lines@;
                    lines.push(line);
                    assert(views(lines@) == views(held).push(line@));
                    assert(wanted[k as int] == line@);
                    assert(wanted.take(k + 1) == wanted.take(k as int).push(wanted[k as int]));
                    k += 1;
                }
                assert(wanted.take(values.len() as int) == wanted);
                assert(views(lines@) == seq![header] + (body + wanted));
            },
        }
        i += 1;
    }
    assert(listing.take(entries.len() as int) == listing);
    lines
}

/// `lines`, each with a line feed behind it, one after the other.
pub fn stack(lines: &Vec<Vec<char>>) -> (text: Vec<char>)
    ensures
        text@ == stacked(views(lines@)),
{
    let ghost all = views(lines@);
    let mut text: Vec<char> = Vec::new();
    let mut i: usize = 0;
    assert(all.take(0) == Seq::<Seq<char>>::empty());
    while i < lines.len()
        invariant
            i <= lines.len(),
            all == views(lines@),
            text@ == stacked(all.take(i as int)),
        decreases lines.len() - i,
    {
        assert(all.take(i + 1).drop_last() == all.take(i as int));
        assert(all.take(i + 1).last() == lines[i as int]@);
        let ghost before = text@;
        let mut k: usize = 0;
        while k < lines[i as usize].len()
            invariant
                i < lines.len(),
                k <= lines[i as int].len(),
                text@ == before + lines[i as int]@.take(k as int),
            decreases lines[i as int].len() - k,
        {
            text.push(lines[i][k]);
            assert(lines[i as int]@.take(k + 1) == lines[i as int]@.take(k as int).push(
                lines[i as int]@[k as int],
            ));
            k += 1;
        }
        assert(lines[i as int]@.take(k as int) == lines[i as int]@);
        text.push('\n');
        assert(text@ == before + lines[i as int]@ + seq!['\n']);
        i += 1;
    }
    assert(all.take(i as int) == all);
    text
}

impl GitConfig {
    /// The configuration as the text of a `config` file: for each section
    /// its header line and, below it, a line for each value of each key.
    pub fn to_text(&self) -> (text: String)
        ensures
            text@ == render(listings_of(self.held())),
    {
        let sections = self.sections();
        let ghost all = listings_of(sections@);
        let mut lines: Vec<Vec<char>> = Vec::new();
        let mut i: usize = 0;
        assert(all.take(0) == Seq::<SectionListing>::empty());
        assert(views(lines@) == config_lines(all.take(0)));
        while i < sections.len()
            invariant
                i <= sections.len(),
                all == listings_of(sections@),
                views(lines@) == config_lines(all.take(i as int)),
            decreases sections.len() - i,
        {
            assert(all.take(i + 1).drop_last() == all.take(i as int));
            assert(all.take(i + 1).last() == listing_of(sections[i as int]));
            let ghost before = views(lines@);
            let more = section_lines(&sections[i]);
            let ghost wanted = views(more@);
            let mut k: usize = 0;
            assert(before + wanted.take(0) == before);
            while k < more.len()
                invariant
                    k <= more.len(),
                    wanted == views(more@),
                    views(lines@) == before + wanted.take(k as int),
                decreases more.len() - k,
            {
                let mut line: Vec<char> = Vec::new();
                let mut c: usize = 0;
                while c < more[k as usize].len()
                    invariant
                        k < more.len(),
                        c <= more[k as int].len(),
                        line@ == more[k as int]@.take(c as int),
                    decreases more[k as int].len() - c,
                {
                    line.push(more[k][c]);
                    c += 1;
                }
                assert(more[k as int]@.take(c as int) == more[k as int]@);
                let ghost held = lines@;
                lines.push(line);
                assert(views(lines@) == views(held).push(line@));
                assert(wanted.take(k + 1) == wanted.take(k as int).push(wanted[k as int]));
                k += 1;
            }
            assert(wanted.take(more.len() as int) == wanted);
            i += 1;
        }
        assert(all.take(i as int) == all);
        string_of(&stack(&lines))
    }
}

/// A configuration that was read from a text and is written back reads as
/// the same configuration again.
pub proof fn lemma_written_reads_back(config: GitConfig, text: Seq<char>)
    requires
        config@.sections == parse_text(text),
        all_wf(config.held()),
    ensures
        parse_text(render(listings_of(config.held()))) == parse_text(text),
{
    let held = config.held();
    let listings = listings_of(held);
    config.lemma_held();
    assert forall|i: int| 0 <= i < listings.len() implies lists(
        #[trigger] listings[i],
        parse_text(text)[i],
    ) by {
        assert(held[i].options.wf());
        held[i].options.lemma_listed();
        assert(parse_text(text)[i] == held[i]@);
    }
    lemma_parse_is_idempotent(text, listings);
}

} // verus!
