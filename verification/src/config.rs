//! The `config` file of a repository: sections of `key = value` lines.
//!
//! The format is read leniently. A line that is no section header and no
//! `key = value` pair is passed over; a key that a section gives twice or
//! more keeps all its values, in the order of the file.

use vstd::prelude::*;
use crate::path::{PathView, RepoPath};
use crate::text::{
    chars_of, contains, contains_chars, drop_controls, find_char, is_space, lemma_first_index,
    lines_of, not_control, position, split_lines, string_of, subvec, texts, trim, trim_chars,
    trim_with, views,
};

verus! {

/// The value of one key of a section.
#[derive(Debug, Clone, PartialEq, Eq)]
pub enum OptionValue {
    /// The key stands once in its section.
    String(String),
    /// The key stands twice or more; the values are in file order.
    List(Vec<String>),
}

/// The mathematical value of an [`OptionValue`].
pub enum ConfigValue {
    Single(Seq<char>),
    Multiple(Seq<Seq<char>>),
}

impl View for OptionValue {
    type V = ConfigValue;

    open spec fn view(&self) -> ConfigValue {
        match self {
            OptionValue::String(s) => ConfigValue::Single(s@),
            OptionValue::List(l) => ConfigValue::Multiple(texts(l@)),
        }
    }
}

/// A key with one of its values, as one line of the file gives them.
pub type Pair = (Seq<char>, Seq<char>);

/// The values that `pairs` gives to `key`, in order.
pub open spec fn values_of(pairs: Seq<Pair>, key: Seq<char>) -> Seq<Seq<char>>
    decreases pairs.len(),
{
    if pairs.len() == 0 {
        Seq::empty()
    } else {
        let rest = values_of(pairs.drop_last(), key);
        if pairs.last().0 == key {
            rest.push(pairs.last().1)
        } else {
            rest
        }
    }
}

/// What a key holds that was given these values: nothing, the one value,
/// or all of them.
pub open spec fn value_from(values: Seq<Seq<char>>) -> Option<ConfigValue> {
    if values.len() == 0 {
        None
    } else if values.len() == 1 {
        Some(ConfigValue::Single(values[0]))
    } else {
        Some(ConfigValue::Multiple(values))
    }
}

/// What `key` holds in a section made of `pairs`.
pub open spec fn lookup(pairs: Seq<Pair>, key: Seq<char>) -> Option<ConfigValue> {
    value_from(values_of(pairs, key))
}

/// The options of a section made of `pairs`.
pub open spec fn table_of(pairs: Seq<Pair>) -> Map<Seq<char>, ConfigValue> {
    Map::new(
        |key: Seq<char>| lookup(pairs, key) is Some,
        |key: Seq<char>| lookup(pairs, key)->0,
    )
}

/// What a key holds after one more value: a first value stands alone, a
/// second one makes a list of both, a later one is added to the list.
pub open spec fn merged(held: Option<ConfigValue>, value: Seq<char>) -> ConfigValue {
    match held {
        None => ConfigValue::Single(value),
        Some(ConfigValue::Single(first)) => ConfigValue::Multiple(seq![first, value]),
        Some(ConfigValue::Multiple(values)) => ConfigValue::Multiple(values.push(value)),
    }
}

/// What `table` holds under `key`, if anything.
pub open spec fn held(table: Map<Seq<char>, ConfigValue>, key: Seq<char>) -> Option<ConfigValue> {
    if table.contains_key(key) {
        Some(table[key])
    } else {
        None
    }
}

/// One more pair changes the table at its key only, as [`merged`] says.
pub proof fn lemma_table_push(pairs: Seq<Pair>, key: Seq<char>, value: Seq<char>)
    ensures
        table_of(pairs.push((key, value))) == table_of(pairs).insert(
            key,
            merged(held(table_of(pairs), key), value),
        ),
{
    let longer = pairs.push((key, value));
    assert(longer.drop_last() == pairs);
    assert forall|k: Seq<char>| #[trigger] lookup(longer, k) == (if k == key {
        Some(merged(lookup(pairs, key), value))
    } else {
        lookup(pairs, k)
    }) by {
        let earlier = values_of(pairs, k);
        if k == key {
            assert(values_of(longer, k) == earlier.push(value));
            if earlier.len() == 1 {
                assert(earlier.push(value) == seq![earlier[0], value]);
            }
        } else {
            assert(values_of(longer, k) == earlier);
        }
    }
    assert(table_of(longer) =~= table_of(pairs).insert(
        key,
        merged(held(table_of(pairs), key), value),
    ));
}

/// The options of one section: each key once, with what it holds.
#[derive(Debug, Clone)]
pub struct OptionTable {
    entries: Vec<(String, OptionValue)>,
}

/// The first index at or after `i` whose entry has this key (the length if
/// none has).
pub open spec fn slot(entries: Seq<(String, OptionValue)>, key: Seq<char>, i: int) -> int
    decreases entries.len() - i,
{
    if 0 <= i < entries.len() && entries[i].0@ != key {
        slot(entries, key, i + 1)
    } else {
        i
    }
}

proof fn lemma_slot(entries: Seq<(String, OptionValue)>, key: Seq<char>, i: int)
    requires
        0 <= i <= entries.len(),
    ensures
        i <= slot(entries, key, i) <= entries.len(),
        forall|k: int| i <= k < slot(entries, key, i) ==> entries[k].0@ != key,
        slot(entries, key, i) < entries.len() ==> entries[slot(entries, key, i)].0@ == key,
    decreases entries.len() - i,
{
    if i < entries.len() && entries[i].0@ != key {
        lemma_slot(entries, key, i + 1);
    }
}

impl View for OptionTable {
    type V = Map<Seq<char>, ConfigValue>;

    closed spec fn view(&self) -> Map<Seq<char>, ConfigValue> {
        Map::new(
            |key: Seq<char>| slot(self.entries@, key, 0) < self.entries.len(),
            |key: Seq<char>| self.entries[slot(self.entries@, key, 0)].1@,
        )
    }
}

impl OptionTable {
    /// No key stands twice. Every table that [`OptionTable::new`],
    /// [`OptionTable::insert`] and [`OptionTable::append`] build is so.
    pub closed spec fn wf(&self) -> bool {
        forall|i: int, j: int|
            0 <= i < j < self.entries.len() ==> self.entries[i].0@ != self.entries[j].0@
    }

    /// The keys in the order in which the table came by them, each with
    /// what it holds.
    pub closed spec fn listed(&self) -> Seq<(Seq<char>, ConfigValue)> {
        self.entries@.map_values(|e: (String, OptionValue)| (e.0@, e.1@))
    }

    /// The keys in the order in which the table came by them, each with
    /// what it holds.
    pub fn entries(&self) -> (entries: &Vec<(String, OptionValue)>)
        ensures
            entries@.map_values(|e: (String, OptionValue)| (e.0@, e.1@)) == self.listed(),
    {
        &self.entries
    }

    /// In a table in which no key stands twice, the keys that are listed
    /// differ, and what is listed is what the table holds.
    pub proof fn lemma_listed(&self)
        requires
            self.wf(),
        ensures
            forall|i: int, j: int|
                0 <= i < j < self.listed().len() ==> (#[trigger] self.listed()[i]).0 != (
                #[trigger] self.listed()[j]).0,
            crate::render::map_of(self.listed()) == self@,
    {
        let listed = self.listed();
        let map = crate::render::map_of(listed);
        assert forall|key: Seq<char>| #[trigger]
            map.dom().contains(key) == self@.dom().contains(key) by {
            lemma_slot_is_entry_index(self.entries@, key, 0);
        }
        assert forall|key: Seq<char>| map.dom().contains(key) implies #[trigger] map[key]
            == self@[key] by {
            lemma_slot_is_entry_index(self.entries@, key, 0);
            lemma_slot(self.entries@, key, 0);
            let at = slot(self.entries@, key, 0);
            assert(listed[at] == (self.entries[at].0@, self.entries[at].1@));
        }
        assert(map =~= self@);
    }

    /// A table without keys.
    pub fn new() -> (table: OptionTable)
        ensures
            table@ == Map::<Seq<char>, ConfigValue>::empty(),
            table.wf(),
    {
        let table = OptionTable { entries: Vec::new() };
        assert(table@ =~= Map::<Seq<char>, ConfigValue>::empty());
        table
    }

    /// Where `key` stands, or the number of entries if it does not.
    fn find(&self, key: &str) -> (at: usize)
        ensures
            at == slot(self.entries@, key@, 0),
            at <= self.entries.len(),
            at < self.entries.len() ==> self.entries[at as int].0@ == key@,
            forall|k: int| 0 <= k < at ==> self.entries[k].0@ != key@,
    {
        let mut i: usize = 0;
        while i < self.entries.len() && !self.entries[i].0.as_str().eq(key)
            invariant
                i <= self.entries.len(),
                slot(self.entries@, key@, 0) == slot(self.entries@, key@, i as int),
                forall|k: int| 0 <= k < i ==> self.entries[k].0@ != key@,
            decreases self.entries.len() - i,
        {
            i += 1;
        }
        i
    }

    /// What `key` holds, if the table has it.
    pub fn get(&self, key: &str) -> (found: Option<&OptionValue>)
        ensures
            match found {
                Some(value) => self@.contains_key(key@) && self@[key@] == value@,
                None => !self@.contains_key(key@),
            },
    {
        let at = self.find(key);
        if at < self.entries.len() {
            Some(&self.entries[at].1)
        } else {
            None
        }
    }

    /// Puts `value` under `key`, in place of what the key held.
    pub fn insert(&mut self, key: String, value: OptionValue)
        ensures
            final(self)@ == old(self)@.insert(key@, value@),
            old(self).wf() ==> final(self).wf(),
    {
        let at = self.find(key.as_str());
        let ghost before = self.entries@;
        let ghost k = key@;
        let ghost v = value@;
        if at < self.entries.len() {
            self.entries.set(at, (key, value));
        } else {
            self.entries.push((key, value));
        }
        proof {
            let after = self.entries@;
            assert forall|other: Seq<char>| other != k implies ({
                &&& slot(after, other, 0) < after.len() <==> slot(before, other, 0) < before.len()
                &&& slot(before, other, 0) < before.len() ==> slot(after, other, 0) == slot(
                    before,
                    other,
                    0,
                )
            }) by {
                lemma_slot_elsewhere(before, after, at as int, other, 0);
            }
            assert forall|other: Seq<char>| other != k && slot(before, other, 0)
                < before.len() implies after[slot(before, other, 0)] == before[slot(before, other, 0)] by {
                lemma_slot(before, other, 0);
            }
            assert(forall|j: int| 0 <= j < at ==> after[j] == before[j]);
            assert(after[at as int].0@ == k);
            assert(forall|j: int| 0 <= j < at ==> before[j].0@ != k);
            lemma_slot(after, k, 0);
            let first = slot(after, k, 0);
            if first < at {
                assert(after[first].0@ == before[first].0@);
            }
            assert(first == at);
            assert(self@ =~= old(self)@.insert(k, v));
        }
    }

    /// Gives `key` one more value: alone if the key is new, in a list with
    /// the earlier ones if it is not.
    pub fn append(&mut self, key: String, value: String)
        ensures
            final(self)@ == old(self)@.insert(key@, merged(held(old(self)@, key@), value@)),
            old(self).wf() ==> final(self).wf(),
    {
        let next = match self.get(key.as_str()) {
            None => OptionValue::String(value),
            Some(OptionValue::String(first)) => {
                let mut values: Vec<String> = Vec::new();
                values.push(first.clone());
                values.push(value);
                assert(texts(values@) == seq![first@, value@]);
                OptionValue::List(values)
            },
            Some(OptionValue::List(earlier)) => {
                let mut values = crate::path::copy_strings(earlier);
                let ghost copied = values@;
                values.push(value);
                assert(texts(values@) == texts(copied).push(value@));
                OptionValue::List(values)
            },
        };
        self.insert(key, next);
    }
}

/// The slot of a key among entries is its index among their views.
proof fn lemma_slot_is_entry_index(entries: Seq<(String, OptionValue)>, key: Seq<char>, i: int)
    requires
        0 <= i,
    ensures
        slot(entries, key, i) == crate::render::entry_index(
            entries.map_values(|e: (String, OptionValue)| (e.0@, e.1@)),
            key,
            i,
        ),
    decreases entries.len() - i,
{
    if i < entries.len() && entries[i].0@ != key {
        lemma_slot_is_entry_index(entries, key, i + 1);
    }
}

/// Entries that agree everywhere but at `at` have the same slot for every
/// key that the entry at `at` does not carry before or after.
proof fn lemma_slot_elsewhere(
    before: Seq<(String, OptionValue)>,
    after: Seq<(String, OptionValue)>,
    at: int,
    key: Seq<char>,
    i: int,
)
    requires
        0 <= i,
        0 <= at <= before.len(),
        at < before.len() ==> after.len() == before.len() && before[at].0@ == after[at].0@,
        at == before.len() ==> after.len() == before.len() + 1,
        forall|k: int| 0 <= k < before.len() && k != at ==> before[k] == after[k],
        after[at].0@ != key,
    ensures
        slot(after, key, i) < after.len() <==> slot(before, key, i) < before.len(),
        slot(before, key, i) < before.len() ==> slot(after, key, i) == slot(before, key, i),
    decreases after.len() - i,
{
    if i < after.len() {
        if i < before.len() && before[i].0@ != key {
            lemma_slot_elsewhere(before, after, at, key, i + 1);
        } else if i >= before.len() {
            lemma_slot_elsewhere(before, after, at, key, i + 1);
        }
    }
}

/// `s` as a section's name or description keeps it: without the brackets,
/// quotes and white space at its ends, and without tabs, line feeds and
/// carriage returns anywhere.
pub open spec fn sanitize_text(s: Seq<char>) -> Seq<char> {
    trim_with(s, true).filter(not_control())
}

/// Whether `line` opens a section: its first character that is not white
/// space is `[`.
pub open spec fn is_header(line: Seq<char>) -> bool {
    trim(line).len() > 0 && trim(line)[0] == '['
}

/// The name that a header line gives its section: what stands before the
/// first space of the trimmed line.
pub open spec fn header_name(line: Seq<char>) -> Seq<char> {
    let t = trim(line);
    sanitize_text(t.subrange(0, position(t, ' ')))
}

/// The description that a header line gives its section: what stands
/// behind the first space of the trimmed line, if there is a space.
pub open spec fn header_description(line: Seq<char>) -> Option<Seq<char>> {
    let t = trim(line);
    let n = position(t, ' ');
    if n < t.len() {
        Some(sanitize_text(t.subrange(n + 1, t.len() as int)))
    } else {
        None
    }
}

/// The key and the value of a line `key = value`, split at the first `=`
/// and trimmed. A line without `=`, without a key or without a value gives
/// nothing.
pub open spec fn parse_pair(line: Seq<char>) -> Option<Pair> {
    let n = position(line, '=');
    if n < line.len() {
        let key = trim(line.subrange(0, n));
        let value = trim(line.subrange(n + 1, line.len() as int));
        if key.len() > 0 && value.len() > 0 {
            Some((key, value))
        } else {
            None
        }
    } else {
        None
    }
}

/// The pairs that `lines` give, in order.
pub open spec fn pairs_of(lines: Seq<Seq<char>>) -> Seq<Pair>
    decreases lines.len(),
{
    if lines.len() == 0 {
        Seq::empty()
    } else {
        let rest = pairs_of(lines.drop_last());
        match parse_pair(lines.last()) {
            Some(pair) => rest.push(pair),
            None => rest,
        }
    }
}

/// The index of the first header line at or after `i` (the number of lines
/// if there is none).
pub open spec fn next_header(lines: Seq<Seq<char>>, i: int) -> int
    decreases lines.len() - i,
{
    if 0 <= i < lines.len() && !is_header(lines[i]) {
        next_header(lines, i + 1)
    } else {
        i
    }
}

/// `next_header` stays in range and passes over no header.
pub proof fn lemma_next_header(lines: Seq<Seq<char>>, i: int)
    requires
        0 <= i <= lines.len(),
    ensures
        i <= next_header(lines, i) <= lines.len(),
        forall|k: int| i <= k < next_header(lines, i) ==> !is_header(lines[k]),
        next_header(lines, i) < lines.len() ==> is_header(lines[next_header(lines, i)]),
    decreases lines.len() - i,
{
    if i < lines.len() && !is_header(lines[i]) {
        lemma_next_header(lines, i + 1);
    }
}

/// The mathematical value of a [`GitConfigSection`].
pub struct SectionView {
    pub name: Seq<char>,
    pub description: Option<Seq<char>>,
    pub options: Map<Seq<char>, ConfigValue>,
}

/// The section that a header line and the lines below it make.
pub open spec fn section_of(header: Seq<char>, body: Seq<Seq<char>>) -> SectionView {
    SectionView {
        name: header_name(header),
        description: header_description(header),
        options: table_of(pairs_of(body)),
    }
}

/// The sections that the lines from index `i` on make. Each header line
/// opens a section of its own, which runs up to the next header line; lines
/// before the first header belong to no section.
pub open spec fn sections_from(lines: Seq<Seq<char>>, i: int) -> Seq<SectionView>
    decreases lines.len() - i,
    via sections_from_decreases
{
    if i < 0 || i >= lines.len() {
        Seq::empty()
    } else if is_header(lines[i]) {
        let j = next_header(lines, i + 1);
        seq![section_of(lines[i], lines.subrange(i + 1, j))] + sections_from(lines, j)
    } else {
        sections_from(lines, i + 1)
    }
}

#[via_fn]
proof fn sections_from_decreases(lines: Seq<Seq<char>>, i: int) {
    if 0 <= i < lines.len() {
        lemma_next_header(lines, i + 1);
    }
}

/// The sections that a whole file makes.
pub open spec fn parse_text(text: Seq<char>) -> Seq<SectionView> {
    sections_from(split_lines(text), 0)
}

/// The view of an optional string.
pub open spec fn text_of(s: Option<String>) -> Option<Seq<char>> {
    match s {
        Some(s) => Some(s@),
        None => None,
    }
}

/// `chars` as a section's name or description keeps it.
pub fn sanitize_chars(chars: &Vec<char>) -> (out: Vec<char>)
    ensures
        out@ == sanitize_text(chars@),
{
    let trimmed = trim_chars(chars, true);
    drop_controls(&trimmed)
}

/// `s` without the brackets, quotes and white space at its ends, and
/// without tabs, line feeds and carriage returns anywhere.
pub fn sanitize(s: String) -> (out: String)
    ensures
        out@ == sanitize_text(s@),
{
    let chars = chars_of(s.as_str());
    string_of(&sanitize_chars(&chars))
}

/// Whether `line` opens a section.
pub fn is_header_line(line: &Vec<char>) -> (r: bool)
    ensures
        r == is_header(line@),
{
    let t = trim_chars(line, false);
    t.len() > 0 && t[0] == '['
}

/// The name and the description that a header line gives its section.
pub fn header_parts(line: &Vec<char>) -> (parts: (String, Option<String>))
    ensures
        parts.0@ == header_name(line@),
        text_of(parts.1) == header_description(line@),
{
    let t = trim_chars(line, false);
    let n = find_char(&t, ' ', 0);
    let name = string_of(&sanitize_chars(&subvec(&t, 0, n)));
    let description = if n < t.len() {
        Some(string_of(&sanitize_chars(&subvec(&t, n + 1, t.len()))))
    } else {
        None
    };
    (name, description)
}

/// The section name and, if the line has one, the description of a header
/// line: `[core "description"]` gives `core` and `description`.
pub fn get_section_name(s: &str) -> (parts: (String, Option<String>))
    ensures
        parts.0@ == header_name(s@),
        text_of(parts.1) == header_description(s@),
{
    let chars = chars_of(s);
    header_parts(&chars)
}

/// The key and the value of a line, if it is a `key = value` line.
pub fn parse_pair_line(line: &Vec<char>) -> (pair: Option<(Vec<char>, Vec<char>)>)
    ensures
        match pair {
            Some((key, value)) => parse_pair(line@) == Some((key@, value@)),
            None => parse_pair(line@) is None,
        },
{
    let n = find_char(line, '=', 0);
    if n >= line.len() {
        return None;
    }
    let key = trim_chars(&subvec(line, 0, n), false);
    let value = trim_chars(&subvec(line, n + 1, line.len()), false);
    if key.len() > 0 && value.len() > 0 {
        Some((key, value))
    } else {
        None
    }
}

/// The key and the value of a line `key = value`, trimmed; `None` for a
/// line that has no `=`, no key or no value.
pub fn parse_line(line: &str) -> (pair: Option<(String, String)>)
    ensures
        match pair {
            Some((key, value)) => parse_pair(line@) == Some((key@, value@)),
            None => parse_pair(line@) is None,
        },
{
    let chars = chars_of(line);
    match parse_pair_line(&chars) {
        Some((key, value)) => Some((string_of(&key), string_of(&value))),
        None => None,
    }
}

/// One section of the file: a header line and the options below it.
/// Sections are never merged: two headers with one name make two sections.
#[derive(Debug, Clone)]
pub struct GitConfigSection {
    pub name: String,
    pub description: Option<String>,
    pub options: OptionTable,
}

impl View for GitConfigSection {
    type V = SectionView;

    open spec fn view(&self) -> SectionView {
        SectionView {
            name: self.name@,
            description: text_of(self.description),
            options: self.options@,
        }
    }
}

impl GitConfigSection {
    /// What `key` holds in this section, if the section has it.
    pub fn query(&self, key: &str) -> (found: Option<&OptionValue>)
        ensures
            match found {
                Some(value) => self@.options.contains_key(key@) && self@.options[key@] == value@,
                None => !self@.options.contains_key(key@),
            },
    {
        self.options.get(key)
    }
}

/// The views of a sequence of sections.
pub open spec fn section_views(sections: Seq<GitConfigSection>) -> Seq<SectionView> {
    sections.map_values(|s: GitConfigSection| s@)
}

/// Reads the section that the header at line `at` opens. Returns it with
/// the index of the line that ends it.
fn read_section(lines: &Vec<Vec<char>>, at: usize) -> (out: (GitConfigSection, usize))
    requires
        at < lines.len(),
        is_header(lines[at as int]@),
    ensures
        out.1 == next_header(views(lines@), at + 1),
        at < out.1 <= lines.len(),
        out.0@ == section_of(views(lines@)[at as int], views(lines@).subrange(at + 1, out.1 as int)),
        out.0.options.wf(),
{
    let ghost all = views(lines@);
    let (name, description) = header_parts(&lines[at]);
    let mut options = OptionTable::new();
    let mut j: usize = at + 1;
    assert(pairs_of(all.subrange(at + 1, j as int)) == Seq::<Pair>::empty());
    assert(table_of(Seq::<Pair>::empty()) =~= Map::<Seq<char>, ConfigValue>::empty());
    while j < lines.len() && !is_header_line(&lines[j])
        invariant
            at < j <= lines.len(),
            all == views(lines@),
            next_header(all, at + 1) == next_header(all, j as int),
            options@ == table_of(pairs_of(all.subrange(at + 1, j as int))),
            options.wf(),
        decreases lines.len() - j,
    {
        let ghost before = all.subrange(at + 1, j as int);
        let ghost longer = all.subrange(at + 1, j + 1);
        assert(longer.drop_last() == before);
        assert(longer.last() == lines[j as int]@);
        match parse_pair_line(&lines[j]) {
            Some((key, value)) => {
                proof {
                    lemma_table_push(pairs_of(before), key@, value@);
                }
                options.append(string_of(&key), string_of(&value));
            },
            None => {},
        }
        j += 1;
    }
    (GitConfigSection { name, description, options }, j)
}

/// The sections of a file, given as its lines.
fn read_sections(lines: &Vec<Vec<char>>) -> (sections: Vec<GitConfigSection>)
    ensures
        section_views(sections@) == sections_from(views(lines@), 0),
        all_wf(sections@),
{
    let ghost all = views(lines@);
    let mut sections: Vec<GitConfigSection> = Vec::new();
    let mut i: usize = 0;
    while i < lines.len()
        invariant
            i <= lines.len(),
            all == views(lines@),
            sections_from(all, 0) == section_views(sections@) + sections_from(all, i as int),
            all_wf(sections@),
        decreases lines.len() - i,
    {
        if is_header_line(&lines[i]) {
            let ghost before = sections@;
            let (section, end) = read_section(lines, i);
            proof {
                assert(sections_from(all, i as int) == seq![section@] + sections_from(
                    all,
                    end as int,
                ));
                assert(section_views(before.push(section)) == section_views(before).push(
                    section@,
                ));
                assert(section_views(before).push(section@) + sections_from(all, end as int)
                    == section_views(before) + (seq![section@] + sections_from(all, end as int)));
            }
            sections.push(section);
            i = end;
        } else {
            i += 1;
        }
    }
    sections
}

/// The sections among `sections` whose name is `name`, in order.
pub open spec fn named(sections: Seq<SectionView>, name: Seq<char>) -> Seq<SectionView>
    decreases sections.len(),
{
    if sections.len() == 0 {
        Seq::empty()
    } else {
        let rest = named(sections.drop_last(), name);
        if sections.last().name == name {
            rest.push(sections.last())
        } else {
            rest
        }
    }
}

/// The URL of a section that describes a remote: the one value of its key
/// `url`. A section with another name, without that key, or with several
/// values under it has none.
pub open spec fn remote_url(section: SectionView) -> Option<Seq<char>> {
    if section.name == "remote"@ && section.options.contains_key("url"@) {
        match section.options["url"@] {
            ConfigValue::Single(url) => Some(url),
            ConfigValue::Multiple(_) => None,
        }
    } else {
        None
    }
}

/// The remote that a section describes: its description as the remote's
/// name, with its URL. A section that lacks either describes none.
pub open spec fn remote_of(section: SectionView) -> Option<Pair> {
    match (section.description, remote_url(section)) {
        (Some(name), Some(url)) => Some((name, url)),
        _ => None,
    }
}

/// The remotes that `sections` describe, in order.
pub open spec fn remotes_of(sections: Seq<SectionView>) -> Seq<Pair>
    decreases sections.len(),
{
    if sections.len() == 0 {
        Seq::empty()
    } else {
        let rest = remotes_of(sections.drop_last());
        match remote_of(sections.last()) {
            Some(remote) => rest.push(remote),
            None => rest,
        }
    }
}

/// The first remote URL, among the sections from index `i` on, in which
/// `pattern` occurs.
pub open spec fn first_url_with(sections: Seq<SectionView>, pattern: Seq<char>, i: int) -> Option<
    Seq<char>,
>
    decreases sections.len() - i,
{
    if i < 0 || i >= sections.len() {
        None
    } else {
        match remote_url(sections[i]) {
            Some(url) if contains(url, pattern) => Some(url),
            _ => first_url_with(sections, pattern, i + 1),
        }
    }
}

/// The views of a sequence of pairs of strings.
pub open spec fn pair_texts(pairs: Seq<(String, String)>) -> Seq<Pair> {
    pairs.map_values(|p: (String, String)| (p.0@, p.1@))
}

/// The views of a sequence of borrowed sections.
pub open spec fn borrowed_views(sections: Seq<&GitConfigSection>) -> Seq<SectionView> {
    sections.map_values(|s: &GitConfigSection| s@)
}

/// The sections of a repository's `config` file, with the path of the
/// file.
#[derive(Debug, Clone)]
pub struct GitConfig {
    path: RepoPath,
    sections: Vec<GitConfigSection>,
}

/// The mathematical value of a [`GitConfig`].
pub struct ConfigView {
    pub path: PathView,
    pub sections: Seq<SectionView>,
}

impl View for GitConfig {
    type V = ConfigView;

    closed spec fn view(&self) -> ConfigView {
        ConfigView { path: self.path@, sections: section_views(self.sections@) }
    }
}

/// Whether no key stands twice in any of the sections.
pub open spec fn all_wf(sections: Seq<GitConfigSection>) -> bool {
    forall|i: int| 0 <= i < sections.len() ==> (#[trigger] sections[i]).options.wf()
}

/// The URL of a section that describes a remote, if it has one.
fn remote_url_of(section: &GitConfigSection) -> (url: Option<&String>)
    ensures
        text_of_ref(url) == remote_url(section@),
{
    if !section.name.as_str().eq("remote") {
        return None;
    }
    match section.query("url") {
        Some(OptionValue::String(url)) => Some(url),
        _ => None,
    }
}

/// The view of an optional borrowed string.
pub open spec fn text_of_ref(s: Option<&String>) -> Option<Seq<char>> {
    match s {
        Some(s) => Some(s@),
        None => None,
    }
}

impl GitConfig {
    /// The sections as they are held, in file order.
    pub closed spec fn held(&self) -> Seq<GitConfigSection> {
        self.sections@
    }

    /// The sections of the view are the views of the sections that are
    /// held.
    pub proof fn lemma_held(&self)
        ensures
            self@.sections == section_views(self.held()),
    {
    }

    /// The configuration that lies at `path` and holds `sections`.
    pub fn new(path: RepoPath, sections: Vec<GitConfigSection>) -> (config: GitConfig)
        ensures
            config@ == (ConfigView { path: path@, sections: section_views(sections@) }),
            config.held() == sections@,
    {
        GitConfig { path, sections }
    }

    /// Reads the text of the `config` file that lies at `path`. No text is
    /// refused: a line that cannot be read is passed over.
    pub fn parse(path: RepoPath, text: &str) -> (config: GitConfig)
        ensures
            config@ == (ConfigView { path: path@, sections: parse_text(text@) }),
            all_wf(config.held()),
    {
        let chars = chars_of(text);
        let lines = lines_of(&chars);
        let sections = read_sections(&lines);
        GitConfig { path, sections }
    }

    /// The path of the file.
    pub fn path(&self) -> (path: &RepoPath)
        ensures
            path@ == self@.path,
    {
        &self.path
    }

    /// The sections, in file order.
    pub fn sections(&self) -> (sections: &Vec<GitConfigSection>)
        ensures
            sections@ == self.held(),
            section_views(sections@) == self@.sections,
    {
        &self.sections
    }

    /// The root of the repository: two levels above the file, which lies at
    /// `<root>/.git/config`.
    pub fn get_repo_path(&self) -> (root: RepoPath)
        requires
            self@.path.depth() >= 2,
        ensures
            root@ == self@.path.ancestor(2),
    {
        let mut names: Vec<String> = Vec::new();
        let mut i: usize = 0;
        while i + 2 < self.path.names.len()
            invariant
                i + 2 <= self.path.names.len(),
                texts(names@) == texts(self.path.names@).take(i as int),
            decreases self.path.names.len() - i,
        {
            let item = self.path.names[i].clone();
            names.push(item);
            assert(texts(names@) == texts(self.path.names@).take(i as int).push(
                self.path.names@[i as int]@,
            ));
            i += 1;
        }
        RepoPath { anchor: self.path.anchor.clone(), names }
    }

    /// All sections with this name, in file order; `None` if there is none.
    pub fn query(&self, name: &str) -> (found: Option<Vec<&GitConfigSection>>)
        ensures
            match found {
                Some(sections) => sections.len() > 0 && borrowed_views(sections@) == named(
                    self@.sections,
                    name@,
                ),
                None => named(self@.sections, name@).len() == 0,
            },
    {
        let ghost all = section_views(self.sections@);
        let mut result: Vec<&GitConfigSection> = Vec::new();
        let mut i: usize = 0;
        while i < self.sections.len()
            invariant
                i <= self.sections.len(),
                all == section_views(self.sections@),
                borrowed_views(result@) == named(all.take(i as int), name@),
            decreases self.sections.len() - i,
        {
            let section = &self.sections[i];
            let ghost before = result@;
            assert(all.take(i + 1).drop_last() == all.take(i as int));
            if section.name.as_str().eq(name) {
                result.push(section);
                assert(borrowed_views(result@) == borrowed_views(before).push(section@));
            }
            i += 1;
        }
        assert(all.take(i as int) == all);
        if result.len() == 0 {
            None
        } else {
            Some(result)
        }
    }

    /// The first remote URL, in file order, in which `contains` occurs.
    pub fn get_remote_url_by_filter(&self, contains: &str) -> (url: Option<String>)
        ensures
            text_of(url) == first_url_with(self@.sections, contains@, 0),
    {
        let ghost all = section_views(self.sections@);
        let pattern = chars_of(contains);
        let mut i: usize = 0;
        while i < self.sections.len()
            invariant
                i <= self.sections.len(),
                all == section_views(self.sections@),
                pattern@ == contains@,
                first_url_with(all, pattern@, 0) == first_url_with(all, pattern@, i as int),
            decreases self.sections.len() - i,
        {
            match remote_url_of(&self.sections[i]) {
                Some(url) => {
                    let chars = chars_of(url.as_str());
                    if contains_chars(&chars, &pattern) {
                        return Some(url.clone());
                    }
                },
                None => {},
            }
            i += 1;
        }
        None
    }

    /// The remotes of the repository, each with its URL, in file order.
    pub fn get_remotes(&self) -> (remotes: Vec<(String, String)>)
        ensures
            pair_texts(remotes@) == remotes_of(self@.sections),
    {
        let ghost all = section_views(self.sections@);
        let mut remotes: Vec<(String, String)> = Vec::new();
        let mut i: usize = 0;
        while i < self.sections.len()
            invariant
                i <= self.sections.len(),
                all == section_views(self.sections@),
                pair_texts(remotes@) == remotes_of(all.take(i as int)),
            decreases self.sections.len() - i,
        {
            let section = &self.sections[i];
            let ghost before = remotes@;
            assert(all.take(i + 1).drop_last() == all.take(i as int));
            match (&section.description, remote_url_of(section)) {
                (Some(name), Some(url)) => {
                    let remote = (name.clone(), url.clone());
                    remotes.push(remote);
                    assert(pair_texts(remotes@) == pair_texts(before).push((name@, url@)));
                },
                _ => {},
            }
            i += 1;
        }
        assert(all.take(i as int) == all);
        remotes
    }
}

/// The key of a `key = value` line.
pub open spec fn key_in(line: Seq<char>) -> Seq<char> {
    let pair = parse_pair(line)->0;
    pair.0
}

/// The value of a `key = value` line.
pub open spec fn value_in(line: Seq<char>) -> Seq<char> {
    let pair = parse_pair(line)->0;
    pair.1
}

/// Whether `line` is a `key = value` line with this key.
pub open spec fn gives(line: Seq<char>, key: Seq<char>) -> bool {
    parse_pair(line) is Some && key_in(line) == key
}

/// Whether `at` lists, in rising order, exactly the indices of the lines
/// of `body` that give `key`.
pub open spec fn lines_giving(body: Seq<Seq<char>>, key: Seq<char>, at: Seq<int>) -> bool {
    &&& forall|m: int, n: int| 0 <= m < n < at.len() ==> #[trigger] at[m] < #[trigger] at[n]
    &&& forall|n: int|
        0 <= n < at.len() ==> 0 <= #[trigger] at[n] < body.len() && gives(body[at[n]], key)
    &&& forall|j: int| 0 <= j < body.len() && #[trigger] gives(body[j], key) ==> at.contains(j)
}

/// The values of the lines of `body` at the indices `at`.
pub open spec fn values_at(body: Seq<Seq<char>>, at: Seq<int>) -> Seq<Seq<char>> {
    Seq::new(at.len(), |n: int| value_in(body[at[n]]))
}

/// The values that a section holds under a key are those of the lines that
/// give the key, in the order of the lines.
pub proof fn lemma_values_in_file_order(body: Seq<Seq<char>>, key: Seq<char>, at: Seq<int>)
    requires
        lines_giving(body, key, at),
    ensures
        values_of(pairs_of(body), key) == values_at(body, at),
    decreases body.len(),
{
    if body.len() == 0 {
        if at.len() > 0 {
            assert(0 <= at[0] < body.len());
        }
        assert(values_at(body, at) =~= Seq::<Seq<char>>::empty());
    } else {
        let last = body.len() - 1;
        let shorter = body.drop_last();
        if gives(body[last], key) {
            assert(at.contains(last));
            let n = choose|n: int| 0 <= n < at.len() && at[n] == last;
            if n + 1 < at.len() {
                assert(at[n] < at[n + 1]);
                assert(at[n + 1] < body.len());
            }
            assert(n == at.len() - 1);
            let fewer = at.drop_last();
            assert forall|j: int| 0 <= j < shorter.len() && gives(shorter[j], key) implies fewer.contains(
                j,
            ) by {
                assert(shorter[j] == body[j]);
                assert(gives(body[j], key));
                assert(at.contains(j));
                let m = choose|m: int| 0 <= m < at.len() && at[m] == j;
                assert(m != n);
                assert(fewer[m] == j);
            }
            assert forall|m: int| 0 <= m < fewer.len() implies 0 <= #[trigger] fewer[m]
                < shorter.len() && gives(shorter[fewer[m]], key) by {
                assert(at[m] < at[n]);
                assert(gives(body[at[m]], key));
            }
            assert forall|m: int, k: int| 0 <= m < k < fewer.len() implies #[trigger] fewer[m]
                < #[trigger] fewer[k] by {
                assert(at[m] < at[k]);
            }
            lemma_values_in_file_order(shorter, key, fewer);
            let pair = parse_pair(body[last])->0;
            assert(pairs_of(body) == pairs_of(shorter).push(pair));
            assert(pairs_of(body).drop_last() == pairs_of(shorter));
            assert(values_at(body, at) =~= values_at(shorter, fewer).push(pair.1));
        } else {
            assert forall|m: int| 0 <= m < at.len() implies 0 <= #[trigger] at[m] < shorter.len()
                && gives(shorter[at[m]], key) by {
                assert(gives(body[at[m]], key));
            }
            assert forall|j: int| 0 <= j < shorter.len() && #[trigger] gives(
                shorter[j],
                key,
            ) implies at.contains(j) by {
                assert(shorter[j] == body[j]);
                assert(gives(body[j], key));
            }
            lemma_values_in_file_order(shorter, key, at);
            match parse_pair(body[last]) {
                Some(pair) => {
                    assert(pairs_of(body).drop_last() == pairs_of(shorter));
                },
                None => {},
            }
            assert(values_at(body, at) =~= values_at(shorter, at));
        }
    }
}

/// A key that exactly one line of a section gives holds the value of that
/// line alone: what stands behind the line's first `=`, without the white
/// space around it.
pub proof fn lemma_key_given_once(header: Seq<char>, body: Seq<Seq<char>>, key: Seq<char>, at: int)
    requires
        lines_giving(body, key, seq![at]),
    ensures
        section_of(header, body).options.contains_key(key),
        section_of(header, body).options[key] == ConfigValue::Single(value_in(body[at])),
        value_in(body[at]) == trim(
            body[at].subrange(position(body[at], '=') + 1, body[at].len() as int),
        ),
        !is_space(value_in(body[at]).first()),
        !is_space(value_in(body[at]).last()),
{
    let only = seq![at];
    assert(only[0] == at);
    lemma_values_in_file_order(body, key, only);
    crate::text::lemma_trim_ends(
        body[at].subrange(position(body[at], '=') + 1, body[at].len() as int),
        false,
    );
}

/// A key that two or more lines of a section give holds the values of all
/// of them, in the order of the lines.
pub proof fn lemma_key_given_repeatedly(
    header: Seq<char>,
    body: Seq<Seq<char>>,
    key: Seq<char>,
    at: Seq<int>,
)
    requires
        lines_giving(body, key, at),
        at.len() >= 2,
    ensures
        section_of(header, body).options.contains_key(key),
        section_of(header, body).options[key] == ConfigValue::Multiple(values_at(body, at)),
{
    lemma_values_in_file_order(body, key, at);
}

/// A key that no line of a section gives is not in the section.
pub proof fn lemma_key_not_given(header: Seq<char>, body: Seq<Seq<char>>, key: Seq<char>)
    requires
        forall|j: int| 0 <= j < body.len() ==> !gives(body[j], key),
    ensures
        !section_of(header, body).options.contains_key(key),
{
    lemma_values_in_file_order(body, key, Seq::<int>::empty());
}

/// The pairs of two runs of lines, one after the other, are the pairs of
/// the first followed by the pairs of the second.
pub proof fn lemma_pairs_of_concat(a: Seq<Seq<char>>, b: Seq<Seq<char>>)
    ensures
        pairs_of(a + b) == pairs_of(a) + pairs_of(b),
    decreases b.len(),
{
    if b.len() == 0 {
        assert(a + b == a);
        assert(pairs_of(a) + pairs_of(b) == pairs_of(a));
    } else {
        assert((a + b).drop_last() == a + b.drop_last());
        lemma_pairs_of_concat(a, b.drop_last());
        match parse_pair(b.last()) {
            Some(pair) => {
                assert(pairs_of(a) + pairs_of(b.drop_last()).push(pair) == (pairs_of(a) + pairs_of(
                    b.drop_last(),
                )).push(pair));
            },
            None => {},
        }
    }
}

/// A line that is no `key = value` line leaves the section that it stands
/// in as it would be without the line.
pub proof fn lemma_unreadable_line_ignored(
    header: Seq<char>,
    before: Seq<Seq<char>>,
    line: Seq<char>,
    after: Seq<Seq<char>>,
)
    requires
        parse_pair(line) is None,
    ensures
        section_of(header, before + seq![line] + after) == section_of(header, before + after),
{
    lemma_pairs_of_concat(before + seq![line], after);
    lemma_pairs_of_concat(before, seq![line]);
    lemma_pairs_of_concat(before, after);
    assert(seq![line].drop_last() == Seq::<Seq<char>>::empty());
    assert(pairs_of(Seq::<Seq<char>>::empty()) == Seq::<Pair>::empty());
    assert(seq![line].last() == line);
    assert(pairs_of(seq![line]) == Seq::<Pair>::empty());
    assert(pairs_of(before) + Seq::<Pair>::empty() == pairs_of(before));
}

/// A line without `=` is no `key = value` line.
pub proof fn lemma_line_without_equals(line: Seq<char>)
    requires
        forall|i: int| 0 <= i < line.len() ==> line[i] != '=',
    ensures
        parse_pair(line) is None,
{
    lemma_first_index(line, '=', 0);
}

/// A header line that another header line follows directly opens a section
/// of its own, without options; the second header opens the next section.
pub proof fn lemma_headers_in_a_row(lines: Seq<Seq<char>>, i: int)
    requires
        0 <= i,
        i + 1 < lines.len(),
        is_header(lines[i]),
        is_header(lines[i + 1]),
    ensures
        sections_from(lines, i) == seq![section_of(lines[i], Seq::empty())] + sections_from(
            lines,
            i + 1,
        ),
        section_of(lines[i], Seq::empty()).options == Map::<Seq<char>, ConfigValue>::empty(),
        sections_from(lines, i).len() >= 2,
{
    assert(lines.subrange(i + 1, i + 1) == Seq::<Seq<char>>::empty());
    assert(table_of(Seq::<Pair>::empty()) =~= Map::<Seq<char>, ConfigValue>::empty());
    lemma_next_header(lines, i + 2);
}

} // verus!
