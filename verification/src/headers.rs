//! The headers of a message, kept in an `http::HeaderMap`.
use crate::number::{
    decimal_bytes, decimal_reads_back, only_digits_denote_numbers, parse_unsigned, unsigned_value,
};
use crate::stream::push_bytes;
use crate::syntax::{
    are_plain_lines, crlf, head_bytes, is_header_name, is_header_value, is_token, is_trimmed,
    line_bytes, lines_bytes, lower, lower_char, lower_name_is_a_name, HeaderLine, COLON, COMMA, CR,
    LF, SPACE,
};
use http::header::{HeaderMap, HeaderName, HeaderValue};
use vstd::prelude::*;
use vstd::utf8::encode_utf8;

verus! {

#[verifier::external_type_specification]
#[verifier::external_body]
#[verifier::reject_recursive_types(T)]
pub struct ExHeaderMap<T>(HeaderMap<T>);

#[verifier::external_type_specification]
#[verifier::external_body]
pub struct ExHeaderValue(HeaderValue);

/// A header's name, in small letters, and its values.
pub type HeaderEntry = (Seq<char>, Seq<Seq<u8>>);

/// So many different names fit into a header map, whatever the names are.
///
/// The map's table has at most 32768 slots. A map with fewer names than a fifth of them never
/// asks for a larger table.
pub const HEADER_CAPACITY: usize = 6553;

/// The names in a header map, each with its values: the names in the order in which they came in,
/// the values of one name in the order in which they came in.
pub uninterp spec fn header_entries(headers: HeaderMap<HeaderValue>) -> Seq<
    (Seq<char>, Seq<Seq<u8>>),
>;

/// Where a name stands among the entries; their number, if it does not.
pub open spec fn position(entries: Seq<HeaderEntry>, name: Seq<char>) -> int
    decreases entries.len(),
{
    if entries.len() == 0 {
        0
    } else if entries[0].0 == name {
        0
    } else {
        1 + position(entries.skip(1), name)
    }
}

/// Whether a header of that name is present. The case of letters does not count.
pub open spec fn has_header(entries: Seq<HeaderEntry>, name: Seq<char>) -> bool {
    position(entries, lower(name)) < entries.len()
}

/// The first value of the header of that name. The case of letters does not count.
pub open spec fn header_value(entries: Seq<HeaderEntry>, name: Seq<char>) -> Option<Seq<u8>> {
    if has_header(entries, name) {
        Some(entries[position(entries, lower(name))].1[0])
    } else {
        None
    }
}

/// All values of the header of that name. The case of letters does not count.
pub open spec fn header_values(entries: Seq<HeaderEntry>, name: Seq<char>) -> Seq<Seq<u8>> {
    if has_header(entries, name) {
        entries[position(entries, lower(name))].1
    } else {
        Seq::empty()
    }
}

/// Values as a list, with a comma and a space between them.
pub open spec fn list_of(values: Seq<Seq<u8>>) -> Seq<u8>
    decreases values.len(),
{
    if values.len() == 0 {
        Seq::empty()
    } else if values.len() == 1 {
        values[0]
    } else {
        list_of(values.drop_last()) + seq![COMMA, SPACE] + values.last()
    }
}

/// The values that a vector of byte strings stands for.
pub open spec fn value_views(values: Seq<Vec<u8>>) -> Seq<Seq<u8>> {
    values.map_values(|value: Vec<u8>| value@)
}

/// Whether all of these are values of headers.
pub open spec fn are_header_values(values: Seq<Seq<u8>>) -> bool {
    forall|i: int| 0 <= i < values.len() ==> is_header_value(#[trigger] values[i])
}

/// The entries with one more value of a name.
pub open spec fn with_appended(
    entries: Seq<HeaderEntry>,
    name: Seq<char>,
    value: Seq<u8>,
) -> Seq<HeaderEntry> {
    let i = position(entries, lower(name));
    if i < entries.len() {
        entries.update(i, (lower(name), entries[i].1.push(value)))
    } else {
        entries.push((lower(name), seq![value]))
    }
}

/// The entries with one value of a name in place of all values that it had.
pub open spec fn with_inserted(
    entries: Seq<HeaderEntry>,
    name: Seq<char>,
    value: Seq<u8>,
) -> Seq<HeaderEntry> {
    let i = position(entries, lower(name));
    if i < entries.len() {
        entries.update(i, (lower(name), seq![value]))
    } else {
        entries.push((lower(name), seq![value]))
    }
}

/// The entries that arise when headers come in one after the other.
pub open spec fn collected(lines: Seq<HeaderLine>) -> Seq<HeaderEntry>
    decreases lines.len(),
{
    if lines.len() == 0 {
        Seq::empty()
    } else {
        with_appended(collected(lines.drop_last()), lines.last().0, lines.last().1)
    }
}

/// The lines of one name.
pub open spec fn entry_lines(entry: HeaderEntry) -> Seq<HeaderLine> {
    entry.1.map_values(|value: Seq<u8>| (entry.0, value))
}

/// The headers as lines, name by name.
pub open spec fn header_lines(entries: Seq<HeaderEntry>) -> Seq<HeaderLine>
    decreases entries.len(),
{
    if entries.len() == 0 {
        Seq::empty()
    } else {
        header_lines(entries.drop_last()) + entry_lines(entries.last())
    }
}

/// The lines that a vector of names and values stands for.
pub open spec fn line_views(lines: Seq<(String, Vec<u8>)>) -> Seq<HeaderLine> {
    lines.map_values(|line: (String, Vec<u8>)| (line.0@, line.1@))
}

/// Whether a header map takes every one of these headers.
pub open spec fn are_accepted_lines(lines: Seq<HeaderLine>) -> bool {
    forall|i: int|
        0 <= i < lines.len() ==> is_header_name((#[trigger] lines[i]).0) && is_header_value(
            lines[i].1,
        )
}

/// Calls `http::HeaderMap::new`: the map holds nothing.
#[verifier::external_body]
pub(crate) fn new_headers() -> (headers: HeaderMap<HeaderValue>)
    ensures
        header_entries(headers) == Seq::<HeaderEntry>::empty(),
{
    HeaderMap::new()
}

/// Calls `http::header::HeaderName::from_bytes` on the text's bytes: it takes a text of 1 to 65535
/// characters, all of them among those of a name.
#[verifier::external_body]
pub(crate) fn is_accepted_name(name: &str) -> (accepted: bool)
    ensures
        accepted == is_header_name(name@),
{
    HeaderName::from_bytes(name.as_bytes()).is_ok()
}

/// Calls `http::header::HeaderValue::from_bytes`: it takes bytes that are all among those of a
/// value.
#[verifier::external_body]
pub(crate) fn is_accepted_value(value: &[u8]) -> (accepted: bool)
    ensures
        accepted == is_header_value(value@),
{
    HeaderValue::from_bytes(value).is_ok()
}

/// Calls `http::HeaderMap::get`: the first value of the name, in letters of either case. A value in
/// a map is made of a value's bytes.
#[verifier::external_body]
pub(crate) fn get_header<'a>(headers: &'a HeaderMap<HeaderValue>, name: &str) -> (value: Option<
    &'a [u8],
>)
    ensures
        match value {
            Some(bytes) => header_value(header_entries(*headers), name@) == Some(bytes@)
                && is_header_value(bytes@),
            None => header_value(header_entries(*headers), name@) is None,
        },
{
    headers.get(name).map(|value| value.as_bytes())
}

/// Calls `http::HeaderMap::get_all`: all values of the name, in letters of either case, in the order
/// in which they came in. A value in a map is made of a value's bytes.
#[verifier::external_body]
pub(crate) fn get_all_headers(headers: &HeaderMap<HeaderValue>, name: &str) -> (values: Vec<
    Vec<u8>,
>)
    ensures
        value_views(values@) == header_values(header_entries(*headers), name@),
        are_header_values(value_views(values@)),
{
    headers.get_all(name).iter().map(|value| value.as_bytes().to_vec()).collect()
}

/// Calls `http::HeaderMap::append`: the value joins those of its name, at the end.
#[verifier::external_body]
pub(crate) fn append_header(headers: &mut HeaderMap<HeaderValue>, name: &str, value: &[u8])
    requires
        is_header_name(name@),
        is_header_value(value@),
        header_entries(*old(headers)).len() <= HEADER_CAPACITY,
    ensures
        header_entries(*final(headers)) == with_appended(
            header_entries(*old(headers)),
            name@,
            value@,
        ),
{
    headers.append(
        HeaderName::from_bytes(name.as_bytes()).unwrap(),
        HeaderValue::from_bytes(value).unwrap(),
    );
}

/// Calls `http::HeaderMap::insert`: the value takes the place of all values of its name.
#[verifier::external_body]
pub(crate) fn insert_header(
    headers: &mut HeaderMap<HeaderValue>,
    name: &'static str,
    value: &[u8],
)
    requires
        is_header_name(name@),
        is_header_value(value@),
        header_entries(*old(headers)).len() <= HEADER_CAPACITY,
    ensures
        header_entries(*final(headers)) == with_inserted(
            header_entries(*old(headers)),
            name@,
            value@,
        ),
{
    headers.insert(name, HeaderValue::from_bytes(value).unwrap());
}

/// Calls `http::HeaderMap::iter`: the headers name by name, in the order in which the names came in,
/// and the values of a name in the order in which they came in.
#[verifier::external_body]
pub(crate) fn list_headers(headers: &HeaderMap<HeaderValue>) -> (lines: Vec<(String, Vec<u8>)>)
    ensures
        line_views(lines@) == header_lines(header_entries(*headers)),
{
    headers.iter().map(|(name, value)| (name.to_string(), value.as_bytes().to_vec())).collect()
}

/// Where a name stands, that name stands, and nowhere before.
pub proof fn name_stands_at_position(entries: Seq<HeaderEntry>, name: Seq<char>)
    ensures
        0 <= position(entries, name) <= entries.len(),
        position(entries, name) < entries.len() ==> entries[position(entries, name)].0 == name,
        forall|i: int| 0 <= i < position(entries, name) ==> (#[trigger] entries[i]).0 != name,
    decreases entries.len(),
{
    if entries.len() > 0 && entries[0].0 != name {
        let rest = entries.skip(1);
        name_stands_at_position(rest, name);
        assert forall|i: int| 0 <= i < position(entries, name) implies (#[trigger] entries[i]).0
            != name by {
            if i > 0 {
                assert(rest[i - 1] == entries[i]);
            }
        }
    }
}

proof fn lemma_position_is(entries: Seq<HeaderEntry>, name: Seq<char>, i: int)
    requires
        0 <= i <= entries.len(),
        i < entries.len() ==> entries[i].0 == name,
        forall|j: int| 0 <= j < i ==> (#[trigger] entries[j]).0 != name,
    ensures
        position(entries, name) == i,
{
    name_stands_at_position(entries, name);
}

/// There are no more names than headers.
pub proof fn collected_is_no_longer(lines: Seq<HeaderLine>)
    ensures
        collected(lines).len() <= lines.len(),
    decreases lines.len(),
{
    if lines.len() > 0 {
        collected_is_no_longer(lines.drop_last());
        name_stands_at_position(collected(lines.drop_last()), lower(lines.last().0));
    }
}

proof fn lemma_inserted_position(entries: Seq<HeaderEntry>, name: Seq<char>, value: Seq<u8>)
    ensures
        0 <= position(entries, lower(name)) <= entries.len(),
        position(with_inserted(entries, name, value), lower(name)) == position(
            entries,
            lower(name),
        ),
{
    let i = position(entries, lower(name));
    name_stands_at_position(entries, lower(name));
    let after = with_inserted(entries, name, value);
    assert forall|j: int| 0 <= j < i implies (#[trigger] after[j]).0 != lower(name) by {
        assert(after[j] == entries[j]);
    }
    lemma_position_is(after, lower(name), i);
}

/// A header that was inserted is found under its name, and with its new value.
pub proof fn inserted_is_found(entries: Seq<HeaderEntry>, name: Seq<char>, value: Seq<u8>)
    ensures
        header_value(with_inserted(entries, name, value), name) == Some(value),
{
    lemma_inserted_position(entries, name, value);
}

/// A header that was inserted has its new value only.
pub proof fn inserted_is_only_value(entries: Seq<HeaderEntry>, name: Seq<char>, value: Seq<u8>)
    ensures
        header_values(with_inserted(entries, name, value), name) == seq![value],
{
    lemma_inserted_position(entries, name, value);
}

/// Inserting a header leaves the values of all other names as they were.
pub proof fn inserted_keeps_others(
    entries: Seq<HeaderEntry>,
    name: Seq<char>,
    value: Seq<u8>,
    other: Seq<char>,
)
    requires
        lower(other) != lower(name),
    ensures
        header_values(with_inserted(entries, name, value), other) == header_values(
            entries,
            other,
        ),
        header_value(with_inserted(entries, name, value), other) == header_value(entries, other),
{
    let i = position(entries, lower(name));
    name_stands_at_position(entries, lower(name));
    let k = position(entries, lower(other));
    name_stands_at_position(entries, lower(other));
    let after = with_inserted(entries, name, value);
    if k < entries.len() {
        lemma_position_is(after, lower(other), k);
    } else {
        assert forall|j: int| 0 <= j < after.len() implies (#[trigger] after[j]).0 != lower(
            other,
        ) by {
            if j < entries.len() && j != i {
                assert(after[j] == entries[j]);
            }
        }
        lemma_position_is(after, lower(other), after.len() as int);
    }
}

/// Inserting twice under one name leaves what the second insertion alone would.
pub proof fn inserted_twice(
    entries: Seq<HeaderEntry>,
    name: Seq<char>,
    first: Seq<u8>,
    second: Seq<u8>,
)
    ensures
        with_inserted(with_inserted(entries, name, first), name, second) == with_inserted(
            entries,
            name,
            second,
        ),
{
    let after = with_inserted(entries, name, first);
    lemma_inserted_position(entries, name, first);
    assert(with_inserted(after, name, second) =~= with_inserted(entries, name, second));
}

/// Entries as a header map holds them: every name once, in small letters, with at least one value.
pub open spec fn are_proper_entries(entries: Seq<HeaderEntry>) -> bool {
    &&& forall|i: int|
        0 <= i < entries.len() ==> lower((#[trigger] entries[i]).0) == entries[i].0
            && entries[i].1.len() > 0
    &&& forall|i: int, j: int|
        0 <= i < j < entries.len() ==> (#[trigger] entries[i]).0 != (#[trigger] entries[j]).0
}

proof fn lemma_collected_entry(lines: Seq<HeaderLine>, entry: HeaderEntry, n: int)
    requires
        0 < n <= entry.1.len(),
        lower(entry.0) == entry.0,
        forall|i: int|
            0 <= i < collected(lines).len() ==> (#[trigger] collected(lines)[i]).0 != entry.0,
    ensures
        collected(lines + entry_lines(entry).take(n)) == collected(lines).push(
            (entry.0, entry.1.take(n)),
        ),
    decreases n,
{
    let before = collected(lines);
    let all = lines + entry_lines(entry).take(n);
    assert(all.drop_last() =~= lines + entry_lines(entry).take(n - 1));
    assert(all.last() == (entry.0, entry.1[n - 1]));
    if n == 1 {
        assert(all.drop_last() =~= lines);
        lemma_position_is(before, entry.0, before.len() as int);
        assert(entry.1.take(1) =~= seq![entry.1[0]]);
    } else {
        lemma_collected_entry(lines, entry, n - 1);
        let so_far = before.push((entry.0, entry.1.take(n - 1)));
        assert forall|j: int| 0 <= j < before.len() implies (#[trigger] so_far[j]).0 != entry.0 by {
            assert(so_far[j] == before[j]);
        }
        lemma_position_is(so_far, entry.0, before.len() as int);
        assert(entry.1.take(n - 1).push(entry.1[n - 1]) =~= entry.1.take(n));
        assert(collected(all) =~= before.push((entry.0, entry.1.take(n))));
    }
}

/// Headers that are listed line by line and collected again are the headers that were there.
pub proof fn listed_headers_collect_back(entries: Seq<HeaderEntry>)
    requires
        are_proper_entries(entries),
    ensures
        collected(header_lines(entries)) == entries,
    decreases entries.len(),
{
    if entries.len() > 0 {
        let init = entries.drop_last();
        let last = entries.last();
        assert forall|i: int| 0 <= i < init.len() implies lower((#[trigger] init[i]).0)
            == init[i].0 && init[i].1.len() > 0 by {
            assert(init[i] == entries[i]);
        }
        assert forall|i: int, j: int| 0 <= i < j < init.len() implies (#[trigger] init[i]).0 != (
        #[trigger] init[j]).0 by {
            assert(init[i] == entries[i] && init[j] == entries[j]);
        }
        listed_headers_collect_back(init);
        assert forall|i: int| 0 <= i < init.len() implies (#[trigger] init[i]).0 != last.0 by {
            assert(init[i] == entries[i] && last == entries[entries.len() - 1]);
        }
        lemma_collected_entry(header_lines(init), last, last.1.len() as int);
        assert(entry_lines(last).take(last.1.len() as int) =~= entry_lines(last));
        assert(last.1.take(last.1.len() as int) =~= last.1);
        assert(init.push(last) =~= entries);
    }
}

proof fn lemma_lower_twice(text: Seq<char>)
    ensures
        lower(lower(text)) == lower(text),
{
    assert forall|c: char| lower_char(#[trigger] lower_char(c)) == lower_char(c) by {}
    assert(lower(lower(text)) =~= lower(text));
}

/// What comes in header by header is held as a header map holds it.
pub proof fn collected_is_proper(lines: Seq<HeaderLine>)
    ensures
        are_proper_entries(collected(lines)),
    decreases lines.len(),
{
    if lines.len() > 0 {
        let before = collected(lines.drop_last());
        let name = lines.last().0;
        collected_is_proper(lines.drop_last());
        lemma_lower_twice(name);
        name_stands_at_position(before, lower(name));
        let after = collected(lines);
        let k = position(before, lower(name));
        assert forall|i: int, j: int| 0 <= i < j < after.len() implies (#[trigger] after[i]).0 != (
        #[trigger] after[j]).0 by {
            if k < before.len() {
                assert(after[i].0 == before[i].0 && after[j].0 == before[j].0);
            } else {
                assert(after[i] == before[i]);
                if j < before.len() {
                    assert(after[j] == before[j]);
                }
            }
        }
    }
}

/// Inserting a header leaves the entries as a header map holds them.
pub proof fn inserted_is_proper(entries: Seq<HeaderEntry>, name: Seq<char>, value: Seq<u8>)
    requires
        are_proper_entries(entries),
    ensures
        are_proper_entries(with_inserted(entries, name, value)),
{
    lemma_lower_twice(name);
    name_stands_at_position(entries, lower(name));
    let after = with_inserted(entries, name, value);
    let k = position(entries, lower(name));
    assert forall|i: int, j: int| 0 <= i < j < after.len() implies (#[trigger] after[i]).0 != (
    #[trigger] after[j]).0 by {
        if k < entries.len() {
            assert(after[i].0 == entries[i].0 && after[j].0 == entries[j].0);
        } else {
            assert(after[i] == entries[i]);
            if j < entries.len() {
                assert(after[j] == entries[j]);
            }
        }
    }
}

/// Every value of every name gets a line.
pub proof fn value_has_line(entries: Seq<HeaderEntry>, i: int, j: int) -> (k: int)
    requires
        0 <= i < entries.len(),
        0 <= j < entries[i].1.len(),
    ensures
        0 <= k < header_lines(entries).len(),
        header_lines(entries)[k] == (entries[i].0, entries[i].1[j]),
    decreases entries.len(),
{
    let before = header_lines(entries.drop_last());
    if i < entries.len() - 1 {
        assert(entries.drop_last()[i] == entries[i]);
        value_has_line(entries.drop_last(), i, j)
    } else {
        assert(entry_lines(entries.last())[j] == (entries[i].0, entries[i].1[j]));
        before.len() + j
    }
}

/// Every line stands for a value of some name.
pub proof fn line_has_value(entries: Seq<HeaderEntry>, k: int) -> (place: (int, int))
    requires
        0 <= k < header_lines(entries).len(),
    ensures
        0 <= place.0 < entries.len(),
        0 <= place.1 < entries[place.0].1.len(),
        header_lines(entries)[k] == (entries[place.0].0, entries[place.0].1[place.1]),
    decreases entries.len(),
{
    let before = header_lines(entries.drop_last());
    if k < before.len() {
        let place = line_has_value(entries.drop_last(), k);
        assert(entries.drop_last()[place.0] == entries[place.0]);
        place
    } else {
        assert(header_lines(entries)[k] == entry_lines(entries.last())[k - before.len()]);
        (entries.len() - 1, k - before.len())
    }
}

/// After inserting a header, its line is there, and every other line was there before.
pub proof fn inserted_lines(entries: Seq<HeaderEntry>, name: Seq<char>, value: Seq<u8>)
    ensures
        header_lines(with_inserted(entries, name, value)).contains((lower(name), value)),
        forall|k: int|
            0 <= k < header_lines(with_inserted(entries, name, value)).len() ==> (
            #[trigger] header_lines(with_inserted(entries, name, value))[k]) == (lower(name), value)
                || header_lines(entries).contains(
                header_lines(with_inserted(entries, name, value))[k],
            ),
{
    name_stands_at_position(entries, lower(name));
    let after = with_inserted(entries, name, value);
    let p = position(entries, lower(name));
    let at = value_has_line(after, p, 0);
    assert(header_lines(after)[at] == (lower(name), value));
    assert forall|k: int| 0 <= k < header_lines(after).len() implies (
    #[trigger] header_lines(after)[k]) == (lower(name), value) || header_lines(entries).contains(
        header_lines(after)[k],
    ) by {
        let place = line_has_value(after, k);
        if place.0 != p {
            assert(after[place.0] == entries[place.0]);
            let old_k = value_has_line(entries, place.0, place.1);
            assert(header_lines(entries)[old_k] == header_lines(after)[k]);
        }
    }
}

proof fn lemma_updated_len(entries: Seq<HeaderEntry>, i: int, entry: HeaderEntry)
    requires
        0 <= i < entries.len(),
    ensures
        header_lines(entries.update(i, entry)).len() == header_lines(entries).len()
            - entries[i].1.len() + entry.1.len(),
    decreases entries.len(),
{
    let after = entries.update(i, entry);
    if i < entries.len() - 1 {
        lemma_updated_len(entries.drop_last(), i, entry);
        assert(after.drop_last() =~= entries.drop_last().update(i, entry));
    } else {
        assert(after.drop_last() =~= entries.drop_last());
    }
}

proof fn lemma_appended_lines(entries: Seq<HeaderEntry>, name: Seq<char>, value: Seq<u8>)
    ensures
        header_lines(with_appended(entries, name, value)).len() == header_lines(entries).len() + 1,
        forall|k: int|
            0 <= k < header_lines(with_appended(entries, name, value)).len() ==> (
            #[trigger] header_lines(with_appended(entries, name, value))[k]) == (lower(name), value)
                || header_lines(entries).contains(
                header_lines(with_appended(entries, name, value))[k],
            ),
{
    name_stands_at_position(entries, lower(name));
    let after = with_appended(entries, name, value);
    let p = position(entries, lower(name));
    if p < entries.len() {
        lemma_updated_len(entries, p, after[p]);
    } else {
        assert(after.drop_last() =~= entries);
    }
    assert forall|k: int| 0 <= k < header_lines(after).len() implies (
    #[trigger] header_lines(after)[k]) == (lower(name), value) || header_lines(entries).contains(
        header_lines(after)[k],
    ) by {
        let place = line_has_value(after, k);
        if place.0 != p || (p < entries.len() && place.1 < entries[p].1.len()) {
            assert(after[place.0].0 == entries[place.0].0);
            assert(after[place.0].1[place.1] == entries[place.0].1[place.1]);
            let old_k = value_has_line(entries, place.0, place.1);
            assert(header_lines(entries)[old_k] == header_lines(after)[k]);
        }
    }
}

/// Headers that come in one by one and are listed again are as many as they were, and as plain.
pub proof fn collected_headers_list_again(lines: Seq<HeaderLine>)
    requires
        are_plain_lines(lines),
        are_accepted_lines(lines),
    ensures
        header_lines(collected(lines)).len() == lines.len(),
        are_plain_lines(header_lines(collected(lines))),
        are_accepted_lines(header_lines(collected(lines))),
    decreases lines.len(),
{
    if lines.len() > 0 {
        let init = lines.drop_last();
        let last = lines.last();
        assert forall|i: int| 0 <= i < init.len() implies #[trigger] init[i] == lines[i] by {}
        assert(last == lines[lines.len() - 1]);
        collected_headers_list_again(init);
        lemma_appended_lines(collected(init), last.0, last.1);
        lower_name_is_a_name(last.0);
        let before = header_lines(collected(init));
        let after = header_lines(collected(lines));
        assert forall|k: int| 0 <= k < after.len() implies is_token((#[trigger] after[k]).0)
            && is_header_name(after[k].0) && is_header_value(after[k].1) && is_trimmed(
            after[k].1,
        ) by {
            if after[k] != (lower(last.0), last.1) {
                let j = before.index_of(after[k]);
                assert(before[j] == after[k]);
            }
        }
    }
}

/// The length of a body, as the Content-Length header has it: nothing, if there is no such header;
/// `None`, if the header holds no number or one that is too large for any body in memory.
pub open spec fn declared_length(entries: Seq<HeaderEntry>) -> Option<Option<usize>> {
    match header_value(entries, "content-length"@) {
        None => Some(None),
        Some(value) => match unsigned_value(value) {
            Some(n) => if n <= usize::MAX {
                Some(Some(n as usize))
            } else {
                None
            },
            None => None,
        },
    }
}

/// Reads the Content-Length header.
pub(crate) fn length_of(headers: &HeaderMap<HeaderValue>) -> (length: Option<Option<usize>>)
    ensures
        length == declared_length(header_entries(*headers)),
{
    match get_header(headers, "content-length") {
        None => Some(None),
        Some(value) => match parse_unsigned(value) {
            Some(n) => Some(Some(n)),
            None => None,
        },
    }
}

/// Writes values as a list.
pub(crate) fn write_list(values: &Vec<Vec<u8>>) -> (list: Vec<u8>)
    ensures
        list@ == list_of(value_views(values@)),
        are_header_values(value_views(values@)) ==> is_header_value(list@),
{
    let ghost views = value_views(values@);
    let mut list: Vec<u8> = Vec::new();
    let mut i: usize = 0;
    assert(list@ =~= list_of(views.take(0)));
    while i < values.len()
        invariant
            i <= values.len(),
            views == value_views(values@),
            list@ == list_of(views.take(i as int)),
            are_header_values(views) ==> is_header_value(list@),
        decreases values.len() - i,
    {
        let ghost before = list@;
        let value = &values[i];
        assert(views[i as int] == value@);
        assert(views.take(i + 1).drop_last() =~= views.take(i as int));
        if i > 0 {
            list.push(COMMA);
            list.push(SPACE);
        }
        push_bytes(&mut list, value.as_slice());
        i = i + 1;
        assert(list@ =~= list_of(views.take(i as int)));
    }
    assert(views.take(i as int) =~= views);
    list
}

/// Writes the head of a message.
pub(crate) fn write_head(first_line: &str, headers: &HeaderMap<HeaderValue>) -> (bytes: Vec<u8>)
    ensures
        bytes@ == head_bytes(first_line@, header_lines(header_entries(*headers))),
{
    let lines = list_headers(headers);
    let ghost views = line_views(lines@);
    let mut bytes: Vec<u8> = Vec::new();
    push_bytes(&mut bytes, first_line.as_bytes());
    bytes.push(CR);
    bytes.push(LF);
    let ghost before = bytes@;
    assert(before =~= encode_utf8(first_line@) + crlf());
    let mut i: usize = 0;
    assert(views.take(0) =~= Seq::<HeaderLine>::empty());
    while i < lines.len()
        invariant
            i <= lines.len(),
            views == line_views(lines@),
            bytes@ == before + lines_bytes(views.take(i as int)),
        decreases lines.len() - i,
    {
        let line = &lines[i];
        let ghost so_far = bytes@;
        assert(views[i as int] == (line.0@, line.1@));
        assert(views.take(i + 1).drop_last() =~= views.take(i as int));
        push_bytes(&mut bytes, line.0.as_str().as_bytes());
        bytes.push(COLON);
        bytes.push(SPACE);
        push_bytes(&mut bytes, line.1.as_slice());
        bytes.push(CR);
        bytes.push(LF);
        i = i + 1;
        assert(bytes@ =~= so_far + line_bytes((line.0@, line.1@)));
        assert(bytes@ =~= before + lines_bytes(views.take(i as int)));
    }
    assert(views.take(i as int) =~= views);
    bytes.push(CR);
    bytes.push(LF);
    assert(bytes@ =~= head_bytes(first_line@, views));
    bytes
}

/// Puts headers into a map, one after the other; `None` where the map does not take one of them.
pub fn collect_headers(lines: &Vec<(String, Vec<u8>)>) -> (headers: Option<HeaderMap<HeaderValue>>)
    requires
        lines@.len() <= HEADER_CAPACITY,
    ensures
        headers is Some <==> are_accepted_lines(line_views(lines@)),
        headers matches Some(map) ==> header_entries(map) == collected(line_views(lines@)),
{
    let ghost views = line_views(lines@);
    let mut headers = new_headers();
    let mut i: usize = 0;
    assert(views.take(0) =~= Seq::<HeaderLine>::empty());
    while i < lines.len()
        invariant
            i <= lines.len() <= HEADER_CAPACITY,
            views == line_views(lines@),
            header_entries(headers) == collected(views.take(i as int)),
            are_accepted_lines(views.take(i as int)),
        decreases lines.len() - i,
    {
        let line = &lines[i];
        let ghost next = views.take(i + 1);
        assert(views[i as int] == (line.0@, line.1@));
        assert(next.drop_last() =~= views.take(i as int));
        if !is_accepted_name(line.0.as_str()) || !is_accepted_value(line.1.as_slice()) {
            return None;
        }
        proof {
            collected_is_no_longer(views.take(i as int));
        }
        append_header(&mut headers, line.0.as_str(), line.1.as_slice());
        i = i + 1;
        assert forall|j: int| 0 <= j < next.len() implies is_header_name((#[trigger] next[j]).0)
            && is_header_value(next[j].1) by {
            if j < i - 1 {
                assert(next[j] == views.take(i - 1)[j]);
            }
        }
    }
    assert(views.take(i as int) =~= views);
    Some(headers)
}

proof fn lemma_appended_values(
    entries: Seq<HeaderEntry>,
    appended: Seq<char>,
    value: Seq<u8>,
    name: Seq<char>,
)
    ensures
        header_values(with_appended(entries, appended, value), name) == if lower(appended) == lower(
            name,
        ) {
            header_values(entries, name).push(value)
        } else {
            header_values(entries, name)
        },
{
    let p = position(entries, lower(appended));
    let k = position(entries, lower(name));
    name_stands_at_position(entries, lower(appended));
    name_stands_at_position(entries, lower(name));
    let after = with_appended(entries, appended, value);
    if lower(appended) == lower(name) {
        assert forall|j: int| 0 <= j < p implies (#[trigger] after[j]).0 != lower(name) by {
            assert(after[j] == entries[j]);
        }
        lemma_position_is(after, lower(name), p);
        assert(header_values(after, name) =~= header_values(entries, name).push(value));
    } else if k < entries.len() {
        assert forall|j: int| 0 <= j < k implies (#[trigger] after[j]).0 != lower(name) by {
            if j != p {
                assert(after[j] == entries[j]);
            }
        }
        lemma_position_is(after, lower(name), k);
    } else {
        assert forall|j: int| 0 <= j < after.len() implies (#[trigger] after[j]).0 != lower(
            name,
        ) by {
            if j < entries.len() && j != p {
                assert(after[j] == entries[j]);
            }
        }
        lemma_position_is(after, lower(name), after.len() as int);
    }
}

/// Headers that come in one by one keep their values: under a name stand, byte for byte and in their
/// order, the values of exactly those lines that have this name, in letters of either case.
pub proof fn collected_headers_keep_their_values(lines: Seq<HeaderLine>, name: Seq<char>)
    ensures
        header_values(collected(lines), name) == lines.filter(
            |line: HeaderLine| lower(line.0) == lower(name),
        ).map_values(|line: HeaderLine| line.1),
    decreases lines.len(),
{
    reveal(Seq::filter);
    let named = |line: HeaderLine| lower(line.0) == lower(name);
    let value = |line: HeaderLine| line.1;
    if lines.len() > 0 {
        let init = lines.drop_last();
        let last = lines.last();
        collected_headers_keep_their_values(init, name);
        lemma_appended_values(collected(init), last.0, last.1, name);
        assert(init.filter(named).push(last).map_values(value) =~= init.filter(named).map_values(
            value,
        ).push(last.1));
    }
}

/// The names in a header map stand in the order in which they first came in, in small letters.
pub proof fn collected_names_stand_in_order(lines: Seq<HeaderLine>, line: HeaderLine)
    ensures
        collected(Seq::empty()).len() == 0,
        ({
            let before = collected(lines).map_values(|entry: HeaderEntry| entry.0);
            let after = collected(lines.push(line)).map_values(|entry: HeaderEntry| entry.0);
            after == if before.contains(lower(line.0)) {
                before
            } else {
                before.push(lower(line.0))
            }
        }),
{
    let entries = collected(lines);
    let p = position(entries, lower(line.0));
    name_stands_at_position(entries, lower(line.0));
    assert(lines.push(line).drop_last() =~= lines);
    let before = entries.map_values(|entry: HeaderEntry| entry.0);
    let after = collected(lines.push(line)).map_values(|entry: HeaderEntry| entry.0);
    if p < entries.len() {
        assert(before[p] == lower(line.0));
        assert(after =~= before);
    } else {
        assert forall|i: int| 0 <= i < before.len() implies before[i] != lower(line.0) by {
            assert(entries[i].0 == before[i]);
        }
        assert(after =~= before.push(lower(line.0)));
    }
}

/// The values of a name are those of the entry of that name; there are none without such an entry,
/// and the first of them is the header's value.
pub proof fn values_are_those_of_the_entry(entries: Seq<HeaderEntry>, name: Seq<char>, i: int)
    requires
        0 <= i <= entries.len(),
        i < entries.len() ==> entries[i].0 == lower(name),
        forall|j: int| 0 <= j < i ==> (#[trigger] entries[j]).0 != lower(name),
    ensures
        i < entries.len() ==> header_values(entries, name) == entries[i].1 && header_value(
            entries,
            name,
        ) == Some(entries[i].1[0]),
        i == entries.len() ==> header_values(entries, name).len() == 0 && header_value(
            entries,
            name,
        ) is None,
{
    lemma_position_is(entries, lower(name), i);
}

/// A map is made of headers exactly if each of them has a name and a value that are valid.
pub proof fn headers_are_taken_one_by_one(lines: Seq<HeaderLine>, line: HeaderLine)
    ensures
        are_accepted_lines(Seq::empty()),
        are_accepted_lines(lines.push(line)) <==> are_accepted_lines(lines) && is_header_name(
            line.0,
        ) && is_header_value(line.1),
{
    let all = lines.push(line);
    if are_accepted_lines(all) {
        assert(all[lines.len() as int] == line);
        assert forall|i: int| 0 <= i < lines.len() implies is_header_name((#[trigger] lines[i]).0)
            && is_header_value(lines[i].1) by {
            assert(all[i] == lines[i]);
        }
    }
    if are_accepted_lines(lines) && is_header_name(line.0) && is_header_value(line.1) {
        assert forall|i: int| 0 <= i < all.len() implies is_header_name((#[trigger] all[i]).0)
            && is_header_value(all[i].1) by {
            if i < lines.len() {
                assert(all[i] == lines[i]);
            }
        }
    }
}

/// Each value of each name is listed once, name by name.
pub proof fn headers_are_listed_value_by_value(
    entries: Seq<HeaderEntry>,
    name: Seq<char>,
    values: Seq<Seq<u8>>,
    value: Seq<u8>,
)
    ensures
        header_lines(Seq::empty()).len() == 0,
        header_lines(entries.push((name, Seq::empty()))) == header_lines(entries),
        header_lines(entries.push((name, values.push(value)))) == header_lines(
            entries.push((name, values)),
        ).push((name, value)),
{
    let without = entries.push((name, Seq::<Seq<u8>>::empty()));
    let before = entries.push((name, values));
    let after = entries.push((name, values.push(value)));
    assert(without.drop_last() =~= entries);
    assert(before.drop_last() =~= entries);
    assert(after.drop_last() =~= entries);
    assert(header_lines(without) =~= header_lines(entries));
    assert(header_lines(after) =~= header_lines(before).push((name, value)));
}

/// A list grows at its end, with a comma and a space before what is added.
pub proof fn list_grows_at_its_end(values: Seq<Seq<u8>>, value: Seq<u8>)
    ensures
        list_of(values.push(value)) == if values.len() == 0 {
            value
        } else {
            list_of(values) + seq![44u8, 32] + value
        },
{
    assert(values.push(value).drop_last() =~= values);
}

/// The length that a message declares: none, without a Content-Length header; else the number that
/// the first such header holds in decimal notation. A header that holds anything else, or a number
/// that is too large for any body in memory, declares nothing valid.
pub proof fn declared_length_is_the_number(entries: Seq<HeaderEntry>, n: nat, i: int)
    ensures
        header_value(entries, "content-length"@) is None ==> declared_length(entries) == Some(
            None::<usize>,
        ),
        header_value(entries, "content-length"@) == Some(decimal_bytes(n)) ==> declared_length(
            entries,
        ) == if n <= usize::MAX {
            Some(Some(n as usize))
        } else {
            None
        },
        header_value(entries, "content-length"@) matches Some(value) ==> declared_length(entries)
            != Some(None::<usize>) && (value.len() == 0 || (0 <= i < value.len() && !(0x30
            <= value[i] <= 0x39) && (i > 0 || value[i] != 0x2b)) ==> declared_length(
            entries,
        ) is None) && (unsigned_value(value) == Some(n) && n <= usize::MAX ==> declared_length(
            entries,
        ) == Some(Some(n as usize))) && (unsigned_value(value) == Some(n) && n > usize::MAX
            ==> declared_length(entries) is None),
{
    decimal_reads_back(n);
    match header_value(entries, "content-length"@) {
        Some(value) => {
            only_digits_denote_numbers(value, 0x30);
        },
        None => {},
    }
}

/// Names, values and lines are shown as they are.
pub proof fn views_show_all(lines: Seq<(String, Vec<u8>)>, values: Seq<Vec<u8>>, i: int)
    ensures
        line_views(lines).len() == lines.len(),
        0 <= i < lines.len() ==> line_views(lines)[i].0 == lines[i].0@ && line_views(lines)[i].1
            == lines[i].1@,
        value_views(values).len() == values.len(),
        0 <= i < values.len() ==> value_views(values)[i] == values[i]@,
{
}

} // verus!
