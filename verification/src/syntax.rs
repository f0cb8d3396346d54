//! The characters of which messages are made, and how a head is laid out on the wire.
use vstd::prelude::*;
use vstd::utf8::encode_utf8;

verus! {

/// The byte of a horizontal tab.
pub const TAB: u8 = 0x09;

/// The byte of a line feed.
pub const LF: u8 = 0x0a;

/// The byte of a carriage return.
pub const CR: u8 = 0x0d;

/// The byte of a space.
pub const SPACE: u8 = 0x20;

/// The byte of a comma.
pub const COMMA: u8 = 0x2c;

/// The byte of a colon.
pub const COLON: u8 = 0x3a;

/// The byte of the delete character.
pub const DELETE: u8 = 0x7f;

/// A header as it stands on the wire: its name and its value.
pub type HeaderLine = (Seq<char>, Seq<u8>);

pub open spec fn is_alphanumeric(c: char) -> bool {
    'a' <= c <= 'z' || 'A' <= c <= 'Z' || '0' <= c <= '9'
}

/// The characters of a method.
pub open spec fn is_method_char(c: char) -> bool {
    is_alphanumeric(c) || c == '!' || c == '*' || c == '+' || c == '-' || c == '.' || c == '^' || c
        == '_' || c == '`' || c == '|' || c == '~'
}

/// The characters of a token.
pub open spec fn is_token_char(c: char) -> bool {
    is_method_char(c) || c == '#' || c == '$' || c == '%' || c == '&' || c == '\''
}

/// The characters of a header's name in a header map.
pub open spec fn is_name_char(c: char) -> bool {
    is_token_char(c) || c == '"'
}

/// The bytes of a header's value.
pub open spec fn is_value_byte(b: u8) -> bool {
    b == TAB || (b >= SPACE && b != DELETE)
}

pub open spec fn is_blank(b: u8) -> bool {
    b == TAB || b == SPACE
}

/// A text that names a method.
pub open spec fn is_method(text: Seq<char>) -> bool {
    text.len() > 0 && forall|i: int| 0 <= i < text.len() ==> is_method_char(#[trigger] text[i])
}

pub open spec fn is_token(text: Seq<char>) -> bool {
    text.len() > 0 && forall|i: int| 0 <= i < text.len() ==> is_token_char(#[trigger] text[i])
}

/// A text that names a header, in letters of either case.
pub open spec fn is_header_name(text: Seq<char>) -> bool {
    0 < text.len() <= 65535 && forall|i: int|
        0 <= i < text.len() ==> is_name_char(#[trigger] text[i])
}

/// Bytes that are a header's value.
pub open spec fn is_header_value(bytes: Seq<u8>) -> bool {
    forall|i: int| 0 <= i < bytes.len() ==> is_value_byte(#[trigger] bytes[i])
}

/// A value that neither begins nor ends with a blank.
pub open spec fn is_trimmed(bytes: Seq<u8>) -> bool {
    bytes.len() > 0 ==> !is_blank(bytes[0]) && !is_blank(bytes.last())
}

/// A text of visible characters.
pub open spec fn is_visible(text: Seq<char>) -> bool {
    text.len() > 0 && forall|i: int| 0 <= i < text.len() ==> '!' <= #[trigger] text[i] <= '~'
}

/// A text of visible characters and spaces, perhaps empty.
pub open spec fn is_printable(text: Seq<char>) -> bool {
    forall|i: int| 0 <= i < text.len() ==> ' ' <= #[trigger] text[i] <= '~'
}

/// The characters of a path that stand for themselves.
pub open spec fn is_path_char(c: char) -> bool {
    c == '!' || c == '"' || '$' <= c <= ';' || c == '=' || '@' <= c <= '_' || 'a' <= c <= '~'
}

/// The characters of a query that stand for themselves.
pub open spec fn is_query_char(c: char) -> bool {
    c == '!' || '$' <= c <= ';' || c == '=' || '?' <= c <= '~'
}

/// Whether a place in a target lies behind the question mark with which its query begins.
pub open spec fn is_in_query(text: Seq<char>, i: int) -> bool {
    exists|j: int| 0 <= j < i && #[trigger] text[j] == '?'
}

/// A path, with or without a query, of characters that stand for themselves.
pub open spec fn is_plain_target(text: Seq<char>) -> bool {
    &&& 0 < text.len() <= 65534
    &&& text[0] == '/'
    &&& forall|i: int|
        0 <= i < text.len() ==> if is_in_query(text, i) {
            is_query_char(#[trigger] text[i])
        } else {
            text[i] == '?' || is_path_char(text[i])
        }
}

/// Headers that a sender may write and that a reader gets back as they are.
pub open spec fn are_plain_lines(lines: Seq<HeaderLine>) -> bool {
    forall|i: int|
        0 <= i < lines.len() ==> is_token((#[trigger] lines[i]).0) && is_header_value(lines[i].1)
            && is_trimmed(lines[i].1)
}

pub open spec fn lower_char(c: char) -> char {
    if 'A' <= c <= 'Z' {
        (c as u32 + 32) as char
    } else {
        c
    }
}

/// A text in small letters.
pub open spec fn lower(text: Seq<char>) -> Seq<char> {
    text.map_values(|c: char| lower_char(c))
}

/// The end of a line.
pub open spec fn crlf() -> Seq<u8> {
    seq![CR, LF]
}

/// A header on the wire.
pub open spec fn line_bytes(line: HeaderLine) -> Seq<u8> {
    encode_utf8(line.0) + seq![COLON, SPACE] + line.1 + crlf()
}

/// Headers on the wire, one after the other.
pub open spec fn lines_bytes(lines: Seq<HeaderLine>) -> Seq<u8>
    decreases lines.len(),
{
    if lines.len() == 0 {
        Seq::empty()
    } else {
        lines_bytes(lines.drop_last()) + line_bytes(lines.last())
    }
}

/// The head of a message on the wire: the first line, the headers, an empty line.
pub open spec fn head_bytes(first_line: Seq<char>, lines: Seq<HeaderLine>) -> Seq<u8> {
    encode_utf8(first_line) + crlf() + lines_bytes(lines) + crlf()
}

/// Texts with a space between them.
pub open spec fn spaced(first: Seq<char>, second: Seq<char>, third: Seq<char>) -> Seq<char> {
    first.push(' ') + second.push(' ') + third
}

/// A message on the wire begins with its first line.
pub proof fn head_begins_with_first_line(first_line: Seq<char>, lines: Seq<HeaderLine>)
    ensures
        (encode_utf8(first_line) + crlf()).is_prefix_of(head_bytes(first_line, lines)),
{
}

proof fn lemma_lines_bytes_contain(lines: Seq<HeaderLine>, i: int)
    requires
        0 <= i < lines.len(),
    ensures
        lines_bytes(lines.take(i)) + line_bytes(lines[i]) == lines_bytes(lines.take(i + 1)),
        lines_bytes(lines.take(i + 1)).is_prefix_of(lines_bytes(lines)),
    decreases lines.len(),
{
    let next = lines.take(i + 1);
    assert(next.drop_last() =~= lines.take(i));
    if i + 1 < lines.len() {
        let init = lines.drop_last();
        lemma_lines_bytes_contain(init, i);
        assert(init.take(i + 1) =~= next);
    } else {
        assert(next =~= lines);
    }
}

/// Every header of a head stands on the wire as a line of its own, after the headers before it.
pub proof fn head_contains_line(first_line: Seq<char>, lines: Seq<HeaderLine>, i: int)
    requires
        0 <= i < lines.len(),
    ensures
        (encode_utf8(first_line) + crlf() + lines_bytes(lines.take(i)) + line_bytes(
            lines[i],
        )).is_prefix_of(head_bytes(first_line, lines)),
{
    lemma_lines_bytes_contain(lines, i);
    let before = encode_utf8(first_line) + crlf();
    assert(before + lines_bytes(lines.take(i)) + line_bytes(lines[i]) =~= before + lines_bytes(
        lines.take(i + 1),
    ));
}

/// The name of a header stays one in small letters.
pub proof fn lower_name_is_a_name(name: Seq<char>)
    ensures
        is_token(name) ==> is_token(lower(name)),
        is_header_name(name) ==> is_header_name(lower(name)),
{
    assert(is_token(name) ==> is_token(lower(name))) by {
        if is_token(name) {
            assert forall|i: int| 0 <= i < name.len() implies is_token_char(
                #[trigger] lower(name)[i],
            ) by {
                assert(is_token_char(name[i]));
            }
        }
    }
    assert(is_header_name(name) ==> is_header_name(lower(name))) by {
        if is_header_name(name) {
            assert forall|i: int| 0 <= i < name.len() implies is_name_char(
                #[trigger] lower(name)[i],
            ) by {
                assert(is_name_char(name[i]));
            }
        }
    }
}

/// A text in small letters is the text, letter by letter: a capital has become small, all else is as
/// it was.
pub proof fn lower_changes_capitals_only(text: Seq<char>, i: int)
    requires
        0 <= i < text.len(),
    ensures
        lower(text).len() == text.len(),
        'A' <= text[i] <= 'Z' ==> lower(text)[i] as u32 == text[i] as u32 + 32,
        !('A' <= text[i] <= 'Z') ==> lower(text)[i] == text[i],
{
}

/// A head without headers is its first line and an empty line. One more header is one more line: its
/// name, a colon, a space and its value, before the empty line.
pub proof fn head_grows_by_a_line(
    first_line: Seq<char>,
    lines: Seq<HeaderLine>,
    name: Seq<char>,
    value: Seq<u8>,
)
    ensures
        head_bytes(first_line, Seq::empty()) == encode_utf8(first_line) + seq![13u8, 10, 13, 10],
        head_bytes(first_line, lines.push((name, value))) == head_bytes(
            first_line,
            lines,
        ).drop_last().drop_last() + encode_utf8(name) + seq![58u8, 32] + value + seq![
            13u8,
            10,
            13,
            10,
        ],
{
    assert(head_bytes(first_line, Seq::empty()) =~= encode_utf8(first_line) + seq![
        13u8,
        10,
        13,
        10,
    ]);
    assert(lines.push((name, value)).drop_last() =~= lines);
    let head = head_bytes(first_line, lines);
    assert(head.drop_last().drop_last() =~= encode_utf8(first_line) + crlf() + lines_bytes(lines));
    assert(head_bytes(first_line, lines.push((name, value))) =~= head.drop_last().drop_last()
        + encode_utf8(name) + seq![58u8, 32] + value + seq![13u8, 10, 13, 10]);
}

} // verus!
