//! Requests to `/v1/responses`.

use crate::text;
use crate::text::{same_ignoring_case, split, trim};
use vstd::prelude::*;

verus! {

/// The headers of a request.
#[verifier::external_type_specification]
#[verifier::external_body]
#[verifier::reject_recursive_types(V)]
pub struct ExternalHeaderMap<V>(http::HeaderMap<V>);

/// The value of a header.
#[verifier::external_type_specification]
#[verifier::external_body]
pub struct ExternalHeaderValue(http::HeaderValue);

/// The error for a header value that is not visible ASCII.
#[verifier::external_type_specification]
#[verifier::external_body]
pub struct ExternalToStrError(http::header::ToStrError);

/// The values of each header, in order, by its name in lower case.
pub uninterp spec fn header_fields(headers: http::HeaderMap<http::HeaderValue>) -> Map<
    Seq<char>,
    Seq<Seq<u8>>,
>;

/// The bytes of a header value.
pub uninterp spec fn header_bytes(header: http::HeaderValue) -> Seq<u8>;

/// `http::HeaderMap::get` with the name of the `Accept` header gives its first
/// value, and nothing if the header is missing.
#[verifier::external_body]
fn accept_header(headers: &http::HeaderMap) -> (r: Option<&http::HeaderValue>)
    ensures
        match r {
            Some(found) => {
                &&& header_fields(*headers).contains_key("accept"@)
                &&& header_fields(*headers)["accept"@].len() > 0
                &&& header_bytes(*found) == header_fields(*headers)["accept"@][0]
            },
            None => !header_fields(*headers).contains_key("accept"@),
        },
{
    headers.get(http::header::ACCEPT)
}

/// Whether a byte is a visible ASCII character, a space or a tab.
pub open spec fn is_visible(byte: u8) -> bool {
    32 <= byte < 127 || byte == 9
}

/// The characters of ASCII bytes.
pub open spec fn ascii_text(bytes: Seq<u8>) -> Seq<char> {
    Seq::new(bytes.len(), |i: int| bytes[i] as char)
}

/// `http::HeaderValue::to_str` gives the characters of a value whose bytes are
/// all visible ASCII, spaces or tabs, and an error for any other.
pub assume_specification[ http::HeaderValue::to_str ](header: &http::HeaderValue) -> (r: Result<
    &str,
    http::header::ToStrError,
>)
    ensures
        match r {
            Ok(found) => {
                &&& forall|i: int|
                    0 <= i < header_bytes(*header).len() ==> is_visible(
                        #[trigger] header_bytes(*header)[i],
                    )
                &&& found@ == ascii_text(header_bytes(*header))
            },
            Err(_) => exists|i: int|
                0 <= i < header_bytes(*header).len() && !is_visible(
                    #[trigger] header_bytes(*header)[i],
                ),
        },
;

/// The media type of an entry of an `Accept` header, without its parameters.
pub open spec fn media_type(entry: Seq<char>) -> Seq<char> {
    text::trimmed(text::split_on(entry, ';')[0])
}

/// Whether the media type of an entry is `text/event-stream`, in any case of
/// its letters.
pub open spec fn is_event_stream(entry: Seq<char>) -> bool {
    text::equal_ignoring_case(media_type(entry), "text/event-stream"@)
}

/// Whether some entry of an `Accept` header is `text/event-stream`.
pub open spec fn lists_event_stream(accept: Seq<char>) -> bool {
    exists|i: int|
        0 <= i < text::split_on(accept, ',').len() && is_event_stream(
            #[trigger] text::split_on(accept, ',')[i],
        )
}

/// Whether some entry of an `Accept` header is `text/event-stream`.
pub fn accept_lists_event_stream(accept: &str) -> (r: bool)
    ensures
        r == lists_event_stream(accept@),
{
    let entries: Vec<String> = split(accept, ',');
    let ghost expected = text::split_on(accept@, ',');
    let mut i: usize = 0;
    while i < entries.len()
        invariant
            i <= entries@.len(),
            text::texts(entries@) == expected,
            expected == text::split_on(accept@, ','),
            forall|j: int| 0 <= j < i ==> !is_event_stream(#[trigger] expected[j]),
        decreases entries@.len() - i,
    {
        let parts: Vec<String> = split(entries[i].as_str(), ';');
        let name: String = trim(parts[0].as_str());
        proof {
            assert(entries@[i as int]@ == expected[i as int]);
            assert(parts@[0]@ == text::texts(parts@)[0]);
        }
        if same_ignoring_case(name.as_str(), "text/event-stream") {
            return true;
        }
        i = i + 1;
    }
    false
}

/// Whether a request with these header values asks for an event stream: its
/// first `Accept` header is visible ASCII and lists `text/event-stream`.
pub open spec fn asks_for_events(fields: Map<Seq<char>, Seq<Seq<u8>>>) -> bool {
    &&& fields.contains_key("accept"@)
    &&& forall|i: int|
        0 <= i < fields["accept"@][0].len() ==> is_visible(#[trigger] fields["accept"@][0][i])
    &&& lists_event_stream(ascii_text(fields["accept"@][0]))
}

/// Whether the request asks for an event stream.
pub fn accepts_sse(headers: &http::HeaderMap) -> (r: bool)
    ensures
        r == asks_for_events(header_fields(*headers)),
{
    match accept_header(headers) {
        Some(header) => match header.to_str() {
            Ok(accept) => accept_lists_event_stream(accept),
            Err(_) => false,
        },
        None => false,
    }
}

/// The status and the body of the answer to a request that could not be put
/// together again.
pub fn failure_answer() -> (r: (u16, &'static str))
    ensures
        r.0 == 500,
        r.1@ == "internal handler error"@,
{
    (500, "internal handler error")
}

/// Whether a character is an ASCII letter.
spec fn is_letter(c: char) -> bool {
    'A' <= c <= 'Z' || 'a' <= c <= 'z'
}

proof fn lemma_letters_stay_letters(a: char, b: char)
    requires
        text::ascii_lower(a) == text::ascii_lower(b),
    ensures
        a == b || (is_letter(a) && is_letter(b)),
        text::is_white_space(a) == text::is_white_space(b),
{
}

proof fn lemma_same_prefix(a: Seq<char>, b: Seq<char>, stop: char)
    requires
        text::equal_ignoring_case(a, b),
        !is_letter(stop),
    ensures
        text::prefix_len(a, stop) == text::prefix_len(b, stop),
    decreases a.len(),
{
    if a.len() > 0 {
        lemma_letters_stay_letters(a[0], b[0]);
        assert(text::equal_ignoring_case(a.drop_first(), b.drop_first())) by {
            assert forall|i: int| 0 <= i < a.len() - 1 implies text::ascii_lower(
                #[trigger] a.drop_first()[i],
            ) == text::ascii_lower(b.drop_first()[i]) by {
                assert(text::ascii_lower(a[i + 1]) == text::ascii_lower(b[i + 1]));
            }
        }
        lemma_same_prefix(a.drop_first(), b.drop_first(), stop);
    }
}

proof fn lemma_equal_parts(a: Seq<char>, b: Seq<char>, from: int, to: int)
    requires
        text::equal_ignoring_case(a, b),
        0 <= from <= to <= a.len(),
    ensures
        text::equal_ignoring_case(a.subrange(from, to), b.subrange(from, to)),
{
    assert forall|i: int| 0 <= i < to - from implies text::ascii_lower(
        #[trigger] a.subrange(from, to)[i],
    ) == text::ascii_lower(b.subrange(from, to)[i]) by {
        assert(text::ascii_lower(a[from + i]) == text::ascii_lower(b[from + i]));
    }
}

proof fn lemma_same_split(a: Seq<char>, b: Seq<char>, separator: char)
    requires
        text::equal_ignoring_case(a, b),
        !is_letter(separator),
    ensures
        text::split_on(a, separator).len() == text::split_on(b, separator).len(),
        forall|i: int|
            0 <= i < text::split_on(a, separator).len()
                ==> text::equal_ignoring_case(
                #[trigger] text::split_on(a, separator)[i],
                text::split_on(b, separator)[i],
            ),
    decreases a.len(),
{
    lemma_same_prefix(a, b, separator);
    let end = text::prefix_len(a, separator) as int;
    if end < a.len() {
        lemma_equal_parts(a, b, 0, end);
        lemma_equal_parts(a, b, end + 1, a.len() as int);
        assert(a.take(end) == a.subrange(0, end));
        assert(b.take(end) == b.subrange(0, end));
        assert(a.skip(end + 1) == a.subrange(end + 1, a.len() as int));
        assert(b.skip(end + 1) == b.subrange(end + 1, b.len() as int));
        lemma_same_split(a.skip(end + 1), b.skip(end + 1), separator);
        let rest_a = text::split_on(a.skip(end + 1), separator);
        let rest_b = text::split_on(b.skip(end + 1), separator);
        assert forall|i: int|
            0 <= i < text::split_on(a, separator).len() implies
            text::equal_ignoring_case(
            #[trigger] text::split_on(a, separator)[i],
            text::split_on(b, separator)[i],
        ) by {
            if i > 0 {
                assert(text::split_on(a, separator)[i] == rest_a[i - 1]);
                assert(text::split_on(b, separator)[i] == rest_b[i - 1]);
            }
        }
    }
}

proof fn lemma_same_trim(a: Seq<char>, b: Seq<char>)
    requires
        text::equal_ignoring_case(a, b),
    ensures
        text::equal_ignoring_case(text::trimmed(a), text::trimmed(b)),
    decreases a.len(),
{
    if a.len() > 0 {
        let last = a.len() - 1;
        assert(text::ascii_lower(a[0]) == text::ascii_lower(b[0]));
        assert(text::ascii_lower(a[last]) == text::ascii_lower(b[last]));
        lemma_letters_stay_letters(a[0], b[0]);
        lemma_letters_stay_letters(a[last], b[last]);
        if text::is_white_space(a[0]) {
            lemma_equal_parts(a, b, 1, a.len() as int);
            assert(a.drop_first() == a.subrange(1, a.len() as int));
            assert(b.drop_first() == b.subrange(1, b.len() as int));
            lemma_same_trim(a.drop_first(), b.drop_first());
        } else if text::is_white_space(a[last]) {
            lemma_equal_parts(a, b, 0, last);
            assert(a.drop_last() == a.subrange(0, last));
            assert(b.drop_last() == b.subrange(0, last));
            lemma_same_trim(a.drop_last(), b.drop_last());
        }
    }
}

/// Whether an `Accept` header lists `text/event-stream` does not depend on the
/// case of its letters.
pub proof fn law_case_of_letters_does_not_matter(a: Seq<char>, b: Seq<char>)
    requires
        text::equal_ignoring_case(a, b),
    ensures
        lists_event_stream(a) == lists_event_stream(b),
{
    lemma_same_split(a, b, ',');
    let list_a = text::split_on(a, ',');
    let list_b = text::split_on(b, ',');
    assert forall|i: int| 0 <= i < list_a.len() implies is_event_stream(#[trigger] list_a[i])
        == is_event_stream(list_b[i]) by {
        lemma_same_split(list_a[i], list_b[i], ';');
        let first_a = text::split_on(list_a[i], ';')[0];
        let first_b = text::split_on(list_b[i], ';')[0];
        lemma_same_trim(first_a, first_b);
        let name_a = text::trimmed(first_a);
        let name_b = text::trimmed(first_b);
        let wanted = "text/event-stream"@;
        assert(forall|k: int|
            0 <= k < name_a.len() ==> text::ascii_lower(#[trigger] name_a[k])
                == text::ascii_lower(name_b[k]));
        if is_event_stream(list_a[i]) {
            assert forall|k: int| 0 <= k < name_b.len() implies text::ascii_lower(
                #[trigger] name_b[k],
            ) == text::ascii_lower(wanted[k]) by {
                assert(text::ascii_lower(name_a[k]) == text::ascii_lower(wanted[k]));
            }
        }
        if is_event_stream(list_b[i]) {
            assert forall|k: int| 0 <= k < name_a.len() implies text::ascii_lower(
                #[trigger] name_a[k],
            ) == text::ascii_lower(wanted[k]) by {
                assert(text::ascii_lower(name_b[k]) == text::ascii_lower(wanted[k]));
            }
        }
    }
    if lists_event_stream(b) {
        let i = choose|i: int| 0 <= i < list_b.len() && is_event_stream(#[trigger] list_b[i]);
        assert(is_event_stream(list_a[i]));
    }
    if lists_event_stream(a) {
        let i = choose|i: int| 0 <= i < list_a.len() && is_event_stream(#[trigger] list_a[i]);
        assert(is_event_stream(list_b[i]));
    }
}

/// An `Accept` header that puts two others together, with a comma between them,
/// lists an event stream exactly if one of the two does.
pub proof fn law_any_entry_of_a_list_is_enough(a: Seq<char>, b: Seq<char>)
    ensures
        lists_event_stream(a + seq![','] + b) <==> lists_event_stream(a) || lists_event_stream(b),
{
    text::law_pieces_lie_between_separators(a, ',', b);
    let both = text::split_on(a + seq![','] + b, ',');
    let first = text::split_on(a, ',');
    let second = text::split_on(b, ',');
    assert(forall|i: int| 0 <= i < first.len() ==> #[trigger] both[i] == first[i]);
    assert(forall|i: int| 0 <= i < second.len() ==> both[first.len() + i] == #[trigger] second[i]);
    if lists_event_stream(a + seq![','] + b) {
        let i = choose|i: int| 0 <= i < both.len() && is_event_stream(#[trigger] both[i]);
        if i < first.len() {
            assert(is_event_stream(first[i]));
        } else {
            assert(second[i - first.len()] == both[i]);
            assert(is_event_stream(second[i - first.len()]));
        }
    }
    if lists_event_stream(a) {
        let i = choose|i: int| 0 <= i < first.len() && is_event_stream(#[trigger] first[i]);
        assert(is_event_stream(both[i]));
    }
    if lists_event_stream(b) {
        let i = choose|i: int| 0 <= i < second.len() && is_event_stream(#[trigger] second[i]);
        assert(is_event_stream(both[first.len() + i]));
    }
}

/// An entry with the media type `name`, with white space around it, and with or
/// without parameters behind a semicolon, asks for an event stream exactly if
/// the name is `text/event-stream`, but for the case of its letters.
pub proof fn law_an_entry_is_known_by_its_media_type(
    before: Seq<char>,
    name: Seq<char>,
    behind: Seq<char>,
    parameters: Seq<char>,
)
    requires
        forall|i: int| 0 <= i < before.len() ==> text::is_white_space(#[trigger] before[i]),
        forall|i: int| 0 <= i < behind.len() ==> text::is_white_space(#[trigger] behind[i]),
        name.len() > 0 ==> !text::is_white_space(name[0]) && !text::is_white_space(name.last()),
        forall|i: int| 0 <= i < name.len() ==> name[i] != ',' && name[i] != ';',
        forall|i: int| 0 <= i < parameters.len() ==> parameters[i] != ',',
    ensures
        ({
            let wanted = "text/event-stream"@;
            let is_wanted = name.len() == wanted.len() && forall|i: int|
                0 <= i < name.len() ==> {
                    ||| #[trigger] name[i] == wanted[i]
                    ||| 'A' <= name[i] <= 'Z' && wanted[i] as u32 == name[i] as u32 + 32
                    ||| 'A' <= wanted[i] <= 'Z' && name[i] as u32 == wanted[i] as u32 + 32
                };
            &&& lists_event_stream(before + name + behind) <==> is_wanted
            &&& lists_event_stream(before + name + behind + seq![';'] + parameters) <==> is_wanted
        }),
{
    let bare = before + name + behind;
    let full = bare + seq![';'] + parameters;
    assert forall|i: int| 0 <= i < bare.len() implies bare[i] != ',' && bare[i] != ';' by {
        if i < before.len() {
            assert(bare[i] == before[i]);
        } else if i < before.len() + name.len() {
            assert(bare[i] == name[i - before.len()]);
        } else {
            assert(bare[i] == behind[i - before.len() - name.len()]);
        }
    }
    assert forall|i: int| 0 <= i < full.len() implies full[i] != ',' by {
        if i < bare.len() {
            assert(full[i] == bare[i]);
        } else if i > bare.len() {
            assert(full[i] == parameters[i - bare.len() - 1]);
        }
    }
    text::law_pieces_lie_between_separators(bare, ',', Seq::empty());
    text::law_pieces_lie_between_separators(full, ',', Seq::empty());
    text::law_pieces_lie_between_separators(bare, ';', parameters);
    assert(text::split_on(full, ';')[0] == bare);
    text::law_trimming_takes_white_space_away(before, name, behind);
    text::law_case_is_that_of_ascii_letters(name, "text/event-stream"@);
    assert(text::split_on(bare, ',')[0] == bare);
    assert(text::split_on(full, ',')[0] == full);
    assert(is_event_stream(bare) == text::equal_ignoring_case(name, "text/event-stream"@));
    assert(is_event_stream(full) == text::equal_ignoring_case(name, "text/event-stream"@));
}

/// A request without an `Accept` header, or with a byte in its first one that
/// is not visible, asks for no event stream. With any other it asks for one
/// exactly if the text of that header does.
pub proof fn law_the_first_accept_header_decides(
    fields: Map<Seq<char>, Seq<Seq<u8>>>,
    accept: Seq<char>,
)
    ensures
        !fields.contains_key("accept"@) ==> !asks_for_events(fields),
        fields.contains_key("accept"@) ==> {
            let bytes = fields["accept"@][0];
            &&& (exists|i: int|
                0 <= i < bytes.len() && (bytes[i] >= 127 || (bytes[i] < 32 && #[trigger] bytes[i]
                    != 9))) ==> !asks_for_events(fields)
            &&& accept.len() == bytes.len() && (forall|i: int|
                0 <= i < bytes.len() ==> {
                    &&& bytes[i] < 127
                    &&& bytes[i] >= 32 || bytes[i] == 9
                    &&& #[trigger] accept[i] == bytes[i] as char
                }) ==> (asks_for_events(fields) <==> lists_event_stream(accept))
        },
{
    if fields.contains_key("accept"@) {
        let bytes = fields["accept"@][0];
        if accept.len() == bytes.len() && (forall|i: int|
            0 <= i < bytes.len() ==> {
                &&& bytes[i] < 127
                &&& bytes[i] >= 32 || bytes[i] == 9
                &&& #[trigger] accept[i] == bytes[i] as char
            }) {
            assert(ascii_text(bytes) =~= accept);
            assert forall|i: int| 0 <= i < bytes.len() implies is_visible(#[trigger] bytes[i]) by {
                assert(accept[i] == bytes[i] as char);
            }
        }
    }
}

} // verus!
