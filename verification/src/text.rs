//! Strings: lines, words, pieces and lengths.

use vstd::prelude::*;
use vstd::string::StringExecFns;

verus! {

/// `String::push` appends one character.
pub assume_specification[ String::push ](s: &mut String, c: char)
    ensures
        final(s)@ == old(s)@.push(c),
;

/// `char::is_whitespace` tells whether a character has the Unicode property
/// `White_Space`.
pub assume_specification[ char::is_whitespace ](c: char) -> (r: bool)
    ensures
        r == is_white_space(c),
;

/// A text in lower case.
pub uninterp spec fn lowercase(text: Seq<char>) -> Seq<char>;

/// `str::to_lowercase` puts a text in lower case, by the rules of Unicode, in a
/// way that depends on the text alone. In a text of ASCII characters it changes
/// the capital letters only.
pub assume_specification[ str::to_lowercase ](s: &str) -> (r: String)
    ensures
        r@ == lowercase(s@),
        (forall|i: int| 0 <= i < s@.len() ==> (#[trigger] s@[i] as u32) < 128) ==> r@ == Seq::new(
            s@.len(),
            |i: int| ascii_lower(s@[i]),
        ),
;

/// The characters with the Unicode property `White_Space`.
pub open spec fn is_white_space(c: char) -> bool {
    let code = c as u32;
    ||| 0x09 <= code <= 0x0D
    ||| code == 0x20
    ||| code == 0x85
    ||| code == 0xA0
    ||| code == 0x1680
    ||| 0x2000 <= code <= 0x200A
    ||| code == 0x2028
    ||| code == 0x2029
    ||| code == 0x202F
    ||| code == 0x205F
    ||| code == 0x3000
}

/// Whether a text consists of white space only.
pub open spec fn is_blank(text: Seq<char>) -> bool {
    forall|i: int| 0 <= i < text.len() ==> is_white_space(#[trigger] text[i])
}

/// The length of a text in bytes.
pub open spec fn byte_len(text: Seq<char>) -> nat {
    vstd::utf8::encode_utf8(text).len()
}

/// The contents of a list of strings.
pub open spec fn texts(list: Seq<String>) -> Seq<Seq<char>> {
    Seq::new(list.len(), |i: int| list[i]@)
}

/// How many characters come before the first `stop`, or before the end.
pub open spec fn prefix_len(text: Seq<char>, stop: char) -> nat
    decreases text.len(),
{
    if text.len() == 0 || text[0] == stop {
        0
    } else {
        1 + prefix_len(text.drop_first(), stop)
    }
}

/// A line without the carriage return that belongs to its line ending.
pub open spec fn without_carriage_return(line: Seq<char>) -> Seq<char> {
    if line.len() > 0 && line.last() == '\r' {
        line.drop_last()
    } else {
        line
    }
}

/// The lines of a text. A line ends in a line feed, or in a carriage return
/// and a line feed; the last line may lack its ending.
pub open spec fn lines_of(text: Seq<char>) -> Seq<Seq<char>>
    decreases text.len(),
{
    let end = prefix_len(text, '\n');
    if text.len() == 0 {
        Seq::empty()
    } else if end >= text.len() {
        seq![text]
    } else {
        seq![without_carriage_return(text.take(end as int))] + lines_of(text.skip(end as int + 1))
    }
}

/// The pieces of a text between the occurrences of `separator`.
pub open spec fn split_on(text: Seq<char>, separator: char) -> Seq<Seq<char>>
    decreases text.len(),
{
    let end = prefix_len(text, separator);
    if end >= text.len() {
        seq![text]
    } else {
        seq![text.take(end as int)] + split_on(text.skip(end as int + 1), separator)
    }
}

/// How many characters come before the first white space, or before the end.
pub open spec fn word_len(text: Seq<char>) -> nat
    decreases text.len(),
{
    if text.len() == 0 || is_white_space(text[0]) {
        0
    } else {
        1 + word_len(text.drop_first())
    }
}

/// The words of a text: its longest stretches without white space.
pub open spec fn words_of(text: Seq<char>) -> Seq<Seq<char>>
    decreases text.len(),
{
    if text.len() == 0 {
        Seq::empty()
    } else if is_white_space(text[0]) {
        words_of(text.drop_first())
    } else {
        let end = word_len(text);
        proof {
            lemma_word_len_bound(text);
        }
        seq![text.take(end as int)] + words_of(text.skip(end as int))
    }
}

/// A text without the white space at its two ends.
pub open spec fn trimmed(text: Seq<char>) -> Seq<char>
    decreases text.len(),
{
    if text.len() > 0 && is_white_space(text[0]) {
        trimmed(text.drop_first())
    } else if text.len() > 0 && is_white_space(text.last()) {
        trimmed(text.drop_last())
    } else {
        text
    }
}

/// The ASCII lower-case form of a character.
pub open spec fn ascii_lower(c: char) -> char {
    if 'A' <= c <= 'Z' {
        (c as u8 + 32) as char
    } else {
        c
    }
}

/// Whether two texts are equal but for the case of ASCII letters.
pub open spec fn equal_ignoring_case(a: Seq<char>, b: Seq<char>) -> bool {
    &&& a.len() == b.len()
    &&& forall|i: int| 0 <= i < a.len() ==> ascii_lower(#[trigger] a[i]) == ascii_lower(b[i])
}

/// Texts put together, with `separator` between each two.
pub open spec fn joined(list: Seq<Seq<char>>, separator: Seq<char>) -> Seq<char>
    decreases list.len(),
{
    if list.len() == 0 {
        Seq::empty()
    } else if list.len() == 1 {
        list[0]
    } else {
        joined(list.drop_last(), separator) + separator + list.last()
    }
}

/// The decimal digit of a number below ten.
pub open spec fn digit(n: nat) -> char {
    (48 + n) as char
}

/// A number in decimal notation.
pub open spec fn decimal(n: nat) -> Seq<char>
    decreases n,
{
    if n < 10 {
        seq![digit(n)]
    } else {
        decimal(n / 10).push(digit(n % 10))
    }
}

/// The length of a text in bytes.
pub fn length(text: &str) -> (r: usize)
    ensures
        r == byte_len(text@),
{
    text.as_bytes().len()
}

/// The lines of `content`.
pub fn lines(content: &str) -> (r: Vec<String>)
    ensures
        texts(r@) == lines_of(content@),
{
    let mut done: Vec<String> = Vec::new();
    let mut line = String::new();
    // A carriage return that may turn out to belong to a line ending.
    let mut held: bool = false;
    proof {
        assert(with_held(line@, held) + content@.skip(0) == content@);
        assert(texts(done@) + lines_of(content@) == lines_of(content@));
    }
    for c in it: content.chars()
        invariant
            it.seq() == content@,
            !line@.contains('\n'),
            !held ==> line@.len() == 0 || line@.last() != '\r',
            lines_of(content@) == texts(done@) + lines_of(
                with_held(line@, held) + content@.skip(it.index()),
            ),
    {
        proof {
            let k = it.index();
            let rest = content@.skip(k + 1);
            assert(content@.skip(k) == seq![c] + rest);
            lemma_no_line_feed(line@, held);
            if c == '\n' {
                lemma_lines_of_ended(with_held(line@, held), rest);
                assert(with_held(line@, held) + content@.skip(k) == with_held(line@, held)
                    + seq!['\n'] + rest);
                assert(without_carriage_return(with_held(line@, held)) == line@) by {
                    if held {
                        assert(with_held(line@, held).drop_last() == line@);
                    }
                }
                assert(texts(done@.push(line)) == texts(done@) + seq![line@]);
                assert(with_held(Seq::empty(), false) + rest == rest);
            } else {
                assert(with_held(line@, held) + content@.skip(k) == with_held(line@, held).push(c)
                    + rest);
                assert(with_held(line@.push('\r'), true) == with_held(line@, true).push('\r'));
            }
        }
        if c == '\n' {
            done.push(line);
            line = String::new();
            held = false;
        } else if c == '\r' {
            if held {
                line.push('\r');
            }
            held = true;
        } else {
            if held {
                line.push('\r');
            }
            held = false;
            line.push(c);
        }
    }
    proof {
        assert(with_held(line@, held) + content@.skip(content@.len() as int) == with_held(
            line@,
            held,
        ));
        lemma_no_line_feed(line@, held);
        lemma_lines_of_unended(with_held(line@, held));
    }
    if held {
        line.push('\r');
    }
    if !line.as_str().is_empty() {
        proof {
            assert(texts(done@.push(line)) == texts(done@) + seq![line@]);
        }
        done.push(line);
    }
    done
}

/// Whether two texts are the same.
pub fn same(a: &str, b: &str) -> (r: bool)
    ensures
        r == (a@ == b@),
{
    a.to_string() == b.to_string()
}

/// The characters of a text.
pub fn characters(text: &str) -> (r: Vec<char>)
    ensures
        r@ == text@,
{
    let mut out: Vec<char> = Vec::new();
    for c in it: text.chars()
        invariant
            it.seq() == text@,
            out@ == text@.take(it.index()),
    {
        proof {
            assert(text@.take(it.index() + 1) == text@.take(it.index()).push(c));
        }
        out.push(c);
    }
    proof {
        assert(text@.take(text@.len() as int) == text@);
    }
    out
}

/// Whether `text` consists of white space only.
pub fn blank(text: &str) -> (r: bool)
    ensures
        r == is_blank(text@),
{
    for c in it: text.chars()
        invariant
            it.seq() == text@,
            forall|i: int| 0 <= i < it.index() ==> is_white_space(#[trigger] text@[i]),
    {
        if !c.is_whitespace() {
            proof {
                assert(text@[it.index()] == c);
            }
            return false;
        }
    }
    true
}

/// The words of `text`.
pub fn words(text: &str) -> (r: Vec<String>)
    ensures
        texts(r@) == words_of(text@),
{
    let mut done: Vec<String> = Vec::new();
    let mut word = String::new();
    proof {
        assert(word@ + text@.skip(0) == text@);
        assert(texts(done@) + words_of(text@) == words_of(text@));
    }
    for c in it: text.chars()
        invariant
            it.seq() == text@,
            forall|i: int| 0 <= i < word@.len() ==> !is_white_space(#[trigger] word@[i]),
            words_of(text@) == texts(done@) + words_of(word@ + text@.skip(it.index())),
    {
        proof {
            let k = it.index();
            let rest = text@.skip(k + 1);
            assert(text@.skip(k) == seq![c] + rest);
            if is_white_space(c) {
                lemma_words_of_ended(word@, c, rest);
                assert(word@ + text@.skip(k) == word@ + seq![c] + rest);
                assert(texts(done@.push(word)) == texts(done@) + seq![word@]);
                assert(Seq::<char>::empty() + rest == rest);
            } else {
                assert(word@ + text@.skip(k) == word@.push(c) + rest);
            }
        }
        if c.is_whitespace() {
            if !word.as_str().is_empty() {
                done.push(word);
                word = String::new();
            }
            proof {
                assert(word@ + text@.skip(it.index() + 1) == text@.skip(it.index() + 1));
            }
        } else {
            word.push(c);
        }
    }
    proof {
        assert(word@ + text@.skip(text@.len() as int) == word@);
        lemma_words_of_unended(word@);
    }
    if !word.as_str().is_empty() {
        proof {
            assert(texts(done@.push(word)) == texts(done@) + seq![word@]);
        }
        done.push(word);
    }
    done
}

/// The pieces of `text` between the occurrences of `separator`.
pub fn split(text: &str, separator: char) -> (r: Vec<String>)
    ensures
        texts(r@) == split_on(text@, separator),
        r@.len() > 0,
{
    let mut done: Vec<String> = Vec::new();
    let mut piece = String::new();
    proof {
        assert(piece@ + text@.skip(0) == text@);
        assert(texts(done@) + split_on(text@, separator) == split_on(text@, separator));
    }
    for c in it: text.chars()
        invariant
            it.seq() == text@,
            !piece@.contains(separator),
            split_on(text@, separator) == texts(done@) + split_on(
                piece@ + text@.skip(it.index()),
                separator,
            ),
    {
        proof {
            let k = it.index();
            let rest = text@.skip(k + 1);
            assert(text@.skip(k) == seq![c] + rest);
            if c == separator {
                assert(piece@ + text@.skip(k) == piece@ + seq![separator] + rest);
                lemma_split_on(piece@, separator, rest);
                assert(texts(done@.push(piece)) == texts(done@) + seq![piece@]);
                assert(Seq::<char>::empty() + rest == rest);
            } else {
                assert(piece@ + text@.skip(k) == piece@.push(c) + rest);
                assert(!piece@.push(c).contains(separator)) by {
                    assert(forall|i: int|
                        0 <= i < piece@.len() ==> piece@.contains(#[trigger] piece@[i]));
                }
            }
        }
        if c == separator {
            done.push(piece);
            piece = String::new();
        } else {
            piece.push(c);
        }
    }
    proof {
        assert(piece@ + text@.skip(text@.len() as int) == piece@);
        lemma_split_on(piece@, separator, Seq::empty());
        assert(texts(done@.push(piece)) == texts(done@) + seq![piece@]);
    }
    done.push(piece);
    done
}

/// `text` without the white space at its two ends.
pub fn trim(text: &str) -> (r: String)
    ensures
        r@ == trimmed(text@),
{
    let all: Vec<char> = characters(text);
    let mut start: usize = 0;
    let mut end: usize = all.len();
    proof {
        assert(all@.subrange(0, all@.len() as int) == all@);
    }
    while start < end && all[start].is_whitespace()
        invariant
            start <= end == all@.len(),
            trimmed(all@) == trimmed(all@.subrange(start as int, end as int)),
        decreases end - start,
    {
        proof {
            let s = all@.subrange(start as int, end as int);
            assert(s.drop_first() == all@.subrange(start + 1, end as int));
        }
        start = start + 1;
    }
    while start < end && all[end - 1].is_whitespace()
        invariant
            start <= end <= all@.len(),
            trimmed(all@) == trimmed(all@.subrange(start as int, end as int)),
            start < end ==> !is_white_space(all@[start as int]),
        decreases end - start,
    {
        proof {
            let s = all@.subrange(start as int, end as int);
            assert(s.drop_last() == all@.subrange(start as int, end - 1));
        }
        end = end - 1;
    }
    part(&all, start, end)
}

/// The characters of `all` from `start` up to `end`.
fn part(all: &Vec<char>, start: usize, end: usize) -> (r: String)
    requires
        start <= end <= all@.len(),
    ensures
        r@ == all@.subrange(start as int, end as int),
{
    let mut out = String::new();
    let mut i: usize = start;
    while i < end
        invariant
            start <= i <= end <= all@.len(),
            out@ == all@.subrange(start as int, i as int),
        decreases end - i,
    {
        out.push(all[i]);
        proof {
            assert(all@.subrange(start as int, i + 1) == all@.subrange(
                start as int,
                i as int,
            ).push(all@[i as int]));
        }
        i = i + 1;
    }
    out
}

/// The ASCII lower-case form of `c`.
fn to_ascii_lower(c: char) -> (r: char)
    ensures
        r == ascii_lower(c),
{
    if 'A' <= c && c <= 'Z' {
        (c as u8 + 32) as char
    } else {
        c
    }
}

/// Whether `a` and `b` are equal but for the case of ASCII letters.
pub fn same_ignoring_case(a: &str, b: &str) -> (r: bool)
    ensures
        r == equal_ignoring_case(a@, b@),
{
    let x: Vec<char> = characters(a);
    let y: Vec<char> = characters(b);
    if x.len() != y.len() {
        return false;
    }
    let mut i: usize = 0;
    while i < x.len()
        invariant
            i <= x@.len() == y@.len(),
            x@ == a@,
            y@ == b@,
            forall|j: int| 0 <= j < i ==> ascii_lower(#[trigger] x@[j]) == ascii_lower(y@[j]),
        decreases x@.len() - i,
    {
        if to_ascii_lower(x[i]) != to_ascii_lower(y[i]) {
            proof {
                assert(ascii_lower(a@[i as int]) != ascii_lower(b@[i as int]));
            }
            return false;
        }
        i = i + 1;
    }
    true
}

/// The strings of `list`, with `separator` between each two.
pub fn join(list: &Vec<String>, separator: &str) -> (r: String)
    ensures
        r@ == joined(texts(list@), separator@),
{
    let mut out = String::new();
    let mut i: usize = 0;
    while i < list.len()
        invariant
            i <= list@.len(),
            out@ == joined(texts(list@).take(i as int), separator@),
        decreases list@.len() - i,
    {
        if i > 0 {
            out.append(separator);
        }
        out.append(list[i].as_str());
        proof {
            let next = texts(list@).take(i + 1);
            assert(next.drop_last() == texts(list@).take(i as int));
        }
        i = i + 1;
    }
    proof {
        assert(texts(list@).take(list@.len() as int) == texts(list@));
    }
    out
}

/// Appends `n` in decimal notation.
pub fn push_decimal(out: &mut String, n: usize)
    ensures
        final(out)@ == old(out)@ + decimal(n as nat),
    decreases n,
{
    if n >= 10 {
        push_decimal(out, n / 10);
    }
    let c: char = (48 + (n % 10) as u8) as char;
    out.push(c);
    proof {
        if n >= 10 {
            assert(decimal(n as nat) == decimal((n / 10) as nat).push(digit((n % 10) as nat)));
            assert((old(out)@ + decimal((n / 10) as nat)).push(c) == old(out)@ + decimal(
                n as nat,
            ));
        } else {
            assert(old(out)@.push(c) == old(out)@ + decimal(n as nat));
        }
    }
}

/// A word is no longer than the text that it starts.
pub proof fn lemma_word_len_bound(text: Seq<char>)
    ensures
        word_len(text) <= text.len(),
    decreases text.len(),
{
    if text.len() > 0 {
        lemma_word_len_bound(text.drop_first());
    }
}

proof fn lemma_word_len(head: Seq<char>, rest: Seq<char>)
    requires
        forall|i: int| 0 <= i < head.len() ==> !is_white_space(#[trigger] head[i]),
        rest.len() == 0 || is_white_space(rest[0]),
    ensures
        word_len(head + rest) == head.len(),
    decreases head.len(),
{
    let all = head + rest;
    if head.len() > 0 {
        assert(all[0] == head[0]);
        assert(all.drop_first() == head.drop_first() + rest);
        lemma_word_len(head.drop_first(), rest);
    } else {
        assert(all == rest);
    }
}

proof fn lemma_words_of_ended(word: Seq<char>, space: char, rest: Seq<char>)
    requires
        forall|i: int| 0 <= i < word.len() ==> !is_white_space(#[trigger] word[i]),
        is_white_space(space),
    ensures
        words_of(word + seq![space] + rest) == if word.len() == 0 {
            words_of(rest)
        } else {
            seq![word] + words_of(rest)
        },
{
    let all = word + seq![space] + rest;
    let tail = seq![space] + rest;
    assert(tail.drop_first() == rest);
    assert(words_of(tail) == words_of(rest));
    if word.len() == 0 {
        assert(all == tail);
    } else {
        assert(all == word + tail);
        lemma_word_len(word, tail);
        assert(all[0] == word[0]);
        assert(all.take(word.len() as int) == word);
        assert(all.skip(word.len() as int) == tail);
    }
}

proof fn lemma_words_of_unended(word: Seq<char>)
    requires
        forall|i: int| 0 <= i < word.len() ==> !is_white_space(#[trigger] word[i]),
    ensures
        words_of(word) == if word.len() == 0 {
            Seq::empty()
        } else {
            seq![word]
        },
{
    if word.len() > 0 {
        lemma_word_len(word, Seq::empty());
        assert(word + Seq::<char>::empty() == word);
        assert(word.take(word.len() as int) == word);
        assert(word.skip(word.len() as int) == Seq::<char>::empty());
        assert(seq![word] + words_of(Seq::<char>::empty()) == seq![word]);
    }
}

proof fn lemma_split_on(piece: Seq<char>, separator: char, rest: Seq<char>)
    requires
        !piece.contains(separator),
    ensures
        split_on(piece + seq![separator] + rest, separator) == seq![piece] + split_on(
            rest,
            separator,
        ),
        split_on(piece, separator) == seq![piece],
{
    let all = piece + seq![separator] + rest;
    lemma_prefix_len(piece, separator, rest);
    assert(all.take(piece.len() as int) == piece);
    assert(all.skip(piece.len() as int + 1) == rest);
}

/// A line together with the carriage return that is held back from it.
spec fn with_held(line: Seq<char>, held: bool) -> Seq<char> {
    if held {
        line.push('\r')
    } else {
        line
    }
}

proof fn lemma_no_line_feed(line: Seq<char>, held: bool)
    requires
        !line.contains('\n'),
    ensures
        !with_held(line, held).contains('\n'),
        forall|c: char| c != '\n' ==> !(#[trigger] with_held(line, held).push(c)).contains('\n'),
        forall|c: char| c != '\n' ==> !(#[trigger] line.push(c)).contains('\n'),
{
    let whole = with_held(line, held);
    assert(forall|i: int| 0 <= i < line.len() ==> line[i] != '\n') by {
        assert(forall|i: int| 0 <= i < line.len() ==> line.contains(line[i]));
    }
    assert(forall|i: int| 0 <= i < whole.len() ==> whole[i] != '\n');
}

proof fn lemma_prefix_len(head: Seq<char>, stop: char, rest: Seq<char>)
    requires
        !head.contains(stop),
    ensures
        prefix_len(head + seq![stop] + rest, stop) == head.len(),
        prefix_len(head, stop) == head.len(),
    decreases head.len(),
{
    let all = head + seq![stop] + rest;
    if head.len() > 0 {
        let tail = head.drop_first();
        assert(head.contains(head[0]));
        assert(!tail.contains(stop)) by {
            if tail.contains(stop) {
                let i = choose|i: int| 0 <= i < tail.len() && tail[i] == stop;
                assert(head[i + 1] == stop);
            }
        }
        lemma_prefix_len(tail, stop, rest);
        assert(all.drop_first() == tail + seq![stop] + rest);
    }
}

proof fn lemma_lines_of_ended(line: Seq<char>, rest: Seq<char>)
    requires
        !line.contains('\n'),
    ensures
        lines_of(line + seq!['\n'] + rest) == seq![without_carriage_return(line)] + lines_of(rest),
{
    let all = line + seq!['\n'] + rest;
    lemma_prefix_len(line, '\n', rest);
    assert(all.take(line.len() as int) == line);
    assert(all.skip(line.len() as int + 1) == rest);
}

proof fn lemma_lines_of_unended(line: Seq<char>)
    requires
        !line.contains('\n'),
    ensures
        lines_of(line) == if line.len() == 0 {
            Seq::empty()
        } else {
            seq![line]
        },
{
    lemma_prefix_len(line, '\n', Seq::empty());
}

/// The bytes of two texts put together are those of both, and each character
/// takes one byte to four, by its code.
pub proof fn law_bytes_add_up(a: Seq<char>, b: Seq<char>, c: char)
    ensures
        byte_len(a + b) == byte_len(a) + byte_len(b),
        byte_len(a.push(c)) == byte_len(a) + if (c as u32) < 0x80 {
            1nat
        } else if (c as u32) < 0x800 {
            2
        } else if (c as u32) < 0x1_0000 {
            3
        } else {
            4
        },
        byte_len(Seq::empty()) == 0,
    decreases a.len(),
{
    if a.len() == 0 {
        assert(a + b =~= b);
        assert(a.push(c) =~= seq![c]);
        assert(seq![c].drop_first() =~= Seq::<char>::empty());
        assert(vstd::utf8::encode_utf8(seq![c].drop_first()).len() == 0);
    } else {
        law_bytes_add_up(a.drop_first(), b, c);
        assert((a + b).drop_first() =~= a.drop_first() + b);
        assert(a.push(c).drop_first() =~= a.drop_first().push(c));
    }
}

/// The lines of a text that starts with a line and its ending are that line,
/// without the ending, and the lines of the rest. A text without line feeds is
/// one line, unless it is empty.
pub proof fn law_lines_end_in_line_feeds(line: Seq<char>, rest: Seq<char>)
    requires
        forall|i: int| 0 <= i < line.len() ==> line[i] != '\n',
    ensures
        line.len() == 0 || line.last() != '\r' ==> lines_of(line + seq!['\n'] + rest) == seq![line]
            + lines_of(rest),
        lines_of(line + seq!['\r', '\n'] + rest) == seq![line] + lines_of(rest),
        line.len() > 0 ==> lines_of(line) == seq![line],
        lines_of(Seq::empty()) == Seq::<Seq<char>>::empty(),
{
    lemma_lines_of_ended(line, rest);
    lemma_lines_of_unended(line);
    let ended = line.push('\r');
    assert forall|i: int| 0 <= i < ended.len() implies ended[i] != '\n' by {}
    assert(!ended.contains('\n'));
    lemma_lines_of_ended(ended, rest);
    assert(ended + seq!['\n'] + rest =~= line + seq!['\r', '\n'] + rest);
    assert(ended.drop_last() =~= line);
}

/// The pieces of two texts with a separator between them are the pieces of the
/// one and then those of the other. A text without separators is one piece.
pub proof fn law_pieces_lie_between_separators(a: Seq<char>, separator: char, b: Seq<char>)
    ensures
        split_on(a + seq![separator] + b, separator) == split_on(a, separator) + split_on(
            b,
            separator,
        ),
        (forall|i: int| 0 <= i < a.len() ==> a[i] != separator) ==> split_on(a, separator)
            == seq![a],
    decreases a.len(),
{
    lemma_prefix_stops(a, separator);
    let end = prefix_len(a, separator) as int;
    let head = a.take(end);
    if end >= a.len() {
        assert(!a.contains(separator));
        lemma_split_on(a, separator, b);
    } else {
        assert(!head.contains(separator));
        let tail = a.skip(end + 1);
        law_pieces_lie_between_separators(tail, separator, b);
        assert(a =~= head + seq![separator] + tail);
        lemma_split_on(head, separator, tail);
        lemma_split_on(head, separator, tail + seq![separator] + b);
        assert(a + seq![separator] + b =~= head + seq![separator] + (tail + seq![separator] + b));
        assert(split_on(a + seq![separator] + b, separator) =~= split_on(a, separator) + split_on(
            b,
            separator,
        ));
        assert(a[end] == separator);
    }
}

proof fn lemma_prefix_stops(text: Seq<char>, stop: char)
    ensures
        prefix_len(text, stop) <= text.len(),
        forall|i: int| 0 <= i < prefix_len(text, stop) ==> text[i] != stop,
        prefix_len(text, stop) < text.len() ==> text[prefix_len(text, stop) as int] == stop,
    decreases text.len(),
{
    if text.len() > 0 && text[0] != stop {
        let rest = text.drop_first();
        lemma_prefix_stops(rest, stop);
        assert forall|i: int| 0 <= i < prefix_len(text, stop) implies text[i] != stop by {
            if i > 0 {
                assert(text[i] == rest[i - 1]);
            }
        }
    }
}

/// The words of two texts with white space between them are the words of the
/// one and then those of the other. A text without white space is one word,
/// unless it is empty.
pub proof fn law_words_lie_between_white_space(a: Seq<char>, space: char, b: Seq<char>)
    requires
        is_white_space(space),
    ensures
        words_of(a + seq![space] + b) == words_of(a) + words_of(b),
        a.len() > 0 && (forall|i: int| 0 <= i < a.len() ==> !is_white_space(#[trigger] a[i]))
            ==> words_of(a) == seq![a],
        words_of(Seq::empty()) == Seq::<Seq<char>>::empty(),
    decreases a.len(),
{
    let all = a + seq![space] + b;
    if a.len() == 0 {
        assert(all.drop_first() =~= b);
        assert(words_of(all) =~= words_of(a) + words_of(b));
    } else if is_white_space(a[0]) {
        law_words_lie_between_white_space(a.drop_first(), space, b);
        assert(all.drop_first() =~= a.drop_first() + seq![space] + b);
    } else {
        lemma_word_stops(a);
        let end = word_len(a) as int;
        let head = a.take(end);
        assert(forall|i: int| 0 <= i < head.len() ==> !is_white_space(#[trigger] head[i]));
        let tail = a.skip(end);
        lemma_word_len(head, tail + seq![space] + b);
        assert(all =~= head + (tail + seq![space] + b));
        assert(all.take(end) =~= head);
        assert(all.skip(end) =~= tail + seq![space] + b);
        law_words_lie_between_white_space(tail, space, b);
        assert(words_of(all) =~= words_of(a) + words_of(b));
        if forall|i: int| 0 <= i < a.len() ==> !is_white_space(#[trigger] a[i]) {
            lemma_words_of_unended(a);
        }
    }
}

proof fn lemma_word_stops(text: Seq<char>)
    ensures
        word_len(text) <= text.len(),
        forall|i: int| 0 <= i < word_len(text) ==> !is_white_space(#[trigger] text[i]),
        word_len(text) < text.len() ==> is_white_space(text[word_len(text) as int]),
        text.len() > 0 && !is_white_space(text[0]) ==> word_len(text) > 0,
    decreases text.len(),
{
    if text.len() > 0 && !is_white_space(text[0]) {
        let rest = text.drop_first();
        lemma_word_stops(rest);
        assert forall|i: int| 0 <= i < word_len(text) implies !is_white_space(
            #[trigger] text[i],
        ) by {
            if i > 0 {
                assert(text[i] == rest[i - 1]);
            }
        }
    }
}

/// White space before and behind a text that neither starts nor ends in white
/// space is what trimming takes away.
pub proof fn law_trimming_takes_white_space_away(
    before: Seq<char>,
    core: Seq<char>,
    behind: Seq<char>,
)
    requires
        forall|i: int| 0 <= i < before.len() ==> is_white_space(#[trigger] before[i]),
        forall|i: int| 0 <= i < behind.len() ==> is_white_space(#[trigger] behind[i]),
        core.len() > 0 ==> !is_white_space(core[0]) && !is_white_space(core.last()),
    ensures
        trimmed(before + core + behind) == core,
    decreases before.len() + behind.len(),
{
    let all = before + core + behind;
    if before.len() > 0 {
        let fewer = before.drop_first();
        assert(all[0] == before[0]);
        assert(all.drop_first() =~= fewer + core + behind);
        assert forall|i: int| 0 <= i < fewer.len() implies is_white_space(#[trigger] fewer[i]) by {
            assert(fewer[i] == before[i + 1]);
        }
        law_trimming_takes_white_space_away(fewer, core, behind);
    } else if behind.len() > 0 {
        let last = behind.len() - 1;
        let fewer = behind.drop_last();
        let rest = behind.drop_first();
        assert(is_white_space(behind[last]));
        assert(is_white_space(behind[0]));
        if core.len() == 0 {
            assert(all[0] == behind[0]);
            assert(all.drop_first() =~= before + core + rest);
            assert forall|i: int| 0 <= i < rest.len() implies is_white_space(#[trigger] rest[i]) by {
                assert(rest[i] == behind[i + 1]);
            }
            law_trimming_takes_white_space_away(before, core, rest);
        } else {
            assert(all[0] == core[0]);
            assert(all.last() == behind[last]);
            assert(all.drop_last() =~= before + core + fewer);
            assert forall|i: int|
                0 <= i < fewer.len() implies is_white_space(#[trigger] fewer[i]) by {
                assert(fewer[i] == behind[i]);
            }
            law_trimming_takes_white_space_away(before, core, fewer);
        }
    } else {
        assert(all =~= core);
    }
}

/// White space is the tab, the line feed, the vertical tab, the form feed, the
/// carriage return and the space, and beyond ASCII the next line and the spaces
/// and separators of Unicode.
pub proof fn law_white_space_is_that_of_unicode(c: char)
    ensures
        (c as u32) < 128 ==> (is_white_space(c) <==> c == '\t' || c == '\n' || c == '\u{b}' || c
            == '\u{c}' || c == '\r' || c == ' '),
        (c as u32) >= 128 ==> (is_white_space(c) <==> c == '\u{85}' || c == '\u{a0}' || c
            == '\u{1680}' || '\u{2000}' <= c <= '\u{200a}' || c == '\u{2028}' || c == '\u{2029}'
            || c == '\u{202f}' || c == '\u{205f}' || c == '\u{3000}'),
{
}

/// Two texts are equal but for the case of letters exactly if they are as long
/// and each two characters are the same, or one a capital ASCII letter and the
/// other the small one.
pub proof fn law_case_is_that_of_ascii_letters(a: Seq<char>, b: Seq<char>)
    ensures
        equal_ignoring_case(a, b) <==> a.len() == b.len() && forall|i: int|
            0 <= i < a.len() ==> {
                ||| #[trigger] a[i] == b[i]
                ||| 'A' <= a[i] <= 'Z' && b[i] as u32 == a[i] as u32 + 32
                ||| 'A' <= b[i] <= 'Z' && a[i] as u32 == b[i] as u32 + 32
            },
{
    if equal_ignoring_case(a, b) {
        assert forall|i: int| 0 <= i < a.len() implies {
            ||| #[trigger] a[i] == b[i]
            ||| 'A' <= a[i] <= 'Z' && b[i] as u32 == a[i] as u32 + 32
            ||| 'A' <= b[i] <= 'Z' && a[i] as u32 == b[i] as u32 + 32
        } by {
            assert(ascii_lower(a[i]) == ascii_lower(b[i]));
        }
    }
    if a.len() == b.len() && forall|i: int|
        0 <= i < a.len() ==> {
            ||| #[trigger] a[i] == b[i]
            ||| 'A' <= a[i] <= 'Z' && b[i] as u32 == a[i] as u32 + 32
            ||| 'A' <= b[i] <= 'Z' && a[i] as u32 == b[i] as u32 + 32
        } {
        assert forall|i: int| 0 <= i < a.len() implies ascii_lower(#[trigger] a[i]) == ascii_lower(
            b[i],
        ) by {}
    }
}

/// Joining two lists of texts gives what joining each gives, with the separator
/// between; a single text is joined to itself.
pub proof fn law_joining_puts_separators_between(
    a: Seq<Seq<char>>,
    b: Seq<Seq<char>>,
    separator: Seq<char>,
    text: Seq<char>,
)
    ensures
        a.len() > 0 && b.len() > 0 ==> joined(a + b, separator) == joined(a, separator) + separator
            + joined(b, separator),
        joined(seq![text], separator) == text,
        joined(Seq::empty(), separator) == Seq::<char>::empty(),
    decreases b.len(),
{
    if a.len() > 0 && b.len() > 0 {
        let shorter = b.drop_last();
        assert((a + b).drop_last() =~= a + shorter);
        assert((a + b).last() == b.last());
        if b.len() == 1 {
            assert(a + shorter =~= a);
        } else {
            law_joining_puts_separators_between(a, shorter, separator, text);
        }
        assert(joined(a + b, separator) =~= joined(a, separator) + separator + joined(
            b,
            separator,
        ));
    }
}

/// The decimal notation of a number below ten is its digit; that of any other
/// is the notation of its tenth part and the digit of the rest.
pub proof fn law_decimal_notation(n: nat, rest: nat)
    requires
        rest < 10,
    ensures
        decimal(rest) == seq![(0x30 + rest) as char],
        n > 0 ==> decimal(10 * n + rest) == decimal(n).push((0x30 + rest) as char),
{
    if n > 0 {
        assert((10 * n + rest) / 10 == n);
        assert((10 * n + rest) % 10 == rest);
    }
}

} // verus!
