//! Text as sequences of characters: comparing, cutting, joining and padding.
use vstd::prelude::*;
use vstd::utf8::*;

verus! {

/// `String::push` appends the given character to the end of the string.
pub assume_specification[ std::string::String::push ](buffer: &mut String, character: char)
    ensures
        final(buffer)@ == old(buffer)@.push(character),
;

/// Whether a text holds no capital ASCII letter.
pub open spec fn no_capitals(chars: Seq<char>) -> bool {
    forall|i: int| 0 <= i < chars.len() ==> !('A' <= #[trigger] chars[i] <= 'Z')
}

/// The lowercase mapping that Unicode gives a character beyond ASCII.
pub uninterp spec fn unicode_lowercase(character: char) -> Seq<char>;

/// `char::to_lowercase` yields the characters of the lowercase mapping: for an ASCII letter its
/// small form, for any other ASCII character the character itself, and beyond ASCII what Unicode
/// says. No mapping holds a capital ASCII letter, since those have small forms themselves.
#[verifier::external_body]
fn to_lowercase(character: char) -> (mapped: Vec<char>)
    ensures
        'A' <= character <= 'Z' ==> mapped@ == seq![(character as u8 + 32) as char],
        character < '\u{80}' && !('A' <= character <= 'Z') ==> mapped@ == seq![character],
        character >= '\u{80}' ==> mapped@ == unicode_lowercase(character),
        no_capitals(mapped@),
{
    character.to_lowercase().collect()
}

/// The lowercase mapping of a character.
pub open spec fn lowercase(character: char) -> Seq<char> {
    if 'A' <= character <= 'Z' {
        seq![(character as u8 + 32) as char]
    } else if '\u{80}' > character {
        seq![character]
    } else {
        unicode_lowercase(character)
    }
}

/// Appends the lowercase mapping of a character.
pub fn push_lowercase(chars: &mut Vec<char>, character: char)
    ensures
        final(chars)@ == old(chars)@ + lowercase(character),
        no_capitals(lowercase(character)),
{
    let mut mapped = to_lowercase(character);
    chars.append(&mut mapped);
}

/// The contents of a list of strings.
pub open spec fn texts(list: Seq<String>) -> Seq<Seq<char>> {
    list.map_values(|text: String| text@)
}

/// The characters of a text.
pub fn chars_of(text: &str) -> (chars: Vec<char>)
    ensures
        chars@ == text@,
{
    let mut chars: Vec<char> = Vec::new();
    for c in it: text.chars()
        invariant
            it.seq() == text@,
            chars@ == text@.take(it.index()),
    {
        chars.push(c);
    }
    chars
}

/// The text of the characters from `from` up to `to`.
pub fn text_of(chars: &Vec<char>, from: usize, to: usize) -> (text: String)
    requires
        from <= to <= chars.len(),
    ensures
        text@ == chars@.subrange(from as int, to as int),
{
    let mut text = String::new();
    let mut index: usize = from;
    while index < to
        invariant
            from <= index <= to <= chars.len(),
            text@ == chars@.subrange(from as int, index as int),
        decreases to - index,
    {
        text.push(chars[index]);
        index = index + 1;
    }
    text
}

/// Texts with equal UTF-8 encodings are equal.
pub proof fn lemma_encoding_injective(left: Seq<char>, right: Seq<char>)
    requires
        encode_utf8(left) == encode_utf8(right),
    ensures
        left == right,
{
    encode_utf8_decode_utf8(left);
    encode_utf8_decode_utf8(right);
}

/// Whether two texts are equal.
pub fn same_text(left: &str, right: &str) -> (same: bool)
    ensures
        same == (left@ == right@),
{
    match order(left, right) {
        Placement::Same => true,
        _ => false,
    }
}

/// Where one value stands relative to another in an order.
#[derive(Clone, Copy, Debug, PartialEq, Eq, Structural)]
pub enum Placement {
    /// It comes first.
    Before,
    /// The two are equal.
    Same,
    /// It comes later.
    After,
}

/// The lexicographic order of byte sequences.
pub open spec fn bytes_before(left: Seq<u8>, right: Seq<u8>) -> bool
    decreases left.len(),
{
    if right.len() == 0 {
        false
    } else if left.len() == 0 {
        true
    } else if left[0] != right[0] {
        left[0] < right[0]
    } else {
        bytes_before(left.drop_first(), right.drop_first())
    }
}

/// The order of strings: by the bytes of their UTF-8 encodings.
pub open spec fn text_before(left: Seq<char>, right: Seq<char>) -> bool {
    bytes_before(encode_utf8(left), encode_utf8(right))
}

/// No bytes come before themselves.
pub proof fn lemma_bytes_irreflexive(bytes: Seq<u8>)
    ensures
        !bytes_before(bytes, bytes),
    decreases bytes.len(),
{
    if bytes.len() > 0 {
        lemma_bytes_irreflexive(bytes.drop_first());
    }
}

/// The order of bytes is transitive.
pub proof fn lemma_bytes_transitive(first: Seq<u8>, second: Seq<u8>, third: Seq<u8>)
    requires
        bytes_before(first, second),
        bytes_before(second, third),
    ensures
        bytes_before(first, third),
    decreases first.len(),
{
    if first.len() > 0 && first[0] == second[0] && second[0] == third[0] {
        lemma_bytes_transitive(first.drop_first(), second.drop_first(), third.drop_first());
    }
}

/// No text comes before itself.
pub proof fn lemma_text_irreflexive(text: Seq<char>)
    ensures
        !text_before(text, text),
{
    lemma_bytes_irreflexive(encode_utf8(text));
}

/// Of two different byte sequences one comes before the other.
pub proof fn lemma_bytes_total(left: Seq<u8>, right: Seq<u8>)
    ensures
        bytes_before(left, right) || left == right || bytes_before(right, left),
    decreases left.len(),
{
    if left.len() > 0 && right.len() > 0 && left[0] == right[0] {
        lemma_bytes_total(left.drop_first(), right.drop_first());
        if left.drop_first() == right.drop_first() {
            assert(left =~= seq![left[0]] + left.drop_first());
            assert(right =~= seq![right[0]] + right.drop_first());
        }
    } else if left.len() == 0 && right.len() == 0 {
        assert(left =~= right);
    }
}

/// Of two different texts one comes before the other.
pub proof fn lemma_text_total(left: Seq<char>, right: Seq<char>)
    ensures
        text_before(left, right) || left == right || text_before(right, left),
{
    lemma_bytes_total(encode_utf8(left), encode_utf8(right));
    if encode_utf8(left) == encode_utf8(right) {
        lemma_encoding_injective(left, right);
    }
}

/// The order of texts is transitive.
pub proof fn lemma_text_transitive(first: Seq<char>, second: Seq<char>, third: Seq<char>)
    requires
        text_before(first, second),
        text_before(second, third),
    ensures
        text_before(first, third),
{
    lemma_bytes_transitive(encode_utf8(first), encode_utf8(second), encode_utf8(third));
}

/// A common prefix does not matter to the order.
proof fn lemma_bytes_skip(left: Seq<u8>, right: Seq<u8>, count: int)
    requires
        0 <= count <= left.len(),
        count <= right.len(),
        left.take(count) == right.take(count),
    ensures
        bytes_before(left, right) == bytes_before(left.skip(count), right.skip(count)),
    decreases count,
{
    if count == 0 {
        assert(left.skip(0) =~= left);
        assert(right.skip(0) =~= right);
    } else {
        assert(left[0] == left.take(count)[0]);
        assert(right[0] == right.take(count)[0]);
        assert(left.drop_first().take(count - 1) =~= left.take(count).drop_first());
        assert(right.drop_first().take(count - 1) =~= right.take(count).drop_first());
        lemma_bytes_skip(left.drop_first(), right.drop_first(), count - 1);
        assert(left.drop_first().skip(count - 1) =~= left.skip(count));
        assert(right.drop_first().skip(count - 1) =~= right.skip(count));
    }
}

/// Compares two byte sequences.
pub fn order_bytes(left: &[u8], right: &[u8]) -> (placement: Placement)
    ensures
        match placement {
            Placement::Before => bytes_before(left@, right@),
            Placement::Same => left@ == right@,
            Placement::After => bytes_before(right@, left@),
        },
{
    let mut index: usize = 0;
    while index < left.len() && index < right.len() && left[index] == right[index]
        invariant
            index <= left.len(),
            index <= right.len(),
            left@.take(index as int) == right@.take(index as int),
        decreases left.len() - index,
    {
        assert(left@.take(index + 1) =~= left@.take(index as int).push(left@[index as int]));
        assert(right@.take(index + 1) =~= right@.take(index as int).push(right@[index as int]));
        index = index + 1;
    }
    proof {
        lemma_bytes_skip(left@, right@, index as int);
        lemma_bytes_skip(right@, left@, index as int);
        if index < left.len() {
            assert(left@.skip(index as int)[0] == left@[index as int]);
        }
        if index < right.len() {
            assert(right@.skip(index as int)[0] == right@[index as int]);
        }
    }
    if index < left.len() && index < right.len() {
        if left[index] < right[index] {
            Placement::Before
        } else {
            Placement::After
        }
    } else if index < right.len() {
        Placement::Before
    } else if index < left.len() {
        Placement::After
    } else {
        assert(left@.take(index as int) =~= left@);
        assert(right@.take(index as int) =~= right@);
        Placement::Same
    }
}

/// Compares two texts.
pub fn order(left: &str, right: &str) -> (placement: Placement)
    ensures
        match placement {
            Placement::Before => text_before(left@, right@) && left@ != right@,
            Placement::Same => left@ == right@,
            Placement::After => text_before(right@, left@) && left@ != right@,
        },
{
    let placement = order_bytes(left.as_bytes(), right.as_bytes());
    proof {
        lemma_text_irreflexive(left@);
        if placement is Same {
            lemma_encoding_injective(left@, right@);
        }
    }
    placement
}

/// Characters that may be cut from the ends of a text.
#[derive(Clone, Copy, Debug)]
pub enum Edge {
    /// White space.
    Space,
    /// One given character.
    Only(char),
}

/// The characters with the Unicode property White_Space.
pub open spec fn is_space(c: char) -> bool {
    ||| '\u{9}' <= c <= '\u{d}'
    ||| c == ' '
    ||| c == '\u{85}'
    ||| c == '\u{a0}'
    ||| c == '\u{1680}'
    ||| '\u{2000}' <= c <= '\u{200a}'
    ||| c == '\u{2028}'
    ||| c == '\u{2029}'
    ||| c == '\u{202f}'
    ||| c == '\u{205f}'
    ||| c == '\u{3000}'
}

impl Edge {
    /// Whether the character may be cut.
    pub open spec fn covers(self, c: char) -> bool {
        match self {
            Edge::Space => is_space(c),
            Edge::Only(only) => c == only,
        }
    }

    fn test(&self, c: char) -> (covered: bool)
        ensures
            covered == self.covers(c),
    {
        match self {
            Edge::Space => ('\u{9}' <= c && c <= '\u{d}') || c == ' ' || c == '\u{85}' || c
                == '\u{a0}' || c == '\u{1680}' || ('\u{2000}' <= c && c <= '\u{200a}') || c
                == '\u{2028}' || c == '\u{2029}' || c == '\u{202f}' || c == '\u{205f}' || c
                == '\u{3000}',
            Edge::Only(only) => c == *only,
        }
    }
}

/// The text without the covered characters at its start.
pub open spec fn trim_start(text: Seq<char>, edge: Edge) -> Seq<char>
    decreases text.len(),
{
    if text.len() > 0 && edge.covers(text[0]) {
        trim_start(text.drop_first(), edge)
    } else {
        text
    }
}

/// The text without the covered characters at its end.
pub open spec fn trim_end(text: Seq<char>, edge: Edge) -> Seq<char>
    decreases text.len(),
{
    if text.len() > 0 && edge.covers(text.last()) {
        trim_end(text.drop_last(), edge)
    } else {
        text
    }
}

/// The text without the covered characters at both ends.
pub open spec fn trim(text: Seq<char>, edge: Edge) -> Seq<char> {
    trim_end(trim_start(text, edge), edge)
}

/// Cuts the covered characters from the start.
pub fn trimmed_start(text: &str, edge: Edge) -> (cut: String)
    ensures
        cut@ == trim_start(text@, edge),
{
    let chars = chars_of(text);
    let mut from: usize = 0;
    assert(chars@.skip(0) =~= chars@);
    while from < chars.len() && edge.test(chars[from])
        invariant
            from <= chars.len(),
            trim_start(chars@, edge) == trim_start(chars@.skip(from as int), edge),
        decreases chars.len() - from,
    {
        assert(chars@.skip(from as int).drop_first() =~= chars@.skip(from + 1));
        from = from + 1;
    }
    assert(chars@.skip(from as int) =~= chars@.subrange(from as int, chars@.len() as int));
    text_of(&chars, from, chars.len())
}

/// Cuts the covered characters from the end.
pub fn trimmed_end(text: &str, edge: Edge) -> (cut: String)
    ensures
        cut@ == trim_end(text@, edge),
{
    let chars = chars_of(text);
    let mut to: usize = chars.len();
    assert(chars@.take(chars@.len() as int) =~= chars@);
    while to > 0 && edge.test(chars[to - 1])
        invariant
            to <= chars.len(),
            trim_end(chars@, edge) == trim_end(chars@.take(to as int), edge),
        decreases to,
    {
        assert(chars@.take(to as int).drop_last() =~= chars@.take(to - 1));
        to = to - 1;
    }
    assert(chars@.take(to as int) =~= chars@.subrange(0, to as int));
    text_of(&chars, 0, to)
}

/// Cuts the covered characters from both ends.
pub fn trimmed(text: &str, edge: Edge) -> (cut: String)
    ensures
        cut@ == trim(text@, edge),
{
    let front = trimmed_start(text, edge);
    trimmed_end(front.as_str(), edge)
}

/// The pieces of a text between the occurrences of a separator.
pub open spec fn split(text: Seq<char>, separator: char) -> Seq<Seq<char>>
    decreases text.len(),
{
    if text.len() == 0 {
        seq![Seq::<char>::empty()]
    } else {
        let before = split(text.drop_last(), separator);
        if text.last() == separator {
            before.push(Seq::empty())
        } else {
            before.drop_last().push(before.last().push(text.last()))
        }
    }
}

/// A text has at least one piece.
pub proof fn lemma_split_nonempty(text: Seq<char>, separator: char)
    ensures
        split(text, separator).len() > 0,
    decreases text.len(),
{
    if text.len() > 0 {
        lemma_split_nonempty(text.drop_last(), separator);
    }
}

/// Splits a text at a separator.
pub fn pieces(text: &str, separator: char) -> (list: Vec<String>)
    ensures
        texts(list@) == split(text@, separator),
        list.len() > 0,
{
    let mut list: Vec<String> = Vec::new();
    let mut piece = String::new();
    for c in it: text.chars()
        invariant
            it.seq() == text@,
            texts(list@).push(piece@) == split(text@.take(it.index()), separator),
    {
        let ghost index = it.index();
        assert(text@.take(index + 1).drop_last() =~= text@.take(index));
        assert(text@.take(index + 1).last() == c);
        let ghost before = texts(list@).push(piece@);
        assert(before.drop_last() =~= texts(list@));
        if c == separator {
            let ghost old_list = list@;
            list.push(piece);
            assert(texts(list@) =~= texts(old_list).push(piece@));
            piece = String::new();
        } else {
            piece.push(c);
        }
    }
    assert(text@.take(text@.len() as int) =~= text@);
    let ghost old_list = list@;
    list.push(piece);
    assert(texts(list@) =~= texts(old_list).push(piece@));
    list
}

/// A line without the carriage return that precedes its line feed.
pub open spec fn without_return(line: Seq<char>) -> Seq<char> {
    if line.len() > 0 && line.last() == '\r' {
        line.drop_last()
    } else {
        line
    }
}

/// The lines of a text: each ends in a line feed, with or without a carriage return before it; the
/// last may lack its ending.
pub open spec fn lines(text: Seq<char>) -> Seq<Seq<char>> {
    let rows = split(text, '\n');
    let ended = rows.drop_last().map_values(|row: Seq<char>| without_return(row));
    if rows.last().len() == 0 {
        ended
    } else {
        ended.push(rows.last())
    }
}

fn cut_return(line: &String) -> (cut: String)
    ensures
        cut@ == without_return(line@),
{
    let chars = chars_of(line.as_str());
    assert(chars@.subrange(0, chars@.len() as int) =~= chars@);
    if chars.len() > 0 && chars[chars.len() - 1] == '\r' {
        assert(chars@.subrange(0, chars@.len() - 1) =~= chars@.drop_last());
        text_of(&chars, 0, chars.len() - 1)
    } else {
        text_of(&chars, 0, chars.len())
    }
}

/// Cuts a text into its lines.
pub fn lines_of(text: &str) -> (list: Vec<String>)
    ensures
        texts(list@) == lines(text@),
{
    let rows = pieces(text, '\n');
    let mut list: Vec<String> = Vec::new();
    let ghost parts = split(text@, '\n');
    let ghost ended = parts.drop_last().map_values(|row: Seq<char>| without_return(row));
    let mut index: usize = 0;
    while index + 1 < rows.len()
        invariant
            texts(rows@) == parts,
            rows.len() > 0,
            index + 1 <= rows.len(),
            ended == parts.drop_last().map_values(|row: Seq<char>| without_return(row)),
            texts(list@) == ended.take(index as int),
        decreases rows.len() - index,
    {
        let ghost old_list = list@;
        assert(parts[index as int] == rows@[index as int]@);
        let line = cut_return(&rows[index]);
        list.push(line);
        assert(texts(list@) =~= texts(old_list).push(line@));
        assert(ended.take(index + 1) =~= ended.take(index as int).push(line@));
        index = index + 1;
    }
    assert(ended.take(index as int) =~= ended);
    assert(parts.last() == rows@[index as int]@);
    if !rows[index].as_str().is_empty() {
        let ghost old_list = list@;
        let last = rows[index].clone();
        list.push(last);
        assert(texts(list@) =~= texts(old_list).push(last@));
    }
    list
}

/// The texts one after another with a separator between them.
pub open spec fn joined(list: Seq<Seq<char>>, separator: Seq<char>) -> Seq<char>
    decreases list.len(),
{
    if list.len() == 0 {
        Seq::empty()
    } else if list.len() == 1 {
        list[0]
    } else {
        joined(list.drop_last(), separator) + separator + list.last()
    }
}

/// Joins texts with a separator.
pub fn join(list: &Vec<String>, separator: &str) -> (text: String)
    ensures
        text@ == joined(texts(list@), separator@),
{
    let mut text = String::new();
    let mut index: usize = 0;
    let ghost all = texts(list@);
    assert(all.take(0) =~= Seq::<Seq<char>>::empty());
    while index < list.len()
        invariant
            index <= list.len(),
            all == texts(list@),
            text@ == joined(all.take(index as int), separator@),
        decreases list.len() - index,
    {
        assert(all.take(index + 1).drop_last() =~= all.take(index as int));
        assert(all.take(index + 1).last() == list@[index as int]@);
        if index > 0 {
            text.append(separator);
        }
        text.append(list[index].as_str());
        assert(text@ =~= joined(all.take(index + 1), separator@));
        index = index + 1;
    }
    assert(all.take(index as int) =~= all);
    text
}

/// A run of one character.
pub open spec fn run(character: char, count: nat) -> Seq<char> {
    Seq::new(count, |i: int| character)
}

/// Appends a run of one character.
pub fn push_run(text: &mut String, character: char, count: usize)
    ensures
        final(text)@ == old(text)@ + run(character, count as nat),
{
    let mut done: usize = 0;
    assert(text@ =~= old(text)@ + run(character, 0));
    while done < count
        invariant
            done <= count,
            text@ == old(text)@ + run(character, done as nat),
        decreases count - done,
    {
        text.push(character);
        assert(text@ =~= old(text)@ + run(character, (done + 1) as nat));
        done = done + 1;
    }
}

/// Whether one text starts with another.
pub fn starts_with(text: &str, prefix: &str) -> (starts: bool)
    ensures
        starts == prefix@.is_prefix_of(text@),
{
    let chars = chars_of(text);
    let front = chars_of(prefix);
    if front.len() > chars.len() {
        return false;
    }
    let mut index: usize = 0;
    while index < front.len()
        invariant
            index <= front.len() <= chars.len(),
            front@ == prefix@,
            chars@ == text@,
            front@.take(index as int) == chars@.take(index as int),
        decreases front.len() - index,
    {
        if front[index] != chars[index] {
            assert(chars@.subrange(0, front@.len() as int)[index as int] == chars@[index as int]);
            return false;
        }
        assert(front@.take(index + 1) =~= front@.take(index as int).push(front@[index as int]));
        assert(chars@.take(index + 1) =~= chars@.take(index as int).push(chars@[index as int]));
        index = index + 1;
    }
    assert(front@.take(index as int) =~= front@);
    assert(chars@.take(index as int) =~= chars@.subrange(0, front@.len() as int));
    true
}

/// How many characters a text has.
pub fn width_of(text: &str) -> (count: usize)
    ensures
        count == text@.len(),
{
    text.unicode_len()
}

/// One text comes before another exactly where, after the bytes that both start with, it ends or
/// goes on with a smaller byte.
pub proof fn law_text_order(left: Seq<char>, right: Seq<char>)
    ensures
        text_before(left, right) <==> exists|k: int|
            0 <= k <= encode_utf8(left).len() && k < encode_utf8(right).len() && #[trigger]
                encode_utf8(left).take(k) == encode_utf8(right).take(k) && (k == encode_utf8(
                left,
            ).len() || encode_utf8(left)[k] < encode_utf8(right)[k]),
{
    law_bytes_order(encode_utf8(left), encode_utf8(right));
}

/// One byte sequence comes before another exactly where, after the bytes that both start with, it
/// ends or goes on with a smaller byte.
pub proof fn law_bytes_order(left: Seq<u8>, right: Seq<u8>)
    ensures
        bytes_before(left, right) <==> exists|k: int|
            0 <= k <= left.len() && k < right.len() && #[trigger] left.take(k) == right.take(k) && (k
                == left.len() || left[k] < right[k]),
    decreases left.len(),
{
    if bytes_before(left, right) {
        if left.len() == 0 || left[0] != right[0] {
            assert(left.take(0) =~= right.take(0));
        } else {
            let (l, r) = (left.drop_first(), right.drop_first());
            law_bytes_order(l, r);
            let k = choose|k: int|
                0 <= k <= l.len() && k < r.len() && #[trigger] l.take(k) == r.take(k) && (k
                    == l.len() || l[k] < r[k]);
            assert(left.take(k + 1) =~= seq![left[0]] + l.take(k));
            assert(right.take(k + 1) =~= seq![right[0]] + r.take(k));
            assert(left.take(k + 1) == right.take(k + 1));
        }
    }
    if exists|k: int|
        0 <= k <= left.len() && k < right.len() && #[trigger] left.take(k) == right.take(k) && (k
            == left.len() || left[k] < right[k]) {
        let k = choose|k: int|
            0 <= k <= left.len() && k < right.len() && #[trigger] left.take(k) == right.take(k) && (
            k == left.len() || left[k] < right[k]);
        if k > 0 {
            assert(left[0] == left.take(k)[0]);
            assert(right[0] == right.take(k)[0]);
            let (l, r) = (left.drop_first(), right.drop_first());
            assert(l.take(k - 1) =~= left.take(k).drop_first());
            assert(r.take(k - 1) =~= right.take(k).drop_first());
            assert(l.take(k - 1) == r.take(k - 1));
            law_bytes_order(l, r);
        }
    }
}

/// Cutting the start of a text takes away covered characters only, and all of them.
pub proof fn law_trim_start(text: Seq<char>, edge: Edge)
    ensures
        ({
            let kept = trim_start(text, edge);
            let cut = text.len() - kept.len();
            &&& kept.len() <= text.len()
            &&& kept == text.skip(cut)
            &&& forall|i: int| 0 <= i < cut ==> edge.covers(#[trigger] text[i])
            &&& kept.len() > 0 ==> !edge.covers(kept[0])
        }),
    decreases text.len(),
{
    if text.len() > 0 && edge.covers(text[0]) {
        let rest = text.drop_first();
        law_trim_start(rest, edge);
        let kept = trim_start(rest, edge);
        let cut = text.len() - kept.len();
        assert(rest.skip(cut - 1) =~= text.skip(cut));
        assert forall|i: int| 0 <= i < cut implies edge.covers(#[trigger] text[i]) by {
            if i > 0 {
                assert(rest[i - 1] == text[i]);
            }
        }
    } else {
        assert(text.skip(0) =~= text);
    }
}

/// Cutting the end of a text takes away covered characters only, and all of them.
pub proof fn law_trim_end(text: Seq<char>, edge: Edge)
    ensures
        ({
            let kept = trim_end(text, edge);
            &&& kept.len() <= text.len()
            &&& kept == text.take(kept.len() as int)
            &&& forall|i: int| kept.len() <= i < text.len() ==> edge.covers(#[trigger] text[i])
            &&& kept.len() > 0 ==> !edge.covers(kept.last())
        }),
    decreases text.len(),
{
    if text.len() > 0 && edge.covers(text.last()) {
        let rest = text.drop_last();
        law_trim_end(rest, edge);
        let kept = trim_end(rest, edge);
        assert(rest.take(kept.len() as int) =~= text.take(kept.len() as int));
        assert forall|i: int| kept.len() <= i < text.len() implies edge.covers(
            #[trigger] text[i],
        ) by {
            if i < text.len() - 1 {
                assert(rest[i] == text[i]);
            }
        }
    } else {
        assert(text.take(text.len() as int) =~= text);
    }
}

/// Cutting both ends keeps one stretch of the text, with covered characters only before and behind
/// it and none at its ends.
pub proof fn law_trim(text: Seq<char>, edge: Edge)
    ensures
        exists|from: int|
            0 <= from && from + trim(text, edge).len() <= text.len() && #[trigger] text.skip(
                from,
            ).take(trim(text, edge).len() as int) == trim(text, edge) && (forall|i: int|
                0 <= i < from || from + trim(text, edge).len() <= i < text.len() ==> edge.covers(
                    #[trigger] text[i],
                )),
        trim(text, edge).len() > 0 ==> !edge.covers(trim(text, edge)[0]) && !edge.covers(
            trim(text, edge).last(),
        ),
{
    let front = trim_start(text, edge);
    let kept = trim(text, edge);
    law_trim_start(text, edge);
    law_trim_end(front, edge);
    let from = text.len() - front.len();
    assert(text.skip(from) == front);
    assert forall|i: int| 0 <= i < from || from + kept.len() <= i < text.len() implies edge.covers(
        #[trigger] text[i],
    ) by {
        if i >= from + kept.len() {
            assert(front[i - from] == text[i]);
        }
    }
    assert(text.skip(from).take(kept.len() as int) == kept);
    if kept.len() > 0 {
        assert(kept[0] == front[0]);
    }
}

/// An edge of one character covers that character only.
pub proof fn law_single_edges(only: char, c: char)
    ensures
        Edge::Only(only).covers(c) <==> c == only,
{
}

/// The pieces of a text hold no separator, there is at least one of them, and joined by the separator
/// they are the text again.
pub proof fn law_split(text: Seq<char>, separator: char)
    ensures
        split(text, separator).len() > 0,
        forall|i: int|
            0 <= i < split(text, separator).len() ==> !(#[trigger] split(text, separator)[i]).contains(
                separator,
            ),
        joined(split(text, separator), seq![separator]) == text,
    decreases text.len(),
{
    let list = split(text, separator);
    if text.len() > 0 {
        let shorter = text.drop_last();
        let before = split(shorter, separator);
        law_split(shorter, separator);
        if text.last() == separator {
            assert(list.drop_last() =~= before);
            assert(joined(list, seq![separator]) =~= text);
        } else {
            assert(list.drop_last() =~= before.drop_last());
            assert(!before[before.len() - 1].contains(separator));
            assert forall|i: int| 0 <= i < list.len() implies !(#[trigger] list[i]).contains(
                separator,
            ) by {
                if i < list.len() - 1 {
                    assert(list[i] == before[i]);
                } else if list[i].contains(separator) {
                    let p = choose|p: int| 0 <= p < list[i].len() && list[i][p] == separator;
                    assert(before.last()[p] == separator);
                }
            }
            let glue = seq![separator];
            assert(text =~= shorter.push(text.last()));
            assert(list.last() == before.last().push(text.last()));
            if before.len() == 1 {
                assert(joined(list, glue) == list.last());
                assert(joined(before, glue) == before.last());
            } else {
                assert(joined(list, glue) == joined(before.drop_last(), glue) + glue + list.last());
                assert(joined(before, glue) == joined(before.drop_last(), glue) + glue
                    + before.last());
            }
            assert(joined(list, glue) =~= joined(before, glue).push(text.last()));
        }
    } else {
        assert(list =~= seq![Seq::<char>::empty()]);
        assert(joined(list, seq![separator]) =~= text);
    }
}

/// Lists are joined part by part: the separator stands between two parts, and one text alone is left
/// as it is.
pub proof fn law_joined(left: Seq<Seq<char>>, right: Seq<Seq<char>>, separator: Seq<char>)
    ensures
        left.len() == 1 ==> joined(left, separator) == left[0],
        left.len() == 0 ==> joined(left, separator).len() == 0,
        left.len() > 0 && right.len() > 0 ==> joined(left + right, separator) == joined(
            left,
            separator,
        ) + separator + joined(right, separator),
    decreases right.len(),
{
    if left.len() > 0 && right.len() > 0 {
        let all = left + right;
        assert(all.last() == right.last());
        if right.len() == 1 {
            assert(all.drop_last() =~= left);
        } else {
            law_joined(left, right.drop_last(), separator);
            assert(all.drop_last() =~= left + right.drop_last());
            assert(joined(all, separator) =~= joined(left, separator) + separator + joined(
                right,
                separator,
            ));
        }
    }
}

proof fn lemma_split_plain(text: Seq<char>, separator: char)
    requires
        !text.contains(separator),
    ensures
        split(text, separator) == seq![text],
    decreases text.len(),
{
    if text.len() > 0 {
        assert(text[text.len() - 1] == text.last());
        assert(!text.drop_last().contains(separator)) by {
            if text.drop_last().contains(separator) {
                let p = choose|p: int|
                    0 <= p < text.drop_last().len() && text.drop_last()[p] == separator;
                assert(text[p] == separator);
            }
        }
        lemma_split_plain(text.drop_last(), separator);
        assert(text.drop_last().push(text.last()) =~= text);
        assert(seq![text.drop_last()].drop_last() =~= Seq::<Seq<char>>::empty());
        assert(split(text, separator)[0] == text);
        assert(split(text, separator) =~= seq![text]);
    } else {
        assert(text =~= Seq::<char>::empty());
        assert(split(text, separator) =~= seq![text]);
    }
}

/// A text splits at each separator: what stands before the first one is the first piece, and the
/// rest splits on its own.
pub proof fn law_split_step(front: Seq<char>, rest: Seq<char>, separator: char)
    requires
        !front.contains(separator),
    ensures
        split(front, separator) == seq![front],
        split(front.push(separator) + rest, separator) == seq![front] + split(rest, separator),
    decreases rest.len(),
{
    lemma_split_plain(front, separator);
    let whole = front.push(separator) + rest;
    if rest.len() == 0 {
        assert(whole.drop_last() =~= front);
        assert(split(whole, separator) =~= seq![front] + split(rest, separator));
    } else {
        law_split_step(front, rest.drop_last(), separator);
        assert(whole.drop_last() =~= front.push(separator) + rest.drop_last());
        assert(whole.last() == rest.last());
        lemma_split_nonempty(rest.drop_last(), separator);
        assert(split(whole, separator) =~= seq![front] + split(rest, separator));
    }
}

/// A text is read line by line: a line ends at its line feed, a carriage return before that belongs
/// to the ending, and what follows the last line feed is a line unless it is empty.
pub proof fn law_lines(line: Seq<char>, rest: Seq<char>)
    requires
        !line.contains('\n'),
    ensures
        line.len() == 0 ==> lines(line).len() == 0,
        line.len() > 0 ==> lines(line) == seq![line],
        line.len() == 0 || line.last() != '\r' ==> lines(line.push('\n') + rest) == seq![line]
            + lines(rest),
        lines(line.push('\r').push('\n') + rest) == seq![line] + lines(rest),
{
    law_split_step(line, rest, '\n');
    let rows = split(rest, '\n');
    lemma_split_nonempty(rest, '\n');
    assert(lines(line) =~= if line.len() == 0 {
        Seq::<Seq<char>>::empty()
    } else {
        seq![line]
    });
    let all = seq![line] + rows;
    assert(all.drop_last() =~= seq![line] + rows.drop_last());
    assert(all.last() == rows.last());
    if line.len() == 0 || line.last() != '\r' {
        assert(lines(line.push('\n') + rest) =~= seq![line] + lines(rest));
    }
    let ended = line.push('\r');
    assert(!ended.contains('\n')) by {
        if ended.contains('\n') {
            let p = choose|p: int| 0 <= p < ended.len() && ended[p] == '\n';
            assert(line[p] == '\n');
        }
    }
    law_split_step(ended, rest, '\n');
    let more = seq![ended] + rows;
    assert(more.drop_last() =~= seq![ended] + rows.drop_last());
    assert(more.last() == rows.last());
    assert(ended.drop_last() =~= line);
    assert(lines(ended.push('\n') + rest) =~= seq![line] + lines(rest));
}

/// A run repeats its character.
pub proof fn law_runs(character: char, count: nat)
    ensures
        run(character, count).len() == count,
        forall|i: int| 0 <= i < count ==> #[trigger] run(character, count)[i] == character,
{
}

/// ASCII letters are lowered to their small forms, and other ASCII characters stay.
pub proof fn law_ascii_lowercase(character: char)
    requires
        (character as u32) < 128,
    ensures
        lowercase(character).len() == 1,
        'A' <= character && character <= 'Z' ==> lowercase(character)[0] as u32 == character as u32
            + 32,
        !('A' <= character && character <= 'Z') ==> lowercase(character)[0] == character,
{
}

/// White space is what Unicode calls so: the characters from tab to carriage return, the blank, the
/// next-line character, and the spaces and separators beyond ASCII. It is covered where white space
/// is cut off.
pub proof fn law_white_space(c: char)
    ensures
        is_space(c) <==> {
            let code = c as u32;
            ||| 9 <= code <= 13
            ||| code == 32
            ||| code == 0x85
            ||| code == 0xa0
            ||| code == 0x1680
            ||| 0x2000 <= code <= 0x200a
            ||| code == 0x2028
            ||| code == 0x2029
            ||| code == 0x202f
            ||| code == 0x205f
            ||| code == 0x3000
        },
        Edge::Space.covers(c) <==> is_space(c),
{
}

/// A list of strings has the characters of each in its place.
pub proof fn law_list_contents(list: Seq<String>, index: int)
    requires
        0 <= index < list.len(),
    ensures
        texts(list).len() == list.len(),
        texts(list)[index] == list[index]@,
{
}

} // verus!
