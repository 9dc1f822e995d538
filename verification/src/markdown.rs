//! The pricing page: Markdown tables of models and their rates.
use crate::binary64::Binary64;
use crate::json;
use crate::pricing::{self, ModelRates};
use crate::text::{self, Edge};
use vstd::prelude::*;

verus! {

/// The binary64 number that a text spells, where it spells a finite one.
pub uninterp spec fn parsed_rate(spelled: Seq<char>) -> Option<u64>;

/// `str::parse` reads a text as a binary64 number, here given by its bits. `Number::from_f64`
/// holds it on the way and refuses what is not finite.
#[verifier::external_body]
fn parse_rate(spelled: &str) -> (bits: Option<u64>)
    ensures
        bits == parsed_rate(spelled@),
{
    let number = spelled.parse().ok().and_then(serde_json::Number::from_f64);
    number.and_then(|held| held.as_f64()).map(|rate| rate.to_bits())
}

/// An ASCII letter or digit.
pub open spec fn is_alphanumeric(c: char) -> bool {
    ||| 'a' <= c <= 'z'
    ||| 'A' <= c <= 'Z'
    ||| '0' <= c <= '9'
}

/// The lowercase mappings of all characters, one after another.
pub open spec fn lowered(name: Seq<char>) -> Seq<char>
    decreases name.len(),
{
    if name.len() == 0 {
        Seq::empty()
    } else {
        lowered(name.drop_last()) + text::lowercase(name.last())
    }
}

/// The letters and digits of a text, with one hyphen for every run of other characters that
/// follows some.
pub open spec fn hyphenated(chars: Seq<char>) -> Seq<char>
    decreases chars.len(),
{
    if chars.len() == 0 {
        Seq::empty()
    } else {
        let before = hyphenated(chars.drop_last());
        if is_alphanumeric(chars.last()) {
            before.push(chars.last())
        } else if before.len() > 0 && before.last() != '-' {
            before.push('-')
        } else {
            before
        }
    }
}

/// The form of a model's name in which names are compared.
pub open spec fn normal_name(name: Seq<char>) -> Seq<char> {
    text::trim_end(hyphenated(lowered(name)), Edge::Only('-'))
}

/// Whether letters, digits and hyphens alone make up a text, with no hyphen at its start and no
/// two in a row.
pub open spec fn is_hyphenated(chars: Seq<char>) -> bool {
    &&& chars.len() > 0 ==> chars[0] != '-'
    &&& forall|i: int|
        0 <= i < chars.len() ==> is_alphanumeric(#[trigger] chars[i]) || chars[i] == '-'
    &&& forall|i: int|
        0 < i < chars.len() && #[trigger] chars[i] == '-' ==> chars[i - 1] != '-'
}

proof fn lemma_hyphenated(chars: Seq<char>)
    ensures
        is_hyphenated(hyphenated(chars)),
    decreases chars.len(),
{
    if chars.len() > 0 {
        lemma_hyphenated(chars.drop_last());
    }
}

proof fn lemma_trimmed(chars: Seq<char>)
    requires
        is_hyphenated(chars),
    ensures
        ({
            let trimmed = text::trim_end(chars, Edge::Only('-'));
            is_hyphenated(trimmed) && (trimmed.len() > 0 ==> trimmed.last() != '-')
        }),
    decreases chars.len(),
{
    if chars.len() > 0 && chars.last() == '-' {
        lemma_trimmed(chars.drop_last());
    }
}

/// A name in normal form holds letters, digits and single hyphens, and no hyphen at either end.
pub proof fn law_normal_name_shape(name: Seq<char>)
    ensures
        is_hyphenated(normal_name(name)),
        normal_name(name).len() > 0 ==> normal_name(name).last() != '-',
{
    lemma_hyphenated(lowered(name));
    lemma_trimmed(hyphenated(lowered(name)));
}

proof fn lemma_hyphenated_kept(chars: Seq<char>)
    requires
        is_hyphenated(chars),
    ensures
        hyphenated(chars) == chars,
    decreases chars.len(),
{
    if chars.len() > 0 {
        let shorter = chars.drop_last();
        assert(is_hyphenated(shorter)) by {
            assert forall|i: int| 0 < i < shorter.len() && #[trigger] shorter[i] == '-' implies
                shorter[i - 1] != '-' by {
                assert(chars[i] == '-');
            }
        }
        lemma_hyphenated_kept(shorter);
        assert(chars[chars.len() - 1] == chars.last());
        assert(chars =~= shorter.push(chars.last()));
    }
}

proof fn lemma_lowered_kept(chars: Seq<char>)
    requires
        forall|i: int|
            0 <= i < chars.len() ==> #[trigger] chars[i] < '\u{80}' && !('A' <= chars[i] <= 'Z'),
    ensures
        lowered(chars) == chars,
    decreases chars.len(),
{
    if chars.len() > 0 {
        lemma_lowered_kept(chars.drop_last());
        assert(chars[chars.len() - 1] == chars.last());
        assert(lowered(chars) =~= chars);
    }
}

/// A name that is in normal form, with small letters only, is left as it is.
pub proof fn law_normal_name_kept(name: Seq<char>)
    requires
        is_hyphenated(name),
        name.len() > 0 ==> name.last() != '-',
        text::no_capitals(name),
    ensures
        normal_name(name) == name,
{
    lemma_lowered_kept(name);
    lemma_hyphenated_kept(name);
}

/// The letters and digits of a text, in order.
pub open spec fn letters(chars: Seq<char>) -> Seq<char>
    decreases chars.len(),
{
    if chars.len() == 0 {
        Seq::empty()
    } else if is_alphanumeric(chars.last()) {
        letters(chars.drop_last()).push(chars.last())
    } else {
        letters(chars.drop_last())
    }
}

proof fn lemma_hyphenated_letters(chars: Seq<char>)
    ensures
        letters(hyphenated(chars)) == letters(chars),
    decreases chars.len(),
{
    if chars.len() > 0 {
        lemma_hyphenated_letters(chars.drop_last());
        let before = hyphenated(chars.drop_last());
        assert(before.push(chars.last()).drop_last() =~= before);
        assert(before.push('-').drop_last() =~= before);
    }
}

proof fn lemma_trimmed_letters(chars: Seq<char>)
    ensures
        letters(text::trim_end(chars, Edge::Only('-'))) == letters(chars),
    decreases chars.len(),
{
    if chars.len() > 0 && chars.last() == '-' {
        lemma_trimmed_letters(chars.drop_last());
    }
}

/// The normal form keeps the letters and digits of the name in small letters, in their order; it is
/// empty exactly where there are none.
pub proof fn law_normal_name_letters(name: Seq<char>)
    ensures
        letters(normal_name(name)) == letters(lowered(name)),
        normal_name(name).len() == 0 <==> letters(lowered(name)).len() == 0,
{
    lemma_hyphenated_letters(lowered(name));
    lemma_trimmed_letters(hyphenated(lowered(name)));
    law_normal_name_shape(name);
    let normal = normal_name(name);
    if normal.len() > 0 {
        assert(is_alphanumeric(normal[normal.len() - 1]));
    }
}

proof fn lemma_hyphenated_small(chars: Seq<char>)
    requires
        text::no_capitals(chars),
    ensures
        text::no_capitals(hyphenated(chars)),
    decreases chars.len(),
{
    if chars.len() > 0 {
        assert(text::no_capitals(chars.drop_last()));
        lemma_hyphenated_small(chars.drop_last());
        assert(chars.last() == chars[chars.len() - 1]);
    }
}

proof fn lemma_trimmed_small(chars: Seq<char>)
    requires
        text::no_capitals(chars),
    ensures
        text::no_capitals(text::trim_end(chars, Edge::Only('-'))),
    decreases chars.len(),
{
    if chars.len() > 0 && chars.last() == '-' {
        assert(text::no_capitals(chars.drop_last()));
        lemma_trimmed_small(chars.drop_last());
    }
}

/// Brings a model's name to the form in which names are compared. That form has no capital letters,
/// and a name that has it is left as it is.
pub fn normalize_model_name(name: &str) -> (normalized: String)
    ensures
        normalized@ == normal_name(name@),
        text::no_capitals(normalized@),
        normal_name(normalized@) == normalized@,
{
    let mut chars: Vec<char> = Vec::new();
    for c in it: name.chars()
        invariant
            it.seq() == name@,
            chars@ == lowered(name@.take(it.index())),
            text::no_capitals(chars@),
    {
        assert(name@.take(it.index() + 1).drop_last() =~= name@.take(it.index()));
        assert(name@.take(it.index() + 1).last() == c);
        text::push_lowercase(&mut chars, c);
    }
    assert(name@.take(name@.len() as int) =~= name@);
    let mut normalized = String::new();
    let mut separator: bool = false;
    let mut index: usize = 0;
    while index < chars.len()
        invariant
            index <= chars.len(),
            normalized@ == hyphenated(chars@.take(index as int)),
            separator == (normalized@.len() > 0 && normalized@.last() == '-'),
        decreases chars.len() - index,
    {
        assert(chars@.take(index + 1).drop_last() =~= chars@.take(index as int));
        assert(chars@.take(index + 1).last() == chars@[index as int]);
        let c = chars[index];
        if ('a' <= c && c <= 'z') || ('A' <= c && c <= 'Z') || ('0' <= c && c <= '9') {
            normalized.push(c);
            separator = false;
        } else if !separator && !normalized.as_str().is_empty() {
            normalized.push('-');
            separator = true;
        }
        index = index + 1;
    }
    assert(chars@.take(index as int) =~= chars@);
    proof {
        lemma_hyphenated_small(chars@);
        lemma_trimmed_small(normalized@);
        law_normal_name_shape(name@);
        law_normal_name_kept(normal_name(name@));
    }
    text::trimmed_end(normalized.as_str(), Edge::Only('-'))
}

/// Whether a text ends in another.
pub open spec fn ends_in(whole: Seq<char>, suffix: Seq<char>) -> bool {
    suffix.is_suffix_of(whole)
}

/// A text without its ending.
pub open spec fn without_suffix(whole: Seq<char>, suffix: Seq<char>) -> Seq<char> {
    whole.take(whole.len() - suffix.len())
}

/// A model's identifier without the effort that it may end in.
pub open spec fn base_model(model: Seq<char>) -> Seq<char> {
    if ends_in(model, "-xhigh"@) {
        without_suffix(model, "-xhigh"@)
    } else if ends_in(model, "-high"@) {
        without_suffix(model, "-high"@)
    } else if ends_in(model, "-medium"@) {
        without_suffix(model, "-medium"@)
    } else if ends_in(model, "-low"@) {
        without_suffix(model, "-low"@)
    } else if ends_in(model, "-none"@) {
        without_suffix(model, "-none"@)
    } else {
        model
    }
}

/// The form in which a model's identifier is compared with names.
pub open spec fn normal_id(model: Seq<char>) -> Seq<char> {
    normal_name(base_model(model))
}

/// The efforts that a model's identifier may end in.
pub open spec fn is_effort(suffix: Seq<char>) -> bool {
    ||| suffix == "-xhigh"@
    ||| suffix == "-high"@
    ||| suffix == "-medium"@
    ||| suffix == "-low"@
    ||| suffix == "-none"@
}

/// The effort at the end of an identifier is not compared: a model has the same rates with each.
pub proof fn law_effort_is_ignored(model: Seq<char>, effort: Seq<char>)
    requires
        effort == "-xhigh"@ || effort == "-high"@ || effort == "-medium"@ || effort == "-low"@
            || effort == "-none"@,
    ensures
        base_model(model + effort) == model,
        normal_id(model + effort) == normal_name(model),
{
    let whole = model + effort;
    reveal_strlit("-xhigh");
    reveal_strlit("-high");
    reveal_strlit("-medium");
    reveal_strlit("-low");
    reveal_strlit("-none");
    assert(effort =~= whole.subrange(model.len() as int, whole.len() as int));
    assert(ends_in(whole, effort));
    assert forall|other: Seq<char>| is_effort(other) && #[trigger] ends_in(whole, other) implies other
        == effort by {
        assert(other.last() == whole.last());
        assert(effort.last() == whole.last());
        if other.len() >= 5 && effort.len() >= 5 {
            assert(other[other.len() - 5] == whole[whole.len() - 5]);
            assert(effort[effort.len() - 5] == whole[whole.len() - 5]);
        }
    }
    assert(without_suffix(whole, effort) =~= model);
}

/// An identifier that ends in no effort is compared as it is: nothing else is cut off.
pub proof fn law_other_endings_stay(model: Seq<char>)
    requires
        !"-xhigh"@.is_suffix_of(model),
        !"-high"@.is_suffix_of(model),
        !"-medium"@.is_suffix_of(model),
        !"-low"@.is_suffix_of(model),
        !"-none"@.is_suffix_of(model),
    ensures
        base_model(model) == model,
        normal_id(model) == normal_name(model),
{
}

fn strip_suffix(whole: &str, suffix: &str) -> (base: Option<String>)
    ensures
        match base {
            Some(left) => ends_in(whole@, suffix@) && left@ == without_suffix(whole@, suffix@),
            None => !ends_in(whole@, suffix@),
        },
{
    let chars = text::chars_of(whole);
    let ending = text::chars_of(suffix);
    if ending.len() > chars.len() {
        return None;
    }
    let cut: usize = chars.len() - ending.len();
    let mut index: usize = 0;
    while index < ending.len()
        invariant
            index <= ending.len() <= chars.len(),
            cut == chars.len() - ending.len(),
            chars@ == whole@,
            ending@ == suffix@,
            forall|i: int| 0 <= i < index ==> #[trigger] ending@[i] == chars@[cut + i],
        decreases ending.len() - index,
    {
        if ending[index] != chars[cut + index] {
            assert(whole@.subrange(cut as int, whole@.len() as int)[index as int] == whole@[cut
                + index]);
            return None;
        }
        index = index + 1;
    }
    assert(ending@ =~= chars@.subrange(cut as int, chars@.len() as int));
    assert(chars@.subrange(0, cut as int) =~= chars@.take(cut as int));
    Some(text::text_of(&chars, 0, cut))
}

/// Brings a model's identifier, without its effort, to the form in which names are compared.
pub fn normalized_model_id(model: &str) -> (normalized: String)
    ensures
        normalized@ == normal_id(model@),
{
    if let Some(base) = strip_suffix(model, "-xhigh") {
        return normalize_model_name(base.as_str());
    }
    if let Some(base) = strip_suffix(model, "-high") {
        return normalize_model_name(base.as_str());
    }
    if let Some(base) = strip_suffix(model, "-medium") {
        return normalize_model_name(base.as_str());
    }
    if let Some(base) = strip_suffix(model, "-low") {
        return normalize_model_name(base.as_str());
    }
    if let Some(base) = strip_suffix(model, "-none") {
        return normalize_model_name(base.as_str());
    }
    normalize_model_name(model)
}

/// The cells of a table's line; none where the line is not one of a table.
pub open spec fn cells_of(line: Seq<char>) -> Seq<Seq<char>> {
    let inner = text::trim(line, Edge::Space);
    if inner.len() > 0 && inner[0] == '|' && inner.last() == '|' {
        text::split(text::trim(inner, Edge::Only('|')), '|').map_values(
            |cell: Seq<char>| text::trim(cell, Edge::Space),
        )
    } else {
        Seq::empty()
    }
}

/// Cuts a table's line into its cells.
pub fn markdown_cells(line: &str) -> (cells: Vec<String>)
    ensures
        text::texts(cells@) == cells_of(line@),
{
    let inner = text::trimmed(line, Edge::Space);
    let chars = text::chars_of(inner.as_str());
    let mut cells: Vec<String> = Vec::new();
    if chars.len() == 0 || chars[0] != '|' || chars[chars.len() - 1] != '|' {
        assert(text::texts(cells@) =~= cells_of(line@));
        return cells;
    }
    let bare = text::trimmed(inner.as_str(), Edge::Only('|'));
    let parts = text::pieces(bare.as_str(), '|');
    let ghost all = cells_of(line@);
    let mut index: usize = 0;
    while index < parts.len()
        invariant
            index <= parts.len(),
            all == text::texts(parts@).map_values(
                |cell: Seq<char>| text::trim(cell, Edge::Space),
            ),
            text::texts(cells@) == all.take(index as int),
        decreases parts.len() - index,
    {
        let ghost before = cells@;
        let cell = text::trimmed(parts[index].as_str(), Edge::Space);
        cells.push(cell);
        assert(text::texts(cells@) =~= text::texts(before).push(cell@));
        assert(all[index as int] == cell@);
        assert(all.take(index + 1) =~= all.take(index as int).push(cell@));
        index = index + 1;
    }
    assert(all.take(index as int) =~= all);
    cells
}

/// The cell under a header; the last one where the header occurs more than once.
pub open spec fn field(
    headers: Seq<Seq<char>>,
    cells: Seq<Seq<char>>,
    name: Seq<char>,
) -> Option<Seq<char>>
    decreases headers.len(),
{
    if headers.len() == 0 || cells.len() == 0 {
        None
    } else if headers.len() > cells.len() {
        field(headers.take(cells.len() as int), cells, name)
    } else if headers.last() == name {
        Some(cells[headers.len() - 1])
    } else {
        field(headers.drop_last(), cells, name)
    }
}

fn find_field<'a>(headers: &Vec<String>, cells: &'a Vec<String>, name: &str) -> (found: Option<
    &'a String,
>)
    requires
        headers.len() == cells.len(),
    ensures
        field(text::texts(headers@), text::texts(cells@), name@) == (match found {
            Some(cell) => Some(cell@),
            None => None,
        }),
{
    let ghost heads = text::texts(headers@);
    let ghost values = text::texts(cells@);
    let mut left: usize = headers.len();
    assert(heads.take(left as int) =~= heads);
    while left > 0
        invariant
            left <= headers.len() == cells.len(),
            heads == text::texts(headers@),
            values == text::texts(cells@),
            field(heads, values, name@) == field(heads.take(left as int), values, name@),
        decreases left,
    {
        assert(heads.take(left as int).last() == headers@[left - 1]@);
        assert(heads.take(left as int).drop_last() =~= heads.take(left - 1));
        assert(values[left - 1] == cells@[left - 1]@);
        if text::same_text(headers[left - 1].as_str(), name) {
            return Some(&cells[left - 1]);
        }
        left = left - 1;
    }
    None
}

/// Whether a line of rates is for ordinary use: it names no tier, or the default one.
pub open spec fn default_tier(tier: Option<Seq<char>>) -> bool {
    match tier {
        Some(named) => named.len() == 0 || named == "Default"@,
        None => true,
    }
}

/// Whether a line of rates is for ordinary use.
pub fn is_default_tier(headers: &Vec<String>, cells: &Vec<String>) -> (ordinary: bool)
    requires
        headers.len() == cells.len(),
    ensures
        ordinary == default_tier(field(text::texts(headers@), text::texts(cells@), "Tier"@)),
{
    match find_field(headers, cells, "Tier") {
        Some(tier) => tier.as_str().is_empty() || text::same_text(tier.as_str(), "Default"),
        None => true,
    }
}

/// The text of a rate without the blanks around it and the dollar signs before it.
pub open spec fn bare_rate(cell: Seq<char>) -> Seq<char> {
    text::trim_start(text::trim(cell, Edge::Space), Edge::Only('$'))
}

/// The text of the rate under a header.
pub open spec fn field_rate(
    headers: Seq<Seq<char>>,
    cells: Seq<Seq<char>>,
    name: Seq<char>,
) -> Option<Seq<char>> {
    match field(headers, cells, name) {
        Some(cell) => Some(bare_rate(cell)),
        None => None,
    }
}

/// The rates of a line as it spells them.
#[derive(Debug)]
pub struct Quote {
    /// Input tokens.
    pub input: Option<String>,
    /// Tokens read from the cache.
    pub cache_read: Option<String>,
    /// Tokens written to the cache.
    pub cache_write: Option<String>,
    /// Output tokens.
    pub output: Option<String>,
}

/// The contents of a [`Quote`].
#[verifier::ext_equal]
pub struct QuoteView {
    /// Input tokens.
    pub input: Option<Seq<char>>,
    /// Tokens read from the cache.
    pub cache_read: Option<Seq<char>>,
    /// Tokens written to the cache.
    pub cache_write: Option<Seq<char>>,
    /// Output tokens.
    pub output: Option<Seq<char>>,
}

impl View for Quote {
    type V = QuoteView;

    open spec fn view(&self) -> QuoteView {
        QuoteView {
            input: json::text_view(self.input),
            cache_read: json::text_view(self.cache_read),
            cache_write: json::text_view(self.cache_write),
            output: json::text_view(self.output),
        }
    }
}

/// The contents of a list of quotes.
pub open spec fn quote_views(quotes: Seq<Quote>) -> Seq<QuoteView> {
    quotes.map_values(|quote: Quote| quote@)
}

/// Takes the text of the rate in the column of that name.
fn rate_text(headers: &Vec<String>, cells: &Vec<String>, name: &str) -> (rate: Option<String>)
    requires
        headers.len() == cells.len(),
    ensures
        json::text_view(rate) == field_rate(text::texts(headers@), text::texts(cells@), name@),
{
    match find_field(headers, cells, name) {
        Some(cell) => {
            let inner = text::trimmed(cell.as_str(), Edge::Space);
            Some(text::trimmed_start(inner.as_str(), Edge::Only('$')))
        },
        None => None,
    }
}

/// Whether a line of cells heads a table of models.
pub open spec fn is_heading(cells: Seq<Seq<char>>) -> bool {
    cells.contains("Model"@) && cells.contains("Input"@)
}

/// The quote of a line, where the line is one for ordinary use of the model.
pub open spec fn line_quote(
    headers: Seq<Seq<char>>,
    cells: Seq<Seq<char>>,
    wanted: Seq<char>,
) -> Option<QuoteView> {
    if headers.len() == 0 || cells.len() != headers.len() {
        None
    } else {
        match field(headers, cells, "Model"@) {
            Some(name) => if normal_name(name) == wanted && default_tier(
                field(headers, cells, "Tier"@),
            ) {
                Some(
                    QuoteView {
                        input: field_rate(headers, cells, "Input"@),
                        cache_read: field_rate(headers, cells, "Cached input"@),
                        cache_write: field_rate(headers, cells, "Cache write"@),
                        output: field_rate(headers, cells, "Output"@),
                    },
                )
            } else {
                None
            },
            None => None,
        }
    }
}

/// The headers in force below some lines: the cells of the last line among them that heads a
/// table of models.
pub open spec fn headers_below(lines: Seq<Seq<char>>) -> Seq<Seq<char>>
    decreases lines.len(),
{
    if lines.len() == 0 {
        Seq::empty()
    } else if is_heading(cells_of(lines.last())) {
        cells_of(lines.last())
    } else {
        headers_below(lines.drop_last())
    }
}

/// The quotes that some lines hold for a model, in their order.
pub open spec fn quotes_in(lines: Seq<Seq<char>>, wanted: Seq<char>) -> Seq<QuoteView>
    decreases lines.len(),
{
    if lines.len() == 0 {
        Seq::empty()
    } else {
        let before = quotes_in(lines.drop_last(), wanted);
        let cells = cells_of(lines.last());
        if is_heading(cells) {
            before
        } else {
            match line_quote(headers_below(lines.drop_last()), cells, wanted) {
                Some(quote) => before.push(quote),
                None => before,
            }
        }
    }
}

fn has_cell(cells: &Vec<String>, name: &str) -> (found: bool)
    ensures
        found == text::texts(cells@).contains(name@),
{
    let ghost values = text::texts(cells@);
    let mut index: usize = 0;
    while index < cells.len()
        invariant
            index <= cells.len(),
            values == text::texts(cells@),
            forall|i: int| 0 <= i < index ==> #[trigger] values[i] != name@,
        decreases cells.len() - index,
    {
        assert(values[index as int] == cells@[index as int]@);
        if text::same_text(cells[index].as_str(), name) {
            assert(values.contains(name@));
            return true;
        }
        index = index + 1;
    }
    false
}

fn quote_of(headers: &Vec<String>, cells: &Vec<String>, wanted: &str) -> (quote: Option<Quote>)
    ensures
        line_quote(text::texts(headers@), text::texts(cells@), wanted@) == (match quote {
            Some(given) => Some(given@),
            None => None,
        }),
{
    if headers.len() == 0 || cells.len() != headers.len() {
        return None;
    }
    match find_field(headers, cells, "Model") {
        Some(name) => {
            let normalized = normalize_model_name(name.as_str());
            if text::same_text(normalized.as_str(), wanted) && is_default_tier(headers, cells) {
                Some(
                    Quote {
                        input: rate_text(headers, cells, "Input"),
                        cache_read: rate_text(headers, cells, "Cached input"),
                        cache_write: rate_text(headers, cells, "Cache write"),
                        output: rate_text(headers, cells, "Output"),
                    },
                )
            } else {
                None
            }
        },
        None => None,
    }
}

/// Collects the quotes that the page holds for a model.
pub fn model_quotes(markdown: &str, model: &str) -> (quotes: Vec<Quote>)
    ensures
        quote_views(quotes@) == quotes_in(text::lines(markdown@), normal_id(model@)),
{
    let wanted = normalized_model_id(model);
    let lines = text::lines_of(markdown);
    let ghost all = text::lines(markdown@);
    let mut headers: Vec<String> = Vec::new();
    let mut quotes: Vec<Quote> = Vec::new();
    let mut index: usize = 0;
    assert(text::texts(headers@) =~= headers_below(all.take(0)));
    assert(quote_views(quotes@) =~= quotes_in(all.take(0), wanted@));
    while index < lines.len()
        invariant
            index <= lines.len(),
            text::texts(lines@) == all,
            text::texts(headers@) == headers_below(all.take(index as int)),
            quote_views(quotes@) == quotes_in(all.take(index as int), wanted@),
        decreases lines.len() - index,
    {
        assert(all.take(index + 1).last() == lines@[index as int]@);
        assert(all.take(index + 1).drop_last() =~= all.take(index as int));
        let ghost before = quotes@;
        let cells = markdown_cells(lines[index].as_str());
        if has_cell(&cells, "Model") && has_cell(&cells, "Input") {
            headers = cells;
        } else if let Some(quote) = quote_of(&headers, &cells, wanted.as_str()) {
            quotes.push(quote);
            assert(quote_views(quotes@) =~= quote_views(before).push(quote@));
        }
        index = index + 1;
    }
    assert(all.take(index as int) =~= all);
    quotes
}

/// The rate that a text spells.
pub open spec fn spelled_rate(spelled: Option<Seq<char>>) -> Option<Binary64> {
    match spelled {
        Some(given) => match parsed_rate(given) {
            Some(bits) => pricing::usable(Some(Binary64 { bits })),
            None => None,
        },
        None => None,
    }
}

/// Reads the rate that a text spells.
pub fn markdown_rate(spelled: &Option<String>) -> (rate: Option<Binary64>)
    ensures
        rate == spelled_rate(json::text_view(*spelled)),
{
    match spelled {
        Some(given) => match parse_rate(given.as_str()) {
            Some(bits) => pricing::valid_rate(Some(Binary64::from_bits(bits))),
            None => None,
        },
        None => None,
    }
}

/// The rates that a quote spells.
pub open spec fn quote_rates(quote: QuoteView) -> ModelRates {
    ModelRates {
        input: spelled_rate(quote.input),
        cache_read: spelled_rate(quote.cache_read),
        cache_write: spelled_rate(quote.cache_write),
        output: spelled_rate(quote.output),
    }
}

/// The first of several rates that gives both the input and the output rate.
pub open spec fn first_complete(offers: Seq<ModelRates>) -> Option<ModelRates>
    decreases offers.len(),
{
    if offers.len() == 0 {
        None
    } else if offers[0].input is Some && offers[0].output is Some {
        Some(offers[0])
    } else {
        first_complete(offers.drop_first())
    }
}

/// Picks the first of several rates that gives both the input and the output rate.
pub fn complete_rates(offers: &Vec<ModelRates>) -> (rates: Option<ModelRates>)
    ensures
        rates == first_complete(offers@),
{
    let mut index: usize = 0;
    assert(offers@.skip(0) =~= offers@);
    while index < offers.len()
        invariant
            index <= offers.len(),
            first_complete(offers@) == first_complete(offers@.skip(index as int)),
        decreases offers.len() - index,
    {
        assert(offers@.skip(index as int)[0] == offers@[index as int]);
        assert(offers@.skip(index as int).drop_first() =~= offers@.skip(index + 1));
        let offer = offers[index];
        if offer.input.is_some() && offer.output.is_some() {
            return Some(offer);
        }
        index = index + 1;
    }
    None
}

/// The rates that the page gives a model.
pub open spec fn page_rates(page: Seq<char>, model: Seq<char>) -> Option<ModelRates> {
    first_complete(
        quotes_in(text::lines(page), normal_id(model)).map_values(
            |quote: QuoteView| quote_rates(quote),
        ),
    )
}

/// Finds the rates that the page gives a model.
pub fn github_model_pricing(markdown: &str, model: &str) -> (rates: Option<ModelRates>)
    ensures
        rates == page_rates(markdown@, model@),
{
    let quotes = model_quotes(markdown, model);
    let ghost all = quotes_in(text::lines(markdown@), normal_id(model@)).map_values(
        |quote: QuoteView| quote_rates(quote),
    );
    let mut offers: Vec<ModelRates> = Vec::new();
    let mut index: usize = 0;
    while index < quotes.len()
        invariant
            index <= quotes.len(),
            all == quote_views(quotes@).map_values(|quote: QuoteView| quote_rates(quote)),
            offers@ == all.take(index as int),
        decreases quotes.len() - index,
    {
        let quote = &quotes[index];
        let rates = ModelRates {
            input: markdown_rate(&quote.input),
            cache_read: markdown_rate(&quote.cache_read),
            cache_write: markdown_rate(&quote.cache_write),
            output: markdown_rate(&quote.output),
        };
        assert(all[index as int] == rates);
        offers.push(rates);
        assert(all.take(index + 1) =~= all.take(index as int).push(rates));
        index = index + 1;
    }
    assert(all.take(index as int) =~= all);
    complete_rates(&offers)
}

/// Names are lowered character by character.
pub proof fn law_lowered(left: Seq<char>, right: Seq<char>, c: char)
    ensures
        lowered(Seq::empty()).len() == 0,
        lowered(seq![c]) == text::lowercase(c),
        lowered(left + right) == lowered(left) + lowered(right),
    decreases right.len(),
{
    assert(seq![c].drop_last() =~= Seq::<char>::empty());
    assert(lowered(seq![c].drop_last()) =~= Seq::<char>::empty());
    assert(lowered(seq![c]) =~= text::lowercase(c));
    if right.len() == 0 {
        assert(left + right =~= left);
        assert(lowered(left + right) =~= lowered(left) + lowered(right));
    } else {
        law_lowered(left, right.drop_last(), c);
        assert((left + right).drop_last() =~= left + right.drop_last());
        assert((left + right).last() == right.last());
        assert(lowered(left + right) =~= lowered(left) + lowered(right));
    }
}

proof fn lemma_hyphenated_join(left: Seq<char>, right: Seq<char>)
    requires
        right.len() > 0,
        is_alphanumeric(right[0]),
    ensures
        hyphenated(left + right) == hyphenated(left) + hyphenated(right),
        hyphenated(right).len() > 0,
        hyphenated(right)[0] == right[0],
    decreases right.len(),
{
    let whole = left + right;
    assert(whole.drop_last() =~= left + right.drop_last());
    assert(whole.last() == right.last());
    if right.len() == 1 {
        assert(right.drop_last() =~= Seq::<char>::empty());
        assert(hyphenated(right.drop_last()) =~= Seq::<char>::empty());
        assert(whole.drop_last() =~= left);
        assert(hyphenated(whole) =~= hyphenated(left) + hyphenated(right));
    } else {
        lemma_hyphenated_join(left, right.drop_last());
        assert(hyphenated(whole) =~= hyphenated(left) + hyphenated(right));
    }
}

proof fn lemma_hyphenated_apart(left: Seq<char>, between: Seq<char>)
    requires
        between.len() > 0,
        forall|i: int| 0 <= i < between.len() ==> !is_alphanumeric(#[trigger] between[i]),
    ensures
        ({
            let before = hyphenated(left);
            hyphenated(left + between) == (if before.len() > 0 && before.last() != '-' {
                before.push('-')
            } else {
                before
            })
        }),
    decreases between.len(),
{
    let whole = left + between;
    assert(whole.drop_last() =~= left + between.drop_last());
    assert(whole.last() == between.last());
    assert(between.last() == between[between.len() - 1]);
    if between.len() == 1 {
        assert(whole.drop_last() =~= left);
    } else {
        lemma_hyphenated_apart(left, between.drop_last());
    }
}

proof fn lemma_trim_end_behind(front: Seq<char>, back: Seq<char>)
    requires
        text::trim_end(back, Edge::Only('-')).len() > 0,
    ensures
        text::trim_end(front + back, Edge::Only('-')) == front + text::trim_end(
            back,
            Edge::Only('-'),
        ),
    decreases back.len(),
{
    assert((front + back).last() == back.last());
    if back.last() == '-' {
        assert((front + back).drop_last() =~= front + back.drop_last());
        lemma_trim_end_behind(front, back.drop_last());
    }
}

proof fn lemma_trim_end_full(back: Seq<char>)
    requires
        back.len() > 0,
        back[0] != '-',
    ensures
        text::trim_end(back, Edge::Only('-')).len() > 0,
    decreases back.len(),
{
    if back.last() == '-' {
        lemma_trim_end_full(back.drop_last());
    }
}

/// Whatever stands between letters and digits becomes one hyphen; what follows them all is dropped,
/// and letters and digits that stand side by side stay side by side.
pub proof fn law_normal_name_joints(left: Seq<char>, between: Seq<char>, right: Seq<char>)
    requires
        lowered(right).len() > 0,
        ('a' <= lowered(right)[0] && lowered(right)[0] <= 'z') || ('A' <= lowered(right)[0]
            && lowered(right)[0] <= 'Z') || ('0' <= lowered(right)[0] && lowered(right)[0] <= '9'),
        lowered(between).len() > 0,
        forall|i: int|
            0 <= i < lowered(between).len() ==> {
                let c = #[trigger] lowered(between)[i];
                !('a' <= c && c <= 'z') && !('A' <= c && c <= 'Z') && !('0' <= c && c <= '9')
            },
    ensures
        normal_name(left + between) == normal_name(left),
        normal_name(left).len() > 0 ==> normal_name(left + between + right) == normal_name(
            left,
        ).push('-') + normal_name(right),
        normal_name(left).len() == 0 ==> normal_name(left + between + right) == normal_name(right),
        lowered(left).len() > 0 && (('a' <= lowered(left).last() && lowered(left).last() <= 'z') || (
        'A' <= lowered(left).last() && lowered(left).last() <= 'Z') || ('0' <= lowered(left).last()
            && lowered(left).last() <= '9')) ==> normal_name(left + right) == normal_name(left)
            + normal_name(right),
{
    let dash = Edge::Only('-');
    let (x, s, y) = (lowered(left), lowered(between), lowered(right));
    let h = hyphenated(x);
    let hy = hyphenated(y);
    law_lowered(left, between, 'a');
    law_lowered(left + between, right, 'a');
    law_lowered(left, right, 'a');
    lemma_hyphenated(x);
    lemma_hyphenated_apart(x, s);
    lemma_hyphenated_join(x + s, y);
    lemma_hyphenated_join(x, y);
    lemma_trim_end_full(hy);
    let hs = hyphenated(x + s);
    lemma_trim_end_behind(hs, hy);
    lemma_trim_end_behind(h, hy);
    if h.len() > 0 {
        if h.last() == '-' {
            assert(h[h.len() - 1] == '-');
            assert(h.len() > 1);
            assert(h[h.len() - 2] != '-');
            assert(h.drop_last().last() == h[h.len() - 2]);
            assert(text::trim_end(h.drop_last(), dash) == h.drop_last());
            assert(text::trim_end(h, dash) == h.drop_last());
            assert(h.drop_last().push('-') =~= h);
        } else {
            assert(text::trim_end(h, dash) == h);
            assert(h.push('-').drop_last() =~= h);
            assert(text::trim_end(h.push('-'), dash) == h);
        }
        assert(hs == normal_name(left).push('-'));
    } else {
        assert(hs + hy =~= hy);
        assert(hs.len() == 0);
    }
    if x.len() > 0 && is_alphanumeric(x.last()) {
        assert(h.last() == x.last());
        assert(h + text::trim_end(hy, dash) == normal_name(left) + normal_name(right));
    }
}

proof fn lemma_trim_kept(line: Seq<char>, edge: Edge)
    requires
        line.len() > 0,
        !edge.covers(line[0]),
        !edge.covers(line.last()),
    ensures
        text::trim(line, edge) == line,
{
}

proof fn lemma_split_cells(cells: Seq<Seq<char>>)
    requires
        cells.len() > 0,
        forall|i: int| 0 <= i < cells.len() ==> !(#[trigger] cells[i]).contains('|'),
    ensures
        text::split(text::joined(cells, seq!['|']), '|') == cells,
    decreases cells.len(),
{
    let bar = seq!['|'];
    assert(!cells[0].contains('|'));
    if cells.len() == 1 {
        text::law_split_step(cells[0], Seq::empty(), '|');
        assert(cells =~= seq![cells[0]]);
    } else {
        let rest = cells.drop_first();
        assert forall|i: int| 0 <= i < rest.len() implies !(#[trigger] rest[i]).contains('|') by {
            assert(rest[i] == cells[i + 1]);
        }
        lemma_split_cells(rest);
        text::law_joined(seq![cells[0]], rest, bar);
        assert(cells =~= seq![cells[0]] + rest);
        assert(text::joined(cells, bar) =~= cells[0].push('|') + text::joined(rest, bar));
        text::law_split_step(cells[0], text::joined(rest, bar), '|');
    }
}

proof fn lemma_joined_ends(cells: Seq<Seq<char>>)
    requires
        cells.len() > 0,
        cells[0].len() > 0,
        cells.last().len() > 0,
    ensures
        text::joined(cells, seq!['|']).len() > 0,
        text::joined(cells, seq!['|'])[0] == cells[0][0],
        text::joined(cells, seq!['|']).last() == cells.last().last(),
{
    let bar = seq!['|'];
    if cells.len() > 1 {
        let front = cells.drop_last();
        let rest = cells.drop_first();
        text::law_joined(seq![cells[0]], rest, bar);
        assert(cells =~= seq![cells[0]] + rest);
        assert(text::joined(cells, bar)[0] == cells[0][0]);
    }
}

/// The cells of a line are what stands between its bars, each without the white space around it.
pub proof fn law_cells_between_bars(drawn: Seq<Seq<char>>)
    requires
        drawn.len() > 0,
        drawn[0].len() > 0,
        drawn.last().len() > 0,
        forall|i: int| 0 <= i < drawn.len() ==> !(#[trigger] drawn[i]).contains('|'),
    ensures
        ({
            let read = cells_of(seq!['|'] + text::joined(drawn, seq!['|']) + seq!['|']);
            &&& read.len() == drawn.len()
            &&& forall|i: int|
                0 <= i < drawn.len() ==> #[trigger] read[i] == text::trim(drawn[i], Edge::Space)
        }),
{
    let inner = text::joined(drawn, seq!['|']);
    let line = seq!['|'] + inner + seq!['|'];
    let bar = Edge::Only('|');
    lemma_split_cells(drawn);
    lemma_joined_ends(drawn);
    assert(!drawn[0].contains('|'));
    assert(!drawn[drawn.len() - 1].contains('|'));
    assert(drawn[0].contains(drawn[0][0]));
    assert(drawn.last().contains(drawn.last().last())) by {
        assert(drawn.last()[drawn.last().len() - 1] == drawn.last().last());
    }
    lemma_trim_kept(line, Edge::Space);
    assert(line.drop_first() =~= inner + seq!['|']);
    assert(text::trim_start(line, bar) == inner + seq!['|']) by {
        assert((inner + seq!['|'])[0] == inner[0]);
        reveal_with_fuel(text::trim_start, 3);
    }
    assert((inner + seq!['|']).drop_last() =~= inner);
    assert(text::trim_end(inner + seq!['|'], bar) == inner) by {
        reveal_with_fuel(text::trim_end, 3);
    }
}

/// A line that was made of cells, each between bars and without blanks of its own, gives these cells
/// back.
pub proof fn law_cells_read_back(cells: Seq<Seq<char>>)
    requires
        cells.len() > 0,
        cells[0].len() > 0,
        cells.last().len() > 0,
        forall|i: int|
            0 <= i < cells.len() ==> !(#[trigger] cells[i]).contains('|') && (cells[i].len() > 0
                ==> !text::is_space(cells[i][0]) && !text::is_space(cells[i].last())),
    ensures
        cells_of(seq!['|'] + text::joined(cells, seq!['|']) + seq!['|']) == cells,
{
    let read = cells_of(seq!['|'] + text::joined(cells, seq!['|']) + seq!['|']);
    law_cells_between_bars(cells);
    assert forall|i: int| 0 <= i < cells.len() implies #[trigger] read[i] == cells[i] by {
        assert(!cells[i].contains('|'));
        if cells[i].len() > 0 {
            lemma_trim_kept(cells[i], Edge::Space);
        }
    }
    assert(read =~= cells);
}

proof fn lemma_trim_start_front(front: Seq<char>, line: Seq<char>, edge: Edge)
    requires
        forall|i: int| 0 <= i < front.len() ==> edge.covers(#[trigger] front[i]),
    ensures
        text::trim_start(front + line, edge) == text::trim_start(line, edge),
    decreases front.len(),
{
    if front.len() > 0 {
        assert((front + line).drop_first() =~= front.drop_first() + line);
        assert(edge.covers(front[0]));
        assert forall|i: int| 0 <= i < front.drop_first().len() implies edge.covers(
            #[trigger] front.drop_first()[i],
        ) by {
            assert(front.drop_first()[i] == front[i + 1]);
        }
        lemma_trim_start_front(front.drop_first(), line, edge);
    } else {
        assert(front + line =~= line);
    }
}

proof fn lemma_trim_end_back(line: Seq<char>, back: Seq<char>, edge: Edge)
    requires
        forall|i: int| 0 <= i < back.len() ==> edge.covers(#[trigger] back[i]),
    ensures
        text::trim_end(line + back, edge) == text::trim_end(line, edge),
    decreases back.len(),
{
    if back.len() > 0 {
        assert((line + back).drop_last() =~= line + back.drop_last());
        assert((line + back).last() == back[back.len() - 1]);
        lemma_trim_end_back(line, back.drop_last(), edge);
    } else {
        assert(line + back =~= line);
    }
}

proof fn lemma_trim_start_over(line: Seq<char>, back: Seq<char>, edge: Edge)
    ensures
        text::trim_start(line, edge).len() > 0 ==> text::trim_start(line + back, edge)
            == text::trim_start(line, edge) + back,
        text::trim_start(line, edge).len() == 0 ==> text::trim_start(line + back, edge)
            == text::trim_start(back, edge),
    decreases line.len(),
{
    if line.len() > 0 {
        assert((line + back)[0] == line[0]);
        assert((line + back).drop_first() =~= line.drop_first() + back);
        if edge.covers(line[0]) {
            lemma_trim_start_over(line.drop_first(), back, edge);
        }
    } else {
        assert(line + back =~= back);
    }
}

/// White space around a line does not matter to its cells.
pub proof fn law_blanks_around_lines(front: Seq<char>, line: Seq<char>, back: Seq<char>)
    requires
        forall|i: int| 0 <= i < front.len() ==> text::is_space(#[trigger] front[i]),
        forall|i: int| 0 <= i < back.len() ==> text::is_space(#[trigger] back[i]),
    ensures
        cells_of(front + line + back) == cells_of(line),
{
    let blank = Edge::Space;
    assert forall|i: int| 0 <= i < front.len() implies blank.covers(#[trigger] front[i]) by {
        assert(text::is_space(front[i]));
    }
    assert forall|i: int| 0 <= i < back.len() implies blank.covers(#[trigger] back[i]) by {
        assert(text::is_space(back[i]));
    }
    assert(front + line + back =~= front + (line + back));
    lemma_trim_start_front(front, line + back, blank);
    lemma_trim_start_over(line, back, blank);
    if text::trim_start(line, blank).len() > 0 {
        lemma_trim_end_back(text::trim_start(line, blank), back, blank);
    } else {
        assert(back + Seq::<char>::empty() =~= back);
        lemma_trim_start_front(back, Seq::empty(), blank);
    }
}

/// A line that does not both start and end with a bar has no cells.
pub proof fn law_lines_without_bars(line: Seq<char>)
    requires
        line.len() > 0,
        !text::is_space(line[0]),
        !text::is_space(line.last()),
        line[0] != '|' || line.last() != '|',
    ensures
        cells_of(line).len() == 0,
{
    lemma_trim_kept(line, Edge::Space);
}

/// A field is the cell under the last header of that name; where no header has the name there is
/// none.
pub proof fn law_fields(
    headers: Seq<Seq<char>>,
    cells: Seq<Seq<char>>,
    name: Seq<char>,
    column: int,
)
    requires
        headers.len() == cells.len(),
    ensures
        field(headers, cells, name) is Some <==> headers.contains(name),
        0 <= column < headers.len() && headers[column] == name && (forall|i: int|
            column < i < headers.len() ==> #[trigger] headers[i] != name) ==> field(
            headers,
            cells,
            name,
        ) == Some(cells[column]),
{
    lemma_fields(headers, cells, name, column);
}

proof fn lemma_fields(
    headers: Seq<Seq<char>>,
    cells: Seq<Seq<char>>,
    name: Seq<char>,
    column: int,
)
    requires
        headers.len() <= cells.len(),
    ensures
        field(headers, cells, name) is Some <==> headers.contains(name),
        0 <= column < headers.len() && headers[column] == name && (forall|i: int|
            column < i < headers.len() ==> #[trigger] headers[i] != name) ==> field(
            headers,
            cells,
            name,
        ) == Some(cells[column]),
    decreases headers.len(),
{
    if headers.len() > 0 {
        let shorter = headers.drop_last();
        lemma_fields(shorter, cells, name, column);
        assert(headers[headers.len() - 1] == headers.last());
        if shorter.contains(name) {
            let i = choose|i: int| 0 <= i < shorter.len() && shorter[i] == name;
            assert(headers[i] == name);
        }
        if headers.contains(name) && headers.last() != name {
            let i = choose|i: int| 0 <= i < headers.len() && headers[i] == name;
            assert(shorter[i] == name);
        }
        if 0 <= column < headers.len() - 1 {
            assert(shorter[column] == headers[column]);
            assert(forall|i: int| 0 <= i < shorter.len() ==> #[trigger] shorter[i] == headers[i]);
        }
    }
}

/// A rate is bared of the blanks around it and of all dollar signs before it, and of nothing else.
pub proof fn law_bare_rates(
    front: Seq<char>,
    signs: Seq<char>,
    rate: Seq<char>,
    back: Seq<char>,
)
    requires
        forall|i: int| 0 <= i < front.len() ==> text::is_space(#[trigger] front[i]),
        forall|i: int| 0 <= i < back.len() ==> text::is_space(#[trigger] back[i]),
        forall|i: int| 0 <= i < signs.len() ==> #[trigger] signs[i] == '$',
        rate.len() > 0,
        rate[0] != '$',
        !text::is_space(rate.last()),
        signs.len() > 0 || !text::is_space(rate[0]),
    ensures
        bare_rate(front + (signs + rate) + back) == rate,
{
    let blank = Edge::Space;
    let middle = signs + rate;
    assert forall|i: int| 0 <= i < front.len() implies blank.covers(#[trigger] front[i]) by {
        assert(text::is_space(front[i]));
    }
    assert forall|i: int| 0 <= i < back.len() implies blank.covers(#[trigger] back[i]) by {
        assert(text::is_space(back[i]));
    }
    assert(front + middle + back =~= front + (middle + back));
    lemma_trim_start_front(front, middle + back, blank);
    lemma_trim_start_over(middle, back, blank);
    if signs.len() > 0 {
        assert(middle[0] == signs[0]);
    } else {
        assert(middle[0] == rate[0]);
    }
    assert(middle.last() == rate.last());
    assert(text::trim_start(middle, blank) == middle);
    lemma_trim_end_back(middle, back, blank);
    assert(text::trim_end(middle, blank) == middle);
    lemma_trim_start_front(signs, rate, Edge::Only('$'));
}

/// A line counts for ordinary use where it has no tier, an empty one, or the default one.
pub proof fn law_default_tiers(tier: Seq<char>)
    ensures
        default_tier(None),
        default_tier(Some(tier)) <==> tier.len() == 0 || tier == "Default"@,
{
}

/// A text spells the rate that it parses to, where that is finite and not below zero.
pub proof fn law_spelled_rates(spelled: Seq<char>)
    ensures
        spelled_rate(None) is None,
        match parsed_rate(spelled) {
            None => spelled_rate(Some(spelled)) is None,
            Some(bits) => {
                &&& spelled_rate(Some(spelled)) is Some <==> bits < 0x7ff0_0000_0000_0000 || bits
                    == 0x8000_0000_0000_0000
                &&& spelled_rate(Some(spelled)) matches Some(rate) ==> rate.bits == bits
            },
        },
{
}

/// Of several offers the first counts that gives both the input and the output rate.
pub proof fn law_first_complete(offers: Seq<ModelRates>)
    ensures
        match first_complete(offers) {
            Some(rates) => exists|i: int|
                0 <= i < offers.len() && #[trigger] offers[i] == rates && rates.input is Some
                    && rates.output is Some && (forall|j: int|
                    0 <= j < i ==> (#[trigger] offers[j]).input is None || offers[j].output is None),
            None => forall|j: int|
                0 <= j < offers.len() ==> (#[trigger] offers[j]).input is None || offers[j].output
                    is None,
        },
    decreases offers.len(),
{
    if offers.len() > 0 {
        if offers[0].input is Some && offers[0].output is Some {
            assert(offers[0] == first_complete(offers)->0);
        } else {
            let rest = offers.drop_first();
            law_first_complete(rest);
            match first_complete(rest) {
                Some(rates) => {
                    let i = choose|i: int|
                        0 <= i < rest.len() && #[trigger] rest[i] == rates && rates.input is Some
                            && rates.output is Some && (forall|j: int|
                            0 <= j < i ==> (#[trigger] rest[j]).input is None || rest[j].output
                                is None);
                    assert(offers[i + 1] == rates);
                    assert forall|j: int| 0 <= j < i + 1 implies (#[trigger] offers[j]).input
                        is None || offers[j].output is None by {
                        if j > 0 {
                            assert(rest[j - 1] == offers[j]);
                        }
                    }
                },
                None => {
                    assert forall|j: int| 0 <= j < offers.len() implies (#[trigger] offers[j]).input
                        is None || offers[j].output is None by {
                        if j > 0 {
                            assert(rest[j - 1] == offers[j]);
                        }
                    }
                },
            }
        }
    }
}

proof fn lemma_headers_below(lines: Seq<Seq<char>>, heading: int)
    requires
        0 <= heading < lines.len(),
        is_heading(cells_of(lines[heading])),
        forall|k: int| heading < k < lines.len() ==> !is_heading(cells_of(#[trigger] lines[k])),
    ensures
        headers_below(lines) == cells_of(lines[heading]),
    decreases lines.len(),
{
    if heading < lines.len() - 1 {
        let shorter = lines.drop_last();
        assert(lines[lines.len() - 1] == lines.last());
        assert forall|k: int| heading < k < shorter.len() implies !is_heading(
            cells_of(#[trigger] shorter[k]),
        ) by {
            assert(shorter[k] == lines[k]);
        }
        lemma_headers_below(shorter, heading);
    }
}

proof fn lemma_some_heading(lines: Seq<Seq<char>>)
    requires
        headers_below(lines).len() > 0,
    ensures
        exists|heading: int|
            0 <= heading < lines.len() && is_heading(cells_of(#[trigger] lines[heading]))
                && headers_below(lines) == cells_of(lines[heading]) && (forall|k: int|
                heading < k < lines.len() ==> !is_heading(cells_of(#[trigger] lines[k]))),
    decreases lines.len(),
{
    if is_heading(cells_of(lines.last())) {
        assert(is_heading(cells_of(lines[lines.len() - 1])));
    } else {
        let shorter = lines.drop_last();
        lemma_some_heading(shorter);
        let heading = choose|heading: int|
            0 <= heading < shorter.len() && is_heading(cells_of(#[trigger] shorter[heading]))
                && headers_below(shorter) == cells_of(shorter[heading]) && (forall|k: int|
                heading < k < shorter.len() ==> !is_heading(cells_of(#[trigger] shorter[k])));
        assert(lines[heading] == shorter[heading]);
        assert forall|k: int| heading < k < lines.len() implies !is_heading(
            cells_of(#[trigger] lines[k]),
        ) by {
            if k < shorter.len() {
                assert(shorter[k] == lines[k]);
            }
        }
    }
}

spec fn quote_at(lines: Seq<Seq<char>>, row: int, wanted: Seq<char>) -> Option<QuoteView> {
    if is_heading(cells_of(lines[row])) {
        None
    } else {
        line_quote(headers_below(lines.take(row)), cells_of(lines[row]), wanted)
    }
}

spec fn quoting_rows(lines: Seq<Seq<char>>, wanted: Seq<char>) -> Seq<int>
    decreases lines.len(),
{
    if lines.len() == 0 {
        Seq::empty()
    } else {
        let before = quoting_rows(lines.drop_last(), wanted);
        if quote_at(lines, lines.len() - 1, wanted) is Some {
            before.push(lines.len() - 1)
        } else {
            before
        }
    }
}

proof fn lemma_quoting_rows(lines: Seq<Seq<char>>, wanted: Seq<char>)
    ensures
        quoting_rows(lines, wanted).len() == quotes_in(lines, wanted).len(),
        forall|i: int|
            0 <= i < quoting_rows(lines, wanted).len() ==> {
                let row = #[trigger] quoting_rows(lines, wanted)[i];
                0 <= row < lines.len() && quote_at(lines, row, wanted) == Some(
                    quotes_in(lines, wanted)[i],
                )
            },
        forall|i: int, j: int|
            0 <= i < j < quoting_rows(lines, wanted).len() ==> #[trigger] quoting_rows(
                lines,
                wanted,
            )[i] < #[trigger] quoting_rows(lines, wanted)[j],
        forall|row: int|
            0 <= row < lines.len() && #[trigger] quote_at(lines, row, wanted) is Some
                ==> quoting_rows(lines, wanted).contains(row),
    decreases lines.len(),
{
    if lines.len() > 0 {
        let shorter = lines.drop_last();
        let rows = quoting_rows(lines, wanted);
        let before = quoting_rows(shorter, wanted);
        let last = lines.len() - 1;
        lemma_quoting_rows(shorter, wanted);
        assert(lines.take(last) =~= shorter);
        assert forall|row: int| 0 <= row < last implies #[trigger] quote_at(lines, row, wanted)
            == quote_at(shorter, row, wanted) by {
            assert(shorter.take(row) =~= lines.take(row));
            assert(shorter[row] == lines[row]);
        }
        assert forall|i: int| 0 <= i < rows.len() implies {
            let row = #[trigger] rows[i];
            0 <= row < lines.len() && quote_at(lines, row, wanted) == Some(
                quotes_in(lines, wanted)[i],
            )
        } by {
            if i < before.len() {
                assert(rows[i] == before[i]);
            }
        }
        assert forall|i: int, j: int| 0 <= i < j < rows.len() implies #[trigger] rows[i]
            < #[trigger] rows[j] by {
            assert(rows[i] == before[i]);
            if j < before.len() {
                assert(rows[j] == before[j]);
            }
        }
        assert forall|row: int|
            0 <= row < lines.len() && #[trigger] quote_at(
                lines,
                row,
                wanted,
            ) is Some implies rows.contains(row) by {
            if row < last {
                assert(quote_at(shorter, row, wanted) is Some);
                let i = choose|i: int| 0 <= i < before.len() && before[i] == row;
                assert(rows[i] == row);
            } else {
                assert(rows[before.len() as int] == row);
            }
        }
    }
}

/// Whether a line is one for ordinary use of a model: it stands below a line that heads a table of
/// models, with no other such line between them, has as many cells as that line, names the model
/// under `Model`, and under `Tier`, where there is such a column, nothing or the default.
pub open spec fn is_row_for(
    lines: Seq<Seq<char>>,
    heading: int,
    row: int,
    model: Seq<char>,
) -> bool {
    let headers = cells_of(lines[heading]);
    let cells = cells_of(lines[row]);
    &&& 0 <= heading < row < lines.len()
    &&& headers.contains("Model"@) && headers.contains("Input"@)
    &&& forall|k: int|
        heading < k <= row ==> !(cells_of(#[trigger] lines[k]).contains("Model"@) && cells_of(
            lines[k],
        ).contains("Input"@))
    &&& cells.len() == headers.len()
    &&& normal_name(field(headers, cells, "Model"@)->0) == normal_id(model)
    &&& match field(headers, cells, "Tier"@) {
        Some(tier) => tier.len() == 0 || tier == "Default"@,
        None => true,
    }
}

/// The rate that a line gives under a header.
pub open spec fn rate_under(
    lines: Seq<Seq<char>>,
    heading: int,
    row: int,
    name: Seq<char>,
) -> Option<Binary64> {
    match field(cells_of(lines[heading]), cells_of(lines[row]), name) {
        Some(cell) => spelled_rate(Some(bare_rate(cell))),
        None => None,
    }
}

/// The page gives a model the rates of the first line for it that has both the input and the output
/// rate, each from the column of its name; and none exactly where there is no such line.
pub proof fn law_page_rates(page: Seq<char>, model: Seq<char>)
    ensures
        ({
            let lines = text::lines(page);
            match page_rates(page, model) {
                Some(rates) => exists|heading: int, row: int|
                    {
                        &&& #[trigger] is_row_for(lines, heading, row, model)
                        &&& rates.input == rate_under(lines, heading, row, "Input"@)
                        &&& rates.cache_read == rate_under(lines, heading, row, "Cached input"@)
                        &&& rates.cache_write == rate_under(lines, heading, row, "Cache write"@)
                        &&& rates.output == rate_under(lines, heading, row, "Output"@)
                        &&& rates.input is Some && rates.output is Some
                        &&& forall|head: int, earlier: int| #[trigger]
                            is_row_for(lines, head, earlier, model) && earlier < row
                                ==> rate_under(lines, head, earlier, "Input"@) is None
                                || rate_under(lines, head, earlier, "Output"@) is None
                    },
                None => forall|heading: int, row: int| #[trigger]
                    is_row_for(lines, heading, row, model) ==> rate_under(
                        lines,
                        heading,
                        row,
                        "Input"@,
                    ) is None || rate_under(lines, heading, row, "Output"@) is None,
            }
        }),
{
    let lines = text::lines(page);
    let wanted = normal_id(model);
    let quotes = quotes_in(lines, wanted);
    let rows = quoting_rows(lines, wanted);
    let offers = quotes.map_values(|quote: QuoteView| quote_rates(quote));
    lemma_quoting_rows(lines, wanted);
    law_first_complete(offers);
    assert forall|heading: int, row: int| #[trigger]
        is_row_for(lines, heading, row, model) implies exists|i: int|
        0 <= i < rows.len() && #[trigger] rows[i] == row && offers[i].input == rate_under(
            lines,
            heading,
            row,
            "Input"@,
        ) && offers[i].output == rate_under(lines, heading, row, "Output"@) by {
        let above = lines.take(row);
        let headers = cells_of(lines[heading]);
        let cells = cells_of(lines[row]);
        assert(above[heading] == lines[heading]);
        assert forall|k: int| heading < k < above.len() implies !is_heading(
            cells_of(#[trigger] above[k]),
        ) by {
            assert(above[k] == lines[k]);
        }
        lemma_headers_below(above, heading);
        assert(!is_heading(cells_of(lines[row])));
        lemma_fields(headers, cells, "Model"@, 0);
        assert(quote_at(lines, row, wanted) is Some);
        let i = choose|i: int| 0 <= i < rows.len() && rows[i] == row;
        assert(quote_at(lines, rows[i], wanted) == Some(quotes[i]));
        assert(offers[i] == quote_rates(quotes[i]));
    }
    match page_rates(page, model) {
        Some(rates) => {
            let i = choose|i: int|
                0 <= i < offers.len() && #[trigger] offers[i] == rates && rates.input is Some
                    && rates.output is Some && (forall|j: int|
                    0 <= j < i ==> (#[trigger] offers[j]).input is None || offers[j].output is None);
            let row = rows[i];
            let above = lines.take(row);
            let cells = cells_of(lines[row]);
            assert(quote_at(lines, row, wanted) == Some(quotes[i]));
            assert(offers[i] == quote_rates(quotes[i]));
            lemma_some_heading(above);
            let heading = choose|heading: int|
                0 <= heading < above.len() && is_heading(cells_of(#[trigger] above[heading]))
                    && headers_below(above) == cells_of(above[heading]) && (forall|k: int|
                    heading < k < above.len() ==> !is_heading(cells_of(#[trigger] above[k])));
            assert(above[heading] == lines[heading]);
            assert forall|k: int| heading < k <= row implies !(cells_of(#[trigger] lines[k]).contains(
                "Model"@,
            ) && cells_of(lines[k]).contains("Input"@)) by {
                if k < row {
                    assert(above[k] == lines[k]);
                    assert(!is_heading(cells_of(above[k])));
                }
            }
            assert(is_row_for(lines, heading, row, model));
            assert forall|head: int, earlier: int| #[trigger]
                is_row_for(lines, head, earlier, model) && earlier < row implies rate_under(
                lines,
                head,
                earlier,
                "Input"@,
            ) is None || rate_under(lines, head, earlier, "Output"@) is None by {
                let j = choose|j: int|
                    0 <= j < rows.len() && #[trigger] rows[j] == earlier && offers[j].input
                        == rate_under(lines, head, earlier, "Input"@) && offers[j].output
                        == rate_under(lines, head, earlier, "Output"@);
                if j > i {
                    assert(rows[i] < rows[j]);
                }
                assert(offers[j].input is None || offers[j].output is None);
            }
        },
        None => {
            assert forall|heading: int, row: int| #[trigger]
                is_row_for(lines, heading, row, model) implies rate_under(
                lines,
                heading,
                row,
                "Input"@,
            ) is None || rate_under(lines, heading, row, "Output"@) is None by {
                let j = choose|j: int|
                    0 <= j < rows.len() && #[trigger] rows[j] == row && offers[j].input
                        == rate_under(lines, heading, row, "Input"@) && offers[j].output
                        == rate_under(lines, heading, row, "Output"@);
                assert(offers[j].input is None || offers[j].output is None);
            }
        },
    }
}

/// A quote has its own fields as its contents, and a list of quotes has each in its place.
pub proof fn law_quote_contents(quotes: Seq<Quote>, index: int)
    requires
        0 <= index < quotes.len(),
    ensures
        quote_views(quotes).len() == quotes.len(),
        quote_views(quotes)[index].input == json::text_view(quotes[index].input),
        quote_views(quotes)[index].cache_read == json::text_view(quotes[index].cache_read),
        quote_views(quotes)[index].cache_write == json::text_view(quotes[index].cache_write),
        quote_views(quotes)[index].output == json::text_view(quotes[index].output),
{
}

} // verus!
