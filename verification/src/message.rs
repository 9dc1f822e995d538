//! Stored messages: which of their fields a bill needs, and what they say.
use crate::binary64::Binary64;
use crate::error::{self, BillError, BillErrorView};
use crate::json::{self, JsonLeaf};
use crate::text;
use crate::usage::{MessageUsage, MessageView};
use serde_json::Value;
use vstd::prelude::*;

verus! {

/// What a bill reads of a stored message.
#[derive(Debug)]
pub struct MessageFields {
    /// Who wrote the message.
    pub role: Option<String>,
    /// Whether the message reports tokens.
    pub tokens: bool,
    /// Whether the tokens report on the cache.
    pub cache: bool,
    /// The provider that was asked.
    pub provider: Option<String>,
    /// The model that answered.
    pub model: Option<String>,
    /// The cost in dollars.
    pub cost: Option<Binary64>,
    /// Input tokens.
    pub input: Option<u64>,
    /// Output tokens.
    pub output: Option<u64>,
    /// Reasoning tokens.
    pub reasoning: Option<u64>,
    /// Tokens read from the cache.
    pub cache_read: Option<u64>,
    /// Tokens written to the cache.
    pub cache_write: Option<u64>,
    /// The agent that wrote the message.
    pub agent: Option<String>,
    /// The older name of the agent.
    pub mode: Option<String>,
}

/// The contents of [`MessageFields`].
#[verifier::ext_equal]
pub struct FieldsView {
    /// Who wrote the message.
    pub role: Option<Seq<char>>,
    /// Whether the message reports tokens.
    pub tokens: bool,
    /// Whether the tokens report on the cache.
    pub cache: bool,
    /// The provider that was asked.
    pub provider: Option<Seq<char>>,
    /// The model that answered.
    pub model: Option<Seq<char>>,
    /// The cost in dollars.
    pub cost: Option<Binary64>,
    /// Input tokens.
    pub input: Option<u64>,
    /// Output tokens.
    pub output: Option<u64>,
    /// Reasoning tokens.
    pub reasoning: Option<u64>,
    /// Tokens read from the cache.
    pub cache_read: Option<u64>,
    /// Tokens written to the cache.
    pub cache_write: Option<u64>,
    /// The agent that wrote the message.
    pub agent: Option<Seq<char>>,
    /// The older name of the agent.
    pub mode: Option<Seq<char>>,
}

impl View for MessageFields {
    type V = FieldsView;

    open spec fn view(&self) -> FieldsView {
        FieldsView {
            role: json::text_view(self.role),
            tokens: self.tokens,
            cache: self.cache,
            provider: json::text_view(self.provider),
            model: json::text_view(self.model),
            cost: self.cost,
            input: self.input,
            output: self.output,
            reasoning: self.reasoning,
            cache_read: self.cache_read,
            cache_write: self.cache_write,
            agent: json::text_view(self.agent),
            mode: json::text_view(self.mode),
        }
    }
}

/// A whole number found one level down.
pub open spec fn unsigned_inside(
    outer: Option<Map<Seq<Seq<char>>, JsonLeaf>>,
    name: Seq<char>,
) -> Option<u64> {
    match outer {
        Some(found) => json::unsigned_member(found, name),
        None => None,
    }
}

/// The fields of the message that a document holds.
pub open spec fn fields_of(document: Map<Seq<Seq<char>>, JsonLeaf>) -> FieldsView {
    let tokens = json::member(document, "tokens"@);
    let cache = match tokens {
        Some(found) => json::member(found, "cache"@),
        None => None,
    };
    FieldsView {
        role: json::string_member(document, "role"@),
        tokens: tokens is Some,
        cache: cache is Some,
        provider: json::string_member(document, "providerID"@),
        model: json::string_member(document, "modelID"@),
        cost: json::number_member(document, "cost"@),
        input: unsigned_inside(tokens, "input"@),
        output: unsigned_inside(tokens, "output"@),
        reasoning: unsigned_inside(tokens, "reasoning"@),
        cache_read: unsigned_inside(cache, "read"@),
        cache_write: unsigned_inside(cache, "write"@),
        agent: json::string_member(document, "agent"@),
        mode: json::string_member(document, "mode"@),
    }
}

fn inner_unsigned(outer: Option<&Value>, name: &str) -> (number: Option<u64>)
    ensures
        number == unsigned_inside(
            match outer {
                Some(found) => Some(json::json_contents(*found)),
                None => None,
            },
            name@,
        ),
{
    match outer {
        Some(found) => json::unsigned_field(found, name),
        None => None,
    }
}

/// Picks out the fields of a message.
pub fn message_fields(value: &Value) -> (fields: MessageFields)
    ensures
        fields@ == fields_of(json::json_contents(*value)),
{
    let tokens = json::get(value, "tokens");
    let cache = match tokens {
        Some(found) => json::get(found, "cache"),
        None => None,
    };
    MessageFields {
        role: json::string_field(value, "role"),
        tokens: tokens.is_some(),
        cache: cache.is_some(),
        provider: json::string_field(value, "providerID"),
        model: json::string_field(value, "modelID"),
        cost: json::number_field(value, "cost"),
        input: inner_unsigned(tokens, "input"),
        output: inner_unsigned(tokens, "output"),
        reasoning: inner_unsigned(tokens, "reasoning"),
        cache_read: inner_unsigned(cache, "read"),
        cache_write: inner_unsigned(cache, "write"),
        agent: json::string_field(value, "agent"),
        mode: json::string_field(value, "mode"),
    }
}

/// A required string is there and not empty.
pub open spec fn is_given(text: Option<Seq<char>>) -> bool {
    text matches Some(found) && found.len() > 0
}

/// The first field, in the order in which they are read, that is absent or unusable.
pub open spec fn first_unusable(fields: FieldsView) -> Option<Seq<char>> {
    if !fields.tokens {
        Some("tokens"@)
    } else if !fields.cache {
        Some("tokens.cache"@)
    } else if !is_given(fields.provider) {
        Some("providerID"@)
    } else if !is_given(fields.model) {
        Some("modelID"@)
    } else if fields.cost is None {
        Some("cost"@)
    } else if fields.input is None {
        Some("input"@)
    } else if fields.output is None {
        Some("output"@)
    } else if fields.reasoning is None {
        Some("reasoning"@)
    } else if fields.cache_read is None {
        Some("read"@)
    } else if fields.cache_write is None {
        Some("write"@)
    } else if !fields.cost->0.is_price() {
        Some("cost must be finite and non-negative"@)
    } else {
        None
    }
}

/// The agent that a message is billed to: the session's own, else the one that the message names,
/// else the one it names the old way. An empty name counts as unknown.
pub open spec fn billed_agent(
    session_agent: Option<Seq<char>>,
    agent: Option<Seq<char>>,
    mode: Option<Seq<char>>,
) -> Seq<char> {
    let named = if session_agent is Some {
        session_agent
    } else if agent is Some {
        agent
    } else {
        mode
    };
    if is_given(named) {
        named->0
    } else {
        "unknown"@
    }
}

/// What a message used, if an assistant wrote it, or what is wrong with it.
pub open spec fn message_outcome(
    fields: FieldsView,
    location: Seq<char>,
    session_id: Seq<char>,
    session_agent: Option<Seq<char>>,
) -> Result<Option<MessageView>, BillErrorView> {
    if fields.role != Some("assistant"@) {
        Ok(None)
    } else {
        match first_unusable(fields) {
            Some(field) => Err(error::invalid_field_view(location, field)),
            None => Ok(
                Some(
                    MessageView {
                        session_id,
                        agent: billed_agent(session_agent, fields.agent, fields.mode),
                        provider: fields.provider->0,
                        model: fields.model->0,
                        input: fields.input->0,
                        output: fields.output->0,
                        reasoning: fields.reasoning->0,
                        cache_read: fields.cache_read->0,
                        cache_write: fields.cache_write->0,
                        cost: fields.cost->0,
                    },
                ),
            ),
        }
    }
}

/// The contents of an optional borrowed text.
pub open spec fn str_view(text: Option<&str>) -> Option<Seq<char>> {
    match text {
        Some(found) => Some(found@),
        None => None,
    }
}

/// Whether the outcome is the one given by its contents.
pub open spec fn is_outcome(
    outcome: Result<Option<MessageUsage>, BillError>,
    expected: Result<Option<MessageView>, BillErrorView>,
) -> bool {
    match outcome {
        Ok(Some(usage)) => expected == Ok::<Option<MessageView>, BillErrorView>(Some(usage@)),
        Ok(None) => expected == Ok::<Option<MessageView>, BillErrorView>(None),
        Err(failure) => expected == Err::<Option<MessageView>, BillErrorView>(failure@),
    }
}

/// A string that must be there and not be empty.
pub fn required_string(found: Option<String>, field: &str, location: &str) -> (text: Result<
    String,
    BillError,
>)
    ensures
        match text {
            Ok(given) => json::text_view(found) == Some(given@) && given@.len() > 0,
            Err(failure) => !is_given(json::text_view(found)) && failure@
                == error::invalid_field_view(location@, field@),
        },
{
    match found {
        Some(given) => if given.as_str().is_empty() {
            Err(error::invalid_field(location, field))
        } else {
            Ok(given)
        },
        None => Err(error::invalid_field(location, field)),
    }
}

/// A whole number that must be there.
pub fn required_u64(found: Option<u64>, field: &str, location: &str) -> (number: Result<
    u64,
    BillError,
>)
    ensures
        match number {
            Ok(given) => found == Some(given),
            Err(failure) => found is None && failure@ == error::invalid_field_view(
                location@,
                field@,
            ),
        },
{
    match found {
        Some(given) => Ok(given),
        None => Err(error::invalid_field(location, field)),
    }
}

/// A number that must be there.
pub fn required_f64(found: Option<Binary64>, field: &str, location: &str) -> (number: Result<
    Binary64,
    BillError,
>)
    ensures
        match number {
            Ok(given) => found == Some(given),
            Err(failure) => found is None && failure@ == error::invalid_field_view(
                location@,
                field@,
            ),
        },
{
    match found {
        Some(given) => Ok(given),
        None => Err(error::invalid_field(location, field)),
    }
}

fn agent_name(
    session_agent: Option<&str>,
    agent: Option<String>,
    mode: Option<String>,
) -> (name: String)
    ensures
        name@ == billed_agent(
            str_view(session_agent),
            json::text_view(agent),
            json::text_view(mode),
        ),
{
    let named: Option<String> = match session_agent {
        Some(known) => Some(known.to_owned()),
        None => match agent {
            Some(own) => Some(own),
            None => mode,
        },
    };
    match named {
        Some(name) => if name.as_str().is_empty() {
            "unknown".to_owned()
        } else {
            name
        },
        None => "unknown".to_owned(),
    }
}

/// What a message with these fields used, if an assistant wrote it.
pub fn message_usage(
    fields: MessageFields,
    location: &str,
    session_id: &str,
    session_agent: Option<&str>,
) -> (outcome: Result<Option<MessageUsage>, BillError>)
    ensures
        is_outcome(
            outcome,
            message_outcome(fields@, location@, session_id@, str_view(session_agent)),
        ),
        outcome matches Ok(Some(usage)) ==> usage.cost.is_price(),
{
    let assistant = match &fields.role {
        Some(role) => text::same_text(role.as_str(), "assistant"),
        None => false,
    };
    if !assistant {
        return Ok(None);
    }
    if !fields.tokens {
        return Err(error::invalid_field(location, "tokens"));
    }
    if !fields.cache {
        return Err(error::invalid_field(location, "tokens.cache"));
    }
    let provider = match required_string(fields.provider, "providerID", location) {
        Ok(given) => given,
        Err(failure) => return Err(failure),
    };
    let model = match required_string(fields.model, "modelID", location) {
        Ok(given) => given,
        Err(failure) => return Err(failure),
    };
    let cost = match required_f64(fields.cost, "cost", location) {
        Ok(given) => given,
        Err(failure) => return Err(failure),
    };
    let input: u64 = match required_u64(fields.input, "input", location) {
        Ok(given) => given,
        Err(failure) => return Err(failure),
    };
    let output: u64 = match required_u64(fields.output, "output", location) {
        Ok(given) => given,
        Err(failure) => return Err(failure),
    };
    let reasoning: u64 = match required_u64(fields.reasoning, "reasoning", location) {
        Ok(given) => given,
        Err(failure) => return Err(failure),
    };
    let cache_read: u64 = match required_u64(fields.cache_read, "read", location) {
        Ok(given) => given,
        Err(failure) => return Err(failure),
    };
    let cache_write: u64 = match required_u64(fields.cache_write, "write", location) {
        Ok(given) => given,
        Err(failure) => return Err(failure),
    };
    let agent = agent_name(session_agent, fields.agent, fields.mode);
    if !cost.price() {
        return Err(error::invalid_field(location, "cost must be finite and non-negative"));
    }
    Ok(
        Some(
            MessageUsage {
                session_id: session_id.to_owned(),
                agent,
                provider,
                model,
                input,
                output,
                reasoning,
                cache_read,
                cache_write,
                cost,
            },
        ),
    )
}

/// What a stored message used, if an assistant wrote it, or what is wrong with its text.
pub open spec fn parse_outcome(
    text: Seq<char>,
    location: Seq<char>,
    session_id: Seq<char>,
    session_agent: Option<Seq<char>>,
) -> Result<Option<MessageView>, BillErrorView> {
    match json::json_document(text) {
        Ok(document) => message_outcome(fields_of(document), location, session_id, session_agent),
        Err(detail) => Err(BillErrorView::InvalidData { location, detail }),
    }
}

/// Reads a stored message.
pub fn parse_message(
    json: &str,
    location: &str,
    session_id: &str,
    session_agent: Option<&str>,
) -> (outcome: Result<Option<MessageUsage>, BillError>)
    ensures
        is_outcome(
            outcome,
            parse_outcome(json@, location@, session_id@, str_view(session_agent)),
        ),
        outcome matches Ok(Some(usage)) ==> usage.cost.is_price(),
{
    let value = match json::read_json(json, location) {
        Ok(value) => value,
        Err(failure) => return Err(failure),
    };
    let fields = message_fields(&value);
    message_usage(fields, location, session_id, session_agent)
}

/// An accepted message is billed with its own numbers: the cost and each count of tokens is the one
/// in the field of that name, whatever the other fields say.
pub proof fn law_usage_is_as_reported(
    fields: FieldsView,
    location: Seq<char>,
    session_id: Seq<char>,
    session_agent: Option<Seq<char>>,
)
    ensures
        message_outcome(fields, location, session_id, session_agent) matches Ok(Some(used)) ==> {
            &&& fields.role == Some("assistant"@)
            &&& used.session_id == session_id
            &&& fields.provider == Some(used.provider)
            &&& fields.model == Some(used.model)
            &&& fields.cost == Some(used.cost)
            &&& fields.input == Some(used.input)
            &&& fields.output == Some(used.output)
            &&& fields.reasoning == Some(used.reasoning)
            &&& fields.cache_read == Some(used.cache_read)
            &&& fields.cache_write == Some(used.cache_write)
        },
{
}

/// A message is billed exactly where an assistant wrote it, it reports tokens and cache, names its
/// provider and its model, and gives every count and a cost that is finite and not below zero; one
/// that no assistant wrote is passed over.
pub proof fn law_which_messages_are_billed(
    fields: FieldsView,
    location: Seq<char>,
    session_id: Seq<char>,
    session_agent: Option<Seq<char>>,
)
    ensures
        ({
            let outcome = message_outcome(fields, location, session_id, session_agent);
            &&& outcome == Ok::<Option<MessageView>, BillErrorView>(None) <==> fields.role != Some(
                "assistant"@,
            )
            &&& (outcome is Ok && outcome->Ok_0 is Some) <==> {
                &&& fields.role == Some("assistant"@)
                &&& fields.tokens
                &&& fields.cache
                &&& fields.provider is Some && fields.provider->0.len() > 0
                &&& fields.model is Some && fields.model->0.len() > 0
                &&& fields.input is Some
                &&& fields.output is Some
                &&& fields.reasoning is Some
                &&& fields.cache_read is Some
                &&& fields.cache_write is Some
                &&& fields.cost is Some
                &&& fields.cost->0.bits < 0x7ff0_0000_0000_0000 || fields.cost->0.bits
                    == 0x8000_0000_0000_0000
            }
        }),
{
}

/// A message of an assistant that cannot be billed is reported with its location and with the first
/// field that is missing or unusable; the cost's value is looked at last.
pub proof fn law_unusable_messages_are_reported(
    fields: FieldsView,
    location: Seq<char>,
    session_id: Seq<char>,
    session_agent: Option<Seq<char>>,
)
    requires
        fields.role == Some("assistant"@),
    ensures
        ({
            let outcome = message_outcome(fields, location, session_id, session_agent);
            let told = |name: Seq<char>|
                outcome == Err::<Option<MessageView>, BillErrorView>(
                    BillErrorView::InvalidData {
                        location,
                        detail: "missing or invalid '"@ + name + "'"@,
                    },
                );
            let named = |text: Option<Seq<char>>| text matches Some(found) && found.len() > 0;
            let heads = fields.tokens && fields.cache;
            let names = heads && named(fields.provider) && named(fields.model);
            &&& !fields.tokens ==> told("tokens"@)
            &&& fields.tokens && !fields.cache ==> told("tokens.cache"@)
            &&& heads && !named(fields.provider) ==> told("providerID"@)
            &&& heads && named(fields.provider) && !named(fields.model) ==> told("modelID"@)
            &&& names && fields.cost is None ==> told("cost"@)
            &&& names && fields.cost is Some && fields.input is None ==> told("input"@)
            &&& names && fields.cost is Some && fields.input is Some && fields.output is None
                ==> told("output"@)
            &&& names && fields.cost is Some && fields.input is Some && fields.output is Some
                && fields.reasoning is None ==> told("reasoning"@)
            &&& names && fields.cost is Some && fields.input is Some && fields.output is Some
                && fields.reasoning is Some && fields.cache_read is None ==> told("read"@)
            &&& names && fields.cost is Some && fields.input is Some && fields.output is Some
                && fields.reasoning is Some && fields.cache_read is Some && fields.cache_write
                is None ==> told("write"@)
            &&& names && fields.cost is Some && fields.input is Some && fields.output is Some
                && fields.reasoning is Some && fields.cache_read is Some && fields.cache_write
                is Some && outcome is Err ==> told("cost must be finite and non-negative"@)
        }),
{
}

/// A message is billed to the agent of its session, else to the one it names, else to the one it
/// names the old way. Where that name is empty or there is none, the agent is unknown.
pub proof fn law_who_is_billed(
    fields: FieldsView,
    location: Seq<char>,
    session_id: Seq<char>,
    session_agent: Option<Seq<char>>,
)
    ensures
        message_outcome(fields, location, session_id, session_agent) matches Ok(Some(used)) ==> {
            &&& forall|name: Seq<char>|
                name.len() > 0 && (session_agent == Some(name) || (session_agent is None && (
                fields.agent == Some(name) || (fields.agent is None && fields.mode == Some(name)))))
                    ==> used.agent == name
            &&& session_agent is Some && session_agent->0.len() == 0 ==> used.agent == "unknown"@
            &&& session_agent is None && fields.agent is Some && fields.agent->0.len() == 0
                ==> used.agent == "unknown"@
            &&& session_agent is None && fields.agent is None && (fields.mode is None
                || fields.mode->0.len() == 0) ==> used.agent == "unknown"@
        },
{
}

/// The fields of a message are found under their names: the tokens below `tokens`, those of the
/// cache below its `cache`.
pub proof fn law_where_fields_stand(document: Map<Seq<Seq<char>>, JsonLeaf>)
    requires
        json::is_rooted(document),
    ensures
        ({
            let fields = fields_of(document);
            let tokens = seq!["tokens"@];
            let cache = seq!["tokens"@, "cache"@];
            &&& fields.role == json::leaf_text(document, seq!["role"@])
            &&& fields.provider == json::leaf_text(document, seq!["providerID"@])
            &&& fields.model == json::leaf_text(document, seq!["modelID"@])
            &&& fields.agent == json::leaf_text(document, seq!["agent"@])
            &&& fields.mode == json::leaf_text(document, seq!["mode"@])
            &&& fields.cost == json::leaf_number(document, seq!["cost"@])
            &&& fields.tokens == document.dom().contains(tokens)
            &&& fields.cache == document.dom().contains(cache)
            &&& fields.input == json::leaf_unsigned(document, tokens.push("input"@))
            &&& fields.output == json::leaf_unsigned(document, tokens.push("output"@))
            &&& fields.reasoning == json::leaf_unsigned(document, tokens.push("reasoning"@))
            &&& fields.cache_read == json::leaf_unsigned(document, cache.push("read"@))
            &&& fields.cache_write == json::leaf_unsigned(document, cache.push("write"@))
        }),
{
    let tokens = seq!["tokens"@];
    let cache = seq!["tokens"@, "cache"@];
    let none = Seq::<Seq<char>>::empty();
    assert forall|name: Seq<char>| #[trigger] seq![name] + none == seq![name] by {
        assert(seq![name] + none =~= seq![name]);
    }
    assert(tokens + seq!["cache"@] =~= cache);
    assert forall|name: Seq<char>| #[trigger] (tokens + (seq![name] + none)) == tokens.push(name) by {
        assert(tokens + (seq![name] + none) =~= tokens.push(name));
    }
    assert forall|name: Seq<char>| #[trigger] (tokens + seq![name]) == tokens.push(name) by {
        assert(tokens + seq![name] =~= tokens.push(name));
    }
    assert forall|name: Seq<char>| #[trigger]
        (tokens + (seq!["cache"@] + seq![name])) == cache.push(name) by {
        assert(tokens + (seq!["cache"@] + seq![name]) =~= cache.push(name));
    }
    assert forall|name: Seq<char>| #[trigger]
        (tokens + (seq!["cache"@] + (seq![name] + none))) == cache.push(name) by {
        assert(tokens + (seq!["cache"@] + (seq![name] + none)) =~= cache.push(name));
    }
    assert forall|name: Seq<char>| #[trigger]
        document.dom().contains(cache.push(name)) implies document.dom().contains(cache)
        && document.dom().contains(tokens) by {
        assert(cache.push(name).drop_last() =~= cache);
        assert(cache.drop_last() =~= tokens);
    }
    assert forall|name: Seq<char>| #[trigger]
        document.dom().contains(tokens.push(name)) implies document.dom().contains(tokens) by {
        assert(tokens.push(name).drop_last() =~= tokens);
    }
    assert(cache =~= tokens.push("cache"@));
}

/// A stored message is read as its document, and one whose text is no document is reported with its
/// location.
pub proof fn law_stored_messages(
    text: Seq<char>,
    location: Seq<char>,
    session_id: Seq<char>,
    session_agent: Option<Seq<char>>,
)
    ensures
        match json::json_document(text) {
            Ok(document) => parse_outcome(text, location, session_id, session_agent)
                == message_outcome(fields_of(document), location, session_id, session_agent),
            Err(detail) => parse_outcome(text, location, session_id, session_agent) == Err::<
                Option<MessageView>,
                BillErrorView,
            >(BillErrorView::InvalidData { location, detail }),
        },
{
}

/// The contents of the fields are the fields, each under its own name.
pub proof fn law_field_contents(fields: MessageFields)
    ensures
        fields@.role == json::text_view(fields.role),
        fields@.tokens == fields.tokens,
        fields@.cache == fields.cache,
        fields@.provider == json::text_view(fields.provider),
        fields@.model == json::text_view(fields.model),
        fields@.cost == fields.cost,
        fields@.input == fields.input,
        fields@.output == fields.output,
        fields@.reasoning == fields.reasoning,
        fields@.cache_read == fields.cache_read,
        fields@.cache_write == fields.cache_write,
        fields@.agent == json::text_view(fields.agent),
        fields@.mode == json::text_view(fields.mode),
{
}

/// An outcome is the expected one where both have usage, and the same, where both have none, or where
/// both fail, and alike.
pub proof fn law_outcomes(
    outcome: Result<Option<MessageUsage>, BillError>,
    expected: Result<Option<MessageView>, BillErrorView>,
)
    requires
        is_outcome(outcome, expected),
    ensures
        outcome is Ok <==> expected is Ok,
        outcome is Err ==> expected->Err_0 == outcome->Err_0@,
        outcome is Ok ==> (outcome->Ok_0 is Some <==> expected->Ok_0 is Some),
        outcome is Ok && outcome->Ok_0 is Some ==> expected->Ok_0->0 == outcome->Ok_0->0@,
{
}

/// A text that is there has its own characters as its contents, also where it has none, and one that
/// is not there has no contents.
pub proof fn law_borrowed_text_contents(text: &str)
    ensures
        str_view(Some(text)) == Some(text@),
        str_view(None) is None,
{
}

} // verus!
