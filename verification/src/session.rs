//! Sessions: which one a reference names, and what the database says of it.
use crate::error::{BillError, BillErrorView};
use crate::json;
use crate::message;
use crate::ordered::{self, OrderedMap};
use crate::table;
use crate::text;
use crate::usage::{self, MessageUsage, MessageView};
use vstd::prelude::*;

verus! {

/// How many bytes a session reference has at least.
pub const MINIMUM_REFERENCE_LENGTH: usize = 6;

/// How many matches an ambiguous reference is reported with at most.
pub const REPORTED_MATCHES: usize = 10;

/// The characters that a session reference may hold: ASCII letters and digits, `_` and `-`.
pub open spec fn is_reference_char(c: char) -> bool {
    ||| 'a' <= c <= 'z'
    ||| 'A' <= c <= 'Z'
    ||| '0' <= c <= '9'
    ||| c == '_'
    ||| c == '-'
}

/// Whether every character may stand in a session reference.
pub open spec fn is_plain(reference: Seq<char>) -> bool {
    forall|i: int| 0 <= i < reference.len() ==> is_reference_char(#[trigger] reference[i])
}

/// What is wrong with a session reference.
pub open spec fn reference_error(reference: Seq<char>) -> Option<BillErrorView> {
    if table::byte_len(reference) < MINIMUM_REFERENCE_LENGTH {
        Some(BillErrorView::InvalidSessionReference("must contain at least 6 characters"@))
    } else if !is_plain(reference) {
        Some(
            BillErrorView::InvalidSessionReference(
                "only ASCII letters, digits, '_' and '-' are allowed"@,
            ),
        )
    } else {
        None
    }
}

/// Checks a session reference.
pub fn validate_reference(reference: &str) -> (checked: Result<(), BillError>)
    ensures
        match checked {
            Ok(_) => reference_error(reference@) is None,
            Err(failure) => reference_error(reference@) == Some(failure@),
        },
{
    if reference.as_bytes().len() < MINIMUM_REFERENCE_LENGTH {
        return Err(
            BillError::InvalidSessionReference("must contain at least 6 characters".to_owned()),
        );
    }
    for c in it: reference.chars()
        invariant
            it.seq() == reference@,
            table::byte_len(reference@) >= MINIMUM_REFERENCE_LENGTH,
            forall|i: int| 0 <= i < it.index() ==> is_reference_char(#[trigger] reference@[i]),
    {
        let allowed: bool = ('a' <= c && c <= 'z') || ('A' <= c && c <= 'Z') || ('0' <= c && c
            <= '9') || c == '_' || c == '-';
        if !allowed {
            assert(!is_reference_char(reference@[it.index()]));
            return Err(
                BillError::InvalidSessionReference(
                    "only ASCII letters, digits, '_' and '-' are allowed".to_owned(),
                ),
            );
        }
    }
    Ok(())
}

proof fn lemma_plain_bytes(reference: Seq<char>)
    requires
        is_plain(reference),
    ensures
        table::byte_len(reference) == reference.len(),
    decreases reference.len(),
{
    if reference.len() > 0 {
        assert(is_reference_char(reference[0]));
        assert forall|i: int| 0 <= i < reference.drop_first().len() implies is_reference_char(
            #[trigger] reference.drop_first()[i],
        ) by {
            assert(reference.drop_first()[i] == reference[i + 1]);
        }
        lemma_plain_bytes(reference.drop_first());
    }
}

/// A reference is accepted exactly where it has six characters or more and each of them is a
/// letter, a digit, `_` or `-`: nothing in it has a meaning of its own in a pattern or a path.
pub proof fn law_accepted_references(reference: Seq<char>)
    ensures
        reference_error(reference) is None <==> reference.len() >= 6 && is_plain(reference),
{
    if is_plain(reference) {
        lemma_plain_bytes(reference);
    }
}

/// What a match is called when the user is asked to choose.
pub trait MatchName: Sized {
    /// The name.
    spec fn name_view(&self) -> Seq<char>;

    /// The name.
    fn match_name(&self) -> (name: String)
        ensures
            name@ == self.name_view(),
    ;
}

impl MatchName for String {
    open spec fn name_view(&self) -> Seq<char> {
        self@
    }

    fn match_name(&self) -> (name: String) {
        self.clone()
    }
}

/// The names of the matches.
pub open spec fn match_names<T: MatchName>(matches: Seq<T>) -> Seq<Seq<char>> {
    matches.map_values(|found: T| found.name_view())
}

/// The names that an ambiguous reference is reported with.
pub open spec fn reported_names<T: MatchName>(matches: Seq<T>) -> Seq<Seq<char>> {
    if matches.len() <= REPORTED_MATCHES {
        match_names(matches)
    } else {
        match_names(matches.take(REPORTED_MATCHES as int))
    }
}

/// The only match of a reference.
pub fn unique_match<T: MatchName>(reference: &str, matches: Vec<T>) -> (found: Result<T, BillError>)
    ensures
        match found {
            Ok(only) => matches@ == seq![only],
            Err(failure) => if matches@.len() == 0 {
                failure@ == BillErrorView::SessionNotFound(reference@)
            } else {
                &&& matches@.len() > 1
                &&& failure@ == (BillErrorView::AmbiguousSession {
                    reference: reference@,
                    matches: text::joined(reported_names(matches@), ", "@),
                })
            },
        },
{
    if matches.len() > 1 {
        let mut names: Vec<String> = Vec::new();
        let mut index: usize = 0;
        let ghost all = match_names(matches@);
        while index < matches.len() && index < REPORTED_MATCHES
            invariant
                index <= matches.len(),
                index <= REPORTED_MATCHES,
                all == match_names(matches@),
                text::texts(names@) == all.take(index as int),
            decreases matches.len() - index,
        {
            let ghost before = names@;
            let name = matches[index].match_name();
            names.push(name);
            assert(text::texts(names@) =~= text::texts(before).push(name@));
            assert(all.take(index + 1) =~= all.take(index as int).push(name@));
            index = index + 1;
        }
        assert(all.take(index as int) =~= reported_names(matches@));
        return Err(
            BillError::AmbiguousSession {
                reference: reference.to_owned(),
                matches: text::join(&names, ", "),
            },
        );
    }
    let mut matches = matches;
    let ghost all = matches@;
    match matches.pop() {
        Some(only) => {
            assert(all =~= seq![only]);
            Ok(only)
        },
        None => Err(BillError::SessionNotFound(reference.to_owned())),
    }
}

/// A session with its descendants, as far as a bill needs it.
#[derive(Debug)]
pub struct SessionData {
    /// The session's identifier.
    pub id: String,
    /// Its title.
    pub title: String,
    /// How many sessions are billed: this one and its descendants.
    pub session_count: usize,
    /// The agents that sessions are known to belong to.
    pub session_agents: OrderedMap<String, String>,
    /// The assistants' messages.
    pub messages: Vec<MessageUsage>,
}

/// The contents of [`SessionData`].
#[verifier::ext_equal]
pub struct SessionView {
    /// The session's identifier.
    pub id: Seq<char>,
    /// Its title.
    pub title: Seq<char>,
    /// How many sessions are billed.
    pub session_count: nat,
    /// The agents that sessions are known to belong to.
    pub session_agents: Map<Seq<char>, Seq<char>>,
    /// The assistants' messages.
    pub messages: Seq<MessageView>,
}

impl View for SessionData {
    type V = SessionView;

    open spec fn view(&self) -> SessionView {
        SessionView {
            id: self.id@,
            title: self.title@,
            session_count: self.session_count as nat,
            session_agents: usage::agent_names(self.session_agents),
            messages: usage::message_views(self.messages@),
        }
    }
}

impl SessionData {
    /// The agents are in order and every message has a price.
    pub open spec fn well_formed(self) -> bool {
        &&& self.session_agents.well_formed()
        &&& usage::all_priced(usage::message_views(self.messages@))
    }
}

/// The matches, or the first row that could not be read.
pub open spec fn matches_from(rows: Seq<Result<String, BillError>>) -> Result<
    Seq<Seq<char>>,
    BillErrorView,
>
    decreases rows.len(),
{
    if rows.len() == 0 {
        Ok(Seq::empty())
    } else {
        match matches_from(rows.drop_last()) {
            Err(failure) => Err(failure),
            Ok(names) => match rows.last() {
                Err(failure) => Err(failure@),
                Ok(name) => Ok(names.push(name@)),
            },
        }
    }
}

proof fn lemma_matches_failure(rows: Seq<Result<String, BillError>>, count: int)
    requires
        0 <= count <= rows.len(),
        matches_from(rows.take(count)) is Err,
    ensures
        matches_from(rows) == matches_from(rows.take(count)),
    decreases rows.len() - count,
{
    if count < rows.len() {
        assert(rows.take(count + 1).drop_last() =~= rows.take(count));
        lemma_matches_failure(rows, count + 1);
    } else {
        assert(rows.take(count) =~= rows);
    }
}

/// The names that start with a reference.
pub open spec fn starting(names: Seq<Seq<char>>, reference: Seq<char>) -> Seq<Seq<char>>
    decreases names.len(),
{
    if names.len() == 0 {
        Seq::empty()
    } else if reference.is_prefix_of(names.last()) {
        starting(names.drop_last(), reference).push(names.last())
    } else {
        starting(names.drop_last(), reference)
    }
}

/// The names that a reference stands for: the one that it is itself, or else all that start with
/// it.
pub open spec fn selected(names: Seq<Seq<char>>, reference: Seq<char>) -> Seq<Seq<char>> {
    if names.contains(reference) {
        seq![reference]
    } else {
        starting(names, reference)
    }
}

proof fn lemma_starting(names: Seq<Seq<char>>, reference: Seq<char>)
    ensures
        forall|name: Seq<char>| #[trigger]
            starting(names, reference).contains(name) <==> names.contains(name)
                && reference.is_prefix_of(name),
    decreases names.len(),
{
    let kept = starting(names, reference);
    if names.len() > 0 {
        let shorter = names.drop_last();
        let last = names.last();
        let before = starting(shorter, reference);
        lemma_starting(shorter, reference);
        assert(names[names.len() - 1] == last);
        assert forall|name: Seq<char>| #[trigger] kept.contains(name) <==> names.contains(name)
            && reference.is_prefix_of(name) by {
            if names.contains(name) && name != last {
                let i = choose|i: int| 0 <= i < names.len() && names[i] == name;
                assert(shorter[i] == name);
            }
            if shorter.contains(name) {
                let i = choose|i: int| 0 <= i < shorter.len() && shorter[i] == name;
                assert(names[i] == name);
            }
            assert(before.contains(name) <==> shorter.contains(name) && reference.is_prefix_of(
                name,
            ));
            if reference.is_prefix_of(last) {
                assert(kept[before.len() as int] == last);
                if before.contains(name) {
                    let i = choose|i: int| 0 <= i < before.len() && before[i] == name;
                    assert(kept[i] == name);
                }
                if kept.contains(name) && name != last {
                    let i = choose|i: int| 0 <= i < kept.len() && kept[i] == name;
                    assert(before[i] == name);
                }
            }
        }
    }
}

proof fn lemma_starting_ascending(names: Seq<Seq<char>>, reference: Seq<char>)
    requires
        ordered::ascending::<String>(names),
    ensures
        ordered::ascending::<String>(starting(names, reference)),
    decreases names.len(),
{
    if names.len() > 0 {
        let shorter = names.drop_last();
        let kept = starting(names, reference);
        let before = starting(shorter, reference);
        assert(names[names.len() - 1] == names.last());
        assert(ordered::ascending::<String>(shorter));
        lemma_starting_ascending(shorter, reference);
        lemma_starting(shorter, reference);
        assert forall|i: int, j: int| 0 <= i < j < kept.len() implies text::text_before(
            #[trigger] kept[i],
            #[trigger] kept[j],
        ) by {
            assert(kept[i] == before[i]);
            if j < before.len() {
                assert(kept[j] == before[j]);
            } else {
                assert(before.contains(before[i]));
                let p = choose|p: int| 0 <= p < shorter.len() && shorter[p] == before[i];
                assert(names[p] == before[i]);
            }
        }
    }
}

/// A full identifier selects its session alone, however many others start with it; any other
/// reference selects exactly the sessions that start with it. What was in ascending order stays in
/// ascending order.
pub proof fn law_selected(names: Seq<Seq<char>>, reference: Seq<char>)
    ensures
        names.contains(reference) ==> selected(names, reference) == seq![reference],
        !names.contains(reference) ==> forall|name: Seq<char>| #[trigger]
            selected(names, reference).contains(name) <==> names.contains(name)
                && reference.is_prefix_of(name),
        ordered::ascending::<String>(names) ==> ordered::ascending::<String>(
            selected(names, reference),
        ),
{
    lemma_starting(names, reference);
    if ordered::ascending::<String>(names) {
        lemma_starting_ascending(names, reference);
    }
}

/// Collects the sessions of the database that a reference stands for.
pub fn database_matches(rows: Vec<Result<String, BillError>>, reference: &str) -> (found: Result<
    Vec<String>,
    BillError,
>)
    ensures
        match found {
            Ok(names) => matches_from(rows@) matches Ok(all) && text::texts(names@) == selected(
                all,
                reference@,
            ),
            Err(failure) => matches_from(rows@) == Err::<Seq<Seq<char>>, BillErrorView>(failure@),
        },
{
    let names = match read_matches(rows) {
        Ok(names) => names,
        Err(failure) => {
            return Err(failure);
        },
    };
    let ghost all = text::texts(names@);
    let mut kept: Vec<String> = Vec::new();
    let mut index: usize = 0;
    assert(text::texts(kept@) =~= starting(all.take(0), reference@));
    while index < names.len()
        invariant
            index <= names.len(),
            all == text::texts(names@),
            matches_from(rows@) == Ok::<Seq<Seq<char>>, BillErrorView>(all),
            forall|i: int| 0 <= i < index ==> #[trigger] all[i] != reference@,
            text::texts(kept@) == starting(all.take(index as int), reference@),
        decreases names.len() - index,
    {
        let ghost before = kept@;
        let name = &names[index];
        assert(all[index as int] == name@);
        assert(all.take(index + 1).drop_last() =~= all.take(index as int));
        assert(all.take(index + 1).last() == name@);
        if text::same_text(name.as_str(), reference) {
            let only = vec![reference.to_owned()];
            assert(all.contains(reference@));
            assert(text::texts(only@) =~= seq![reference@]);
            return Ok(only);
        }
        if text::starts_with(name.as_str(), reference) {
            let copy = name.clone();
            kept.push(copy);
            assert(text::texts(kept@) =~= text::texts(before).push(copy@));
        }
        index = index + 1;
    }
    assert(all.take(index as int) =~= all);
    Ok(kept)
}

/// Reads the rows of the matches.
fn read_matches(rows: Vec<Result<String, BillError>>) -> (found: Result<Vec<String>, BillError>)
    ensures
        match found {
            Ok(names) => matches_from(rows@) == Ok::<Seq<Seq<char>>, BillErrorView>(
                text::texts(names@),
            ),
            Err(failure) => matches_from(rows@) == Err::<Seq<Seq<char>>, BillErrorView>(failure@),
        },
{
    let mut names: Vec<String> = Vec::new();
    let ghost all = rows@;
    assert(all.take(0) =~= Seq::<Result<String, BillError>>::empty());
    assert(text::texts(names@) =~= Seq::<Seq<char>>::empty());
    for row in it: rows
        invariant
            it.seq() == all,
            all == rows@,
            matches_from(all.take(it.index())) == Ok::<Seq<Seq<char>>, BillErrorView>(
                text::texts(names@),
            ),
    {
        let ghost index = it.index();
        let ghost before = names@;
        assert(all.take(index + 1).drop_last() =~= all.take(index));
        assert(all.take(index + 1).last() == row);
        match row {
            Ok(name) => {
                names.push(name);
                assert(text::texts(names@) =~= text::texts(before).push(name@));
            },
            Err(failure) => {
                proof {
                    lemma_matches_failure(all, index + 1);
                }
                return Err(failure);
            },
        }
    }
    assert(all.take(all.len() as int) =~= all);
    Ok(names)
}

/// The title of a session that the database has.
pub fn database_title(title: Option<String>, id: &str) -> (found: Result<String, BillError>)
    ensures
        match found {
            Ok(given) => title == Some(given),
            Err(failure) => title is None && failure@ == BillErrorView::SessionNotFound(id@),
        },
{
    match title {
        Some(given) => Ok(given),
        None => Err(BillError::SessionNotFound(id.to_owned())),
    }
}

/// Whether one of the columns holds agents; a column that cannot be read counts if none was found
/// before it.
pub open spec fn agent_column(columns: Seq<Result<String, BillError>>) -> Result<bool, BillErrorView>
    decreases columns.len(),
{
    if columns.len() == 0 {
        Ok(false)
    } else {
        match columns[0] {
            Ok(name) => if name@ == "agent"@ {
                Ok(true)
            } else {
                agent_column(columns.drop_first())
            },
            Err(failure) => Err(failure@),
        }
    }
}

/// Looks for the column of agents.
pub fn has_agent_column(columns: Vec<Result<String, BillError>>) -> (found: Result<bool, BillError>)
    ensures
        match found {
            Ok(recorded) => agent_column(columns@) == Ok::<bool, BillErrorView>(recorded),
            Err(failure) => agent_column(columns@) == Err::<bool, BillErrorView>(failure@),
        },
{
    let ghost all = columns@;
    assert(all.skip(0) =~= all);
    for column in it: columns
        invariant
            it.seq() == all,
            agent_column(all) == agent_column(all.skip(it.index())),
    {
        assert(all.skip(it.index()).drop_first() =~= all.skip(it.index() + 1));
        assert(all.skip(it.index())[0] == column);
        match column {
            Ok(name) => {
                if text::same_text(name.as_str(), "agent") {
                    return Ok(true);
                }
            },
            Err(failure) => {
                return Err(failure);
            },
        }
    }
    Ok(false)
}

/// The agents of the sessions that have one, or the first row that could not be read.
pub open spec fn agents_from(
    rows: Seq<Result<(String, Option<String>), BillError>>,
) -> Result<Map<Seq<char>, Seq<char>>, BillErrorView>
    decreases rows.len(),
{
    if rows.len() == 0 {
        Ok(Map::empty())
    } else {
        match agents_from(rows.drop_last()) {
            Err(failure) => Err(failure),
            Ok(agents) => match rows.last() {
                Err(failure) => Err(failure@),
                Ok((session, agent)) => if message::is_given(json::text_view(agent)) {
                    Ok(agents.insert(session@, agent->0@))
                } else {
                    Ok(agents)
                },
            },
        }
    }
}

/// A row that could not be read decides, whatever follows it.
proof fn lemma_agents_failure(
    rows: Seq<Result<(String, Option<String>), BillError>>,
    count: int,
)
    requires
        0 <= count <= rows.len(),
        agents_from(rows.take(count)) is Err,
    ensures
        agents_from(rows) == agents_from(rows.take(count)),
    decreases rows.len() - count,
{
    if count < rows.len() {
        assert(rows.take(count + 1).drop_last() =~= rows.take(count));
        lemma_agents_failure(rows, count + 1);
    } else {
        assert(rows.take(count) =~= rows);
    }
}

/// The agents of the sessions, where the database has a column for them.
pub open spec fn recorded_agents(
    columns: Seq<Result<String, BillError>>,
    rows: Seq<Result<(String, Option<String>), BillError>>,
) -> Result<Map<Seq<char>, Seq<char>>, BillErrorView> {
    match agent_column(columns) {
        Ok(recorded) => if recorded {
            agents_from(rows)
        } else {
            Ok(Map::empty())
        },
        Err(failure) => Err(failure),
    }
}

/// The agents of the billed sessions, where the database records agents.
pub fn database_session_agents(
    columns: Vec<Result<String, BillError>>,
    rows: Vec<Result<(String, Option<String>), BillError>>,
) -> (agents: Result<OrderedMap<String, String>, BillError>)
    ensures
        match agents {
            Ok(found) => found.well_formed() && recorded_agents(columns@, rows@) == Ok::<
                Map<Seq<char>, Seq<char>>,
                BillErrorView,
            >(usage::agent_names(found)),
            Err(failure) => recorded_agents(columns@, rows@) == Err::<
                Map<Seq<char>, Seq<char>>,
                BillErrorView,
            >(failure@),
        },
{
    let mut agents: OrderedMap<String, String> = OrderedMap::new();
    assert(usage::agent_names(agents) =~= Map::<Seq<char>, Seq<char>>::empty());
    match has_agent_column(columns) {
        Err(failure) => {
            return Err(failure);
        },
        Ok(recorded) => {
            if !recorded {
                return Ok(agents);
            }
        },
    }
    let ghost all = rows@;
    assert(all.take(0) =~= Seq::<Result<(String, Option<String>), BillError>>::empty());
    for row in it: rows
        invariant
            it.seq() == all,
            all == rows@,
            agent_column(columns@) == Ok::<bool, BillErrorView>(true),
            agents.well_formed(),
            agents_from(all.take(it.index())) == Ok::<Map<Seq<char>, Seq<char>>, BillErrorView>(
                usage::agent_names(agents),
            ),
    {
        let ghost index = it.index();
        let ghost before = agents;
        assert(all.take(index + 1).drop_last() =~= all.take(index));
        assert(all.take(index + 1).last() == row);
        match row {
            Ok((session, agent)) => {
                if let Some(name) = agent {
                    if !name.as_str().is_empty() {
                        let ghost key = session@;
                        agents.insert(session, name);
                        assert(usage::agent_names(agents) =~= usage::agent_names(before).insert(
                            key,
                            name@,
                        ));
                    }
                }
            },
            Err(failure) => {
                proof {
                    lemma_agents_failure(all, index + 1);
                }
                return Err(failure);
            },
        }
    }
    assert(all.take(all.len() as int) =~= all);
    Ok(agents)
}

/// The usage that a row of messages reports, or the first row that could not be read or holds an
/// unusable message.
pub open spec fn messages_from(
    rows: Seq<Result<(String, String), BillError>>,
    location: Seq<char>,
    agents: Map<Seq<char>, Seq<char>>,
) -> Result<Seq<MessageView>, BillErrorView>
    decreases rows.len(),
{
    if rows.len() == 0 {
        Ok(Seq::empty())
    } else {
        match messages_from(rows.drop_last(), location, agents) {
            Err(failure) => Err(failure),
            Ok(messages) => match rows.last() {
                Err(failure) => Err(failure@),
                Ok((session, json)) => extended(
                    messages,
                    message::parse_outcome(
                        json@,
                        location,
                        session@,
                        if agents.dom().contains(session@) {
                            Some(agents[session@])
                        } else {
                            None
                        },
                    ),
                ),
            },
        }
    }
}

/// The messages with one more, if it has usage to report.
pub open spec fn extended(
    messages: Seq<MessageView>,
    outcome: Result<Option<MessageView>, BillErrorView>,
) -> Result<Seq<MessageView>, BillErrorView> {
    match outcome {
        Ok(Some(message)) => Ok(messages.push(message)),
        Ok(None) => Ok(messages),
        Err(failure) => Err(failure),
    }
}

proof fn lemma_messages_failure(
    rows: Seq<Result<(String, String), BillError>>,
    location: Seq<char>,
    agents: Map<Seq<char>, Seq<char>>,
    count: int,
)
    requires
        0 <= count <= rows.len(),
        messages_from(rows.take(count), location, agents) is Err,
    ensures
        messages_from(rows, location, agents) == messages_from(rows.take(count), location, agents),
    decreases rows.len() - count,
{
    if count < rows.len() {
        assert(rows.take(count + 1).drop_last() =~= rows.take(count));
        lemma_messages_failure(rows, location, agents, count + 1);
    } else {
        assert(rows.take(count) =~= rows);
    }
}

/// Takes up the usage that a message reports.
pub(crate) fn keep(
    messages: &mut Vec<MessageUsage>,
    outcome: Result<Option<MessageUsage>, BillError>,
) -> (kept: Result<(), BillError>)
    requires
        usage::all_priced(usage::message_views(old(messages)@)),
        outcome matches Ok(Some(message)) ==> message.cost.is_price(),
    ensures
        usage::all_priced(usage::message_views(final(messages)@)),
        match outcome {
            Ok(Some(message)) => kept is Ok && usage::message_views(final(messages)@)
                == usage::message_views(old(messages)@).push(message@),
            Ok(None) => kept is Ok && final(messages)@ == old(messages)@,
            Err(failure) => kept == Err::<(), BillError>(failure),
        },
{
    match outcome {
        Ok(Some(message)) => {
            let ghost before = usage::message_views(messages@);
            messages.push(message);
            assert(usage::message_views(messages@) =~= before.push(message@));
            Ok(())
        },
        Ok(None) => Ok(()),
        Err(failure) => Err(failure),
    }
}

/// Reads the messages of the billed sessions.
pub fn database_messages(
    rows: Vec<Result<(String, String), BillError>>,
    location: &str,
    session_agents: &OrderedMap<String, String>,
) -> (messages: Result<Vec<MessageUsage>, BillError>)
    requires
        session_agents.well_formed(),
    ensures
        match messages {
            Ok(read) => {
                &&& messages_from(rows@, location@, usage::agent_names(*session_agents)) == Ok::<
                    Seq<MessageView>,
                    BillErrorView,
                >(usage::message_views(read@))
                &&& usage::all_priced(usage::message_views(read@))
            },
            Err(failure) => messages_from(rows@, location@, usage::agent_names(*session_agents))
                == Err::<Seq<MessageView>, BillErrorView>(failure@),
        },
{
    let mut messages: Vec<MessageUsage> = Vec::new();
    let ghost all = rows@;
    let ghost agents = usage::agent_names(*session_agents);
    assert(all.take(0) =~= Seq::<Result<(String, String), BillError>>::empty());
    assert(usage::message_views(messages@) =~= Seq::<MessageView>::empty());
    for row in it: rows
        invariant
            it.seq() == all,
            session_agents.well_formed(),
            agents == usage::agent_names(*session_agents),
            usage::all_priced(usage::message_views(messages@)),
            messages_from(all.take(it.index()), location@, agents) == Ok::<
                Seq<MessageView>,
                BillErrorView,
            >(usage::message_views(messages@)),
    {
        let ghost index = it.index();
        assert(all.take(index + 1).drop_last() =~= all.take(index));
        assert(all.take(index + 1).last() == row);
        match row {
            Ok((session, json)) => {
                let agent: Option<&str> = match session_agents.get(&session) {
                    Some(name) => Some(name.as_str()),
                    None => None,
                };
                let outcome = message::parse_message(
                    json.as_str(),
                    location,
                    session.as_str(),
                    agent,
                );
                match keep(&mut messages, outcome) {
                    Ok(_) => {},
                    Err(failure) => {
                        proof {
                            lemma_messages_failure(all, location@, agents, index + 1);
                        }
                        return Err(failure);
                    },
                }
            },
            Err(failure) => {
                proof {
                    lemma_messages_failure(all, location@, agents, index + 1);
                }
                return Err(failure);
            },
        }
    }
    assert(all.take(all.len() as int) =~= all);
    Ok(messages)
}

/// What the queries about one session of the database gave.
pub struct DatabaseReadings {
    /// The session's title, if the session is there.
    pub title: Result<Option<String>, BillError>,
    /// How many sessions are billed.
    pub session_count: Result<usize, BillError>,
    /// The names of the columns of the table of sessions.
    pub columns: Vec<Result<String, BillError>>,
    /// The billed sessions with their agents; not needed where there is no column for agents.
    pub agents: Vec<Result<(String, Option<String>), BillError>>,
    /// The messages of the billed sessions with the session that each belongs to.
    pub messages: Vec<Result<(String, String), BillError>>,
}

/// The session that the readings describe, or the first of them that fails.
pub open spec fn database_outcome(
    id: Seq<char>,
    readings: DatabaseReadings,
    location: Seq<char>,
) -> Result<SessionView, BillErrorView> {
    match readings.title {
        Err(failure) => Err(failure@),
        Ok(None) => Err(BillErrorView::SessionNotFound(id)),
        Ok(Some(title)) => match readings.session_count {
            Err(failure) => Err(failure@),
            Ok(session_count) => match recorded_agents(readings.columns@, readings.agents@) {
                Err(failure) => Err(failure),
                Ok(session_agents) => match messages_from(
                    readings.messages@,
                    location,
                    session_agents,
                ) {
                    Err(failure) => Err(failure),
                    Ok(messages) => Ok(
                        SessionView {
                            id,
                            title: title@,
                            session_count: session_count as nat,
                            session_agents,
                            messages,
                        },
                    ),
                },
            },
        },
    }
}

/// Whether the outcome is the one given by its contents.
pub open spec fn is_session(
    outcome: Result<SessionData, BillError>,
    expected: Result<SessionView, BillErrorView>,
) -> bool {
    match outcome {
        Ok(session) => session.well_formed() && expected == Ok::<SessionView, BillErrorView>(
            session@,
        ),
        Err(failure) => expected == Err::<SessionView, BillErrorView>(failure@),
    }
}

/// Puts together a session from what the database says of it.
pub fn load_database_session(id: String, readings: DatabaseReadings, location: &str) -> (session:
    Result<SessionData, BillError>)
    ensures
        is_session(session, database_outcome(id@, readings, location@)),
{
    let stored = match readings.title {
        Ok(stored) => stored,
        Err(failure) => return Err(failure),
    };
    let title = match database_title(stored, id.as_str()) {
        Ok(title) => title,
        Err(failure) => return Err(failure),
    };
    let session_count: usize = match readings.session_count {
        Ok(session_count) => session_count,
        Err(failure) => return Err(failure),
    };
    let session_agents = match database_session_agents(readings.columns, readings.agents) {
        Ok(session_agents) => session_agents,
        Err(failure) => return Err(failure),
    };
    let messages = match database_messages(readings.messages, location, &session_agents) {
        Ok(messages) => messages,
        Err(failure) => return Err(failure),
    };
    Ok(SessionData { id, title, session_count, session_agents, messages })
}

/// A reference is refused for its length where it takes fewer than six bytes, and otherwise for its
/// characters where one of them is no ASCII letter, no digit, no `_` and no `-`.
pub proof fn law_refused_references(reference: Seq<char>)
    ensures
        ({
            let plain = forall|i: int|
                0 <= i < reference.len() ==> {
                    let c = #[trigger] reference[i];
                    ('a' <= c && c <= 'z') || ('A' <= c && c <= 'Z') || ('0' <= c && c <= '9') || c
                        == '_' || c == '-'
                };
            &&& reference_error(reference) is None <==> reference.len() >= 6 && plain
            &&& vstd::utf8::encode_utf8(reference).len() < 6 ==> reference_error(reference) == Some(
                BillErrorView::InvalidSessionReference("must contain at least 6 characters"@),
            )
            &&& vstd::utf8::encode_utf8(reference).len() >= 6 && !plain ==> reference_error(
                reference,
            ) == Some(
                BillErrorView::InvalidSessionReference(
                    "only ASCII letters, digits, '_' and '-' are allowed"@,
                ),
            )
        }),
{
    law_accepted_references(reference);
    if is_plain(reference) {
        assert forall|i: int| 0 <= i < reference.len() implies {
            let c = #[trigger] reference[i];
            ('a' <= c && c <= 'z') || ('A' <= c && c <= 'Z') || ('0' <= c && c <= '9') || c == '_'
                || c == '-'
        } by {
            assert(is_reference_char(reference[i]));
        }
    } else {
        let i = choose|i: int|
            0 <= i < reference.len() && !is_reference_char(#[trigger] reference[i]);
        assert(!is_reference_char(reference[i]));
    }
}

/// An ambiguous reference is reported with the names of its first ten matches, or of all where there
/// are fewer, in their order.
pub proof fn law_reported_matches<T: MatchName>(found: Seq<T>, index: int)
    ensures
        reported_names(found).len() == (if found.len() < 10 {
            found.len() as int
        } else {
            10
        }),
        0 <= index < reported_names(found).len() ==> reported_names(found)[index]
            == found[index].name_view(),
{
}

proof fn lemma_starting_filter(names: Seq<Seq<char>>, reference: Seq<char>)
    ensures
        starting(names, reference) == names.filter(
            |name: Seq<char>|
                name.len() >= reference.len() && (forall|i: int|
                    0 <= i < reference.len() ==> #[trigger] reference[i] == name[i]),
        ),
    decreases names.len(),
{
    reveal(Seq::filter);
    if names.len() > 0 {
        lemma_starting_filter(names.drop_last(), reference);
        let last = names.last();
        if reference.len() <= last.len() {
            let front = last.subrange(0, reference.len() as int);
            if reference.is_prefix_of(last) {
                assert forall|i: int| 0 <= i < reference.len() implies #[trigger] reference[i]
                    == last[i] by {
                    assert(front[i] == last[i]);
                }
            }
            if forall|i: int| 0 <= i < reference.len() ==> #[trigger] reference[i] == last[i] {
                assert(front =~= reference);
            }
        }
    } else {
        assert(starting(names, reference) =~= names);
    }
}

/// A reference that is no session's own name stands for the sessions whose names have the whole of
/// it, character by character, at their start, in their order and no other.
pub proof fn law_selected_by_prefix(names: Seq<Seq<char>>, reference: Seq<char>)
    requires
        !names.contains(reference),
    ensures
        selected(names, reference) == names.filter(
            |name: Seq<char>|
                name.len() >= reference.len() && (forall|i: int|
                    0 <= i < reference.len() ==> #[trigger] reference[i] == name[i]),
        ),
{
    lemma_starting_filter(names, reference);
}

/// The rows of the matches are taken one after another; the first that could not be read is reported.
pub proof fn law_match_rows(rows: Seq<Result<String, BillError>>, row: Result<String, BillError>)
    ensures
        matches_from(Seq::empty()) == Ok::<Seq<Seq<char>>, BillErrorView>(Seq::empty()),
        match (matches_from(rows), row) {
            (Err(_), _) => matches_from(rows.push(row)) == matches_from(rows),
            (Ok(_), Err(failure)) => matches_from(rows.push(row)) == Err::<
                Seq<Seq<char>>,
                BillErrorView,
            >(failure@),
            (Ok(names), Ok(name)) => matches_from(rows.push(row)) == Ok::<
                Seq<Seq<char>>,
                BillErrorView,
            >(names.push(name@)),
        },
{
    assert(rows.push(row).drop_last() =~= rows);
    assert(rows.push(row).last() == row);
}

/// Agents are recorded where some column is named `agent` and all columns before it could be read;
/// they are not where all could be read and none has that name. Otherwise the first column that
/// could not be read is reported.
pub proof fn law_agent_columns(columns: Seq<Result<String, BillError>>)
    ensures
        match agent_column(columns) {
            Ok(true) => exists|i: int|
                0 <= i < columns.len() && (#[trigger] columns[i]) is Ok && columns[i]->Ok_0@
                    == "agent"@ && (forall|j: int| 0 <= j < i ==> (#[trigger] columns[j]) is Ok),
            Ok(false) => forall|i: int|
                0 <= i < columns.len() ==> (#[trigger] columns[i]) is Ok && columns[i]->Ok_0@
                    != "agent"@,
            Err(failure) => exists|i: int|
                0 <= i < columns.len() && (#[trigger] columns[i]) is Err && columns[i]->Err_0@
                    == failure && (forall|j: int|
                    0 <= j < i ==> (#[trigger] columns[j]) is Ok && columns[j]->Ok_0@ != "agent"@),
        },
    decreases columns.len(),
{
    if columns.len() > 0 {
        if columns[0] is Ok && columns[0]->Ok_0@ != "agent"@ {
            let rest = columns.drop_first();
            law_agent_columns(rest);
            assert forall|j: int| 0 < j < columns.len() implies #[trigger] columns[j] == rest[j
                - 1] by {}
            match agent_column(columns) {
                Ok(true) => {
                    let i = choose|i: int|
                        0 <= i < rest.len() && (#[trigger] rest[i]) is Ok && rest[i]->Ok_0@
                            == "agent"@ && (forall|j: int|
                            0 <= j < i ==> (#[trigger] rest[j]) is Ok);
                    assert(columns[i + 1] == rest[i]);
                },
                Ok(false) => {},
                Err(failure) => {
                    let i = choose|i: int|
                        0 <= i < rest.len() && (#[trigger] rest[i]) is Err && rest[i]->Err_0@
                            == failure && (forall|j: int|
                            0 <= j < i ==> (#[trigger] rest[j]) is Ok && rest[j]->Ok_0@
                                != "agent"@);
                    assert(columns[i + 1] == rest[i]);
                },
            }
        } else {
            assert(columns[0] == columns[0]);
        }
    }
}

/// A row gives its session the agent that it names; one without an agent, or with an empty one,
/// changes nothing; the first that could not be read is reported.
pub proof fn law_agent_rows(
    rows: Seq<Result<(String, Option<String>), BillError>>,
    row: Result<(String, Option<String>), BillError>,
)
    ensures
        agents_from(Seq::empty()) == Ok::<Map<Seq<char>, Seq<char>>, BillErrorView>(Map::empty()),
        match (agents_from(rows), row) {
            (Err(_), _) => agents_from(rows.push(row)) == agents_from(rows),
            (Ok(_), Err(failure)) => agents_from(rows.push(row)) == Err::<
                Map<Seq<char>, Seq<char>>,
                BillErrorView,
            >(failure@),
            (Ok(agents), Ok((session, None))) => agents_from(rows.push(row)) == agents_from(rows),
            (Ok(agents), Ok((session, Some(agent)))) => if agent@.len() == 0 {
                agents_from(rows.push(row)) == agents_from(rows)
            } else {
                agents_from(rows.push(row)) == Ok::<Map<Seq<char>, Seq<char>>, BillErrorView>(
                    agents.insert(session@, agent@),
                )
            },
        },
{
    assert(rows.push(row).drop_last() =~= rows);
    assert(rows.push(row).last() == row);
}

/// The rows of agents count only where there is a column for agents.
pub proof fn law_recorded_agents(
    columns: Seq<Result<String, BillError>>,
    rows: Seq<Result<(String, Option<String>), BillError>>,
)
    ensures
        agent_column(columns) == Ok::<bool, BillErrorView>(true) ==> recorded_agents(columns, rows)
            == agents_from(rows),
        agent_column(columns) == Ok::<bool, BillErrorView>(false) ==> recorded_agents(columns, rows)
            == Ok::<Map<Seq<char>, Seq<char>>, BillErrorView>(Map::empty()),
        agent_column(columns) is Err ==> recorded_agents(columns, rows) == Err::<
            Map<Seq<char>, Seq<char>>,
            BillErrorView,
        >(agent_column(columns)->Err_0),
{
}

/// A row adds its message behind those before it where it reports usage, and nothing where it does
/// not. The message is read for the row's session and with the agent that this session is known to
/// have. The first row that could not be read or used is reported.
pub proof fn law_message_rows(
    rows: Seq<Result<(String, String), BillError>>,
    row: Result<(String, String), BillError>,
    location: Seq<char>,
    agents: Map<Seq<char>, Seq<char>>,
)
    ensures
        messages_from(Seq::empty(), location, agents) == Ok::<Seq<MessageView>, BillErrorView>(
            Seq::empty(),
        ),
        match (messages_from(rows, location, agents), row) {
            (Err(_), _) => messages_from(rows.push(row), location, agents) == messages_from(
                rows,
                location,
                agents,
            ),
            (Ok(_), Err(failure)) => messages_from(rows.push(row), location, agents) == Err::<
                Seq<MessageView>,
                BillErrorView,
            >(failure@),
            (Ok(messages), Ok((session, json))) => match message::parse_outcome(
                json@,
                location,
                session@,
                if agents.dom().contains(session@) {
                    Some(agents[session@])
                } else {
                    None
                },
            ) {
                Err(failure) => messages_from(rows.push(row), location, agents) == Err::<
                    Seq<MessageView>,
                    BillErrorView,
                >(failure),
                Ok(Some(message)) => messages_from(rows.push(row), location, agents) == Ok::<
                    Seq<MessageView>,
                    BillErrorView,
                >(messages.push(message)),
                Ok(None) => messages_from(rows.push(row), location, agents) == messages_from(
                    rows,
                    location,
                    agents,
                ),
            },
        },
{
    assert(rows.push(row).drop_last() =~= rows);
    assert(rows.push(row).last() == row);
}

/// A session of the database has the title, the count, the agents and the messages that were read
/// for it. Where readings fail, the title's failure is reported before that of the count, this before
/// that of the agents, and this before that of the messages; a session without a title is not there.
pub proof fn law_database_session(
    id: Seq<char>,
    readings: DatabaseReadings,
    location: Seq<char>,
)
    ensures
        match database_outcome(id, readings, location) {
            Ok(session) => {
                &&& session.id == id
                &&& readings.title is Ok && readings.title->Ok_0 is Some
                &&& session.title == readings.title->Ok_0->0@
                &&& readings.session_count is Ok
                &&& session.session_count == readings.session_count->Ok_0
                &&& recorded_agents(readings.columns@, readings.agents@) == Ok::<
                    Map<Seq<char>, Seq<char>>,
                    BillErrorView,
                >(session.session_agents)
                &&& messages_from(readings.messages@, location, session.session_agents) == Ok::<
                    Seq<MessageView>,
                    BillErrorView,
                >(session.messages)
            },
            Err(failure) => if readings.title is Err {
                failure == readings.title->Err_0@
            } else if readings.title->Ok_0 is None {
                failure == BillErrorView::SessionNotFound(id)
            } else if readings.session_count is Err {
                failure == readings.session_count->Err_0@
            } else {
                match recorded_agents(readings.columns@, readings.agents@) {
                    Err(unread) => failure == unread,
                    Ok(agents) => messages_from(readings.messages@, location, agents) == Err::<
                        Seq<MessageView>,
                        BillErrorView,
                    >(failure),
                }
            },
        },
{
}

/// A session that was put together is the expected one where both are there, and the same, or where
/// both fail, and alike.
pub proof fn law_session_outcomes(
    outcome: Result<SessionData, BillError>,
    expected: Result<SessionView, BillErrorView>,
)
    requires
        is_session(outcome, expected),
    ensures
        outcome is Ok <==> expected is Ok,
        outcome is Err ==> expected->Err_0 == outcome->Err_0@,
        outcome is Ok ==> expected->Ok_0 == outcome->Ok_0@,
{
}

/// The contents of a session are its own fields, each under its own name.
pub proof fn law_session_contents(session: SessionData)
    ensures
        session@.id == session.id@,
        session@.title == session.title@,
        session@.session_count == session.session_count,
        session@.session_agents == usage::agent_names(session.session_agents),
        session@.messages == usage::message_views(session.messages@),
{
}

} // verus!
