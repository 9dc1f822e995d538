//! The bill: tables of usage and rates, and the amount due.
use crate::binary64::{self, Binary64};
use crate::context::StorageContext;
use crate::count;
use crate::decimal;
use crate::error::{BillError, BillErrorView};
use crate::json;
use crate::ordered::{ModelKey, ModelKeyView, OrderedMap};
use crate::pricing::{self, CatalogFile, ModelRates};
use crate::session::{self, SessionData, SessionView};
use crate::table;
use crate::text;
use crate::usage::{self, AgentUsage, MessageView, Selection, Totals, TotalsView};
use vstd::prelude::*;

verus! {

/// The name that a model goes by on the bill.
pub open spec fn model_cell(key: ModelKeyView) -> Seq<char> {
    key.provider + " / "@ + key.model
}

/// A cost as the bill shows it.
pub open spec fn cost_cell(cost: Option<nat>) -> Seq<char> {
    "$"@ + binary64::amount_text(cost, 6)
}

/// A rate as the bill shows it.
pub open spec fn rate_cell(rate: Option<Binary64>) -> Seq<char> {
    match rate {
        Some(known) => "$"@ + known.fixed(3),
        None => "-"@,
    }
}

/// The line of a model.
pub open spec fn usage_cells(key: ModelKeyView, totals: TotalsView) -> Seq<Seq<char>> {
    seq![
        model_cell(key),
        count::compact(totals.counts.requests),
        count::compact(totals.counts.input),
        count::compact(totals.counts.cache_read),
        count::compact(totals.counts.cache_write),
        count::compact(totals.counts.output),
        count::compact(totals.counts.reasoning),
        cost_cell(totals.cost),
    ]
}

/// The line of an agent.
pub open spec fn agent_cells(agent: Seq<char>, sessions: nat, totals: TotalsView) -> Seq<
    Seq<char>,
> {
    seq![
        agent,
        count::compact(sessions),
        count::compact(totals.counts.requests),
        count::compact(totals.counts.input),
        count::compact(totals.counts.cache_read),
        count::compact(totals.counts.cache_write),
        count::compact(totals.counts.output),
        count::compact(totals.counts.reasoning),
        cost_cell(totals.cost),
    ]
}

/// The line of a model's rates.
pub open spec fn pricing_cells(key: ModelKeyView, rates: ModelRates) -> Seq<Seq<char>> {
    seq![
        model_cell(key),
        rate_cell(rates.input),
        rate_cell(rates.cache_read),
        rate_cell(rates.cache_write),
        rate_cell(rates.output),
    ]
}

fn model_name(key: &ModelKey) -> (name: String)
    ensures
        name@ == model_cell(key@),
{
    let mut name = key.provider.clone();
    name.append(" / ");
    name.append(key.model.as_str());
    name
}

fn format_cost(cost: Binary64) -> (shown: String)
    requires
        cost.is_amount(),
        !cost.is_signed(),
    ensures
        shown@ == cost_cell(cost.amount()),
{
    let mut shown = "$".to_owned();
    let amount = cost.fixed_text(6);
    shown.append(amount.as_str());
    assert(amount@ =~= binary64::amount_text(cost.amount(), 6));
    shown
}

/// Renders a rate.
pub fn format_rate(rate: Option<Binary64>) -> (shown: String)
    requires
        rate matches Some(known) ==> known.is_price(),
    ensures
        shown@ == rate_cell(rate),
{
    match rate {
        Some(known) => {
            let mut shown = "$".to_owned();
            let amount = known.fixed_text(3);
            shown.append(amount.as_str());
            shown
        },
        None => "-".to_owned(),
    }
}

/// Renders the line of a model.
pub fn usage_row(key: &ModelKey, totals: &Totals) -> (row: Vec<String>)
    requires
        totals.well_formed(),
    ensures
        text::texts(row@) == usage_cells(key@, totals@),
{
    let row = vec![
        model_name(key),
        count::compact_count(totals.requests),
        count::compact_count(totals.input),
        count::compact_count(totals.cache_read),
        count::compact_count(totals.cache_write),
        count::compact_count(totals.output),
        count::compact_count(totals.reasoning),
        format_cost(totals.cost),
    ];
    assert(text::texts(row@) =~= usage_cells(key@, totals@));
    row
}

/// Renders the line of an agent.
pub fn agent_row(agent: &String, usage: &AgentUsage) -> (row: Vec<String>)
    requires
        usage.sessions.well_formed(),
        usage.totals.well_formed(),
    ensures
        text::texts(row@) == agent_cells(agent@, usage.sessions@.dom().len(), usage.totals@),
{
    let totals = &usage.totals;
    let sessions: usize = usage.sessions.len();
    let row = vec![
        agent.clone(),
        count::compact_count(sessions as u64),
        count::compact_count(totals.requests),
        count::compact_count(totals.input),
        count::compact_count(totals.cache_read),
        count::compact_count(totals.cache_write),
        count::compact_count(totals.output),
        count::compact_count(totals.reasoning),
        format_cost(totals.cost),
    ];
    assert(text::texts(row@) =~= agent_cells(agent@, usage.sessions@.dom().len(), usage.totals@));
    row
}

/// Renders the line of a model's rates.
pub fn pricing_row(key: &ModelKey, rates: &ModelRates) -> (row: Vec<String>)
    requires
        rates.well_formed(),
    ensures
        text::texts(row@) == pricing_cells(key@, *rates),
{
    let row = vec![
        model_name(key),
        format_rate(rates.input),
        format_rate(rates.cache_read),
        format_rate(rates.cache_write),
        format_rate(rates.output),
    ];
    assert(text::texts(row@) =~= pricing_cells(key@, *rates));
    row
}

/// The headers of the table of models.
pub open spec fn usage_headers() -> Seq<Seq<char>> {
    seq![
        "PROVIDER / MODEL"@,
        "REQUESTS"@,
        "INPUT"@,
        "CACHE READ"@,
        "CACHE WRITE"@,
        "OUTPUT"@,
        "REASONING"@,
        "COST (USD)"@,
    ]
}

/// The headers of the table of agents.
pub open spec fn agent_headers() -> Seq<Seq<char>> {
    seq![
        "AGENT"@,
        "SESSIONS"@,
        "REQUESTS"@,
        "INPUT"@,
        "CACHE READ"@,
        "CACHE WRITE"@,
        "OUTPUT"@,
        "REASONING"@,
        "COST (USD)"@,
    ]
}

/// The headers of the table of rates.
pub open spec fn pricing_headers() -> Seq<Seq<char>> {
    seq!["PROVIDER / MODEL"@, "INPUT"@, "CACHE READ"@, "CACHE WRITE"@, "OUTPUT"@]
}

/// The lines of the models.
pub open spec fn usage_rows(messages: Seq<MessageView>) -> Seq<Seq<Seq<char>>> {
    usage::model_keys(messages).map_values(
        |key: ModelKeyView|
            usage_cells(key, usage::totals_of(messages, Selection::Model(key))),
    )
}

/// The lines of the agents.
pub open spec fn agent_rows(
    agents: Map<Seq<char>, Seq<char>>,
    messages: Seq<MessageView>,
) -> Seq<Seq<Seq<char>>> {
    usage::agent_keys(agents, messages).map_values(
        |agent: Seq<char>|
            agent_cells(
                agent,
                usage::sessions_of(agents, messages, agent).len(),
                usage::totals_of(messages, Selection::Agent(agent)),
            ),
    )
}

/// The rates that are shown for a model: those that are known, or none.
pub open spec fn shown_rates(
    rates: Map<ModelKeyView, ModelRates>,
    key: ModelKeyView,
) -> ModelRates {
    if rates.dom().contains(key) {
        rates[key]
    } else {
        ModelRates { input: None, cache_read: None, cache_write: None, output: None }
    }
}

/// The lines of the rates, one for each model that was used.
pub open spec fn pricing_rows(
    messages: Seq<MessageView>,
    rates: Map<ModelKeyView, ModelRates>,
) -> Seq<Seq<Seq<char>>> {
    usage::model_keys(messages).map_values(
        |key: ModelKeyView| pricing_cells(key, shown_rates(rates, key)),
    )
}

/// The lines above the tables.
pub open spec fn heading_text(session: SessionView) -> Seq<char> {
    "OPENCODE SESSION BILL\nSession: "@ + session.id + "\nTitle:   "@ + session.title
        + "\nSessions: "@ + decimal::decimal(session.session_count)
        + " (root + descendants)\nMessages: "@ + decimal::decimal(session.messages.len())
        + "\n\n"@
}

/// The table of rates, which is left out where no model was used.
pub open spec fn pricing_text(
    messages: Seq<MessageView>,
    rates: Map<ModelKeyView, ModelRates>,
) -> Seq<char> {
    if messages.len() == 0 {
        Seq::empty()
    } else {
        "\nMODEL PRICING (USD / 1M TOKENS)\n"@ + table::table_text(
            pricing_headers(),
            pricing_rows(messages, rates),
        )
    }
}

/// The lines below the tables.
pub open spec fn total_text(total: TotalsView) -> Seq<char> {
    "\nTOTAL\nRequests:    "@ + count::compact(total.counts.requests) + "\nInput:       "@
        + count::compact(total.counts.input) + "\nCache read:  "@ + count::compact(
        total.counts.cache_read,
    ) + "\nCache write: "@ + count::compact(total.counts.cache_write) + "\nOutput:      "@
        + count::compact(total.counts.output) + "\nReasoning:   "@ + count::compact(
        total.counts.reasoning,
    ) + "\nAmount due:  $"@ + binary64::amount_text(total.cost, 6) + " USD\n"@
}

/// The whole bill.
pub open spec fn bill_text(session: SessionView, rates: Map<ModelKeyView, ModelRates>) -> Seq<
    char,
> {
    heading_text(session) + table::table_text(usage_headers(), usage_rows(session.messages))
        + "\nUSAGE BY AGENT CLASS\n"@ + table::table_text(
        agent_headers(),
        agent_rows(session.session_agents, session.messages),
    ) + pricing_text(session.messages, rates) + total_text(usage::grand_total(session.messages))
}

fn push_heading(output: &mut String, session: &SessionData)
    ensures
        final(output)@ == old(output)@ + heading_text(session@),
{
    let ghost before = output@;
    output.append("OPENCODE SESSION BILL\nSession: ");
    output.append(session.id.as_str());
    output.append("\nTitle:   ");
    output.append(session.title.as_str());
    output.append("\nSessions: ");
    let sessions = decimal::decimal_text(session.session_count as u128);
    output.append(sessions.as_str());
    output.append(" (root + descendants)\nMessages: ");
    let messages = decimal::decimal_text(session.messages.len() as u128);
    output.append(messages.as_str());
    output.append("\n\n");
    assert(output@ =~= before + heading_text(session@));
}

fn push_total(output: &mut String, total: &Totals)
    requires
        total.well_formed(),
    ensures
        final(output)@ == old(output)@ + total_text(total@),
{
    let ghost before = output@;
    let requests = count::compact_count(total.requests);
    let input = count::compact_count(total.input);
    let cache_read = count::compact_count(total.cache_read);
    let cache_write = count::compact_count(total.cache_write);
    let written = count::compact_count(total.output);
    let reasoning = count::compact_count(total.reasoning);
    let amount = total.cost.fixed_text(6);
    assert(amount@ =~= binary64::amount_text(total@.cost, 6));
    output.append("\nTOTAL\nRequests:    ");
    output.append(requests.as_str());
    output.append("\nInput:       ");
    output.append(input.as_str());
    output.append("\nCache read:  ");
    output.append(cache_read.as_str());
    output.append("\nCache write: ");
    output.append(cache_write.as_str());
    output.append("\nOutput:      ");
    output.append(written.as_str());
    output.append("\nReasoning:   ");
    output.append(reasoning.as_str());
    output.append("\nAmount due:  $");
    output.append(amount.as_str());
    output.append(" USD\n");
    assert(output@ =~= before + total_text(total@));
}

fn render_usage(usage: &OrderedMap<ModelKey, Totals>, Ghost(messages): Ghost<Seq<MessageView>>) -> (
    drawn: Result<String, BillError>)
    requires
        usage::is_model_usage(messages, *usage),
    ensures
        drawn matches Ok(table) && table@ == table::table_text(
            usage_headers(),
            usage_rows(messages),
        ),
{
    let mut rows: Vec<Vec<String>> = Vec::new();
    let ghost all = usage_rows(messages);
    let mut index: usize = 0;
    proof {
        usage::lemma_model_usage_listed(messages, *usage);
    }
    assert(table::row_texts(rows@) =~= all.take(0));
    while index < usage.entries.len()
        invariant
            index <= usage.entries.len(),
            all == usage_rows(messages),
            usage.keys() == usage::model_keys(messages),
            forall|i: int|
                0 <= i < usage.entries@.len() ==> (#[trigger] usage.entries@[i]).1.well_formed()
                    && usage.entries@[i].1@ == usage::totals_of(
                    messages,
                    Selection::Model(usage::model_keys(messages)[i]),
                ),
            table::row_texts(rows@) == all.take(index as int),
        decreases usage.entries.len() - index,
    {
        let ghost before = rows@;
        let entry = &usage.entries[index];
        let row = usage_row(&entry.0, &entry.1);
        rows.push(row);
        assert(usage.keys()[index as int] == entry.0@);
        assert(all[index as int] == text::texts(row@));
        assert(table::row_texts(rows@) =~= table::row_texts(before).push(text::texts(row@)));
        assert(all.take(index + 1) =~= all.take(index as int).push(text::texts(row@)));
        index = index + 1;
    }
    assert(all.take(index as int) =~= all);
    let headers = vec![
        "PROVIDER / MODEL",
        "REQUESTS",
        "INPUT",
        "CACHE READ",
        "CACHE WRITE",
        "OUTPUT",
        "REASONING",
        "COST (USD)",
    ];
    assert(table::header_texts(headers@) =~= usage_headers());
    table::render_table(headers.as_slice(), rows.as_slice())
}

fn render_agents(
    usage: &OrderedMap<String, AgentUsage>,
    Ghost(agents): Ghost<Map<Seq<char>, Seq<char>>>,
    Ghost(messages): Ghost<Seq<MessageView>>,
) -> (drawn: Result<String, BillError>)
    requires
        usage::is_agent_usage(agents, messages, *usage),
    ensures
        drawn matches Ok(table) && table@ == table::table_text(
            agent_headers(),
            agent_rows(agents, messages),
        ),
{
    let mut rows: Vec<Vec<String>> = Vec::new();
    let ghost all = agent_rows(agents, messages);
    let mut index: usize = 0;
    proof {
        usage::lemma_agent_usage_listed(agents, messages, *usage);
    }
    assert(table::row_texts(rows@) =~= all.take(0));
    while index < usage.entries.len()
        invariant
            index <= usage.entries.len(),
            all == agent_rows(agents, messages),
            usage.keys() == usage::agent_keys(agents, messages),
            forall|i: int|
                0 <= i < usage.entries@.len() ==> {
                    let entry = #[trigger] usage.entries@[i];
                    let agent = usage::agent_keys(agents, messages)[i];
                    &&& entry.1.sessions.well_formed()
                    &&& entry.1.sessions@.dom() == usage::sessions_of(agents, messages, agent)
                    &&& entry.1.totals.well_formed()
                    &&& entry.1.totals@ == usage::totals_of(messages, Selection::Agent(agent))
                },
            table::row_texts(rows@) == all.take(index as int),
        decreases usage.entries.len() - index,
    {
        let ghost before = rows@;
        let entry = &usage.entries[index];
        let row = agent_row(&entry.0, &entry.1);
        rows.push(row);
        assert(usage.keys()[index as int] == entry.0@);
        assert(all[index as int] == text::texts(row@));
        assert(table::row_texts(rows@) =~= table::row_texts(before).push(text::texts(row@)));
        assert(all.take(index + 1) =~= all.take(index as int).push(text::texts(row@)));
        index = index + 1;
    }
    assert(all.take(index as int) =~= all);
    let headers = vec![
        "AGENT",
        "SESSIONS",
        "REQUESTS",
        "INPUT",
        "CACHE READ",
        "CACHE WRITE",
        "OUTPUT",
        "REASONING",
        "COST (USD)",
    ];
    assert(table::header_texts(headers@) =~= agent_headers());
    table::render_table(headers.as_slice(), rows.as_slice())
}

/// Every rate that is known is a price.
pub open spec fn all_rates_usable(rates: Map<ModelKeyView, ModelRates>) -> bool {
    forall|key: ModelKeyView| #[trigger] rates.dom().contains(key) ==> rates[key].well_formed()
}

fn render_rates(
    usage: &OrderedMap<ModelKey, Totals>,
    rates: &OrderedMap<ModelKey, ModelRates>,
    Ghost(messages): Ghost<Seq<MessageView>>,
) -> (drawn: Result<String, BillError>)
    requires
        usage::is_model_usage(messages, *usage),
        rates.well_formed(),
        all_rates_usable(rates@),
    ensures
        drawn matches Ok(table) && table@ == table::table_text(
            pricing_headers(),
            pricing_rows(messages, rates@),
        ),
{
    let mut rows: Vec<Vec<String>> = Vec::new();
    let ghost all = pricing_rows(messages, rates@);
    let mut index: usize = 0;
    proof {
        usage::lemma_model_usage_listed(messages, *usage);
    }
    assert(table::row_texts(rows@) =~= all.take(0));
    while index < usage.entries.len()
        invariant
            index <= usage.entries.len(),
            rates.well_formed(),
            all_rates_usable(rates@),
            all == pricing_rows(messages, rates@),
            usage.keys() == usage::model_keys(messages),
            table::row_texts(rows@) == all.take(index as int),
        decreases usage.entries.len() - index,
    {
        let ghost before = rows@;
        let key = &usage.entries[index].0;
        let shown = match rates.get(key) {
            Some(known) => *known,
            None => ModelRates { input: None, cache_read: None, cache_write: None, output: None },
        };
        let row = pricing_row(key, &shown);
        rows.push(row);
        assert(usage.keys()[index as int] == key@);
        assert(all[index as int] == text::texts(row@));
        assert(table::row_texts(rows@) =~= table::row_texts(before).push(text::texts(row@)));
        assert(all.take(index + 1) =~= all.take(index as int).push(text::texts(row@)));
        index = index + 1;
    }
    assert(all.take(index as int) =~= all);
    let headers = vec!["PROVIDER / MODEL", "INPUT", "CACHE READ", "CACHE WRITE", "OUTPUT"];
    assert(table::header_texts(headers@) =~= pricing_headers());
    table::render_table(headers.as_slice(), rows.as_slice())
}

fn add_up(usage: &OrderedMap<ModelKey, Totals>, Ghost(messages): Ghost<Seq<MessageView>>) -> (total:
    Totals)
    requires
        usage::is_model_usage(messages, *usage),
        usage::usage_fits(messages),
    ensures
        total.well_formed(),
        total@ == usage::grand_total(messages),
{
    let mut total = Totals::builder().zeroed().build();
    let ghost selections = usage::by_model(usage::model_keys(messages));
    let mut index: usize = 0;
    proof {
        usage::lemma_model_usage_listed(messages, *usage);
        usage::law_models_add_up(messages);
    }
    assert(selections.len() == usage.entries.len());
    while index < usage.entries.len()
        invariant
            index <= usage.entries.len() == selections.len(),
            selections == usage::by_model(usage::model_keys(messages)),
            usage::combined(messages, selections).counts.fits(),
            forall|i: int|
                0 <= i < usage.entries@.len() ==> (#[trigger] usage.entries@[i]).1.well_formed()
                    && usage.entries@[i].1@ == usage::totals_of(
                    messages,
                    Selection::Model(usage::model_keys(messages)[i]),
                ),
            total.well_formed(),
            total@ == usage::combined(messages, selections.take(index as int)),
        decreases usage.entries.len() - index,
    {
        proof {
            let more = selections.take(index + 1);
            assert(more.drop_last() =~= selections.take(index as int));
            assert(more.last() == Selection::Model(usage::model_keys(messages)[index as int]));
            usage::lemma_combined_within(messages, selections, index + 1);
        }
        total = usage::add_totals(total, &usage.entries[index].1);
        index = index + 1;
    }
    assert(selections.take(index as int) =~= selections);
    total
}

/// Renders the bill of a session.
pub fn render_bill(
    session: &SessionData,
    usage: &OrderedMap<ModelKey, Totals>,
    rates: &OrderedMap<ModelKey, ModelRates>,
) -> (bill: Result<String, BillError>)
    requires
        session.well_formed(),
        usage::usage_fits(session@.messages),
        usage::is_model_usage(session@.messages, *usage),
        rates.well_formed(),
        all_rates_usable(rates@),
    ensures
        bill matches Ok(rendered) && rendered@ == bill_text(session@, rates@),
{
    let ghost messages = session@.messages;
    let ghost agents = session@.session_agents;
    let agent_usage = usage::aggregate_agents(&session.messages, &session.session_agents);
    let total = add_up(usage, Ghost(messages));
    let mut output = String::new();
    push_heading(&mut output, session);
    let usage_table = match render_usage(usage, Ghost(messages)) {
        Ok(table) => table,
        Err(failure) => {
            return Err(failure);
        },
    };
    output.append(usage_table.as_str());
    output.append("\nUSAGE BY AGENT CLASS\n");
    let agent_table = match render_agents(&agent_usage, Ghost(agents), Ghost(messages)) {
        Ok(table) => table,
        Err(failure) => {
            return Err(failure);
        },
    };
    output.append(agent_table.as_str());
    let ghost above = output@;
    if session.messages.len() > 0 {
        output.append("\nMODEL PRICING (USD / 1M TOKENS)\n");
        let rate_table = match render_rates(usage, rates, Ghost(messages)) {
            Ok(table) => table,
            Err(failure) => {
                return Err(failure);
            },
        };
        output.append(rate_table.as_str());
    }
    assert(output@ =~= above + pricing_text(messages, rates@));
    push_total(&mut output, &total);
    assert(output@ =~= bill_text(session@, rates@));
    Ok(output)
}

/// A bill that lacks at most what the pricing page has to say.
pub struct Draft {
    /// The session.
    pub session: SessionData,
    /// What each model used.
    pub usage: OrderedMap<ModelKey, Totals>,
    /// The rates that the catalog gives.
    pub rates: OrderedMap<ModelKey, ModelRates>,
    /// The models that only the pricing page can still price.
    pub missing: Vec<ModelKey>,
}

impl Draft {
    /// The parts belong together.
    pub open spec fn well_formed(self) -> bool {
        &&& self.session.well_formed()
        &&& usage::usage_fits(self.session@.messages)
        &&& usage::is_model_usage(self.session@.messages, self.usage)
        &&& self.rates.well_formed()
        &&& all_rates_usable(self.rates@)
        &&& pricing::key_views(self.missing@) == pricing::missing_from(
            usage::model_keys(self.session@.messages),
            self.rates@,
        )
    }

    /// The rates, with those that the page adds.
    pub open spec fn rates_with(self, page: Option<Seq<char>>) -> Map<ModelKeyView, ModelRates> {
        pricing::with_page(self.rates@, pricing::key_views(self.missing@), page)
    }

    /// Whether the pricing page is of use.
    pub fn wants_page(&self) -> (wanted: bool)
        ensures
            wanted == (self.missing@.len() > 0),
    {
        self.missing.len() > 0
    }

    /// Completes the bill with the pricing page, if there is one.
    pub fn finish(self, page: &Option<String>) -> (bill: Result<String, BillError>)
        requires
            self.well_formed(),
        ensures
            bill matches Ok(rendered) && rendered@ == bill_text(
                self.session@,
                self.rates_with(json::text_view(*page)),
            ),
    {
        let mut rates = self.rates;
        pricing::add_page_rates(&mut rates, &self.missing, page);
        proof {
            pricing::lemma_page_rates_usable(
                self.rates@,
                pricing::key_views(self.missing@),
                json::text_view(*page),
            );
        }
        render_bill(&self.session, &self.usage, &rates)
    }
}

/// Why there is no bill: the reference, the session or the catalog, in this order.
pub open spec fn bill_failure(
    context: StorageContext,
    reference: Seq<char>,
    session: Result<SessionData, BillError>,
    catalog: Option<CatalogFile>,
) -> Option<BillErrorView> {
    match session::reference_error(reference) {
        Some(failure) => Some(failure),
        None => match session {
            Err(failure) => Some(failure@),
            Ok(_) => match pricing::catalog_contents(context, catalog) {
                Err(failure) => Some(failure),
                Ok(_) => None,
            },
        },
    }
}

/// The rates on the bill of a session.
pub open spec fn bill_rates(
    context: StorageContext,
    messages: Seq<MessageView>,
    catalog: Option<CatalogFile>,
    page: Option<Seq<char>>,
) -> Map<ModelKeyView, ModelRates> {
    pricing::priced(
        usage::models_used(messages),
        pricing::catalog_contents(context, catalog)->Ok_0,
        page,
    )
}

/// Drafts the bill for one session. The token counts of its messages together must fit the
/// machine words of the columns.
pub fn draft_bill(
    context: &StorageContext,
    reference: &str,
    session: Result<SessionData, BillError>,
    catalog: Option<CatalogFile>,
) -> (draft: Result<Draft, BillError>)
    requires
        session matches Ok(found) ==> found.well_formed() && usage::usage_fits(found@.messages),
    ensures
        match draft {
            Ok(made) => {
                &&& bill_failure(*context, reference@, session, catalog) is None
                &&& made.well_formed()
                &&& session == Ok::<SessionData, BillError>(made.session)
                &&& made.rates@ == bill_rates(*context, made.session@.messages, catalog, None)
            },
            Err(failure) => bill_failure(*context, reference@, session, catalog) == Some(failure@),
        },
{
    match session::validate_reference(reference) {
        Ok(_) => {},
        Err(failure) => {
            return Err(failure);
        },
    }
    let session = match session {
        Ok(session) => session,
        Err(failure) => {
            return Err(failure);
        },
    };
    let usage = usage::aggregate(&session.messages);
    let rates = match pricing::load_local_pricing(context, catalog, &usage) {
        Ok(rates) => rates,
        Err(failure) => {
            return Err(failure);
        },
    };
    let missing = pricing::missing_copilot(&usage, &rates);
    proof {
        let messages = session@.messages;
        let contents = pricing::catalog_contents(*context, catalog)->Ok_0;
        usage::lemma_model_usage_listed(messages, usage);
        assert(usage@.dom() =~= usage::models_used(messages));
        assert forall|key: ModelKeyView| #[trigger] rates@.dom().contains(key) implies rates@[
            key
        ].well_formed() by {
            pricing::law_rates_are_prices(contents, None, key);
        }
    }
    Ok(Draft { session, usage, rates, missing })
}

/// Generates a deterministic plain-text bill for one OpenCode session. The token counts of its
/// messages together must fit the machine words of the columns.
pub fn generate_bill(
    context: &StorageContext,
    reference: &str,
    session: Result<SessionData, BillError>,
    catalog: Option<CatalogFile>,
    page: &Option<String>,
) -> (bill: Result<String, BillError>)
    requires
        session matches Ok(found) ==> found.well_formed() && usage::usage_fits(found@.messages),
    ensures
        match bill {
            Ok(rendered) => {
                &&& bill_failure(*context, reference@, session, catalog) is None
                &&& session matches Ok(found)
                &&& rendered@ == bill_text(
                    found@,
                    bill_rates(*context, found@.messages, catalog, json::text_view(*page)),
                )
            },
            Err(failure) => bill_failure(*context, reference@, session, catalog) == Some(failure@),
        },
{
    match draft_bill(context, reference, session, catalog) {
        Ok(draft) => {
            proof {
                law_steps_agree(*context, catalog, draft, json::text_view(*page));
            }
            draft.finish(page)
        },
        Err(failure) => Err(failure),
    }
}

/// A draft that is completed with the pricing page has all rates that are known.
pub proof fn law_steps_agree(
    context: StorageContext,
    catalog: Option<CatalogFile>,
    draft: Draft,
    page: Option<Seq<char>>,
)
    requires
        draft.well_formed(),
        pricing::catalog_contents(context, catalog) is Ok,
        draft.rates@ == bill_rates(context, draft.session@.messages, catalog, None),
    ensures
        draft.rates_with(page) == bill_rates(context, draft.session@.messages, catalog, page),
{
    let messages = draft.session@.messages;
    let keys = usage::model_keys(messages);
    usage::law_models_listed(messages);
    assert(keys.to_set() =~= usage::models_used(messages));
    pricing::lemma_priced_with_page(
        keys,
        pricing::catalog_contents(context, catalog)->Ok_0,
        page,
    );
}

/// Every model that was used has its line in the table of rates, whether or not its rates are known,
/// and the bill has that table.
pub proof fn law_every_model_is_priced(
    messages: Seq<MessageView>,
    rates: Map<ModelKeyView, ModelRates>,
    key: ModelKeyView,
)
    requires
        usage::model_used(messages, key),
    ensures
        pricing_rows(messages, rates).contains(pricing_cells(key, shown_rates(rates, key))),
        pricing_text(messages, rates) == "\nMODEL PRICING (USD / 1M TOKENS)\n"@ + table::table_text(
            pricing_headers(),
            pricing_rows(messages, rates),
        ),
{
    let keys = usage::model_keys(messages);
    usage::law_models_listed(messages);
    assert(keys.contains(key));
    let i = choose|i: int| 0 <= i < keys.len() && keys[i] == key;
    assert(pricing_rows(messages, rates)[i] == pricing_cells(key, shown_rates(rates, key)));
}

/// Both tables of usage add up to the total below them: requests and tokens, column by column.
pub proof fn law_tables_add_up(session: SessionView)
    requires
        session.session_agents.dom().finite(),
    ensures
        ({
            let messages = session.messages;
            let models = usage::by_model(usage::model_keys(messages));
            let agents = usage::by_agent(usage::agent_keys(session.session_agents, messages));
            &&& usage::combined(messages, models) == usage::grand_total(messages)
            &&& usage::combined(messages, agents).counts == usage::grand_total(messages).counts
            &&& usage::grand_total(messages).counts == usage::totals_of(
                messages,
                Selection::All,
            ).counts
        }),
{
    usage::law_models_add_up(session.messages);
    usage::law_agents_add_up(session.session_agents, session.messages);
}

/// A draft that does not want the pricing page comes out the same with and without it.
pub proof fn law_page_unneeded(draft: Draft, page: Option<Seq<char>>)
    requires
        draft.missing@.len() == 0,
    ensures
        draft.rates_with(page) == draft.rates@,
{
    assert(draft.rates_with(page) =~= draft.rates@);
}

/// The table of models has one line for each model that was used, in their order. In it stands under
/// every header what that says: the model, its requests, its tokens of each kind, and its cost.
pub proof fn law_usage_table(messages: Seq<MessageView>, index: int)
    requires
        0 <= index < usage::model_keys(messages).len(),
    ensures
        ({
            let key = usage::model_keys(messages)[index];
            let totals = usage::totals_of(messages, Selection::Model(key));
            let (headers, cells) = (usage_headers(), usage_rows(messages)[index]);
            &&& usage_rows(messages).len() == usage::model_keys(messages).len()
            &&& headers.len() == 8 && cells.len() == 8
            &&& headers[0] == "PROVIDER / MODEL"@ && cells[0] == key.provider + " / "@ + key.model
            &&& headers[1] == "REQUESTS"@ && cells[1] == count::compact(totals.counts.requests)
            &&& headers[2] == "INPUT"@ && cells[2] == count::compact(totals.counts.input)
            &&& headers[3] == "CACHE READ"@ && cells[3] == count::compact(totals.counts.cache_read)
            &&& headers[4] == "CACHE WRITE"@ && cells[4] == count::compact(
                totals.counts.cache_write,
            )
            &&& headers[5] == "OUTPUT"@ && cells[5] == count::compact(totals.counts.output)
            &&& headers[6] == "REASONING"@ && cells[6] == count::compact(totals.counts.reasoning)
            &&& headers[7] == "COST (USD)"@ && cells[7] == "$"@ + binary64::amount_text(
                totals.cost,
                6,
            )
        }),
{
}

/// The table of agents has one line for each agent, in their order. In it stands under every header
/// what that says: the agent, its sessions, its requests, its tokens of each kind, and its cost.
pub proof fn law_agent_table(
    agents: Map<Seq<char>, Seq<char>>,
    messages: Seq<MessageView>,
    index: int,
)
    requires
        0 <= index < usage::agent_keys(agents, messages).len(),
    ensures
        ({
            let agent = usage::agent_keys(agents, messages)[index];
            let totals = usage::totals_of(messages, Selection::Agent(agent));
            let (headers, cells) = (agent_headers(), agent_rows(agents, messages)[index]);
            &&& agent_rows(agents, messages).len() == usage::agent_keys(agents, messages).len()
            &&& headers.len() == 9 && cells.len() == 9
            &&& headers[0] == "AGENT"@ && cells[0] == agent
            &&& headers[1] == "SESSIONS"@ && cells[1] == count::compact(
                usage::sessions_of(agents, messages, agent).len(),
            )
            &&& headers[2] == "REQUESTS"@ && cells[2] == count::compact(totals.counts.requests)
            &&& headers[3] == "INPUT"@ && cells[3] == count::compact(totals.counts.input)
            &&& headers[4] == "CACHE READ"@ && cells[4] == count::compact(totals.counts.cache_read)
            &&& headers[5] == "CACHE WRITE"@ && cells[5] == count::compact(
                totals.counts.cache_write,
            )
            &&& headers[6] == "OUTPUT"@ && cells[6] == count::compact(totals.counts.output)
            &&& headers[7] == "REASONING"@ && cells[7] == count::compact(totals.counts.reasoning)
            &&& headers[8] == "COST (USD)"@ && cells[8] == "$"@ + binary64::amount_text(
                totals.cost,
                6,
            )
        }),
{
}

/// A rate is shown in dollars with three digits after the point, and one that is not known as a
/// hyphen.
pub proof fn law_shown_rates(rate: Binary64)
    ensures
        rate_cell(Some(rate)) == "$"@ + rate.fixed(3),
        rate_cell(None) == "-"@,
{
}

/// The table of rates has one line for each model that was used, in their order. In it stands under
/// every header what that says: the model and its rates, or hyphens where none are known.
pub proof fn law_rate_table(
    messages: Seq<MessageView>,
    rates: Map<ModelKeyView, ModelRates>,
    index: int,
)
    requires
        0 <= index < usage::model_keys(messages).len(),
    ensures
        ({
            let key = usage::model_keys(messages)[index];
            let known = rates.dom().contains(key);
            let (headers, cells) = (pricing_headers(), pricing_rows(messages, rates)[index]);
            &&& pricing_rows(messages, rates).len() == usage::model_keys(messages).len()
            &&& headers.len() == 5 && cells.len() == 5
            &&& headers[0] == "PROVIDER / MODEL"@ && cells[0] == key.provider + " / "@ + key.model
            &&& headers[1] == "INPUT"@ && cells[1] == (if known {
                rate_cell(rates[key].input)
            } else {
                "-"@
            })
            &&& headers[2] == "CACHE READ"@ && cells[2] == (if known {
                rate_cell(rates[key].cache_read)
            } else {
                "-"@
            })
            &&& headers[3] == "CACHE WRITE"@ && cells[3] == (if known {
                rate_cell(rates[key].cache_write)
            } else {
                "-"@
            })
            &&& headers[4] == "OUTPUT"@ && cells[4] == (if known {
                rate_cell(rates[key].output)
            } else {
                "-"@
            })
        }),
{
}

/// The lines above the tables tell the session's identifier, its title, how many sessions are billed
/// and how many messages they have, each behind its name.
pub proof fn law_heading_lines(session: SessionView)
    ensures
        heading_text(session) == "OPENCODE SESSION BILL\n"@ + ("Session: "@ + session.id + "\n"@) + (
        "Title:   "@ + session.title + "\n"@) + ("Sessions: "@ + decimal::decimal(
            session.session_count,
        ) + " (root + descendants)\n"@) + ("Messages: "@ + decimal::decimal(
            session.messages.len(),
        ) + "\n"@) + "\n"@,
{
    reveal_strlit("OPENCODE SESSION BILL\nSession: ");
    reveal_strlit("OPENCODE SESSION BILL\n");
    reveal_strlit("Session: ");
    reveal_strlit("\nTitle:   ");
    reveal_strlit("Title:   ");
    reveal_strlit("\nSessions: ");
    reveal_strlit("Sessions: ");
    reveal_strlit(" (root + descendants)\nMessages: ");
    reveal_strlit(" (root + descendants)\n");
    reveal_strlit("Messages: ");
    reveal_strlit("\n\n");
    reveal_strlit("\n");
    let (sessions, messages) = (
        decimal::decimal(session.session_count),
        decimal::decimal(session.messages.len()),
    );
    assert("OPENCODE SESSION BILL\nSession: "@ =~= "OPENCODE SESSION BILL\n"@ + "Session: "@);
    assert("\nTitle:   "@ =~= "\n"@ + "Title:   "@);
    assert("\nSessions: "@ =~= "\n"@ + "Sessions: "@);
    assert(" (root + descendants)\nMessages: "@ =~= " (root + descendants)\n"@ + "Messages: "@);
    assert("\n\n"@ =~= "\n"@ + "\n"@);
    assert(heading_text(session) =~= "OPENCODE SESSION BILL\n"@ + ("Session: "@ + session.id
        + "\n"@) + ("Title:   "@ + session.title + "\n"@) + ("Sessions: "@ + sessions
        + " (root + descendants)\n"@) + ("Messages: "@ + messages + "\n"@) + "\n"@);
}

/// The lines below the tables tell the requests, the tokens of each kind and the amount due, each
/// behind its name.
pub proof fn law_total_lines(total: TotalsView)
    ensures
        total_text(total) == "\nTOTAL\n"@ + ("Requests:    "@ + count::compact(
            total.counts.requests,
        ) + "\n"@) + ("Input:       "@ + count::compact(total.counts.input) + "\n"@) + (
        "Cache read:  "@ + count::compact(total.counts.cache_read) + "\n"@) + ("Cache write: "@
            + count::compact(total.counts.cache_write) + "\n"@) + ("Output:      "@ + count::compact(
            total.counts.output,
        ) + "\n"@) + ("Reasoning:   "@ + count::compact(total.counts.reasoning) + "\n"@) + (
        "Amount due:  $"@ + binary64::amount_text(total.cost, 6) + " USD\n"@),
{
    reveal_strlit("\nTOTAL\nRequests:    ");
    reveal_strlit("\nTOTAL\n");
    reveal_strlit("Requests:    ");
    reveal_strlit("\nInput:       ");
    reveal_strlit("Input:       ");
    reveal_strlit("\nCache read:  ");
    reveal_strlit("Cache read:  ");
    reveal_strlit("\nCache write: ");
    reveal_strlit("Cache write: ");
    reveal_strlit("\nOutput:      ");
    reveal_strlit("Output:      ");
    reveal_strlit("\nReasoning:   ");
    reveal_strlit("Reasoning:   ");
    reveal_strlit("\nAmount due:  $");
    reveal_strlit("Amount due:  $");
    reveal_strlit("\n");
    assert("\nTOTAL\nRequests:    "@ =~= "\nTOTAL\n"@ + "Requests:    "@);
    assert("\nInput:       "@ =~= "\n"@ + "Input:       "@);
    assert("\nCache read:  "@ =~= "\n"@ + "Cache read:  "@);
    assert("\nCache write: "@ =~= "\n"@ + "Cache write: "@);
    assert("\nOutput:      "@ =~= "\n"@ + "Output:      "@);
    assert("\nReasoning:   "@ =~= "\n"@ + "Reasoning:   "@);
    assert("\nAmount due:  $"@ =~= "\n"@ + "Amount due:  $"@);
    let counts = total.counts;
    assert(total_text(total) =~= "\nTOTAL\n"@ + ("Requests:    "@ + count::compact(counts.requests)
        + "\n"@) + ("Input:       "@ + count::compact(counts.input) + "\n"@) + ("Cache read:  "@
        + count::compact(counts.cache_read) + "\n"@) + ("Cache write: "@ + count::compact(
        counts.cache_write,
    ) + "\n"@) + ("Output:      "@ + count::compact(counts.output) + "\n"@) + ("Reasoning:   "@
        + count::compact(counts.reasoning) + "\n"@) + ("Amount due:  $"@ + binary64::amount_text(
        total.cost,
        6,
    ) + " USD\n"@));
}

/// A bill has, in this order, the lines about the session, the table of models, the table of agents,
/// the table of rates where there are messages, and the total of all models.
pub proof fn law_bill_sections(session: SessionView, rates: Map<ModelKeyView, ModelRates>)
    ensures
        ({
            let top = heading_text(session) + table::table_text(
                usage_headers(),
                usage_rows(session.messages),
            ) + "\nUSAGE BY AGENT CLASS\n"@ + table::table_text(
                agent_headers(),
                agent_rows(session.session_agents, session.messages),
            );
            let priced = top + "\nMODEL PRICING (USD / 1M TOKENS)\n"@ + table::table_text(
                pricing_headers(),
                pricing_rows(session.messages, rates),
            );
            let bottom = total_text(usage::grand_total(session.messages));
            &&& session.messages.len() == 0 ==> bill_text(session, rates) == top + bottom
            &&& session.messages.len() > 0 ==> bill_text(session, rates) == priced + bottom
        }),
{
    let top = heading_text(session) + table::table_text(
        usage_headers(),
        usage_rows(session.messages),
    ) + "\nUSAGE BY AGENT CLASS\n"@ + table::table_text(
        agent_headers(),
        agent_rows(session.session_agents, session.messages),
    );
    let rows = table::table_text(pricing_headers(), pricing_rows(session.messages, rates));
    let bottom = total_text(usage::grand_total(session.messages));
    if session.messages.len() == 0 {
        assert(bill_text(session, rates) =~= top + bottom);
    } else {
        assert(bill_text(session, rates) =~= top + "\nMODEL PRICING (USD / 1M TOKENS)\n"@ + rows
            + bottom);
    }
}

/// There is a bill exactly where the reference is accepted, the session was found and the catalog can
/// be used. Of several failures the reference's is told before the session's, and this before the
/// catalog's.
pub proof fn law_bill_failures(
    context: StorageContext,
    reference: Seq<char>,
    session: Result<SessionData, BillError>,
    catalog: Option<CatalogFile>,
)
    ensures
        ({
            let refused = session::reference_error(reference);
            let contents = pricing::catalog_contents(context, catalog);
            let failure = bill_failure(context, reference, session, catalog);
            &&& failure is None <==> refused is None && session is Ok && contents is Ok
            &&& refused is Some ==> failure == refused
            &&& refused is None && session is Err ==> failure == Some(session->Err_0@)
            &&& refused is None && session is Ok && contents is Err ==> failure == Some(
                contents->Err_0,
            )
        }),
{
}

/// The bill shows rates for models that were used only: the catalog's where it gives any, else, for
/// models of GitHub Copilot, those of the page.
pub proof fn law_bill_rates(
    context: StorageContext,
    messages: Seq<MessageView>,
    catalog: Option<CatalogFile>,
    page: Option<Seq<char>>,
    key: ModelKeyView,
)
    requires
        pricing::catalog_contents(context, catalog) is Ok,
    ensures
        ({
            let contents = pricing::catalog_contents(context, catalog)->Ok_0;
            let rates = bill_rates(context, messages, catalog, page);
            let used = exists|i: int|
                0 <= i < messages.len() && (#[trigger] messages[i]).provider == key.provider
                    && messages[i].model == key.model;
            let listed = contents is Some && pricing::catalog_rates(contents->0, key) is Some;
            let quoted = key.provider == "github-copilot"@ && page is Some
                && crate::markdown::page_rates(page->0, key.model) is Some;
            &&& rates.dom().contains(key) <==> used && (listed || quoted)
            &&& used && listed ==> rates[key] == pricing::catalog_rates(contents->0, key)->0
            &&& used && !listed && quoted ==> rates[key] == crate::markdown::page_rates(
                page->0,
                key.model,
            )->0
        }),
{
    let contents = pricing::catalog_contents(context, catalog)->Ok_0;
    usage::law_models_listed(messages);
    if usage::models_used(messages).contains(key) {
        pricing::law_where_prices_come_from(usage::models_used(messages), contents, page, key);
    }
}

/// Until the page is there, a draft wants it exactly where a model of GitHub Copilot that was used
/// has no rates.
pub proof fn law_page_is_wanted(draft: Draft)
    requires
        draft.well_formed(),
    ensures
        draft.missing@.len() > 0 <==> exists|key: ModelKeyView|
            usage::model_used(draft.session@.messages, key) && key.provider == "github-copilot"@
                && !(#[trigger] draft.rates@.dom().contains(key)),
{
    let keys = usage::model_keys(draft.session@.messages);
    let missing = pricing::missing_from(keys, draft.rates@);
    usage::law_models_listed(draft.session@.messages);
    assert(missing.len() == draft.missing@.len());
    if missing.len() > 0 {
        assert(missing.contains(missing[0]));
        pricing::law_missing_models(keys, draft.rates@, missing[0]);
        assert(!draft.rates@.dom().contains(missing[0]));
    }
    if exists|key: ModelKeyView|
        usage::model_used(draft.session@.messages, key) && key.provider == "github-copilot"@ && !(
        #[trigger] draft.rates@.dom().contains(key)) {
        let key = choose|key: ModelKeyView|
            usage::model_used(draft.session@.messages, key) && key.provider == "github-copilot"@
                && !(#[trigger] draft.rates@.dom().contains(key));
        pricing::law_missing_models(keys, draft.rates@, key);
        assert(missing.contains(key));
    }
}

} // verus!
