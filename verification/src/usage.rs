//! Token usage and cost, added up per model and per agent.
use crate::binary64::{self, Binary64};
use crate::ordered::{self, ModelKey, ModelKeyView, OrderedMap};
use std::marker::PhantomData;
use vstd::prelude::*;

verus! {

/// What one assistant message used.
#[derive(Debug)]
pub struct MessageUsage {
    /// The session that holds the message.
    pub session_id: String,
    /// The agent that wrote it.
    pub agent: String,
    /// The provider that was asked.
    pub provider: String,
    /// The model that answered.
    pub model: String,
    /// Input tokens.
    pub input: u64,
    /// Output tokens.
    pub output: u64,
    /// Reasoning tokens.
    pub reasoning: u64,
    /// Tokens read from the cache.
    pub cache_read: u64,
    /// Tokens written to the cache.
    pub cache_write: u64,
    /// The cost in dollars.
    pub cost: Binary64,
}

/// The contents of a [`MessageUsage`].
#[verifier::ext_equal]
pub struct MessageView {
    /// The session that holds the message.
    pub session_id: Seq<char>,
    /// The agent that wrote it.
    pub agent: Seq<char>,
    /// The provider that was asked.
    pub provider: Seq<char>,
    /// The model that answered.
    pub model: Seq<char>,
    /// Input tokens.
    pub input: u64,
    /// Output tokens.
    pub output: u64,
    /// Reasoning tokens.
    pub reasoning: u64,
    /// Tokens read from the cache.
    pub cache_read: u64,
    /// Tokens written to the cache.
    pub cache_write: u64,
    /// The cost in dollars.
    pub cost: Binary64,
}

impl View for MessageUsage {
    type V = MessageView;

    open spec fn view(&self) -> MessageView {
        MessageView {
            session_id: self.session_id@,
            agent: self.agent@,
            provider: self.provider@,
            model: self.model@,
            input: self.input,
            output: self.output,
            reasoning: self.reasoning,
            cache_read: self.cache_read,
            cache_write: self.cache_write,
            cost: self.cost,
        }
    }
}

/// The contents of a list of messages.
pub open spec fn message_views(messages: Seq<MessageUsage>) -> Seq<MessageView> {
    messages.map_values(|message: MessageUsage| message@)
}

/// Every message has a cost that is finite and not below zero.
pub open spec fn all_priced(messages: Seq<MessageView>) -> bool {
    forall|i: int| 0 <= i < messages.len() ==> (#[trigger] messages[i]).cost.is_price()
}

/// Numbers of requests and tokens.
pub struct Counts {
    /// Requests.
    pub requests: nat,
    /// Input tokens.
    pub input: nat,
    /// Output tokens.
    pub output: nat,
    /// Reasoning tokens.
    pub reasoning: nat,
    /// Tokens read from the cache.
    pub cache_read: nat,
    /// Tokens written to the cache.
    pub cache_write: nat,
}

impl Counts {
    /// Nothing counted.
    pub open spec fn zero() -> Counts {
        Counts { requests: 0, input: 0, output: 0, reasoning: 0, cache_read: 0, cache_write: 0 }
    }

    /// Column by column.
    pub open spec fn plus(self, other: Counts) -> Counts {
        Counts {
            requests: self.requests + other.requests,
            input: self.input + other.input,
            output: self.output + other.output,
            reasoning: self.reasoning + other.reasoning,
            cache_read: self.cache_read + other.cache_read,
            cache_write: self.cache_write + other.cache_write,
        }
    }

    /// What one message counts for.
    pub open spec fn of(message: MessageView) -> Counts {
        Counts {
            requests: 1,
            input: message.input as nat,
            output: message.output as nat,
            reasoning: message.reasoning as nat,
            cache_read: message.cache_read as nat,
            cache_write: message.cache_write as nat,
        }
    }

    /// No column exceeds the other's.
    pub open spec fn within(self, other: Counts) -> bool {
        &&& self.requests <= other.requests
        &&& self.input <= other.input
        &&& self.output <= other.output
        &&& self.reasoning <= other.reasoning
        &&& self.cache_read <= other.cache_read
        &&& self.cache_write <= other.cache_write
    }

    /// Every column fits a machine word.
    pub open spec fn fits(self) -> bool {
        &&& self.requests <= u64::MAX
        &&& self.input <= u64::MAX
        &&& self.output <= u64::MAX
        &&& self.reasoning <= u64::MAX
        &&& self.cache_read <= u64::MAX
        &&& self.cache_write <= u64::MAX
    }
}

/// The contents of [`Totals`].
pub struct TotalsView {
    /// Requests and tokens.
    pub counts: Counts,
    /// The cost in units of the smallest binary64 number; nothing stands for infinity.
    pub cost: Option<nat>,
}

impl TotalsView {
    /// Nothing used.
    pub open spec fn zero() -> TotalsView {
        TotalsView { counts: Counts::zero(), cost: Some(0) }
    }

    /// With one message more.
    pub open spec fn with_message(self, message: MessageView) -> TotalsView {
        TotalsView {
            counts: self.counts.plus(Counts::of(message)),
            cost: binary64::amount_sum(self.cost, message.cost.amount()),
        }
    }

    /// Both together.
    pub open spec fn plus(self, other: TotalsView) -> TotalsView {
        TotalsView {
            counts: self.counts.plus(other.counts),
            cost: binary64::amount_sum(self.cost, other.cost),
        }
    }
}

/// Which messages are added up.
pub enum Selection {
    /// All of them.
    All,
    /// Those that a model answered.
    Model(ModelKeyView),
    /// Those that an agent wrote.
    Agent(Seq<char>),
}

/// The model that answered a message.
pub open spec fn model_of(message: MessageView) -> ModelKeyView {
    ModelKeyView { provider: message.provider, model: message.model }
}

impl Selection {
    /// Whether a message is added up.
    pub open spec fn admits(self, message: MessageView) -> bool {
        match self {
            Selection::All => true,
            Selection::Model(key) => model_of(message) == key,
            Selection::Agent(agent) => message.agent == agent,
        }
    }
}

/// What the selected messages used together, their costs added in order.
pub open spec fn totals_of(messages: Seq<MessageView>, selection: Selection) -> TotalsView
    decreases messages.len(),
{
    if messages.len() == 0 {
        TotalsView::zero()
    } else {
        let before = totals_of(messages.drop_last(), selection);
        if selection.admits(messages.last()) {
            before.with_message(messages.last())
        } else {
            before
        }
    }
}

/// What all messages used together fits the machine words of the columns.
pub open spec fn usage_fits(messages: Seq<MessageView>) -> bool {
    totals_of(messages, Selection::All).counts.fits()
}

/// Requests, tokens and cost.
#[derive(Clone, Copy, Debug)]
pub struct Totals {
    /// Requests.
    pub requests: u64,
    /// Input tokens.
    pub input: u64,
    /// Output tokens.
    pub output: u64,
    /// Reasoning tokens.
    pub reasoning: u64,
    /// Tokens read from the cache.
    pub cache_read: u64,
    /// Tokens written to the cache.
    pub cache_write: u64,
    /// The cost in dollars.
    pub cost: Binary64,
}

impl View for Totals {
    type V = TotalsView;

    open spec fn view(&self) -> TotalsView {
        TotalsView {
            counts: Counts {
                requests: self.requests as nat,
                input: self.input as nat,
                output: self.output as nat,
                reasoning: self.reasoning as nat,
                cache_read: self.cache_read as nat,
                cache_write: self.cache_write as nat,
            },
            cost: self.cost.amount(),
        }
    }
}

/// Marker for a totals builder that was given no values.
pub struct MissingTotals;

/// Marker for a totals builder that was given its values.
pub struct TotalsSet;

/// Builder that requires values before construction.
pub struct TotalsBuilder<State> {
    /// Requests.
    pub requests: u64,
    /// Input tokens.
    pub input: u64,
    /// Output tokens.
    pub output: u64,
    /// Reasoning tokens.
    pub reasoning: u64,
    /// Tokens read from the cache.
    pub cache_read: u64,
    /// Tokens written to the cache.
    pub cache_write: u64,
    /// The cost in dollars.
    pub cost: Binary64,
    /// Whether the values were given.
    pub state: PhantomData<State>,
}

impl<State> TotalsBuilder<State> {
    /// The totals that the builder holds.
    pub open spec fn totals(self) -> Totals {
        Totals {
            requests: self.requests,
            input: self.input,
            output: self.output,
            reasoning: self.reasoning,
            cache_read: self.cache_read,
            cache_write: self.cache_write,
            cost: self.cost,
        }
    }
}

impl Totals {
    /// The cost is an amount without a sign.
    pub open spec fn well_formed(self) -> bool {
        self.cost.is_amount() && !self.cost.is_signed()
    }

    /// Starts a builder with every column at zero.
    pub fn builder() -> (builder: TotalsBuilder<MissingTotals>)
        ensures
            builder.totals()@ == TotalsView::zero(),
            builder.totals().well_formed(),
    {
        TotalsBuilder {
            requests: 0,
            input: 0,
            output: 0,
            reasoning: 0,
            cache_read: 0,
            cache_write: 0,
            cost: Binary64::zero(),
            state: PhantomData,
        }
    }

    /// With one message more.
    fn count(&mut self, message: &MessageUsage)
        requires
            old(self).well_formed(),
            message.cost.is_price(),
            old(self)@.counts.plus(Counts::of(message@)).fits(),
        ensures
            final(self).well_formed(),
            final(self)@ == old(self)@.with_message(message@),
    {
        self.requests = self.requests + 1;
        self.input = self.input + message.input;
        self.output = self.output + message.output;
        self.reasoning = self.reasoning + message.reasoning;
        self.cache_read = self.cache_read + message.cache_read;
        self.cache_write = self.cache_write + message.cache_write;
        self.cost = self.cost.plus(message.cost);
    }
}

impl TotalsBuilder<MissingTotals> {
    /// Accepts zero for every column.
    pub fn zeroed(self) -> (builder: TotalsBuilder<TotalsSet>)
        ensures
            builder.totals() == self.totals(),
    {
        TotalsBuilder {
            requests: self.requests,
            input: self.input,
            output: self.output,
            reasoning: self.reasoning,
            cache_read: self.cache_read,
            cache_write: self.cache_write,
            cost: self.cost,
            state: PhantomData,
        }
    }
}

impl TotalsBuilder<TotalsSet> {
    /// Builds the totals.
    pub fn build(self) -> (totals: Totals)
        ensures
            totals == self.totals(),
    {
        Totals {
            requests: self.requests,
            input: self.input,
            output: self.output,
            reasoning: self.reasoning,
            cache_read: self.cache_read,
            cache_write: self.cache_write,
            cost: self.cost,
        }
    }
}

fn no_usage() -> (totals: Totals)
    ensures
        totals@ == TotalsView::zero(),
        totals.well_formed(),
{
    Totals::builder().zeroed().build()
}

/// Adds up two totals.
pub fn add_totals(sum: Totals, value: &Totals) -> (both: Totals)
    requires
        sum.well_formed(),
        value.well_formed(),
        sum@.counts.plus(value@.counts).fits(),
    ensures
        both.well_formed(),
        both@ == sum@.plus(value@),
{
    Totals {
        requests: sum.requests + value.requests,
        input: sum.input + value.input,
        output: sum.output + value.output,
        reasoning: sum.reasoning + value.reasoning,
        cache_read: sum.cache_read + value.cache_read,
        cache_write: sum.cache_write + value.cache_write,
        cost: sum.cost.plus(value.cost),
    }
}

/// A part of the messages counts for no more than all of them.
pub proof fn lemma_part_within(messages: Seq<MessageView>, count: int, selection: Selection)
    requires
        0 <= count <= messages.len(),
    ensures
        totals_of(messages.take(count), selection).counts.within(
            totals_of(messages, Selection::All).counts,
        ),
    decreases messages.len(),
{
    if messages.len() > 0 {
        let shorter = messages.drop_last();
        if count == messages.len() {
            assert(messages.take(count) =~= messages);
            lemma_part_within(shorter, shorter.len() as int, selection);
            assert(shorter.take(shorter.len() as int) =~= shorter);
        } else {
            lemma_part_within(shorter, count, selection);
            assert(messages.take(count) =~= shorter.take(count));
        }
    } else {
        assert(messages.take(count) =~= messages);
    }
}

proof fn lemma_next_fits(messages: Seq<MessageView>, index: int, selection: Selection)
    requires
        0 <= index < messages.len(),
        usage_fits(messages),
        selection.admits(messages[index]),
    ensures
        totals_of(messages.take(index), selection).counts.plus(Counts::of(messages[index])).fits(),
        totals_of(messages.take(index + 1), selection) == totals_of(
            messages.take(index),
            selection,
        ).with_message(messages[index]),
{
    lemma_part_within(messages, index + 1, selection);
    assert(messages.take(index + 1).drop_last() =~= messages.take(index));
    assert(messages.take(index + 1).last() == messages[index]);
}

proof fn lemma_next_skips(messages: Seq<MessageView>, index: int, selection: Selection)
    requires
        0 <= index < messages.len(),
        !selection.admits(messages[index]),
    ensures
        totals_of(messages.take(index + 1), selection) == totals_of(
            messages.take(index),
            selection,
        ),
{
    assert(messages.take(index + 1).drop_last() =~= messages.take(index));
    assert(messages.take(index + 1).last() == messages[index]);
}

/// Tells whether what all messages used together fits the machine words of the columns.
pub fn totals_fit(messages: &Vec<MessageUsage>) -> (fits: bool)
    ensures
        fits == usage_fits(message_views(messages@)),
{
    let ghost views = message_views(messages@);
    let mut sums: [u64; 6] = [0, 0, 0, 0, 0, 0];
    let mut index: usize = 0;
    while index < messages.len()
        invariant
            index <= messages.len(),
            views == message_views(messages@),
            totals_of(views.take(index as int), Selection::All).counts == (Counts {
                requests: sums[0] as nat,
                input: sums[1] as nat,
                output: sums[2] as nat,
                reasoning: sums[3] as nat,
                cache_read: sums[4] as nat,
                cache_write: sums[5] as nat,
            }),
        decreases messages.len() - index,
    {
        let message = &messages[index];
        proof {
            assert(views[index as int] == message@);
            assert(views.take(index + 1).drop_last() =~= views.take(index as int));
            assert(views.take(index + 1).last() == message@);
            lemma_part_within(views, index + 1, Selection::All);
        }
        sums = match (
            sums[0].checked_add(1),
            sums[1].checked_add(message.input),
            sums[2].checked_add(message.output),
            sums[3].checked_add(message.reasoning),
            sums[4].checked_add(message.cache_read),
            sums[5].checked_add(message.cache_write),
        ) {
            (
                Some(requests),
                Some(input),
                Some(output),
                Some(reasoning),
                Some(cache_read),
                Some(cache_write),
            ) => [requests, input, output, reasoning, cache_read, cache_write],
            _ => {
                return false;
            },
        };
        index = index + 1;
    }
    assert(views.take(index as int) =~= views);
    true
}

/// Where no message is selected nothing is used.
proof fn lemma_unselected(messages: Seq<MessageView>, selection: Selection)
    requires
        forall|i: int| 0 <= i < messages.len() ==> !selection.admits(#[trigger] messages[i]),
    ensures
        totals_of(messages, selection) == TotalsView::zero(),
    decreases messages.len(),
{
    if messages.len() > 0 {
        lemma_unselected(messages.drop_last(), selection);
    }
}

/// Whether a model answered one of the messages.
pub open spec fn model_used(messages: Seq<MessageView>, key: ModelKeyView) -> bool {
    exists|i: int| 0 <= i < messages.len() && model_of(#[trigger] messages[i]) == key
}

/// Whether the map holds, for each model that answered a message and no other, what it used.
pub open spec fn is_model_usage(
    messages: Seq<MessageView>,
    usage: OrderedMap<ModelKey, Totals>,
) -> bool {
    &&& usage.well_formed()
    &&& forall|key: ModelKeyView| #[trigger]
        usage@.dom().contains(key) <==> model_used(messages, key)
    &&& forall|key: ModelKeyView| #[trigger]
        usage@.dom().contains(key) ==> usage@[key].well_formed() && usage@[key]@ == totals_of(
            messages,
            Selection::Model(key),
        )
}

/// Adds up the messages per model.
pub fn aggregate(messages: &Vec<MessageUsage>) -> (usage: OrderedMap<ModelKey, Totals>)
    requires
        all_priced(message_views(messages@)),
        usage_fits(message_views(messages@)),
    ensures
        is_model_usage(message_views(messages@), usage),
{
    let mut usage: OrderedMap<ModelKey, Totals> = OrderedMap::new();
    let ghost views = message_views(messages@);
    let mut index: usize = 0;
    while index < messages.len()
        invariant
            index <= messages.len(),
            views == message_views(messages@),
            all_priced(views),
            usage_fits(views),
            is_model_usage(views.take(index as int), usage),
        decreases messages.len() - index,
    {
        let message = &messages[index];
        let ghost before = usage;
        let ghost key = model_of(message@);
        let ghost selection = Selection::Model(key);
        assert(views[index as int] == message@);
        proof {
            lemma_next_fits(views, index as int, selection);
            if !usage@.dom().contains(key) {
                assert forall|i: int| 0 <= i < index implies !selection.admits(
                    #[trigger] views.take(index as int)[i],
                ) by {
                    if selection.admits(views.take(index as int)[i]) {
                        assert(model_used(views.take(index as int), key));
                    }
                }
                lemma_unselected(views.take(index as int), selection);
            }
        }
        let name = ModelKey { provider: message.provider.clone(), model: message.model.clone() };
        let totals = usage.entry(name, no_usage());
        totals.count(message);
        proof {
            let now = views.take(index + 1);
            assert forall|k: ModelKeyView| #[trigger]
                usage@.dom().contains(k) <==> model_used(now, k) by {
                if model_used(now, k) {
                    let i = choose|i: int| 0 <= i < now.len() && model_of(#[trigger] now[i]) == k;
                    if i < index {
                        assert(views.take(index as int)[i] == now[i]);
                        assert(model_used(views.take(index as int), k));
                    }
                }
                if before@.dom().contains(k) {
                    let i = choose|i: int|
                        0 <= i < index && model_of(#[trigger] views.take(index as int)[i]) == k;
                    assert(now[i] == views.take(index as int)[i]);
                }
                assert(now[index as int] == message@);
            }
            assert forall|k: ModelKeyView| #[trigger]
                usage@.dom().contains(k) implies usage@[k].well_formed() && usage@[k]@ == totals_of(
                now,
                Selection::Model(k),
            ) by {
                if k != key {
                    lemma_next_skips(views, index as int, Selection::Model(k));
                }
            }
        }
        index = index + 1;
    }
    assert(views.take(index as int) =~= views);
    usage
}

/// The sessions of an agent and what its messages used.
#[derive(Debug)]
pub struct AgentUsage {
    /// The sessions that the agent took part in.
    pub sessions: OrderedMap<String, ()>,
    /// What its messages used.
    pub totals: Totals,
}

/// The agents that sessions are known to belong to, by session.
pub open spec fn agent_names(agents: OrderedMap<String, String>) -> Map<Seq<char>, Seq<char>> {
    agents@.map_values(|agent: String| agent@)
}

/// Whether an agent took part in a session: the session is known to belong to it, or it wrote a
/// message there.
pub open spec fn took_part(
    agents: Map<Seq<char>, Seq<char>>,
    messages: Seq<MessageView>,
    session: Seq<char>,
    agent: Seq<char>,
) -> bool {
    ||| agents.dom().contains(session) && agents[session] == agent
    ||| exists|i: int|
        0 <= i < messages.len() && (#[trigger] messages[i]).session_id == session
            && messages[i].agent == agent
}

/// The sessions that an agent took part in.
pub open spec fn sessions_of(
    agents: Map<Seq<char>, Seq<char>>,
    messages: Seq<MessageView>,
    agent: Seq<char>,
) -> Set<Seq<char>> {
    Set::new(|session: Seq<char>| took_part(agents, messages, session, agent))
}

/// Whether an agent took part in any session.
pub open spec fn agent_active(
    agents: Map<Seq<char>, Seq<char>>,
    messages: Seq<MessageView>,
    agent: Seq<char>,
) -> bool {
    exists|session: Seq<char>| #[trigger] took_part(agents, messages, session, agent)
}

/// Whether the map holds, for each agent that took part in a session and no other, its sessions
/// and what its messages used.
pub open spec fn is_agent_usage(
    agents: Map<Seq<char>, Seq<char>>,
    messages: Seq<MessageView>,
    usage: OrderedMap<String, AgentUsage>,
) -> bool {
    &&& usage.well_formed()
    &&& forall|agent: Seq<char>| #[trigger]
        usage@.dom().contains(agent) <==> agent_active(agents, messages, agent)
    &&& forall|agent: Seq<char>| #[trigger]
        usage@.dom().contains(agent) ==> {
            &&& usage@[agent].sessions.well_formed()
            &&& usage@[agent].sessions@.dom() == sessions_of(agents, messages, agent)
            &&& usage@[agent].totals.well_formed()
            &&& usage@[agent].totals@ == totals_of(messages, Selection::Agent(agent))
        }
}

/// The usage of an agent, which starts without sessions and messages.
pub fn agent_usage_entry<'a>(
    usage: &'a mut OrderedMap<String, AgentUsage>,
    agent: &str,
) -> (entry: &'a mut AgentUsage)
    requires
        old(usage).well_formed(),
    ensures
        old(usage)@.dom().contains(agent@) ==> *entry == old(usage)@[agent@],
        !old(usage)@.dom().contains(agent@) ==> {
            &&& entry.sessions.well_formed()
            &&& entry.sessions@ == Map::<Seq<char>, ()>::empty()
            &&& entry.totals.well_formed()
            &&& entry.totals@ == TotalsView::zero()
        },
        final(usage).well_formed(),
        final(usage)@ == old(usage)@.insert(agent@, *final(entry)),
{
    usage.entry(
        agent.to_owned(),
        AgentUsage { sessions: OrderedMap::new(), totals: no_usage() },
    )
}

/// The links between sessions and agents that have been taken up so far.
spec fn reflects(
    links: Seq<(Seq<char>, Seq<char>)>,
    messages: Seq<MessageView>,
    usage: OrderedMap<String, AgentUsage>,
) -> bool {
    &&& usage.well_formed()
    &&& forall|agent: Seq<char>| #[trigger]
        usage@.dom().contains(agent) <==> exists|session: Seq<char>| #[trigger]
            links.contains((session, agent))
    &&& forall|agent: Seq<char>| #[trigger]
        usage@.dom().contains(agent) ==> {
            &&& usage@[agent].sessions.well_formed()
            &&& forall|session: Seq<char>| #[trigger]
                usage@[agent].sessions@.dom().contains(session) <==> links.contains(
                    (session, agent),
                )
            &&& usage@[agent].totals.well_formed()
            &&& usage@[agent].totals@ == totals_of(messages, Selection::Agent(agent))
        }
}

/// One more link, with the totals of its agent brought up to date.
proof fn lemma_linked(
    links: Seq<(Seq<char>, Seq<char>)>,
    messages: Seq<MessageView>,
    before: OrderedMap<String, AgentUsage>,
    session: Seq<char>,
    agent: Seq<char>,
    later: Seq<MessageView>,
    after: OrderedMap<String, AgentUsage>,
)
    requires
        reflects(links, messages, before),
        after.well_formed(),
        after@ == before@.insert(agent, after@[agent]),
        after@[agent].sessions.well_formed(),
        forall|s: Seq<char>| #[trigger]
            after@[agent].sessions@.dom().contains(s) <==> s == session || (
            before@.dom().contains(agent) && before@[agent].sessions@.dom().contains(s)),
        after@[agent].totals.well_formed(),
        after@[agent].totals@ == totals_of(later, Selection::Agent(agent)),
        forall|other: Seq<char>|
            other != agent ==> #[trigger] totals_of(later, Selection::Agent(other)) == totals_of(
                messages,
                Selection::Agent(other),
            ),
    ensures
        reflects(links.push((session, agent)), later, after),
{
    let more = links.push((session, agent));
    assert(more[links.len() as int] == (session, agent));
    assert(more.contains((session, agent)));
    assert forall|link: (Seq<char>, Seq<char>)| #[trigger] more.contains(link) <==> links.contains(
        link,
    ) || link == (session, agent) by {
        if links.contains(link) {
            let i = choose|i: int| 0 <= i < links.len() && links[i] == link;
            assert(more[i] == link);
        }
    }
    assert forall|a: Seq<char>| #[trigger]
        after@.dom().contains(a) <==> exists|s: Seq<char>| #[trigger] more.contains((s, a)) by {
        if after@.dom().contains(a) {
            if a == agent {
                assert(more.contains((session, a)));
            } else {
                assert(before@.dom().contains(a));
                let s = choose|s: Seq<char>| #[trigger] links.contains((s, a));
                assert(more.contains((s, a)));
            }
        }
        if exists|s: Seq<char>| #[trigger] more.contains((s, a)) {
            let s = choose|s: Seq<char>| #[trigger] more.contains((s, a));
            if a != agent {
                assert(links.contains((s, a)));
                assert(before@.dom().contains(a));
            }
        }
    }
    assert forall|a: Seq<char>| #[trigger] after@.dom().contains(a) implies {
        &&& after@[a].sessions.well_formed()
        &&& forall|s: Seq<char>| #[trigger]
            after@[a].sessions@.dom().contains(s) <==> more.contains((s, a))
        &&& after@[a].totals.well_formed()
        &&& after@[a].totals@ == totals_of(later, Selection::Agent(a))
    } by {
        if a == agent {
            assert forall|s: Seq<char>| #[trigger]
                after@[a].sessions@.dom().contains(s) <==> more.contains((s, a)) by {
                if links.contains((s, a)) {
                    assert(before@.dom().contains(a));
                }
            }
        } else {
            assert(before@.dom().contains(a));
            assert(after@[a] == before@[a]);
            assert forall|s: Seq<char>| #[trigger]
                after@[a].sessions@.dom().contains(s) <==> more.contains((s, a)) by {
            }
        }
    }
}

/// Adds up the messages per agent, with the sessions that each agent took part in.
pub fn aggregate_agents(
    messages: &Vec<MessageUsage>,
    session_agents: &OrderedMap<String, String>,
) -> (usage: OrderedMap<String, AgentUsage>)
    requires
        session_agents.well_formed(),
        all_priced(message_views(messages@)),
        usage_fits(message_views(messages@)),
    ensures
        is_agent_usage(agent_names(*session_agents), message_views(messages@), usage),
{
    let mut usage: OrderedMap<String, AgentUsage> = OrderedMap::new();
    let ghost views = message_views(messages@);
    let ghost nothing = Seq::<MessageView>::empty();
    let ghost mut links: Seq<(Seq<char>, Seq<char>)> = Seq::empty();
    let ghost known = session_agents.entries@;
    let mut index: usize = 0;
    while index < session_agents.entries.len()
        invariant
            index <= session_agents.entries.len(),
            known == session_agents.entries@,
            nothing == Seq::<MessageView>::empty(),
            links == known.take(index as int).map_values(
                |entry: (String, String)| (entry.0@, entry.1@),
            ),
            reflects(links, nothing, usage),
        decreases session_agents.entries.len() - index,
    {
        let ghost before = usage;
        let session = session_agents.entries[index].0.clone();
        let ghost name = session@;
        let agent = session_agents.entries[index].1.as_str();
        let entry = agent_usage_entry(&mut usage, agent);
        entry.sessions.insert(session, ());
        proof {
            lemma_linked(links, nothing, before, name, agent@, nothing, usage);
            assert(known.take(index + 1).map_values(
                |entry: (String, String)| (entry.0@, entry.1@),
            ) =~= links.push((name, agent@)));
            links = links.push((name, agent@));
        }
        index = index + 1;
    }
    let ghost fixed = links;
    assert(known.take(index as int) =~= known);
    assert(views.take(0) =~= nothing);
    let mut next: usize = 0;
    while next < messages.len()
        invariant
            next <= messages.len(),
            views == message_views(messages@),
            all_priced(views),
            usage_fits(views),
            links == fixed + views.take(next as int).map_values(
                |message: MessageView| (message.session_id, message.agent),
            ),
            reflects(links, views.take(next as int), usage),
        decreases messages.len() - next,
    {
        let message = &messages[next];
        let ghost before = usage;
        let ghost selection = Selection::Agent(message.agent@);
        assert(views[next as int] == message@);
        proof {
            lemma_next_fits(views, next as int, selection);
            if !usage@.dom().contains(message.agent@) {
                assert forall|i: int| 0 <= i < next implies !selection.admits(
                    #[trigger] views.take(next as int)[i],
                ) by {
                    let earlier = views.take(next as int)[i];
                    let made = views.take(next as int).map_values(
                        |message: MessageView| (message.session_id, message.agent),
                    );
                    assert(made[i] == (earlier.session_id, earlier.agent));
                    assert(links[fixed.len() + i] == (earlier.session_id, earlier.agent));
                    assert(links.contains((earlier.session_id, earlier.agent)));
                }
                lemma_unselected(views.take(next as int), selection);
            }
        }
        let entry = agent_usage_entry(&mut usage, message.agent.as_str());
        entry.sessions.insert(message.session_id.clone(), ());
        entry.totals.count(message);
        proof {
            let now = views.take(next + 1);
            assert forall|other: Seq<char>| other != message.agent@ implies #[trigger] totals_of(
                now,
                Selection::Agent(other),
            ) == totals_of(views.take(next as int), Selection::Agent(other)) by {
                lemma_next_skips(views, next as int, Selection::Agent(other));
            }
            lemma_linked(
                links,
                views.take(next as int),
                before,
                message.session_id@,
                message.agent@,
                now,
                usage,
            );
            let link = (message.session_id@, message.agent@);
            assert(fixed + now.map_values(
                |message: MessageView| (message.session_id, message.agent),
            ) =~= links.push(link));
            links = links.push(link);
        }
        next = next + 1;
    }
    assert(views.take(next as int) =~= views);
    proof {
        lemma_links_complete(*session_agents, views, links, usage);
    }
    usage
}

/// The links of all known sessions and all messages say who took part where.
proof fn lemma_links_complete(
    session_agents: OrderedMap<String, String>,
    views: Seq<MessageView>,
    links: Seq<(Seq<char>, Seq<char>)>,
    usage: OrderedMap<String, AgentUsage>,
)
    requires
        session_agents.well_formed(),
        links == session_agents.entries@.map_values(
            |entry: (String, String)| (entry.0@, entry.1@),
        ) + views.map_values(|message: MessageView| (message.session_id, message.agent)),
        reflects(links, views, usage),
    ensures
        is_agent_usage(agent_names(session_agents), views, usage),
{
    let agents = agent_names(session_agents);
    let known = session_agents.entries@;
    let first = known.map_values(|entry: (String, String)| (entry.0@, entry.1@));
    let second = views.map_values(|message: MessageView| (message.session_id, message.agent));
    assert forall|session: Seq<char>, agent: Seq<char>| #[trigger]
        took_part(agents, views, session, agent) <==> links.contains((session, agent)) by {
        if links.contains((session, agent)) {
            let i = choose|i: int| 0 <= i < links.len() && links[i] == (session, agent);
            if i < known.len() {
                assert(first[i] == (session, agent));
                session_agents.lemma_entry(i);
                assert(agents[session] == agent);
            } else {
                let j = i - known.len();
                assert(second[j] == (session, agent));
                assert(views[j].session_id == session);
            }
        }
        if agents.dom().contains(session) && agents[session] == agent {
            assert(session_agents.has(session));
            let i = session_agents.keys().index_of(session);
            assert(session_agents.keys()[i] == session);
            assert(links[i] == (known[i].0@, known[i].1@));
            assert(links.contains((session, agent)));
        }
        if exists|i: int|
            0 <= i < views.len() && (#[trigger] views[i]).session_id == session && views[i].agent
                == agent {
            let i = choose|i: int|
                0 <= i < views.len() && (#[trigger] views[i]).session_id == session
                    && views[i].agent == agent;
            assert(links[known.len() + i] == (session, agent));
        }
    }
    assert forall|agent: Seq<char>| #[trigger]
        usage@.dom().contains(agent) <==> agent_active(agents, views, agent) by {
        if usage@.dom().contains(agent) {
            let session = choose|session: Seq<char>| #[trigger] links.contains((session, agent));
            assert(took_part(agents, views, session, agent));
        }
        if agent_active(agents, views, agent) {
            let session = choose|session: Seq<char>| #[trigger]
                took_part(agents, views, session, agent);
            assert(links.contains((session, agent)));
        }
    }
    assert forall|agent: Seq<char>| #[trigger] usage@.dom().contains(agent) implies {
        &&& usage@[agent].sessions.well_formed()
        &&& usage@[agent].sessions@.dom() == sessions_of(agents, views, agent)
        &&& usage@[agent].totals.well_formed()
        &&& usage@[agent].totals@ == totals_of(views, Selection::Agent(agent))
    } by {
        assert(usage@[agent].sessions@.dom() =~= sessions_of(agents, views, agent));
    }
}

/// The models that answered a message.
pub open spec fn models_used(messages: Seq<MessageView>) -> Set<ModelKeyView> {
    Set::new(|key: ModelKeyView| model_used(messages, key))
}

/// The models that answered a message, in order.
pub open spec fn model_keys(messages: Seq<MessageView>) -> Seq<ModelKeyView> {
    ordered::sorted::<ModelKey>(models_used(messages))
}

/// The agents that took part in a session.
pub open spec fn active_agents(
    agents: Map<Seq<char>, Seq<char>>,
    messages: Seq<MessageView>,
) -> Set<Seq<char>> {
    Set::new(|agent: Seq<char>| agent_active(agents, messages, agent))
}

/// The agents that took part in a session, in order.
pub open spec fn agent_keys(
    agents: Map<Seq<char>, Seq<char>>,
    messages: Seq<MessageView>,
) -> Seq<Seq<char>> {
    ordered::sorted::<String>(active_agents(agents, messages))
}

/// The selections of models.
pub open spec fn by_model(keys: Seq<ModelKeyView>) -> Seq<Selection> {
    keys.map_values(|key: ModelKeyView| Selection::Model(key))
}

/// The selections of agents.
pub open spec fn by_agent(keys: Seq<Seq<char>>) -> Seq<Selection> {
    keys.map_values(|agent: Seq<char>| Selection::Agent(agent))
}

/// The totals of several selections, added up in order.
pub open spec fn combined(messages: Seq<MessageView>, selections: Seq<Selection>) -> TotalsView
    decreases selections.len(),
{
    if selections.len() == 0 {
        TotalsView::zero()
    } else {
        combined(messages, selections.drop_last()).plus(totals_of(messages, selections.last()))
    }
}

/// What the session used: the totals of its models, added up in order.
pub open spec fn grand_total(messages: Seq<MessageView>) -> TotalsView {
    combined(messages, by_model(model_keys(messages)))
}

/// A map of the models' usage lists the models in order, each with what it used.
pub proof fn lemma_model_usage_listed(
    messages: Seq<MessageView>,
    usage: OrderedMap<ModelKey, Totals>,
)
    requires
        is_model_usage(messages, usage),
    ensures
        usage.keys() == model_keys(messages),
        forall|i: int|
            0 <= i < usage.entries@.len() ==> (#[trigger] usage.entries@[i]).1.well_formed()
                && usage.entries@[i].1@ == totals_of(
                messages,
                Selection::Model(model_keys(messages)[i]),
            ),
{
    assert(usage@.dom() =~= models_used(messages));
    usage.lemma_keys_sorted();
    assert forall|i: int| 0 <= i < usage.entries@.len() implies (
    #[trigger] usage.entries@[i]).1.well_formed() && usage.entries@[i].1@ == totals_of(
        messages,
        Selection::Model(model_keys(messages)[i]),
    ) by {
        usage.lemma_entry(i);
        assert(usage.keys()[i] == usage.entries@[i].0@);
    }
}

/// A map of the agents' usage lists the agents in order, each with its sessions and what its
/// messages used.
pub proof fn lemma_agent_usage_listed(
    agents: Map<Seq<char>, Seq<char>>,
    messages: Seq<MessageView>,
    usage: OrderedMap<String, AgentUsage>,
)
    requires
        is_agent_usage(agents, messages, usage),
    ensures
        usage.keys() == agent_keys(agents, messages),
        forall|i: int|
            0 <= i < usage.entries@.len() ==> {
                let entry = #[trigger] usage.entries@[i];
                let agent = agent_keys(agents, messages)[i];
                &&& entry.1.sessions.well_formed()
                &&& entry.1.sessions@.dom() == sessions_of(agents, messages, agent)
                &&& entry.1.totals.well_formed()
                &&& entry.1.totals@ == totals_of(messages, Selection::Agent(agent))
            },
{
    assert(usage@.dom() =~= active_agents(agents, messages));
    usage.lemma_keys_sorted();
    assert forall|i: int| 0 <= i < usage.entries@.len() implies ({
        let entry = #[trigger] usage.entries@[i];
        let agent = agent_keys(agents, messages)[i];
        &&& entry.1.sessions.well_formed()
        &&& entry.1.sessions@.dom() == sessions_of(agents, messages, agent)
        &&& entry.1.totals.well_formed()
        &&& entry.1.totals@ == totals_of(messages, Selection::Agent(agent))
    }) by {
        usage.lemma_entry(i);
        assert(usage.keys()[i] == usage.entries@[i].0@);
    }
}

/// Whether each message is selected exactly once.
pub open spec fn partitions(messages: Seq<MessageView>, selections: Seq<Selection>) -> bool {
    forall|i: int|
        0 <= i < messages.len() ==> selected_once(#[trigger] messages[i], selections)
}

/// Whether one and only one of the selections admits the message.
pub open spec fn selected_once(message: MessageView, selections: Seq<Selection>) -> bool {
    exists|j: int| #[trigger] selects_only(message, selections, j)
}

/// Whether the selection at `j` and no other admits the message.
pub open spec fn selects_only(message: MessageView, selections: Seq<Selection>, j: int) -> bool {
    &&& 0 <= j < selections.len()
    &&& forall|k: int|
        0 <= k < selections.len() ==> ((#[trigger] selections[k]).admits(message) <==> k == j)
}

proof fn lemma_combined_empty(messages: Seq<MessageView>, selections: Seq<Selection>)
    requires
        messages.len() == 0,
    ensures
        combined(messages, selections).counts == Counts::zero(),
    decreases selections.len(),
{
    if selections.len() > 0 {
        lemma_combined_empty(messages, selections.drop_last());
    }
}

proof fn lemma_combined_next(messages: Seq<MessageView>, selections: Seq<Selection>, j: int)
    requires
        messages.len() > 0,
        forall|k: int|
            0 <= k < selections.len() ==> ((#[trigger] selections[k]).admits(messages.last())
                <==> k == j),
    ensures
        combined(messages, selections).counts == (if 0 <= j < selections.len() {
            combined(messages.drop_last(), selections).counts.plus(Counts::of(messages.last()))
        } else {
            combined(messages.drop_last(), selections).counts
        }),
    decreases selections.len(),
{
    if selections.len() > 0 {
        let shorter = selections.drop_last();
        assert forall|k: int| 0 <= k < shorter.len() implies ((#[trigger] shorter[k]).admits(
            messages.last(),
        ) <==> k == j) by {
            assert(shorter[k] == selections[k]);
        }
        lemma_combined_next(messages, shorter, j);
        assert(selections.last() == selections[selections.len() - 1]);
    }
}

/// A part of the selections counts for no more than all of them.
pub proof fn lemma_combined_within(
    messages: Seq<MessageView>,
    selections: Seq<Selection>,
    count: int,
)
    requires
        0 <= count <= selections.len(),
    ensures
        combined(messages, selections.take(count)).counts.within(
            combined(messages, selections).counts,
        ),
    decreases selections.len(),
{
    if count == selections.len() {
        assert(selections.take(count) =~= selections);
    } else {
        let shorter = selections.drop_last();
        lemma_combined_within(messages, shorter, count);
        assert(selections.take(count) =~= shorter.take(count));
    }
}

/// Where each message is selected exactly once, the parts count for as much as the whole: no
/// request and no token is lost or counted twice.
pub proof fn law_parts_count_as_whole(messages: Seq<MessageView>, selections: Seq<Selection>)
    requires
        partitions(messages, selections),
    ensures
        combined(messages, selections).counts == totals_of(messages, Selection::All).counts,
    decreases messages.len(),
{
    if messages.len() == 0 {
        lemma_combined_empty(messages, selections);
    } else {
        let shorter = messages.drop_last();
        assert forall|i: int| 0 <= i < shorter.len() implies selected_once(
            #[trigger] shorter[i],
            selections,
        ) by {
            assert(shorter[i] == messages[i]);
        }
        law_parts_count_as_whole(shorter, selections);
        assert(selected_once(messages[messages.len() - 1], selections));
        let j = choose|j: int| #[trigger] selects_only(messages.last(), selections, j);
        lemma_combined_next(messages, selections, j);
    }
}

proof fn lemma_models_partition(messages: Seq<MessageView>, keys: Seq<ModelKeyView>)
    requires
        ordered::ascending::<ModelKey>(keys),
        forall|i: int| 0 <= i < messages.len() ==> keys.contains(model_of(#[trigger] messages[i])),
    ensures
        partitions(messages, by_model(keys)),
{
    let selections = by_model(keys);
    assert forall|i: int| 0 <= i < messages.len() implies selected_once(
        #[trigger] messages[i],
        selections,
    ) by {
        let key = model_of(messages[i]);
        let j = choose|j: int| 0 <= j < keys.len() && keys[j] == key;
        assert forall|k: int| 0 <= k < selections.len() implies ((
        #[trigger] selections[k]).admits(messages[i]) <==> k == j) by {
            if keys[k] == key {
                ordered::lemma_ascending_position::<ModelKey>(keys, k, j);
            }
        }
        assert(selects_only(messages[i], selections, j));
    }
}

proof fn lemma_agents_partition(messages: Seq<MessageView>, keys: Seq<Seq<char>>)
    requires
        ordered::ascending::<String>(keys),
        forall|i: int| 0 <= i < messages.len() ==> keys.contains((#[trigger] messages[i]).agent),
    ensures
        partitions(messages, by_agent(keys)),
{
    let selections = by_agent(keys);
    assert forall|i: int| 0 <= i < messages.len() implies selected_once(
        #[trigger] messages[i],
        selections,
    ) by {
        let agent = messages[i].agent;
        let j = choose|j: int| 0 <= j < keys.len() && keys[j] == agent;
        assert forall|k: int| 0 <= k < selections.len() implies ((
        #[trigger] selections[k]).admits(messages[i]) <==> k == j) by {
            if keys[k] == agent {
                ordered::lemma_ascending_position::<String>(keys, k, j);
            }
        }
        assert(selects_only(messages[i], selections, j));
    }
}

/// The models' lines of the bill add up to what all messages used: requests and tokens, column by
/// column.
pub proof fn law_models_add_up(messages: Seq<MessageView>)
    ensures
        grand_total(messages).counts == totals_of(messages, Selection::All).counts,
{
    let keys = model_keys(messages);
    lemma_models_finite(messages);
    ordered::lemma_sorted_exists::<ModelKey>(models_used(messages));
    assert forall|i: int| 0 <= i < messages.len() implies keys.contains(
        model_of(#[trigger] messages[i]),
    ) by {
        assert(model_used(messages, model_of(messages[i])));
    }
    lemma_models_partition(messages, keys);
    law_parts_count_as_whole(messages, by_model(keys));
}

/// The models are listed in ascending order, each that answered a message and no other.
pub proof fn law_models_listed(messages: Seq<MessageView>)
    ensures
        ordered::ascending::<ModelKey>(model_keys(messages)),
        forall|key: ModelKeyView| #[trigger]
            model_keys(messages).contains(key) <==> model_used(messages, key),
{
    lemma_models_finite(messages);
    ordered::lemma_sorted_exists::<ModelKey>(models_used(messages));
    assert forall|key: ModelKeyView| #[trigger]
        model_keys(messages).contains(key) <==> model_used(messages, key) by {
        assert(models_used(messages).contains(key) <==> model_used(messages, key));
    }
}

/// The agents' lines of the bill add up to what all messages used: requests and tokens, column by
/// column.
pub proof fn law_agents_add_up(agents: Map<Seq<char>, Seq<char>>, messages: Seq<MessageView>)
    requires
        agents.dom().finite(),
    ensures
        combined(messages, by_agent(agent_keys(agents, messages))).counts == totals_of(
            messages,
            Selection::All,
        ).counts,
{
    let keys = agent_keys(agents, messages);
    lemma_agents_finite(agents, messages);
    ordered::lemma_sorted_exists::<String>(active_agents(agents, messages));
    assert forall|i: int| 0 <= i < messages.len() implies keys.contains(
        (#[trigger] messages[i]).agent,
    ) by {
        assert(took_part(agents, messages, messages[i].session_id, messages[i].agent));
        assert(agent_active(agents, messages, messages[i].agent));
    }
    lemma_agents_partition(messages, keys);
    law_parts_count_as_whole(messages, by_agent(keys));
}

/// The requests on the bill are the messages: each counts once.
pub proof fn law_requests_are_messages(messages: Seq<MessageView>)
    ensures
        totals_of(messages, Selection::All).counts.requests == messages.len(),
        grand_total(messages).counts.requests == messages.len(),
    decreases messages.len(),
{
    law_models_add_up(messages);
    if messages.len() > 0 {
        law_requests_are_messages(messages.drop_last());
    }
}

/// The cost of the selected messages needs no further rounding, and the messages that follow some
/// never make them cheaper.
pub proof fn law_cost_never_shrinks(
    messages: Seq<MessageView>,
    count: int,
    selection: Selection,
)
    requires
        all_priced(messages),
        0 <= count <= messages.len(),
    ensures
        binary64::is_exact(totals_of(messages, selection).cost),
        binary64::at_most(
            totals_of(messages.take(count), selection).cost,
            totals_of(messages, selection).cost,
        ),
    decreases messages.len(),
{
    if messages.len() == 0 {
        binary64::lemma_zero_exact();
        assert(messages.take(count) =~= messages);
    } else {
        let shorter = messages.drop_last();
        let last = messages.last();
        assert(messages[messages.len() - 1] == last);
        assert(all_priced(shorter)) by {
            assert forall|i: int| 0 <= i < shorter.len() implies (
            #[trigger] shorter[i]).cost.is_price() by {
                assert(shorter[i] == messages[i]);
            }
        }
        law_cost_never_shrinks(
            shorter,
            if count < messages.len() {
                count
            } else {
                shorter.len() as int
            },
            selection,
        );
        binary64::law_zero_plus_price(last.cost);
        binary64::law_sum_never_shrinks(totals_of(shorter, selection).cost, last.cost.amount());
        if count == messages.len() {
            assert(messages.take(count) =~= messages);
        } else {
            assert(messages.take(count) =~= shorter.take(count));
        }
    }
}

/// A session of one message costs what the message costs.
pub proof fn law_single_message_cost(message: MessageView)
    requires
        message.cost.is_price(),
    ensures
        grand_total(seq![message]).cost == message.cost.amount(),
{
    let messages = seq![message];
    let key = model_of(message);
    assert(messages.drop_last() =~= Seq::<MessageView>::empty());
    assert(totals_of(messages.drop_last(), Selection::Model(key)) == TotalsView::zero());
    binary64::law_zero_plus_price(message.cost);
    assert(messages[0] == message);
    let keys = seq![key];
    assert(ordered::ascending::<ModelKey>(keys));
    assert forall|k: ModelKeyView| #[trigger] keys.contains(k) <==> models_used(messages).contains(
        k,
    ) by {
        if keys.contains(k) {
            assert(model_of(messages[0]) == k);
        }
        if model_used(messages, k) {
            assert(keys[0] == k);
        }
    }
    ordered::lemma_sorted::<ModelKey>(keys, models_used(messages));
    let selections = by_model(keys);
    assert(selections.drop_last() =~= Seq::<Selection>::empty());
    assert(combined(messages, selections.drop_last()) == TotalsView::zero());
    assert(selections.last() == Selection::Model(key));
}

/// The agents are listed in ascending order, each that took part in a session and no other.
pub proof fn law_agents_listed(agents: Map<Seq<char>, Seq<char>>, messages: Seq<MessageView>)
    requires
        agents.dom().finite(),
    ensures
        ordered::ascending::<String>(agent_keys(agents, messages)),
        forall|agent: Seq<char>| #[trigger]
            agent_keys(agents, messages).contains(agent) <==> agent_active(agents, messages, agent),
{
    lemma_agents_finite(agents, messages);
    ordered::lemma_sorted_exists::<String>(active_agents(agents, messages));
    assert forall|agent: Seq<char>| #[trigger]
        agent_keys(agents, messages).contains(agent) <==> agent_active(
            agents,
            messages,
            agent,
        ) by {
        assert(active_agents(agents, messages).contains(agent) <==> agent_active(
            agents,
            messages,
            agent,
        ));
    }
}

proof fn lemma_models_finite(messages: Seq<MessageView>)
    ensures
        models_used(messages).finite(),
{
    let named = messages.map_values(|message: MessageView| model_of(message));
    assert(models_used(messages) =~= named.to_set()) by {
        assert forall|key: ModelKeyView| model_used(messages, key) <==> named.contains(key) by {
            if model_used(messages, key) {
                let i = choose|i: int|
                    0 <= i < messages.len() && model_of(#[trigger] messages[i]) == key;
                assert(named[i] == key);
            }
            if named.contains(key) {
                let i = choose|i: int| 0 <= i < named.len() && named[i] == key;
                assert(model_of(messages[i]) == key);
            }
        }
    }
    vstd::seq_lib::seq_to_set_is_finite(named);
}

proof fn lemma_agents_finite(agents: Map<Seq<char>, Seq<char>>, messages: Seq<MessageView>)
    requires
        agents.dom().finite(),
    ensures
        active_agents(agents, messages).finite(),
{
    let wrote = messages.map_values(|message: MessageView| message.agent);
    let known = agents.dom().map(|session: Seq<char>| agents[session]);
    agents.dom().lemma_map_finite(|session: Seq<char>| agents[session]);
    vstd::seq_lib::seq_to_set_is_finite(wrote);
    assert(active_agents(agents, messages) =~= known.union(wrote.to_set())) by {
        assert forall|agent: Seq<char>|
            agent_active(agents, messages, agent) <==> known.contains(agent) || wrote.contains(
                agent,
            ) by {
            if agent_active(agents, messages, agent) {
                let session = choose|session: Seq<char>| #[trigger]
                    took_part(agents, messages, session, agent);
                if agents.dom().contains(session) && agents[session] == agent {
                    assert(known.contains(agent));
                } else {
                    let i = choose|i: int|
                        0 <= i < messages.len() && (#[trigger] messages[i]).session_id == session
                            && messages[i].agent == agent;
                    assert(wrote[i] == agent);
                }
            }
            if known.contains(agent) {
                let session = choose|session: Seq<char>|
                    agents.dom().contains(session) && agents[session] == agent;
                assert(took_part(agents, messages, session, agent));
            }
            if wrote.contains(agent) {
                let i = choose|i: int| 0 <= i < wrote.len() && wrote[i] == agent;
                assert(messages[i].agent == agent);
                assert(took_part(agents, messages, messages[i].session_id, agent));
            }
        }
    }
}

proof fn lemma_without(messages: Seq<MessageView>, index: int, selection: Selection)
    requires
        0 <= index < messages.len(),
    ensures
        totals_of(messages, selection).counts == (if selection.admits(messages[index]) {
            totals_of(messages.remove(index), selection).counts.plus(Counts::of(messages[index]))
        } else {
            totals_of(messages.remove(index), selection).counts
        }),
    decreases messages.len(),
{
    if index == messages.len() - 1 {
        assert(messages.remove(index) =~= messages.drop_last());
    } else {
        let shorter = messages.drop_last();
        lemma_without(shorter, index, selection);
        let rest = messages.remove(index);
        assert(rest.drop_last() =~= shorter.remove(index));
        assert(rest.last() == messages.last());
    }
}

/// The order of the messages does not matter to what is counted.
pub proof fn law_order_is_irrelevant(
    left: Seq<MessageView>,
    right: Seq<MessageView>,
    selection: Selection,
)
    requires
        left.to_multiset() == right.to_multiset(),
    ensures
        totals_of(left, selection).counts == totals_of(right, selection).counts,
    decreases left.len(),
{
    broadcast use vstd::seq_lib::group_to_multiset_ensures;

    assert(left.len() == left.to_multiset().len());
    assert(right.len() == right.to_multiset().len());
    if left.len() > 0 {
        let message = left.last();
        assert(left.contains(message)) by {
            assert(left[left.len() - 1] == message);
        }
        assert(right.to_multiset().count(message) > 0);
        assert(right.contains(message));
        let index = choose|i: int| 0 <= i < right.len() && right[i] == message;
        let shorter = left.remove(left.len() - 1);
        assert(shorter =~= left.drop_last());
        law_order_is_irrelevant(shorter, right.remove(index), selection);
        lemma_without(right, index, selection);
    }
}

/// Without messages nothing is used.
pub proof fn law_no_messages(selection: Selection)
    ensures
        ({
            let nothing = totals_of(Seq::empty(), selection);
            &&& nothing.counts.requests == 0
            &&& nothing.counts.input == 0
            &&& nothing.counts.output == 0
            &&& nothing.counts.reasoning == 0
            &&& nothing.counts.cache_read == 0
            &&& nothing.counts.cache_write == 0
            &&& nothing.cost == Some(0nat)
        }),
{
}

/// One more message adds its request, its tokens and its cost to what the session, its model and
/// its agent used, whatever was counted before, and adds nothing to what any other model or agent
/// used.
pub proof fn law_each_message_counts(
    messages: Seq<MessageView>,
    message: MessageView,
    selection: Selection,
)
    ensures
        ({
            let before = totals_of(messages, selection);
            let after = totals_of(messages.push(message), selection);
            let concerned = match selection {
                Selection::All => true,
                Selection::Model(key) => message.provider == key.provider && message.model
                    == key.model,
                Selection::Agent(agent) => message.agent == agent,
            };
            &&& concerned ==> {
                &&& after.counts.requests == before.counts.requests + 1
                &&& after.counts.input == before.counts.input + message.input
                &&& after.counts.output == before.counts.output + message.output
                &&& after.counts.reasoning == before.counts.reasoning + message.reasoning
                &&& after.counts.cache_read == before.counts.cache_read + message.cache_read
                &&& after.counts.cache_write == before.counts.cache_write + message.cache_write
                &&& after.cost == binary64::amount_sum(before.cost, message.cost.amount())
            }
            &&& !concerned ==> after == before
        }),
{
    assert(messages.push(message).drop_last() =~= messages);
    assert(messages.push(message).last() == message);
}

/// Where no rounding is needed on the way, the cost is exactly the sum of the costs of all selected
/// messages.
pub proof fn law_exact_costs_add_up(
    messages: Seq<MessageView>,
    message: MessageView,
    selection: Selection,
    units: nat,
    more: nat,
)
    requires
        totals_of(messages, selection).cost == Some(units),
        message.cost.amount() == Some(more),
        binary64::is_exact(Some(units + more)),
    ensures
        match selection {
            Selection::All => true,
            Selection::Model(key) => message.provider == key.provider && message.model == key.model,
            Selection::Agent(agent) => message.agent == agent,
        } ==> totals_of(messages.push(message), selection).cost == Some(units + more),
{
    law_each_message_counts(messages, message, selection);
}

/// What a selection used is what its messages alone used: the others may be left out.
pub proof fn law_others_do_not_matter(
    messages: Seq<MessageView>,
    index: int,
    selection: Selection,
)
    requires
        0 <= index < messages.len(),
        match selection {
            Selection::All => false,
            Selection::Model(key) => messages[index].provider != key.provider
                || messages[index].model != key.model,
            Selection::Agent(agent) => messages[index].agent != agent,
        },
    ensures
        totals_of(messages, selection) == totals_of(messages.remove(index), selection),
    decreases messages.len(),
{
    let rest = messages.remove(index);
    if index == messages.len() - 1 {
        assert(rest =~= messages.drop_last());
    } else {
        let shorter = messages.drop_last();
        law_others_do_not_matter(shorter, index, selection);
        assert(rest.drop_last() =~= shorter.remove(index));
        assert(rest.last() == messages.last());
    }
}

/// The sum that is checked for size is that of all messages, and each column has a machine word.
pub proof fn law_usage_fits(messages: Seq<MessageView>)
    ensures
        ({
            let all = totals_of(messages, Selection::All).counts;
            usage_fits(messages) <==> all.requests <= 0xffff_ffff_ffff_ffff && all.input
                <= 0xffff_ffff_ffff_ffff && all.output <= 0xffff_ffff_ffff_ffff && all.reasoning
                <= 0xffff_ffff_ffff_ffff && all.cache_read <= 0xffff_ffff_ffff_ffff
                && all.cache_write <= 0xffff_ffff_ffff_ffff
        }),
{
}

/// The models used are those that the messages name, each by its provider and its own name.
pub proof fn law_models_used(messages: Seq<MessageView>, message: MessageView)
    ensures
        models_used(Seq::empty()) == Set::<ModelKeyView>::empty(),
        models_used(messages.push(message)) == models_used(messages).insert(
            ModelKeyView { provider: message.provider, model: message.model },
        ),
{
    let more = messages.push(message);
    let key = ModelKeyView { provider: message.provider, model: message.model };
    assert(models_used(Seq::empty()) =~= Set::<ModelKeyView>::empty());
    assert forall|k: ModelKeyView| model_used(more, k) <==> model_used(messages, k) || k == key by {
        if model_used(messages, k) {
            let i = choose|i: int| 0 <= i < messages.len() && model_of(#[trigger] messages[i]) == k;
            assert(more[i] == messages[i]);
        }
        if model_used(more, k) {
            let i = choose|i: int| 0 <= i < more.len() && model_of(#[trigger] more[i]) == k;
            if i < messages.len() {
                assert(messages[i] == more[i]);
            }
        }
        assert(more[messages.len() as int] == message);
    }
    assert(models_used(more) =~= models_used(messages).insert(key));
}

/// The sessions of an agent are those known to belong to it and those in which it wrote a message.
pub proof fn law_sessions_of_agents(
    agents: Map<Seq<char>, Seq<char>>,
    messages: Seq<MessageView>,
    message: MessageView,
    agent: Seq<char>,
)
    ensures
        forall|session: Seq<char>| #[trigger]
            sessions_of(agents, Seq::empty(), agent).contains(session) <==> agents.dom().contains(
                session,
            ) && agents[session] == agent,
        message.agent == agent ==> sessions_of(agents, messages.push(message), agent)
            == sessions_of(agents, messages, agent).insert(message.session_id),
        message.agent != agent ==> sessions_of(agents, messages.push(message), agent)
            == sessions_of(agents, messages, agent),
{
    let more = messages.push(message);
    assert forall|session: Seq<char>| took_part(agents, more, session, agent) <==> took_part(
        agents,
        messages,
        session,
        agent,
    ) || (message.session_id == session && message.agent == agent) by {
        if exists|i: int|
            0 <= i < messages.len() && (#[trigger] messages[i]).session_id == session
                && messages[i].agent == agent {
            let i = choose|i: int|
                0 <= i < messages.len() && (#[trigger] messages[i]).session_id == session
                    && messages[i].agent == agent;
            assert(more[i] == messages[i]);
        }
        if exists|i: int|
            0 <= i < more.len() && (#[trigger] more[i]).session_id == session && more[i].agent
                == agent {
            let i = choose|i: int|
                0 <= i < more.len() && (#[trigger] more[i]).session_id == session && more[i].agent
                    == agent;
            if i < messages.len() {
                assert(messages[i] == more[i]);
            }
        }
        assert(more[messages.len() as int] == message);
    }
    if message.agent == agent {
        assert(sessions_of(agents, more, agent) =~= sessions_of(agents, messages, agent).insert(
            message.session_id,
        ));
    } else {
        assert(sessions_of(agents, more, agent) =~= sessions_of(agents, messages, agent));
    }
}

/// An agent is listed exactly where it has a session.
pub proof fn law_listed_agents_have_sessions(
    agents: Map<Seq<char>, Seq<char>>,
    messages: Seq<MessageView>,
    agent: Seq<char>,
)
    requires
        agents.dom().finite(),
    ensures
        agent_keys(agents, messages).contains(agent) <==> exists|session: Seq<char>| #[trigger]
            sessions_of(agents, messages, agent).contains(session),
{
    law_agents_listed(agents, messages);
    if agent_active(agents, messages, agent) {
        let session = choose|session: Seq<char>| #[trigger]
            took_part(agents, messages, session, agent);
        assert(sessions_of(agents, messages, agent).contains(session));
    }
    if exists|session: Seq<char>| #[trigger]
        sessions_of(agents, messages, agent).contains(session) {
        let session = choose|session: Seq<char>| #[trigger]
            sessions_of(agents, messages, agent).contains(session);
        assert(took_part(agents, messages, session, agent));
    }
}

/// The amount due is the cost of the models' lines, added from the first to the last.
pub proof fn law_amount_due(messages: Seq<MessageView>)
    ensures
        grand_total(messages).cost == model_keys(messages).fold_left(
            Some(0nat),
            |due: Option<nat>, key: ModelKeyView|
                binary64::amount_sum(due, totals_of(messages, Selection::Model(key)).cost),
        ),
{
    lemma_combined_folds(messages, model_keys(messages));
}

proof fn lemma_combined_folds(messages: Seq<MessageView>, keys: Seq<ModelKeyView>)
    ensures
        combined(messages, by_model(keys)).cost == keys.fold_left(
            Some(0nat),
            |due: Option<nat>, key: ModelKeyView|
                binary64::amount_sum(due, totals_of(messages, Selection::Model(key)).cost),
        ),
    decreases keys.len(),
{
    if keys.len() > 0 {
        lemma_combined_folds(messages, keys.drop_last());
        assert(by_model(keys).drop_last() =~= by_model(keys.drop_last()));
        assert(by_model(keys).last() == Selection::Model(keys.last()));
    }
}

/// A session that used one model owes what that model's messages cost together.
pub proof fn law_one_model_owes_its_cost(messages: Seq<MessageView>, key: ModelKeyView)
    requires
        all_priced(messages),
        messages.len() > 0,
        forall|i: int|
            0 <= i < messages.len() ==> (#[trigger] messages[i]).provider == key.provider
                && messages[i].model == key.model,
    ensures
        model_keys(messages) == seq![key],
        grand_total(messages).cost == totals_of(messages, Selection::All).cost,
{
    let keys = seq![key];
    assert(ordered::ascending::<ModelKey>(keys));
    assert(model_of(messages[0]) == key);
    assert forall|k: ModelKeyView| #[trigger] keys.contains(k) <==> models_used(messages).contains(
        k,
    ) by {
        if keys.contains(k) {
            assert(model_of(messages[0]) == k);
        }
        if model_used(messages, k) {
            let i = choose|i: int| 0 <= i < messages.len() && model_of(#[trigger] messages[i]) == k;
            assert(messages[i].provider == key.provider);
            assert(keys[0] == k);
        }
    }
    ordered::lemma_sorted::<ModelKey>(keys, models_used(messages));
    lemma_all_selected(messages, Selection::Model(key));
    let selections = by_model(keys);
    assert(selections.drop_last() =~= Seq::<Selection>::empty());
    assert(combined(messages, selections.drop_last()) == TotalsView::zero());
    assert(selections.last() == Selection::Model(key));
    law_cost_never_shrinks(messages, 0, Selection::All);
    let cost = totals_of(messages, Selection::All).cost;
    assert(binary64::is_exact(cost));
    assert(binary64::amount_sum(Some(0), cost) == cost);
}

proof fn lemma_all_selected(messages: Seq<MessageView>, selection: Selection)
    requires
        forall|i: int| 0 <= i < messages.len() ==> selection.admits(#[trigger] messages[i]),
    ensures
        totals_of(messages, selection) == totals_of(messages, Selection::All),
    decreases messages.len(),
{
    if messages.len() > 0 {
        let shorter = messages.drop_last();
        assert forall|i: int| 0 <= i < shorter.len() implies selection.admits(
            #[trigger] shorter[i],
        ) by {
            assert(shorter[i] == messages[i]);
        }
        lemma_all_selected(shorter, selection);
        assert(messages[messages.len() - 1] == messages.last());
    }
}

/// Two totals together have each column of both, and a cost that is the sum of the costs.
pub proof fn law_totals_together(left: TotalsView, right: TotalsView)
    ensures
        left.plus(right).counts.requests == left.counts.requests + right.counts.requests,
        left.plus(right).counts.input == left.counts.input + right.counts.input,
        left.plus(right).counts.output == left.counts.output + right.counts.output,
        left.plus(right).counts.reasoning == left.counts.reasoning + right.counts.reasoning,
        left.plus(right).counts.cache_read == left.counts.cache_read + right.counts.cache_read,
        left.plus(right).counts.cache_write == left.counts.cache_write + right.counts.cache_write,
        left.plus(right).cost == binary64::amount_sum(left.cost, right.cost),
{
}

/// The models' usage lists each model that a message names, in order, with what its messages used.
pub proof fn law_model_usage(messages: Seq<MessageView>, usage: OrderedMap<ModelKey, Totals>)
    requires
        is_model_usage(messages, usage),
    ensures
        usage.entries@.len() == model_keys(messages).len(),
        forall|i: int|
            0 <= i < usage.entries@.len() ==> {
                let totals = (#[trigger] usage.entries@[i]).1;
                let used = totals_of(messages, Selection::Model(usage.entries@[i].0@));
                &&& usage.entries@[i].0@ == model_keys(messages)[i]
                &&& totals.requests == used.counts.requests
                &&& totals.input == used.counts.input
                &&& totals.output == used.counts.output
                &&& totals.reasoning == used.counts.reasoning
                &&& totals.cache_read == used.counts.cache_read
                &&& totals.cache_write == used.counts.cache_write
                &&& totals.cost.amount() == used.cost
            },
{
    lemma_model_usage_listed(messages, usage);
    assert forall|i: int| 0 <= i < usage.entries@.len() implies usage.entries@[i].0@ == model_keys(
        messages,
    )[i] by {
        assert(usage.keys()[i] == usage.entries@[i].0@);
    }
}

/// The agents' usage lists each agent that took part in a session, in order, with its sessions and
/// what its messages used.
pub proof fn law_agent_usage(
    agents: Map<Seq<char>, Seq<char>>,
    messages: Seq<MessageView>,
    usage: OrderedMap<String, AgentUsage>,
)
    requires
        is_agent_usage(agents, messages, usage),
    ensures
        usage.entries@.len() == agent_keys(agents, messages).len(),
        forall|i: int|
            0 <= i < usage.entries@.len() ==> {
                let entry = (#[trigger] usage.entries@[i]).1;
                let used = totals_of(messages, Selection::Agent(usage.entries@[i].0@));
                &&& usage.entries@[i].0@ == agent_keys(agents, messages)[i]
                &&& entry.sessions@.dom() == sessions_of(agents, messages, usage.entries@[i].0@)
                &&& entry.totals.requests == used.counts.requests
                &&& entry.totals.input == used.counts.input
                &&& entry.totals.output == used.counts.output
                &&& entry.totals.reasoning == used.counts.reasoning
                &&& entry.totals.cache_read == used.counts.cache_read
                &&& entry.totals.cache_write == used.counts.cache_write
                &&& entry.totals.cost.amount() == used.cost
            },
{
    lemma_agent_usage_listed(agents, messages, usage);
    assert forall|i: int| 0 <= i < usage.entries@.len() implies usage.entries@[i].0@ == agent_keys(
        agents,
        messages,
    )[i] by {
        assert(usage.keys()[i] == usage.entries@[i].0@);
    }
}

/// The contents of a message are its own fields, each under its own name, and a list of messages has
/// the contents of each in its place.
pub proof fn law_message_contents(messages: Seq<MessageUsage>, index: int)
    requires
        0 <= index < messages.len(),
    ensures
        ({
            let message = messages[index];
            let contents = message_views(messages)[index];
            &&& message_views(messages).len() == messages.len()
            &&& contents == message@
            &&& contents.session_id == message.session_id@
            &&& contents.agent == message.agent@
            &&& contents.provider == message.provider@
            &&& contents.model == message.model@
            &&& contents.input == message.input
            &&& contents.output == message.output
            &&& contents.reasoning == message.reasoning
            &&& contents.cache_read == message.cache_read
            &&& contents.cache_write == message.cache_write
            &&& contents.cost == message.cost
        }),
{
}

/// The contents of totals are their own columns, each under its own name.
pub proof fn law_totals_contents(totals: Totals)
    ensures
        totals@.counts.requests == totals.requests,
        totals@.counts.input == totals.input,
        totals@.counts.output == totals.output,
        totals@.counts.reasoning == totals.reasoning,
        totals@.counts.cache_read == totals.cache_read,
        totals@.counts.cache_write == totals.cache_write,
        totals@.cost == totals.cost.amount(),
{
}

/// The cost of a selection is the sum of the costs of all its messages and of no others, taken in
/// their order and rounded at each step; its requests are as many as these messages.
pub proof fn law_cost_is_the_sum(messages: Seq<MessageView>, selection: Selection)
    ensures
        ({
            let concerned = messages.filter(
                |message: MessageView|
                    match selection {
                        Selection::All => true,
                        Selection::Model(key) => message.provider == key.provider && message.model
                            == key.model,
                        Selection::Agent(agent) => message.agent == agent,
                    },
            );
            let used = totals_of(messages, selection);
            &&& used.cost == concerned.fold_left(
                Some(0nat),
                |sum: Option<nat>, message: MessageView|
                    binary64::amount_sum(sum, message.cost.amount()),
            )
            &&& used.counts.requests == concerned.len()
        }),
    decreases messages.len(),
{
    reveal(Seq::filter);
    if messages.len() > 0 {
        let shorter = messages.drop_last();
        let last = messages.last();
        law_cost_is_the_sum(shorter, selection);
        law_each_message_counts(shorter, last, selection);
        assert(shorter.push(last) =~= messages);
        let before = shorter.filter(
            |message: MessageView|
                match selection {
                    Selection::All => true,
                    Selection::Model(key) => message.provider == key.provider && message.model
                        == key.model,
                    Selection::Agent(agent) => message.agent == agent,
                },
        );
        assert(before.push(last).drop_last() =~= before);
    } else {
        law_no_messages(selection);
        assert(messages =~= Seq::empty());
    }
}

/// The models are listed by ascending provider, and those of one provider by ascending name.
pub proof fn law_models_in_order(messages: Seq<MessageView>, i: int, j: int)
    requires
        0 <= i < j < model_keys(messages).len(),
    ensures
        ({
            let (first, second) = (model_keys(messages)[i], model_keys(messages)[j]);
            crate::text::text_before(first.provider, second.provider) || (first.provider
                == second.provider && crate::text::text_before(first.model, second.model))
        }),
{
    law_models_listed(messages);
}

/// The agents are listed by ascending name.
pub proof fn law_agents_in_order(
    agents: Map<Seq<char>, Seq<char>>,
    messages: Seq<MessageView>,
    i: int,
    j: int,
)
    requires
        agents.dom().finite(),
        0 <= i < j < agent_keys(agents, messages).len(),
    ensures
        crate::text::text_before(agent_keys(agents, messages)[i], agent_keys(agents, messages)[j]),
{
    law_agents_listed(agents, messages);
}

/// The agents that sessions are known to belong to are those that the map holds.
pub proof fn law_agent_contents(agents: OrderedMap<String, String>, session: Seq<char>)
    ensures
        agent_names(agents).dom().contains(session) <==> agents@.dom().contains(session),
        agents@.dom().contains(session) ==> agent_names(agents)[session] == agents@[session]@,
{
}

} // verus!
