use opencode_bill::binary64::Binary64;
use opencode_bill::ordered::{ModelKey, OrderedMap};
use opencode_bill::text::{
    join, lines_of, order, order_bytes, pieces, push_lowercase, same_text, starts_with, trimmed, trimmed_end,
    trimmed_start, width_of, Edge, Placement,
};
use opencode_bill::usage::{
    add_totals, aggregate, aggregate_agents, totals_fit, MessageUsage, Totals,
};

fn number(value: f64) -> Binary64 {
    Binary64::from_bits(value.to_bits())
}

fn message(session: &str, agent: &str, model: (&str, &str), tokens: u64, cost: f64) -> MessageUsage {
    MessageUsage {
        session_id: session.to_owned(),
        agent: agent.to_owned(),
        provider: model.0.to_owned(),
        model: model.1.to_owned(),
        input: tokens,
        output: tokens + 1,
        reasoning: tokens + 2,
        cache_read: tokens + 3,
        cache_write: tokens + 4,
        cost: number(cost),
    }
}

fn messages() -> Vec<MessageUsage> {
    vec![
        message("s1", "build", ("openai", "b"), 10, 0.1),
        message("s2", "plan", ("anthropic", "z"), 20, 0.2),
        message("s1", "build", ("openai", "a"), 30, 0.3),
        message("s2", "build", ("openai", "b"), 40, 0.4),
        message("s3", "plan", ("openai", "b"), 50, 0.5),
    ]
}

fn columns(totals: &Totals) -> [u64; 6] {
    [
        totals.requests,
        totals.input,
        totals.output,
        totals.reasoning,
        totals.cache_read,
        totals.cache_write,
    ]
}

#[test]
fn models_are_added_up_one_by_one() {
    let usage = aggregate(&messages());
    let keys: Vec<(&str, &str)> = usage
        .entries
        .iter()
        .map(|(key, _)| (key.provider.as_str(), key.model.as_str()))
        .collect();

    assert_eq!(keys, [("anthropic", "z"), ("openai", "a"), ("openai", "b")]);
    assert_eq!(columns(&usage.entries[2].1), [3, 100, 103, 106, 109, 112]);
    assert_eq!(usage.entries[2].1.cost.bits, (0.0 + 0.1 + 0.4 + 0.5_f64).to_bits());
    assert_eq!(aggregate(&Vec::new()).entries.len(), 0);
}

#[test]
fn models_and_agents_add_up_to_the_same_total() {
    let all = messages();
    let models = aggregate(&all);
    let agents = aggregate_agents(&all, &OrderedMap::new());
    let zero = || Totals::builder().zeroed().build();
    let by_model = models.entries.iter().fold(zero(), |sum, (_, totals)| add_totals(sum, totals));
    let by_agent =
        agents.entries.iter().fold(zero(), |sum, (_, usage)| add_totals(sum, &usage.totals));

    assert_eq!(columns(&by_model), [5, 150, 155, 160, 165, 170]);
    assert_eq!(columns(&by_model), columns(&by_agent));
    let mut reversed = all;
    reversed.reverse();
    let again = aggregate(&reversed)
        .entries
        .iter()
        .fold(zero(), |sum, (_, totals)| add_totals(sum, totals));
    assert_eq!(columns(&by_model), columns(&again));
}

#[test]
fn a_single_message_costs_what_it_says() {
    let usage = aggregate(&vec![message("s", "a", ("p", "m"), 1, 0.1)]);
    let total = add_totals(Totals::builder().zeroed().build(), &usage.entries[0].1);

    assert_eq!(total.cost, number(0.1));
}

#[test]
fn agents_have_their_sessions() {
    let mut known: OrderedMap<String, String> = OrderedMap::new();
    known.insert("s1".to_owned(), "plan".to_owned());
    known.insert("s9".to_owned(), "idle".to_owned());
    let usage = aggregate_agents(&messages(), &known);
    let sessions: Vec<(&str, Vec<&str>, u64)> = usage
        .entries
        .iter()
        .map(|(agent, usage)| {
            (
                agent.as_str(),
                usage.sessions.entries.iter().map(|(session, ())| session.as_str()).collect(),
                usage.totals.requests,
            )
        })
        .collect();

    assert_eq!(
        sessions,
        [
            ("build", vec!["s1", "s2"], 3),
            ("idle", vec!["s9"], 0),
            ("plan", vec!["s1", "s2", "s3"], 2),
        ]
    );
}

#[test]
fn sums_that_do_not_fit_are_noticed() {
    let mut all = vec![message("s", "a", ("p", "m"), u64::MAX - 4, 0.0)];
    assert!(totals_fit(&all));
    all.push(message("s", "a", ("p", "m"), 0, 0.0));
    assert!(!totals_fit(&all));
    assert!(totals_fit(&messages()));
    assert!(totals_fit(&Vec::new()));
}

#[test]
fn maps_keep_their_keys_in_order() {
    let mut map: OrderedMap<ModelKey, u8> = OrderedMap::new();
    let key = |provider: &str, model: &str| ModelKey {
        provider: provider.to_owned(),
        model: model.to_owned(),
    };
    for (place, (provider, model)) in
        [("b", "x"), ("a", "y"), ("b", "a"), ("a", "y"), ("ä", ""), ("B", "z")].iter().enumerate()
    {
        map.insert(key(provider, model), place as u8);
    }
    let listed: Vec<(String, String, u8)> = map
        .entries
        .iter()
        .map(|(key, place)| (key.provider.clone(), key.model.clone(), *place))
        .collect();
    let mut expected: Vec<(String, String, u8)> =
        [("B", "z", 5), ("a", "y", 3), ("b", "a", 2), ("b", "x", 0), ("ä", "", 4)]
            .iter()
            .map(|(provider, model, place)| ((*provider).to_owned(), (*model).to_owned(), *place))
            .collect();

    assert_eq!(listed, expected);
    expected.sort();
    assert_eq!(listed, expected);
    assert_eq!(map.len(), 5);
    assert_eq!(map.get(&key("b", "a")), Some(&2));
    assert!(map.get(&key("b", "b")).is_none());
    assert!(map.contains_key(&key("ä", "")));
    assert_eq!(*map.entry(key("c", "c"), 9), 9);
    *map.entry(key("c", "c"), 1) = 7;
    assert_eq!(map.get(&key("c", "c")), Some(&7));
}

#[test]
fn texts_compare_as_the_standard_compares_them() {
    let samples = ["", "a", "ab", "b", "B", "ä", "z", "日本", "\u{10ffff}", "a\0", "aa"];

    for left in samples {
        for right in samples {
            let expected = match left.cmp(right) {
                std::cmp::Ordering::Less => Placement::Before,
                std::cmp::Ordering::Equal => Placement::Same,
                std::cmp::Ordering::Greater => Placement::After,
            };
            assert_eq!(order(left, right), expected);
            assert_eq!(order_bytes(left.as_bytes(), right.as_bytes()), expected);
            assert_eq!(same_text(left, right), left == right);
            assert_eq!(starts_with(left, right), left.starts_with(right));
        }
        assert_eq!(width_of(left), left.chars().count());
    }
}

#[test]
fn blanks_are_those_of_the_standard() {
    for code in 0..=0x10ffff_u32 {
        if let Some(c) = char::from_u32(code) {
            let text = c.to_string();
            assert_eq!(trimmed(&text, Edge::Space).is_empty(), c.is_whitespace(), "{code:x}");
        }
    }
}

#[test]
fn small_letters_are_those_of_the_standard() {
    for code in 0..=0x10ffff_u32 {
        if let Some(c) = char::from_u32(code) {
            let mut chars = vec!['x'];
            push_lowercase(&mut chars, c);
            let mut expected = vec!['x'];
            expected.extend(c.to_lowercase());
            assert_eq!(chars, expected);
            assert!(!chars.iter().any(char::is_ascii_uppercase));
            if c.is_ascii() {
                assert_eq!(chars, ['x', c.to_ascii_lowercase()]);
            }
        }
    }
}

#[test]
fn texts_are_cut_and_joined_as_the_standard_does_it() {
    let samples =
        ["", "a", "\n", "a\n", "a\r\nb", "a\n\nb\r", "|a||b|", "  x y \t", "$$1$", "\r\n", "|||"];

    for text in samples {
        assert_eq!(lines_of(text), text.lines().collect::<Vec<_>>(), "{text:?}");
        assert_eq!(pieces(text, '|'), text.split('|').collect::<Vec<_>>());
        assert_eq!(trimmed(text, Edge::Space), text.trim());
        assert_eq!(trimmed(text, Edge::Only('|')), text.trim_matches('|'));
        assert_eq!(trimmed_start(text, Edge::Only('$')), text.trim_start_matches('$'));
        assert_eq!(trimmed_end(text, Edge::Only('$')), text.trim_end_matches('$'));
        let parts: Vec<String> = text.split('|').map(str::to_owned).collect();
        assert_eq!(join(&parts, ", "), parts.join(", "));
    }
}
