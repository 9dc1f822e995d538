use opencode_bill::bill::{agent_row, format_rate, pricing_row, usage_row};
use opencode_bill::binary64::Binary64;
use opencode_bill::count::compact_count;
use opencode_bill::decimal::{decimal_text, scaled_decimal_text};
use opencode_bill::ordered::{ModelKey, OrderedMap};
use opencode_bill::pricing::ModelRates;
use opencode_bill::table::{push_table_row, render_table};
use opencode_bill::usage::{AgentUsage, Totals};

fn number(value: f64) -> Binary64 {
    Binary64::from_bits(value.to_bits())
}

struct Stream {
    state: u64,
}

impl Stream {
    fn next(&mut self) -> u64 {
        self.state = self.state.wrapping_mul(6364136223846793005).wrapping_add(1442695040888963407);
        let mixed = self.state ^ (self.state >> 33);
        mixed.wrapping_mul(0xff51afd7ed558ccd) ^ (mixed >> 29)
    }
}

#[test]
fn compacts_large_usage_counts() {
    assert_eq!(compact_count(999), "999");
    assert_eq!(compact_count(1_000), "1.0k");
    assert_eq!(compact_count(48_579), "48.6k");
    assert_eq!(compact_count(1_000_000), "1.0M");
    assert_eq!(compact_count(1_958_181), "2.0M");
}

#[test]
fn compact_counts_agree_with_floating_division() {
    let mut stream = Stream { state: 7 };
    let mut values = vec![0, 1, 9, 10, 999_949, 999_950, 999_999, 1_049_999, 1_050_000, u64::MAX];
    for shift in 0..64 {
        for _ in 0..40 {
            values.push(stream.next() >> shift);
        }
    }
    for tenth in 0..2_000 {
        values.push(1_000 + tenth * 50);
        values.push(1_000_000 + tenth * 50_000);
    }
    for value in values {
        let expected = if value >= 1_000_000 {
            format!("{:.1}M", value as f64 / 1_000_000_f64)
        } else if value >= 1_000 {
            format!("{:.1}k", value as f64 / 1_000_f64)
        } else {
            value.to_string()
        };
        assert_eq!(compact_count(value), expected, "{value}");
    }
}

#[test]
fn aligns_text_left_and_numbers_right() -> Result<(), Box<dyn std::error::Error>> {
    let table = render_table(
        &["MODEL", "REQUESTS", "COST"],
        &[
            vec!["short".to_owned(), "2".to_owned(), "$1.00".to_owned()],
            vec!["long model".to_owned(), "10".to_owned(), "$12.00".to_owned()],
        ],
    )
    .map_err(|failure| failure.message())?;

    assert_eq!(
        table,
        "MODEL      | REQUESTS |   COST\n-----------+----------+-------\nshort      |        2 |  $1.00\nlong model |       10 | $12.00\n"
    );
    Ok(())
}

#[test]
fn tables_refuse_missing_columns_and_cells() {
    let failure = render_table(&[], &[]).err().map(|failure| failure.message());
    assert_eq!(
        failure,
        Some("invalid OpenCode data in bill renderer: table has no columns".to_owned())
    );
    let failure = render_table(&["A", "B"], &[vec!["1".to_owned()]])
        .err()
        .map(|failure| failure.message());
    assert_eq!(
        failure,
        Some(
            "invalid OpenCode data in bill renderer: table row has the wrong column count"
                .to_owned()
        )
    );
}

#[test]
fn table_lines_are_equally_long() {
    let rows = vec![
        vec!["größe".to_owned(), "1".to_owned(), "".to_owned()],
        vec!["x".to_owned(), "日本語".to_owned(), "1234567".to_owned()],
    ];
    let table = render_table(&["NAME", "B", "COUNT"], &rows).unwrap_or_default();
    let lengths: Vec<usize> = table.lines().map(|line| line.chars().count()).collect();

    assert_eq!(lengths, vec![7 + 3 + 9 + 3 + 7; 4]);
    assert!(table.contains("größe   |         1 |        \n"));
}

#[test]
fn table_rows_match_the_standard_padding() {
    let cells = vec!["ab".to_owned(), "c".to_owned(), "überlang".to_owned()];
    let widths = vec![5, 4, 3];
    let mut output = "> ".to_owned();
    push_table_row(&mut output, &cells, &widths);

    assert_eq!(output, format!("> {:<5} | {:>4} | {:>3}\n", "ab", "c", "überlang"));
}

#[test]
fn amounts_read_as_the_standard_prints_them() {
    let mut stream = Stream { state: 11 };
    let mut values = vec![
        0.0,
        -0.0,
        0.125,
        0.0000005,
        0.0000015,
        0.0000025,
        0.5,
        1.5,
        2.5,
        0.0625,
        0.0005,
        999999.9999995,
        f64::MIN_POSITIVE,
        f64::MAX,
        5e-324,
        f64::INFINITY,
        1e22,
        123456789.987654321,
    ];
    for _ in 0..3_000 {
        values.push((stream.next() % 1_000_000_000) as f64 / 1_000_000.0);
        values.push((stream.next() % 1_000_000) as f64 / 64.0);
        values.push((stream.next() >> 12) as f64 / 1e9);
    }
    for _ in 0..300 {
        values.push(f64::from_bits(stream.next() % 0x7ff0_0000_0000_0000));
    }
    for value in values {
        assert_eq!(number(value).fixed_text(6), format!("{value:.6}"));
        assert_eq!(number(value).fixed_text(3), format!("{value:.3}"));
        assert_eq!(number(value).fixed_text(1), format!("{value:.1}"));
    }
}

#[test]
fn amounts_add_as_the_processor_adds_them() {
    let mut stream = Stream { state: 23 };
    let mut pairs: Vec<(f64, f64)> = vec![
        (0.1, 0.2),
        (0.125, 0.5),
        (0.0, 0.0),
        (-0.0, -0.0),
        (0.0, -0.0),
        (1e16, 1.0),
        (9007199254740992.0, 1.0),
        (9007199254740993.0, 1.0),
        (f64::MAX, f64::MAX),
        (f64::MAX, 1e292),
        (f64::MAX, 9.9e291),
        (5e-324, 5e-324),
        (f64::MIN_POSITIVE, 5e-324),
        (f64::INFINITY, 1.0),
        (f64::INFINITY, f64::INFINITY),
    ];
    for _ in 0..20_000 {
        let left = stream.next() % 0x7ff0_0000_0000_0000;
        let near = (stream.next() % 120) << 52;
        let right = if stream.next() % 2 == 0 {
            left.saturating_sub(near) ^ (stream.next() >> 12)
        } else {
            stream.next() % 0x7ff0_0000_0000_0000
        };
        pairs.push((f64::from_bits(left), f64::from_bits(right % 0x7ff0_0000_0000_0000)));
        pairs.push((
            (stream.next() % 1_000_000) as f64 / 1e6,
            (stream.next() % 1_000_000) as f64 / 1e6,
        ));
    }
    for (left, right) in pairs {
        let sum = if left == 0.0 && right == 0.0 { 0.0 } else { left + right };
        assert_eq!(number(left).plus(number(right)).bits, sum.to_bits(), "{left:e} {right:e}");
        assert_eq!(number(right).plus(number(left)).bits, sum.to_bits(), "{right:e} {left:e}");
    }
}

#[test]
fn adding_never_makes_an_amount_smaller() {
    let mut total = Binary64::zero();
    let mut stream = Stream { state: 5 };
    for _ in 0..1_000 {
        let before = f64::from_bits(total.bits);
        total = total.plus(number((stream.next() % 1_000_000) as f64 / 1e7));
        assert!(f64::from_bits(total.bits) >= before);
    }
    assert_eq!(Binary64::zero().plus(number(0.3)).bits, (0.3_f64).to_bits());
}

#[test]
fn prices_are_finite_and_not_below_zero() {
    assert!(number(0.0).price());
    assert!(number(-0.0).price());
    assert!(number(f64::MAX).price());
    assert!(!number(-0.5).price());
    assert!(!number(f64::INFINITY).price());
    assert!(!number(f64::NEG_INFINITY).price());
    assert!(!number(f64::NAN).price());
    assert!(!number(-f64::NAN).price());
}

#[test]
fn whole_numbers_read_in_decimal() {
    assert_eq!(decimal_text(0), "0");
    assert_eq!(decimal_text(1_234_567_890), "1234567890");
    assert_eq!(decimal_text(u128::MAX), u128::MAX.to_string());
    assert_eq!(scaled_decimal_text(3, 10), "3072");
    assert_eq!(scaled_decimal_text(1, 127), (1_u128 << 127).to_string());
}

fn totals() -> Totals {
    Totals {
        requests: 2,
        input: 1_500,
        output: 16,
        reasoning: 5,
        cache_read: 13,
        cache_write: 1,
        cost: number(0.625),
    }
}

fn model() -> ModelKey {
    ModelKey { provider: "openai".to_owned(), model: "gpt-test".to_owned() }
}

#[test]
fn rows_hold_their_columns_in_order() {
    let mut sessions: OrderedMap<String, ()> = OrderedMap::new();
    sessions.insert("ses_b".to_owned(), ());
    sessions.insert("ses_a".to_owned(), ());
    sessions.insert("ses_b".to_owned(), ());

    assert_eq!(
        usage_row(&model(), &totals()),
        ["openai / gpt-test", "2", "1.5k", "13", "1", "16", "5", "$0.625000"]
    );
    assert_eq!(
        agent_row(&"build".to_owned(), &AgentUsage { sessions, totals: totals() }),
        ["build", "2", "2", "1.5k", "13", "1", "16", "5", "$0.625000"]
    );
    assert_eq!(
        pricing_row(
            &model(),
            &ModelRates {
                input: Some(number(1.25)),
                cache_read: Some(number(0.125)),
                cache_write: None,
                output: Some(number(5.0)),
            }
        ),
        ["openai / gpt-test", "$1.250", "$0.125", "-", "$5.000"]
    );
}

#[test]
fn rates_have_three_places() {
    assert_eq!(format_rate(None), "-");
    assert_eq!(format_rate(Some(number(0.0))), "$0.000");
    assert_eq!(format_rate(Some(number(-0.0))), "$-0.000");
    assert_eq!(format_rate(Some(number(2.0005))), format!("${:.3}", 2.0005));
    assert_eq!(format_rate(Some(number(0.0625))), "$0.062");
}
