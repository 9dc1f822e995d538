use opencode_bill::binary64::Binary64;
use opencode_bill::markdown::{
    complete_rates, github_model_pricing, is_default_tier, markdown_cells, markdown_rate,
    model_quotes, normalize_model_name, normalized_model_id,
};
use opencode_bill::ordered::{ModelKey, OrderedMap};
use opencode_bill::pricing::{
    add_page_rates, load_local_pricing, load_pricing, missing_copilot, model_rates, valid_rate,
    CatalogCost, CatalogFile, ModelRates,
};
use opencode_bill::{BillError, StorageContext};
use std::path::PathBuf;

fn number(value: f64) -> Binary64 {
    Binary64::from_bits(value.to_bits())
}

fn values(rates: Option<ModelRates>) -> Option<[Option<f64>; 4]> {
    rates.map(|rates| {
        [rates.input, rates.cache_read, rates.cache_write, rates.output]
            .map(|rate| rate.map(|rate| f64::from_bits(rate.bits)))
    })
}

#[test]
fn parses_github_pricing_for_effort_variant() {
    let markdown = r#"
| Model         | Release status | Category | Tier         | Threshold | Input | Cached input | Output |
| ------------- | -------------- | -------- | ------------ | --------- | ----: | -----------: | -----: |
| GPT-5.6 Sol   | GA             | Powerful | Default      | <= 272K   | $5.00 |        $0.50 | $30.00 |
| GPT-5.6 Sol   | GA             | Powerful | Long context | > 272K    | $10.00 |        $1.00 | $45.00 |
"#;

    assert_eq!(
        values(github_model_pricing(markdown, "gpt-5.6-sol-low")),
        Some([Some(5.0), Some(0.5), None, Some(30.0)])
    );
}

#[test]
fn every_effort_has_the_same_rates() {
    let markdown = "| Model | Input | Output |\n| GPT 5 | 1 | 2 |\n";

    for effort in ["", "-xhigh", "-high", "-medium", "-low", "-none"] {
        let model = format!("gpt-5{effort}");
        assert_eq!(normalized_model_id(&model), "gpt-5");
        assert_eq!(
            values(github_model_pricing(markdown, &model)),
            Some([Some(1.0), None, None, Some(2.0)])
        );
    }
    assert_eq!(normalized_model_id("gpt-5-low-high"), "gpt-5-low");
    assert_eq!(normalized_model_id("gpt-5-minimal"), "gpt-5-minimal");
    assert_eq!(normalized_model_id("-low"), "");
    assert!(github_model_pricing(markdown, "gpt-5-minimal").is_none());
}

#[test]
fn the_first_complete_line_counts() {
    let page = "
text | Model | Input |
| Model | Input | Output |
| --- | --- | --- |
| A | free | $2 |
| A | $1 | n/a |
| A | $3 | $4 |
| A | $5 | $6 |
| B | -1 | $2 |
| C | NaN | $2 |
| C | inf | $2 |
| D | $$0.25 | 1e1 |
| E | $ 1 | $2 |
| F | $1 | $2 | extra |
| Model | Output | Input | Cache write |
| A | $60 | $50 | $7 |
| G | $9 | $8 | x |
";
    let rates = |model: &str| values(github_model_pricing(page, model));

    assert_eq!(rates("a"), Some([Some(3.0), None, None, Some(4.0)]));
    assert_eq!(rates("b"), None);
    assert_eq!(rates("c"), None);
    assert_eq!(rates("d"), Some([Some(0.25), None, None, Some(10.0)]));
    assert_eq!(rates("e"), None);
    assert_eq!(rates("f"), None);
    assert_eq!(rates("g"), Some([Some(8.0), None, None, Some(9.0)]));
    assert_eq!(rates("h"), None);
    let quotes = model_quotes(page, "a");
    assert_eq!(quotes.len(), 5);
    assert_eq!(quotes[0].input.as_deref(), Some("free"));
    assert_eq!(quotes[4].input.as_deref(), Some("50"));
    assert_eq!(quotes[4].cache_write.as_deref(), Some("7"));
    assert!(quotes[4].cache_read.is_none());
}

#[test]
fn the_last_of_two_equal_headers_counts() {
    let page = "| Model | Input | Input | Output |\n| A | 1 | 2 | 3 |\n";

    assert_eq!(
        values(github_model_pricing(page, "A")),
        Some([Some(2.0), None, None, Some(3.0)])
    );
}

#[test]
fn table_lines_fall_into_cells() {
    assert_eq!(markdown_cells("  | a | b c |  "), ["a", "b c"]);
    assert_eq!(markdown_cells("|a||b|"), ["a", "", "b"]);
    assert_eq!(markdown_cells("||a||"), ["a"]);
    assert_eq!(markdown_cells("|"), [""]);
    assert!(markdown_cells("a | b |").is_empty());
    assert!(markdown_cells("| a | b").is_empty());
    assert!(markdown_cells("").is_empty());
}

#[test]
fn only_default_tiers_are_for_ordinary_use() {
    let heads = |names: &[&str]| names.iter().map(|name| (*name).to_owned()).collect::<Vec<_>>();

    assert!(is_default_tier(&heads(&["Model"]), &heads(&["A"])));
    assert!(is_default_tier(&heads(&["Tier"]), &heads(&[""])));
    assert!(is_default_tier(&heads(&["Tier"]), &heads(&["Default"])));
    assert!(!is_default_tier(&heads(&["Tier"]), &heads(&["default"])));
    assert!(!is_default_tier(&heads(&["Tier"]), &heads(&["Long context"])));
}

#[test]
fn names_are_brought_to_one_form() {
    assert_eq!(normalize_model_name("GPT-5.6 Sol"), "gpt-5-6-sol");
    assert_eq!(normalize_model_name("  Gemini (Pro)  4!"), "gemini-pro-4");
    assert_eq!(normalize_model_name("--"), "");
    assert_eq!(normalize_model_name("gpt-5-6-sol"), "gpt-5-6-sol");
    assert_eq!(normalize_model_name("\u{212a}elvin Größe"), "kelvin-gr-e");
    assert_eq!(normalize_model_name("\u{130}x"), "i-x");
    for name in ["A..B", "x", "Model №7", "ÄÖÜ a", "a-b-c"] {
        let once = normalize_model_name(name);
        assert_eq!(normalize_model_name(&once), once);
    }
}

#[test]
fn spelled_rates_are_read_as_the_standard_reads_them() {
    let bits = |text: &str| markdown_rate(&Some(text.to_owned())).map(|rate| rate.bits);

    for text in ["0.1", "30.00", "1e3", "+5", ".5", "5.", "1e-400", "123456789.123456789"] {
        assert_eq!(bits(text), text.parse::<f64>().ok().map(f64::to_bits), "{text}");
    }
    for text in ["", "five", "-1", "inf", "nan", "1e400", "1,5", " 1"] {
        assert_eq!(bits(text), None, "{text}");
    }
    assert_eq!(bits("-0"), Some((-0.0_f64).to_bits()));
    assert!(markdown_rate(&None).is_none());
}

#[test]
fn the_first_complete_offer_is_taken() {
    let offer = |input: Option<f64>, output: Option<f64>| ModelRates {
        input: input.map(number),
        cache_read: None,
        cache_write: Some(number(9.0)),
        output: output.map(number),
    };
    let offers = vec![
        offer(None, Some(1.0)),
        offer(Some(1.0), None),
        offer(Some(2.0), Some(3.0)),
        offer(Some(4.0), Some(5.0)),
    ];

    assert_eq!(
        values(complete_rates(&offers)),
        Some([Some(2.0), None, Some(9.0), Some(3.0)])
    );
    assert!(complete_rates(&offers[..2].to_vec()).is_none());
    assert!(complete_rates(&Vec::new()).is_none());
}

#[test]
fn catalog_numbers_count_where_they_are_prices() {
    let cost = |input: Option<f64>, output: Option<f64>| CatalogCost {
        input: input.map(number),
        output: output.map(number),
        cache_read: Some(number(f64::INFINITY)),
        cache_write: None,
    };

    assert_eq!(
        values(model_rates(&cost(Some(1.0), Some(-2.0)))),
        Some([Some(1.0), None, None, None])
    );
    assert!(model_rates(&cost(Some(-1.0), None)).is_none());
    assert!(valid_rate(Some(number(-0.5))).is_none());
    assert!(valid_rate(Some(number(0.5))).is_some());
}

fn key(provider: &str, model: &str) -> ModelKey {
    ModelKey { provider: provider.to_owned(), model: model.to_owned() }
}

fn requested() -> OrderedMap<ModelKey, ()> {
    let mut models = OrderedMap::new();
    models.insert(key("openai", "gpt"), ());
    models.insert(key("github-copilot", "gemini"), ());
    models.insert(key("github-copilot", "gpt"), ());
    models
}

fn with_models_file() -> Result<StorageContext, BillError> {
    StorageContext::builder()
        .data_dir(PathBuf::from("/data"))
        .models_file(PathBuf::from("/models.json"))
        .build()
}

fn catalog(content: &str) -> Option<CatalogFile> {
    Some(CatalogFile { location: "/models.json".to_owned(), content: Ok(content.to_owned()) })
}

const CATALOG: &str = r#"{
    "openai": {"models": {
        "gpt": {"cost": {"input": 1, "output": "2", "cache_write": 0.5}},
        "other": {"cost": {"input": 7}}
    }},
    "github-copilot": {"models": {"gpt": {"cost": {"input": 3, "output": 4}}}}
}"#;

const PAGE: &str = "| Model | Input | Output |\n| Gemini | $5 | $6 |\n| GPT | $50 | $60 |\n";

#[test]
fn the_catalog_comes_before_the_page() -> Result<(), String> {
    let context = with_models_file().map_err(|failure| failure.message())?;
    let models = requested();
    let mut local = load_local_pricing(&context, catalog(CATALOG), &models)
        .map_err(|failure| failure.message())?;

    assert_eq!(local.entries.len(), 2);
    assert_eq!(
        values(local.get(&key("openai", "gpt")).copied()),
        Some([Some(1.0), None, Some(0.5), None])
    );
    let missing = missing_copilot(&models, &local);
    assert_eq!(missing.len(), 1);
    assert_eq!(missing[0].model, "gemini");

    add_page_rates(&mut local, &missing, &Some(PAGE.to_owned()));
    let all = load_pricing(&context, catalog(CATALOG), &Some(PAGE.to_owned()), &models)
        .map_err(|failure| failure.message())?;
    for pricing in [&local, &all] {
        assert_eq!(pricing.entries.len(), 3);
        assert_eq!(
            values(pricing.get(&key("github-copilot", "gemini")).copied()),
            Some([Some(5.0), None, None, Some(6.0)])
        );
        assert_eq!(
            values(pricing.get(&key("github-copilot", "gpt")).copied()),
            Some([Some(3.0), None, None, Some(4.0)])
        );
    }
    Ok(())
}

#[test]
fn without_a_catalog_the_page_prices_copilot_models_only() -> Result<(), String> {
    let context = StorageContext::builder()
        .data_dir(PathBuf::from("/data"))
        .build()
        .map_err(|failure| failure.message())?;
    let models = requested();
    let pricing = load_pricing(&context, catalog(CATALOG), &Some(PAGE.to_owned()), &models)
        .map_err(|failure| failure.message())?;

    assert_eq!(pricing.entries.len(), 2);
    assert!(pricing.get(&key("openai", "gpt")).is_none());
    assert_eq!(
        values(pricing.get(&key("github-copilot", "gpt")).copied()),
        Some([Some(50.0), None, None, Some(60.0)])
    );
    let none = load_pricing(&context, None, &None, &models).map_err(|failure| failure.message())?;
    assert_eq!(none.entries.len(), 0);
    Ok(())
}

#[test]
fn an_unusable_catalog_is_reported() -> Result<(), String> {
    let context = with_models_file().map_err(|failure| failure.message())?;
    let models = requested();

    let failure = load_local_pricing(&context, catalog("[1,"), &models).err();
    assert_eq!(
        failure.map(|failure| failure.message()),
        Some(
            "invalid OpenCode data in /models.json: EOF while parsing a value at line 1 column 3"
                .to_owned()
        )
    );
    let unread = CatalogFile {
        location: "/models.json".to_owned(),
        content: Err(BillError::Read {
            path: "/models.json".to_owned(),
            source: "gone".to_owned(),
        }),
    };
    let failure = load_local_pricing(&context, Some(unread), &models).err();
    assert_eq!(
        failure.map(|failure| failure.message()),
        Some("could not read /models.json: gone".to_owned())
    );
    let empty = load_local_pricing(&context, catalog("[]"), &models)
        .map_err(|failure| failure.message())?;
    assert_eq!(empty.entries.len(), 0);
    Ok(())
}
