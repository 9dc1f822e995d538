//! Model rates, from the local catalog and from the pricing page.
use crate::binary64::Binary64;
use crate::context::StorageContext;
use crate::error::{BillError, BillErrorView};
use crate::json::{self, JsonLeaf};
use crate::markdown;
use crate::ordered::{self, Key, ModelKey, ModelKeyView, OrderedMap};
use crate::text;
use serde_json::Value;
use vstd::prelude::*;

verus! {

/// The provider whose rates stand on the pricing page.
pub const PAGE_PROVIDER: &'static str = "github-copilot";

/// What a million tokens cost, as far as it is known.
#[derive(Clone, Copy, Debug)]
pub struct ModelRates {
    /// Input tokens.
    pub input: Option<Binary64>,
    /// Tokens read from the cache.
    pub cache_read: Option<Binary64>,
    /// Tokens written to the cache.
    pub cache_write: Option<Binary64>,
    /// Output tokens.
    pub output: Option<Binary64>,
}

impl ModelRates {
    /// Every rate that is known is a price.
    pub open spec fn well_formed(self) -> bool {
        &&& self.input matches Some(rate) ==> rate.is_price()
        &&& self.cache_read matches Some(rate) ==> rate.is_price()
        &&& self.cache_write matches Some(rate) ==> rate.is_price()
        &&& self.output matches Some(rate) ==> rate.is_price()
    }
}

/// A number that can be a rate.
pub open spec fn usable(number: Option<Binary64>) -> Option<Binary64> {
    match number {
        Some(given) => if given.is_price() {
            Some(given)
        } else {
            None
        },
        None => None,
    }
}

/// Keeps a number that can be a rate.
pub fn valid_rate(number: Option<Binary64>) -> (rate: Option<Binary64>)
    ensures
        rate == usable(number),
{
    match number {
        Some(given) => if given.price() {
            Some(given)
        } else {
            None
        },
        None => None,
    }
}

/// The numbers that the catalog gives for a model.
#[derive(Clone, Copy, Debug)]
pub struct CatalogCost {
    /// Input tokens.
    pub input: Option<Binary64>,
    /// Output tokens.
    pub output: Option<Binary64>,
    /// Tokens read from the cache.
    pub cache_read: Option<Binary64>,
    /// Tokens written to the cache.
    pub cache_write: Option<Binary64>,
}

/// The rates among the numbers of the catalog; a model without any is not priced.
pub open spec fn rates_among(cost: CatalogCost) -> Option<ModelRates> {
    let rates = ModelRates {
        input: usable(cost.input),
        cache_read: usable(cost.cache_read),
        cache_write: usable(cost.cache_write),
        output: usable(cost.output),
    };
    if rates.input is None && rates.cache_read is None && rates.cache_write is None
        && rates.output is None {
        None
    } else {
        Some(rates)
    }
}

/// Takes the rates from the numbers of the catalog.
pub fn model_rates(cost: &CatalogCost) -> (rates: Option<ModelRates>)
    ensures
        rates == rates_among(*cost),
{
    let input = valid_rate(cost.input);
    let output = valid_rate(cost.output);
    let cache_read = valid_rate(cost.cache_read);
    let cache_write = valid_rate(cost.cache_write);
    if input.is_none() && output.is_none() && cache_read.is_none() && cache_write.is_none() {
        return None;
    }
    Some(ModelRates { input, cache_read, cache_write, output })
}

/// What the catalog holds below a model's cost.
pub open spec fn cost_contents(
    catalog: Map<Seq<Seq<char>>, JsonLeaf>,
    key: ModelKeyView,
) -> Option<Map<Seq<Seq<char>>, JsonLeaf>> {
    match json::member(catalog, key.provider) {
        Some(provider) => match json::member(provider, "models"@) {
            Some(models) => match json::member(models, key.model) {
                Some(model) => json::member(model, "cost"@),
                None => None,
            },
            None => None,
        },
        None => None,
    }
}

/// The numbers that stand below a model's cost.
pub open spec fn cost_numbers(cost: Map<Seq<Seq<char>>, JsonLeaf>) -> CatalogCost {
    CatalogCost {
        input: json::number_member(cost, "input"@),
        output: json::number_member(cost, "output"@),
        cache_read: json::number_member(cost, "cache_read"@),
        cache_write: json::number_member(cost, "cache_write"@),
    }
}

/// The rates that the catalog gives a model.
pub open spec fn catalog_rates(
    catalog: Map<Seq<Seq<char>>, JsonLeaf>,
    key: ModelKeyView,
) -> Option<ModelRates> {
    match cost_contents(catalog, key) {
        Some(cost) => rates_among(cost_numbers(cost)),
        None => None,
    }
}

/// Looks up the rates that the catalog gives a model.
fn catalog_model_rates(catalog: &Value, key: &ModelKey) -> (rates: Option<ModelRates>)
    ensures
        rates == catalog_rates(json::json_contents(*catalog), key@),
{
    let provider = json::get(catalog, key.provider.as_str())?;
    let models = json::get(provider, "models")?;
    let model = json::get(models, key.model.as_str())?;
    let cost = json::get(model, "cost")?;
    model_rates(
        &CatalogCost {
            input: json::number_field(cost, "input"),
            output: json::number_field(cost, "output"),
            cache_read: json::number_field(cost, "cache_read"),
            cache_write: json::number_field(cost, "cache_write"),
        },
    )
}

/// The model catalog as it was found.
pub struct CatalogFile {
    /// Its path, as shown to the user.
    pub location: String,
    /// Its text.
    pub content: Result<String, BillError>,
}

/// What the catalog holds, where one is used and there is one, or why it cannot be read.
pub open spec fn catalog_contents(context: StorageContext, catalog: Option<CatalogFile>) -> Result<
    Option<Map<Seq<Seq<char>>, JsonLeaf>>,
    BillErrorView,
> {
    match (context.models_file, catalog) {
        (Some(_), Some(file)) => match file.content {
            Ok(content) => match json::json_document(content@) {
                Ok(contents) => Ok(Some(contents)),
                Err(detail) => Err(
                    BillErrorView::InvalidData { location: file.location@, detail },
                ),
            },
            Err(failure) => Err(failure@),
        },
        _ => Ok(None),
    }
}

/// The rates of a model, as far as the catalog and the pricing page give them. The catalog comes
/// first, and the page counts for one provider only.
pub open spec fn known_rates(
    catalog: Option<Map<Seq<Seq<char>>, JsonLeaf>>,
    page: Option<Seq<char>>,
    key: ModelKeyView,
) -> Option<ModelRates> {
    match (catalog, page) {
        (Some(contents), Some(markdown)) => match catalog_rates(contents, key) {
            Some(rates) => Some(rates),
            None => page_only(markdown, key),
        },
        (Some(contents), None) => catalog_rates(contents, key),
        (None, Some(markdown)) => page_only(markdown, key),
        (None, None) => None,
    }
}

/// The rates of a model as far as the pricing page gives them.
pub open spec fn page_only(page: Seq<char>, key: ModelKeyView) -> Option<ModelRates> {
    if key.provider == PAGE_PROVIDER@ {
        markdown::page_rates(page, key.model)
    } else {
        None
    }
}

proof fn lemma_complete_usable(offers: Seq<ModelRates>)
    requires
        forall|i: int| 0 <= i < offers.len() ==> (#[trigger] offers[i]).well_formed(),
    ensures
        markdown::first_complete(offers) matches Some(rates) ==> rates.well_formed(),
    decreases offers.len(),
{
    if offers.len() > 0 {
        lemma_complete_usable(offers.drop_first());
    }
}

proof fn lemma_page_prices(page: Seq<char>, model: Seq<char>)
    ensures
        markdown::page_rates(page, model) matches Some(rates) ==> rates.well_formed(),
{
    let quotes = markdown::quotes_in(text::lines(page), markdown::normal_id(model));
    lemma_complete_usable(
        quotes.map_values(|quote: markdown::QuoteView| markdown::quote_rates(quote)),
    );
}

/// No rate that is known is below zero or without end.
pub proof fn law_rates_are_prices(
    catalog: Option<Map<Seq<Seq<char>>, JsonLeaf>>,
    page: Option<Seq<char>>,
    key: ModelKeyView,
)
    ensures
        known_rates(catalog, page, key) matches Some(rates) ==> rates.well_formed(),
{
    if let Some(markdown) = page {
        lemma_page_prices(markdown, key.model);
    }
}

/// The page adds prices only.
pub proof fn lemma_page_rates_usable(
    rates: Map<ModelKeyView, ModelRates>,
    missing: Seq<ModelKeyView>,
    page: Option<Seq<char>>,
)
    requires
        forall|key: ModelKeyView| #[trigger]
            rates.dom().contains(key) ==> rates[key].well_formed(),
    ensures
        forall|key: ModelKeyView| #[trigger]
            with_page(rates, missing, page).dom().contains(key) ==> with_page(
                rates,
                missing,
                page,
            )[key].well_formed(),
{
    let all = with_page(rates, missing, page);
    assert forall|key: ModelKeyView| #[trigger] all.dom().contains(key) implies all[
        key
    ].well_formed() by {
        if let Some(markdown) = page {
            lemma_page_prices(markdown, key.model);
        }
    }
}

/// The models among those requested whose rates are known, with their rates.
pub open spec fn priced(
    requested: Set<ModelKeyView>,
    catalog: Option<Map<Seq<Seq<char>>, JsonLeaf>>,
    page: Option<Seq<char>>,
) -> Map<ModelKeyView, ModelRates> {
    Map::new(
        |key: ModelKeyView| requested.contains(key) && known_rates(catalog, page, key) is Some,
        |key: ModelKeyView| known_rates(catalog, page, key)->0,
    )
}

/// Only requested models are priced, and what the catalog says of a model stands whatever the
/// page says.
pub proof fn law_catalog_comes_first(
    requested: Set<ModelKeyView>,
    catalog: Option<Map<Seq<Seq<char>>, JsonLeaf>>,
    page: Option<Seq<char>>,
)
    ensures
        priced(requested, catalog, page).dom().subset_of(requested),
        priced(requested, catalog, None).submap_of(priced(requested, catalog, page)),
{
    assert(priced(requested, catalog, None).submap_of(priced(requested, catalog, page)));
}

/// The page prices models of its provider only.
pub proof fn law_page_prices_one_provider(
    requested: Set<ModelKeyView>,
    catalog: Option<Map<Seq<Seq<char>>, JsonLeaf>>,
    page: Option<Seq<char>>,
    key: ModelKeyView,
)
    requires
        key.provider != PAGE_PROVIDER@,
    ensures
        priced(requested, catalog, page).dom().contains(key) <==> priced(
            requested,
            catalog,
            None,
        ).dom().contains(key),
{
}

/// Prices the requested models from the catalog.
pub fn load_local_pricing<T>(
    context: &StorageContext,
    catalog: Option<CatalogFile>,
    requested: &OrderedMap<ModelKey, T>,
) -> (pricing: Result<OrderedMap<ModelKey, ModelRates>, BillError>)
    requires
        requested.well_formed(),
    ensures
        match pricing {
            Ok(found) => {
                &&& found.well_formed()
                &&& catalog_contents(*context, catalog) matches Ok(contents)
                &&& found@ == priced(requested@.dom(), contents, None)
            },
            Err(failure) => catalog_contents(*context, catalog) == Err::<
                Option<Map<Seq<Seq<char>>, JsonLeaf>>,
                BillErrorView,
            >(failure@),
        },
{
    let mut pricing: OrderedMap<ModelKey, ModelRates> = OrderedMap::new();
    if context.models_file.is_none() {
        assert(pricing@ =~= priced(requested@.dom(), None, None));
        return Ok(pricing);
    }
    let file = match catalog {
        Some(file) => file,
        None => {
            assert(pricing@ =~= priced(requested@.dom(), None, None));
            return Ok(pricing);
        },
    };
    let content = match file.content {
        Ok(content) => content,
        Err(failure) => {
            return Err(failure);
        },
    };
    let document = match json::read_json(content.as_str(), file.location.as_str()) {
        Ok(document) => document,
        Err(failure) => {
            return Err(failure);
        },
    };
    let ghost contents = Some(json::json_contents(document));
    let mut index: usize = 0;
    assert(pricing@ =~= priced(Set::empty(), contents, None));
    assert(requested.keys().take(0).to_set() =~= Set::empty());
    while index < requested.entries.len()
        invariant
            index <= requested.entries.len(),
            contents == Some(json::json_contents(document)),
            pricing.well_formed(),
            pricing@ == priced(requested.keys().take(index as int).to_set(), contents, None),
        decreases requested.entries.len() - index,
    {
        let key = &requested.entries[index].0;
        let ghost more = requested.keys().take(index + 1);
        proof {
            lemma_taken(requested.keys(), index as int);
        }
        if let Some(rates) = catalog_model_rates(&document, key) {
            pricing.insert(key.copied(), rates);
        }
        assert(pricing@ =~= priced(more.to_set(), contents, None));
        index = index + 1;
    }
    assert(requested.keys().take(index as int) =~= requested.keys());
    assert(requested.keys().to_set() =~= requested@.dom());
    Ok(pricing)
}

proof fn lemma_taken(keys: Seq<ModelKeyView>, index: int)
    requires
        0 <= index < keys.len(),
    ensures
        keys.take(index + 1).to_set() == keys.take(index).to_set().insert(keys[index]),
{
    let taken = keys.take(index);
    let more = keys.take(index + 1);
    assert(more =~= taken.push(keys[index]));
    assert forall|key: ModelKeyView| more.contains(key) <==> taken.contains(key) || key
        == keys[index] by {
        if taken.contains(key) {
            let i = choose|i: int| 0 <= i < taken.len() && taken[i] == key;
            assert(more[i] == key);
        }
        assert(more[index] == keys[index]);
    }
    assert(more.to_set() =~= taken.to_set().insert(keys[index]));
}

/// The models, in order, that only the pricing page can still price.
pub open spec fn missing_from(
    keys: Seq<ModelKeyView>,
    pricing: Map<ModelKeyView, ModelRates>,
) -> Seq<ModelKeyView>
    decreases keys.len(),
{
    if keys.len() == 0 {
        Seq::empty()
    } else {
        let before = missing_from(keys.drop_last(), pricing);
        if keys.last().provider == PAGE_PROVIDER@ && !pricing.dom().contains(keys.last()) {
            before.push(keys.last())
        } else {
            before
        }
    }
}

/// The contents of a list of keys.
pub open spec fn key_views(keys: Seq<ModelKey>) -> Seq<ModelKeyView> {
    keys.map_values(|key: ModelKey| key@)
}

/// Collects the models that only the pricing page can still price.
pub fn missing_copilot<T>(
    requested: &OrderedMap<ModelKey, T>,
    pricing: &OrderedMap<ModelKey, ModelRates>,
) -> (missing: Vec<ModelKey>)
    requires
        pricing.well_formed(),
    ensures
        key_views(missing@) == missing_from(requested.keys(), pricing@),
{
    let mut missing: Vec<ModelKey> = Vec::new();
    let ghost keys = requested.keys();
    let mut index: usize = 0;
    assert(key_views(missing@) =~= missing_from(keys.take(0), pricing@));
    while index < requested.entries.len()
        invariant
            index <= requested.entries.len(),
            pricing.well_formed(),
            keys == requested.keys(),
            key_views(missing@) == missing_from(keys.take(index as int), pricing@),
        decreases requested.entries.len() - index,
    {
        let key = &requested.entries[index].0;
        let ghost before = missing@;
        assert(keys.take(index + 1).drop_last() =~= keys.take(index as int));
        assert(keys.take(index + 1).last() == key@);
        if text::same_text(key.provider.as_str(), PAGE_PROVIDER) && !pricing.contains_key(key) {
            let copy = key.copied();
            missing.push(copy);
            assert(key_views(missing@) =~= key_views(before).push(copy@));
        }
        index = index + 1;
    }
    assert(keys.take(index as int) =~= keys);
    missing
}

/// The rates with those that the page adds for the missing models.
pub open spec fn with_page(
    pricing: Map<ModelKeyView, ModelRates>,
    missing: Seq<ModelKeyView>,
    page: Option<Seq<char>>,
) -> Map<ModelKeyView, ModelRates> {
    match page {
        Some(markdown) => pricing.union_prefer_right(
            Map::new(
                |key: ModelKeyView|
                    missing.contains(key) && markdown::page_rates(markdown, key.model) is Some,
                |key: ModelKeyView| markdown::page_rates(markdown, key.model)->0,
            ),
        ),
        None => pricing,
    }
}

/// Prices the missing models from the page.
pub fn add_page_rates(
    pricing: &mut OrderedMap<ModelKey, ModelRates>,
    missing: &Vec<ModelKey>,
    page: &Option<String>,
)
    requires
        old(pricing).well_formed(),
    ensures
        final(pricing).well_formed(),
        final(pricing)@ == with_page(old(pricing)@, key_views(missing@), json::text_view(*page)),
{
    let ghost known = pricing@;
    let ghost keys = key_views(missing@);
    let markdown = match page {
        Some(markdown) => markdown,
        None => {
            return;
        },
    };
    let mut index: usize = 0;
    assert(pricing@ =~= with_page(known, keys.take(0), Some(markdown@)));
    while index < missing.len()
        invariant
            index <= missing.len(),
            keys == key_views(missing@),
            pricing.well_formed(),
            pricing@ == with_page(known, keys.take(index as int), Some(markdown@)),
        decreases missing.len() - index,
    {
        let key = &missing[index];
        let ghost taken = keys.take(index as int);
        let ghost more = keys.take(index + 1);
        proof {
            lemma_taken(keys, index as int);
            assert forall|k: ModelKeyView| #[trigger] more.contains(k) <==> taken.contains(k) || k
                == key@ by {
                let added = taken.to_set().insert(keys[index as int]);
                assert(more.to_set().contains(k) <==> added.contains(k));
            }
        }
        if let Some(rates) = markdown::github_model_pricing(markdown.as_str(), key.model.as_str()) {
            pricing.insert(key.copied(), rates);
        }
        assert(pricing@ =~= with_page(known, more, Some(markdown@)));
        index = index + 1;
    }
    assert(keys.take(index as int) =~= keys);
}

/// The missing models are those of the page's provider without a rate.
proof fn lemma_missing(keys: Seq<ModelKeyView>, pricing: Map<ModelKeyView, ModelRates>)
    ensures
        forall|key: ModelKeyView| #[trigger]
            missing_from(keys, pricing).contains(key) <==> keys.contains(key) && key.provider
                == PAGE_PROVIDER@ && !pricing.dom().contains(key),
    decreases keys.len(),
{
    let missing = missing_from(keys, pricing);
    if keys.len() > 0 {
        lemma_missing(keys.drop_last(), pricing);
        let before = missing_from(keys.drop_last(), pricing);
        let last = keys.last();
        assert forall|key: ModelKeyView| #[trigger] missing.contains(key) <==> keys.contains(key)
            && key.provider == PAGE_PROVIDER@ && !pricing.dom().contains(key) by {
            assert(keys.contains(key) <==> keys.drop_last().contains(key) || key == last) by {
                if keys.contains(key) {
                    let i = choose|i: int| 0 <= i < keys.len() && keys[i] == key;
                    if i < keys.len() - 1 {
                        assert(keys.drop_last()[i] == key);
                    }
                }
                if keys.drop_last().contains(key) {
                    let i = choose|i: int|
                        0 <= i < keys.drop_last().len() && keys.drop_last()[i] == key;
                    assert(keys[i] == key);
                }
                assert(keys[keys.len() - 1] == last);
            }
            if missing.len() > before.len() {
                assert(missing == before.push(last));
                assert(missing[before.len() as int] == last);
                if before.contains(key) {
                    let i = choose|i: int| 0 <= i < before.len() && before[i] == key;
                    assert(missing[i] == key);
                }
                if missing.contains(key) && key != last {
                    let i = choose|i: int| 0 <= i < missing.len() && missing[i] == key;
                    assert(before[i] == key);
                }
            }
        }
    }
}

/// The rates of the catalog, with those of the page for the missing models, are all that is known.
pub proof fn lemma_priced_with_page(
    keys: Seq<ModelKeyView>,
    catalog: Option<Map<Seq<Seq<char>>, JsonLeaf>>,
    page: Option<Seq<char>>,
)
    ensures
        with_page(
            priced(keys.to_set(), catalog, None),
            missing_from(keys, priced(keys.to_set(), catalog, None)),
            page,
        ) == priced(keys.to_set(), catalog, page),
{
    let local = priced(keys.to_set(), catalog, None);
    lemma_missing(keys, local);
    assert(with_page(local, missing_from(keys, local), page) =~= priced(
        keys.to_set(),
        catalog,
        page,
    ));
}

/// Prices the requested models from the catalog and, where that leaves some open, from the page.
pub fn load_pricing<T>(
    context: &StorageContext,
    catalog: Option<CatalogFile>,
    page: &Option<String>,
    requested: &OrderedMap<ModelKey, T>,
) -> (pricing: Result<OrderedMap<ModelKey, ModelRates>, BillError>)
    requires
        requested.well_formed(),
    ensures
        match pricing {
            Ok(found) => {
                &&& found.well_formed()
                &&& catalog_contents(*context, catalog) matches Ok(contents)
                &&& found@ == priced(requested@.dom(), contents, json::text_view(*page))
            },
            Err(failure) => catalog_contents(*context, catalog) == Err::<
                Option<Map<Seq<Seq<char>>, JsonLeaf>>,
                BillErrorView,
            >(failure@),
        },
{
    let mut pricing = match load_local_pricing(context, catalog, requested) {
        Ok(pricing) => pricing,
        Err(failure) => {
            return Err(failure);
        },
    };
    let missing = missing_copilot(requested, &pricing);
    add_page_rates(&mut pricing, &missing, page);
    proof {
        assert(requested.keys().to_set() =~= requested@.dom());
        lemma_priced_with_page(
            requested.keys(),
            catalog_contents(*context, catalog)->Ok_0,
            json::text_view(*page),
        );
    }
    Ok(pricing)
}

/// A number is a rate exactly where it is finite and not below zero, and the rate is that number.
pub proof fn law_usable_rates(number: Binary64)
    ensures
        usable(None) is None,
        usable(Some(number)) is Some <==> number.bits < 0x7ff0_0000_0000_0000 || number.bits
            == 0x8000_0000_0000_0000,
        usable(Some(number)) matches Some(rate) ==> rate == number,
{
}

/// Each rate of a priced model is the usable number of the same name in the catalog, whatever the
/// others are, and a model is priced exactly where one of its numbers is usable.
pub proof fn law_rates_keep_their_names(cost: CatalogCost)
    ensures
        rates_among(cost) matches Some(rates) ==> {
            &&& rates.input == usable(cost.input)
            &&& rates.cache_read == usable(cost.cache_read)
            &&& rates.cache_write == usable(cost.cache_write)
            &&& rates.output == usable(cost.output)
        },
        rates_among(cost) is Some <==> usable(cost.input) is Some || usable(cost.cache_read) is Some
            || usable(cost.cache_write) is Some || usable(cost.output) is Some,
{
}

/// The catalog's rates of a model stand below its provider, `models`, the model itself and `cost`,
/// each under its own name.
pub proof fn law_where_rates_stand(catalog: Map<Seq<Seq<char>>, JsonLeaf>, key: ModelKeyView)
    requires
        json::is_rooted(catalog),
    ensures
        ({
            let cost = seq![key.provider, "models"@, key.model, "cost"@];
            let input = usable(json::leaf_number(catalog, cost.push("input"@)));
            let output = usable(json::leaf_number(catalog, cost.push("output"@)));
            let cache_read = usable(json::leaf_number(catalog, cost.push("cache_read"@)));
            let cache_write = usable(json::leaf_number(catalog, cost.push("cache_write"@)));
            &&& catalog_rates(catalog, key) is Some <==> input is Some || output is Some
                || cache_read is Some || cache_write is Some
            &&& catalog_rates(catalog, key) matches Some(rates) ==> {
                &&& rates.input == input
                &&& rates.output == output
                &&& rates.cache_read == cache_read
                &&& rates.cache_write == cache_write
            }
        }),
{
    lemma_cost_number(catalog, key, "input"@);
    lemma_cost_number(catalog, key, "output"@);
    lemma_cost_number(catalog, key, "cache_read"@);
    lemma_cost_number(catalog, key, "cache_write"@);
}

proof fn lemma_cost_number(
    catalog: Map<Seq<Seq<char>>, JsonLeaf>,
    key: ModelKeyView,
    name: Seq<char>,
)
    requires
        json::is_rooted(catalog),
    ensures
        json::leaf_number(
            catalog,
            seq![key.provider, "models"@, key.model, "cost"@].push(name),
        ) == (match cost_contents(catalog, key) {
            Some(cost) => json::number_member(cost, name),
            None => None,
        }),
{
    let (p, m) = (key.provider, key.model);
    let none = Seq::<Seq<char>>::empty();
    let one = seq![p];
    let two = seq![p, "models"@];
    let three = seq![p, "models"@, m];
    let cost = seq![p, "models"@, m, "cost"@];
    let full = cost.push(name);
    assert(one + seq!["models"@] =~= two);
    assert(seq!["models"@] + seq![m] =~= seq!["models"@, m]);
    assert(one + seq!["models"@, m] =~= three);
    assert(seq![m] + seq!["cost"@] =~= seq![m, "cost"@]);
    assert(seq!["models"@] + seq![m, "cost"@] =~= seq!["models"@, m, "cost"@]);
    assert(one + seq!["models"@, m, "cost"@] =~= cost);
    assert(seq!["cost"@] + seq![name] =~= seq!["cost"@, name]);
    assert(seq![m] + seq!["cost"@, name] =~= seq![m, "cost"@, name]);
    assert(seq!["models"@] + seq![m, "cost"@, name] =~= seq!["models"@, m, "cost"@, name]);
    assert(one + seq!["models"@, m, "cost"@, name] =~= full);
    assert(seq![name] + none =~= seq![name]);
    assert(two.drop_last() =~= one);
    assert(three.drop_last() =~= two);
    assert(cost.drop_last() =~= three);
    assert(full.drop_last() =~= cost);
}

/// The catalog is read where one is used and there is one; a text that is no document is reported
/// with the catalog's location, and a failure to read it is handed on.
pub proof fn law_catalog_readings(context: StorageContext, catalog: Option<CatalogFile>)
    ensures
        context.models_file is None || catalog is None ==> catalog_contents(context, catalog)
            == Ok::<Option<Map<Seq<Seq<char>>, JsonLeaf>>, BillErrorView>(None),
        context.models_file is Some && catalog is Some ==> match catalog->0.content {
            Err(failure) => catalog_contents(context, catalog) == Err::<
                Option<Map<Seq<Seq<char>>, JsonLeaf>>,
                BillErrorView,
            >(failure@),
            Ok(content) => match json::json_document(content@) {
                Ok(contents) => catalog_contents(context, catalog) == Ok::<
                    Option<Map<Seq<Seq<char>>, JsonLeaf>>,
                    BillErrorView,
                >(Some(contents)),
                Err(detail) => catalog_contents(context, catalog) == Err::<
                    Option<Map<Seq<Seq<char>>, JsonLeaf>>,
                    BillErrorView,
                >(BillErrorView::InvalidData { location: catalog->0.location@, detail }),
            },
        },
{
}

/// A requested model has the catalog's rates where the catalog gives any; else, where its provider
/// is GitHub Copilot, those of the page; else none.
pub proof fn law_where_prices_come_from(
    requested: Set<ModelKeyView>,
    catalog: Option<Map<Seq<Seq<char>>, JsonLeaf>>,
    page: Option<Seq<char>>,
    key: ModelKeyView,
)
    requires
        requested.contains(key),
    ensures
        ({
            let prices = priced(requested, catalog, page);
            let listed = catalog is Some && catalog_rates(catalog->0, key) is Some;
            let quoted = key.provider == "github-copilot"@ && page is Some && markdown::page_rates(
                page->0,
                key.model,
            ) is Some;
            &&& listed ==> prices.dom().contains(key) && prices[key] == catalog_rates(
                catalog->0,
                key,
            )->0
            &&& !listed && quoted ==> prices.dom().contains(key) && prices[key]
                == markdown::page_rates(page->0, key.model)->0
            &&& !listed && !quoted ==> !prices.dom().contains(key)
        }),
{
}

/// The page is asked for exactly those requested models of GitHub Copilot that have no rates yet,
/// each once and in order.
pub proof fn law_missing_models(
    keys: Seq<ModelKeyView>,
    pricing: Map<ModelKeyView, ModelRates>,
    key: ModelKeyView,
)
    ensures
        missing_from(keys, pricing).contains(key) <==> keys.contains(key) && key.provider
            == "github-copilot"@ && !pricing.dom().contains(key),
        ordered::ascending::<ModelKey>(keys) ==> ordered::ascending::<ModelKey>(
            missing_from(keys, pricing),
        ),
{
    lemma_missing(keys, pricing);
    if ordered::ascending::<ModelKey>(keys) {
        lemma_missing_ascending(keys, pricing);
    }
}

proof fn lemma_missing_ascending(keys: Seq<ModelKeyView>, pricing: Map<ModelKeyView, ModelRates>)
    requires
        ordered::ascending::<ModelKey>(keys),
    ensures
        ordered::ascending::<ModelKey>(missing_from(keys, pricing)),
    decreases keys.len(),
{
    if keys.len() > 0 {
        let shorter = keys.drop_last();
        let before = missing_from(shorter, pricing);
        let missing = missing_from(keys, pricing);
        assert(keys[keys.len() - 1] == keys.last());
        lemma_missing_ascending(shorter, pricing);
        lemma_missing(shorter, pricing);
        assert forall|i: int, j: int| 0 <= i < j < missing.len() implies ModelKey::precedes(
            #[trigger] missing[i],
            #[trigger] missing[j],
        ) by {
            assert(missing[i] == before[i]);
            if j < before.len() {
                assert(missing[j] == before[j]);
            } else {
                assert(before.contains(before[i]));
                let p = choose|p: int| 0 <= p < shorter.len() && shorter[p] == before[i];
                assert(keys[p] == before[i]);
            }
        }
    }
}

/// The page's rates are added for missing models only, and nothing that was known changes.
pub proof fn law_page_adds(
    pricing: Map<ModelKeyView, ModelRates>,
    missing: Seq<ModelKeyView>,
    page: Seq<char>,
    key: ModelKeyView,
)
    ensures
        with_page(pricing, missing, None) == pricing,
        ({
            let quote = markdown::page_rates(page, key.model);
            let added = missing.contains(key) && quote is Some;
            let all = with_page(pricing, missing, Some(page));
            &&& added ==> all.dom().contains(key) && all[key] == quote->0
            &&& !added ==> (all.dom().contains(key) <==> pricing.dom().contains(key))
            &&& !added && pricing.dom().contains(key) ==> all[key] == pricing[key]
        }),
{
}

} // verus!
