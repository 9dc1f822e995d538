use opencode_bill::binary64::Binary64;
use opencode_bill::context::{PlatformDirs, StorageContext};
use opencode_bill::error::{database_error, read_error};
use opencode_bill::json::{number_field, read_json, string_field, unsigned_field};
use opencode_bill::legacy::{
    family, is_json_file, legacy_descendant_ids, legacy_matches, legacy_messages, legacy_session_paths,
    load_legacy_session, session_heading, session_record, FilePlace, SessionFile, SessionRecord, StoredFile,
};
use opencode_bill::message::{
    message_fields, message_usage, parse_message, required_f64, required_string, required_u64,
    MessageFields,
};
use opencode_bill::session::{
    database_matches, database_messages, database_session_agents, database_title, has_agent_column,
    load_database_session, unique_match, validate_reference, DatabaseReadings,
};
use opencode_bill::BillError;
use opencode_bill::ordered::OrderedMap;
use std::path::PathBuf;

fn number(value: f64) -> Binary64 {
    Binary64::from_bits(value.to_bits())
}

fn message_of<T>(outcome: Result<T, BillError>) -> Option<String> {
    outcome.err().map(|failure| failure.message())
}

fn unreadable() -> BillError {
    read_error("somewhere", "gone")
}

#[test]
fn an_explicit_data_directory_is_taken_as_it_is() {
    let context = StorageContext::builder().data_dir(PathBuf::from("/tmp/data")).build();
    let context = match context {
        Ok(context) => context,
        Err(failure) => panic!("{}", failure.message()),
    };

    assert_eq!(context.data_dir.base, PathBuf::from("/tmp/data"));
    assert!(context.data_dir.names.is_empty());
    assert!(context.models_file.is_none());
    assert_eq!(context.database(), ["opencode.db"]);
    assert_eq!(context.legacy_storage(), ["storage"]);
}

#[test]
fn an_empty_data_directory_is_refused() {
    let context = StorageContext::builder().data_dir(PathBuf::new()).build();

    assert_eq!(
        message_of(context),
        Some("the platform does not provide a local data directory".to_owned())
    );
    assert!(StorageContext::builder().data_dir(PathBuf::from(".")).build().is_ok());
}

#[test]
fn platform_directories_lead_to_opencode() {
    let dirs = PlatformDirs {
        data_local: PathBuf::from("/home/me/.local/share"),
        cache: PathBuf::from("/home/me/.cache"),
    };
    let builder = match StorageContext::builder().with_platform_dirs(Some(dirs)) {
        Ok(builder) => builder,
        Err(failure) => panic!("{}", failure.message()),
    };
    let builder = builder.models_file(PathBuf::from("/models.json"));
    assert_eq!(builder.models_file.as_ref().map(|place| place.names.len()), Some(0));
    let context = match builder.build() {
        Ok(context) => context,
        Err(failure) => panic!("{}", failure.message()),
    };

    assert_eq!(context.data_dir.base, PathBuf::from("/home/me/.local/share"));
    assert_eq!(context.data_dir.names, ["opencode"]);
    assert_eq!(context.database(), ["opencode", "opencode.db"]);
    assert_eq!(context.legacy_storage(), ["opencode", "storage"]);
    assert!(matches!(
        StorageContext::builder().with_platform_dirs(None),
        Err(BillError::MissingDataDirectory)
    ));
}

#[test]
fn the_platform_is_asked_for_its_directories() {
    match (StorageContext::builder().platform_data_dir(), directories::BaseDirs::new()) {
        (Ok(builder), Some(base)) => {
            let data = builder.data_dir.unwrap_or_else(|| panic!("no data directory"));
            let models = builder.models_file.unwrap_or_else(|| panic!("no model catalog"));
            assert_eq!(data.base, base.data_local_dir());
            assert_eq!(data.names, ["opencode"]);
            assert_eq!(models.base, base.cache_dir());
            assert_eq!(models.names, ["opencode", "models.json"]);
        }
        (Err(failure), None) => assert!(matches!(failure, BillError::MissingDataDirectory)),
        _ => panic!("the directories appear and vanish"),
    }
}

#[test]
fn references_are_plain_and_long_enough() {
    let short = Some("invalid session reference: must contain at least 6 characters".to_owned());
    let odd = Some(
        "invalid session reference: only ASCII letters, digits, '_' and '-' are allowed".to_owned(),
    );

    assert!(validate_reference("ses_Ab-9").is_ok());
    assert!(validate_reference("abc123").is_ok());
    assert_eq!(message_of(validate_reference("abc12")), short);
    assert_eq!(message_of(validate_reference("")), short);
    assert_eq!(message_of(validate_reference("ses%abc")), odd);
    assert_eq!(message_of(validate_reference("../../etc")), odd);
    assert_eq!(message_of(validate_reference("größer")), odd);
    assert_eq!(message_of(validate_reference("ééé")), odd);
    assert_eq!(message_of(validate_reference("éé")), short);
}

#[test]
fn one_match_is_needed() {
    let names = |count: usize| (0..count).map(|i| format!("ses_{i}")).collect::<Vec<_>>();

    assert_eq!(unique_match("ses", names(1)).ok(), Some("ses_0".to_owned()));
    assert_eq!(
        message_of(unique_match("ses", names(0))),
        Some("session 'ses' was not found".to_owned())
    );
    assert_eq!(
        message_of(unique_match("ses", names(2))),
        Some("session reference 'ses' is ambiguous; matches: ses_0, ses_1".to_owned())
    );
    assert_eq!(
        message_of(unique_match("ses", names(11))),
        Some(format!(
            "session reference 'ses' is ambiguous; matches: {}",
            names(10).join(", ")
        ))
    );
}

fn file(stem: Option<&str>, extension: Option<&str>) -> SessionFile {
    SessionFile {
        path: PathBuf::from("/x"),
        shown: "/x".to_owned(),
        place: FilePlace {
            directory: b"project".to_vec(),
            name: stem.unwrap_or_default().as_bytes().to_vec(),
        },
        stem: stem.map(str::to_owned),
        extension: extension.map(str::to_owned),
    }
}

#[test]
fn session_files_are_json_files_with_a_matching_name() {
    let files = vec![
        file(Some("ses_1"), Some("json")),
        file(Some("ses_2"), Some("txt")),
        file(Some("other"), Some("json")),
        file(None, Some("json")),
        file(Some("ses_3"), None),
        file(Some("ses_4"), Some("json")),
    ];
    let kept = legacy_session_paths(files);
    assert_eq!(kept.len(), 4);
    let matches = legacy_matches(kept, "ses_");
    let stems: Vec<_> = matches.iter().map(|file| file.stem.clone()).collect();
    assert_eq!(stems, [Some("ses_1".to_owned()), Some("ses_4".to_owned())]);
    assert!(is_json_file(&Some("json".to_owned())));
    assert!(!is_json_file(&Some("JSON".to_owned())));
    assert!(!is_json_file(&None));
    assert_eq!(
        message_of(unique_match("ses", vec![file(None, None), file(Some("a"), None)])),
        Some(
            "session reference 'ses' is ambiguous; matches: <invalid session filename>, a"
                .to_owned()
        )
    );
}

#[test]
fn session_files_come_in_the_order_of_their_paths() {
    let at = |directory: &str, name: &str| SessionFile {
        path: PathBuf::from(directory).join(name),
        shown: format!("{directory}/{name}"),
        place: FilePlace {
            directory: directory.as_bytes().to_vec(),
            name: name.as_bytes().to_vec(),
        },
        stem: None,
        extension: Some("json".to_owned()),
    };
    let files = vec![
        at("b", "a.json"),
        at("a", "b.json"),
        at("a-b", "a.json"),
        at("a", "a.json"),
        at("a", "B.json"),
        at("ä", "x.json"),
        at("a.b", "c.json"),
    ];
    let mut expected: Vec<PathBuf> = files.iter().map(|file| file.path.clone()).collect();
    expected.sort();
    let kept: Vec<PathBuf> =
        legacy_session_paths(files).into_iter().map(|file| file.path).collect();

    assert_eq!(kept, expected);
}

#[test]
fn a_family_is_found_among_given_parents() {
    let mut parents: OrderedMap<String, Option<String>> = OrderedMap::new();
    for (id, parent) in [("b", Some("a")), ("c", Some("b")), ("d", None), ("e", Some("d"))] {
        parents.insert(id.to_owned(), parent.map(str::to_owned));
    }

    assert_eq!(names(Ok(family(&parents, "a"))), ["a", "b", "c"]);
    assert_eq!(names(Ok(family(&parents, "e"))), ["e"]);
}

#[test]
fn session_records_need_a_name_and_a_title() {
    let record = |content: &str| session_record(content, "here");
    let heading = |content: &str| session_heading(record(content)?, "here");

    assert_eq!(
        heading(r#"{"id":"a","title":"b"}"#).ok(),
        Some(("a".to_owned(), "b".to_owned()))
    );
    assert_eq!(
        message_of(heading(r#"{"title":"b"}"#)),
        Some("invalid OpenCode data in here: missing or invalid 'id'".to_owned())
    );
    assert_eq!(
        message_of(heading(r#"{"id":"a","title":""}"#)),
        Some("invalid OpenCode data in here: missing or invalid 'title'".to_owned())
    );
    assert!(matches!(record("nothing"), Err(BillError::InvalidData { .. })));
    let plain = SessionRecord { id: None, title: Some("b".to_owned()), parent: None };
    assert!(session_heading(plain, "here").is_err());
}

fn stored(sessions: &[(&str, Option<&str>)]) -> Vec<Result<(String, String), BillError>> {
    sessions
        .iter()
        .map(|(id, parent)| {
            let content = match parent {
                Some(parent) => format!(r#"{{"id":"{id}","parentID":"{parent}"}}"#),
                None => format!(r#"{{"id":"{id}"}}"#),
            };
            Ok((format!("{id}.json"), content))
        })
        .collect()
}

fn names(members: Result<OrderedMap<String, ()>, BillError>) -> Vec<String> {
    match members {
        Ok(members) => members.entries.into_iter().map(|(name, ())| name).collect(),
        Err(failure) => panic!("{}", failure.message()),
    }
}

#[test]
fn descendants_are_found_however_deep() {
    let sessions = [
        ("d", Some("c")),
        ("a", None),
        ("c", Some("b")),
        ("b", Some("a")),
        ("e", Some("f")),
        ("f", Some("e")),
        ("g", Some("a")),
        ("h", Some("nowhere")),
    ];

    assert_eq!(names(legacy_descendant_ids(stored(&sessions), "a")), ["a", "b", "c", "d", "g"]);
    assert_eq!(names(legacy_descendant_ids(stored(&sessions), "c")), ["c", "d"]);
    assert_eq!(names(legacy_descendant_ids(stored(&sessions), "e")), ["e", "f"]);
    assert_eq!(names(legacy_descendant_ids(stored(&sessions), "nowhere")), ["h", "nowhere"]);
    assert_eq!(names(legacy_descendant_ids(stored(&sessions), "absent")), ["absent"]);
}

#[test]
fn the_last_record_of_a_session_counts() {
    let sessions = [("b", Some("a")), ("b", Some("z"))];

    assert_eq!(names(legacy_descendant_ids(stored(&sessions), "a")), ["a"]);
    assert_eq!(names(legacy_descendant_ids(stored(&sessions), "z")), ["b", "z"]);
}

#[test]
fn an_unusable_session_file_stops_the_search() {
    let mut files = stored(&[("a", None)]);
    files.push(Err(unreadable()));
    files.push(Ok(("bad".to_owned(), "{".to_owned())));
    assert_eq!(
        message_of(legacy_descendant_ids(files, "a")),
        Some("could not read somewhere: gone".to_owned())
    );
    let files = vec![Ok(("x.json".to_owned(), r#"{"id":""}"#.to_owned()))];
    assert_eq!(
        message_of(legacy_descendant_ids(files, "a")),
        Some("invalid OpenCode data in x.json: missing or invalid 'id'".to_owned())
    );
}

const USED: &str = r#"{"role":"assistant","mode":"old","providerID":"p","modelID":"m","cost":1,
    "tokens":{"input":1,"output":2,"reasoning":3,"cache":{"read":4,"write":5}}}"#;

#[test]
fn messages_are_taken_up_in_order_until_one_fails() {
    let stored = |location: &str, content: &str| StoredFile {
        location: location.to_owned(),
        content: Ok(content.to_owned()),
    };
    let good = || stored("good", USED);
    let user = || stored("user", r#"{"role":"user"}"#);
    let bad = || stored("bad", r#"{"role":"assistant"}"#);
    let unread = |location: &str| StoredFile {
        location: location.to_owned(),
        content: Err(unreadable()),
    };
    let broken = Some("invalid OpenCode data in bad: missing or invalid 'tokens'".to_owned());
    let gone = Some("could not read somewhere: gone".to_owned());

    let read = legacy_messages(vec![good(), user(), good()], "ses");
    assert_eq!(read.map(|messages| messages.len()).ok(), Some(2));
    assert_eq!(message_of(legacy_messages(vec![good(), unread("c"), bad()], "ses")), broken);
    assert_eq!(message_of(legacy_messages(vec![good(), bad(), unread("a")], "ses")), gone);
    assert_eq!(message_of(legacy_messages(vec![bad(), good(), unread("bad")], "ses")), gone);
    let costs = |files: Vec<StoredFile>| match legacy_messages(files, "ses") {
        Ok(messages) => messages.iter().map(|message| message.cost).collect::<Vec<_>>(),
        Err(failure) => panic!("{}", failure.message()),
    };
    let with = |location: &str, cost: &str| {
        stored(location, &USED.replace("\"cost\":1", &format!("\"cost\":{cost}")))
    };
    assert_eq!(
        costs(vec![with("b", "2"), with("c", "3"), with("a", "5"), with("b", "1")]),
        [number(5.0), number(1.0), number(2.0), number(3.0)]
    );
    assert_eq!(
        costs(vec![with("b", "1"), with("b", "2"), with("a", "5"), with("c", "3")]),
        [number(5.0), number(1.0), number(2.0), number(3.0)]
    );
    let mut members: OrderedMap<String, ()> = OrderedMap::new();
    for id in ["c", "a", "b"] {
        members.insert(id.to_owned(), ());
    }
    let files = vec![vec![good()], vec![], vec![good(), good()]];
    let session = match load_legacy_session("a".to_owned(), "t".to_owned(), &members, files) {
        Ok(session) => session,
        Err(failure) => panic!("{}", failure.message()),
    };
    let owners: Vec<&str> =
        session.messages.iter().map(|message| message.session_id.as_str()).collect();
    assert_eq!(owners, ["a", "c", "c"]);
    assert_eq!(session.session_count, 3);
    assert_eq!(session.session_agents.entries.len(), 0);
    let files = vec![vec![good()], vec![bad()], vec![unread("a")]];
    assert_eq!(
        message_of(load_legacy_session("a".to_owned(), "t".to_owned(), &members, files)),
        Some("invalid OpenCode data in bad: missing or invalid 'tokens'".to_owned())
    );
}

#[test]
fn every_required_field_is_missed_by_name() {
    let without = |pattern: &str, replacement: &str| {
        message_of(parse_message(&USED.replace(pattern, replacement), "db", "ses", None))
    };
    let missing =
        |field: &str| Some(format!("invalid OpenCode data in db: missing or invalid '{field}'"));

    assert_eq!(without("", ""), None);
    assert_eq!(without("\"tokens\"", "\"x\""), missing("tokens"));
    assert_eq!(without("\"cache\"", "\"x\""), missing("tokens.cache"));
    assert_eq!(without("\"p\"", "\"\""), missing("providerID"));
    assert_eq!(without("\"m\"", "7"), missing("modelID"));
    assert_eq!(without("\"cost\":1", "\"cost\":\"1\""), missing("cost"));
    assert_eq!(without("\"input\":1", "\"input\":1.5"), missing("input"));
    assert_eq!(without("\"output\":2", "\"output\":-2"), missing("output"));
    assert_eq!(without("\"reasoning\":3", "\"reasoning\":null"), missing("reasoning"));
    assert_eq!(without("\"read\":4", "\"read\":18446744073709551616"), missing("read"));
    assert_eq!(without("\"write\":5", "\"right\":5"), missing("write"));
    assert_eq!(
        without("\"cost\":1", "\"cost\":-0.5"),
        missing("cost must be finite and non-negative")
    );
    assert_eq!(without("\"assistant\"", "\"user\""), None);
    assert!(matches!(parse_message("{", "db", "ses", None), Err(BillError::InvalidData { .. })));
}

#[test]
fn the_agent_of_a_message_is_found_in_three_places() {
    let agent = |json: &str, session_agent: Option<&str>| {
        match parse_message(json, "db", "ses", session_agent) {
            Ok(Some(usage)) => usage.agent,
            _ => panic!("no usage"),
        }
    };
    let named = USED.replace("\"mode\"", "\"agent\":\"new\",\"mode\"");

    assert_eq!(agent(USED, Some("own")), "own");
    assert_eq!(agent(&named, None), "new");
    assert_eq!(agent(USED, None), "old");
    assert_eq!(agent(&USED.replace("\"old\"", "\"\""), None), "unknown");
    assert_eq!(agent(&USED.replace("\"mode\"", "\"x\""), None), "unknown");
    assert_eq!(agent(&named.replace("\"new\"", "\"\""), None), "unknown");
    assert_eq!(agent(&named.replace("\"new\"", "7"), None), "old");
    assert_eq!(agent(USED, Some("")), "unknown");
}

#[test]
fn a_message_is_read_field_by_field() {
    let document = match read_json(USED, "db") {
        Ok(document) => document,
        Err(failure) => panic!("{}", failure.message()),
    };
    let fields = message_fields(&document);
    assert_eq!(fields.role.as_deref(), Some("assistant"));
    assert_eq!(fields.cost, Some(number(1.0)));
    assert_eq!(
        (fields.input, fields.output, fields.reasoning, fields.cache_read, fields.cache_write),
        (Some(1), Some(2), Some(3), Some(4), Some(5))
    );
    assert_eq!(string_field(&document, "providerID").as_deref(), Some("p"));
    assert_eq!(string_field(&document, "cost"), None);
    assert_eq!(unsigned_field(&document, "cost"), Some(1));
    assert_eq!(unsigned_field(&document, "tokens"), None);
    assert_eq!(number_field(&document, "cost"), Some(number(1.0)));
    assert_eq!(number_field(&document, "role"), None);

    let fields = MessageFields {
        role: Some("assistant".to_owned()),
        tokens: true,
        cache: true,
        provider: Some("p".to_owned()),
        model: Some("m".to_owned()),
        cost: Some(number(0.25)),
        input: Some(u64::MAX),
        output: Some(0),
        reasoning: Some(1),
        cache_read: Some(2),
        cache_write: Some(3),
        agent: None,
        mode: None,
    };
    match message_usage(fields, "db", "ses", Some("build")) {
        Ok(Some(usage)) => {
            assert_eq!(usage.agent, "build");
            assert_eq!(usage.session_id, "ses");
            assert_eq!(usage.input, u64::MAX);
            assert_eq!(usage.cost, number(0.25));
        }
        _ => panic!("no usage"),
    }
}

#[test]
fn required_values_must_be_there() {
    assert_eq!(required_string(Some("x".to_owned()), "f", "l").ok(), Some("x".to_owned()));
    assert!(required_string(Some(String::new()), "f", "l").is_err());
    assert_eq!(
        message_of(required_string(None, "f", "l")),
        Some("invalid OpenCode data in l: missing or invalid 'f'".to_owned())
    );
    assert_eq!(required_u64(Some(7), "f", "l").ok(), Some(7));
    assert!(required_u64(None, "f", "l").is_err());
    assert_eq!(required_f64(Some(number(7.0)), "f", "l").ok(), Some(number(7.0)));
    assert!(required_f64(None, "f", "l").is_err());
}

#[test]
fn matches_are_collected_until_one_fails() {
    let rows = || vec![Ok("b".to_owned()), Ok("a".to_owned())];

    assert_eq!(database_matches(rows(), "").ok(), Some(vec!["b".to_owned(), "a".to_owned()]));
    assert_eq!(database_matches(rows(), "a").ok(), Some(vec!["a".to_owned()]));
    assert_eq!(database_matches(rows(), "A").ok(), Some(Vec::new()));
    assert_eq!(database_matches(Vec::new(), "a").ok(), Some(Vec::new()));
    let similar = || {
        ["ses_1", "sesX1", "ses_12", "SES_1", "ses_13"].map(|id| Ok(id.to_owned())).into_iter()
    };
    assert_eq!(
        database_matches(similar().collect(), "ses_1").ok(),
        Some(vec!["ses_1".to_owned()])
    );
    assert_eq!(
        database_matches(similar().skip(1).collect(), "ses_1").ok(),
        Some(vec!["ses_12".to_owned(), "ses_13".to_owned()])
    );
    let mut broken = rows();
    broken.push(locked());
    broken.push(Err(unreadable()));
    assert_eq!(
        message_of(database_matches(broken, "a")),
        Some("could not query OpenCode database at db: locked".to_owned())
    );
}

#[test]
fn the_agents_of_sessions_need_a_column() {
    let column = |names: &[&str]| names.iter().map(|name| Ok((*name).to_owned())).collect::<Vec<_>>();
    let rows = || {
        vec![
            Ok(("b".to_owned(), Some("explore".to_owned()))),
            Ok(("a".to_owned(), Some("build".to_owned()))),
            Ok(("c".to_owned(), None)),
            Ok(("d".to_owned(), Some(String::new()))),
        ]
    };
    let entries = |agents: Result<OrderedMap<String, String>, BillError>| match agents {
        Ok(agents) => agents.entries,
        Err(failure) => panic!("{}", failure.message()),
    };

    assert_eq!(has_agent_column(column(&["id", "agent"])).ok(), Some(true));
    assert_eq!(has_agent_column(column(&["id", "agents"])).ok(), Some(false));
    assert_eq!(
        has_agent_column(vec![Ok("agent".to_owned()), Err(unreadable())]).ok(),
        Some(true)
    );
    assert!(has_agent_column(vec![Err(unreadable()), Ok("agent".to_owned())]).is_err());
    assert_eq!(
        entries(database_session_agents(column(&["agent"]), rows())),
        [("a".to_owned(), "build".to_owned()), ("b".to_owned(), "explore".to_owned())]
    );
    assert!(entries(database_session_agents(column(&["id"]), rows())).is_empty());
    assert_eq!(
        message_of(database_session_agents(
            column(&["agent"]),
            vec![Ok(("a".to_owned(), None)), Err(unreadable())]
        )),
        Some("could not read somewhere: gone".to_owned())
    );
}

fn locked<T>() -> Result<T, BillError> {
    Err(database_error("db", "locked"))
}

#[test]
fn the_database_answers_in_turn() {
    let readings = || DatabaseReadings {
        title: Ok(Some("Title".to_owned())),
        session_count: Ok(2),
        columns: vec![Ok("agent".to_owned())],
        agents: vec![Ok(("ses_b".to_owned(), Some("explore".to_owned())))],
        messages: vec![
            Ok(("ses_a".to_owned(), USED.to_owned())),
            Ok(("ses_b".to_owned(), USED.to_owned())),
        ],
    };
    let load = |readings: DatabaseReadings| load_database_session("ses_a".to_owned(), readings, "db");
    let sentence = Some("could not query OpenCode database at db: locked".to_owned());

    match load(readings()) {
        Ok(session) => {
            let agents: Vec<&str> =
                session.messages.iter().map(|message| message.agent.as_str()).collect();
            assert_eq!(agents, ["old", "explore"]);
            assert_eq!((session.title.as_str(), session.session_count), ("Title", 2));
        }
        Err(failure) => panic!("{}", failure.message()),
    }
    assert_eq!(message_of(load(DatabaseReadings { title: locked(), ..readings() })), sentence);
    assert_eq!(
        message_of(load(DatabaseReadings { title: Ok(None), session_count: locked(), ..readings() })),
        Some("session 'ses_a' was not found".to_owned())
    );
    assert_eq!(
        message_of(load(DatabaseReadings { session_count: locked(), ..readings() })),
        sentence
    );
    assert_eq!(
        message_of(load(DatabaseReadings { columns: vec![locked()], ..readings() })),
        sentence
    );
    assert_eq!(
        message_of(load(DatabaseReadings { agents: vec![locked()], ..readings() })),
        sentence
    );
    assert_eq!(
        message_of(load(DatabaseReadings { messages: vec![locked()], ..readings() })),
        sentence
    );
    assert_eq!(database_title(Some("t".to_owned()), "a").ok(), Some("t".to_owned()));
    assert!(matches!(database_title(None, "a"), Err(BillError::SessionNotFound(_))));
    let rows = vec![Ok(("ses_a".to_owned(), "{".to_owned()))];
    assert!(database_messages(rows, "db", &OrderedMap::new()).is_err());
}
