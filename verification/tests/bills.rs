use opencode_bill::bill::draft_bill;
use opencode_bill::legacy::{
    legacy_descendant_ids, legacy_matches, legacy_session_paths, load_legacy_session,
    session_heading, session_record, FilePlace, SessionFile, StoredFile,
};
use opencode_bill::pricing::CatalogFile;
use opencode_bill::session::{
    database_matches, load_database_session, unique_match, validate_reference, DatabaseReadings, SessionData,
};
use opencode_bill::usage::totals_fit;
use opencode_bill::{generate_bill, BillError, StorageContext};
use rusqlite::{Connection, OptionalExtension};
use std::path::PathBuf;

const DESCENDANTS: &str = "WITH RECURSIVE descendants(id) AS (
    SELECT id FROM session WHERE id = ?1
    UNION
    SELECT session.id FROM session
    JOIN descendants ON session.parent_id = descendants.id
)";

fn fixture() -> Result<Connection, Box<dyn std::error::Error>> {
    let connection = Connection::open_in_memory()?;

    connection.execute_batch(
        "CREATE TABLE session (id TEXT PRIMARY KEY, title TEXT NOT NULL, parent_id TEXT);\
         CREATE TABLE message (id TEXT PRIMARY KEY, session_id TEXT NOT NULL,\
         time_created INTEGER NOT NULL, data TEXT NOT NULL);",
    )?;
    connection.execute(
        "INSERT INTO session (id, title) VALUES (?1, ?2)",
        ("ses_abcdef123456", "Test session"),
    )?;
    connection.execute(
        "INSERT INTO message (id, session_id, time_created, data) VALUES (?1, ?2, ?3, ?4)",
        (
            "msg_1",
            "ses_abcdef123456",
            1,
            r#"{"role":"assistant","providerID":"openai","modelID":"gpt-test","cost":0.125,"tokens":{"input":10,"output":4,"reasoning":2,"cache":{"read":6,"write":1}}}"#,
        ),
    )?;
    Ok(connection)
}

fn failed(source: rusqlite::Error) -> BillError {
    BillError::Database { path: "opencode.db".to_owned(), source: source.to_string() }
}

fn matches_of(connection: &Connection, reference: &str) -> Result<Vec<String>, BillError> {
    let mut statement = connection
        .prepare("SELECT id FROM session WHERE substr(id, 1, length(?1)) = ?1 ORDER BY id LIMIT 11")
        .map_err(failed)?;
    let rows = statement
        .query_map([reference], |row| row.get::<_, String>(0))
        .map_err(failed)?;

    database_matches(rows.map(|row| row.map_err(failed)).collect(), reference)
}

fn readings_of(connection: &Connection, id: &str) -> Result<DatabaseReadings, BillError> {
    let title = connection
        .query_row("SELECT title FROM session WHERE id = ?1", [id], |row| row.get(0))
        .optional()
        .map_err(failed);
    let session_count = connection
        .query_row(&format!("{DESCENDANTS} SELECT COUNT(*) FROM descendants"), [id], |row| {
            row.get(0)
        })
        .map_err(failed);
    let mut columns = connection.prepare("PRAGMA table_info(session)").map_err(failed)?;
    let columns: Vec<Result<String, BillError>> = columns
        .query_map([], |row| row.get::<_, String>(1))
        .map_err(failed)?
        .map(|name| name.map_err(failed))
        .collect();
    let recorded = columns.iter().any(|name| matches!(name, Ok(name) if name == "agent"));
    let mut agents = Vec::new();

    if recorded {
        let mut statement = connection
            .prepare(&format!(
                "{DESCENDANTS} SELECT session.id, session.agent FROM session
                 JOIN descendants ON session.id = descendants.id ORDER BY session.id"
            ))
            .map_err(failed)?;
        let rows = statement
            .query_map([id], |row| Ok((row.get(0)?, row.get(1)?)))
            .map_err(failed)?;

        for row in rows {
            agents.push(row.map_err(failed));
        }
    }

    let mut statement = connection
        .prepare(&format!(
            "{DESCENDANTS} SELECT message.session_id, message.data FROM message
             JOIN descendants ON message.session_id = descendants.id
             ORDER BY message.time_created, message.id"
        ))
        .map_err(failed)?;
    let messages = statement
        .query_map([id], |row| Ok((row.get(0)?, row.get(1)?)))
        .map_err(failed)?
        .map(|row| row.map_err(failed))
        .collect();

    Ok(DatabaseReadings { title, session_count, columns, agents, messages })
}

fn load(connection: &Connection, reference: &str) -> Result<SessionData, BillError> {
    let id = unique_match(reference, matches_of(connection, reference)?)?;
    let readings = readings_of(connection, &id)?;
    load_database_session(id, readings, "opencode.db")
}

fn context() -> Result<StorageContext, BillError> {
    StorageContext::builder().data_dir(PathBuf::from("/data")).build()
}

fn database_bill(connection: &Connection, reference: &str) -> Result<String, BillError> {
    let session = match validate_reference(reference) {
        Ok(()) => load(connection, reference),
        Err(failure) => Err(failure),
    };
    if let Ok(found) = &session {
        assert!(totals_fit(&found.messages));
    }
    generate_bill(&context()?, reference, session, None, &None)
}

fn has_table_row(output: &str, expected: &[&str]) -> bool {
    output
        .lines()
        .any(|line| line.split('|').map(str::trim).eq(expected.iter().copied()))
}

fn shown(failure: BillError) -> Box<dyn std::error::Error> {
    failure.message().into()
}

#[test]
fn generates_bill_from_unique_prefix() -> Result<(), Box<dyn std::error::Error>> {
    let connection = fixture()?;

    let bill = database_bill(&connection, "ses_abcdef").map_err(shown)?;

    assert!(bill.contains("Session: ses_abcdef123456"));
    assert!(bill.contains("Sessions: 1 (root + descendants)"));
    assert!(has_table_row(
        &bill,
        &["openai / gpt-test", "1", "10", "6", "1", "4", "2", "$0.125000"]
    ));
    assert!(bill.contains("Amount due:  $0.125000 USD"));
    Ok(())
}

#[test]
fn the_whole_bill_reads_as_laid_out() -> Result<(), Box<dyn std::error::Error>> {
    let connection = fixture()?;

    let bill = database_bill(&connection, "ses_abcdef123456").map_err(shown)?;

    assert_eq!(
        bill,
        "OPENCODE SESSION BILL
Session: ses_abcdef123456
Title:   Test session
Sessions: 1 (root + descendants)
Messages: 1

PROVIDER / MODEL  | REQUESTS | INPUT | CACHE READ | CACHE WRITE | OUTPUT | REASONING | COST (USD)
------------------+----------+-------+------------+-------------+--------+-----------+-----------
openai / gpt-test |        1 |    10 |          6 |           1 |      4 |         2 |  $0.125000

USAGE BY AGENT CLASS
AGENT   | SESSIONS | REQUESTS | INPUT | CACHE READ | CACHE WRITE | OUTPUT | REASONING | COST (USD)
--------+----------+----------+-------+------------+-------------+--------+-----------+-----------
unknown |        1 |        1 |    10 |          6 |           1 |      4 |         2 |  $0.125000

MODEL PRICING (USD / 1M TOKENS)
PROVIDER / MODEL  | INPUT | CACHE READ | CACHE WRITE | OUTPUT
------------------+-------+------------+-------------+-------
openai / gpt-test |     - |          - |           - |      -

TOTAL
Requests:    1
Input:       10
Cache read:  6
Cache write: 1
Output:      4
Reasoning:   2
Amount due:  $0.125000 USD
"
    );
    Ok(())
}

#[test]
fn renders_known_model_pricing() -> Result<(), Box<dyn std::error::Error>> {
    let connection = fixture()?;
    let context = StorageContext::builder()
        .data_dir(PathBuf::from("/data"))
        .models_file(PathBuf::from("/data/models.json"))
        .build()
        .map_err(shown)?;
    let catalog = CatalogFile {
        location: "/data/models.json".to_owned(),
        content: Ok(
            r#"{"openai":{"models":{"gpt-test":{"cost":{"input":1.25,"output":5,"cache_read":0.125}}}}}"#
                .to_owned(),
        ),
    };
    let session = load(&connection, "ses_abcdef");

    let bill = generate_bill(&context, "ses_abcdef", session, Some(catalog), &None)
        .map_err(shown)?;

    assert!(bill.contains("MODEL PRICING (USD / 1M TOKENS)"));
    assert!(has_table_row(
        &bill,
        &["openai / gpt-test", "$1.250", "$0.125", "-", "$5.000"]
    ));
    Ok(())
}

#[test]
fn a_catalog_is_ignored_where_none_is_used() -> Result<(), Box<dyn std::error::Error>> {
    let connection = fixture()?;
    let catalog = CatalogFile {
        location: "/data/models.json".to_owned(),
        content: Ok("not JSON".to_owned()),
    };
    let session = load(&connection, "ses_abcdef");
    let with = generate_bill(
        &context().map_err(shown)?,
        "ses_abcdef",
        session,
        Some(catalog),
        &None,
    )
    .map_err(shown)?;

    assert_eq!(with, database_bill(&connection, "ses_abcdef").map_err(shown)?);
    assert!(has_table_row(&with, &["openai / gpt-test", "-", "-", "-", "-"]));
    Ok(())
}

#[test]
fn includes_all_sqlite_descendant_sessions() -> Result<(), Box<dyn std::error::Error>> {
    let connection = fixture()?;

    connection.execute("ALTER TABLE session ADD COLUMN agent TEXT", [])?;
    connection.execute(
        "UPDATE session SET agent = ?1 WHERE id = ?2",
        ("build", "ses_abcdef123456"),
    )?;
    connection.execute(
        "INSERT INTO session (id, title, parent_id, agent) VALUES (?1, ?2, ?3, ?4)",
        ("ses_child123456", "Child", "ses_abcdef123456", "explore"),
    )?;
    connection.execute(
        "INSERT INTO session (id, title, parent_id, agent) VALUES (?1, ?2, ?3, ?4)",
        ("ses_grandchild1", "Grandchild", "ses_child123456", "explore"),
    )?;
    connection.execute(
        "INSERT INTO message (id, session_id, time_created, data) VALUES (?1, ?2, ?3, ?4)",
        (
            "msg_child",
            "ses_child123456",
            2,
            r#"{"role":"assistant","providerID":"anthropic","modelID":"child-model","cost":0.25,"tokens":{"input":20,"output":8,"reasoning":1,"cache":{"read":4,"write":2}}}"#,
        ),
    )?;
    connection.execute(
        "INSERT INTO message (id, session_id, time_created, data) VALUES (?1, ?2, ?3, ?4)",
        (
            "msg_grandchild",
            "ses_grandchild1",
            3,
            r#"{"role":"assistant","providerID":"openai","modelID":"gpt-test","cost":0.5,"tokens":{"input":30,"output":12,"reasoning":3,"cache":{"read":7,"write":0}}}"#,
        ),
    )?;

    let bill = database_bill(&connection, "ses_abcdef123456").map_err(shown)?;

    assert!(bill.contains("Sessions: 3 (root + descendants)"));
    assert!(has_table_row(
        &bill,
        &["anthropic / child-model", "1", "20", "4", "2", "8", "1", "$0.250000"]
    ));
    assert!(has_table_row(
        &bill,
        &["openai / gpt-test", "2", "40", "13", "1", "16", "5", "$0.625000"]
    ));
    assert!(bill.contains("Requests:    3"));
    assert!(bill.contains("Amount due:  $0.875000 USD"));
    assert!(bill.contains("USAGE BY AGENT CLASS"));
    assert!(has_table_row(
        &bill,
        &["build", "1", "1", "10", "6", "1", "4", "2", "$0.125000"]
    ));
    assert!(has_table_row(
        &bill,
        &["explore", "2", "2", "50", "11", "2", "20", "4", "$0.750000"]
    ));
    Ok(())
}

#[test]
fn rejects_unsafe_reference() -> Result<(), Box<dyn std::error::Error>> {
    let connection = fixture()?;

    let failure = database_bill(&connection, "ses_%").err().ok_or("expected an error")?;

    assert!(matches!(failure, BillError::InvalidSessionReference(_)));
    Ok(())
}

#[test]
fn reports_missing_session() -> Result<(), Box<dyn std::error::Error>> {
    let connection = fixture()?;

    let failure = database_bill(&connection, "ses_missing").err().ok_or("expected an error")?;

    assert!(matches!(failure, BillError::SessionNotFound(_)));
    Ok(())
}

#[test]
fn rejects_ambiguous_prefix() -> Result<(), Box<dyn std::error::Error>> {
    let connection = fixture()?;

    connection.execute(
        "INSERT INTO session (id, title) VALUES (?1, ?2)",
        ("ses_abcdef999999", "Other session"),
    )?;

    let failure = database_bill(&connection, "ses_abcdef").err().ok_or("expected an error")?;

    assert_eq!(
        failure.message(),
        "session reference 'ses_abcdef' is ambiguous; matches: ses_abcdef123456, ses_abcdef999999"
    );
    assert!(matches!(failure, BillError::AmbiguousSession { .. }));
    Ok(())
}

fn session_file(directory: &str, stem: &str) -> SessionFile {
    let shown = format!("{directory}/{stem}.json");
    SessionFile {
        path: PathBuf::from(&shown),
        shown,
        place: FilePlace {
            directory: b"project".to_vec(),
            name: format!("{stem}.json").into_bytes(),
        },
        stem: Some(stem.to_owned()),
        extension: Some("json".to_owned()),
    }
}

fn legacy_bill(
    reference: &str,
    stored: &[(&str, String)],
    messages: &[(&str, &str, &str)],
) -> Result<String, BillError> {
    let directory = "storage/session/project";
    let files = stored.iter().map(|(stem, _)| session_file(directory, stem)).collect();
    let files = legacy_session_paths(files);
    let path = unique_match(reference, legacy_matches(files, reference))?;
    let content = stored
        .iter()
        .find(|(stem, _)| path.stem.as_deref() == Some(*stem))
        .map(|(_, content)| content.clone())
        .unwrap_or_default();
    let record = session_record(&content, &path.shown)?;
    let (id, title) = session_heading(record, &path.shown)?;
    let contents = stored
        .iter()
        .map(|(stem, content)| Ok((format!("{directory}/{stem}.json"), content.clone())))
        .collect();
    let members = legacy_descendant_ids(contents, &id)?;
    let files = members
        .entries
        .iter()
        .map(|(member, ())| {
            messages
                .iter()
                .filter(|(session, _, _)| *session == member.as_str())
                .map(|(session, file, content)| StoredFile {
                    location: format!("storage/message/{session}/{file}"),
                    content: Ok((*content).to_owned()),
                })
                .collect()
        })
        .collect();
    let session = load_legacy_session(id, title, &members, files);

    generate_bill(&context()?, reference, session, None, &None)
}

#[test]
fn generates_bill_from_legacy_json() -> Result<(), Box<dyn std::error::Error>> {
    let session_id = "ses_legacy123456";
    let stored = [(session_id, format!(r#"{{"id":"{session_id}","title":"Legacy session"}}"#))];
    let messages = [(
        session_id,
        "msg_1.json",
        r#"{"role":"assistant","agent":"legacy-agent","providerID":"anthropic","modelID":"legacy","cost":0.25,"tokens":{"input":20,"output":8,"reasoning":1,"cache":{"read":4,"write":2}}}"#,
    )];

    let bill = legacy_bill("ses_legacy", &stored, &messages).map_err(shown)?;

    assert!(has_table_row(
        &bill,
        &["anthropic / legacy", "1", "20", "4", "2", "8", "1", "$0.250000"]
    ));
    assert!(has_table_row(
        &bill,
        &["legacy-agent", "1", "1", "20", "4", "2", "8", "1", "$0.250000"]
    ));
    Ok(())
}

#[test]
fn includes_legacy_child_sessions() -> Result<(), Box<dyn std::error::Error>> {
    let root_id = "ses_legacyroot12";
    let child_id = "ses_legacychild1";
    let stored = [
        (root_id, format!(r#"{{"id":"{root_id}","title":"Legacy root"}}"#)),
        (child_id, format!(r#"{{"id":"{child_id}","title":"Child","parentID":"{root_id}"}}"#)),
    ];
    let messages = [(
        child_id,
        "msg_child.json",
        r#"{"role":"assistant","providerID":"anthropic","modelID":"legacy-child","cost":0.75,"tokens":{"input":50,"output":10,"reasoning":2,"cache":{"read":8,"write":1}}}"#,
    )];

    let bill = legacy_bill(root_id, &stored, &messages).map_err(shown)?;

    assert!(bill.contains("Sessions: 2 (root + descendants)"));
    assert!(has_table_row(
        &bill,
        &["anthropic / legacy-child", "1", "50", "8", "1", "10", "2", "$0.750000"]
    ));
    Ok(())
}

#[test]
fn the_page_is_wanted_only_for_unpriced_copilot_models() -> Result<(), Box<dyn std::error::Error>> {
    let connection = fixture()?;
    connection.execute(
        "INSERT INTO message (id, session_id, time_created, data) VALUES (?1, ?2, ?3, ?4)",
        (
            "msg_2",
            "ses_abcdef123456",
            2,
            r#"{"role":"assistant","providerID":"github-copilot","modelID":"gpt-5.6-sol-high","cost":0,"tokens":{"input":1500,"output":2,"reasoning":0,"cache":{"read":0,"write":0}}}"#,
        ),
    )?;
    let context = StorageContext::builder()
        .data_dir(PathBuf::from("/data"))
        .models_file(PathBuf::from("/data/models.json"))
        .build()
        .map_err(shown)?;
    let page = Some(
        "| Model | Input | Output |\n|---|---|---|\n| GPT-5.6 Sol | $5.00 | $30.00 |\n".to_owned(),
    );
    let catalog = |content: &str| {
        Some(CatalogFile {
            location: "/data/models.json".to_owned(),
            content: Ok(content.to_owned()),
        })
    };

    let draft = draft_bill(
        &context,
        "ses_abcdef",
        load(&connection, "ses_abcdef"),
        catalog("{}"),
    )
    .map_err(shown)?;
    assert!(draft.wants_page());
    let bill = draft.finish(&page).map_err(shown)?;
    assert!(has_table_row(
        &bill,
        &["github-copilot / gpt-5.6-sol-high", "$5.000", "-", "-", "$30.000"]
    ));
    assert!(has_table_row(&bill, &["openai / gpt-test", "-", "-", "-", "-"]));
    assert_eq!(
        bill,
        generate_bill(
            &context,
            "ses_abcdef",
            load(&connection, "ses_abcdef"),
            catalog("{}"),
            &page,
        )
        .map_err(shown)?
    );

    let priced =
        r#"{"github-copilot":{"models":{"gpt-5.6-sol-high":{"cost":{"input":1,"output":2}}}}}"#;
    let draft = draft_bill(
        &context,
        "ses_abcdef",
        load(&connection, "ses_abcdef"),
        catalog(priced),
    )
    .map_err(shown)?;
    assert!(!draft.wants_page());
    let bill = draft.finish(&page).map_err(shown)?;
    assert!(has_table_row(
        &bill,
        &["github-copilot / gpt-5.6-sol-high", "$1.000", "-", "-", "$2.000"]
    ));
    Ok(())
}

#[test]
fn the_first_failure_is_reported() -> Result<(), Box<dyn std::error::Error>> {
    let context = StorageContext::builder()
        .data_dir(PathBuf::from("/data"))
        .models_file(PathBuf::from("/data/models.json"))
        .build()
        .map_err(shown)?;
    let broken = || {
        Some(CatalogFile {
            location: "/data/models.json".to_owned(),
            content: Ok("{".to_owned()),
        })
    };
    let unread = || {
        Some(CatalogFile {
            location: "/data/models.json".to_owned(),
            content: Err(BillError::Read {
                path: "/data/models.json".to_owned(),
                source: "permission denied".to_owned(),
            }),
        })
    };
    let absent = || Err(BillError::SessionNotFound("ses_absent".to_owned()));
    let connection = fixture()?;

    let failure = generate_bill(&context, "short", absent(), broken(), &None).err();
    assert_eq!(
        failure.map(|failure| failure.message()),
        Some("invalid session reference: must contain at least 6 characters".to_owned())
    );
    let failure = generate_bill(&context, "ses_absent", absent(), broken(), &None).err();
    assert_eq!(
        failure.map(|failure| failure.message()),
        Some("session 'ses_absent' was not found".to_owned())
    );
    let failure = generate_bill(
        &context,
        "ses_abcdef",
        load(&connection, "ses_abcdef"),
        broken(),
        &None,
    )
    .err();
    assert_eq!(
        failure.map(|failure| failure.message()),
        Some(
            "invalid OpenCode data in /data/models.json: EOF while parsing an object at line 1 column 1"
                .to_owned()
        )
    );
    let failure = generate_bill(
        &context,
        "ses_abcdef",
        load(&connection, "ses_abcdef"),
        unread(),
        &None,
    )
    .err();
    assert_eq!(
        failure.map(|failure| failure.message()),
        Some("could not read /data/models.json: permission denied".to_owned())
    );
    Ok(())
}

#[test]
fn a_broken_message_stops_the_bill() -> Result<(), Box<dyn std::error::Error>> {
    let connection = fixture()?;
    connection.execute(
        "INSERT INTO message (id, session_id, time_created, data) VALUES (?1, ?2, ?3, ?4)",
        (
            "msg_2",
            "ses_abcdef123456",
            2,
            r#"{"role":"assistant","providerID":"openai","modelID":"gpt-test","cost":-1,"tokens":{"input":1,"output":1,"reasoning":1,"cache":{"read":1,"write":1}}}"#,
        ),
    )?;

    let failure = database_bill(&connection, "ses_abcdef").err().ok_or("expected an error")?;

    assert!(matches!(failure, BillError::InvalidData { .. }));
    Ok(())
}

#[test]
fn a_full_identifier_selects_its_session() -> Result<(), Box<dyn std::error::Error>> {
    let connection = fixture()?;
    for (id, title) in [("ses_abcdef", "A"), ("ses_abcdef12", "B"), ("sesXabcdef", "C")] {
        connection.execute("INSERT INTO session (id, title) VALUES (?1, ?2)", (id, title))?;
    }

    let bill = database_bill(&connection, "ses_abcdef").map_err(shown)?;
    assert!(bill.contains("Session: ses_abcdef\n"));
    assert!(bill.contains("Title:   A\n"));
    assert!(bill.contains("Messages: 0\n"));
    assert!(!bill.contains("MODEL PRICING"));
    let failure = database_bill(&connection, "ses_abcde").err().ok_or("expected an error")?;
    assert_eq!(
        failure.message(),
        "session reference 'ses_abcde' is ambiguous; matches: ses_abcdef, ses_abcdef12, ses_abcdef123456"
    );
    let failure = database_bill(&connection, "SES_abcdef").err().ok_or("expected an error")?;
    assert!(matches!(failure, BillError::SessionNotFound(_)));

    let stored = ["ses_legacy", "ses_legacy12"]
        .map(|id| (id, format!(r#"{{"id":"{id}","title":"title of {id}"}}"#)));
    let bill = legacy_bill("ses_legacy", &stored, &[]).map_err(shown)?;
    assert!(bill.contains("Title:   title of ses_legacy\n"));
    let failure = legacy_bill("ses_lega", &stored, &[]).err().ok_or("expected an error")?;
    assert!(matches!(failure, BillError::AmbiguousSession { .. }));
    Ok(())
}

#[test]
fn the_heading_counts_sessions_and_messages() -> Result<(), Box<dyn std::error::Error>> {
    let connection = fixture()?;
    connection.execute(
        "INSERT INTO message (id, session_id, time_created, data) VALUES (?1, ?2, ?3, ?4)",
        (
            "msg_2",
            "ses_abcdef123456",
            2,
            r#"{"role":"assistant","providerID":"openai","modelID":"gpt-test","cost":1,"tokens":{"input":1,"output":1,"reasoning":1,"cache":{"read":1,"write":1}}}"#,
        ),
    )?;
    let bill = database_bill(&connection, "ses_abcdef").map_err(shown)?;

    assert!(bill.contains("\nSessions: 1 (root + descendants)\nMessages: 2\n\n"));
    Ok(())
}

#[test]
fn the_listing_order_of_messages_does_not_change_the_bill() -> Result<(), Box<dyn std::error::Error>> {
    let id = "ses_legacy123456";
    let stored = [(id, format!(r#"{{"id":"{id}","title":"t"}}"#))];
    let cost = |cost: &str| {
        format!(
            r#"{{"role":"assistant","providerID":"p","modelID":"m","cost":{cost},"tokens":{{"input":1,"output":1,"reasoning":1,"cache":{{"read":1,"write":1}}}}}}"#
        )
    };
    let (large, small) = (cost("9007199254740992"), cost("1"));
    let first = [(id, "a.json", &*large), (id, "b.json", &*small), (id, "c.json", &*small)];
    let second = [first[1], first[2], first[0]];
    let bill = legacy_bill(id, &stored, &first).map_err(shown)?;

    assert!(bill.contains("Amount due:  $9007199254740992.000000 USD"));
    assert_eq!(bill, legacy_bill(id, &stored, &second).map_err(shown)?);
    Ok(())
}
