//! Sessions kept as JSON files.
use crate::error::{BillError, BillErrorView};
use crate::json::{self, JsonLeaf};
use crate::message;
use crate::ordered::{self, Key, OrderedMap, Ranked};
use crate::session::{self, MatchName, SessionData, SessionView};
use crate::text::{self, Placement};
use crate::usage::{self, MessageUsage, MessageView};
use serde_json::Value;
use std::path::PathBuf;
use vstd::prelude::*;

verus! {

/// Where a file lies below the directory of sessions.
#[derive(Debug)]
pub struct FilePlace {
    /// The bytes of the name of the directory that holds the file.
    pub directory: Vec<u8>,
    /// The bytes of the file's own name.
    pub name: Vec<u8>,
}

/// The contents of a [`FilePlace`].
#[verifier::ext_equal]
pub struct PlaceView {
    /// The bytes of the name of the directory that holds the file.
    pub directory: Seq<u8>,
    /// The bytes of the file's own name.
    pub name: Seq<u8>,
}

impl View for FilePlace {
    type V = PlaceView;

    open spec fn view(&self) -> PlaceView {
        PlaceView { directory: self.directory@, name: self.name@ }
    }
}

/// Paths come in the order of their directories, and in a directory in that of their names.
impl Key for FilePlace {
    open spec fn precedes(left: PlaceView, right: PlaceView) -> bool {
        text::bytes_before(left.directory, right.directory) || (left.directory == right.directory
            && text::bytes_before(left.name, right.name))
    }

    proof fn irreflexive(key: PlaceView) {
        text::lemma_bytes_irreflexive(key.directory);
        text::lemma_bytes_irreflexive(key.name);
    }

    proof fn transitive(first: PlaceView, second: PlaceView, third: PlaceView) {
        if text::bytes_before(first.directory, second.directory) {
            if text::bytes_before(second.directory, third.directory) {
                text::lemma_bytes_transitive(first.directory, second.directory, third.directory);
            }
        } else if !text::bytes_before(second.directory, third.directory) {
            text::lemma_bytes_transitive(first.name, second.name, third.name);
        }
    }

    proof fn total(left: PlaceView, right: PlaceView) {
        text::lemma_bytes_total(left.directory, right.directory);
        text::lemma_bytes_total(left.name, right.name);
    }

    fn place(&self, other: &FilePlace) -> (placement: Placement) {
        match text::order_bytes(self.directory.as_slice(), other.directory.as_slice()) {
            Placement::Same => text::order_bytes(self.name.as_slice(), other.name.as_slice()),
            placement => placement,
        }
    }
}

/// A file in the directory of sessions.
#[derive(Debug)]
pub struct SessionFile {
    /// Its path.
    pub path: PathBuf,
    /// The path as shown to the user.
    pub shown: String,
    /// Where it lies.
    pub place: FilePlace,
    /// The file's name without its extension, where that is valid text.
    pub stem: Option<String>,
    /// The extension, where there is one and it is valid text.
    pub extension: Option<String>,
}

impl MatchName for SessionFile {
    open spec fn name_view(&self) -> Seq<char> {
        match self.stem {
            Some(stem) => stem@,
            None => "<invalid session filename>"@,
        }
    }

    fn match_name(&self) -> (name: String) {
        match &self.stem {
            Some(stem) => stem.clone(),
            None => "<invalid session filename>".to_owned(),
        }
    }
}

impl Ranked for SessionFile {
    open spec fn comes_before(self, other: SessionFile) -> bool {
        FilePlace::precedes(self.place@, other.place@)
    }

    proof fn asymmetric(left: SessionFile, right: SessionFile) {
        if right.comes_before(left) {
            FilePlace::transitive(left.place@, right.place@, left.place@);
            FilePlace::irreflexive(left.place@);
        }
    }

    proof fn chained(first: SessionFile, second: SessionFile, third: SessionFile) {
        if third.comes_before(first) {
            FilePlace::total(second.place@, third.place@);
            if FilePlace::precedes(second.place@, third.place@) {
                FilePlace::transitive(second.place@, third.place@, first.place@);
            }
        }
    }

    fn before(&self, other: &SessionFile) -> (first: bool) {
        proof {
            FilePlace::irreflexive(self.place@);
            if FilePlace::precedes(self.place@, other.place@) && FilePlace::precedes(
                other.place@,
                self.place@,
            ) {
                FilePlace::transitive(self.place@, other.place@, self.place@);
            }
        }
        match self.place.place(&other.place) {
            Placement::Before => true,
            _ => false,
        }
    }
}

/// Where several files lie.
pub open spec fn places(files: Seq<SessionFile>) -> Seq<PlaceView> {
    files.map_values(|file: SessionFile| file.place@)
}

/// Whether a file with this extension holds JSON.
pub open spec fn is_json(extension: Option<Seq<char>>) -> bool {
    extension == Some("json"@)
}

/// Whether a file with this extension holds JSON.
pub fn is_json_file(extension: &Option<String>) -> (holds: bool)
    ensures
        holds == is_json(json::text_view(*extension)),
{
    match extension {
        Some(found) => text::same_text(found.as_str(), "json"),
        None => false,
    }
}

/// The files that hold JSON.
pub open spec fn json_files(files: Seq<SessionFile>) -> Seq<SessionFile>
    decreases files.len(),
{
    if files.len() == 0 {
        Seq::empty()
    } else {
        let before = json_files(files.drop_last());
        if is_json(json::text_view(files.last().extension)) {
            before.push(files.last())
        } else {
            before
        }
    }
}

proof fn lemma_json_files(files: Seq<SessionFile>)
    ensures
        forall|file: SessionFile| #[trigger]
            json_files(files).contains(file) <==> files.contains(file) && is_json(
                json::text_view(file.extension),
            ),
    decreases files.len(),
{
    let kept = json_files(files);
    if files.len() > 0 {
        let shorter = files.drop_last();
        let last = files.last();
        let before = json_files(shorter);
        lemma_json_files(shorter);
        assert(files[files.len() - 1] == last);
        assert forall|file: SessionFile| #[trigger] kept.contains(file) <==> files.contains(file)
            && is_json(json::text_view(file.extension)) by {
            if files.contains(file) && file != last {
                let i = choose|i: int| 0 <= i < files.len() && files[i] == file;
                assert(shorter[i] == file);
            }
            if shorter.contains(file) {
                let i = choose|i: int| 0 <= i < shorter.len() && shorter[i] == file;
                assert(files[i] == file);
            }
            assert(before.contains(file) <==> shorter.contains(file) && is_json(
                json::text_view(file.extension),
            ));
            if is_json(json::text_view(last.extension)) {
                assert(kept[before.len() as int] == last);
                if before.contains(file) {
                    let i = choose|i: int| 0 <= i < before.len() && before[i] == file;
                    assert(kept[i] == file);
                }
                if kept.contains(file) && file != last {
                    let i = choose|i: int| 0 <= i < kept.len() && kept[i] == file;
                    assert(before[i] == file);
                }
            }
        }
    }
}

/// Whether no two files have the same path.
pub open spec fn distinct_places(files: Seq<SessionFile>) -> bool {
    forall|i: int, j: int|
        0 <= i < j < files.len() ==> (#[trigger] files[i]).place@ != (#[trigger] files[j]).place@
}

proof fn lemma_json_files_distinct(files: Seq<SessionFile>)
    requires
        distinct_places(files),
    ensures
        distinct_places(json_files(files)),
    decreases files.len(),
{
    if files.len() > 0 {
        let shorter = files.drop_last();
        let kept = json_files(files);
        let before = json_files(shorter);
        lemma_json_files_distinct(shorter);
        lemma_json_files(shorter);
        assert forall|i: int, j: int| 0 <= i < j < kept.len() implies (#[trigger] kept[i]).place@
            != (#[trigger] kept[j]).place@ by {
            assert(kept[i] == before[i]);
            if j < before.len() {
                assert(kept[j] == before[j]);
            } else {
                assert(before.contains(before[i]));
                let p = choose|p: int| 0 <= p < shorter.len() && shorter[p] == before[i];
                assert(files[p] == before[i]);
                assert(files[files.len() - 1] == files.last());
            }
        }
    }
}

proof fn lemma_arranged_distinct(files: Seq<SessionFile>)
    requires
        distinct_places(files),
    ensures
        distinct_places(ordered::arranged(files)),
{
    broadcast use vstd::seq_lib::group_to_multiset_ensures;

    let sorted = ordered::arranged(files);
    ordered::law_arranged(files);
    assert forall|i: int, j: int| 0 <= i < j < sorted.len() implies (#[trigger] sorted[i]).place@
        != (#[trigger] sorted[j]).place@ by {
        if sorted[i].place@ == sorted[j].place@ {
            assert(sorted.contains(sorted[i]));
            assert(sorted.contains(sorted[j]));
            let p = choose|p: int| 0 <= p < files.len() && files[p] == sorted[i];
            let q = choose|q: int| 0 <= q < files.len() && files[q] == sorted[j];
            if p == q {
                assert(files.no_duplicates()) by {
                    assert forall|a: int, b: int|
                        0 <= a < files.len() && 0 <= b < files.len() && a != b implies files[a]
                        != files[b] by {
                        if a < b {
                            assert(files[a].place@ != files[b].place@);
                        } else {
                            assert(files[b].place@ != files[a].place@);
                        }
                    }
                }
                files.lemma_multiset_has_no_duplicates();
                sorted.lemma_multiset_has_no_duplicates_conv();
            } else if p < q {
                assert(files[p].place@ != files[q].place@);
            } else {
                assert(files[q].place@ != files[p].place@);
            }
        }
    }
}

/// Of files with different paths, the session files are those that hold JSON, in strictly ascending
/// order of their paths.
pub proof fn law_session_paths(files: Seq<SessionFile>)
    requires
        distinct_places(files),
    ensures
        ({
            let kept = ordered::arranged(json_files(files));
            &&& ordered::ascending::<FilePlace>(places(kept))
            &&& forall|file: SessionFile| #[trigger]
                kept.contains(file) <==> files.contains(file) && is_json(
                    json::text_view(file.extension),
                )
        }),
{
    let held = json_files(files);
    let kept = ordered::arranged(held);
    let order = places(kept);
    lemma_json_files(files);
    lemma_json_files_distinct(files);
    lemma_arranged_distinct(held);
    ordered::law_arranged(held);
    assert forall|i: int, j: int| 0 <= i < j < order.len() implies FilePlace::precedes(
        #[trigger] order[i],
        #[trigger] order[j],
    ) by {
        FilePlace::total(kept[i].place@, kept[j].place@);
        assert(!kept[j].comes_before(kept[i]));
    }
    assert forall|file: SessionFile| #[trigger] kept.contains(file) <==> files.contains(file)
        && is_json(json::text_view(file.extension)) by {
        assert(held.contains(file) <==> files.contains(file) && is_json(
            json::text_view(file.extension),
        ));
    }
}

/// The order in which the directories list the session files does not matter: two listings of files
/// at the same places are kept in the same order.
pub proof fn law_session_listing_is_irrelevant(left: Seq<SessionFile>, right: Seq<SessionFile>)
    requires
        distinct_places(left),
        distinct_places(right),
        forall|place: PlaceView| #[trigger]
            places(json_files(left)).contains(place) <==> places(json_files(right)).contains(place),
    ensures
        places(ordered::arranged(json_files(left))) == places(
            ordered::arranged(json_files(right)),
        ),
{
    let (x, y) = (ordered::arranged(json_files(left)), ordered::arranged(json_files(right)));
    law_session_paths(left);
    law_session_paths(right);
    lemma_arranged_places(json_files(left));
    lemma_arranged_places(json_files(right));
    assert forall|place: PlaceView| #[trigger] places(x).contains(place) <==> places(y).contains(
        place,
    ) by {
        assert(places(json_files(left)).contains(place) <==> places(json_files(right)).contains(
            place,
        ));
    }
    ordered::lemma_ascending_unique::<FilePlace>(places(x), places(y));
}

proof fn lemma_arranged_places(files: Seq<SessionFile>)
    ensures
        forall|place: PlaceView| #[trigger]
            places(ordered::arranged(files)).contains(place) <==> places(files).contains(place),
{
    let sorted = ordered::arranged(files);
    ordered::law_arranged(files);
    assert forall|place: PlaceView| #[trigger] places(sorted).contains(place) <==> places(
        files,
    ).contains(place) by {
        if places(sorted).contains(place) {
            let i = choose|i: int| 0 <= i < sorted.len() && places(sorted)[i] == place;
            assert(sorted.contains(sorted[i]));
            let p = choose|p: int| 0 <= p < files.len() && files[p] == sorted[i];
            assert(places(files)[p] == place);
        }
        if places(files).contains(place) {
            let i = choose|i: int| 0 <= i < files.len() && places(files)[i] == place;
            assert(files.contains(files[i]));
            assert(sorted.contains(files[i]));
            let p = choose|p: int| 0 <= p < sorted.len() && sorted[p] == files[i];
            assert(places(sorted)[p] == place);
        }
    }
}

/// Keeps the session files of a directory listing, those that hold JSON, in the order of their
/// paths.
pub fn legacy_session_paths(files: Vec<SessionFile>) -> (kept: Vec<SessionFile>)
    ensures
        kept@ == ordered::arranged(json_files(files@)),
{
    let mut kept: Vec<SessionFile> = Vec::new();
    let ghost all = files@;
    assert(all.take(0) =~= Seq::<SessionFile>::empty());
    for file in it: files
        invariant
            it.seq() == all,
            kept@ == json_files(all.take(it.index())),
    {
        assert(all.take(it.index() + 1).drop_last() =~= all.take(it.index()));
        assert(all.take(it.index() + 1).last() == file);
        if is_json_file(&file.extension) {
            kept.push(file);
        }
    }
    assert(all.take(all.len() as int) =~= all);
    ordered::arrange(kept)
}

/// Whether a file's name starts with a reference.
pub open spec fn is_match(file: SessionFile, reference: Seq<char>) -> bool {
    file.stem matches Some(stem) && reference.is_prefix_of(stem@)
}

/// The files whose names start with a reference.
pub open spec fn matching(files: Seq<SessionFile>, reference: Seq<char>) -> Seq<SessionFile>
    decreases files.len(),
{
    if files.len() == 0 {
        Seq::empty()
    } else {
        let before = matching(files.drop_last(), reference);
        if is_match(files.last(), reference) {
            before.push(files.last())
        } else {
            before
        }
    }
}

/// Whether a file's name is a reference.
pub open spec fn is_named(file: SessionFile, reference: Seq<char>) -> bool {
    file.stem matches Some(stem) && stem@ == reference
}

/// The files whose name is a reference.
pub open spec fn named(files: Seq<SessionFile>, reference: Seq<char>) -> Seq<SessionFile>
    decreases files.len(),
{
    if files.len() == 0 {
        Seq::empty()
    } else {
        let before = named(files.drop_last(), reference);
        if is_named(files.last(), reference) {
            before.push(files.last())
        } else {
            before
        }
    }
}

/// The files that a reference stands for: those that it names in full, or else all whose names
/// start with it.
pub open spec fn chosen(files: Seq<SessionFile>, reference: Seq<char>) -> Seq<SessionFile> {
    if named(files, reference).len() > 0 {
        named(files, reference)
    } else {
        matching(files, reference)
    }
}

proof fn lemma_named_holds(files: Seq<SessionFile>, reference: Seq<char>, index: int)
    requires
        0 <= index < files.len(),
        is_named(files[index], reference),
    ensures
        named(files, reference).len() > 0,
    decreases files.len(),
{
    if index < files.len() - 1 {
        lemma_named_holds(files.drop_last(), reference, index);
    }
}

proof fn lemma_named_only(files: Seq<SessionFile>, reference: Seq<char>, index: int)
    requires
        0 <= index < files.len(),
        is_named(files[index], reference),
        forall|i: int|
            0 <= i < files.len() && i != index ==> !is_named(#[trigger] files[i], reference),
    ensures
        named(files, reference) == seq![files[index]],
    decreases files.len(),
{
    let shorter = files.drop_last();
    if index < files.len() - 1 {
        assert(!is_named(files[files.len() - 1], reference));
        assert forall|i: int| 0 <= i < shorter.len() && i != index implies !is_named(
            #[trigger] shorter[i],
            reference,
        ) by {
            assert(shorter[i] == files[i]);
        }
        lemma_named_only(shorter, reference, index);
    } else {
        assert forall|i: int| 0 <= i < shorter.len() implies !is_named(
            #[trigger] shorter[i],
            reference,
        ) by {
            assert(shorter[i] == files[i]);
        }
        lemma_none_named(shorter, reference);
        assert(named(files, reference) =~= seq![files[index]]);
    }
}

proof fn lemma_none_named(files: Seq<SessionFile>, reference: Seq<char>)
    requires
        forall|i: int| 0 <= i < files.len() ==> !is_named(#[trigger] files[i], reference),
    ensures
        named(files, reference).len() == 0,
    decreases files.len(),
{
    if files.len() > 0 {
        assert(!is_named(files[files.len() - 1], reference));
        assert forall|i: int| 0 <= i < files.drop_last().len() implies !is_named(
            #[trigger] files.drop_last()[i],
            reference,
        ) by {
            assert(files.drop_last()[i] == files[i]);
        }
        lemma_none_named(files.drop_last(), reference);
    }
}

/// A full identifier chooses the file of that name alone, however many others start with it; where
/// no file has that name, all that start with it are chosen.
pub proof fn law_full_name_is_chosen(files: Seq<SessionFile>, reference: Seq<char>)
    ensures
        forall|index: int|
            0 <= index < files.len() && is_named(#[trigger] files[index], reference) && (forall|
                i: int,
            |
                0 <= i < files.len() && i != index ==> !is_named(#[trigger] files[i], reference))
                ==> chosen(files, reference) == seq![files[index]],
        (forall|i: int| 0 <= i < files.len() ==> !is_named(#[trigger] files[i], reference))
            ==> chosen(files, reference) == matching(files, reference),
{
    assert forall|index: int|
        0 <= index < files.len() && is_named(#[trigger] files[index], reference) && (forall|i: int|
            0 <= i < files.len() && i != index ==> !is_named(
                #[trigger] files[i],
                reference,
            )) implies chosen(files, reference) == seq![files[index]] by {
        lemma_named_only(files, reference, index);
    }
    if forall|i: int| 0 <= i < files.len() ==> !is_named(#[trigger] files[i], reference) {
        lemma_none_named(files, reference);
    }
}

/// Keeps the files that a reference stands for.
pub fn legacy_matches(files: Vec<SessionFile>, reference: &str) -> (kept: Vec<SessionFile>)
    ensures
        kept@ == chosen(files@, reference@),
{
    let ghost all = files@;
    let mut in_full: bool = false;
    let mut index: usize = 0;
    while index < files.len() && !in_full
        invariant
            index <= files.len(),
            all == files@,
            in_full ==> named(all, reference@).len() > 0,
            !in_full ==> forall|i: int|
                0 <= i < index ==> !is_named(#[trigger] all[i], reference@),
        decreases files.len() - index, (if in_full {
            0int
        } else {
            1int
        }),
    {
        if names_file(&files[index], reference) {
            proof {
                lemma_named_holds(all, reference@, index as int);
            }
            in_full = true;
        } else {
            index = index + 1;
        }
    }
    proof {
        if !in_full {
            lemma_none_named(all, reference@);
        }
    }
    let mut kept: Vec<SessionFile> = Vec::new();
    assert(all.take(0) =~= Seq::<SessionFile>::empty());
    for file in it: files
        invariant
            it.seq() == all,
            kept@ == (if in_full {
                named(all.take(it.index()), reference@)
            } else {
                matching(all.take(it.index()), reference@)
            }),
    {
        assert(all.take(it.index() + 1).drop_last() =~= all.take(it.index()));
        assert(all.take(it.index() + 1).last() == file);
        let stands = if in_full {
            names_file(&file, reference)
        } else {
            match &file.stem {
                Some(stem) => text::starts_with(stem.as_str(), reference),
                None => false,
            }
        };
        if stands {
            kept.push(file);
        }
    }
    assert(all.take(all.len() as int) =~= all);
    kept
}

fn names_file(file: &SessionFile, reference: &str) -> (full: bool)
    ensures
        full == is_named(*file, reference@),
{
    match &file.stem {
        Some(stem) => text::same_text(stem.as_str(), reference),
        None => false,
    }
}

/// What a session file says of its session.
#[derive(Debug)]
pub struct SessionRecord {
    /// The session's identifier.
    pub id: Option<String>,
    /// Its title.
    pub title: Option<String>,
    /// The session that it descends from.
    pub parent: Option<String>,
}

/// The contents of a [`SessionRecord`].
#[verifier::ext_equal]
pub struct RecordView {
    /// The session's identifier.
    pub id: Option<Seq<char>>,
    /// Its title.
    pub title: Option<Seq<char>>,
    /// The session that it descends from.
    pub parent: Option<Seq<char>>,
}

impl View for SessionRecord {
    type V = RecordView;

    open spec fn view(&self) -> RecordView {
        RecordView {
            id: json::text_view(self.id),
            title: json::text_view(self.title),
            parent: json::text_view(self.parent),
        }
    }
}

/// The record that a document holds.
pub open spec fn record_of(document: Map<Seq<Seq<char>>, JsonLeaf>) -> RecordView {
    RecordView {
        id: json::string_member(document, "id"@),
        title: json::string_member(document, "title"@),
        parent: json::string_member(document, "parentID"@),
    }
}

/// The record that a session file holds, or what is wrong with its text.
pub open spec fn file_record(content: Seq<char>, location: Seq<char>) -> Result<
    RecordView,
    BillErrorView,
> {
    match json::json_document(content) {
        Ok(document) => Ok(record_of(document)),
        Err(detail) => Err(BillErrorView::InvalidData { location, detail }),
    }
}

/// Reads a session file.
pub fn session_record(content: &str, location: &str) -> (record: Result<SessionRecord, BillError>)
    ensures
        match record {
            Ok(read) => file_record(content@, location@) == Ok::<RecordView, BillErrorView>(read@),
            Err(failure) => file_record(content@, location@) == Err::<RecordView, BillErrorView>(
                failure@,
            ),
        },
{
    let value: Value = match json::read_json(content, location) {
        Ok(value) => value,
        Err(failure) => return Err(failure),
    };
    Ok(
        SessionRecord {
            id: json::string_field(&value, "id"),
            title: json::string_field(&value, "title"),
            parent: json::string_field(&value, "parentID"),
        },
    )
}

/// The identifier and the title that a record must have.
pub open spec fn heading_of(record: RecordView, location: Seq<char>) -> Result<
    (Seq<char>, Seq<char>),
    BillErrorView,
> {
    if !message::is_given(record.id) {
        Err(crate::error::invalid_field_view(location, "id"@))
    } else if !message::is_given(record.title) {
        Err(crate::error::invalid_field_view(location, "title"@))
    } else {
        Ok((record.id->0, record.title->0))
    }
}

/// The identifier and the title of a session.
pub fn session_heading(record: SessionRecord, location: &str) -> (heading: Result<
    (String, String),
    BillError,
>)
    ensures
        match heading {
            Ok((id, title)) => heading_of(record@, location@) == Ok::<
                (Seq<char>, Seq<char>),
                BillErrorView,
            >((id@, title@)),
            Err(failure) => heading_of(record@, location@) == Err::<
                (Seq<char>, Seq<char>),
                BillErrorView,
            >(failure@),
        },
{
    let id = match message::required_string(record.id, "id", location) {
        Ok(id) => id,
        Err(failure) => return Err(failure),
    };
    let title = match message::required_string(record.title, "title", location) {
        Ok(title) => title,
        Err(failure) => return Err(failure),
    };
    Ok((id, title))
}

/// The parents of the sessions, with one record more.
pub open spec fn with_record(
    parents: Map<Seq<char>, Option<Seq<char>>>,
    record: RecordView,
    location: Seq<char>,
) -> Result<Map<Seq<char>, Option<Seq<char>>>, BillErrorView> {
    if message::is_given(record.id) {
        Ok(parents.insert(record.id->0, record.parent))
    } else {
        Err(crate::error::invalid_field_view(location, "id"@))
    }
}

/// The parents that the session files give, each a location and a content; a later file for the
/// same session counts. Where a file cannot be read or used, the first such file is reported.
pub open spec fn parents_from(files: Seq<Result<(String, String), BillError>>) -> Result<
    Map<Seq<char>, Option<Seq<char>>>,
    BillErrorView,
>
    decreases files.len(),
{
    if files.len() == 0 {
        Ok(Map::empty())
    } else {
        match parents_from(files.drop_last()) {
            Err(failure) => Err(failure),
            Ok(parents) => match files.last() {
                Err(failure) => Err(failure@),
                Ok((location, content)) => match file_record(content@, location@) {
                    Err(failure) => Err(failure),
                    Ok(record) => with_record(parents, record, location@),
                },
            },
        }
    }
}

proof fn lemma_parents_failure(files: Seq<Result<(String, String), BillError>>, count: int)
    requires
        0 <= count <= files.len(),
        parents_from(files.take(count)) is Err,
    ensures
        parents_from(files) == parents_from(files.take(count)),
    decreases files.len() - count,
{
    if count < files.len() {
        assert(files.take(count + 1).drop_last() =~= files.take(count));
        lemma_parents_failure(files, count + 1);
    } else {
        assert(files.take(count) =~= files);
    }
}

/// The contents of a map of parents.
pub open spec fn parent_names(
    parents: OrderedMap<String, Option<String>>,
) -> Map<Seq<char>, Option<Seq<char>>> {
    parents@.map_values(|parent: Option<String>| json::text_view(parent))
}

/// Collects the parents that the session files give.
fn session_parents(files: Vec<Result<(String, String), BillError>>) -> (parents: Result<
    OrderedMap<String, Option<String>>,
    BillError,
>)
    ensures
        match parents {
            Ok(found) => found.well_formed() && parents_from(files@) == Ok::<
                Map<Seq<char>, Option<Seq<char>>>,
                BillErrorView,
            >(parent_names(found)),
            Err(failure) => parents_from(files@) == Err::<
                Map<Seq<char>, Option<Seq<char>>>,
                BillErrorView,
            >(failure@),
        },
{
    let mut parents: OrderedMap<String, Option<String>> = OrderedMap::new();
    let ghost all = files@;
    assert(all.take(0) =~= Seq::<Result<(String, String), BillError>>::empty());
    assert(parent_names(parents) =~= Map::<Seq<char>, Option<Seq<char>>>::empty());
    for file in it: files
        invariant
            it.seq() == all,
            all == files@,
            parents.well_formed(),
            parents_from(all.take(it.index())) == Ok::<
                Map<Seq<char>, Option<Seq<char>>>,
                BillErrorView,
            >(parent_names(parents)),
    {
        let ghost index = it.index();
        let ghost before = parents;
        assert(all.take(index + 1).drop_last() =~= all.take(index));
        assert(all.take(index + 1).last() == file);
        match file {
            Err(failure) => {
                proof {
                    lemma_parents_failure(all, index + 1);
                }
                return Err(failure);
            },
            Ok((location, content)) => {
                match session_record(content.as_str(), location.as_str()) {
                    Err(failure) => {
                        proof {
                            lemma_parents_failure(all, index + 1);
                        }
                        return Err(failure);
                    },
                    Ok(record) => {
                        match message::required_string(record.id, "id", location.as_str()) {
                            Err(failure) => {
                                proof {
                                    lemma_parents_failure(all, index + 1);
                                }
                                return Err(failure);
                            },
                            Ok(id) => {
                                let ghost key = id@;
                                parents.insert(id, record.parent);
                                assert(parent_names(parents) =~= parent_names(before).insert(
                                    key,
                                    json::text_view(record.parent),
                                ));
                            },
                        }
                    },
                }
            },
        }
    }
    assert(all.take(all.len() as int) =~= all);
    Ok(parents)
}

/// Whether a session is the root or leads to it over at most `steps` parents.
pub open spec fn leads_to(
    parents: Map<Seq<char>, Option<Seq<char>>>,
    root: Seq<char>,
    id: Seq<char>,
    steps: nat,
) -> bool
    decreases steps,
{
    ||| id == root
    ||| {
        &&& steps > 0
        &&& parents.dom().contains(id)
        &&& parents[id] matches Some(parent)
        &&& leads_to(parents, root, parent, (steps - 1) as nat)
    }
}

/// Whether a session is the root or one of its descendants.
pub open spec fn descends(
    parents: Map<Seq<char>, Option<Seq<char>>>,
    root: Seq<char>,
    id: Seq<char>,
) -> bool {
    exists|steps: nat| #[trigger] leads_to(parents, root, id, steps)
}

/// The root and all its descendants.
pub open spec fn descendants(
    parents: Map<Seq<char>, Option<Seq<char>>>,
    root: Seq<char>,
) -> Set<Seq<char>> {
    Set::new(|id: Seq<char>| descends(parents, root, id))
}

/// Whether a set holds every session whose parent it holds.
pub open spec fn is_closed(
    parents: Map<Seq<char>, Option<Seq<char>>>,
    members: Set<Seq<char>>,
) -> bool {
    forall|id: Seq<char>| #[trigger]
        parents.dom().contains(id) && parents[id] is Some && members.contains(parents[id]->0)
            ==> members.contains(id)
}

/// A closed set that holds the root holds every descendant.
proof fn lemma_closed_holds(
    parents: Map<Seq<char>, Option<Seq<char>>>,
    members: Set<Seq<char>>,
    root: Seq<char>,
    id: Seq<char>,
    steps: nat,
)
    requires
        is_closed(parents, members),
        members.contains(root),
        leads_to(parents, root, id, steps),
    ensures
        members.contains(id),
    decreases steps,
{
    if id != root {
        lemma_closed_holds(parents, members, root, parents[id]->0, (steps - 1) as nat);
    }
}

proof fn lemma_child_descends(
    parents: Map<Seq<char>, Option<Seq<char>>>,
    root: Seq<char>,
    id: Seq<char>,
)
    requires
        parents.dom().contains(id),
        parents[id] is Some,
        descends(parents, root, parents[id]->0),
    ensures
        descends(parents, root, id),
{
    let steps = choose|steps: nat| #[trigger] leads_to(parents, root, parents[id]->0, steps);
    assert(leads_to(parents, root, id, steps + 1));
}

/// The root belongs to its own bill, so does every child of a session that does, and a set with
/// these two properties leaves none out.
pub proof fn law_descendants_least(
    parents: Map<Seq<char>, Option<Seq<char>>>,
    root: Seq<char>,
    members: Set<Seq<char>>,
)
    ensures
        descendants(parents, root).contains(root),
        is_closed(parents, descendants(parents, root)),
        members.contains(root) && is_closed(parents, members) ==> descendants(
            parents,
            root,
        ).subset_of(members),
{
    assert(leads_to(parents, root, root, 0));
    assert forall|id: Seq<char>| #[trigger]
        parents.dom().contains(id) && parents[id] is Some && descendants(parents, root).contains(
            parents[id]->0,
        ) implies descendants(parents, root).contains(id) by {
        lemma_child_descends(parents, root, id);
    }
    if members.contains(root) && is_closed(parents, members) {
        assert forall|id: Seq<char>| descendants(parents, root).contains(
            id,
        ) implies #[trigger] members.contains(id) by {
            let steps = choose|steps: nat| #[trigger] leads_to(parents, root, id, steps);
            lemma_closed_holds(parents, members, root, id, steps);
        }
    }
}

/// Collects the root and all its descendants among the sessions whose parents are given.
pub fn family(parents: &OrderedMap<String, Option<String>>, root_id: &str) -> (members: OrderedMap<
    String,
    (),
>)
    requires
        parents.well_formed(),
    ensures
        members.well_formed(),
        members@.dom() == descendants(parent_names(*parents), root_id@),
{
    let ghost links = parent_names(*parents);
    let ghost root = root_id@;
    let ghost all = parents@.dom().insert(root);
    let mut members: OrderedMap<String, ()> = OrderedMap::new();
    members.insert(root_id.to_owned(), ());
    let total: usize = parents.len();
    proof {
        assert(links.dom() =~= parents@.dom());
        assert(leads_to(links, root, root, 0));
        assert(members@.dom() =~= Set::empty().insert(root));
    }
    let mut changed: bool = true;
    while changed
        invariant
            parents.well_formed(),
            links == parent_names(*parents),
            links.dom() == parents@.dom(),
            parents@.dom().finite(),
            root == root_id@,
            all == parents@.dom().insert(root),
            members.well_formed(),
            members@.dom().contains(root),
            members@.dom().finite(),
            members@.dom().subset_of(all),
            forall|id: Seq<char>| #[trigger]
                members@.dom().contains(id) ==> descends(links, root, id),
            !changed ==> is_closed(links, members@.dom()),
        decreases
                all.len() - members@.dom().len(),
                (if changed {
                    1int
                } else {
                    0int
                }),
    {
        changed = false;
        let ghost start = members@.dom();
        let mut index: usize = 0;
        while index < parents.entries.len()
            invariant
                index <= parents.entries.len(),
                parents.well_formed(),
                links == parent_names(*parents),
                links.dom() == parents@.dom(),
                parents@.dom().finite(),
                root == root_id@,
                all == parents@.dom().insert(root),
                members.well_formed(),
                members@.dom().contains(root),
                members@.dom().finite(),
                members@.dom().subset_of(all),
                forall|id: Seq<char>| #[trigger]
                    members@.dom().contains(id) ==> descends(links, root, id),
                start.finite(),
                start.subset_of(members@.dom()),
                !changed ==> members@.dom() == start,
                changed ==> members@.dom().len() > start.len(),
                !changed ==> forall|j: int|
                    0 <= j < index ==> ({
                        let entry = #[trigger] parents.entries@[j];
                        entry.1 matches Some(parent) && start.contains(parent@) ==> start.contains(
                            entry.0@,
                        )
                    }),
            decreases parents.entries.len() - index,
        {
            let entry = &parents.entries[index];
            proof {
                parents.lemma_entry(index as int);
                assert(links[entry.0@] == json::text_view(entry.1));
            }
            let reached: bool = match &entry.1 {
                Some(parent) => members.contains_key(parent),
                None => false,
            };
            if reached && !members.contains_key(&entry.0) {
                proof {
                    lemma_child_descends(links, root, entry.0@);
                    vstd::set_lib::lemma_len_subset(start, members@.dom());
                }
                let ghost before = members@.dom();
                members.insert(entry.0.clone(), ());
                assert(members@.dom() =~= before.insert(entry.0@));
                changed = true;
            }
            index = index + 1;
        }
        proof {
            if !changed {
                assert forall|id: Seq<char>| #[trigger]
                    links.dom().contains(id) && links[id] is Some && start.contains(
                        links[id]->0,
                    ) implies start.contains(id) by {
                    let j = parents.keys().index_of(id);
                    assert(parents.keys().contains(id));
                    assert(parents.keys()[j] == id);
                    parents.lemma_entry(j);
                    assert(parents.entries@[j].0@ == id);
                }
            }
            vstd::set_lib::lemma_len_subset(members@.dom(), all);
        }
    }
    proof {
        law_descendants_least(links, root, members@.dom());
        assert(members@.dom() =~= descendants(links, root));
    }
    members
}

/// The sessions to bill: the root and its descendants.
pub fn legacy_descendant_ids(
    files: Vec<Result<(String, String), BillError>>,
    root_id: &str,
) -> (members: Result<OrderedMap<String, ()>, BillError>)
    ensures
        match members {
            Ok(found) => {
                &&& found.well_formed()
                &&& parents_from(files@) matches Ok(parents)
                &&& found@.dom() == descendants(parents, root_id@)
            },
            Err(failure) => parents_from(files@) == Err::<
                Map<Seq<char>, Option<Seq<char>>>,
                BillErrorView,
            >(failure@),
        },
{
    match session_parents(files) {
        Ok(parents) => Ok(family(&parents, root_id)),
        Err(failure) => Err(failure),
    }
}

/// A file as it was found.
#[derive(Debug)]
pub struct StoredFile {
    /// Its path, as shown to the user.
    pub location: String,
    /// Its text.
    pub content: Result<String, BillError>,
}

/// The contents of a [`StoredFile`].
#[verifier::ext_equal]
pub struct FileView {
    /// Its path.
    pub location: Seq<char>,
    /// Its text.
    pub content: Result<Seq<char>, BillErrorView>,
}

impl View for StoredFile {
    type V = FileView;

    open spec fn view(&self) -> FileView {
        FileView {
            location: self.location@,
            content: match self.content {
                Ok(content) => Ok(content@),
                Err(failure) => Err(failure@),
            },
        }
    }
}

/// The contents of a list of files.
pub open spec fn file_views(files: Seq<StoredFile>) -> Seq<FileView> {
    files.map_values(|file: StoredFile| file@)
}

/// The order of two files at the same location: one that cannot be read comes first, else the texts
/// decide.
pub open spec fn content_before(
    left: Result<Seq<char>, BillErrorView>,
    right: Result<Seq<char>, BillErrorView>,
) -> bool {
    match (left, right) {
        (Err(_), Ok(_)) => true,
        (Ok(a), Ok(b)) => text::text_before(a, b),
        _ => false,
    }
}

/// The order of two files: by their locations, and at the same location by their contents.
pub open spec fn file_before(left: FileView, right: FileView) -> bool {
    text::text_before(left.location, right.location) || (left.location == right.location
        && content_before(left.content, right.content))
}

proof fn lemma_file_asymmetric(left: FileView, right: FileView)
    requires
        file_before(left, right),
    ensures
        !file_before(right, left),
{
    text::lemma_text_irreflexive(left.location);
    if text::text_before(left.location, right.location) && text::text_before(
        right.location,
        left.location,
    ) {
        text::lemma_text_transitive(left.location, right.location, left.location);
    }
    if let (Ok(a), Ok(b)) = (left.content, right.content) {
        text::lemma_text_irreflexive(a);
        if text::text_before(a, b) && text::text_before(b, a) {
            text::lemma_text_transitive(a, b, a);
        }
    }
}

proof fn lemma_file_chained(first: FileView, second: FileView, third: FileView)
    requires
        !file_before(second, first),
        !file_before(third, second),
    ensures
        !file_before(third, first),
{
    if file_before(third, first) {
        text::lemma_text_total(second.location, third.location);
        if text::text_before(second.location, third.location) && text::text_before(
            third.location,
            first.location,
        ) {
            text::lemma_text_transitive(second.location, third.location, first.location);
        }
        if let (Ok(a), Ok(b), Ok(c)) = (first.content, second.content, third.content) {
            text::lemma_text_total(b, c);
            if text::text_before(b, c) && text::text_before(c, a) {
                text::lemma_text_transitive(b, c, a);
            }
        }
    }
}

impl Ranked for StoredFile {
    open spec fn comes_before(self, other: StoredFile) -> bool {
        file_before(self@, other@)
    }

    proof fn asymmetric(left: StoredFile, right: StoredFile) {
        lemma_file_asymmetric(left@, right@);
    }

    proof fn chained(first: StoredFile, second: StoredFile, third: StoredFile) {
        lemma_file_chained(first@, second@, third@);
    }

    fn before(&self, other: &StoredFile) -> (first: bool) {
        proof {
            text::lemma_text_irreflexive(self.location@);
            if text::text_before(self.location@, other.location@) && text::text_before(
                other.location@,
                self.location@,
            ) {
                text::lemma_text_transitive(self.location@, other.location@, self.location@);
            }
        }
        match text::order(self.location.as_str(), other.location.as_str()) {
            Placement::Before => true,
            Placement::After => false,
            Placement::Same => match (&self.content, &other.content) {
                (Err(_), Ok(_)) => true,
                (Ok(left), Ok(right)) => {
                    proof {
                        text::lemma_text_irreflexive(left@);
                        if text::text_before(left@, right@) && text::text_before(right@, left@) {
                            text::lemma_text_transitive(left@, right@, left@);
                        }
                    }
                    match text::order(left.as_str(), right.as_str()) {
                        Placement::Before => true,
                        _ => false,
                    }
                },
                _ => false,
            },
        }
    }
}

/// The usage that message files report, one after another; or the first of them that could not be
/// read or holds an unusable message.
pub open spec fn file_messages(files: Seq<FileView>, session_id: Seq<char>) -> Result<
    Seq<MessageView>,
    BillErrorView,
>
    decreases files.len(),
{
    if files.len() == 0 {
        Ok(Seq::empty())
    } else {
        match file_messages(files.drop_last(), session_id) {
            Err(failure) => Err(failure),
            Ok(messages) => match files.last().content {
                Err(failure) => Err(failure),
                Ok(content) => session::extended(
                    messages,
                    message::parse_outcome(content, files.last().location, session_id, None),
                ),
            },
        }
    }
}

/// The usage that a session's message files report. They are read in the order of their locations,
/// however the directory lists them.
pub open spec fn listing_messages(files: Seq<StoredFile>, session_id: Seq<char>) -> Result<
    Seq<MessageView>,
    BillErrorView,
> {
    file_messages(file_views(ordered::arranged(files)), session_id)
}

proof fn lemma_file_messages_failure(files: Seq<FileView>, session_id: Seq<char>, count: int)
    requires
        0 <= count <= files.len(),
        file_messages(files.take(count), session_id) is Err,
    ensures
        file_messages(files, session_id) == file_messages(files.take(count), session_id),
    decreases files.len() - count,
{
    if count < files.len() {
        assert(files.take(count + 1).drop_last() =~= files.take(count));
        lemma_file_messages_failure(files, session_id, count + 1);
    } else {
        assert(files.take(count) =~= files);
    }
}

/// Reads the message files of one session, in the order of their locations.
pub fn legacy_messages(files: Vec<StoredFile>, session_id: &str) -> (messages: Result<
    Vec<MessageUsage>,
    BillError,
>)
    ensures
        match messages {
            Ok(read) => {
                &&& listing_messages(files@, session_id@) == Ok::<Seq<MessageView>, BillErrorView>(
                    usage::message_views(read@),
                )
                &&& usage::all_priced(usage::message_views(read@))
            },
            Err(failure) => listing_messages(files@, session_id@) == Err::<
                Seq<MessageView>,
                BillErrorView,
            >(failure@),
        },
{
    let sorted = ordered::arrange(files);
    let mut messages: Vec<MessageUsage> = Vec::new();
    let ghost all = sorted@;
    let ghost views = file_views(all);
    assert(views.take(0) =~= Seq::<FileView>::empty());
    assert(usage::message_views(messages@) =~= Seq::<MessageView>::empty());
    for file in it: sorted
        invariant
            it.seq() == all,
            all == ordered::arranged(files@),
            views == file_views(all),
            usage::all_priced(usage::message_views(messages@)),
            file_messages(views.take(it.index()), session_id@) == Ok::<
                Seq<MessageView>,
                BillErrorView,
            >(usage::message_views(messages@)),
    {
        let ghost index = it.index();
        assert(views.take(index + 1).drop_last() =~= views.take(index));
        assert(views.take(index + 1).last() == file@);
        match file.content {
            Ok(content) => {
                let outcome = message::parse_message(
                    content.as_str(),
                    file.location.as_str(),
                    session_id,
                    None,
                );
                match session::keep(&mut messages, outcome) {
                    Ok(_) => {},
                    Err(failure) => {
                        proof {
                            lemma_file_messages_failure(views, session_id@, index + 1);
                        }
                        return Err(failure);
                    },
                }
            },
            Err(failure) => {
                proof {
                    lemma_file_messages_failure(views, session_id@, index + 1);
                }
                return Err(failure);
            },
        }
    }
    assert(views.take(views.len() as int) =~= views);
    Ok(messages)
}

/// Whether a file can be read and holds no unusable message.
pub open spec fn is_usable(file: FileView, session_id: Seq<char>) -> bool {
    file.content matches Ok(content) && message::parse_outcome(
        content,
        file.location,
        session_id,
        None,
    ) is Ok
}

proof fn lemma_all_usable(files: Seq<FileView>, session_id: Seq<char>)
    ensures
        file_messages(files, session_id) is Ok <==> forall|i: int|
            0 <= i < files.len() ==> is_usable(#[trigger] files[i], session_id),
    decreases files.len(),
{
    if files.len() > 0 {
        let shorter = files.drop_last();
        lemma_all_usable(shorter, session_id);
        assert(files[files.len() - 1] == files.last());
        assert(forall|i: int| 0 <= i < shorter.len() ==> #[trigger] shorter[i] == files[i]);
        if file_messages(files, session_id) is Ok {
            assert forall|i: int| 0 <= i < files.len() implies is_usable(
                #[trigger] files[i],
                session_id,
            ) by {
                if i < shorter.len() {
                    assert(is_usable(shorter[i], session_id));
                }
            }
        } else if forall|i: int| 0 <= i < files.len() ==> is_usable(#[trigger] files[i], session_id) {
            assert forall|i: int| 0 <= i < shorter.len() implies is_usable(
                #[trigger] shorter[i],
                session_id,
            ) by {
                assert(is_usable(files[i], session_id));
            }
            assert(is_usable(files[files.len() - 1], session_id));
        }
    }
}

proof fn lemma_placed_views(items: Seq<StoredFile>, item: StoredFile)
    ensures
        file_views(ordered::placed(items, item)).to_multiset() == file_views(
            items,
        ).to_multiset().insert(item@),
    decreases items.len(),
{
    broadcast use vstd::seq_lib::group_to_multiset_ensures;

    if items.len() == 0 || !item.comes_before(items.last()) {
        assert(file_views(items.push(item)) =~= file_views(items).push(item@));
    } else {
        let shorter = items.drop_last();
        lemma_placed_views(shorter, item);
        let front = ordered::placed(shorter, item);
        assert(file_views(front.push(items.last())) =~= file_views(front).push(items.last()@));
        assert(file_views(items) =~= file_views(shorter).push(items.last()@));
        assert(file_views(ordered::placed(items, item)).to_multiset() =~= file_views(
            items,
        ).to_multiset().insert(item@));
    }
}

proof fn lemma_arranged_views(files: Seq<StoredFile>)
    ensures
        file_views(ordered::arranged(files)).to_multiset() == file_views(files).to_multiset(),
    decreases files.len(),
{
    broadcast use vstd::seq_lib::group_to_multiset_ensures;

    if files.len() == 0 {
        assert(file_views(ordered::arranged(files)) =~= file_views(files));
    } else {
        lemma_arranged_views(files.drop_last());
        lemma_placed_views(ordered::arranged(files.drop_last()), files.last());
        assert(file_views(files) =~= file_views(files.drop_last()).push(files.last()@));
    }
}

spec fn views_in_order(files: Seq<FileView>) -> bool {
    forall|i: int, j: int|
        0 <= i < j < files.len() ==> !file_before(#[trigger] files[j], #[trigger] files[i])
}

spec fn all_readable(files: Seq<FileView>) -> bool {
    forall|i: int| 0 <= i < files.len() ==> (#[trigger] files[i]).content is Ok
}

/// Readable files have one order.
proof fn lemma_order_unique(left: Seq<FileView>, right: Seq<FileView>)
    requires
        left.to_multiset() == right.to_multiset(),
        views_in_order(left),
        views_in_order(right),
        all_readable(left),
        all_readable(right),
    ensures
        left == right,
    decreases left.len(),
{
    broadcast use vstd::seq_lib::group_to_multiset_ensures;

    assert(left.len() == left.to_multiset().len());
    assert(right.len() == right.to_multiset().len());
    if left.len() == 0 {
        assert(left =~= right);
    } else {
        let (a, b) = (left[0], right[0]);
        assert(left.contains(a));
        assert(right.contains(b));
        assert(right.to_multiset().count(a) > 0);
        assert(left.to_multiset().count(b) > 0);
        assert(right.contains(a));
        assert(left.contains(b));
        let p = choose|p: int| 0 <= p < right.len() && right[p] == a;
        let q = choose|q: int| 0 <= q < left.len() && left[q] == b;
        if a != b {
            assert(!file_before(right[p], right[0]));
            assert(!file_before(left[q], left[0]));
            text::lemma_text_total(a.location, b.location);
            text::lemma_text_total(a.content->Ok_0, b.content->Ok_0);
        }
        let (x, y) = (left.remove(0), right.remove(0));
        assert(x.to_multiset() =~= y.to_multiset());
        assert forall|i: int, j: int| 0 <= i < j < x.len() implies !file_before(
            #[trigger] x[j],
            #[trigger] x[i],
        ) by {
            assert(x[j] == left[j + 1] && x[i] == left[i + 1]);
        }
        assert forall|i: int, j: int| 0 <= i < j < y.len() implies !file_before(
            #[trigger] y[j],
            #[trigger] y[i],
        ) by {
            assert(y[j] == right[j + 1] && y[i] == right[i + 1]);
        }
        lemma_order_unique(x, y);
        assert(left =~= seq![a] + x);
        assert(right =~= seq![b] + y);
    }
}

proof fn lemma_usable_members(
    left: Seq<FileView>,
    right: Seq<FileView>,
    session_id: Seq<char>,
)
    requires
        left.to_multiset() == right.to_multiset(),
        forall|i: int| 0 <= i < left.len() ==> is_usable(#[trigger] left[i], session_id),
    ensures
        forall|i: int| 0 <= i < right.len() ==> is_usable(#[trigger] right[i], session_id),
{
    broadcast use vstd::seq_lib::group_to_multiset_ensures;

    assert forall|i: int| 0 <= i < right.len() implies is_usable(
        #[trigger] right[i],
        session_id,
    ) by {
        assert(right.contains(right[i]));
        assert(left.to_multiset().count(right[i]) > 0);
        assert(left.contains(right[i]));
    }
}

/// The order in which a directory lists its files does not matter: two listings of the same files
/// give the same messages, or both fail.
pub proof fn law_listing_order_is_irrelevant(
    left: Seq<StoredFile>,
    right: Seq<StoredFile>,
    session_id: Seq<char>,
)
    requires
        file_views(left).to_multiset() == file_views(right).to_multiset(),
    ensures
        listing_messages(left, session_id) is Ok <==> listing_messages(right, session_id) is Ok,
        listing_messages(left, session_id) is Ok ==> listing_messages(left, session_id)
            == listing_messages(right, session_id),
{
    let (x, y) = (file_views(ordered::arranged(left)), file_views(ordered::arranged(right)));
    lemma_arranged_views(left);
    lemma_arranged_views(right);
    lemma_all_usable(x, session_id);
    lemma_all_usable(y, session_id);
    if file_messages(x, session_id) is Ok {
        lemma_usable_members(x, y, session_id);
    }
    if file_messages(y, session_id) is Ok {
        lemma_usable_members(y, x, session_id);
    }
    if file_messages(x, session_id) is Ok {
        ordered::law_arranged(left);
        ordered::law_arranged(right);
        assert forall|i: int, j: int| 0 <= i < j < x.len() implies !file_before(
            #[trigger] x[j],
            #[trigger] x[i],
        ) by {
            assert(!ordered::arranged(left)[j].comes_before(ordered::arranged(left)[i]));
        }
        assert forall|i: int, j: int| 0 <= i < j < y.len() implies !file_before(
            #[trigger] y[j],
            #[trigger] y[i],
        ) by {
            assert(!ordered::arranged(right)[j].comes_before(ordered::arranged(right)[i]));
        }
        assert forall|i: int| 0 <= i < x.len() implies (#[trigger] x[i]).content is Ok by {
            assert(is_usable(x[i], session_id));
        }
        assert forall|i: int| 0 <= i < y.len() implies (#[trigger] y[i]).content is Ok by {
            assert(is_usable(y[i], session_id));
        }
        lemma_order_unique(x, y);
    }
}

/// The usage of several sessions, one after another, or the first failure. The sessions' message
/// files stand in the order of the sessions.
pub open spec fn sessions_messages(ids: Seq<Seq<char>>, files: Seq<Vec<StoredFile>>) -> Result<
    Seq<MessageView>,
    BillErrorView,
>
    decreases files.len(),
{
    if files.len() == 0 {
        Ok(Seq::empty())
    } else {
        match sessions_messages(ids, files.drop_last()) {
            Err(failure) => Err(failure),
            Ok(messages) => match listing_messages(files.last()@, ids[files.len() - 1]) {
                Err(failure) => Err(failure),
                Ok(more) => Ok(messages + more),
            },
        }
    }
}

proof fn lemma_sessions_failure(
    ids: Seq<Seq<char>>,
    files: Seq<Vec<StoredFile>>,
    count: int,
)
    requires
        0 <= count <= files.len(),
        sessions_messages(ids, files.take(count)) is Err,
    ensures
        sessions_messages(ids, files) == sessions_messages(ids, files.take(count)),
    decreases files.len() - count,
{
    if count < files.len() {
        assert(files.take(count + 1).drop_last() =~= files.take(count));
        lemma_sessions_failure(ids, files, count + 1);
    } else {
        assert(files.take(count) =~= files);
    }
}

/// The session that the files describe, or the first file that fails.
pub open spec fn legacy_outcome(
    id: Seq<char>,
    title: Seq<char>,
    members: Set<Seq<char>>,
    files: Seq<Vec<StoredFile>>,
) -> Result<SessionView, BillErrorView> {
    match sessions_messages(ordered::sorted::<String>(members), files) {
        Err(failure) => Err(failure),
        Ok(messages) => Ok(
            SessionView {
                id,
                title,
                session_count: members.len(),
                session_agents: Map::empty(),
                messages,
            },
        ),
    }
}

/// Whether two readings of the message directories found the same files, session by session, in
/// whatever order.
pub open spec fn same_listings(
    left: Seq<Vec<StoredFile>>,
    right: Seq<Vec<StoredFile>>,
) -> bool {
    &&& left.len() == right.len()
    &&& forall|i: int|
        0 <= i < left.len() ==> file_views((#[trigger] left[i])@).to_multiset() == file_views(
            right[i]@,
        ).to_multiset()
}

proof fn lemma_same_listings(
    ids: Seq<Seq<char>>,
    left: Seq<Vec<StoredFile>>,
    right: Seq<Vec<StoredFile>>,
)
    requires
        same_listings(left, right),
    ensures
        sessions_messages(ids, left) is Ok <==> sessions_messages(ids, right) is Ok,
        sessions_messages(ids, left) is Ok ==> sessions_messages(ids, left) == sessions_messages(
            ids,
            right,
        ),
    decreases left.len(),
{
    if left.len() > 0 {
        let (x, y) = (left.drop_last(), right.drop_last());
        assert forall|i: int| 0 <= i < x.len() implies file_views(
            (#[trigger] x[i])@,
        ).to_multiset() == file_views(y[i]@).to_multiset() by {
            assert(x[i] == left[i] && y[i] == right[i]);
        }
        lemma_same_listings(ids, x, y);
        assert(left[left.len() - 1] == left.last());
        law_listing_order_is_irrelevant(left.last()@, right.last()@, ids[left.len() - 1]);
    }
}

/// A session comes out the same however the directories list its message files, or it fails either
/// way.
pub proof fn law_session_is_deterministic(
    id: Seq<char>,
    title: Seq<char>,
    members: Set<Seq<char>>,
    left: Seq<Vec<StoredFile>>,
    right: Seq<Vec<StoredFile>>,
)
    requires
        same_listings(left, right),
    ensures
        legacy_outcome(id, title, members, left) is Ok <==> legacy_outcome(
            id,
            title,
            members,
            right,
        ) is Ok,
        legacy_outcome(id, title, members, left) is Ok ==> legacy_outcome(id, title, members, left)
            == legacy_outcome(id, title, members, right),
{
    lemma_same_listings(ordered::sorted::<String>(members), left, right);
}

/// Puts together a session from the message files of the billed sessions, which stand in the order
/// of these.
pub fn load_legacy_session(
    id: String,
    title: String,
    members: &OrderedMap<String, ()>,
    files: Vec<Vec<StoredFile>>,
) -> (session: Result<SessionData, BillError>)
    requires
        members.well_formed(),
        files.len() == members.entries.len(),
    ensures
        session::is_session(session, legacy_outcome(id@, title@, members@.dom(), files@)),
{
    let session_count: usize = members.len();
    let mut messages: Vec<MessageUsage> = Vec::new();
    let ghost all = files@;
    let ghost ids = ordered::sorted::<String>(members@.dom());
    proof {
        members.lemma_keys_sorted();
    }
    assert(all.take(0) =~= Seq::<Vec<StoredFile>>::empty());
    assert(usage::message_views(messages@) =~= Seq::<MessageView>::empty());
    let mut index: usize = 0;
    for group in it: files
        invariant
            it.seq() == all,
            all == files@,
            index == it.index(),
            ids == ordered::sorted::<String>(members@.dom()),
            members.keys() == ids,
            all.len() == members.entries.len(),
            usage::all_priced(usage::message_views(messages@)),
            sessions_messages(ids, all.take(it.index())) == Ok::<Seq<MessageView>, BillErrorView>(
                usage::message_views(messages@),
            ),
    {
        assert(all.take(index + 1).drop_last() =~= all.take(index as int));
        assert(all.take(index + 1).last() == group);
        assert(members.keys()[index as int] == members.entries@[index as int].0@);
        match legacy_messages(group, members.entries[index].0.as_str()) {
            Ok(read) => {
                let ghost before = usage::message_views(messages@);
                let mut more = read;
                messages.append(&mut more);
                assert(usage::message_views(messages@) =~= before + usage::message_views(read@));
            },
            Err(failure) => {
                proof {
                    lemma_sessions_failure(ids, all, index + 1);
                }
                return Err(failure);
            },
        }
        index = index + 1;
    }
    assert(all.take(all.len() as int) =~= all);
    let session_agents: OrderedMap<String, String> = OrderedMap::new();
    assert(usage::agent_names(session_agents) =~= Map::<Seq<char>, Seq<char>>::empty());
    Ok(SessionData { id, title, session_count, session_agents, messages })
}

/// The session files are those whose extension is `json`, and no others, in the order in which they
/// were listed.
pub proof fn law_json_files(files: Seq<SessionFile>)
    ensures
        json_files(files) == files.filter(
            |file: SessionFile| file.extension is Some && file.extension->0@ == "json"@,
        ),
    decreases files.len(),
{
    reveal(Seq::filter);
    if files.len() > 0 {
        law_json_files(files.drop_last());
    } else {
        assert(json_files(files) =~= files);
    }
}

/// Paths come in the order of the bytes of their directories, and in one directory in that of the
/// bytes of their names.
pub proof fn law_path_order(left: SessionFile, right: SessionFile)
    ensures
        left.comes_before(right) <==> if left.place.directory@ == right.place.directory@ {
            text::bytes_before(left.place.name@, right.place.name@)
        } else {
            text::bytes_before(left.place.directory@, right.place.directory@)
        },
{
    text::lemma_bytes_irreflexive(left.place.directory@);
}

proof fn lemma_named_filter(files: Seq<SessionFile>, reference: Seq<char>)
    ensures
        named(files, reference) == files.filter(
            |file: SessionFile| file.stem is Some && file.stem->0@ == reference,
        ),
    decreases files.len(),
{
    reveal(Seq::filter);
    if files.len() > 0 {
        lemma_named_filter(files.drop_last(), reference);
    } else {
        assert(named(files, reference) =~= files);
    }
}

proof fn lemma_matching_filter(files: Seq<SessionFile>, reference: Seq<char>)
    ensures
        matching(files, reference) == files.filter(
            |file: SessionFile|
                file.stem is Some && file.stem->0@.len() >= reference.len() && (forall|i: int|
                    0 <= i < reference.len() ==> #[trigger] reference[i] == file.stem->0@[i]),
        ),
    decreases files.len(),
{
    reveal(Seq::filter);
    if files.len() > 0 {
        lemma_matching_filter(files.drop_last(), reference);
        if let Some(stem) = files.last().stem {
            if reference.len() <= stem@.len() {
                let front = stem@.subrange(0, reference.len() as int);
                if reference.is_prefix_of(stem@) {
                    assert forall|i: int| 0 <= i < reference.len() implies #[trigger] reference[i]
                        == stem@[i] by {
                        assert(front[i] == stem@[i]);
                    }
                }
                if forall|i: int| 0 <= i < reference.len() ==> #[trigger] reference[i] == stem@[i] {
                    assert(front =~= reference);
                }
            }
        }
    } else {
        assert(matching(files, reference) =~= files);
    }
}

/// A reference chooses the files that bear it as their full name, where there are any; otherwise
/// those whose names have the whole of it, character by character, at their start. They stay in
/// their order, and no other file is chosen.
pub proof fn law_chosen_files(files: Seq<SessionFile>, reference: Seq<char>)
    ensures
        (exists|i: int|
            0 <= i < files.len() && (#[trigger] files[i]).stem is Some && files[i].stem->0@
                == reference) ==> chosen(files, reference) == files.filter(
            |file: SessionFile| file.stem is Some && file.stem->0@ == reference,
        ),
        (forall|i: int|
            0 <= i < files.len() && (#[trigger] files[i]).stem is Some ==> files[i].stem->0@
                != reference) ==> chosen(files, reference) == files.filter(
            |file: SessionFile|
                file.stem is Some && file.stem->0@.len() >= reference.len() && (forall|i: int|
                    0 <= i < reference.len() ==> #[trigger] reference[i] == file.stem->0@[i]),
        ),
{
    lemma_named_filter(files, reference);
    lemma_matching_filter(files, reference);
    if exists|i: int|
        0 <= i < files.len() && (#[trigger] files[i]).stem is Some && files[i].stem->0@ == reference {
        let i = choose|i: int|
            0 <= i < files.len() && (#[trigger] files[i]).stem is Some && files[i].stem->0@
                == reference;
        lemma_named_holds(files, reference, i);
    } else {
        assert forall|i: int| 0 <= i < files.len() implies !is_named(
            #[trigger] files[i],
            reference,
        ) by {}
        lemma_none_named(files, reference);
    }
}

/// Where no file bears the reference as its full name, a file is chosen exactly where its name has
/// every character of the reference at its start; a name that is shorter or differs in any of them
/// is not.
pub proof fn law_prefixes_are_whole(
    files: Seq<SessionFile>,
    reference: Seq<char>,
    file: SessionFile,
)
    requires
        forall|i: int|
            0 <= i < files.len() && (#[trigger] files[i]).stem is Some ==> files[i].stem->0@
                != reference,
    ensures
        chosen(files, reference).contains(file) <==> {
            &&& files.contains(file)
            &&& file.stem is Some
            &&& file.stem->0@.len() >= reference.len()
            &&& forall|i: int| 0 <= i < reference.len() ==> #[trigger] reference[i] == file.stem->0@[i]
        },
{
    law_chosen_files(files, reference);
    let starts = |candidate: SessionFile|
        candidate.stem is Some && candidate.stem->0@.len() >= reference.len() && (forall|i: int|
            0 <= i < reference.len() ==> #[trigger] reference[i] == candidate.stem->0@[i]);
    let kept = chosen(files, reference);
    assert(kept == files.filter(starts));
    if kept.contains(file) {
        files.lemma_filter_contains_rev(starts, file);
        let i = choose|i: int| 0 <= i < kept.len() && kept[i] == file;
        files.lemma_filter_pred(starts, i);
    }
    if files.contains(file) && starts(file) {
        let i = choose|i: int| 0 <= i < files.len() && files[i] == file;
        files.lemma_filter_contains(starts, i);
    }
}

/// The record of a session is what stands under `id`, `title` and `parentID`; a file that is no
/// document is reported with its location.
pub proof fn law_session_records(content: Seq<char>, location: Seq<char>)
    ensures
        match json::json_document(content) {
            Ok(document) => file_record(content, location) matches Ok(record) && {
                &&& record.id == json::leaf_text(document, seq!["id"@])
                &&& record.title == json::leaf_text(document, seq!["title"@])
                &&& record.parent == json::leaf_text(document, seq!["parentID"@])
            },
            Err(detail) => file_record(content, location) == Err::<RecordView, BillErrorView>(
                BillErrorView::InvalidData { location, detail },
            ),
        },
{
    if let Ok(document) = json::json_document(content) {
        json::law_member_values(document, "id"@);
        json::law_member_values(document, "title"@);
        json::law_member_values(document, "parentID"@);
    }
}

/// A session to bill has an identifier and a title, neither of them empty; the first that is missing
/// is reported.
pub proof fn law_session_headings(record: RecordView, location: Seq<char>)
    ensures
        match heading_of(record, location) {
            Ok((id, title)) => {
                &&& record.id == Some(id) && id.len() > 0
                &&& record.title == Some(title) && title.len() > 0
            },
            Err(failure) => {
                let id_missing = record.id is None || record.id->0.len() == 0;
                &&& id_missing || record.title is None || record.title->0.len() == 0
                &&& failure == (BillErrorView::InvalidData {
                    location,
                    detail: "missing or invalid '"@ + (if id_missing {
                        "id"@
                    } else {
                        "title"@
                    }) + "'"@,
                })
            },
        },
{
}

/// Every session file adds the parent of its session, and a later one for the same session replaces
/// it. The first file that cannot be read, is no document or has no identifier ends the reading.
pub proof fn law_session_parents(
    files: Seq<Result<(String, String), BillError>>,
    file: Result<(String, String), BillError>,
)
    ensures
        parents_from(Seq::empty()) == Ok::<Map<Seq<char>, Option<Seq<char>>>, BillErrorView>(
            Map::empty(),
        ),
        match parents_from(files) {
            Err(failure) => parents_from(files.push(file)) == parents_from(files),
            Ok(parents) => match file {
                Err(failure) => parents_from(files.push(file)) == Err::<
                    Map<Seq<char>, Option<Seq<char>>>,
                    BillErrorView,
                >(failure@),
                Ok((location, content)) => match file_record(content@, location@) {
                    Err(failure) => parents_from(files.push(file)) == Err::<
                        Map<Seq<char>, Option<Seq<char>>>,
                        BillErrorView,
                    >(failure),
                    Ok(record) => if record.id is Some && record.id->0.len() > 0 {
                        parents_from(files.push(file)) == Ok::<
                            Map<Seq<char>, Option<Seq<char>>>,
                            BillErrorView,
                        >(parents.insert(record.id->0, record.parent))
                    } else {
                        parents_from(files.push(file)) == Err::<
                            Map<Seq<char>, Option<Seq<char>>>,
                            BillErrorView,
                        >(
                            BillErrorView::InvalidData {
                                location: location@,
                                detail: "missing or invalid '"@ + "id"@ + "'"@,
                            },
                        )
                    },
                },
            },
        },
{
    assert(files.push(file).drop_last() =~= files);
    assert(files.push(file).last() == file);
}

/// Billed with a session are the session itself, every session whose parent is billed, and no other:
/// any set with the first two of these properties holds them all, and whatever is billed beside the
/// root has a billed parent.
pub proof fn law_billed_sessions(
    parents: Map<Seq<char>, Option<Seq<char>>>,
    root: Seq<char>,
    members: Set<Seq<char>>,
    id: Seq<char>,
)
    ensures
        descendants(parents, root).contains(root),
        parents.dom().contains(id) && parents[id] is Some && descendants(parents, root).contains(
            parents[id]->0,
        ) ==> descendants(parents, root).contains(id),
        descendants(parents, root).contains(id) && id != root ==> parents.dom().contains(id)
            && parents[id] is Some && descendants(parents, root).contains(parents[id]->0),
        members.contains(root) && (forall|child: Seq<char>| #[trigger]
            parents.dom().contains(child) && parents[child] is Some && members.contains(
                parents[child]->0,
            ) ==> members.contains(child)) && descendants(parents, root).contains(id)
            ==> members.contains(id),
{
    law_descendants_least(parents, root, members);
    if descendants(parents, root).contains(id) && id != root {
        let steps = choose|steps: nat| #[trigger] leads_to(parents, root, id, steps);
        assert(leads_to(parents, root, parents[id]->0, (steps - 1) as nat));
    }
}

/// Message files come in the order of their locations. At the same location one that cannot be read
/// comes before one that can, and two that can come in the order of their texts.
pub proof fn law_file_order(left: StoredFile, right: StoredFile)
    ensures
        left.comes_before(right) <==> if left.location@ != right.location@ {
            text::text_before(left.location@, right.location@)
        } else {
            match (left.content, right.content) {
                (Err(_), Ok(_)) => true,
                (Ok(a), Ok(b)) => text::text_before(a@, b@),
                _ => false,
            }
        },
{
    text::lemma_text_irreflexive(left.location@);
}

proof fn lemma_arranged_kept(files: Seq<StoredFile>)
    requires
        ordered::in_order(files),
    ensures
        ordered::arranged(files) == files,
    decreases files.len(),
{
    if files.len() > 0 {
        let shorter = files.drop_last();
        assert forall|i: int, j: int| 0 <= i < j < shorter.len() implies !(
        #[trigger] shorter[j]).comes_before(#[trigger] shorter[i]) by {
            assert(shorter[j] == files[j] && shorter[i] == files[i]);
        }
        lemma_arranged_kept(shorter);
        if shorter.len() > 0 {
            assert(!files[files.len() - 1].comes_before(files[files.len() - 2]));
            assert(shorter.last() == files[files.len() - 2]);
        }
        assert(shorter.push(files.last()) =~= files);
    } else {
        assert(ordered::arranged(files) =~= files);
    }
}

/// Message files that stand in their order are read as they stand.
pub proof fn law_ordered_files(files: Seq<StoredFile>, session_id: Seq<char>)
    requires
        forall|i: int, j: int|
            0 <= i < j < files.len() ==> !(#[trigger] files[j]).comes_before(#[trigger] files[i]),
    ensures
        listing_messages(files, session_id) == file_messages(file_views(files), session_id),
{
    lemma_arranged_kept(files);
}

/// A message file adds its message behind those before it where it reports usage, and nothing where
/// it does not. The first that cannot be read or used ends the reading. The agent is not told by
/// the session.
pub proof fn law_message_files(files: Seq<FileView>, file: FileView, session_id: Seq<char>)
    ensures
        file_messages(Seq::empty(), session_id) == Ok::<Seq<MessageView>, BillErrorView>(
            Seq::empty(),
        ),
        match file_messages(files, session_id) {
            Err(_) => file_messages(files.push(file), session_id) == file_messages(
                files,
                session_id,
            ),
            Ok(messages) => match file.content {
                Err(failure) => file_messages(files.push(file), session_id) == Err::<
                    Seq<MessageView>,
                    BillErrorView,
                >(failure),
                Ok(content) => match message::parse_outcome(
                    content,
                    file.location,
                    session_id,
                    None,
                ) {
                    Err(failure) => file_messages(files.push(file), session_id) == Err::<
                        Seq<MessageView>,
                        BillErrorView,
                    >(failure),
                    Ok(Some(message)) => file_messages(files.push(file), session_id) == Ok::<
                        Seq<MessageView>,
                        BillErrorView,
                    >(messages.push(message)),
                    Ok(None) => file_messages(files.push(file), session_id) == file_messages(
                        files,
                        session_id,
                    ),
                },
            },
        },
{
    assert(files.push(file).drop_last() =~= files);
    assert(files.push(file).last() == file);
}

/// The message files of each session are read for that session, and its messages stand behind those
/// of the sessions before it; the first failure ends the reading.
pub proof fn law_session_messages(
    ids: Seq<Seq<char>>,
    groups: Seq<Vec<StoredFile>>,
    group: Vec<StoredFile>,
)
    ensures
        sessions_messages(ids, Seq::empty()) == Ok::<Seq<MessageView>, BillErrorView>(Seq::empty()),
        match (
            sessions_messages(ids, groups),
            listing_messages(group@, ids[groups.len() as int]),
        ) {
            (Err(_), _) => sessions_messages(ids, groups.push(group)) == sessions_messages(
                ids,
                groups,
            ),
            (Ok(_), Err(failure)) => sessions_messages(ids, groups.push(group)) == Err::<
                Seq<MessageView>,
                BillErrorView,
            >(failure),
            (Ok(before), Ok(more)) => sessions_messages(ids, groups.push(group)) == Ok::<
                Seq<MessageView>,
                BillErrorView,
            >(before + more),
        },
{
    assert(groups.push(group).drop_last() =~= groups);
    assert(groups.push(group).last() == group);
}

/// A session kept as files has the identifier and the title that its file gives, one session for
/// each member, no agents, and the messages of all members in ascending order of these; it fails
/// exactly where these do.
pub proof fn law_session_of_files(
    id: Seq<char>,
    title: Seq<char>,
    members: Set<Seq<char>>,
    ids: Seq<Seq<char>>,
    groups: Seq<Vec<StoredFile>>,
)
    requires
        ids.no_duplicates(),
        members == ids.to_set(),
        forall|i: int, j: int|
            0 <= i < j < ids.len() ==> text::text_before(#[trigger] ids[i], #[trigger] ids[j]),
    ensures
        match sessions_messages(ids, groups) {
            Err(failure) => legacy_outcome(id, title, members, groups) == Err::<
                SessionView,
                BillErrorView,
            >(failure),
            Ok(messages) => legacy_outcome(id, title, members, groups) matches Ok(session) && {
                &&& session.id == id
                &&& session.title == title
                &&& session.session_count == ids.len()
                &&& session.session_agents == Map::<Seq<char>, Seq<char>>::empty()
                &&& session.messages == messages
            },
        },
{
    ids.unique_seq_to_set();
    ordered::lemma_sorted::<String>(ids, members);
}

/// A file has its own location and its own text, or what kept it from being read; a list of files has
/// each in its place.
pub proof fn law_file_contents(files: Seq<StoredFile>, index: int)
    requires
        0 <= index < files.len(),
    ensures
        file_views(files).len() == files.len(),
        file_views(files)[index].location == files[index].location@,
        match files[index].content {
            Ok(content) => file_views(files)[index].content == Ok::<Seq<char>, BillErrorView>(
                content@,
            ),
            Err(failure) => file_views(files)[index].content == Err::<Seq<char>, BillErrorView>(
                failure@,
            ),
        },
{
}

/// A record has its own fields as its contents, and the parents of the sessions are those that the
/// map holds.
pub proof fn law_record_contents(
    record: SessionRecord,
    parents: OrderedMap<String, Option<String>>,
    id: Seq<char>,
)
    ensures
        record@.id == json::text_view(record.id),
        record@.title == json::text_view(record.title),
        record@.parent == json::text_view(record.parent),
        parent_names(parents).dom().contains(id) <==> parents@.dom().contains(id),
        parents@.dom().contains(id) ==> parent_names(parents)[id] == json::text_view(parents@[id]),
{
}

} // verus!
