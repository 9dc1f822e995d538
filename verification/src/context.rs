//! Where OpenCode keeps its data.
use crate::error::{BillError, BillErrorView};
use crate::text;
use std::marker::PhantomData;
use std::path::PathBuf;
use vstd::prelude::*;

verus! {

/// The SQLite database below the data directory.
pub const DATABASE_FILE: &'static str = "opencode.db";

/// The model catalog below the cache directory.
pub const MODELS_FILE: &'static str = "models.json";

/// The directory of OpenCode below the platform's directories.
pub const APPLICATION: &'static str = "opencode";

/// A path of the platform.
#[verifier::external_type_specification]
#[verifier::external_body]
pub struct ExPathBuf(std::path::PathBuf);

/// The bytes that a path consists of.
pub uninterp spec fn path_bytes(path: PathBuf) -> Seq<u8>;

/// `OsStr::is_empty`, asked of the path's own text, tells whether the path has no bytes.
#[verifier::external_body]
fn is_empty_path(path: &PathBuf) -> (empty: bool)
    ensures
        empty == (path_bytes(*path).len() == 0),
{
    path.as_os_str().is_empty()
}

/// A place in the file system: a path and the names that lead on from it.
pub struct Location {
    /// The path to start from.
    pub base: PathBuf,
    /// The names below it, from the outermost to the innermost.
    pub names: Vec<String>,
}

impl Location {
    /// Whether this is the given path with the given names below it.
    pub open spec fn is_at(self, base: PathBuf, names: Seq<Seq<char>>) -> bool {
        self.base == base && text::texts(self.names@) == names
    }

    /// Whether neither the path nor the names lead anywhere.
    pub open spec fn leads_nowhere(self) -> bool {
        path_bytes(self.base).len() == 0 && self.names@.len() == 0
    }

    /// The path itself.
    pub fn at(base: PathBuf) -> (location: Location)
        ensures
            location.is_at(base, Seq::<Seq<char>>::empty()),
    {
        let location = Location { base, names: Vec::new() };
        assert(text::texts(location.names@) =~= Seq::<Seq<char>>::empty());
        location
    }

    /// The place of that name below this one.
    pub fn child(self, name: &str) -> (location: Location)
        ensures
            location.is_at(self.base, text::texts(self.names@).push(name@)),
    {
        let mut names = self.names;
        names.push(name.to_owned());
        assert(text::texts(names@) =~= text::texts(self.names@).push(name@));
        Location { base: self.base, names }
    }

    /// The names that lead to the place of that name below this one.
    pub fn names_below(&self, name: &str) -> (names: Vec<String>)
        ensures
            text::texts(names@) == text::texts(self.names@).push(name@),
    {
        let mut names: Vec<String> = Vec::new();
        let mut index: usize = 0;
        let ghost all = text::texts(self.names@);
        while index < self.names.len()
            invariant
                index <= self.names.len(),
                all == text::texts(self.names@),
                text::texts(names@) == all.take(index as int),
            decreases self.names.len() - index,
        {
            let ghost before = names@;
            let name = self.names[index].clone();
            names.push(name);
            assert(text::texts(names@) =~= text::texts(before).push(name@));
            assert(all.take(index + 1) =~= all.take(index as int).push(name@));
            index = index + 1;
        }
        assert(all.take(index as int) =~= all);
        let ghost before = names@;
        let last = name.to_owned();
        names.push(last);
        assert(text::texts(names@) =~= text::texts(before).push(last@));
        names
    }
}

/// The directories that the platform keeps for applications.
pub struct PlatformDirs {
    /// Local data.
    pub data_local: PathBuf,
    /// Caches.
    pub cache: PathBuf,
}

/// `BaseDirs::new` takes the directories from the user's environment, or finds that there are
/// none; `data_local_dir` and `cache_dir` read them off. What comes back depends on the
/// environment, so nothing is claimed of it.
#[verifier::external_body]
fn platform_dirs() -> (dirs: Option<PlatformDirs>) {
    directories::BaseDirs::new().map(
        |base|
            PlatformDirs {
                data_local: base.data_local_dir().to_path_buf(),
                cache: base.cache_dir().to_path_buf(),
            },
    )
}

/// Marker for a context builder without a data directory.
pub struct MissingDataDirectory;

/// Marker for a context builder with a data directory.
pub struct DataDirectorySet;

/// Builder that requires an OpenCode data directory before construction.
pub struct StorageContextBuilder<State> {
    /// The data directory, once it is known.
    pub data_dir: Option<Location>,
    /// The model catalog, if there is one.
    pub models_file: Option<Location>,
    /// Whether the data directory is known.
    pub state: PhantomData<State>,
}

/// Explicit filesystem state used to locate OpenCode session data.
pub struct StorageContext {
    /// The data directory.
    pub data_dir: Location,
    /// The model catalog, if there is one.
    pub models_file: Option<Location>,
}

impl StorageContext {
    /// Starts a context builder with its required field unset.
    #[must_use]
    pub fn builder() -> (builder: StorageContextBuilder<MissingDataDirectory>)
        ensures
            builder.data_dir is None,
            builder.models_file is None,
    {
        StorageContextBuilder { data_dir: None, models_file: None, state: PhantomData }
    }

    /// The names of the SQLite database below the data directory's path.
    pub fn database(&self) -> (names: Vec<String>)
        ensures
            text::texts(names@) == text::texts(self.data_dir.names@).push(DATABASE_FILE@),
    {
        self.data_dir.names_below(DATABASE_FILE)
    }

    /// The names of the directory of JSON files below the data directory's path.
    pub fn legacy_storage(&self) -> (names: Vec<String>)
        ensures
            text::texts(names@) == text::texts(self.data_dir.names@).push("storage"@),
    {
        self.data_dir.names_below("storage")
    }
}

impl StorageContextBuilder<MissingDataDirectory> {
    /// Uses an explicit OpenCode data directory.
    pub fn data_dir(self, path: PathBuf) -> (builder: StorageContextBuilder<DataDirectorySet>)
        ensures
            builder.data_dir matches Some(place) && place.is_at(path, Seq::<Seq<char>>::empty()),
            builder.models_file == self.models_file,
    {
        StorageContextBuilder {
            data_dir: Some(Location::at(path)),
            models_file: self.models_file,
            state: PhantomData,
        }
    }

    /// Uses `$XDG_DATA_HOME/opencode`, or the platform-equivalent location.
    pub fn platform_data_dir(self) -> (builder: Result<
        StorageContextBuilder<DataDirectorySet>,
        BillError,
    >)
        ensures
            exists|dirs: Option<PlatformDirs>| #[trigger] uses_platform(dirs, builder),
    {
        let dirs = platform_dirs();
        self.with_platform_dirs(dirs)
    }

    /// Uses the directory of OpenCode below the platform's data directory, and the catalog below
    /// its cache directory.
    pub fn with_platform_dirs(self, dirs: Option<PlatformDirs>) -> (builder: Result<
        StorageContextBuilder<DataDirectorySet>,
        BillError,
    >)
        ensures
            uses_platform(dirs, builder),
    {
        match dirs {
            None => Err(BillError::MissingDataDirectory),
            Some(found) => {
                let data = Location::at(found.data_local).child(APPLICATION);
                let models = Location::at(found.cache).child(APPLICATION).child(MODELS_FILE);
                assert(Seq::<Seq<char>>::empty().push(APPLICATION@) =~= seq![APPLICATION@]);
                assert(seq![APPLICATION@].push(MODELS_FILE@) =~= seq![APPLICATION@, MODELS_FILE@]);
                Ok(
                    StorageContextBuilder {
                        data_dir: Some(data),
                        models_file: Some(models),
                        state: PhantomData,
                    },
                )
            },
        }
    }
}

/// Whether the outcome is the one for the given platform directories.
pub open spec fn uses_platform(
    dirs: Option<PlatformDirs>,
    builder: Result<StorageContextBuilder<DataDirectorySet>, BillError>,
) -> bool {
    match dirs {
        None => builder matches Err(failure) && failure@ == BillErrorView::MissingDataDirectory,
        Some(found) => {
            &&& builder matches Ok(set)
            &&& set.data_dir matches Some(data)
            &&& data.is_at(found.data_local, seq![APPLICATION@])
            &&& set.models_file matches Some(models)
            &&& models.is_at(found.cache, seq![APPLICATION@, MODELS_FILE@])
        },
    }
}

impl StorageContextBuilder<DataDirectorySet> {
    /// Uses an explicit OpenCode model catalog instead of the platform cache.
    #[must_use]
    pub fn models_file(self, path: PathBuf) -> (builder: StorageContextBuilder<DataDirectorySet>)
        ensures
            builder.data_dir == self.data_dir,
            builder.models_file matches Some(place) && place.is_at(path, Seq::<Seq<char>>::empty()),
    {
        StorageContextBuilder {
            data_dir: self.data_dir,
            models_file: Some(Location::at(path)),
            state: PhantomData,
        }
    }

    /// Builds a valid storage context. The data directory must not be an empty path.
    pub fn build(self) -> (context: Result<StorageContext, BillError>)
        ensures
            match context {
                Ok(built) => {
                    &&& self.data_dir == Some(built.data_dir)
                    &&& !built.data_dir.leads_nowhere()
                    &&& built.models_file == self.models_file
                },
                Err(failure) => {
                    &&& failure@ == BillErrorView::MissingDataDirectory
                    &&& self.data_dir matches Some(place) ==> place.leads_nowhere()
                },
            },
    {
        match self.data_dir {
            None => Err(BillError::MissingDataDirectory),
            Some(place) => {
                if place.names.len() == 0 && is_empty_path(&place.base) {
                    return Err(BillError::MissingDataDirectory);
                }
                Ok(StorageContext { data_dir: place, models_file: self.models_file })
            },
        }
    }
}

/// Where the platform keeps directories, the data directory is `opencode` below that for local data,
/// and the catalog is `opencode/models.json` below that for caches. Where it keeps none, that is
/// reported.
pub proof fn law_platform_places(
    dirs: Option<PlatformDirs>,
    builder: Result<StorageContextBuilder<DataDirectorySet>, BillError>,
)
    requires
        uses_platform(dirs, builder),
    ensures
        match dirs {
            None => builder is Err && builder->Err_0@ == BillErrorView::MissingDataDirectory,
            Some(found) => {
                &&& builder is Ok
                &&& builder->Ok_0.data_dir is Some
                &&& builder->Ok_0.data_dir->0.base == found.data_local
                &&& text::texts(builder->Ok_0.data_dir->0.names@) == seq!["opencode"@]
                &&& builder->Ok_0.models_file is Some
                &&& builder->Ok_0.models_file->0.base == found.cache
                &&& text::texts(builder->Ok_0.models_file->0.names@) == seq![
                    "opencode"@,
                    "models.json"@,
                ]
            },
        },
        DATABASE_FILE@ == "opencode.db"@,
{
}

/// A place leads nowhere exactly where its path is empty and no name follows it.
pub proof fn law_empty_places(place: Location)
    ensures
        place.leads_nowhere() <==> path_bytes(place.base).len() == 0 && place.names@.len() == 0,
        place.is_at(place.base, text::texts(place.names@)),
{
}

} // verus!
