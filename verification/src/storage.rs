use vstd::prelude::*;
use vstd::string::StringExecFns;
use crate::codec::{db_json, db_wf, parse_database, ParseError};
use crate::database::DbView;
use crate::database::{initial_db, TodoDatabase};

verus! {

/// The text of [`JsonRepositoryError::message`].
pub open spec fn repository_message(e: JsonRepositoryError) -> Seq<char> {
    match e {
        JsonRepositoryError::IoError(m) => "IO error: "@ + m@,
        JsonRepositoryError::SerdeError(_) => "Serialization error: the store file is not a valid database"@,
    }
}

/// Why a load or a save of the store file failed: the file could not be
/// read or written, or it held something that is not a database.
#[derive(Debug)]
pub enum JsonRepositoryError {
    IoError(String),
    SerdeError(ParseError),
}

impl JsonRepositoryError {
    /// Human-readable description of the error.
    pub fn message(&self) -> (r: String)
        ensures
            r@ == repository_message(*self),
    {
        match self {
            JsonRepositoryError::IoError(m) => {
                let mut s = String::from_str("IO error: ");
                s.append(m.as_str());
                s
            },
            JsonRepositoryError::SerdeError(_) => String::from_str(
                "Serialization error: the store file is not a valid database",
            ),
        }
    }
}

/// The file-backed repository's handle: it remembers where the store file
/// lives.  Every mutating operation is a full cycle: read the whole file,
/// turn its text into a database with [`load_database`], mutate that
/// value, render it back with [`crate::codec::encode_database`], and
/// atomically replace the file.  The reading, writing and renaming are
/// the caller's: the library takes and returns the file's text.
#[derive(Debug)]
pub struct JsonTodoRepository {
    file_path: String,
}

impl JsonTodoRepository {
    /// The remembered path.
    pub closed spec fn path_view(&self) -> Seq<char> {
        self.file_path@
    }

    /// A repository over the store file at `file_path`.
    pub fn new(file_path: String) -> (r: Self)
        ensures
            r.path_view() == file_path@,
    {
        JsonTodoRepository { file_path }
    }

    /// The store file's path, for the caller that does the reading and
    /// writing.
    pub fn file_path(&self) -> (r: &String)
        ensures
            r@ == self.path_view(),
    {
        &self.file_path
    }
}

/// What a load makes of what the file held.  A missing file (`None`) is
/// the empty store, not an error; text that is not the canonical form of
/// a well-formed database is refused as a deserialization error; a
/// successful load returns exactly the database whose text the file
/// held; and the canonical text of any well-formed database — in
/// particular, anything a save wrote — is loaded back as exactly that
/// database.
pub fn load_database(content: Option<&str>) -> (r: Result<TodoDatabase, JsonRepositoryError>)
    ensures
        content is None ==> (r matches Ok(db) && db@ == initial_db()),
        content matches Some(s) ==> match r {
            Ok(db) => s@ == db_json(db@),
            Err(e) => e matches JsonRepositoryError::SerdeError(_),
        },
        content matches Some(s) ==> forall|v: DbView| s@ == #[trigger] db_json(v) && db_wf(v)
            ==> (r matches Ok(db) && db@ == v),
{
    match content {
        None => Ok(TodoDatabase::empty()),
        Some(s) => match parse_database(s) {
            Ok(db) => Ok(db),
            Err(e) => Err(JsonRepositoryError::SerdeError(e)),
        },
    }
}

} // verus!
