//! Stored settings and the per-user locations the program keeps its files in.

use vstd::prelude::*;
use vstd::string::*;

verus! {

/// Database settings as stored; every field may be absent.
#[derive(Debug, Clone, Default)]
pub struct Database {
    pub integrated: Option<bool>,
    pub username: Option<String>,
    pub password: Option<String>,
    pub server: Option<String>,
    pub port: Option<u16>,
    pub name: Option<String>,
}

/// Repository settings as stored.
#[derive(Debug, Clone, Default)]
pub struct Repository {
    pub path: Option<String>,
}

#[derive(Debug, Clone)]
pub struct Settings {
    pub database: Database,
    pub repository: Repository,
}

impl Settings {
    /// Settings with every field absent.
    pub fn default() -> (r: Self)
        ensures
            r.database.integrated is None,
            r.database.username is None,
            r.database.password is None,
            r.database.server is None,
            r.database.port is None,
            r.database.name is None,
            r.repository.path is None,
    {
        Settings {
            database: Database {
                integrated: None,
                username: None,
                password: None,
                server: None,
                port: None,
                name: None,
            },
            repository: Repository { path: None },
        }
    }
}

/// `name` placed inside directory `dir`, as `Path::join` writes it for a
/// relative `name`: a separator is added unless `dir` is empty or already
/// ends with one.
pub open spec fn joined(dir: Seq<char>, name: Seq<char>) -> Seq<char> {
    if dir.len() == 0 {
        name
    } else if dir.last() == '/' {
        dir + name
    } else {
        dir + seq!['/'] + name
    }
}

/// Places `name` inside directory `dir`.
pub fn join_path(dir: &str, name: &str) -> (r: String)
    ensures
        r@ == joined(dir@, name@),
{
    let d = String::from_str(dir);
    let n = dir.unicode_len();
    if n == 0 {
        String::from_str(name)
    } else if dir.get_char(n - 1) == '/' {
        d.concat(name)
    } else {
        let r = d.concat("/").concat(name);
        proof {
            reveal_strlit("/");
            assert(r@ =~= joined(dir@, name@));
        }
        r
    }
}

/// `scripts.db` inside the per-user data directory, or inside the working
/// directory where there is none.
pub open spec fn script_database_path(data_dir: Option<String>) -> Seq<char> {
    joined(
        match data_dir {
            Some(d) => d@,
            None => "."@,
        },
        "scripts.db"@,
    )
}

/// The file the run history is kept in, given the per-user data directory.
pub fn script_database_in(data_dir: Option<String>) -> (r: String)
    ensures
        r@ == script_database_path(data_dir),
{
    match data_dir {
        Some(d) => join_path(d.as_str(), "scripts.db"),
        None => join_path(".", "scripts.db"),
    }
}

/// The per-user data directory, or `./.data` where there is none.
pub open spec fn data_dir_path(data_dir: Option<String>) -> Seq<char> {
    match data_dir {
        Some(d) => d@,
        None => joined("."@, ".data"@),
    }
}

/// The per-user configuration directory, or `./.config` where there is none.
pub open spec fn config_dir_path(config_dir: Option<String>) -> Seq<char> {
    match config_dir {
        Some(d) => d@,
        None => joined("."@, ".config"@),
    }
}

/// The data directory, given the per-user one.
pub fn data_dir_in(data_dir: Option<String>) -> (r: String)
    ensures
        r@ == data_dir_path(data_dir),
{
    match data_dir {
        Some(d) => d,
        None => join_path(".", ".data"),
    }
}

/// The configuration directory, given the per-user one.
pub fn config_dir_in(config_dir: Option<String>) -> (r: String)
    ensures
        r@ == config_dir_path(config_dir),
{
    match config_dir {
        Some(d) => d,
        None => join_path(".", ".config"),
    }
}

/// Relies on `directories::ProjectDirs::from` and `ProjectDirs::data_local_dir`:
/// the local data directory of this program for the current user, if the
/// platform has one and its path is valid UTF-8. It depends on the
/// environment, so nothing is stated of it.
#[verifier::external_body]
fn project_data_local_dir() -> (r: Option<String>) {
    match directories::ProjectDirs::from("com", "beardo", "squealmate") {
        Some(p) => match p.data_local_dir().to_str() {
            Some(d) => Some(d.to_string()),
            None => None,
        },
        None => None,
    }
}

/// Relies on `directories::ProjectDirs::from` and `ProjectDirs::config_local_dir`:
/// the local configuration directory of this program for the current user, if
/// the platform has one and its path is valid UTF-8. It depends on the
/// environment, so nothing is stated of it.
#[verifier::external_body]
fn project_config_local_dir() -> (r: Option<String>) {
    match directories::ProjectDirs::from("com", "beardo", "squealmate") {
        Some(p) => match p.config_local_dir().to_str() {
            Some(d) => Some(d.to_string()),
            None => None,
        },
        None => None,
    }
}

/// The file the run history is kept in, for the current user.
pub fn get_script_database() -> (r: String)
    ensures
        exists|dir: Option<String>| #[trigger] script_database_path(dir) == r@,
{
    script_database_in(project_data_local_dir())
}

/// The directory the program writes its data and logs to, for the current user.
pub fn get_data_dir() -> (r: String)
    ensures
        exists|dir: Option<String>| #[trigger] data_dir_path(dir) == r@,
{
    data_dir_in(project_data_local_dir())
}

/// The directory the configuration file lives in, for the current user.
pub fn get_config_dir() -> (r: String)
    ensures
        exists|dir: Option<String>| #[trigger] config_dir_path(dir) == r@,
{
    config_dir_in(project_config_local_dir())
}

} // verus!
