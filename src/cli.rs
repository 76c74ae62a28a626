//! Command-line arguments and how they combine with stored settings.

use vstd::prelude::*;
use vstd::string::*;
use crate::config::Settings;
use crate::db::{Authentication, Database};

verus! {

pub const DEFAULT_PORT: u16 = 1433;

#[derive(Debug)]
pub struct AeqArgs {
    pub command: Option<Command>,
    pub connection: ConnectionArgs,
}

/// Connection parameters given on the command line; each overrides the stored one.
#[derive(Debug, Clone)]
pub struct ConnectionArgs {
    pub server: Option<String>,
    pub port: Option<u16>,
    pub username: Option<String>,
    pub password: Option<String>,
    pub name: Option<String>,
    pub is_integrated: Option<bool>,
}

#[derive(Debug, Clone, Copy, PartialEq, Eq)]
pub enum Command {
    /// Shows application info and configuration for the current system.
    Config,
    /// Starts the migrations explorer.
    Migrations,
    /// Writes a configuration interactively.
    Initialize,
}

/// Why arguments and settings together do not describe a connection.
#[derive(Debug, Clone, Copy, PartialEq, Eq)]
pub enum ArgumentsError {
    MissingPassword,
    MissingUsername,
    MissingDBName,
    PortNotNumber,
}

/// The first of two optional values that is present.
pub open spec fn first_of<T>(a: Option<T>, b: Option<T>) -> Option<T> {
    if a is Some {
        a
    } else {
        b
    }
}

fn first_string(a: &Option<String>, b: &Option<String>) -> (r: Option<String>)
    ensures
        r == first_of(*a, *b),
{
    match a {
        Some(s) => Some(s.clone()),
        None => match b {
            Some(s) => Some(s.clone()),
            None => None,
        },
    }
}

impl ConnectionArgs {
    /// Whether integrated authentication is used: off unless asked for.
    pub open spec fn integrated_with(&self, settings: &Settings) -> bool {
        match first_of(self.is_integrated, settings.database.integrated) {
            Some(b) => b,
            None => false,
        }
    }

    /// The error `merge` reports, if any: the database name is needed first,
    /// then, without integrated authentication, a user name and a password.
    pub open spec fn merge_error(&self, settings: &Settings) -> Option<ArgumentsError> {
        if first_of(self.name, settings.database.name) is None {
            Some(ArgumentsError::MissingDBName)
        } else if !self.integrated_with(settings) && first_of(
            self.username,
            settings.database.username,
        ) is None {
            Some(ArgumentsError::MissingUsername)
        } else if !self.integrated_with(settings) && first_of(
            self.password,
            settings.database.password,
        ) is None {
            Some(ArgumentsError::MissingPassword)
        } else {
            None
        }
    }

    /// Combines the arguments with the stored settings; an argument wins over
    /// the setting. The server defaults to `localhost`, the port to 1433.
    pub fn merge(self: &ConnectionArgs, settings: &Settings) -> (r: Result<Database, ArgumentsError>)
        ensures
            r is Err <==> self.merge_error(settings) is Some,
            r matches Err(e) ==> self.merge_error(settings) == Some(e),
            r matches Ok(d) ==> {
                &&& d.server@ == match first_of(self.server, settings.database.server) {
                    Some(s) => s@,
                    None => "localhost"@,
                }
                &&& d.port == match first_of(self.port, settings.database.port) {
                    Some(p) => p,
                    None => DEFAULT_PORT,
                }
                &&& Some(d.name) == first_of(self.name, settings.database.name)
                &&& (self.integrated_with(settings) ==> d.authentication is Integrated)
                &&& (!self.integrated_with(settings) ==> d.authentication == Authentication::SqlServer {
                    username: first_of(self.username, settings.database.username)->0,
                    password: first_of(self.password, settings.database.password)->0,
                })
            },
    {
        let server = match first_string(&self.server, &settings.database.server) {
            Some(s) => s,
            None => String::from_str("localhost"),
        };
        let port = match self.port {
            Some(p) => p,
            None => match settings.database.port {
                Some(p) => p,
                None => DEFAULT_PORT,
            },
        };
        let name = match first_string(&self.name, &settings.database.name) {
            Some(n) => n,
            None => {
                return Err(ArgumentsError::MissingDBName);
            },
        };
        let is_integrated = match self.is_integrated {
            Some(b) => b,
            None => match settings.database.integrated {
                Some(b) => b,
                None => false,
            },
        };
        let authentication = if is_integrated {
            Authentication::Integrated
        } else {
            let username = match first_string(&self.username, &settings.database.username) {
                Some(u) => u,
                None => {
                    return Err(ArgumentsError::MissingUsername);
                },
            };
            let password = match first_string(&self.password, &settings.database.password) {
                Some(p) => p,
                None => {
                    return Err(ArgumentsError::MissingPassword);
                },
            };
            Authentication::SqlServer { username, password }
        };
        Ok(Database { server, port, name, authentication })
    }
}

} // verus!
