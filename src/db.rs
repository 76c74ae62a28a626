//! Connection parameters of the database that scripts run against.

use vstd::prelude::*;

verus! {

#[derive(Debug, Clone)]
pub struct Database {
    pub server: String,
    pub port: u16,
    pub name: String,
    pub authentication: Authentication,
}

#[derive(Debug, Clone)]
pub enum Authentication {
    Integrated,
    SqlServer { username: String, password: String },
}

} // verus!
