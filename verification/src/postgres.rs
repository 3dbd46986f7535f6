//! The connection settings of the telemetry database.
use vstd::prelude::*;

use crate::text::push_str;

verus! {

/// Where and as whom the provers connect to the database.
pub struct Postgres {
    host: String,
    user: String,
    password: String,
    dbname: String,
}

impl Postgres {
    pub closed spec fn host(&self) -> Seq<char> {
        self.host@
    }

    pub closed spec fn user(&self) -> Seq<char> {
        self.user@
    }

    pub closed spec fn password(&self) -> Seq<char> {
        self.password@
    }

    pub closed spec fn dbname(&self) -> Seq<char> {
        self.dbname@
    }

    /// Settings from their four values (read from `VNT_HOST`, `VNT_USER`,
    /// `VNT_PASSWORD` and `VNT_DBNAME` by the programs).
    pub fn new(host: String, user: String, password: String, dbname: String) -> (r: Self)
        ensures
            r.host() == host@,
            r.user() == user@,
            r.password() == password@,
            r.dbname() == dbname@,
    {
        Postgres { host: host, user: user, password: password, dbname: dbname }
    }

    /// The connection string: `host=<h> user=<u> password=<p> dbname=<d>`.
    pub fn to_string(&self) -> (r: String)
        ensures
            r@ == "host="@ + self.host() + " user="@ + self.user() + " password="@ + self.password()
                + " dbname="@ + self.dbname(),
    {
        let mut s = String::new();
        push_str(&mut s, "host=");
        push_str(&mut s, self.host.as_str());
        push_str(&mut s, " user=");
        push_str(&mut s, self.user.as_str());
        push_str(&mut s, " password=");
        push_str(&mut s, self.password.as_str());
        push_str(&mut s, " dbname=");
        push_str(&mut s, self.dbname.as_str());
        s
    }
}

} // verus!
