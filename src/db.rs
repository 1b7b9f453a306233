//! Settings of the database connection.

use vstd::prelude::*;
use crate::decimal::{nat_text, push_nat};
use crate::text::{chars_of, push_all, string_of};

verus! {

/// Settings of the database connection.
#[derive(Debug)]
pub struct Config {
    pub host: String,
    pub port: u16,
    pub user: String,
    pub password: String,
    pub dbname: String,
}

fn push_str(acc: &mut Vec<char>, s: &str)
    ensures
        final(acc)@ == old(acc)@ + s@,
{
    let cs = chars_of(s);
    push_all(acc, &cs);
}

impl Config {
    /// The connection string: `"host=.. port=.. user=.. password=.. dbname=.."`.
    pub fn to_config_string(&self) -> (r: String)
        ensures
            r@ == "host="@ + self.host@ + " port="@ + nat_text(self.port as nat) + " user="@
                + self.user@ + " password="@ + self.password@ + " dbname="@ + self.dbname@,
    {
        let mut acc: Vec<char> = Vec::new();
        push_str(&mut acc, "host=");
        push_str(&mut acc, self.host.as_str());
        push_str(&mut acc, " port=");
        push_nat(&mut acc, self.port as u128);
        push_str(&mut acc, " user=");
        push_str(&mut acc, self.user.as_str());
        push_str(&mut acc, " password=");
        push_str(&mut acc, self.password.as_str());
        push_str(&mut acc, " dbname=");
        push_str(&mut acc, self.dbname.as_str());
        assert(acc@ =~= "host="@ + self.host@ + " port="@ + nat_text(self.port as nat) + " user="@
            + self.user@ + " password="@ + self.password@ + " dbname="@ + self.dbname@);
        string_of(&acc)
    }
}

} // verus!
