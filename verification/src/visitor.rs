//! The visitor of one request, as the facts that a resolver found for it.

use crate::ip::Ipv4Addr;
use crate::proto::{Visitor, VisitorFacts};
use crate::text::{before_first, option_text, split};
use vstd::prelude::*;

verus! {

/// The URI without its query string: what stands before the first `?`.
pub open spec fn uri_path(uri: Seq<char>) -> Seq<char> {
    split(uri, '?')[0]
}

/// The URI without its query string.
pub fn nice_uri(uri: &str) -> (out: String)
    ensures
        out@ == uri_path(uri@),
{
    before_first(uri, '?')
}

/// One request: the visitor's address, its country and city where they are
/// known, and the requested URI without its query string.
#[derive(Debug)]
pub struct Visit {
    ip: Ipv4Addr,
    country: Option<String>,
    city: Option<String>,
    uri: String,
}

impl Visit {
    /// The request of a visitor at `ip`, resolved to `country` and `city`,
    /// for `uri`.
    pub fn new(ip: Ipv4Addr, country: Option<String>, city: Option<String>, uri: &str) -> (v: Self)
        ensures
            v.facts() == (VisitorFacts {
                ip,
                country: option_text(country),
                city: option_text(city),
                uri: uri_path(uri@),
            }),
    {
        Visit { ip, country, city, uri: nice_uri(uri) }
    }

    /// The request for `uri` of a visitor of which nothing is known: it
    /// counts as coming from `127.0.0.1`.
    pub fn no_ip(uri: &str) -> (v: Self)
        ensures
            v.facts() == (VisitorFacts {
                ip: Ipv4Addr { a: 127, b: 0, c: 0, d: 1 },
                country: None,
                city: None,
                uri: uri_path(uri@),
            }),
    {
        Visit { ip: Ipv4Addr::new(127, 0, 0, 1), country: None, city: None, uri: nice_uri(uri) }
    }
}

impl Visitor for Visit {
    closed spec fn facts(&self) -> VisitorFacts {
        VisitorFacts {
            ip: self.ip,
            country: option_text(self.country),
            city: option_text(self.city),
            uri: self.uri@,
        }
    }

    fn ip(&self) -> Ipv4Addr {
        self.ip
    }

    fn country(&self) -> Option<String> {
        self.country.clone()
    }

    fn city(&self) -> Option<String> {
        self.city.clone()
    }

    fn uri(&self) -> String {
        self.uri.clone()
    }
}

} // verus!
