//! The tokens of the rule grammar and what they stand for: where a visitor
//! comes from, which part of the site a request asks for, whom a rule lets
//! in or keeps out, and what a rule answers.

use crate::decimal::{parse_u16, u16_of};
use crate::ip::{cidr_of, cidr_text, in_network, ipv4_of, ipv4_text, Ipv4Addr, Ipv4Network};
use crate::text::{
    after_first, first_char, is_char, option_text, same_text, split, split_text, starts_with,
    texts,
};
use vstd::prelude::*;

pub use crate::group::{SecurityGroup, SecurityGroupView};
pub use crate::rule::{Rule, RuleView};

verus! {

/// What is known of one request: the visitor's address, the country and the
/// city it was resolved to, where known, and the requested URI.
pub struct VisitorFacts {
    pub ip: Ipv4Addr,
    pub country: Option<Seq<char>>,
    pub city: Option<Seq<char>>,
    pub uri: Seq<char>,
}

/// The properties of a request that rules are evaluated against.
pub trait Visitor {
    /// The facts that the four accessors report.
    spec fn facts(&self) -> VisitorFacts;

    /// The ISO code of the visitor's country, where known.
    fn country(&self) -> (r: Option<String>)
        ensures
            option_text(r) == self.facts().country,
    ;

    /// The name of the visitor's city, where known.
    fn city(&self) -> (r: Option<String>)
        ensures
            option_text(r) == self.facts().city,
    ;

    /// The visitor's address.
    fn ip(&self) -> (r: Ipv4Addr)
        ensures
            r == self.facts().ip,
    ;

    /// The requested URI, without its query string.
    fn uri(&self) -> (r: String)
        ensures
            r@ == self.facts().uri,
    ;
}

/// Why a line of text is not a rule.
#[derive(Clone, Copy, Debug, PartialEq, Eq, Structural)]
pub enum GrammarError {
    /// The status before the single `|` is not an unsigned 16-bit number.
    InvalidStatus,
    /// The status of a redirect is neither `301` nor `302`.
    RedirectStatus,
    /// The line holds more than two `|`.
    PipeCount,
}

impl GrammarError {
    /// The error in words.
    pub fn message(&self) -> (s: String)
        ensures
            s@ == match *self {
                GrammarError::InvalidStatus => "invalid HTTP status"@,
                GrammarError::RedirectStatus => "redirect HTTP status expected 301 or 302"@,
                GrammarError::PipeCount => "at most two '|' expected in a rule"@,
            },
    {
        match self {
            GrammarError::InvalidStatus => "invalid HTTP status".to_owned(),
            GrammarError::RedirectStatus => "redirect HTTP status expected 301 or 302".to_owned(),
            GrammarError::PipeCount => "at most two '|' expected in a rule".to_owned(),
        }
    }
}

/// Where a visitor comes from.
#[derive(Debug, PartialEq)]
pub enum Source {
    Any,
    FromIpv4(Ipv4Addr),
    FromIpv4Network(Ipv4Network),
    FromCountry(String),
    FromCity(String),
}

/// The model of a [`Source`].
pub enum SourceView {
    Any,
    FromIpv4(Ipv4Addr),
    FromIpv4Network(Ipv4Addr, u8),
    FromCountry(Seq<char>),
    FromCity(Seq<char>),
}

impl View for Source {
    type V = SourceView;

    open spec fn view(&self) -> SourceView {
        match *self {
            Source::Any => SourceView::Any,
            Source::FromIpv4(ip) => SourceView::FromIpv4(ip),
            Source::FromIpv4Network(net) => SourceView::FromIpv4Network(
                net.addr(),
                net.prefix_len(),
            ),
            Source::FromCountry(c) => SourceView::FromCountry(c@),
            Source::FromCity(c) => SourceView::FromCity(c@),
        }
    }
}

impl SourceView {
    /// What the token `s` reads as: nothing or `*` is any source, two
    /// characters are a country, then an address, then a network, and
    /// whatever is left is a city.
    pub open spec fn of(s: Seq<char>) -> SourceView {
        if s.len() == 0 || s == seq!['*'] {
            SourceView::Any
        } else if s.len() == 2 {
            SourceView::FromCountry(s)
        } else if let Some(ip) = ipv4_of(s) {
            SourceView::FromIpv4(ip)
        } else if let Some(net) = cidr_of(s) {
            SourceView::FromIpv4Network(net.0, net.1)
        } else {
            SourceView::FromCity(s)
        }
    }

    /// The token that the source is written as.
    pub open spec fn text(self) -> Seq<char> {
        match self {
            SourceView::Any => seq!['*'],
            SourceView::FromIpv4(ip) => ipv4_text(ip),
            SourceView::FromIpv4Network(addr, prefix) => cidr_text(addr, prefix),
            SourceView::FromCountry(c) => c,
            SourceView::FromCity(c) => c,
        }
    }

    /// Whether the visitor comes from this source.
    pub open spec fn admits(self, v: VisitorFacts) -> bool {
        match self {
            SourceView::Any => true,
            SourceView::FromIpv4(ip) => v.ip == ip,
            SourceView::FromIpv4Network(addr, prefix) => in_network(addr, prefix, v.ip),
            SourceView::FromCountry(c) => v.country == Some(c),
            SourceView::FromCity(c) => v.city == Some(c),
        }
    }
}

impl Clone for Source {
    fn clone(&self) -> (r: Self)
        ensures
            r@ == self@,
    {
        match self {
            Source::Any => Source::Any,
            Source::FromIpv4(ip) => Source::FromIpv4(*ip),
            Source::FromIpv4Network(net) => Source::FromIpv4Network(*net),
            Source::FromCountry(c) => Source::FromCountry(c.clone()),
            Source::FromCity(c) => Source::FromCity(c.clone()),
        }
    }
}

impl Source {
    /// The token that the source is written as.
    pub fn to_string(&self) -> (s: String)
        ensures
            s@ == self@.text(),
    {
        match self {
            Source::Any => {
                proof {
                    reveal_strlit("*");
                }
                assert("*"@ == seq!['*']);
                "*".to_owned()
            },
            Source::FromIpv4(ip) => ip.to_string(),
            Source::FromIpv4Network(net) => net.to_string(),
            Source::FromCountry(country) => country.clone(),
            Source::FromCity(city) => city.clone(),
        }
    }

    /// The source that a token stands for once it is known what it reads as
    /// a network: that network, or else the city named by the token.
    pub fn network_or_city(input: &str, network: Option<Ipv4Network>) -> (r: Source)
        ensures
            r@ == match network {
                Some(net) => SourceView::FromIpv4Network(net.addr(), net.prefix_len()),
                None => SourceView::FromCity(input@),
            },
    {
        match network {
            Some(net) => Source::FromIpv4Network(net),
            None => Source::FromCity(input.to_owned()),
        }
    }

    /// Reads a token as a source.
    pub fn parse(input: &str) -> (r: Source)
        ensures
            r@ == SourceView::of(input@),
    {
        if input.is_empty() || is_char(input, '*') {
            Source::Any
        } else if input.unicode_len() == 2 {
            Source::FromCountry(input.to_owned())
        } else if let Some(ip) = Ipv4Addr::parse(input) {
            Source::FromIpv4(ip)
        } else {
            Source::network_or_city(input, Ipv4Network::parse(input))
        }
    }

    /// Whether the visitor comes from this source.
    pub fn admits<V: Visitor>(&self, v: &V) -> (r: bool)
        ensures
            r == self@.admits(v.facts()),
    {
        match self {
            Source::Any => true,
            Source::FromIpv4(ip) => v.ip() == *ip,
            Source::FromIpv4Network(net) => net.contains(v.ip()),
            Source::FromCountry(country) => match v.country() {
                Some(c) => c == *country,
                None => false,
            },
            Source::FromCity(city) => match v.city() {
                Some(c) => c == *city,
                None => false,
            },
        }
    }
}

/// The part of the site that a request asks for.
#[derive(Debug, PartialEq)]
pub enum Target {
    Any,
    Path(String),
    PathPrefix(String),
}

/// The model of a [`Target`].
pub enum TargetView {
    Any,
    Path(Seq<char>),
    PathPrefix(Seq<char>),
}

impl View for Target {
    type V = TargetView;

    open spec fn view(&self) -> TargetView {
        match *self {
            Target::Any => TargetView::Any,
            Target::Path(p) => TargetView::Path(p@),
            Target::PathPrefix(p) => TargetView::PathPrefix(p@),
        }
    }
}

/// Whether `p` ends with a `/`.
pub open spec fn ends_with_slash(p: Seq<char>) -> bool {
    p.len() > 0 && p.last() == '/'
}

/// Whether a token of a rule's body names a target: it starts with `/` or
/// with `^`.
pub open spec fn is_target_token(t: Seq<char>) -> bool {
    t.len() > 0 && (t[0] == '/' || t[0] == '^')
}

impl TargetView {
    /// What the token `s` reads as: a path where it starts with `/`, the
    /// prefix after the caret where it starts with `^`, else any target.
    pub open spec fn of(s: Seq<char>) -> TargetView {
        if s.len() > 0 && s[0] == '/' {
            TargetView::Path(s)
        } else if s.len() > 0 && s[0] == '^' {
            TargetView::PathPrefix(s.drop_first())
        } else {
            TargetView::Any
        }
    }

    /// The token that the target is written as.
    pub open spec fn text(self) -> Seq<char> {
        match self {
            TargetView::Any => Seq::<char>::empty(),
            TargetView::Path(p) => p,
            TargetView::PathPrefix(p) => seq!['^'] + p,
        }
    }

    /// Whether a request for `uri` asks for this target: a path matches
    /// itself and itself followed by one `/`, a prefix matches what starts
    /// with it.
    pub open spec fn admits(self, uri: Seq<char>) -> bool {
        match self {
            TargetView::Any => true,
            TargetView::Path(p) => uri == p || uri == p.push('/'),
            TargetView::PathPrefix(p) => p.is_prefix_of(uri),
        }
    }

    /// The keys under which a rule about this target alone is found: a path
    /// with a `/` at its end if it has none, and the path itself.
    pub open spec fn keys(self) -> Seq<Seq<char>> {
        match self {
            TargetView::Path(p) => if ends_with_slash(p) {
                seq![p]
            } else {
                seq![p.push('/'), p]
            },
            _ => Seq::empty(),
        }
    }
}

impl Clone for Target {
    fn clone(&self) -> (r: Self)
        ensures
            r@ == self@,
    {
        match self {
            Target::Any => Target::Any,
            Target::Path(p) => Target::Path(p.clone()),
            Target::PathPrefix(p) => Target::PathPrefix(p.clone()),
        }
    }
}

impl Target {
    /// The token that the target is written as.
    pub fn to_string(&self) -> (s: String)
        ensures
            s@ == self@.text(),
    {
        match self {
            Target::Any => String::new(),
            Target::Path(path) => path.clone(),
            Target::PathPrefix(path) => {
                let mut s = String::new();
                s.push('^');
                s.append(path.as_str());
                s
            },
        }
    }

    /// Reads a token as a target.
    pub fn parse(input: &str) -> (r: Target)
        ensures
            r@ == TargetView::of(input@),
    {
        match first_char(input) {
            Some('/') => Target::Path(input.to_owned()),
            Some('^') => Target::PathPrefix(after_first(input)),
            _ => Target::Any,
        }
    }

    /// Whether a request for `uri` asks for this target.
    pub fn admits(&self, uri: &str) -> (r: bool)
        ensures
            r == self@.admits(uri@),
    {
        match self {
            Target::Any => true,
            Target::Path(path) => {
                if same_text(uri, path.as_str()) {
                    true
                } else {
                    let mut slashed = path.clone();
                    slashed.push('/');
                    same_text(uri, slashed.as_str())
                }
            },
            Target::PathPrefix(prefix) => starts_with(uri, prefix.as_str()),
        }
    }
}

/// One entry of a rule's access list: visitors from a source are let in, or
/// visitors from a source are kept out.
#[derive(Debug, PartialEq)]
pub enum Access {
    From(Source),
    Excluding(Source),
}

/// The model of an [`Access`].
pub enum AccessView {
    From(SourceView),
    Excluding(SourceView),
}

impl View for Access {
    type V = AccessView;

    open spec fn view(&self) -> AccessView {
        match *self {
            Access::From(s) => AccessView::From(s@),
            Access::Excluding(s) => AccessView::Excluding(s@),
        }
    }
}

impl AccessView {
    /// What the token `s` reads as: a `-` before at least one more character
    /// keeps out the source that the rest names.
    pub open spec fn of(s: Seq<char>) -> AccessView {
        if s.len() > 1 && s[0] == '-' {
            AccessView::Excluding(SourceView::of(s.drop_first()))
        } else {
            AccessView::From(SourceView::of(s))
        }
    }

    /// The token that the entry is written as.
    pub open spec fn text(self) -> Seq<char> {
        match self {
            AccessView::From(s) => s.text(),
            AccessView::Excluding(s) => seq!['-'] + s.text(),
        }
    }

    /// Whether the entry has a say on the visitor: the visitor comes from its
    /// source. An entry that keeps out any source never has.
    pub open spec fn fires(self, v: VisitorFacts) -> bool {
        match self {
            AccessView::From(s) => s.admits(v),
            AccessView::Excluding(s) => s != SourceView::Any && s.admits(v),
        }
    }

    /// The keys under which a rule about this entry alone is found: the
    /// address or the country that it lets in.
    pub open spec fn keys(self) -> Seq<Seq<char>> {
        match self {
            AccessView::From(SourceView::FromIpv4(ip)) => seq![ipv4_text(ip)],
            AccessView::From(SourceView::FromCountry(c)) => seq![c],
            _ => Seq::empty(),
        }
    }
}

impl Clone for Access {
    fn clone(&self) -> (r: Self)
        ensures
            r@ == self@,
    {
        match self {
            Access::From(s) => Access::From(s.clone()),
            Access::Excluding(s) => Access::Excluding(s.clone()),
        }
    }
}

impl Access {
    /// The token that the entry is written as.
    pub fn to_string(&self) -> (s: String)
        ensures
            s@ == self@.text(),
    {
        match self {
            Access::From(source) => source.to_string(),
            Access::Excluding(source) => {
                let mut s = String::new();
                s.push('-');
                s.append(source.to_string().as_str());
                s
            },
        }
    }

    /// Reads a token as an access entry.
    pub fn parse(input: &str) -> (r: Access)
        ensures
            r@ == AccessView::of(input@),
    {
        if input.unicode_len() > 1 && first_char(input) == Some('-') {
            let next = after_first(input);
            return Access::Excluding(Source::parse(next.as_str()));
        }
        Access::From(Source::parse(input))
    }

    /// Whether the entry has a say on the visitor.
    pub fn fires<V: Visitor>(&self, v: &V) -> (r: bool)
        ensures
            r == self@.fires(v.facts()),
    {
        match self {
            Access::From(source) => source.admits(v),
            Access::Excluding(source) => match source {
                Source::Any => false,
                _ => source.admits(v),
            },
        }
    }
}

/// What a rule answers to a visitor it applies to.
#[derive(Debug, PartialEq)]
pub enum Reaction {
    PermanentRedirect(String),
    TemporaryRedirect(String),
    HttpStatus(u16),
}

/// The model of a [`Reaction`].
pub enum ReactionView {
    PermanentRedirect(Seq<char>),
    TemporaryRedirect(Seq<char>),
    HttpStatus(u16),
}

impl View for Reaction {
    type V = ReactionView;

    open spec fn view(&self) -> ReactionView {
        match *self {
            Reaction::PermanentRedirect(loc) => ReactionView::PermanentRedirect(loc@),
            Reaction::TemporaryRedirect(loc) => ReactionView::TemporaryRedirect(loc@),
            Reaction::HttpStatus(code) => ReactionView::HttpStatus(code),
        }
    }
}

/// The view of an optional reaction.
pub open spec fn option_reaction(r: Option<Reaction>) -> Option<ReactionView> {
    match r {
        Some(r) => Some(r@),
        None => None,
    }
}

impl ReactionView {
    /// The HTTP status of the reaction: 301 and 302 for the redirects.
    pub open spec fn code(self) -> u16 {
        match self {
            ReactionView::PermanentRedirect(_) => 301,
            ReactionView::TemporaryRedirect(_) => 302,
            ReactionView::HttpStatus(code) => code,
        }
    }

    /// Where a redirect leads.
    pub open spec fn redirect(self) -> Option<Seq<char>> {
        match self {
            ReactionView::PermanentRedirect(loc) => Some(loc),
            ReactionView::TemporaryRedirect(loc) => Some(loc),
            ReactionView::HttpStatus(_) => None,
        }
    }

    /// Splits a rule without its tags on `|` into its body and its reaction.
    /// One part is a body that answers 200. Two parts are a status and a
    /// body. Three parts are `301` or `302`, a body and the location of the
    /// redirect.
    pub open spec fn extract(input: Seq<char>) -> Result<(Seq<char>, ReactionView), GrammarError> {
        let parts = split(input, '|');
        if parts.len() == 1 {
            Ok((parts[0], ReactionView::HttpStatus(200)))
        } else if parts.len() == 2 {
            match u16_of(parts[0]) {
                Some(code) => Ok((parts[1], ReactionView::HttpStatus(code))),
                None => Err(GrammarError::InvalidStatus),
            }
        } else if parts.len() == 3 {
            if parts[0] == seq!['3', '0', '1'] {
                Ok((parts[1], ReactionView::PermanentRedirect(parts[2])))
            } else if parts[0] == seq!['3', '0', '2'] {
                Ok((parts[1], ReactionView::TemporaryRedirect(parts[2])))
            } else {
                Err(GrammarError::RedirectStatus)
            }
        } else {
            Err(GrammarError::PipeCount)
        }
    }
}

impl Clone for Reaction {
    fn clone(&self) -> (r: Self)
        ensures
            r@ == self@,
    {
        match self {
            Reaction::PermanentRedirect(loc) => Reaction::PermanentRedirect(loc.clone()),
            Reaction::TemporaryRedirect(loc) => Reaction::TemporaryRedirect(loc.clone()),
            Reaction::HttpStatus(code) => Reaction::HttpStatus(*code),
        }
    }
}

impl Reaction {
    /// The HTTP status of the reaction.
    pub fn code(&self) -> (code: u16)
        ensures
            code == self@.code(),
    {
        match self {
            Reaction::PermanentRedirect(_) => 301,
            Reaction::TemporaryRedirect(_) => 302,
            Reaction::HttpStatus(code) => *code,
        }
    }

    /// Where a redirect leads.
    pub fn redirect(&self) -> (loc: Option<String>)
        ensures
            option_text(loc) == self@.redirect(),
    {
        match self {
            Reaction::PermanentRedirect(loc) => Some(loc.clone()),
            Reaction::TemporaryRedirect(loc) => Some(loc.clone()),
            Reaction::HttpStatus(_) => None,
        }
    }

    /// Splits a rule without its tags into its body and its reaction.
    pub fn extract(input: &str) -> (r: Result<(String, Reaction), GrammarError>)
        ensures
            match r {
                Ok(found) => ReactionView::extract(input@) == Ok::<
                    (Seq<char>, ReactionView),
                    GrammarError,
                >((found.0@, found.1@)),
                Err(e) => ReactionView::extract(input@) == Err::<
                    (Seq<char>, ReactionView),
                    GrammarError,
                >(e),
            },
    {
        let mut parts = split_text(input, '|');
        let ghost pieces = texts(parts@);
        assert(forall|i: int| 0 <= i < parts.len() ==> pieces[i] == parts@[i]@);
        proof {
            reveal_strlit("301");
            reveal_strlit("302");
            assert("301"@ == seq!['3', '0', '1']);
            assert("302"@ == seq!['3', '0', '2']);
        }
        if parts.len() == 3 {
            let permanent = same_text(parts[0].as_str(), "301");
            if !permanent && !same_text(parts[0].as_str(), "302") {
                return Err(GrammarError::RedirectStatus);
            }
            let redirect = parts.pop().unwrap();
            let remaining = parts.pop().unwrap();
            if permanent {
                Ok((remaining, Reaction::PermanentRedirect(redirect)))
            } else {
                Ok((remaining, Reaction::TemporaryRedirect(redirect)))
            }
        } else if parts.len() == 1 {
            let remaining = parts.pop().unwrap();
            Ok((remaining, Reaction::HttpStatus(200)))
        } else if parts.len() == 2 {
            match parse_u16(parts[0].as_str()) {
                Some(status) => {
                    let remaining = parts.pop().unwrap();
                    Ok((remaining, Reaction::HttpStatus(status)))
                },
                None => Err(GrammarError::InvalidStatus),
            }
        } else {
            Err(GrammarError::PipeCount)
        }
    }
}

} // verus!
