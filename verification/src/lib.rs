//! An edge access-control decision engine. Declarative text rules, grouped
//! into named security groups, decide from a visitor's address, country,
//! city and requested URI whether a request is allowed, redirected or
//! rejected.
//!
//! Every executable function has a contract over a mathematical model of
//! its data: a text is the sequence of its characters, and every type of the
//! engine has a view. The modules, from the leaves up:
//!
//! - [`text`] and [`decimal`]: splitting, joining and trimming texts, and
//!   decimal numerals;
//! - [`ip`]: IPv4 addresses and networks;
//! - [`proto`]: the tokens of the rule grammar, which are sources, targets,
//!   access entries and reactions;
//! - [`rule`]: the rule, its line of text, its answer to a visitor and its
//!   index keys;
//! - [`tags`]: filters over the tags of rules;
//! - [`group`]: the rules of one group, as an exact-match index and a list
//!   to scan;
//! - [`state`]: the service over all the groups;
//! - [`visitor`]: the visitor of one request;
//! - [`round_trip`], [`indexing`] and [`invariants`]: what is proved of the
//!   grammar, of the index and of the states that the operations make.

pub mod decimal;
pub mod group;
pub mod indexing;
pub mod invariants;
pub mod ip;
pub mod proto;
pub mod round_trip;
pub mod rule;
pub mod state;
pub mod tags;
pub mod text;
pub mod visitor;
