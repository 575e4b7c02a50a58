use traefik_guard::ip::Ipv4Addr;
use traefik_guard::proto::{GrammarError, Reaction};
use traefik_guard::state::{RulesRef, SecurityGroupService, ServiceError};
use traefik_guard::tags::TagMap;
use traefik_guard::visitor::Visit;

fn service(files: &[(&str, &str)]) -> SecurityGroupService {
    let files: Vec<(String, String)> =
        files.iter().map(|(n, c)| ((*n).to_owned(), (*c).to_owned())).collect();
    SecurityGroupService::from_local_path("/data/", &files)
}

fn listing(svc: &SecurityGroupService, group: &str) -> String {
    svc.list_rules_as_str(group, &TagMap::new()).unwrap()
}

fn country(code: &str, uri: &str) -> Visit {
    Visit::new(Ipv4Addr::new(8, 8, 8, 8), Some(code.to_owned()), None, uri)
}

#[test]
fn tag_filter() {
    let filter = TagMap::from_query("blacklist,-temp");
    assert!(filter.matches(&vec!["blacklist".to_owned()]));
    assert!(!filter.matches(&vec!["blacklist".to_owned(), "temp".to_owned()]));
    assert!(!filter.matches(&vec!["other".to_owned()]));
    assert!(!filter.matches(&vec![]));
    assert!(TagMap::new().matches(&vec![]));
    assert!(TagMap::new().matches(&vec!["any".to_owned()]));
}

#[test]
fn the_empty_query_is_the_empty_filter() {
    let filter = TagMap::from_query("");
    assert!(filter.including.is_empty());
    assert!(filter.excluding.is_empty());
    assert!(filter.matches(&vec![]));
    assert!(filter.matches(&vec!["x".to_owned()]));
}

#[test]
fn a_query_fills_the_two_sets() {
    let filter = TagMap::from_query("a,-b,c,-,a");
    assert_eq!(filter.including.len(), 2);
    assert!(filter.including.contains_key("a"));
    assert!(filter.including.contains_key("c"));
    assert_eq!(filter.excluding.len(), 2);
    assert!(filter.excluding.contains_key("b"));
    assert!(filter.excluding.contains_key(""));
    let only_excluding = TagMap::from_query("-temp");
    assert!(only_excluding.matches(&vec![]));
    assert!(only_excluding.matches(&vec!["x".to_owned()]));
    assert!(!only_excluding.matches(&vec!["x".to_owned(), "temp".to_owned()]));
}

#[test]
fn groups_are_loaded_from_the_files_of_their_names() {
    let svc = service(&[
        ("default.rules.txt", "401|-JP\n403|ES\n301|127.0.0.1,/a/|/b/\n"),
        ("notes.txt", "403|US"),
        ("edge.rules.txt", "# edge\n\n402|GB\nabc|x\n"),
    ]);
    assert_eq!(svc.storage_path, "/data/");
    assert_eq!(svc.groups.len(), 2);
    assert_eq!(svc.find("default"), Some(0));
    assert_eq!(svc.find("edge"), Some(1));
    assert_eq!(svc.find("notes"), None);
    assert_eq!(listing(&svc, "default"), "403|ES\n401|-JP\n301|127.0.0.1,/a/|/b/");
    assert_eq!(listing(&svc, "edge"), "402|GB");
    assert_eq!(listing(&svc, "missing"), "");
}

#[test]
fn end_to_end_through_the_service() {
    let svc = service(&[("default.rules.txt", "401|-JP\n403|ES\n301|127.0.0.1,/a/|/b/")]);
    assert_eq!(svc.react("default", &country("ES", "/")), Ok(Reaction::HttpStatus(403)));
    assert_eq!(
        svc.react("default", &Visit::new(Ipv4Addr::new(127, 0, 0, 1), None, None, "/a/")),
        Ok(Reaction::PermanentRedirect("/b/".to_owned()))
    );
    assert_eq!(svc.react("default", &country("FR", "/x")), Ok(Reaction::HttpStatus(200)));
    assert_eq!(svc.react("default", &country("JP", "/x")), Ok(Reaction::HttpStatus(200)));
    assert_eq!(svc.react("other", &country("ES", "/")), Ok(Reaction::HttpStatus(200)));
}

#[test]
fn saving_writes_every_group_in_full() {
    let svc = service(&[
        ("default.rules.txt", "401|-JP\n403|ES"),
        ("edge.rules.txt", "402|GB#a"),
    ]);
    assert_eq!(
        svc.save(),
        vec![
            ("/data/default.rules.txt".to_owned(), "403|ES\n401|-JP\n".to_owned()),
            ("/data/edge.rules.txt".to_owned(), "402|GB#a\n".to_owned()),
        ]
    );
    let files: Vec<(String, String)> = vec![("default.rules.txt".to_owned(), "403|ES".to_owned())];
    let nowhere = SecurityGroupService::from_local_path("", &files);
    assert_eq!(nowhere.save(), vec![]);
    let here = SecurityGroupService::from_local_path("data", &files);
    assert_eq!(here.save(), vec![("data/default.rules.txt".to_owned(), "403|ES\n".to_owned())]);
}

#[test]
fn rules_are_created_in_a_group_that_is_made_if_needed() {
    let mut svc = service(&[]);
    assert_eq!(svc.create_rule("default", "401|-JP"), Ok(0));
    assert_eq!(svc.create_rule("default", "\n403|ES\n\n  402|^/x  \n"), Ok(2));
    assert_eq!(svc.create_rule("default", "405|GB"), Ok(1));
    assert_eq!(listing(&svc, "default"), "403|ES\n405|GB\n401|-JP\n402|^/x");
    assert_eq!(svc.create_rule("default", ""), Ok(3));
    assert_eq!(svc.create_rule("empty", "  \n"), Ok(0));
    assert_eq!(svc.groups.len(), 2);
    assert_eq!(listing(&svc, "empty"), "");
}

#[test]
fn creating_stops_at_the_first_line_that_is_no_rule() {
    let mut svc = service(&[]);
    assert_eq!(
        svc.create_rule("default", "403|ES\nabc|US\n402|GB"),
        Err(ServiceError::Grammar(GrammarError::InvalidStatus))
    );
    assert_eq!(listing(&svc, "default"), "403|ES");
    assert_eq!(
        svc.create_rule("fresh", "1|2|3|4"),
        Err(ServiceError::Grammar(GrammarError::PipeCount))
    );
    assert_eq!(svc.find("fresh"), Some(1));
    assert_eq!(ServiceError::Grammar(GrammarError::InvalidStatus).message(), "invalid HTTP status");
}

#[test]
fn rules_are_listed_by_tag() {
    let svc = service(&[(
        "default.rules.txt",
        "403|ES#blacklist\n401|-JP#blacklist,temp\n402|GB\nUS,/a#temp",
    )]);
    let list = |q: &str| svc.list_rules_as_str("default", &TagMap::from_query(q)).unwrap();
    assert_eq!(list("blacklist"), "403|ES#blacklist\n401|-JP#blacklist,temp");
    assert_eq!(list("blacklist,-temp"), "403|ES#blacklist");
    assert_eq!(list("-temp"), "403|ES#blacklist\n402|GB");
    assert_eq!(list("none"), "");
    assert_eq!(list(""), "403|ES#blacklist\n402|GB\n401|-JP#blacklist,temp\nUS,/a#temp");
}

#[test]
fn a_rule_is_updated_by_index() {
    let mut svc = service(&[("default.rules.txt", "403|ES\n401|-JP\n402|GB")]);
    assert_eq!(svc.update_rule("default", &RulesRef::Index(1), "410|FR#new"), Ok(()));
    assert_eq!(listing(&svc, "default"), "403|ES\n410|FR#new\n401|-JP");
    assert_eq!(svc.update_rule("default", &RulesRef::Index(2), "411|^/x"), Ok(()));
    assert_eq!(listing(&svc, "default"), "403|ES\n410|FR#new\n411|^/x");
}

#[test]
fn rules_are_updated_by_tag() {
    let mut svc = service(&[(
        "default.rules.txt",
        "403|ES#old\n401|-JP#old\n402|GB\nUS,/a#old",
    )]);
    let old = RulesRef::Tag(TagMap::from_query("old"));
    assert_eq!(svc.update_rule("default", &old, "410|FR#new"), Ok(()));
    assert_eq!(listing(&svc, "default"), "402|GB\n410|FR#new");
    assert_eq!(svc.update_rule("default", &old, "not|a|rule|at|all"), Ok(()));
    assert_eq!(listing(&svc, "default"), "402|GB\n410|FR#new");
}

#[test]
fn updates_fail_without_a_change() {
    let mut svc = service(&[("default.rules.txt", "403|ES#t\n401|-JP")]);
    assert_eq!(
        svc.update_rule("other", &RulesRef::Index(0), "US"),
        Err(ServiceError::GroupNotFound)
    );
    assert_eq!(svc.update_rule("other", &RulesRef::All, "US"), Err(ServiceError::GroupNotFound));
    assert_eq!(
        svc.update_rule("default", &RulesRef::All, "US"),
        Err(ServiceError::IndexOrTagExpected)
    );
    assert_eq!(
        svc.update_rule("default", &RulesRef::Index(2), "US"),
        Err(ServiceError::IndexOutOfRange)
    );
    assert_eq!(
        svc.update_rule("default", &RulesRef::Index(2), "x|US"),
        Err(ServiceError::IndexOutOfRange)
    );
    assert_eq!(
        svc.update_rule("default", &RulesRef::Index(0), "x|US"),
        Err(ServiceError::Grammar(GrammarError::InvalidStatus))
    );
    assert_eq!(
        svc.update_rule("default", &RulesRef::Tag(TagMap::from_query("t")), "303|/a|/b"),
        Err(ServiceError::Grammar(GrammarError::RedirectStatus))
    );
    assert_eq!(listing(&svc, "default"), "403|ES#t\n401|-JP");
    assert_eq!(ServiceError::GroupNotFound.message(), "group not found");
    assert_eq!(ServiceError::IndexOutOfRange.message(), "index out of range");
    assert_eq!(
        ServiceError::IndexOrTagExpected.message(),
        "please use index or tag to update rule"
    );
}

#[test]
fn rules_are_deleted() {
    let mut svc = service(&[(
        "default.rules.txt",
        "403|ES#old\n401|-JP#old\n402|GB\nUS,/a#keep",
    )]);
    assert_eq!(svc.delete_rule("missing", &RulesRef::All), Ok(()));
    assert_eq!(svc.delete_rule("missing", &RulesRef::Index(7)), Ok(()));
    assert_eq!(svc.groups.len(), 1);
    assert_eq!(svc.delete_rule("default", &RulesRef::Index(4)), Err(ServiceError::IndexOutOfRange));
    assert_eq!(listing(&svc, "default"), "403|ES#old\n402|GB\n401|-JP#old\nUS,/a#keep");
    assert_eq!(svc.delete_rule("default", &RulesRef::Index(1)), Ok(()));
    assert_eq!(listing(&svc, "default"), "403|ES#old\n401|-JP#old\nUS,/a#keep");
    assert_eq!(svc.react("default", &country("GB", "/")), Ok(Reaction::HttpStatus(200)));
    assert_eq!(svc.delete_rule("default", &RulesRef::Tag(TagMap::from_query("none"))), Ok(()));
    assert_eq!(listing(&svc, "default"), "403|ES#old\n401|-JP#old\nUS,/a#keep");
    assert_eq!(svc.delete_rule("default", &RulesRef::Tag(TagMap::from_query("old"))), Ok(()));
    assert_eq!(listing(&svc, "default"), "US,/a#keep");
    assert_eq!(svc.react("default", &country("ES", "/")), Ok(Reaction::HttpStatus(200)));
    assert_eq!(svc.delete_rule("default", &RulesRef::All), Ok(()));
    assert_eq!(listing(&svc, "default"), "");
    assert_eq!(svc.find("default"), Some(0));
}
