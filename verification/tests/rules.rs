use traefik_guard::ip::{Ipv4Addr, Ipv4Network};
use traefik_guard::proto::{Access, GrammarError, Reaction, Rule, Source, Target};
use traefik_guard::visitor::Visit;

fn rule(access: Vec<Access>, target: Vec<Target>, reaction: Reaction, tags: Vec<&str>) -> Rule {
    Rule { access, target, reaction, tags: tags.into_iter().map(|t| t.to_owned()).collect() }
}

fn country(code: &str) -> Source {
    Source::FromCountry(code.to_owned())
}

fn from(country_code: &str, uri: &str) -> Visit {
    Visit::new(Ipv4Addr::new(10, 1, 2, 3), Some(country_code.to_owned()), None, uri)
}

#[test]
fn test_reaction_codes() {
    assert_eq!(Reaction::HttpStatus(200).code(), 200);
    assert_eq!(Reaction::HttpStatus(403).code(), 403);
    assert_eq!(Reaction::PermanentRedirect("/404".to_owned()).code(), 301);
    assert_eq!(Reaction::TemporaryRedirect("/404".to_owned()).code(), 302);
}

#[test]
fn empty_string() {
    let expected = rule(
        vec![Access::From(Source::Any)],
        vec![Target::Any],
        Reaction::HttpStatus(200),
        vec![],
    );
    assert_eq!(Rule::parse("").unwrap(), expected);
}

#[test]
fn asterisk() {
    let expected = rule(
        vec![Access::From(Source::Any)],
        vec![Target::Any],
        Reaction::HttpStatus(200),
        vec![],
    );
    assert_eq!(Rule::parse("*").unwrap(), expected);
}

#[test]
fn deny_all() {
    let expected = rule(
        vec![Access::From(Source::Any)],
        vec![Target::Any],
        Reaction::HttpStatus(403),
        vec![],
    );
    assert_eq!(Rule::parse("403|*").unwrap(), expected);
}

#[test]
fn error_on_country() {
    let expected = rule(
        vec![Access::From(country("US"))],
        vec![Target::Any],
        Reaction::HttpStatus(500),
        vec![],
    );
    assert_eq!(Rule::parse("500|US").unwrap(), expected);
}

#[test]
fn error_with_tags() {
    let expected = rule(
        vec![Access::From(country("US"))],
        vec![Target::Any],
        Reaction::HttpStatus(500),
        vec!["blacklist"],
    );
    assert_eq!(Rule::parse("500|US#blacklist").unwrap(), expected);
}

#[test]
fn fail_on_country() {
    let expected = rule(
        vec![Access::Excluding(country("GB"))],
        vec![Target::Any],
        Reaction::HttpStatus(401),
        vec![],
    );
    assert_eq!(Rule::parse("401|-GB").unwrap(), expected);
}

#[test]
fn permanent_redirect() {
    let expected = rule(
        vec![Access::From(Source::Any)],
        vec![Target::Path("/api/metrics".to_owned())],
        Reaction::PermanentRedirect("/metrics".to_owned()),
        vec![],
    );
    assert_eq!(Rule::parse("301|/api/metrics|/metrics").unwrap(), expected);
}

#[test]
fn temp_redirect() {
    let expected = rule(
        vec![Access::From(Source::Any)],
        vec![Target::Path("/api/metrics".to_owned())],
        Reaction::TemporaryRedirect("/metrics".to_owned()),
        vec![],
    );
    assert_eq!(Rule::parse("302|/api/metrics|/metrics").unwrap(), expected);
}

#[test]
fn country_alone() {
    let expected = rule(
        vec![Access::From(country("GB"))],
        vec![Target::Any],
        Reaction::HttpStatus(200),
        vec![],
    );
    assert_eq!(Rule::parse("GB").unwrap(), expected);
}

#[test]
fn excluding_country() {
    let expected = rule(
        vec![Access::Excluding(country("GB"))],
        vec![Target::Any],
        Reaction::HttpStatus(200),
        vec![],
    );
    assert_eq!(Rule::parse("-GB").unwrap(), expected);
}

#[test]
fn ipv4network() {
    let net = Ipv4Network::parse("192.168.0.0/8").unwrap();
    let expected = rule(
        vec![Access::From(Source::FromIpv4Network(net))],
        vec![Target::Any],
        Reaction::HttpStatus(200),
        vec![],
    );
    assert_eq!(Rule::parse("192.168.0.0/8").unwrap(), expected);
}

#[test]
fn ipv4() {
    let ip = Ipv4Addr::parse("192.168.0.1").unwrap();
    assert_eq!(ip, Ipv4Addr::new(192, 168, 0, 1));
    let expected = rule(
        vec![Access::From(Source::FromIpv4(ip))],
        vec![Target::Any],
        Reaction::HttpStatus(200),
        vec![],
    );
    assert_eq!(Rule::parse("192.168.0.1").unwrap(), expected);
}

#[test]
fn city() {
    let expected = rule(
        vec![Access::From(Source::FromCity("London".to_owned()))],
        vec![Target::Any],
        Reaction::HttpStatus(200),
        vec![],
    );
    assert_eq!(Rule::parse("London").unwrap(), expected);
}

#[test]
fn multiple() {
    let expected = rule(
        vec![
            Access::From(country("GB")),
            Access::Excluding(country("US")),
            Access::From(country("ES")),
        ],
        vec![Target::Any],
        Reaction::HttpStatus(200),
        vec![],
    );
    assert_eq!(Rule::parse("GB,-US,ES").unwrap(), expected);
}

#[test]
fn access_and_targets_are_told_apart_by_their_first_character() {
    let expected = rule(
        vec![Access::From(country("US")), Access::From(country("CA"))],
        vec![Target::Path("/a".to_owned()), Target::PathPrefix("/b".to_owned())],
        Reaction::HttpStatus(200),
        vec!["blacklist", "recent"],
    );
    assert_eq!(Rule::parse("200|US,/a,CA,^/b#blacklist,recent").unwrap(), expected);
}

#[test]
fn what_follows_a_second_hash_is_dropped() {
    let parsed = Rule::parse("US#a,b#c").unwrap();
    assert_eq!(parsed.tags, vec!["a".to_owned(), "b".to_owned()]);
    assert_eq!(parsed.to_string(), "US#a,b");
}

#[test]
fn status_takes_a_plus_sign_and_leading_zeros() {
    assert_eq!(Rule::parse("+403|US").unwrap().reaction, Reaction::HttpStatus(403));
    assert_eq!(Rule::parse("0403|US").unwrap().reaction, Reaction::HttpStatus(403));
    assert_eq!(Rule::parse("65535|US").unwrap().reaction, Reaction::HttpStatus(65535));
}

#[test]
fn invalid_status_is_an_error() {
    assert_eq!(Rule::parse("abc|US"), Err(GrammarError::InvalidStatus));
    assert_eq!(Rule::parse("65536|US"), Err(GrammarError::InvalidStatus));
    assert_eq!(Rule::parse("|US"), Err(GrammarError::InvalidStatus));
    assert_eq!(Rule::parse("-1|US"), Err(GrammarError::InvalidStatus));
    assert_eq!(GrammarError::InvalidStatus.message(), "invalid HTTP status");
}

#[test]
fn redirect_status_other_than_301_and_302_is_an_error() {
    assert_eq!(Rule::parse("303|/a|/b"), Err(GrammarError::RedirectStatus));
    assert_eq!(Rule::parse("200|/a|/b"), Err(GrammarError::RedirectStatus));
    assert_eq!(
        GrammarError::RedirectStatus.message(),
        "redirect HTTP status expected 301 or 302"
    );
}

#[test]
fn more_than_two_pipes_are_an_error() {
    assert_eq!(Rule::parse("301|/a|/b|/c"), Err(GrammarError::PipeCount));
    assert_eq!(Reaction::extract("1|2|3|4|5"), Err(GrammarError::PipeCount));
}

#[test]
fn extract_gives_the_body_and_the_reaction() {
    assert_eq!(Reaction::extract("US,/a"), Ok(("US,/a".to_owned(), Reaction::HttpStatus(200))));
    assert_eq!(Reaction::extract("403|US"), Ok(("US".to_owned(), Reaction::HttpStatus(403))));
    assert_eq!(
        Reaction::extract("302|US|/x"),
        Ok(("US".to_owned(), Reaction::TemporaryRedirect("/x".to_owned())))
    );
}

#[test]
fn redirect_gives_the_location() {
    assert_eq!(Reaction::PermanentRedirect("/x".to_owned()).redirect(), Some("/x".to_owned()));
    assert_eq!(Reaction::TemporaryRedirect("/y".to_owned()).redirect(), Some("/y".to_owned()));
    assert_eq!(Reaction::HttpStatus(301).redirect(), None);
}

#[test]
fn default_rule_is_written_as_the_empty_line() {
    assert_eq!(Rule::parse("").unwrap().to_string(), "");
    assert_eq!(Rule::parse("*").unwrap().to_string(), "");
    assert_eq!(Rule::parse("403|*").unwrap().to_string(), "403|");
}

#[test]
fn redirect_is_written_as_it_was_read() {
    let line = "301|/api/metrics|/metrics";
    assert_eq!(Rule::parse(line).unwrap().to_string(), line);
}

#[test]
fn rules_are_read_back_from_their_lines() {
    let lines = [
        "",
        "403|US",
        "GB,-US,ES",
        "*,US",
        "-*",
        "301|-GB,^/path/to/resource|/not-found",
        "200|US,CA,/path/to/resource#blacklist,recent",
        "192.168.0.0/8,10.0.0.1,London,/a,^/b,^",
        "10.0.0.0/255.0.0.0",
        "US#",
        "302||",
        "65535|Paris,/x#t",
    ];
    for line in lines {
        let parsed = Rule::parse(line).unwrap();
        let written = parsed.to_string();
        assert_eq!(Rule::parse(&written).unwrap(), parsed, "line {:?}", line);
    }
}

#[test]
fn canonical_lines_are_written_as_they_were_read() {
    let lines = [
        "403|US",
        "GB,-US,ES",
        "301|-GB,^/path/to/resource|/not-found",
        "US,CA,/path/to/resource#blacklist,recent",
        "192.168.0.0/8,10.0.0.1,London,/a,^/b",
        "401|-JP",
        "301|127.0.0.1,/a/|/b/",
    ];
    for line in lines {
        assert_eq!(Rule::parse(line).unwrap().to_string(), line);
    }
}

#[test]
fn status_200_and_the_access_list_of_any_are_not_written() {
    assert_eq!(Rule::parse("200|US").unwrap().to_string(), "US");
    assert_eq!(Rule::parse("*,/a").unwrap().to_string(), "/a");
    assert_eq!(Rule::parse("*,US").unwrap().to_string(), "*,US");
    assert_eq!(Rule::parse("10.0.0.0/255.0.0.0").unwrap().to_string(), "10.0.0.0/8");
}

#[test]
fn access_list_of_nothing_but_any_is_not_written() {
    let r = rule(
        vec![Access::From(Source::Any), Access::From(Source::Any)],
        vec![Target::Path("/a".to_owned())],
        Reaction::HttpStatus(200),
        vec![],
    );
    assert_eq!(r.to_string(), "/a");
}

#[test]
fn tokens_are_written_as_they_are_read() {
    assert_eq!(Source::parse("").to_string(), "*");
    assert_eq!(Source::parse("*").to_string(), "*");
    assert_eq!(Source::parse("US").to_string(), "US");
    assert_eq!(Source::parse("1.2.3.4").to_string(), "1.2.3.4");
    assert_eq!(Source::parse("1.2.3.0/24").to_string(), "1.2.3.0/24");
    assert_eq!(Source::parse("New York").to_string(), "New York");
    assert_eq!(Access::parse("-US").to_string(), "-US");
    assert_eq!(Access::parse("US").to_string(), "US");
    assert_eq!(Target::parse("/a").to_string(), "/a");
    assert_eq!(Target::parse("^/a").to_string(), "^/a");
    assert_eq!(Target::parse("").to_string(), "");
}

#[test]
fn sources_are_told_apart() {
    assert_eq!(Source::parse(""), Source::Any);
    assert_eq!(Source::parse("*"), Source::Any);
    assert_eq!(Source::parse("**"), country("**"));
    assert_eq!(Source::parse("\u{e9}\u{e9}"), country("\u{e9}\u{e9}"));
    assert_eq!(Source::parse("\u{e9}"), Source::FromCity("\u{e9}".to_owned()));
    assert_eq!(Source::parse("1.2.3.4"), Source::FromIpv4(Ipv4Addr::new(1, 2, 3, 4)));
    assert_eq!(Source::parse("01.2.3.4"), Source::FromCity("01.2.3.4".to_owned()));
    assert_eq!(Source::parse("1.2.3.256"), Source::FromCity("1.2.3.256".to_owned()));
    assert_eq!(Source::parse("1.2.3.4/33"), Source::FromCity("1.2.3.4/33".to_owned()));
    assert_eq!(
        Source::parse("1.2.3.4/32"),
        Source::FromIpv4Network(Ipv4Network::new(Ipv4Addr::new(1, 2, 3, 4), 32).unwrap())
    );
    assert_eq!(
        Source::network_or_city("Rome", None),
        Source::FromCity("Rome".to_owned())
    );
    let net = Ipv4Network::new(Ipv4Addr::new(10, 0, 0, 0), 8).unwrap();
    assert_eq!(Source::network_or_city("Rome", Some(net)), Source::FromIpv4Network(net));
}

#[test]
fn targets_are_told_apart() {
    assert_eq!(Target::parse(""), Target::Any);
    assert_eq!(Target::parse("x"), Target::Any);
    assert_eq!(Target::parse("/"), Target::Path("/".to_owned()));
    assert_eq!(Target::parse("/a/b"), Target::Path("/a/b".to_owned()));
    assert_eq!(Target::parse("^/a"), Target::PathPrefix("/a".to_owned()));
    assert_eq!(Target::parse("^"), Target::PathPrefix("".to_owned()));
}

#[test]
fn access_entries_are_told_apart() {
    assert_eq!(Access::parse("-"), Access::From(Source::FromCity("-".to_owned())));
    assert_eq!(Access::parse("-*"), Access::Excluding(Source::Any));
    assert_eq!(Access::parse("--"), Access::Excluding(Source::FromCity("-".to_owned())));
    assert_eq!(Access::parse("GB"), country_from("GB"));
    assert_eq!(Access::parse("-US"), Access::Excluding(country("US")));
}

fn country_from(code: &str) -> Access {
    Access::From(country(code))
}

#[test]
fn later_access_entries_take_precedence() {
    let first = Rule::parse("GB,-US,ES").unwrap();
    assert_eq!(first.react(&from("US", "/")), None);
    assert_eq!(first.react(&from("GB", "/")), Some(Reaction::HttpStatus(200)));
    assert_eq!(first.react(&from("ES", "/")), Some(Reaction::HttpStatus(200)));
    assert_eq!(first.react(&from("FR", "/")), None);
    let second = Rule::parse("US,-GB").unwrap();
    assert_eq!(second.react(&from("US", "/")), Some(Reaction::HttpStatus(200)));
    assert_eq!(second.react(&from("GB", "/")), None);
    let third = Rule::parse("403|-US,US").unwrap();
    assert_eq!(third.react(&from("US", "/")), Some(Reaction::HttpStatus(403)));
    let fourth = Rule::parse("403|US,-US").unwrap();
    assert_eq!(fourth.react(&from("US", "/")), None);
}

#[test]
fn excluding_any_is_inert() {
    let r = Rule::parse("403|US,-*").unwrap();
    assert_eq!(r.react(&from("US", "/")), Some(Reaction::HttpStatus(403)));
    let only = Rule::parse("403|-*").unwrap();
    assert_eq!(only.react(&from("US", "/")), None);
}

#[test]
fn a_rule_that_only_excludes_applies_to_no_one() {
    let r = Rule::parse("401|-JP").unwrap();
    assert_eq!(r.react(&from("JP", "/")), None);
    assert_eq!(r.react(&from("US", "/")), None);
}

#[test]
fn targets_match_paths_and_prefixes() {
    let path = Rule::parse("403|/admin").unwrap();
    assert_eq!(path.react(&from("US", "/admin")), Some(Reaction::HttpStatus(403)));
    assert_eq!(path.react(&from("US", "/admin/")), Some(Reaction::HttpStatus(403)));
    assert_eq!(path.react(&from("US", "/admin//")), None);
    assert_eq!(path.react(&from("US", "/admin/x")), None);
    assert_eq!(path.react(&from("US", "/")), None);
    let prefix = Rule::parse("403|^/admin").unwrap();
    assert_eq!(prefix.react(&from("US", "/admin/x")), Some(Reaction::HttpStatus(403)));
    assert_eq!(prefix.react(&from("US", "/administrator")), Some(Reaction::HttpStatus(403)));
    assert_eq!(prefix.react(&from("US", "/adm")), None);
    let both = Rule::parse("403|/a,^/b").unwrap();
    assert_eq!(both.react(&from("US", "/b/c")), Some(Reaction::HttpStatus(403)));
    assert_eq!(both.react(&from("US", "/c")), None);
    assert!(Target::parse("/a").admits("/a/"));
    assert!(!Target::parse("/a").admits("/b"));
}

#[test]
fn a_rule_without_targets_applies_nowhere() {
    let r = rule(vec![Access::From(Source::Any)], vec![], Reaction::HttpStatus(403), vec![]);
    assert_eq!(r.react(&from("US", "/")), None);
}

#[test]
fn sources_match_addresses_networks_countries_and_cities() {
    let v = Visit::new(
        Ipv4Addr::new(192, 168, 7, 9),
        Some("GB".to_owned()),
        Some("London".to_owned()),
        "/",
    );
    let hit = Some(Reaction::HttpStatus(403));
    assert_eq!(Rule::parse("403|192.168.7.9").unwrap().react(&v), hit);
    assert_eq!(Rule::parse("403|192.168.7.8").unwrap().react(&v), None);
    assert_eq!(Rule::parse("403|192.168.0.0/16").unwrap().react(&v), hit);
    assert_eq!(Rule::parse("403|192.168.8.0/24").unwrap().react(&v), None);
    assert_eq!(Rule::parse("403|0.0.0.0/0").unwrap().react(&v), hit);
    assert_eq!(Rule::parse("403|192.168.7.9/32").unwrap().react(&v), hit);
    assert_eq!(Rule::parse("403|192.168.7.8/32").unwrap().react(&v), None);
    assert_eq!(Rule::parse("403|GB").unwrap().react(&v), hit);
    assert_eq!(Rule::parse("403|gb").unwrap().react(&v), None);
    assert_eq!(Rule::parse("403|London").unwrap().react(&v), hit);
    assert_eq!(Rule::parse("403|Londonderry").unwrap().react(&v), None);
    assert_eq!(Rule::parse("403|-192.168.0.0/16,GB").unwrap().react(&v), hit);
    assert_eq!(Rule::parse("403|GB,-192.168.0.0/16").unwrap().react(&v), None);
    let unknown = Visit::no_ip("/");
    assert_eq!(Rule::parse("403|GB").unwrap().react(&unknown), None);
    assert_eq!(Rule::parse("403|London").unwrap().react(&unknown), None);
    assert_eq!(Rule::parse("403|127.0.0.1").unwrap().react(&unknown), hit);
    assert!(Source::parse("GB").admits(&v));
    assert!(Access::parse("-GB").fires(&v));
    assert!(!Access::parse("-*").fires(&v));
}

#[test]
fn index_keys_of_rules() {
    let keys = |line: &str| Rule::parse(line).unwrap().index_keys();
    assert_eq!(keys("301|/a|/b"), vec!["/a/".to_owned(), "/a".to_owned()]);
    assert_eq!(keys("301|/a/|/b"), vec!["/a/".to_owned()]);
    assert_eq!(keys("/a,^/b,/c/"), vec!["/a/".to_owned(), "/a".to_owned(), "/c/".to_owned()]);
    assert_eq!(keys("403|US,1.2.3.4"), vec!["US".to_owned(), "1.2.3.4".to_owned()]);
    assert_eq!(keys("403|US,-GB,London,10.0.0.0/8"), vec!["US".to_owned()]);
    assert_eq!(keys("403|-GB"), Vec::<String>::new());
    assert_eq!(keys("403|US,/a"), Vec::<String>::new());
    assert_eq!(keys("403|*"), Vec::<String>::new());
    assert_eq!(keys("^/a"), Vec::<String>::new());
    assert!(Rule::parse("/a").unwrap().is_access_trivial());
    assert!(!Rule::parse("*,*").unwrap().is_access_trivial());
    assert!(Rule::parse("US").unwrap().is_target_trivial());
    assert!(!Rule::parse("/a").unwrap().is_target_trivial());
}

#[test]
fn a_clone_is_equal() {
    let r = Rule::parse("301|-GB,US,1.2.3.4,10.0.0.0/8,^/path,/x|/not-found#a,b").unwrap();
    assert_eq!(r.clone(), r);
}

#[test]
fn some_rules_are_not_read_back() {
    let cases = vec![
        rule(
            vec![Access::From(country("USA"))],
            vec![Target::Any],
            Reaction::HttpStatus(200),
            vec![],
        ),
        rule(
            vec![Access::From(Source::Any), Access::From(Source::Any)],
            vec![Target::Any],
            Reaction::HttpStatus(200),
            vec![],
        ),
        rule(
            vec![Access::From(Source::Any)],
            vec![Target::Any, Target::Any],
            Reaction::HttpStatus(200),
            vec![],
        ),
        rule(
            vec![Access::From(Source::Any)],
            vec![Target::Path("a".to_owned())],
            Reaction::HttpStatus(200),
            vec![],
        ),
        rule(
            vec![Access::From(Source::FromCity("a,b".to_owned()))],
            vec![Target::Any],
            Reaction::HttpStatus(200),
            vec![],
        ),
        rule(
            vec![Access::From(Source::Any)],
            vec![Target::Any],
            Reaction::PermanentRedirect("/a#b".to_owned()),
            vec![],
        ),
        rule(
            vec![Access::From(Source::Any)],
            vec![Target::Any],
            Reaction::HttpStatus(200),
            vec!["a,b"],
        ),
    ];
    for r in cases {
        assert_ne!(Rule::parse(&r.to_string()), Ok(r));
    }
}
