use traefik_guard::group::{visitor_index_keys, SecurityGroup};
use traefik_guard::ip::Ipv4Addr;
use traefik_guard::proto::{Reaction, Rule};
use traefik_guard::visitor::{nice_uri, Visit};

fn visit(ip: [u8; 4], country: Option<&str>, uri: &str) -> Visit {
    Visit::new(
        Ipv4Addr::new(ip[0], ip[1], ip[2], ip[3]),
        country.map(|c| c.to_owned()),
        None,
        uri,
    )
}

fn group(lines: &[&str]) -> SecurityGroup {
    SecurityGroup::from_reader("default", &lines.join("\n"))
}

fn lines(rules: &Vec<Rule>) -> Vec<String> {
    rules.iter().map(|r| r.to_string()).collect()
}

fn scan(rules: &[&str], v: &Visit) -> Option<Reaction> {
    rules.iter().find_map(|line| Rule::parse(line).unwrap().react(v))
}

#[test]
fn test_security_group_read_write() {
    let source = vec!["403|ES", "401|-JP", "301|127.0.0.1,/a/|/b/"].join("\n");
    let sg = SecurityGroup::from_reader("default", &source);
    let mut s = String::new();
    sg.to_writer(&mut s);
    assert_eq!(s, format!("{}\n", source));
}

#[test]
fn test_security_group_indexes() {
    let source = vec![
        "200|51.138.72.171,20.198.223.70,161.156.174.216,161.156.87.230,20.113.168.212",
        "401|*",
    ]
    .join("\n");
    let sg = SecurityGroup::from_reader("default", &source);
    assert_eq!(sg.list_non_indexed().len(), 1);
    assert_eq!(sg.list_indexed().len(), 1);
    assert_eq!(sg.map_indexed().len(), 5);
}

#[test]
fn a_new_group_has_its_name_and_no_rules() {
    let sg = SecurityGroup::new("edge");
    assert_eq!(sg.name(), "edge");
    assert_eq!(sg.count(), 0);
    assert!(sg.map_indexed().is_empty());
    assert_eq!(sg.react(&visit([1, 2, 3, 4], Some("US"), "/")), None);
}

#[test]
fn reading_passes_over_blank_lines_comments_and_what_is_no_rule() {
    let sg = group(&["", "  # a comment", "403|ES  ", "303|/a|/b", "\t", "abc|US", "GB\r", "#x"]);
    assert_eq!(lines(sg.list_indexed()), vec!["403|ES".to_owned(), "GB".to_owned()]);
    assert_eq!(sg.list_non_indexed().len(), 0);
    assert_eq!(sg.count(), 2);
}

#[test]
fn writing_puts_the_indexed_rules_first() {
    let sg = group(&["401|-JP", "403|ES", "US,/a", "/b"]);
    let mut s = String::from("# rules\n");
    sg.to_writer(&mut s);
    assert_eq!(s, "# rules\n403|ES\n/b\n401|-JP\nUS,/a\n");
}

#[test]
fn rules_with_keys_are_indexed() {
    let mut sg = SecurityGroup::new("default");
    sg.add(Rule::parse("403|US,1.2.3.4").unwrap());
    sg.add(Rule::parse("301|/a|/b").unwrap());
    sg.add(Rule::parse("401|US,/a").unwrap());
    sg.add(Rule::parse("402|^/b").unwrap());
    assert_eq!(lines(sg.list_indexed()), vec!["403|US,1.2.3.4".to_owned(), "301|/a|/b".to_owned()]);
    assert_eq!(lines(sg.list_non_indexed()), vec!["401|US,/a".to_owned(), "402|^/b".to_owned()]);
    assert_eq!(sg.map_indexed().len(), 4);
    assert_eq!(sg.map_indexed().get("US"), Some(&Reaction::HttpStatus(403)));
    assert_eq!(sg.map_indexed().get("1.2.3.4"), Some(&Reaction::HttpStatus(403)));
    assert_eq!(sg.map_indexed().get("/a"), Some(&Reaction::PermanentRedirect("/b".to_owned())));
    assert_eq!(sg.map_indexed().get("/a/"), Some(&Reaction::PermanentRedirect("/b".to_owned())));
    assert_eq!(sg.count(), 4);
}

#[test]
fn the_last_rule_with_a_key_holds_the_key() {
    let mut sg = SecurityGroup::new("default");
    sg.add(Rule::parse("403|US").unwrap());
    sg.add(Rule::parse("401|US").unwrap());
    assert_eq!(sg.react(&visit([1, 2, 3, 4], Some("US"), "/")), Some(Reaction::HttpStatus(401)));
    assert_eq!(sg.list_indexed().len(), 2);
    assert_eq!(sg.map_indexed().len(), 1);
    assert_eq!(
        scan(&["403|US", "401|US"], &visit([1, 2, 3, 4], Some("US"), "/")),
        Some(Reaction::HttpStatus(403))
    );
}

#[test]
fn removing_a_rule_drops_its_keys_even_where_another_rule_has_them() {
    let mut sg = group(&["403|US", "401|US,GB"]);
    sg.remove_by_index(0);
    assert_eq!(lines(sg.list_indexed()), vec!["401|US,GB".to_owned()]);
    assert_eq!(sg.map_indexed().len(), 1);
    assert_eq!(sg.map_indexed().get("GB"), Some(&Reaction::HttpStatus(401)));
    assert_eq!(sg.react(&visit([1, 2, 3, 4], Some("US"), "/")), None);
}

#[test]
fn visitors_are_looked_up_by_address_country_and_uri() {
    let keys = |v: &Visit| visitor_index_keys(v);
    assert_eq!(
        keys(&visit([1, 2, 3, 4], Some("US"), "/a")),
        vec!["1.2.3.4".to_owned(), "US".to_owned(), "/a/".to_owned(), "/a".to_owned()]
    );
    assert_eq!(
        keys(&visit([1, 2, 3, 4], None, "/a/")),
        vec!["1.2.3.4".to_owned(), "/a/".to_owned()]
    );
    assert_eq!(
        keys(&Visit::no_ip("")),
        vec!["127.0.0.1".to_owned(), "/".to_owned(), "".to_owned()]
    );
}

#[test]
fn the_index_is_asked_before_the_scan() {
    let sg = group(&["401|^/", "403|US", "402|1.2.3.4", "301|/a|/b"]);
    let v = visit([1, 2, 3, 4], Some("US"), "/a");
    assert_eq!(sg.react(&v), Some(Reaction::HttpStatus(402)));
    assert_eq!(sg.react(&visit([9, 9, 9, 9], Some("US"), "/a")), Some(Reaction::HttpStatus(403)));
    assert_eq!(
        sg.react(&visit([9, 9, 9, 9], Some("GB"), "/a")),
        Some(Reaction::PermanentRedirect("/b".to_owned()))
    );
    assert_eq!(
        sg.react(&visit([9, 9, 9, 9], Some("GB"), "/a/")),
        Some(Reaction::PermanentRedirect("/b".to_owned()))
    );
    assert_eq!(sg.react(&visit([9, 9, 9, 9], Some("GB"), "/c")), Some(Reaction::HttpStatus(401)));
    assert_eq!(sg.react(&visit([9, 9, 9, 9], None, "relative")), None);
}

#[test]
fn the_index_answers_as_a_scan_where_one_rule_applies() {
    let rules = ["403|ES", "401|FR,/admin", "301|/old|/new", "402|10.0.0.1", "404|^/private"];
    let sg = group(&rules);
    let visitors = [
        visit([1, 1, 1, 1], Some("ES"), "/"),
        visit([1, 1, 1, 1], Some("FR"), "/admin"),
        visit([1, 1, 1, 1], Some("FR"), "/"),
        visit([1, 1, 1, 1], Some("GB"), "/old"),
        visit([1, 1, 1, 1], Some("GB"), "/old/"),
        visit([10, 0, 0, 1], None, "/"),
        visit([1, 1, 1, 1], None, "/private/x"),
        visit([1, 1, 1, 1], None, "/public"),
    ];
    for v in &visitors {
        assert_eq!(sg.react(v), scan(&rules, v));
    }
}

#[test]
fn many_rules_are_removed_at_once() {
    let mut sg = group(&["403|ES", "401|-JP", "402|GB", "US,/a", "^/b"]);
    assert_eq!(lines(sg.list_indexed()), vec!["403|ES".to_owned(), "402|GB".to_owned()]);
    sg.remove_many(vec![3, 0, 9, 3]);
    assert_eq!(lines(sg.list_indexed()), vec!["402|GB".to_owned()]);
    assert_eq!(lines(sg.list_non_indexed()), vec!["401|-JP".to_owned(), "^/b".to_owned()]);
    assert_eq!(sg.map_indexed().len(), 1);
    assert!(sg.map_indexed().contains_key("GB"));
    sg.remove_many(vec![]);
    assert_eq!(sg.count(), 3);
    sg.remove_many(vec![2, 1]);
    assert_eq!(lines(sg.list_indexed()), vec!["402|GB".to_owned()]);
    assert_eq!(sg.list_non_indexed().len(), 0);
}

#[test]
fn one_rule_is_removed_by_its_combined_index() {
    let mut sg = group(&["403|ES", "401|-JP", "402|GB", "US,/a"]);
    sg.remove_by_index(2);
    assert_eq!(lines(sg.list_indexed()), vec!["403|ES".to_owned(), "402|GB".to_owned()]);
    assert_eq!(lines(sg.list_non_indexed()), vec!["US,/a".to_owned()]);
    sg.remove_by_index(1);
    assert_eq!(lines(sg.list_indexed()), vec!["403|ES".to_owned()]);
    assert!(!sg.map_indexed().contains_key("GB"));
    assert_eq!(sg.count(), 2);
}

#[test]
fn an_index_that_addresses_no_rule_removes_nothing() {
    let mut sg = group(&["403|ES", "401|-JP"]);
    sg.remove_by_index(2);
    sg.remove_by_index(usize::MAX);
    assert_eq!(sg.count(), 2);
    assert_eq!(sg.map_indexed().len(), 1);
    sg.set_by_index(7, Rule::parse("402|GB").unwrap());
    assert_eq!(lines(sg.list_indexed()), vec!["403|ES".to_owned(), "402|GB".to_owned()]);
    assert_eq!(lines(sg.list_non_indexed()), vec!["401|-JP".to_owned()]);
}

#[test]
fn a_rule_is_replaced_by_its_combined_index() {
    let mut sg = group(&["403|ES", "401|-JP", "402|GB"]);
    sg.set_by_index(0, Rule::parse("404|^/x").unwrap());
    assert_eq!(lines(sg.list_indexed()), vec!["402|GB".to_owned()]);
    assert_eq!(lines(sg.list_non_indexed()), vec!["401|-JP".to_owned(), "404|^/x".to_owned()]);
    sg.set_by_index(1, Rule::parse("405|FR").unwrap());
    assert_eq!(lines(sg.list_indexed()), vec!["402|GB".to_owned(), "405|FR".to_owned()]);
    assert_eq!(lines(sg.list_non_indexed()), vec!["404|^/x".to_owned()]);
    assert_eq!(sg.map_indexed().len(), 2);
}

#[test]
fn many_rules_give_way_to_one() {
    let mut sg = group(&["403|ES", "401|-JP", "402|GB", "US,/a"]);
    sg.set_many(vec![0, 2, 3], Rule::parse("410|FR").unwrap());
    assert_eq!(lines(sg.list_indexed()), vec!["402|GB".to_owned(), "410|FR".to_owned()]);
    assert_eq!(sg.list_non_indexed().len(), 0);
    assert_eq!(sg.map_indexed().len(), 2);
    assert!(!sg.map_indexed().contains_key("ES"));
}

#[test]
fn reset_removes_every_rule() {
    let mut sg = group(&["403|ES", "401|-JP"]);
    sg.reset();
    assert_eq!(sg.count(), 0);
    assert!(sg.map_indexed().is_empty());
    assert_eq!(sg.name(), "default");
}

#[test]
fn the_query_string_is_cut_off() {
    assert_eq!(nice_uri("/a/b?c=d&e=f"), "/a/b");
    assert_eq!(nice_uri("/a/b"), "/a/b");
    assert_eq!(nice_uri("/a?b?c"), "/a");
    assert_eq!(nice_uri("?"), "");
    assert_eq!(visitor_index_keys(&Visit::no_ip("/x?y=1")), vec![
        "127.0.0.1".to_owned(),
        "/x/".to_owned(),
        "/x".to_owned()
    ]);
}

#[test]
fn end_to_end() {
    let sg = group(&["401|-JP", "403|ES", "301|127.0.0.1,/a/|/b/"]);
    let answer = |v: &Visit| sg.react(v).unwrap_or(Reaction::HttpStatus(200));
    assert_eq!(answer(&visit([8, 8, 8, 8], Some("ES"), "/")), Reaction::HttpStatus(403));
    assert_eq!(
        answer(&visit([127, 0, 0, 1], None, "/a/")),
        Reaction::PermanentRedirect("/b/".to_owned())
    );
    assert_eq!(answer(&visit([8, 8, 8, 8], Some("FR"), "/a/")), Reaction::HttpStatus(200));
    assert_eq!(answer(&visit([8, 8, 8, 8], None, "/")), Reaction::HttpStatus(200));
    assert_eq!(answer(&visit([8, 8, 8, 8], Some("JP"), "/")), Reaction::HttpStatus(200));
}
