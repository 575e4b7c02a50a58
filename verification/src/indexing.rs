//! The index and the scan: when the answer that a group finds through its
//! index is the answer of a plain scan of all its rules in the order in
//! which they were added.

use crate::decimal::is_digit;
use crate::group::{first_hit, scan, visitor_keys, SecurityGroupView};
use crate::ip::{ipv4_text, lemma_ipv4_of_text, lemma_ipv4_text_shape, Ipv4Addr};
use crate::proto::{
    ends_with_slash, AccessView, ReactionView, SourceView, TargetView, VisitorFacts,
};
use crate::rule::{
    access_allows, access_keys, lemma_access_keys_push, lemma_target_keys_push, target_keys,
    targets_admit, RuleView,
};
use vstd::prelude::*;

verus! {

/// The group that comes of adding the rules of `rules` in order.
pub open spec fn add_all(g: SecurityGroupView, rules: Seq<RuleView>) -> SecurityGroupView
    decreases rules.len(),
{
    if rules.len() == 0 {
        g
    } else {
        add_all(g, rules.drop_last()).add(rules.last())
    }
}

/// Whether the visitor is looked up under one of the rule's index keys.
pub open spec fn shares_key(r: RuleView, v: VisitorFacts) -> bool {
    exists|k: Seq<char>| visitor_keys(v).contains(k) && r.index_keys().contains(k)
}

/// Whether the keys of the rule, if it has any, say exactly whether it
/// applies to the visitor.
pub open spec fn keyed_exactly(r: RuleView, v: VisitorFacts) -> bool {
    r.index_keys().len() > 0 ==> (shares_key(r, v) <==> r.react(v) is Some)
}

/// Whether all the rules that apply to the visitor give the same answer. At
/// most one rule that applies is the plainest case of it.
pub open spec fn answers_agree(rules: Seq<RuleView>, v: VisitorFacts) -> bool {
    forall|i: int, j: int|
        0 <= i < j < rules.len() && (#[trigger] rules[i]).react(v) is Some && (
        #[trigger] rules[j]).react(v) is Some ==> rules[i].react(v) == rules[j].react(v)
}

/// The rules of `rules` that have no index key.
pub open spec fn unkeyed(rules: Seq<RuleView>) -> Seq<RuleView> {
    rules.filter(|r: RuleView| r.index_keys().len() == 0)
}

/// Whether one of the rules has the index key `k`.
pub open spec fn some_rule_has(rules: Seq<RuleView>, k: Seq<char>) -> bool {
    exists|i: int| 0 <= i < rules.len() && (#[trigger] rules[i]).index_keys().contains(k)
}

/// Whether one of the rules has the index key `k` and the reaction `x`.
pub open spec fn some_rule_gives(rules: Seq<RuleView>, k: Seq<char>, x: ReactionView) -> bool {
    exists|i: int|
        0 <= i < rules.len() && (#[trigger] rules[i]).index_keys().contains(k) && rules[i].reaction
            == x
}

/// In a group built of rules, the list that is scanned holds the rules
/// without keys in their order, and the index holds exactly the keys of the
/// rules, each with the reaction of a rule that has the key.
pub proof fn lemma_built(name: Seq<char>, rules: Seq<RuleView>)
    ensures
        ({
            let g = add_all(SecurityGroupView::new(name), rules);
            &&& g.non_indexed == unkeyed(rules)
            &&& forall|k: Seq<char>| #[trigger] g.index.contains_key(k) <==> some_rule_has(rules, k)
            &&& forall|k: Seq<char>| #[trigger]
                g.index.contains_key(k) ==> some_rule_gives(rules, k, g.index[k])
        }),
    decreases rules.len(),
{
    let keyless = |r: RuleView| r.index_keys().len() == 0;
    let g = add_all(SecurityGroupView::new(name), rules);
    if rules.len() == 0 {
        reveal(Seq::filter);
        assert(unkeyed(rules) == Seq::<RuleView>::empty());
    } else {
        let init = rules.drop_last();
        let last = rules.last();
        let before = add_all(SecurityGroupView::new(name), init);
        lemma_built(name, init);
        assert(init.push(last) == rules);
        init.lemma_filter_push(last, keyless);
        assert forall|k: Seq<char>| some_rule_has(rules, k) <==> (some_rule_has(init, k)
            || last.index_keys().contains(k)) by {
            if some_rule_has(init, k) {
                let i = choose|i: int|
                    0 <= i < init.len() && (#[trigger] init[i]).index_keys().contains(k);
                assert(rules[i].index_keys().contains(k));
            }
            if last.index_keys().contains(k) {
                assert(rules[rules.len() - 1].index_keys().contains(k));
            }
            if some_rule_has(rules, k) {
                let i = choose|i: int|
                    0 <= i < rules.len() && (#[trigger] rules[i]).index_keys().contains(k);
                if i < init.len() {
                    assert(init[i].index_keys().contains(k));
                }
            }
        }
        assert forall|k: Seq<char>| #[trigger] g.index.contains_key(k) implies some_rule_gives(
            rules,
            k,
            g.index[k],
        ) by {
            if last.index_keys().contains(k) {
                assert(rules[rules.len() - 1].index_keys().contains(k));
            } else {
                assert(before.index.contains_key(k));
                let i = choose|i: int|
                    0 <= i < init.len() && (#[trigger] init[i]).index_keys().contains(k)
                        && init[i].reaction == before.index[k];
                assert(rules[i].index_keys().contains(k));
            }
        }
    }
}

/// The reaction that the index gives for keys is the one that it holds for
/// one of them, and it gives none only where it has none of them.
pub proof fn lemma_first_hit(index: Map<Seq<char>, ReactionView>, keys: Seq<Seq<char>>)
    ensures
        match first_hit(index, keys) {
            Some(x) => exists|k: Seq<char>|
                keys.contains(k) && #[trigger] index.contains_key(k) && index[k] == x,
            None => forall|k: Seq<char>| keys.contains(k) ==> !#[trigger] index.contains_key(k),
        },
    decreases keys.len(),
{
    if keys.len() > 0 {
        let rest = keys.drop_first();
        lemma_first_hit(index, rest);
        if index.contains_key(keys.first()) {
            assert(keys.contains(keys[0]));
        } else {
            match first_hit(index, rest) {
                Some(x) => {
                    let k = choose|k: Seq<char>|
                        rest.contains(k) && #[trigger] index.contains_key(k) && index[k] == x;
                    let j = choose|j: int| 0 <= j < rest.len() && rest[j] == k;
                    assert(keys[j + 1] == k);
                },
                None => {
                    assert forall|k: Seq<char>| keys.contains(k) implies !#[trigger]
                        index.contains_key(k) by {
                        let j = choose|j: int| 0 <= j < keys.len() && keys[j] == k;
                        if j > 0 {
                            assert(rest[j - 1] == k);
                        }
                    }
                },
            }
        }
    }
}

/// The answer of a scan is the answer of one of the rules, and there is one
/// as soon as one of the rules applies.
pub proof fn lemma_scan_answer(rules: Seq<RuleView>, v: VisitorFacts)
    ensures
        scan(rules, v) is Some ==> exists|j: int|
            0 <= j < rules.len() && (#[trigger] rules[j]).react(v) == scan(rules, v),
        scan(rules, v) is None ==> forall|j: int|
            0 <= j < rules.len() ==> (#[trigger] rules[j]).react(v) is None,
    decreases rules.len(),
{
    if rules.len() > 0 {
        let init = rules.drop_last();
        lemma_scan_answer(init, v);
        if scan(init, v) is Some {
            let j = choose|j: int|
                0 <= j < init.len() && (#[trigger] init[j]).react(v) == scan(init, v);
            assert(rules[j] == init[j]);
        } else {
            assert(rules[rules.len() - 1].react(v) == scan(rules, v));
            assert forall|j: int| 0 <= j < rules.len() && scan(rules, v) is None implies (
            #[trigger] rules[j]).react(v) is None by {
                if j < init.len() {
                    assert(init[j] == rules[j]);
                }
            }
        }
    }
}

/// Where all the rules that apply to the visitor give the same answer, the
/// scan gives the answer of any rule that applies.
pub proof fn lemma_scan_only(rules: Seq<RuleView>, v: VisitorFacts, i: int)
    requires
        0 <= i < rules.len(),
        rules[i].react(v) is Some,
        answers_agree(rules, v),
    ensures
        scan(rules, v) == rules[i].react(v),
{
    lemma_scan_answer(rules, v);
    let j = choose|j: int| 0 <= j < rules.len() && (#[trigger] rules[j]).react(v) == scan(rules, v);
    if i < j {
        assert(rules[i].react(v) == rules[j].react(v));
    } else if j < i {
        assert(rules[j].react(v) == rules[i].react(v));
    }
}

/// Leaving out rules that do not apply to the visitor does not change the
/// answer of the scan.
pub proof fn lemma_scan_unkeyed(rules: Seq<RuleView>, v: VisitorFacts)
    requires
        forall|i: int|
            0 <= i < rules.len() && (#[trigger] rules[i]).index_keys().len() > 0 ==> rules[i].react(
                v,
            ) is None,
    ensures
        scan(unkeyed(rules), v) == scan(rules, v),
    decreases rules.len(),
{
    let keyless = |r: RuleView| r.index_keys().len() == 0;
    if rules.len() == 0 {
        reveal(Seq::filter);
        assert(unkeyed(rules) == Seq::<RuleView>::empty());
    } else {
        let init = rules.drop_last();
        let last = rules.last();
        assert forall|i: int| 0 <= i < init.len() && (#[trigger] init[i]).index_keys().len()
            > 0 implies init[i].react(v) is None by {
            assert(init[i] == rules[i]);
        }
        lemma_scan_unkeyed(init, v);
        assert(init.push(last) == rules);
        init.lemma_filter_push(last, keyless);
        if last.index_keys().len() == 0 {
            assert(unkeyed(rules).drop_last() == unkeyed(init));
        } else {
            assert(rules[rules.len() - 1].react(v) is None);
        }
    }
}

/// Indexing equivalence. Take rules of which those that apply to a visitor
/// all give the same answer, and of which each that has index keys applies
/// to the visitor exactly when the visitor is looked up under one of them.
/// Then the group built of these rules gives the visitor the answer of a scan
/// of the rules in the order in which they were added.
pub proof fn lemma_index_agrees_with_scan(name: Seq<char>, rules: Seq<RuleView>, v: VisitorFacts)
    requires
        answers_agree(rules, v),
        forall|i: int| 0 <= i < rules.len() ==> keyed_exactly(#[trigger] rules[i], v),
    ensures
        add_all(SecurityGroupView::new(name), rules).react(v) == scan(rules, v),
{
    let g = add_all(SecurityGroupView::new(name), rules);
    let keys = visitor_keys(v);
    lemma_built(name, rules);
    lemma_first_hit(g.index, keys);
    match first_hit(g.index, keys) {
        Some(x) => {
            let k = choose|k: Seq<char>|
                keys.contains(k) && #[trigger] g.index.contains_key(k) && g.index[k] == x;
            assert(some_rule_gives(rules, k, g.index[k]));
            let i = choose|i: int|
                0 <= i < rules.len() && (#[trigger] rules[i]).index_keys().contains(k)
                    && rules[i].reaction == x;
            assert(rules[i].index_keys().len() > 0);
            assert(keyed_exactly(rules[i], v));
            assert(shares_key(rules[i], v));
            lemma_scan_only(rules, v, i);
        },
        None => {
            assert forall|i: int| 0 <= i < rules.len() && (#[trigger] rules[i]).index_keys().len()
                > 0 implies rules[i].react(v) is None by {
                assert(keyed_exactly(rules[i], v));
                if shares_key(rules[i], v) {
                    let k = choose|k: Seq<char>|
                        keys.contains(k) && rules[i].index_keys().contains(k);
                    assert(some_rule_has(rules, k));
                    assert(g.index.contains_key(k));
                }
            }
            lemma_scan_unkeyed(rules, v);
        },
    }
}

/// Whether the visitor is as a resolver hands it over: the URI starts with
/// `/`, and the country, where known, is a code of two characters that does
/// not start with `/`.
pub open spec fn plain_visitor(v: VisitorFacts) -> bool {
    &&& v.uri.len() > 0 && v.uri[0] == '/'
    &&& v.country matches Some(c) ==> c.len() == 2 && c[0] != '/'
}

/// Whether the rule is about every visitor and all its targets are paths
/// that start with `/` and do not end with `/`.
pub open spec fn path_rule(r: RuleView) -> bool {
    &&& r.is_access_trivial()
    &&& forall|i: int|
        0 <= i < r.target.len() ==> (#[trigger] r.target[i] matches TargetView::Path(p) && p.len()
            > 0 && p[0] == '/' && p.last() != '/')
}

/// Whether the rule guards every part of the site and all its access entries
/// let in an address, or a country by a code of two characters that does not
/// start with `/`.
pub open spec fn source_rule(r: RuleView) -> bool {
    &&& r.is_target_trivial()
    &&& forall|i: int|
        0 <= i < r.access.len() ==> match #[trigger] r.access[i] {
            AccessView::From(SourceView::FromIpv4(_)) => true,
            AccessView::From(SourceView::FromCountry(c)) => c.len() == 2 && c[0] != '/',
            _ => false,
        }
}

/// A key is one of the keys of targets exactly where it is a key of one of
/// the targets.
proof fn lemma_target_keys_contains(target: Seq<TargetView>, k: Seq<char>)
    ensures
        target_keys(target).contains(k) <==> exists|i: int|
            0 <= i < target.len() && (#[trigger] target[i]).keys().contains(k),
    decreases target.len(),
{
    if target.len() == 0 {
        assert(target.map_values(|t: TargetView| t.keys()) == Seq::<Seq<Seq<char>>>::empty());
    } else {
        let init = target.drop_last();
        let last = target.last();
        lemma_target_keys_contains(init, k);
        lemma_target_keys_push(init, last);
        assert(init.push(last) == target);
        let all = target_keys(init) + last.keys();
        if target_keys(target).contains(k) {
            let j = choose|j: int| 0 <= j < all.len() && all[j] == k;
            if j < target_keys(init).len() {
                assert(target_keys(init)[j] == k);
                let i = choose|i: int|
                    0 <= i < init.len() && (#[trigger] init[i]).keys().contains(k);
                assert(target[i].keys().contains(k));
            } else {
                assert(last.keys()[j - target_keys(init).len()] == k);
                assert(target[target.len() - 1].keys().contains(k));
            }
        }
        if exists|i: int| 0 <= i < target.len() && (#[trigger] target[i]).keys().contains(k) {
            let i = choose|i: int|
                0 <= i < target.len() && (#[trigger] target[i]).keys().contains(k);
            if i < init.len() {
                assert(init[i].keys().contains(k));
                let j = choose|j: int|
                    0 <= j < target_keys(init).len() && target_keys(init)[j] == k;
                assert(all[j] == k);
            } else {
                let j = choose|j: int| 0 <= j < last.keys().len() && last.keys()[j] == k;
                assert(all[target_keys(init).len() + j] == k);
            }
        }
    }
}

/// A key is one of the keys of access entries exactly where it is a key of
/// one of the entries.
proof fn lemma_access_keys_contains(access: Seq<AccessView>, k: Seq<char>)
    ensures
        access_keys(access).contains(k) <==> exists|i: int|
            0 <= i < access.len() && (#[trigger] access[i]).keys().contains(k),
    decreases access.len(),
{
    if access.len() == 0 {
        assert(access.map_values(|a: AccessView| a.keys()) == Seq::<Seq<Seq<char>>>::empty());
    } else {
        let init = access.drop_last();
        let last = access.last();
        lemma_access_keys_contains(init, k);
        lemma_access_keys_push(init, last);
        assert(init.push(last) == access);
        let all = access_keys(init) + last.keys();
        if access_keys(access).contains(k) {
            let j = choose|j: int| 0 <= j < all.len() && all[j] == k;
            if j < access_keys(init).len() {
                assert(access_keys(init)[j] == k);
                let i = choose|i: int|
                    0 <= i < init.len() && (#[trigger] init[i]).keys().contains(k);
                assert(access[i].keys().contains(k));
            } else {
                assert(last.keys()[j - access_keys(init).len()] == k);
                assert(access[access.len() - 1].keys().contains(k));
            }
        }
        if exists|i: int| 0 <= i < access.len() && (#[trigger] access[i]).keys().contains(k) {
            let i = choose|i: int|
                0 <= i < access.len() && (#[trigger] access[i]).keys().contains(k);
            if i < init.len() {
                assert(init[i].keys().contains(k));
                let j = choose|j: int|
                    0 <= j < access_keys(init).len() && access_keys(init)[j] == k;
                assert(all[j] == k);
            } else {
                let j = choose|j: int| 0 <= j < last.keys().len() && last.keys()[j] == k;
                assert(all[access_keys(init).len() + j] == k);
            }
        }
    }
}

/// The keys that a visitor is looked up under are the address, the country
/// where known, the URI with a `/` at its end if it has none, and the URI.
proof fn lemma_visitor_keys_contains(v: VisitorFacts, k: Seq<char>)
    ensures
        visitor_keys(v).contains(k) <==> (k == ipv4_text(v.ip) || v.country == Some(k) || (
        !ends_with_slash(v.uri) && k == v.uri.push('/')) || k == v.uri),
{
    let keys = visitor_keys(v);
    let country = match v.country {
        Some(c) => seq![c],
        None => Seq::<Seq<char>>::empty(),
    };
    let slashed = if ends_with_slash(v.uri) {
        Seq::<Seq<char>>::empty()
    } else {
        seq![v.uri.push('/')]
    };
    assert(keys == seq![ipv4_text(v.ip)] + country + slashed + seq![v.uri]);
    if visitor_keys(v).contains(k) {
        let j = choose|j: int| 0 <= j < keys.len() && keys[j] == k;
    }
    assert(keys[0] == ipv4_text(v.ip));
    assert(keys[keys.len() - 1] == v.uri);
    if v.country is Some {
        assert(keys[1] == v.country->0);
    }
    if !ends_with_slash(v.uri) {
        assert(keys[keys.len() - 2] == v.uri.push('/'));
    }
}

/// An access list of entries that all let a source in lets the visitor in
/// exactly where one of the entries has a say on the visitor.
proof fn lemma_letting_in(access: Seq<AccessView>, v: VisitorFacts)
    requires
        forall|i: int| 0 <= i < access.len() ==> #[trigger] access[i] is From,
    ensures
        access_allows(access, v) <==> exists|i: int|
            0 <= i < access.len() && (#[trigger] access[i]).fires(v),
    decreases access.len(),
{
    if access.len() > 0 {
        let init = access.drop_last();
        assert forall|i: int| 0 <= i < init.len() implies #[trigger] init[i] is From by {
            assert(init[i] == access[i]);
        }
        lemma_letting_in(init, v);
        if access.last().fires(v) {
            assert(access[access.len() - 1].fires(v));
        } else {
            if access_allows(init, v) {
                let i = choose|i: int| 0 <= i < init.len() && (#[trigger] init[i]).fires(v);
                assert(access[i].fires(v));
            }
            if exists|i: int| 0 <= i < access.len() && (#[trigger] access[i]).fires(v) {
                let i = choose|i: int| 0 <= i < access.len() && (#[trigger] access[i]).fires(v);
                assert(init[i].fires(v));
            }
        }
    }
}

/// Two addresses with one dotted notation are one address.
proof fn lemma_ipv4_text_injective(a: Ipv4Addr, b: Ipv4Addr)
    requires
        ipv4_text(a) == ipv4_text(b),
    ensures
        a == b,
{
    lemma_ipv4_of_text(a);
    lemma_ipv4_of_text(b);
}

/// The keys of a rule about paths say exactly whether the rule applies to a
/// visitor as a resolver hands it over.
pub proof fn lemma_path_rule_keyed_exactly(r: RuleView, v: VisitorFacts)
    requires
        path_rule(r),
        plain_visitor(v),
    ensures
        keyed_exactly(r, v),
{
    lemma_ipv4_text_shape(v.ip);
    let any_source = seq![AccessView::From(SourceView::Any)];
    assert(any_source.last().fires(v));
    assert(access_allows(r.access, v));
    if shares_key(r, v) {
        let k = choose|k: Seq<char>| visitor_keys(v).contains(k) && r.index_keys().contains(k);
        lemma_visitor_keys_contains(v, k);
        lemma_target_keys_contains(r.target, k);
        let i = choose|i: int|
            0 <= i < r.target.len() && (#[trigger] r.target[i]).keys().contains(k);
        let p = r.target[i]->Path_0;
        let j = choose|j: int| 0 <= j < r.target[i].keys().len() && r.target[i].keys()[j] == k;
        assert(k == p || k == p.push('/'));
        assert(k[0] == '/');
        if k == v.uri.push('/') {
            assert(k.last() == '/');
            assert(k == p.push('/'));
            assert(v.uri == k.drop_last());
            assert(p == k.drop_last());
        }
        assert(r.target[i].admits(v.uri));
    }
    if r.react(v) is Some {
        let i = choose|i: int| 0 <= i < r.target.len() && (#[trigger] r.target[i]).admits(v.uri);
        let p = r.target[i]->Path_0;
        let k = v.uri;
        lemma_visitor_keys_contains(v, k);
        lemma_target_keys_contains(r.target, k);
        if v.uri == p {
            assert(r.target[i].keys()[1] == k);
        } else {
            assert(r.target[i].keys()[0] == k);
        }
        assert(r.target[i].keys().contains(k));
    }
}

/// The keys of a rule about addresses and countries say exactly whether the
/// rule applies to a visitor as a resolver hands it over.
pub proof fn lemma_source_rule_keyed_exactly(r: RuleView, v: VisitorFacts)
    requires
        source_rule(r),
        plain_visitor(v),
    ensures
        keyed_exactly(r, v),
{
    lemma_ipv4_text_shape(v.ip);
    if r.index_keys().len() > 0 {
        if r.is_access_trivial() {
            assert(r.access[0] == AccessView::From(SourceView::Any));
        }
        assert(r.index_keys() == access_keys(r.access));
        assert(r.target[0].admits(v.uri));
        assert(targets_admit(r.target, v.uri));
        assert forall|i: int| 0 <= i < r.access.len() implies #[trigger] r.access[i] is From by {}
        lemma_letting_in(r.access, v);
        if shares_key(r, v) {
            let k = choose|k: Seq<char>| visitor_keys(v).contains(k) && r.index_keys().contains(k);
            lemma_visitor_keys_contains(v, k);
            lemma_access_keys_contains(r.access, k);
            let i = choose|i: int|
                0 <= i < r.access.len() && (#[trigger] r.access[i]).keys().contains(k);
            let j = choose|j: int| 0 <= j < r.access[i].keys().len() && r.access[i].keys()[j] == k;
            match r.access[i] {
                AccessView::From(SourceView::FromIpv4(ip)) => {
                    lemma_ipv4_text_shape(ip);
                    assert(k == ipv4_text(ip));
                    assert(is_digit(k[0]));
                    lemma_ipv4_text_injective(ip, v.ip);
                },
                AccessView::From(SourceView::FromCountry(c)) => {
                    assert(k == c);
                },
                _ => {},
            }
            assert(r.access[i].fires(v));
        }
        if r.react(v) is Some {
            let i = choose|i: int| 0 <= i < r.access.len() && (#[trigger] r.access[i]).fires(v);
            let k = r.access[i].keys()[0];
            lemma_visitor_keys_contains(v, k);
            lemma_access_keys_contains(r.access, k);
            assert(r.access[i].keys().contains(k));
        }
    }
}

/// Last writer wins: after a rule with the index key `k`, and then a second
/// rule with that key, were added to a group, the index holds for `k` the
/// reaction of the second rule.
pub proof fn lemma_last_writer_wins(g: SecurityGroupView, a: RuleView, b: RuleView, k: Seq<char>)
    requires
        a.index_keys().contains(k),
        b.index_keys().contains(k),
    ensures
        g.add(a).index.contains_key(k) && g.add(a).index[k] == a.reaction,
        g.add(a).add(b).index.contains_key(k) && g.add(a).add(b).index[k] == b.reaction,
{
}

} // verus!
