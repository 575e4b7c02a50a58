//! The security group: the rules of one named group, kept as an exact-match
//! index for the rules that have keys and a list to scan for the others.

use crate::proto::{
    ends_with_slash, option_reaction, Reaction, ReactionView, Visitor, VisitorFacts,
};
use crate::ip::ipv4_text;
use crate::rule::{Rule, RuleView};
use crate::tags::TagMapView;
use crate::text::{first_char, last_char, split, split_text, texts, trim, trim_text};
use vstd::hash_map::StringHashMap;
use vstd::prelude::*;

verus! {

/// The rules of one named group. A rule with index keys stands in the
/// indexed list, and the index maps each of its keys to its reaction; a later
/// rule with the same key takes the key over. A rule without index keys
/// stands in the list that is scanned.
pub struct SecurityGroup {
    name: String,
    map_indexed: StringHashMap<Reaction>,
    list_indexed: Vec<Rule>,
    list_non_indexed: Vec<Rule>,
}

/// The model of a [`SecurityGroup`].
#[verifier::ext_equal]
pub struct SecurityGroupView {
    pub name: Seq<char>,
    pub index: Map<Seq<char>, ReactionView>,
    pub indexed: Seq<RuleView>,
    pub non_indexed: Seq<RuleView>,
}

/// The views of a sequence of rules.
pub open spec fn rule_views(s: Seq<Rule>) -> Seq<RuleView> {
    s.map_values(|r: Rule| r@)
}

/// The index with every reaction replaced by its view.
pub open spec fn index_view(m: Map<Seq<char>, Reaction>) -> Map<Seq<char>, ReactionView> {
    m.map_values(|r: Reaction| r@)
}

impl View for SecurityGroup {
    type V = SecurityGroupView;

    closed spec fn view(&self) -> SecurityGroupView {
        SecurityGroupView {
            name: self.name@,
            index: index_view(self.map_indexed@),
            indexed: rule_views(self.list_indexed@),
            non_indexed: rule_views(self.list_non_indexed@),
        }
    }
}

/// The index after every key of `keys` has been given to `reaction`.
pub open spec fn with_keys(
    index: Map<Seq<char>, ReactionView>,
    keys: Seq<Seq<char>>,
    reaction: ReactionView,
) -> Map<Seq<char>, ReactionView> {
    Map::new(
        |k: Seq<char>| index.contains_key(k) || keys.contains(k),
        |k: Seq<char>|
            if keys.contains(k) {
                reaction
            } else {
                index[k]
            },
    )
}

/// Whether the position `p` is one of `gone`.
pub open spec fn is_gone(gone: Seq<usize>, p: int) -> bool {
    exists|k: int| 0 <= k < gone.len() && #[trigger] gone[k] == p
}

/// The rules of `rules` that stay when the positions `gone` leave, where the
/// first rule of `rules` has the position `offset`. Their order is kept.
pub open spec fn kept(rules: Seq<RuleView>, offset: int, gone: Seq<usize>) -> Seq<RuleView>
    decreases rules.len(),
{
    if rules.len() == 0 {
        Seq::empty()
    } else if is_gone(gone, offset + rules.len() - 1) {
        kept(rules.drop_last(), offset, gone)
    } else {
        kept(rules.drop_last(), offset, gone).push(rules.last())
    }
}

/// The index keys of the rules of `indexed` whose position is one of `gone`.
pub open spec fn dropped_keys(indexed: Seq<RuleView>, gone: Seq<usize>) -> Set<Seq<char>> {
    Set::new(
        |k: Seq<char>|
            exists|p: int|
                0 <= p < indexed.len() && is_gone(gone, p) && (
                #[trigger] indexed[p]).index_keys().contains(k),
    )
}

/// The keys that a visitor is looked up under, in order: the address, the
/// country where known, the URI with a `/` at its end if it has none, and the
/// URI itself.
pub open spec fn visitor_keys(v: VisitorFacts) -> Seq<Seq<char>> {
    seq![ipv4_text(v.ip)] + (match v.country {
        Some(c) => seq![c],
        None => Seq::empty(),
    }) + (if ends_with_slash(v.uri) {
        Seq::empty()
    } else {
        seq![v.uri.push('/')]
    }) + seq![v.uri]
}

/// The reaction that the index holds for the first of `keys` that it has.
pub open spec fn first_hit(index: Map<Seq<char>, ReactionView>, keys: Seq<Seq<char>>) -> Option<
    ReactionView,
>
    decreases keys.len(),
{
    if keys.len() == 0 {
        None
    } else if index.contains_key(keys.first()) {
        Some(index[keys.first()])
    } else {
        first_hit(index, keys.drop_first())
    }
}

/// The answer of the first rule of `rules` that applies to the visitor.
pub open spec fn scan(rules: Seq<RuleView>, v: VisitorFacts) -> Option<ReactionView>
    decreases rules.len(),
{
    if rules.len() == 0 {
        None
    } else if scan(rules.drop_last(), v) is Some {
        scan(rules.drop_last(), v)
    } else {
        rules.last().react(v)
    }
}

/// The lines that rules are written as, each followed by a line feed.
pub open spec fn lines_text(rules: Seq<RuleView>) -> Seq<char>
    decreases rules.len(),
{
    if rules.len() == 0 {
        Seq::empty()
    } else {
        lines_text(rules.drop_last()) + rules.last().text().push('\n')
    }
}

/// The lines of the rules of `rules` whose tags pass `filter`, in order.
pub open spec fn matching_texts(rules: Seq<RuleView>, filter: TagMapView) -> Seq<Seq<char>> {
    rules.filter(|r: RuleView| filter.matches(r.tags)).map_values(|r: RuleView| r.text())
}

impl SecurityGroupView {
    /// The group `name` without rules.
    pub open spec fn new(name: Seq<char>) -> SecurityGroupView {
        SecurityGroupView {
            name,
            index: Map::empty(),
            indexed: Seq::empty(),
            non_indexed: Seq::empty(),
        }
    }

    /// All the rules in the order of their combined index: the indexed
    /// rules, then the others.
    pub open spec fn rules(self) -> Seq<RuleView> {
        self.indexed + self.non_indexed
    }

    /// The number of rules, as far as a `usize` counts.
    pub open spec fn count(self) -> nat {
        if self.rules().len() <= usize::MAX {
            self.rules().len()
        } else {
            usize::MAX as nat
        }
    }

    /// The group with one more rule. A rule with index keys gives each of
    /// them its reaction and joins the indexed list; any other rule joins the
    /// list that is scanned.
    pub open spec fn add(self, r: RuleView) -> SecurityGroupView {
        if r.index_keys().len() > 0 {
            SecurityGroupView {
                index: with_keys(self.index, r.index_keys(), r.reaction),
                indexed: self.indexed.push(r),
                ..self
            }
        } else {
            SecurityGroupView { non_indexed: self.non_indexed.push(r), ..self }
        }
    }

    /// The group without the rules at the combined indices `gone`. The index
    /// loses every key of an indexed rule that leaves.
    pub open spec fn remove_many(self, gone: Seq<usize>) -> SecurityGroupView {
        SecurityGroupView {
            name: self.name,
            index: self.index.remove_keys(dropped_keys(self.indexed, gone)),
            indexed: kept(self.indexed, 0, gone),
            non_indexed: kept(self.non_indexed, self.indexed.len() as int, gone),
        }
    }

    /// The group without any rule.
    pub open spec fn reset(self) -> SecurityGroupView {
        SecurityGroupView::new(self.name)
    }

    /// The group's answer to a visitor: what the index holds for the first
    /// of the visitor's keys that it has, or else the answer of the first
    /// rule of the scanned list that applies.
    pub open spec fn react(self, v: VisitorFacts) -> Option<ReactionView> {
        match first_hit(self.index, visitor_keys(v)) {
            Some(r) => Some(r),
            None => scan(self.non_indexed, v),
        }
    }

    /// The group after reading one line of a rules file: blank lines and
    /// lines that start with `#` are passed over, and so is a line that is
    /// not a rule.
    pub open spec fn load_line(self, line: Seq<char>) -> SecurityGroupView {
        let t = trim(line);
        if t.len() == 0 || t[0] == '#' {
            self
        } else {
            match RuleView::of(t) {
                Ok(r) => self.add(r),
                Err(_) => self,
            }
        }
    }

    /// The group after reading the lines of a rules file in order.
    pub open spec fn load(self, lines: Seq<Seq<char>>) -> SecurityGroupView
        decreases lines.len(),
    {
        if lines.len() == 0 {
            self
        } else {
            self.load(lines.drop_last()).load_line(lines.last())
        }
    }
}

/// The lines of two lists of rules are the lines of the first followed by
/// the lines of the second.
pub proof fn lemma_lines_text_add(a: Seq<RuleView>, b: Seq<RuleView>)
    ensures
        lines_text(a + b) == lines_text(a) + lines_text(b),
    decreases b.len(),
{
    if b.len() == 0 {
        assert(a + b == a);
    } else {
        lemma_lines_text_add(a, b.drop_last());
        assert((a + b).drop_last() == a + b.drop_last());
    }
}

/// Giving one more key to a reaction is an insertion into the index.
pub proof fn lemma_with_keys_push(
    index: Map<Seq<char>, ReactionView>,
    keys: Seq<Seq<char>>,
    next: Seq<char>,
    reaction: ReactionView,
)
    ensures
        with_keys(index, keys.push(next), reaction) == with_keys(index, keys, reaction).insert(
            next,
            reaction,
        ),
{
    let grown = keys.push(next);
    assert forall|k: Seq<char>| grown.contains(k) <==> (keys.contains(k) || k == next) by {
        if keys.contains(k) {
            let j = choose|j: int| 0 <= j < keys.len() && keys[j] == k;
            assert(grown[j] == k);
        }
        if k == next {
            assert(grown[keys.len() as int] == k);
        }
        if grown.contains(k) {
            let j = choose|j: int| 0 <= j < grown.len() && grown[j] == k;
            if j < keys.len() {
                assert(keys[j] == k);
            }
        }
    }
    let a = with_keys(index, grown, reaction);
    let b = with_keys(index, keys, reaction).insert(next, reaction);
    assert forall|k: Seq<char>| a.contains_key(k) <==> b.contains_key(k) by {}
    assert forall|k: Seq<char>| a.contains_key(k) implies a[k] == b[k] by {}
    assert(a =~= b);
}

/// One more position that leaves adds the index keys of the rule at that
/// position, if there is one, to the keys that are dropped.
pub proof fn lemma_dropped_keys_push(indexed: Seq<RuleView>, gone: Seq<usize>, next: usize)
    ensures
        dropped_keys(indexed, gone.push(next)) == dropped_keys(indexed, gone) + (if next
            < indexed.len() {
            indexed[next as int].index_keys().to_set()
        } else {
            Set::empty()
        }),
{
    let grown = gone.push(next);
    assert forall|p: int| is_gone(grown, p) <==> (is_gone(gone, p) || p == next) by {
        if is_gone(gone, p) {
            let k = choose|k: int| 0 <= k < gone.len() && #[trigger] gone[k] == p;
            assert(grown[k] == p);
        }
        if p == next {
            assert(grown[gone.len() as int] == p);
        }
        if is_gone(grown, p) {
            let k = choose|k: int| 0 <= k < grown.len() && #[trigger] grown[k] == p;
            if k < gone.len() {
                assert(gone[k] == p);
            }
        }
    }
    let a = dropped_keys(indexed, grown);
    let extra = if next < indexed.len() {
        indexed[next as int].index_keys().to_set()
    } else {
        Set::empty()
    };
    let b = dropped_keys(indexed, gone) + extra;
    assert forall|k: Seq<char>| a.contains(k) <==> b.contains(k) by {
        if a.contains(k) {
            let p = choose|p: int|
                0 <= p < indexed.len() && is_gone(grown, p) && (
                #[trigger] indexed[p]).index_keys().contains(k);
            if is_gone(gone, p) {
                assert(dropped_keys(indexed, gone).contains(k));
            } else {
                assert(extra.contains(k));
            }
        }
        if dropped_keys(indexed, gone).contains(k) {
            let p = choose|p: int|
                0 <= p < indexed.len() && is_gone(gone, p) && (
                #[trigger] indexed[p]).index_keys().contains(k);
            assert(is_gone(grown, p));
        }
        if extra.contains(k) {
            assert(is_gone(grown, next as int));
            assert(indexed[next as int].index_keys().contains(k));
        }
    }
    assert(a =~= b);
}

/// Where none of the positions of the rules leaves, all the rules stay.
pub proof fn lemma_kept_all(rules: Seq<RuleView>, offset: int, gone: Seq<usize>)
    requires
        forall|p: int| offset <= p < offset + rules.len() ==> !is_gone(gone, p),
    ensures
        kept(rules, offset, gone) == rules,
    decreases rules.len(),
{
    if rules.len() > 0 {
        lemma_kept_all(rules.drop_last(), offset, gone);
        assert(rules.drop_last().push(rules.last()) == rules);
    }
}

/// Where one position of the rules leaves, the rule at that position is
/// removed.
pub proof fn lemma_kept_one(rules: Seq<RuleView>, offset: int, gone: usize)
    requires
        offset <= gone < offset + rules.len(),
    ensures
        kept(rules, offset, seq![gone]) == rules.remove(gone - offset),
    decreases rules.len(),
{
    let only = seq![gone];
    assert forall|p: int| is_gone(only, p) <==> p == gone by {
        if p == gone {
            assert(only[0] == p);
        }
    }
    let init = rules.drop_last();
    if gone == offset + rules.len() - 1 {
        lemma_kept_all(init, offset, only);
        assert(rules.remove(gone - offset) == init);
    } else {
        lemma_kept_one(init, offset, gone);
        assert(init.remove(gone - offset).push(rules.last()) == rules.remove(gone - offset));
    }
}

/// A rule that applies to the visitor, after rules of which none does, gives
/// the answer of the scan.
pub proof fn lemma_scan_found(rules: Seq<RuleView>, v: VisitorFacts, i: int)
    requires
        0 <= i < rules.len(),
        scan(rules.take(i), v) is None,
        rules[i].react(v) is Some,
    ensures
        scan(rules, v) == rules[i].react(v),
    decreases rules.len(),
{
    if rules.len() == i + 1 {
        assert(rules.drop_last() == rules.take(i));
    } else {
        assert(rules.drop_last().take(i) == rules.take(i));
        lemma_scan_found(rules.drop_last(), v, i);
    }
}

/// Whether `i` is one of `indexes`.
fn holds_index(indexes: &Vec<usize>, offset: usize, i: usize) -> (r: bool)
    ensures
        r == is_gone(indexes@, offset + i),
{
    for k in 0..indexes.len()
        invariant
            forall|j: int| 0 <= j < k ==> #[trigger] indexes@[j] != offset + i,
    {
        if indexes[k] >= offset && indexes[k] - offset == i {
            return true;
        }
    }
    false
}

/// The rules of `rules` whose position, counted from `offset`, is not one of
/// `indexes`.
fn keep_rules(rules: &Vec<Rule>, offset: usize, indexes: &Vec<usize>) -> (out: Vec<Rule>)
    ensures
        rule_views(out@) == kept(rule_views(rules@), offset as int, indexes@),
{
    let mut out: Vec<Rule> = Vec::new();
    let ghost all = rule_views(rules@);
    assert(all.take(0) == Seq::<RuleView>::empty());
    for i in 0..rules.len()
        invariant
            all == rule_views(rules@),
            rule_views(out@) == kept(all.take(i as int), offset as int, indexes@),
    {
        proof {
            assert(all.take(i + 1).drop_last() == all.take(i as int));
            assert(all.take(i + 1).last() == rules@[i as int]@);
        }
        if !holds_index(indexes, offset, i) {
            let rule = rules[i].clone();
            proof {
                out@.lemma_push_map_commute(|r: Rule| r@, rule);
            }
            out.push(rule);
        }
    }
    assert(all.take(rules@.len() as int) == all);
    out
}

/// The keys that a visitor is looked up under, in order.
pub fn visitor_index_keys<V: Visitor>(visitor: &V) -> (keys: Vec<String>)
    ensures
        texts(keys@) == visitor_keys(visitor.facts()),
{
    let uri = visitor.uri();
    let mut keys: Vec<String> = Vec::new();
    let ip = visitor.ip().to_string();
    proof {
        keys@.lemma_push_map_commute(|s: String| s@, ip);
    }
    keys.push(ip);
    if let Some(country) = visitor.country() {
        proof {
            keys@.lemma_push_map_commute(|s: String| s@, country);
        }
        keys.push(country);
    }
    if last_char(uri.as_str()) != Some('/') {
        let mut slashed = uri.clone();
        slashed.push('/');
        proof {
            keys@.lemma_push_map_commute(|s: String| s@, slashed);
        }
        keys.push(slashed);
    }
    proof {
        keys@.lemma_push_map_commute(|s: String| s@, uri);
    }
    keys.push(uri);
    assert(texts(keys@) =~= visitor_keys(visitor.facts()));
    keys
}

impl SecurityGroup {
    /// The group `name` without rules.
    pub fn new(name: &str) -> (g: Self)
        ensures
            g@ == SecurityGroupView::new(name@),
    {
        let g = SecurityGroup {
            name: name.to_owned(),
            list_indexed: Vec::new(),
            list_non_indexed: Vec::new(),
            map_indexed: StringHashMap::new(),
        };
        assert(g@.index =~= Map::empty());
        assert(g@.indexed =~= Seq::empty());
        assert(g@.non_indexed =~= Seq::empty());
        g
    }

    /// The name of the group.
    pub fn name(&self) -> (name: &String)
        ensures
            name@ == self@.name,
    {
        &self.name
    }

    /// The exact-match index.
    pub fn map_indexed(&self) -> (m: &StringHashMap<Reaction>)
        ensures
            index_view(m@) == self@.index,
    {
        &self.map_indexed
    }

    /// The number of rules, or the greatest `usize` if there are more.
    pub fn count(&self) -> (n: usize)
        ensures
            n == self@.count(),
    {
        self.list_indexed.len().saturating_add(self.list_non_indexed.len())
    }

    /// The rules with index keys, in the order in which they were added.
    pub fn list_indexed(&self) -> (rules: &Vec<Rule>)
        ensures
            rule_views(rules@) == self@.indexed,
    {
        &self.list_indexed
    }

    /// The rules without index keys, in the order in which they were added.
    pub fn list_non_indexed(&self) -> (rules: &Vec<Rule>)
        ensures
            rule_views(rules@) == self@.non_indexed,
    {
        &self.list_non_indexed
    }

    /// Adds a rule.
    pub fn add(&mut self, r: Rule)
        ensures
            final(self)@ == old(self)@.add(r@),
    {
        let keys = r.index_keys();
        if keys.len() > 0 {
            let ghost start = self@.index;
            let ghost pieces = texts(keys@);
            assert(with_keys(start, pieces.take(0), r@.reaction) =~= start);
            for i in 0..keys.len()
                invariant
                    pieces == texts(keys@),
                    self.name == old(self).name,
                    self.list_indexed == old(self).list_indexed,
                    self.list_non_indexed == old(self).list_non_indexed,
                    start == old(self)@.index,
                    self@.index == with_keys(start, pieces.take(i as int), r@.reaction),
            {
                let ghost before = self@.index;
                self.map_indexed.insert(keys[i].clone(), r.reaction.clone());
                proof {
                    let seen = pieces.take(i as int);
                    let next = keys@[i as int]@;
                    assert(pieces.take(i + 1) == seen.push(next));
                    assert(self@.index =~= before.insert(next, r@.reaction));
                    lemma_with_keys_push(start, seen, next, r@.reaction);
                }
            }
            assert(pieces.take(keys@.len() as int) == pieces);
            proof {
                self.list_indexed@.lemma_push_map_commute(|r: Rule| r@, r);
            }
            self.list_indexed.push(r);
        } else {
            proof {
                self.list_non_indexed@.lemma_push_map_commute(|r: Rule| r@, r);
            }
            self.list_non_indexed.push(r);
        }
    }

    /// Removes every rule.
    pub fn reset(&mut self)
        ensures
            final(self)@ == old(self)@.reset(),
    {
        self.map_indexed.clear();
        self.list_indexed.clear();
        self.list_non_indexed.clear();
        assert(self@.index =~= Map::empty());
        assert(self@.indexed =~= Seq::empty());
        assert(self@.non_indexed =~= Seq::empty());
    }

    /// Removes the rules at the combined indices `indexes`, and from the
    /// index every key of an indexed rule that leaves. The rules that stay
    /// keep their list and their order. An index that addresses no rule is
    /// passed over.
    pub fn remove_many(&mut self, indexes: Vec<usize>)
        ensures
            final(self)@ == old(self)@.remove_many(indexes@),
    {
        let ghost start = self@;
        let n = self.list_indexed.len();
        proof {
            assert(indexes@.take(0) == Seq::<usize>::empty());
            assert(dropped_keys(start.indexed, indexes@.take(0)) =~= Set::empty());
            assert(start.index.remove_keys(Set::empty()) =~= start.index);
        }
        for j in 0..indexes.len()
            invariant
                start == old(self)@,
                n == self.list_indexed.len(),
                self.name == old(self).name,
                self.list_indexed == old(self).list_indexed,
                self.list_non_indexed == old(self).list_non_indexed,
                self@.index == start.index.remove_keys(
                    dropped_keys(start.indexed, indexes@.take(j as int)),
                ),
        {
            let index = indexes[j];
            let ghost done = dropped_keys(start.indexed, indexes@.take(j as int));
            proof {
                assert(indexes@.take(j + 1) == indexes@.take(j as int).push(index));
                lemma_dropped_keys_push(start.indexed, indexes@.take(j as int), index);
            }
            if index < n {
                let keys = self.list_indexed[index].index_keys();
                let ghost pieces = texts(keys@);
                assert(pieces == start.indexed[index as int].index_keys());
                assert(done + pieces.take(0).to_set() =~= done);
                for m in 0..keys.len()
                    invariant
                        pieces == texts(keys@),
                        n == self.list_indexed.len(),
                        self.name == old(self).name,
                        self.list_indexed == old(self).list_indexed,
                        self.list_non_indexed == old(self).list_non_indexed,
                        self@.index == start.index.remove_keys(
                            done + pieces.take(m as int).to_set(),
                        ),
                {
                    let ghost before = self@.index;
                    self.map_indexed.remove(keys[m].as_str());
                    proof {
                        let next = keys@[m as int]@;
                        assert(self@.index =~= before.remove(next));
                        assert(pieces.take(m + 1) == pieces.take(m as int).push(next));
                        pieces.take(m as int).lemma_push_to_set_commute(next);
                        assert(self@.index =~= start.index.remove_keys(
                            done + pieces.take(m + 1).to_set(),
                        ));
                    }
                }
                assert(pieces.take(keys@.len() as int) == pieces);
            } else {
                assert(done + Set::<Seq<char>>::empty() =~= done);
            }
        }
        assert(indexes@.take(indexes@.len() as int) == indexes@);
        let non_indexed = keep_rules(&self.list_non_indexed, n, &indexes);
        let indexed = keep_rules(&self.list_indexed, 0, &indexes);
        self.list_non_indexed = non_indexed;
        self.list_indexed = indexed;
    }

    /// Removes the rule at the combined index `index`, if there is one.
    pub fn remove_by_index(&mut self, index: usize)
        ensures
            final(self)@ == old(self)@.remove_many(seq![index]),
            index < old(self)@.rules().len() ==> final(self)@.rules() == old(self)@.rules().remove(
                index as int,
            ),
            index >= old(self)@.rules().len() ==> final(self)@.rules() == old(self)@.rules(),
    {
        let ghost start = self@;
        let ghost only = seq![index];
        proof {
            assert forall|p: int| is_gone(only, p) <==> p == index by {
                if p == index {
                    assert(only[0] == p);
                }
            }
        }
        if index < self.list_indexed.len() {
            let mut one: Vec<usize> = Vec::new();
            one.push(index);
            assert(one@ == only);
            self.remove_many(one);
            proof {
                lemma_kept_one(start.indexed, 0, index);
                lemma_kept_all(start.non_indexed, start.indexed.len() as int, only);
                assert(self@.rules() =~= start.rules().remove(index as int));
            }
        } else {
            let real_index = index - self.list_indexed.len();
            proof {
                lemma_kept_all(start.indexed, 0, only);
                assert(dropped_keys(start.indexed, only) =~= Set::empty());
                assert(start.index.remove_keys(Set::empty()) =~= start.index);
            }
            if real_index < self.list_non_indexed.len() {
                self.list_non_indexed.remove(real_index);
                proof {
                    assert(rule_views(self.list_non_indexed@) =~= start.non_indexed.remove(
                        real_index as int,
                    ));
                    lemma_kept_one(start.non_indexed, start.indexed.len() as int, index);
                    assert(self@.rules() =~= start.rules().remove(index as int));
                }
            } else {
                proof {
                    lemma_kept_all(start.non_indexed, start.indexed.len() as int, only);
                }
            }
        }
    }

    /// Puts `r` in the place of the rule at the combined index `index`: that
    /// rule, if there is one, is removed and `r` is added.
    pub fn set_by_index(&mut self, index: usize, r: Rule)
        ensures
            final(self)@ == old(self)@.remove_many(seq![index]).add(r@),
    {
        self.remove_by_index(index);
        self.add(r);
    }

    /// Puts the one rule `r` in the place of the rules at the combined
    /// indices `indexes`: they are removed and `r` is added once.
    pub fn set_many(&mut self, indexes: Vec<usize>, r: Rule)
        ensures
            final(self)@ == old(self)@.remove_many(indexes@).add(r@),
    {
        self.remove_many(indexes);
        self.add(r);
    }

    /// The group's answer to a visitor, if it has one.
    pub fn react<V: Visitor>(&self, visitor: &V) -> (r: Option<Reaction>)
        ensures
            option_reaction(r) == self@.react(visitor.facts()),
    {
        let keys = visitor_index_keys(visitor);
        let ghost wanted = visitor_keys(visitor.facts());
        assert(wanted.skip(0) == wanted);
        for i in 0..keys.len()
            invariant
                wanted == texts(keys@),
                wanted == visitor_keys(visitor.facts()),
                first_hit(self@.index, wanted) == first_hit(self@.index, wanted.skip(i as int)),
        {
            proof {
                assert(wanted.skip(i as int).first() == keys@[i as int]@);
                assert(wanted.skip(i as int).drop_first() == wanted.skip(i + 1));
            }
            if let Some(reaction) = self.map_indexed.get(keys[i].as_str()) {
                assert(self@.index.contains_key(keys@[i as int]@));
                assert(self@.index[keys@[i as int]@] == reaction@);
                return Some(reaction.clone());
            }
            assert(!self@.index.contains_key(keys@[i as int]@));
        }
        let ghost rules = self@.non_indexed;
        assert(rules.take(0) == Seq::<RuleView>::empty());
        for i in 0..self.list_non_indexed.len()
            invariant
                rules == self@.non_indexed,
                first_hit(self@.index, visitor_keys(visitor.facts())) is None,
                scan(rules.take(i as int), visitor.facts()) is None,
        {
            proof {
                assert(rules.take(i + 1).drop_last() == rules.take(i as int));
                assert(rules.take(i + 1).last() == self.list_non_indexed@[i as int]@);
            }
            if let Some(reaction) = self.list_non_indexed[i].react(visitor) {
                proof {
                    lemma_scan_found(rules, visitor.facts(), i as int);
                }
                return Some(reaction);
            }
        }
        assert(rules.take(rules.len() as int) == rules);
        None
    }

    /// Writes the group to `w`, one rule a line: the indexed rules, then the
    /// others.
    pub fn to_writer(&self, w: &mut String)
        ensures
            final(w)@ == old(w)@ + lines_text(self@.rules()),
    {
        let ghost indexed = self@.indexed;
        assert(indexed.take(0) == Seq::<RuleView>::empty());
        assert(old(w)@ + lines_text(Seq::empty()) == old(w)@);
        for i in 0..self.list_indexed.len()
            invariant
                indexed == self@.indexed,
                w@ == old(w)@ + lines_text(indexed.take(i as int)),
        {
            proof {
                assert(indexed.take(i + 1).drop_last() == indexed.take(i as int));
                assert(indexed.take(i + 1).last() == self.list_indexed@[i as int]@);
            }
            w.append(self.list_indexed[i].to_string().as_str());
            w.push('\n');
        }
        assert(indexed.take(indexed.len() as int) == indexed);
        let ghost others = self@.non_indexed;
        let ghost half = w@;
        assert(others.take(0) == Seq::<RuleView>::empty());
        assert(half + lines_text(Seq::empty()) == half);
        for i in 0..self.list_non_indexed.len()
            invariant
                others == self@.non_indexed,
                w@ == half + lines_text(others.take(i as int)),
        {
            proof {
                assert(others.take(i + 1).drop_last() == others.take(i as int));
                assert(others.take(i + 1).last() == self.list_non_indexed@[i as int]@);
            }
            w.append(self.list_non_indexed[i].to_string().as_str());
            w.push('\n');
        }
        proof {
            assert(others.take(others.len() as int) == others);
            lemma_lines_text_add(indexed, others);
        }
    }

    /// Reads the group `name` from the text of a rules file, one rule a
    /// line. Blank lines and lines that start with `#` are passed over, and
    /// so is a line that is not a rule.
    pub fn from_reader(name: &str, r: &str) -> (out: Self)
        ensures
            out@ == SecurityGroupView::new(name@).load(split(r@, '\n')),
    {
        let mut out = Self::new(name);
        let lines = split_text(r, '\n');
        let ghost all = texts(lines@);
        assert(all.take(0) == Seq::<Seq<char>>::empty());
        for i in 0..lines.len()
            invariant
                all == texts(lines@),
                out@ == SecurityGroupView::new(name@).load(all.take(i as int)),
        {
            proof {
                assert(all.take(i + 1).drop_last() == all.take(i as int));
                assert(all.take(i + 1).last() == lines@[i as int]@);
            }
            let ln = trim_text(lines[i].as_str());
            if !ln.as_str().is_empty() && first_char(ln.as_str()) != Some('#') {
                match Rule::parse(ln.as_str()) {
                    Ok(rule) => out.add(rule),
                    Err(_) => {},
                }
            }
        }
        assert(all.take(lines@.len() as int) == all);
        out
    }
}

} // verus!
