//! The service over all the security groups: creating, listing, replacing
//! and deleting rules by index or by tag, answering visitors, and deciding
//! what is read from and written to the storage directory.

use crate::group::{lines_text, matching_texts, rule_views, SecurityGroup, SecurityGroupView};
use crate::proto::{GrammarError, Reaction, ReactionView, Visitor, VisitorFacts};
use crate::rule::{Rule, RuleView};
use crate::tags::{TagMap, TagMapView};
use crate::text::{
    before_suffix, join, join_text, same_text, split, split_text, strip_suffix, texts, trim,
    trim_end_char, trim_text, without_trailing,
};
use vstd::prelude::*;

verus! {

/// Which rules of a group an operation is about.
pub enum RulesRef {
    All,
    Index(usize),
    Tag(TagMap),
}

/// The model of a [`RulesRef`].
pub enum RulesRefView {
    All,
    Index(usize),
    Tag(TagMapView),
}

impl View for RulesRef {
    type V = RulesRefView;

    open spec fn view(&self) -> RulesRefView {
        match *self {
            RulesRef::All => RulesRefView::All,
            RulesRef::Index(i) => RulesRefView::Index(i),
            RulesRef::Tag(t) => RulesRefView::Tag(t@),
        }
    }
}

/// Why an operation of the service failed.
#[derive(Clone, Copy, Debug, PartialEq, Eq, Structural)]
pub enum ServiceError {
    /// A line of the input is not a rule.
    Grammar(GrammarError),
    /// The group to update does not exist.
    GroupNotFound,
    /// The combined index addresses no rule of the group.
    IndexOutOfRange,
    /// An update was asked for all the rules, not for an index or a tag.
    IndexOrTagExpected,
}

impl ServiceError {
    /// The error in words.
    pub fn message(&self) -> (s: String)
        ensures
            s@ == match *self {
                ServiceError::Grammar(GrammarError::InvalidStatus) => "invalid HTTP status"@,
                ServiceError::Grammar(GrammarError::RedirectStatus) =>
                    "redirect HTTP status expected 301 or 302"@,
                ServiceError::Grammar(GrammarError::PipeCount) =>
                    "at most two '|' expected in a rule"@,
                ServiceError::GroupNotFound => "group not found"@,
                ServiceError::IndexOutOfRange => "index out of range"@,
                ServiceError::IndexOrTagExpected => "please use index or tag to update rule"@,
            },
    {
        match self {
            ServiceError::Grammar(e) => e.message(),
            ServiceError::GroupNotFound => "group not found".to_owned(),
            ServiceError::IndexOutOfRange => "index out of range".to_owned(),
            ServiceError::IndexOrTagExpected => "please use index or tag to update rule".to_owned(),
        }
    }
}

/// The security groups of one storage directory, in the order in which they
/// came to be. A group is found by its name. Of two groups with one name the
/// first would be found; the operations of the service make no second.
pub struct SecurityGroupService {
    pub storage_path: String,
    pub groups: Vec<SecurityGroup>,
}

/// The model of a [`SecurityGroupService`].
#[verifier::ext_equal]
pub struct ServiceView {
    pub storage_path: Seq<char>,
    pub groups: Seq<SecurityGroupView>,
}

/// The views of a sequence of groups.
pub open spec fn group_views(s: Seq<SecurityGroup>) -> Seq<SecurityGroupView> {
    s.map_values(|g: SecurityGroup| g@)
}

impl View for SecurityGroupService {
    type V = ServiceView;

    open spec fn view(&self) -> ServiceView {
        ServiceView { storage_path: self.storage_path@, groups: group_views(self.groups@) }
    }
}

/// The views of the names and contents of files.
pub open spec fn file_views(files: Seq<(String, String)>) -> Seq<(Seq<char>, Seq<char>)> {
    files.map_values(|f: (String, String)| (f.0@, f.1@))
}

/// The position of the first group called `name`.
pub open spec fn position(groups: Seq<SecurityGroupView>, name: Seq<char>) -> Option<int>
    decreases groups.len(),
{
    if groups.len() == 0 {
        None
    } else if position(groups.drop_last(), name) is Some {
        position(groups.drop_last(), name)
    } else if groups.last().name == name {
        Some(groups.len() - 1)
    } else {
        None
    }
}

/// The combined indices, in ascending order and as far as a `usize` reaches,
/// of the rules of `rules` whose tags pass `filter`.
pub open spec fn matching(rules: Seq<RuleView>, filter: TagMapView) -> Seq<usize>
    decreases rules.len(),
{
    if rules.len() == 0 {
        Seq::empty()
    } else if filter.matches(rules.last().tags) && rules.len() - 1 <= usize::MAX {
        matching(rules.drop_last(), filter).push((rules.len() - 1) as usize)
    } else {
        matching(rules.drop_last(), filter)
    }
}

/// The path of the file of the group `name` under the directory `root`.
pub open spec fn file_path(root: Seq<char>, name: Seq<char>) -> Seq<char> {
    without_trailing(root, '/') + seq!['/'] + name + ".rules.txt"@
}

/// The group that a file of the storage directory holds: a file called
/// `<name>.rules.txt` holds the group `name`, and any other file holds none.
pub open spec fn group_of_file(file: (Seq<char>, Seq<char>)) -> Option<SecurityGroupView> {
    match before_suffix(file.0, ".rules.txt"@) {
        Some(name) => Some(SecurityGroupView::new(name).load(split(file.1, '\n'))),
        None => None,
    }
}

/// How far adding the lines of a text to a group has come: the group, the
/// rule that was added last, and the error that stopped it.
pub struct Added {
    pub group: SecurityGroupView,
    pub last: Option<RuleView>,
    pub error: Option<GrammarError>,
}

impl Added {
    /// The combined index of the rule that was added last. Where none was
    /// added it is the last combined index of the group, and 0 for a group
    /// without rules.
    pub open spec fn last_index(self) -> nat {
        if self.last is Some && self.last->0.index_keys().len() > 0 {
            (self.group.indexed.len() - 1) as nat
        } else if self.group.count() > 0 {
            (self.group.count() - 1) as nat
        } else {
            0
        }
    }
}

/// Adds to a group the rules that the lines of a text read as, in order.
/// Blank lines are passed over. The first line that is not a rule stops it:
/// the rules before that line stay added.
pub open spec fn add_lines(group: SecurityGroupView, lines: Seq<Seq<char>>) -> Added
    decreases lines.len(),
{
    if lines.len() == 0 {
        Added { group, last: None, error: None }
    } else {
        let before = add_lines(group, lines.drop_last());
        let line = trim(lines.last());
        if before.error is Some || line.len() == 0 {
            before
        } else {
            match RuleView::of(line) {
                Ok(r) => Added { group: before.group.add(r), last: Some(r), error: None },
                Err(e) => Added { error: Some(e), ..before },
            }
        }
    }
}

impl ServiceView {
    /// The service with `g` as the group of its name: in the place of the
    /// group of that name, or else behind all the groups.
    pub open spec fn put(self, g: SecurityGroupView) -> ServiceView {
        match position(self.groups, g.name) {
            Some(i) => ServiceView { groups: self.groups.update(i, g), ..self },
            None => ServiceView { groups: self.groups.push(g), ..self },
        }
    }

    /// The group called `name`, or a new group of that name without rules.
    pub open spec fn group_or_new(self, name: Seq<char>) -> SecurityGroupView {
        match position(self.groups, name) {
            Some(i) => self.groups[i],
            None => SecurityGroupView::new(name),
        }
    }

    /// The service after the files of a storage directory were read in
    /// order.
    pub open spec fn load_files(self, files: Seq<(Seq<char>, Seq<char>)>) -> ServiceView
        decreases files.len(),
    {
        if files.len() == 0 {
            self
        } else {
            let before = self.load_files(files.drop_last());
            match group_of_file(files.last()) {
                Some(g) => before.put(g),
                None => before,
            }
        }
    }

    /// What saving writes: nothing where there is no storage directory, and
    /// else for each group the path of its file and the lines of its rules.
    pub open spec fn files(self) -> Seq<(Seq<char>, Seq<char>)> {
        if self.storage_path.len() == 0 {
            Seq::empty()
        } else {
            self.groups.map_values(
                |g: SecurityGroupView|
                    (file_path(self.storage_path, g.name), lines_text(g.rules())),
            )
        }
    }

    /// The text that lists the rules of the group `name` whose tags pass
    /// `filter`: their lines with line feeds between them, and the empty text
    /// where there is no such group.
    pub open spec fn list_rules(self, name: Seq<char>, filter: TagMapView) -> Seq<char> {
        match position(self.groups, name) {
            Some(i) => join(matching_texts(self.groups[i].rules(), filter), '\n'),
            None => Seq::empty(),
        }
    }

    /// The service after a rule of the group `name` was replaced, or why it
    /// was not. By index, the rule at that combined index gives way to the
    /// rule that `input` reads as. By tag, all the rules whose tags pass the
    /// filter give way to that one rule; where there is none, nothing changes
    /// and `input` is not read.
    pub open spec fn update_rule(
        self,
        name: Seq<char>,
        rules: RulesRefView,
        input: Seq<char>,
    ) -> Result<ServiceView, ServiceError> {
        match position(self.groups, name) {
            None => Err(ServiceError::GroupNotFound),
            Some(i) => {
                let g = self.groups[i];
                match rules {
                    RulesRefView::All => Err(ServiceError::IndexOrTagExpected),
                    RulesRefView::Index(index) => if index >= g.count() {
                        Err(ServiceError::IndexOutOfRange)
                    } else {
                        match RuleView::of(input) {
                            Err(e) => Err(ServiceError::Grammar(e)),
                            Ok(r) => Ok(
                                ServiceView {
                                    groups: self.groups.update(
                                        i,
                                        g.remove_many(seq![index]).add(r),
                                    ),
                                    ..self
                                },
                            ),
                        }
                    },
                    RulesRefView::Tag(filter) => if matching(g.rules(), filter).len() == 0 {
                        Ok(self)
                    } else {
                        match RuleView::of(input) {
                            Err(e) => Err(ServiceError::Grammar(e)),
                            Ok(r) => Ok(
                                ServiceView {
                                    groups: self.groups.update(
                                        i,
                                        g.remove_many(matching(g.rules(), filter)).add(r),
                                    ),
                                    ..self
                                },
                            ),
                        }
                    },
                }
            },
        }
    }

    /// The service after rules of the group `name` were deleted, or why they
    /// were not. Where there is no such group nothing changes.
    pub open spec fn delete_rule(self, name: Seq<char>, rules: RulesRefView) -> Result<
        ServiceView,
        ServiceError,
    > {
        match position(self.groups, name) {
            None => Ok(self),
            Some(i) => {
                let g = self.groups[i];
                match rules {
                    RulesRefView::All => Ok(
                        ServiceView { groups: self.groups.update(i, g.reset()), ..self },
                    ),
                    RulesRefView::Index(index) => if index >= g.count() {
                        Err(ServiceError::IndexOutOfRange)
                    } else {
                        Ok(
                            ServiceView {
                                groups: self.groups.update(i, g.remove_many(seq![index])),
                                ..self
                            },
                        )
                    },
                    RulesRefView::Tag(filter) => if matching(g.rules(), filter).len() == 0 {
                        Ok(self)
                    } else {
                        Ok(
                            ServiceView {
                                groups: self.groups.update(
                                    i,
                                    g.remove_many(matching(g.rules(), filter)),
                                ),
                                ..self
                            },
                        )
                    },
                }
            },
        }
    }

    /// The answer to a visitor of the group `name`: the group's answer, and
    /// 200 where the group has none or does not exist.
    pub open spec fn react(self, name: Seq<char>, v: VisitorFacts) -> ReactionView {
        match position(self.groups, name) {
            Some(i) => match self.groups[i].react(v) {
                Some(r) => r,
                None => ReactionView::HttpStatus(200),
            },
            None => ReactionView::HttpStatus(200),
        }
    }
}

/// The group that is found is called `name`.
pub proof fn lemma_position_named(groups: Seq<SecurityGroupView>, name: Seq<char>)
    ensures
        position(groups, name) matches Some(i) ==> 0 <= i < groups.len() && groups[i].name == name,
    decreases groups.len(),
{
    if groups.len() > 0 {
        lemma_position_named(groups.drop_last(), name);
    }
}

/// A group that is called `name` and has no group of that name before it is
/// the one that is found.
pub proof fn lemma_position_found(groups: Seq<SecurityGroupView>, name: Seq<char>, i: int)
    requires
        0 <= i < groups.len(),
        position(groups.take(i), name) is None,
        groups[i].name == name,
    ensures
        position(groups, name) == Some(i),
    decreases groups.len(),
{
    if groups.len() == i + 1 {
        assert(groups.drop_last() == groups.take(i));
    } else {
        assert(groups.drop_last().take(i) == groups.take(i));
        lemma_position_found(groups.drop_last(), name, i);
    }
}

/// Once a line has stopped the adding, the lines after it change nothing.
pub proof fn lemma_add_lines_stopped(group: SecurityGroupView, lines: Seq<Seq<char>>, i: int)
    requires
        0 <= i <= lines.len(),
        add_lines(group, lines.take(i)).error is Some,
    ensures
        add_lines(group, lines) == add_lines(group, lines.take(i)),
    decreases lines.len(),
{
    if i < lines.len() {
        assert(lines.drop_last().take(i) == lines.take(i));
        lemma_add_lines_stopped(group, lines.drop_last(), i);
    } else {
        assert(lines.take(i) == lines);
    }
}

/// How the combined indices of the rules that pass a filter grow with one
/// more rule.
pub proof fn lemma_matching_push(rules: Seq<RuleView>, r: RuleView, filter: TagMapView)
    ensures
        matching(rules.push(r), filter) == (if filter.matches(r.tags) && rules.len()
            <= usize::MAX {
            matching(rules, filter).push(rules.len() as usize)
        } else {
            matching(rules, filter)
        }),
{
    assert(rules.push(r).drop_last() == rules);
}

/// How the lines of the rules that pass a filter grow with one more rule.
pub proof fn lemma_matching_texts_push(rules: Seq<RuleView>, r: RuleView, filter: TagMapView)
    ensures
        matching_texts(rules.push(r), filter) == (if filter.matches(r.tags) {
            matching_texts(rules, filter).push(r.text())
        } else {
            matching_texts(rules, filter)
        }),
{
    let passes = |r: RuleView| filter.matches(r.tags);
    rules.lemma_filter_push(r, passes);
    rules.filter(passes).lemma_push_map_commute(|r: RuleView| r.text(), r);
}

/// The combined indices of the rules of `group` whose tags pass `tag`.
fn matching_indexes(group: &SecurityGroup, tag: &TagMap) -> (indexes: Vec<usize>)
    ensures
        indexes@ == matching(group@.rules(), tag@),
{
    let mut indexes: Vec<usize> = Vec::new();
    let indexed = group.list_indexed();
    let others = group.list_non_indexed();
    let ghost first = group@.indexed;
    let ghost second = group@.non_indexed;
    assert(first.take(0) == Seq::<RuleView>::empty());
    for i in 0..indexed.len()
        invariant
            first == rule_views(indexed@),
            indexes@ == matching(first.take(i as int), tag@),
    {
        proof {
            assert(first.take(i + 1) == first.take(i as int).push(indexed@[i as int]@));
            lemma_matching_push(first.take(i as int), indexed@[i as int]@, tag@);
        }
        if tag.matches(&indexed[i].tags) {
            indexes.push(i);
        }
    }
    assert(first.take(first.len() as int) == first);
    assert(first + second.take(0) == first);
    let n = indexed.len();
    for i in 0..others.len()
        invariant
            n == first.len(),
            second == rule_views(others@),
            indexes@ == matching(first + second.take(i as int), tag@),
    {
        proof {
            assert(first + second.take(i + 1) == (first + second.take(i as int)).push(
                others@[i as int]@,
            ));
            lemma_matching_push(first + second.take(i as int), others@[i as int]@, tag@);
        }
        if tag.matches(&others[i].tags) {
            match i.checked_add(n) {
                Some(index) => indexes.push(index),
                None => {},
            }
        }
    }
    assert(second.take(second.len() as int) == second);
    indexes
}

/// The lines of the rules of `rules` whose tags pass `tags`, after `lines`.
fn push_matching_texts(
    lines: &mut Vec<String>,
    rules: &Vec<Rule>,
    tags: &TagMap,
    Ghost(before): Ghost<Seq<RuleView>>,
)
    requires
        texts(old(lines)@) == matching_texts(before, tags@),
    ensures
        texts(final(lines)@) == matching_texts(before + rule_views(rules@), tags@),
{
    let ghost all = rule_views(rules@);
    assert(before + all.take(0) == before);
    for i in 0..rules.len()
        invariant
            all == rule_views(rules@),
            texts(lines@) == matching_texts(before + all.take(i as int), tags@),
    {
        proof {
            assert(before + all.take(i + 1) == (before + all.take(i as int)).push(
                rules@[i as int]@,
            ));
            lemma_matching_texts_push(before + all.take(i as int), rules@[i as int]@, tags@);
        }
        if tags.matches(&rules[i].tags) {
            let line = rules[i].to_string();
            proof {
                lines@.lemma_push_map_commute(|s: String| s@, line);
            }
            lines.push(line);
        }
    }
    assert(all.take(all.len() as int) == all);
}

impl SecurityGroupService {
    /// The position of the group called `name`.
    pub fn find(&self, name: &str) -> (r: Option<usize>)
        ensures
            match r {
                Some(i) => i < self.groups.len() && position(self@.groups, name@) == Some(
                    i as int,
                ),
                None => position(self@.groups, name@) is None,
            },
    {
        let ghost all = self@.groups;
        assert(all.take(0) == Seq::<SecurityGroupView>::empty());
        for i in 0..self.groups.len()
            invariant
                all == self@.groups,
                position(all.take(i as int), name@) is None,
        {
            assert(all[i as int] == self.groups@[i as int]@);
            if same_text(self.groups[i].name().as_str(), name) {
                proof {
                    lemma_position_found(all, name@, i as int);
                }
                return Some(i);
            }
            assert(all.take(i + 1).drop_last() == all.take(i as int));
        }
        assert(all.take(all.len() as int) == all);
        None
    }

    /// Makes `g` the group of its name.
    pub fn put(&mut self, g: SecurityGroup)
        ensures
            final(self)@ == old(self)@.put(g@),
    {
        match self.find(g.name().as_str()) {
            Some(i) => {
                self.groups.set(i, g);
                assert(self@.groups =~= old(self)@.groups.update(i as int, g@));
            },
            None => {
                self.groups.push(g);
                assert(self@.groups =~= old(self)@.groups.push(g@));
            },
        }
    }

    /// The service over the directory `path` whose files, by name and
    /// content, are `files`. Each file called `<name>.rules.txt` gives the
    /// group `name`; in it a line that is not a rule is passed over.
    pub fn from_local_path(path: &str, files: &Vec<(String, String)>) -> (svc: Self)
        ensures
            svc@ == (ServiceView { storage_path: path@, groups: Seq::empty() }).load_files(
                file_views(files@),
            ),
    {
        let mut svc = SecurityGroupService { storage_path: path.to_owned(), groups: Vec::new() };
        let ghost start = ServiceView { storage_path: path@, groups: Seq::empty() };
        let ghost all = file_views(files@);
        assert(svc@ =~= start);
        assert(all.take(0) == Seq::<(Seq<char>, Seq<char>)>::empty());
        for k in 0..files.len()
            invariant
                all == file_views(files@),
                svc@ == start.load_files(all.take(k as int)),
        {
            proof {
                assert(all.take(k + 1).drop_last() == all.take(k as int));
                assert(all.take(k + 1).last() == (files@[k as int].0@, files@[k as int].1@));
            }
            if let Some(name) = strip_suffix(files[k].0.as_str(), ".rules.txt") {
                let group = SecurityGroup::from_reader(name.as_str(), files[k].1.as_str());
                svc.put(group);
            }
        }
        assert(all.take(all.len() as int) == all);
        svc
    }

    /// What saving writes: for each group the path of its file and the
    /// file's new content, and nothing where there is no storage directory.
    pub fn save(&self) -> (files: Vec<(String, String)>)
        ensures
            file_views(files@) == self@.files(),
    {
        let mut files: Vec<(String, String)> = Vec::new();
        if self.storage_path.as_str().is_empty() {
            assert(file_views(files@) =~= self@.files());
            return files;
        }
        let root = trim_end_char(self.storage_path.as_str(), '/');
        assert(file_views(files@) =~= self@.files().take(0));
        for i in 0..self.groups.len()
            invariant
                self@.storage_path.len() > 0,
                root@ == without_trailing(self@.storage_path, '/'),
                file_views(files@) == self@.files().take(i as int),
        {
            let group = &self.groups[i];
            let mut file_name = root.clone();
            file_name.push('/');
            file_name.append(group.name().as_str());
            file_name.append(".rules.txt");
            let mut content = String::new();
            group.to_writer(&mut content);
            assert(self@.groups[i as int] == group@);
            assert(file_name@ =~= file_path(self@.storage_path, group@.name));
            assert(content@ =~= lines_text(group@.rules()));
            proof {
                files@.lemma_push_map_commute(
                    |f: (String, String)| (f.0@, f.1@),
                    (file_name, content),
                );
                assert(self@.files().take(i + 1) == self@.files().take(i as int).push(
                    (file_name@, content@),
                ));
            }
            files.push((file_name, content));
        }
        assert(self@.files().take(self.groups@.len() as int) == self@.files());
        files
    }

    /// Adds to the group `group_name` the rules that the lines of `rule`
    /// read as, and gives the combined index of the rule added last. A group
    /// that does not exist is made. Blank lines are passed over. The first
    /// line that is not a rule stops the adding with its error; the rules
    /// before that line stay added.
    pub fn create_rule(&mut self, group_name: &str, rule: &str) -> (r: Result<usize, ServiceError>)
        ensures
            ({
                let done = add_lines(
                    old(self)@.group_or_new(group_name@),
                    split(rule@, '\n'),
                );
                &&& final(self)@ == old(self)@.put(done.group)
                &&& match r {
                    Ok(index) => done.error is None && index == done.last_index(),
                    Err(e) => done.error is Some && e == ServiceError::Grammar(done.error->0),
                }
            }),
    {
        let found = self.find(group_name);
        let mut group = match found {
            Some(i) => self.groups.remove(i),
            None => SecurityGroup::new(group_name),
        };
        let ghost start = group@;
        proof {
            lemma_position_named(old(self)@.groups, group_name@);
            assert(start == old(self)@.group_or_new(group_name@));
        }
        let lines = split_text(rule, '\n');
        let ghost all = texts(lines@);
        let mut failure: Option<GrammarError> = None;
        let mut last_indexed: Option<bool> = None;
        let mut i: usize = 0;
        assert(all.take(0) == Seq::<Seq<char>>::empty());
        while i < lines.len() && failure.is_none()
            invariant
                i <= lines.len(),
                all == texts(lines@),
                group@ == add_lines(start, all.take(i as int)).group,
                failure == add_lines(start, all.take(i as int)).error,
                group@.name == start.name,
                last_indexed == Some(true) ==> group@.indexed.len() > 0,
                match add_lines(start, all.take(i as int)).last {
                    Some(r) => last_indexed == Some(r.index_keys().len() > 0),
                    None => last_indexed is None,
                },
            decreases lines.len() - i,
        {
            proof {
                assert(all.take(i + 1).drop_last() == all.take(i as int));
                assert(all.take(i + 1).last() == lines@[i as int]@);
            }
            let line = trim_text(lines[i].as_str());
            if !line.as_str().is_empty() {
                match Rule::parse(line.as_str()) {
                    Ok(parsed) => {
                        let keyed = group.list_indexed().len();
                        let ghost before = group@;
                        group.add(parsed);
                        let now = group.list_indexed().len();
                        assert(now == group@.indexed.len());
                        assert(keyed == before.indexed.len());
                        last_indexed = Some(now > keyed);
                    },
                    Err(e) => {
                        failure = Some(e);
                    },
                }
            }
            i += 1;
        }
        proof {
            if failure is Some {
                lemma_add_lines_stopped(start, all, i as int);
            } else {
                assert(all.take(i as int) == all);
            }
        }
        let index = match last_indexed {
            Some(true) => group.list_indexed().len() - 1,
            _ => group.count().saturating_sub(1),
        };
        match found {
            Some(i) => {
                self.groups.insert(i, group);
                assert(self@.groups =~= old(self)@.groups.update(i as int, group@));
            },
            None => {
                self.groups.push(group);
                assert(self@.groups =~= old(self)@.groups.push(group@));
            },
        }
        match failure {
            Some(e) => Err(ServiceError::Grammar(e)),
            None => Ok(index),
        }
    }

    /// Lists the rules of the group `group_name` whose tags pass `tags`:
    /// their lines with line feeds between them, the indexed rules first.
    /// The text is empty where there is no such group. This never fails.
    pub fn list_rules_as_str(&self, group_name: &str, tags: &TagMap) -> (r: Result<
        String,
        ServiceError,
    >)
        ensures
            r matches Ok(text) && text@ == self@.list_rules(group_name@, tags@),
    {
        let group = match self.find(group_name) {
            Some(i) => {
                assert(self@.groups[i as int] == self.groups@[i as int]@);
                &self.groups[i]
            },
            None => {
                return Ok(String::new());
            },
        };
        let mut lines: Vec<String> = Vec::new();
        proof {
            reveal(Seq::filter);
            assert(texts(lines@) =~= matching_texts(Seq::empty(), tags@));
        }
        push_matching_texts(&mut lines, group.list_indexed(), tags, Ghost(Seq::empty()));
        assert(Seq::<RuleView>::empty() + group@.indexed == group@.indexed);
        push_matching_texts(&mut lines, group.list_non_indexed(), tags, Ghost(group@.indexed));
        Ok(join_text(&lines, '\n'))
    }

    /// Replaces rules of the group `group_name` by the rule that `input`
    /// reads as: the rule at a combined index, or all the rules whose tags
    /// pass a filter, which give way to that one rule. Where it fails,
    /// nothing changes.
    pub fn update_rule(&mut self, group_name: &str, rule_ref: &RulesRef, input: &str) -> (r: Result<
        (),
        ServiceError,
    >)
        ensures
            match r {
                Ok(_) => old(self)@.update_rule(group_name@, rule_ref@, input@) == Ok::<
                    ServiceView,
                    ServiceError,
                >(final(self)@),
                Err(e) => old(self)@.update_rule(group_name@, rule_ref@, input@) == Err::<
                    ServiceView,
                    ServiceError,
                >(e) && final(self)@ == old(self)@,
            },
    {
        let i = match self.find(group_name) {
            Some(i) => i,
            None => {
                return Err(ServiceError::GroupNotFound);
            },
        };
        assert(self@.groups[i as int] == self.groups@[i as int]@);
        match rule_ref {
            RulesRef::All => Err(ServiceError::IndexOrTagExpected),
            RulesRef::Index(index) => {
                if *index >= self.groups[i].count() {
                    return Err(ServiceError::IndexOutOfRange);
                }
                let rule = match Rule::parse(input) {
                    Ok(rule) => rule,
                    Err(e) => {
                        return Err(ServiceError::Grammar(e));
                    },
                };
                let mut group = self.groups.remove(i);
                group.set_by_index(*index, rule);
                self.groups.insert(i, group);
                assert(self@.groups =~= old(self)@.groups.update(i as int, group@));
                Ok(())
            },
            RulesRef::Tag(tag) => {
                let indexes = matching_indexes(&self.groups[i], tag);
                if indexes.len() > 0 {
                    let rule = match Rule::parse(input) {
                        Ok(rule) => rule,
                        Err(e) => {
                            return Err(ServiceError::Grammar(e));
                        },
                    };
                    let mut group = self.groups.remove(i);
                    group.set_many(indexes, rule);
                    self.groups.insert(i, group);
                    assert(self@.groups =~= old(self)@.groups.update(i as int, group@));
                }
                Ok(())
            },
        }
    }

    /// Deletes rules of the group `group_name`: all of them, the rule at a
    /// combined index, or the rules whose tags pass a filter. Where there is
    /// no such group nothing changes, and where it fails nothing changes.
    pub fn delete_rule(&mut self, group_name: &str, rule_ref: &RulesRef) -> (r: Result<
        (),
        ServiceError,
    >)
        ensures
            match r {
                Ok(_) => old(self)@.delete_rule(group_name@, rule_ref@) == Ok::<
                    ServiceView,
                    ServiceError,
                >(final(self)@),
                Err(e) => old(self)@.delete_rule(group_name@, rule_ref@) == Err::<
                    ServiceView,
                    ServiceError,
                >(e) && final(self)@ == old(self)@,
            },
    {
        let i = match self.find(group_name) {
            Some(i) => i,
            None => {
                return Ok(());
            },
        };
        assert(self@.groups[i as int] == self.groups@[i as int]@);
        match rule_ref {
            RulesRef::All => {
                let mut group = self.groups.remove(i);
                group.reset();
                self.groups.insert(i, group);
                assert(self@.groups =~= old(self)@.groups.update(i as int, group@));
            },
            RulesRef::Index(index) => {
                if *index >= self.groups[i].count() {
                    return Err(ServiceError::IndexOutOfRange);
                }
                let mut group = self.groups.remove(i);
                group.remove_by_index(*index);
                self.groups.insert(i, group);
                assert(self@.groups =~= old(self)@.groups.update(i as int, group@));
            },
            RulesRef::Tag(tag) => {
                let indexes = matching_indexes(&self.groups[i], tag);
                if indexes.len() > 0 {
                    let mut group = self.groups.remove(i);
                    group.remove_many(indexes);
                    self.groups.insert(i, group);
                    assert(self@.groups =~= old(self)@.groups.update(i as int, group@));
                }
            },
        }
        Ok(())
    }

    /// The answer to a visitor of the group `group_name`: the group's
    /// answer, and 200 where the group has none or does not exist. This
    /// never fails.
    pub fn react<V: Visitor>(&self, group_name: &str, visitor: &V) -> (r: Result<
        Reaction,
        ServiceError,
    >)
        ensures
            r matches Ok(reaction) && reaction@ == self@.react(group_name@, visitor.facts()),
    {
        match self.find(group_name) {
            Some(i) => {
                assert(self@.groups[i as int] == self.groups@[i as int]@);
                match self.groups[i].react(visitor) {
                    Some(reaction) => Ok(reaction),
                    None => Ok(Reaction::HttpStatus(200)),
                }
            },
            None => Ok(Reaction::HttpStatus(200)),
        }
    }
}

} // verus!
