//! The rule: how it is read from and written as one line of text, how it
//! reacts to a visitor, and under which exact-match keys it can be found.

use crate::decimal::{decimal, decimal_text};
use crate::proto::{
    is_target_token, option_reaction, Access, AccessView, GrammarError, Reaction, ReactionView,
    Source, SourceView, Target, TargetView, Visitor, VisitorFacts,
};
use crate::text::{
    first_char, join, join_text, last_char, lemma_split_pieces, split, split_text, texts,
};
use vstd::prelude::*;

verus! {

/// One access-control statement: who it is about, which part of the site it
/// guards, what it answers, and the tags it is filed under. The order of the
/// access entries and of the targets matters.
#[derive(Debug, PartialEq)]
pub struct Rule {
    pub access: Vec<Access>,
    pub target: Vec<Target>,
    pub reaction: Reaction,
    pub tags: Vec<String>,
}

/// The model of a [`Rule`].
pub struct RuleView {
    pub access: Seq<AccessView>,
    pub target: Seq<TargetView>,
    pub reaction: ReactionView,
    pub tags: Seq<Seq<char>>,
}

/// The views of a sequence of access entries.
pub open spec fn access_views(s: Seq<Access>) -> Seq<AccessView> {
    s.map_values(|a: Access| a@)
}

/// The views of a sequence of targets.
pub open spec fn target_views(s: Seq<Target>) -> Seq<TargetView> {
    s.map_values(|t: Target| t@)
}

impl View for Rule {
    type V = RuleView;

    open spec fn view(&self) -> RuleView {
        RuleView {
            access: access_views(self.access@),
            target: target_views(self.target@),
            reaction: self.reaction@,
            tags: texts(self.tags@),
        }
    }
}

/// The tokens that access entries are written as.
pub open spec fn access_texts(s: Seq<AccessView>) -> Seq<Seq<char>> {
    s.map_values(|a: AccessView| a.text())
}

/// The tokens that targets are written as.
pub open spec fn target_texts(s: Seq<TargetView>) -> Seq<Seq<char>> {
    s.map_values(|t: TargetView| t.text())
}

/// The pieces of `parts` that are not empty.
pub open spec fn non_empty(parts: Seq<Seq<char>>) -> Seq<Seq<char>> {
    parts.filter(|t: Seq<char>| t.len() > 0)
}

/// The access entries that the tokens of a rule's body read as: those of the
/// tokens that name no target.
pub open spec fn access_of_tokens(tokens: Seq<Seq<char>>) -> Seq<AccessView> {
    tokens.filter(|t: Seq<char>| !is_target_token(t)).map_values(|t: Seq<char>| AccessView::of(t))
}

/// The targets that the tokens of a rule's body read as.
pub open spec fn target_of_tokens(tokens: Seq<Seq<char>>) -> Seq<TargetView> {
    tokens.filter(|t: Seq<char>| is_target_token(t)).map_values(|t: Seq<char>| TargetView::of(t))
}

/// Whether the access list lets the visitor in: the last entry that has a
/// say on the visitor is one that lets its source in.
pub open spec fn access_allows(access: Seq<AccessView>, v: VisitorFacts) -> bool
    decreases access.len(),
{
    if access.len() == 0 {
        false
    } else if access.last().fires(v) {
        access.last() is From
    } else {
        access_allows(access.drop_last(), v)
    }
}

/// Whether one of the targets is what a request for `uri` asks for.
pub open spec fn targets_admit(target: Seq<TargetView>, uri: Seq<char>) -> bool {
    exists|i: int| 0 <= i < target.len() && (#[trigger] target[i]).admits(uri)
}

/// The keys of all the targets, in order.
pub open spec fn target_keys(target: Seq<TargetView>) -> Seq<Seq<char>> {
    target.map_values(|t: TargetView| t.keys()).flatten()
}

/// The keys of all the access entries, in order.
pub open spec fn access_keys(access: Seq<AccessView>) -> Seq<Seq<char>> {
    access.map_values(|a: AccessView| a.keys()).flatten()
}

impl RuleView {
    /// What parsing establishes: neither list is empty.
    pub open spec fn wf(self) -> bool {
        self.access.len() > 0 && self.target.len() > 0
    }

    /// Whether the rule is about every visitor.
    pub open spec fn is_access_trivial(self) -> bool {
        self.access == seq![AccessView::From(SourceView::Any)]
    }

    /// Whether the rule guards every part of the site.
    pub open spec fn is_target_trivial(self) -> bool {
        self.target == seq![TargetView::Any]
    }

    /// The exact-match keys under which the rule can be found. A rule about
    /// every visitor is found under its paths, a rule that guards every part
    /// of the site under the addresses and countries it lets in, and any
    /// other rule has no key.
    pub open spec fn index_keys(self) -> Seq<Seq<char>> {
        if self.is_access_trivial() {
            target_keys(self.target)
        } else if self.is_target_trivial() {
            access_keys(self.access)
        } else {
            Seq::empty()
        }
    }

    /// Whether writing the rule shows its access list: some entry is not
    /// the one that lets any source in.
    pub open spec fn shows_access(self) -> bool {
        exists|i: int|
            0 <= i < self.access.len() && #[trigger] self.access[i] != AccessView::From(
                SourceView::Any,
            )
    }

    /// The body of the rule's line: the tokens of the access list, if it is
    /// shown, then those of the targets, without the empty ones and with
    /// commas between them.
    pub open spec fn body(self) -> Seq<char> {
        let shown = if self.shows_access() {
            non_empty(access_texts(self.access))
        } else {
            Seq::empty()
        };
        join(shown + non_empty(target_texts(self.target)), ',')
    }

    /// The line that the rule is written as: the status and a `|` unless the
    /// status is 200, the body, a `|` and the location for a redirect, and
    /// a `#` and the tags with commas between them where there are tags.
    pub open spec fn text(self) -> Seq<char> {
        let head = if self.reaction.code() != 200 {
            seq![decimal(self.reaction.code() as nat)]
        } else {
            Seq::empty()
        };
        let tail = match self.reaction.redirect() {
            Some(loc) => seq![loc],
            None => Seq::empty(),
        };
        let line = join(head + seq![self.body()] + tail, '|');
        if self.tags.len() > 0 {
            line + seq!['#'] + join(self.tags, ',')
        } else {
            line
        }
    }

    /// What the line `line` reads as. The tags are what stands between the
    /// first `#` and the second, split on commas. What stands before the
    /// first `#` gives the reaction and the body; the tokens of the body,
    /// split on commas, are targets where they start with `/` or `^` and
    /// access entries otherwise. A rule without access entries is about any
    /// source, a rule without targets guards any target.
    pub open spec fn of(line: Seq<char>) -> Result<RuleView, GrammarError> {
        let segments = split(line, '#');
        let tags = if segments.len() > 1 {
            split(segments[1], ',')
        } else {
            Seq::empty()
        };
        match ReactionView::extract(segments[0]) {
            Err(e) => Err(e),
            Ok(found) => {
                let tokens = split(found.0, ',');
                let access = access_of_tokens(tokens);
                let target = target_of_tokens(tokens);
                Ok(
                    RuleView {
                        access: if access.len() == 0 {
                            seq![AccessView::From(SourceView::Any)]
                        } else {
                            access
                        },
                        target: if target.len() == 0 {
                            seq![TargetView::Any]
                        } else {
                            target
                        },
                        reaction: found.1,
                        tags,
                    },
                )
            },
        }
    }

    /// The rule's answer to a visitor: its reaction where one of the targets
    /// is what the visitor asks for and the access list lets the visitor in.
    pub open spec fn react(self, v: VisitorFacts) -> Option<ReactionView> {
        if targets_admit(self.target, v.uri) && access_allows(self.access, v) {
            Some(self.reaction)
        } else {
            None
        }
    }
}

/// How the access entries and the targets that tokens read as grow with one
/// more token.
pub proof fn lemma_of_tokens_push(tokens: Seq<Seq<char>>, t: Seq<char>)
    ensures
        access_of_tokens(tokens.push(t)) == (if is_target_token(t) {
            access_of_tokens(tokens)
        } else {
            access_of_tokens(tokens).push(AccessView::of(t))
        }),
        target_of_tokens(tokens.push(t)) == (if is_target_token(t) {
            target_of_tokens(tokens).push(TargetView::of(t))
        } else {
            target_of_tokens(tokens)
        }),
{
    let is_access = |t: Seq<char>| !is_target_token(t);
    let is_target = |t: Seq<char>| is_target_token(t);
    tokens.lemma_filter_push(t, is_access);
    tokens.lemma_filter_push(t, is_target);
    tokens.filter(is_access).lemma_push_map_commute(|t: Seq<char>| AccessView::of(t), t);
    tokens.filter(is_target).lemma_push_map_commute(|t: Seq<char>| TargetView::of(t), t);
}

/// How the tokens that are written grow with one more token.
pub proof fn lemma_non_empty_push(parts: Seq<Seq<char>>, t: Seq<char>)
    ensures
        non_empty(parts.push(t)) == (if t.len() > 0 {
            non_empty(parts).push(t)
        } else {
            non_empty(parts)
        }),
{
    parts.lemma_filter_push(t, |t: Seq<char>| t.len() > 0);
}

/// How the keys of targets grow with one more target.
pub proof fn lemma_target_keys_push(target: Seq<TargetView>, t: TargetView)
    ensures
        target_keys(target.push(t)) == target_keys(target) + t.keys(),
{
    target.lemma_push_map_commute(|t: TargetView| t.keys(), t);
    target.map_values(|t: TargetView| t.keys()).lemma_flatten_push(t.keys());
}

/// How the keys of access entries grow with one more entry.
pub proof fn lemma_access_keys_push(access: Seq<AccessView>, a: AccessView)
    ensures
        access_keys(access.push(a)) == access_keys(access) + a.keys(),
{
    access.lemma_push_map_commute(|a: AccessView| a.keys(), a);
    access.map_values(|a: AccessView| a.keys()).lemma_flatten_push(a.keys());
}

/// Whether a token of a rule's body names a target.
fn names_target(token: &str) -> (r: bool)
    ensures
        r == is_target_token(token@),
{
    match first_char(token) {
        Some('/') => true,
        Some('^') => true,
        _ => false,
    }
}

impl Clone for Rule {
    fn clone(&self) -> (r: Self)
        ensures
            r@ == self@,
    {
        let mut access: Vec<Access> = Vec::new();
        for i in 0..self.access.len()
            invariant
                access_views(access@) == access_views(self.access@).take(i as int),
        {
            proof {
                access@.lemma_push_map_commute(|a: Access| a@, self.access@[i as int]);
                assert(access_views(self.access@).take(i + 1) == access_views(
                    self.access@,
                ).take(i as int).push(self.access@[i as int]@));
            }
            let a = self.access[i].clone();
            proof {
                access@.lemma_push_map_commute(|a: Access| a@, a);
            }
            access.push(a);
        }
        let mut target: Vec<Target> = Vec::new();
        for i in 0..self.target.len()
            invariant
                target_views(target@) == target_views(self.target@).take(i as int),
        {
            proof {
                assert(target_views(self.target@).take(i + 1) == target_views(
                    self.target@,
                ).take(i as int).push(self.target@[i as int]@));
            }
            let t = self.target[i].clone();
            proof {
                target@.lemma_push_map_commute(|t: Target| t@, t);
            }
            target.push(t);
        }
        let mut tags: Vec<String> = Vec::new();
        for i in 0..self.tags.len()
            invariant
                texts(tags@) == texts(self.tags@).take(i as int),
        {
            proof {
                assert(texts(self.tags@).take(i + 1) == texts(self.tags@).take(i as int).push(
                    self.tags@[i as int]@,
                ));
            }
            let t = self.tags[i].clone();
            proof {
                tags@.lemma_push_map_commute(|s: String| s@, t);
            }
            tags.push(t);
        }
        proof {
            assert(access_views(self.access@).take(self.access@.len() as int) == access_views(
                self.access@,
            ));
            assert(target_views(self.target@).take(self.target@.len() as int) == target_views(
                self.target@,
            ));
            assert(texts(self.tags@).take(self.tags@.len() as int) == texts(self.tags@));
        }
        Rule { access, target, reaction: self.reaction.clone(), tags }
    }
}

impl Rule {
    /// Whether the rule is about every visitor.
    pub fn is_access_trivial(&self) -> (r: bool)
        ensures
            r == self@.is_access_trivial(),
    {
        let r = self.access.len() == 1 && match &self.access[0] {
            Access::From(Source::Any) => true,
            _ => false,
        };
        proof {
            let one = seq![AccessView::From(SourceView::Any)];
            if self.access.len() == 1 {
                assert(self@.access[0] == self.access@[0]@);
                if r {
                    assert(self@.access =~= one);
                } else {
                    assert(self@.access[0] != one[0]);
                }
            } else {
                assert(self@.access.len() != one.len());
            }
        }
        r
    }

    /// Whether the rule guards every part of the site.
    pub fn is_target_trivial(&self) -> (r: bool)
        ensures
            r == self@.is_target_trivial(),
    {
        let r = self.target.len() == 1 && match &self.target[0] {
            Target::Any => true,
            _ => false,
        };
        proof {
            let one = seq![TargetView::Any];
            if self.target.len() == 1 {
                assert(self@.target[0] == self.target@[0]@);
                if r {
                    assert(self@.target =~= one);
                } else {
                    assert(self@.target[0] != one[0]);
                }
            } else {
                assert(self@.target.len() != one.len());
            }
        }
        r
    }

    /// The exact-match keys under which the rule can be found.
    pub fn index_keys(&self) -> (keys: Vec<String>)
        ensures
            texts(keys@) == self@.index_keys(),
    {
        let mut keys: Vec<String> = Vec::new();
        if self.is_access_trivial() {
            assert(target_keys(Seq::empty()) == Seq::<Seq<char>>::empty());
            for i in 0..self.target.len()
                invariant
                    texts(keys@) == target_keys(self@.target.take(i as int)),
            {
                proof {
                    assert(self@.target.take(i + 1) == self@.target.take(i as int).push(
                        self.target@[i as int]@,
                    ));
                    lemma_target_keys_push(self@.target.take(i as int), self.target@[i as int]@);
                }
                let ghost before = texts(keys@);
                if let Target::Path(x) = &self.target[i] {
                    if last_char(x.as_str()) != Some('/') {
                        let mut slashed = x.clone();
                        slashed.push('/');
                        proof {
                            keys@.lemma_push_map_commute(|s: String| s@, slashed);
                        }
                        keys.push(slashed);
                    }
                    let same = x.clone();
                    proof {
                        keys@.lemma_push_map_commute(|s: String| s@, same);
                    }
                    keys.push(same);
                }
                assert(texts(keys@) == before + self.target@[i as int]@.keys());
            }
            assert(self@.target.take(self.target@.len() as int) == self@.target);
        } else if self.is_target_trivial() {
            assert(access_keys(Seq::empty()) == Seq::<Seq<char>>::empty());
            for i in 0..self.access.len()
                invariant
                    texts(keys@) == access_keys(self@.access.take(i as int)),
            {
                proof {
                    assert(self@.access.take(i + 1) == self@.access.take(i as int).push(
                        self.access@[i as int]@,
                    ));
                    lemma_access_keys_push(self@.access.take(i as int), self.access@[i as int]@);
                }
                let ghost before = texts(keys@);
                match &self.access[i] {
                    Access::From(Source::FromIpv4(ip)) => {
                        let key = ip.to_string();
                        proof {
                            keys@.lemma_push_map_commute(|s: String| s@, key);
                        }
                        keys.push(key);
                    },
                    Access::From(Source::FromCountry(country)) => {
                        let key = country.clone();
                        proof {
                            keys@.lemma_push_map_commute(|s: String| s@, key);
                        }
                        keys.push(key);
                    },
                    _ => {},
                }
                assert(texts(keys@) == before + self.access@[i as int]@.keys());
            }
            assert(self@.access.take(self.access@.len() as int) == self@.access);
        }
        keys
    }

    /// Reads one line of text as a rule.
    ///
    /// A line is an optional status and `|`, the access entries and targets
    /// with commas between them, an optional `|` and redirect location, and
    /// an optional `#` and tags with commas between them:
    ///
    /// ```text
    /// 200|US,CA,/path/to/resource
    /// 200|US,CA,/path/to/resource#blacklist,recent
    /// 301|-GB,^/path/to/resource|/not-found
    /// 403|-US
    /// ```
    ///
    /// What follows a second `#` is dropped. The empty line is the rule that
    /// answers 200 to everyone everywhere.
    pub fn parse(src: &str) -> (r: Result<Rule, GrammarError>)
        ensures
            match r {
                Ok(rule) => RuleView::of(src@) == Ok::<RuleView, GrammarError>(rule@),
                Err(e) => RuleView::of(src@) == Err::<RuleView, GrammarError>(e),
            },
            r matches Ok(rule) ==> rule@.wf(),
    {
        let with_tags = split_text(src, '#');
        proof {
            lemma_split_pieces(src@, '#');
        }
        let ghost segments = texts(with_tags@);
        assert(segments[0] == with_tags@[0]@);
        let tags = if with_tags.len() > 1 {
            assert(segments[1] == with_tags@[1]@);
            split_text(with_tags[1].as_str(), ',')
        } else {
            Vec::new()
        };
        assert(texts(tags@) == (if segments.len() > 1 {
            split(segments[1], ',')
        } else {
            Seq::<Seq<char>>::empty()
        }));
        let (input, reaction) = match Reaction::extract(with_tags[0].as_str()) {
            Ok(found) => found,
            Err(e) => {
                return Err(e);
            },
        };
        let tokens = split_text(input.as_str(), ',');
        let ghost pieces = texts(tokens@);
        let mut access: Vec<Access> = Vec::new();
        let mut target: Vec<Target> = Vec::new();
        proof {
            reveal(Seq::filter);
            assert(pieces.take(0) == Seq::<Seq<char>>::empty());
            assert(access_of_tokens(pieces.take(0)) == Seq::<AccessView>::empty());
            assert(target_of_tokens(pieces.take(0)) == Seq::<TargetView>::empty());
        }
        for i in 0..tokens.len()
            invariant
                pieces == texts(tokens@),
                access_views(access@) == access_of_tokens(pieces.take(i as int)),
                target_views(target@) == target_of_tokens(pieces.take(i as int)),
        {
            proof {
                assert(pieces.take(i + 1) == pieces.take(i as int).push(tokens@[i as int]@));
                lemma_of_tokens_push(pieces.take(i as int), tokens@[i as int]@);
            }
            let part = tokens[i].as_str();
            if names_target(part) {
                let t = Target::parse(part);
                proof {
                    target@.lemma_push_map_commute(|t: Target| t@, t);
                }
                target.push(t);
            } else {
                let a = Access::parse(part);
                proof {
                    access@.lemma_push_map_commute(|a: Access| a@, a);
                }
                access.push(a);
            }
        }
        assert(pieces.take(tokens@.len() as int) == pieces);
        if access.len() == 0 {
            access.push(Access::From(Source::Any));
            assert(access_views(access@) == seq![AccessView::From(SourceView::Any)]);
        }
        if target.len() == 0 {
            target.push(Target::Any);
            assert(target_views(target@) == seq![TargetView::Any]);
        }
        Ok(Rule { access, target, reaction, tags })
    }

    /// Whether writing the rule shows its access list.
    fn shows_access(&self) -> (r: bool)
        ensures
            r == self@.shows_access(),
    {
        for i in 0..self.access.len()
            invariant
                forall|j: int|
                    0 <= j < i ==> #[trigger] self@.access[j] == AccessView::From(SourceView::Any),
        {
            match &self.access[i] {
                Access::From(Source::Any) => {},
                _ => {
                    assert(self@.access[i as int] != AccessView::From(SourceView::Any));
                    return true;
                },
            }
        }
        false
    }

    /// The line that the rule is written as.
    pub fn to_string(&self) -> (s: String)
        ensures
            s@ == self@.text(),
    {
        let mut out: Vec<String> = Vec::new();
        if self.reaction.code() != 200 {
            out.push(decimal_text(self.reaction.code()));
        }
        let ghost head = texts(out@);
        assert(head == (if self@.reaction.code() != 200 {
            seq![decimal(self@.reaction.code() as nat)]
        } else {
            Seq::<Seq<char>>::empty()
        }));
        let mut parts: Vec<String> = Vec::new();
        let ghost shown = if self@.shows_access() {
            non_empty(access_texts(self@.access))
        } else {
            Seq::<Seq<char>>::empty()
        };
        proof {
            reveal(Seq::filter);
            assert(non_empty(Seq::empty()) == Seq::<Seq<char>>::empty());
        }
        if self.shows_access() {
            for i in 0..self.access.len()
                invariant
                    texts(parts@) == non_empty(access_texts(self@.access.take(i as int))),
            {
                proof {
                    let seen = self@.access.take(i as int);
                    let next = self.access@[i as int]@;
                    assert(self@.access.take(i + 1) == seen.push(next));
                    seen.lemma_push_map_commute(|a: AccessView| a.text(), next);
                    lemma_non_empty_push(access_texts(seen), next.text());
                }
                let a = self.access[i].to_string();
                if !a.as_str().is_empty() {
                    proof {
                        parts@.lemma_push_map_commute(|s: String| s@, a);
                    }
                    parts.push(a);
                }
            }
            assert(self@.access.take(self.access@.len() as int) == self@.access);
        }
        assert(texts(parts@) == shown);
        for i in 0..self.target.len()
            invariant
                texts(parts@) == shown + non_empty(target_texts(self@.target.take(i as int))),
        {
            proof {
                let seen = self@.target.take(i as int);
                let next = self.target@[i as int]@;
                assert(self@.target.take(i + 1) == seen.push(next));
                seen.lemma_push_map_commute(|t: TargetView| t.text(), next);
                lemma_non_empty_push(target_texts(seen), next.text());
            }
            let t = self.target[i].to_string();
            if !t.as_str().is_empty() {
                proof {
                    parts@.lemma_push_map_commute(|s: String| s@, t);
                }
                parts.push(t);
            }
        }
        assert(self@.target.take(self.target@.len() as int) == self@.target);
        let body = join_text(&parts, ',');
        assert(body@ == self@.body());
        proof {
            out@.lemma_push_map_commute(|s: String| s@, body);
        }
        out.push(body);
        if let Some(redirect) = self.reaction.redirect() {
            proof {
                out@.lemma_push_map_commute(|s: String| s@, redirect);
            }
            out.push(redirect);
        }
        assert(texts(out@) == head + seq![self@.body()] + (match self@.reaction.redirect() {
            Some(loc) => seq![loc],
            None => Seq::<Seq<char>>::empty(),
        }));
        let mut out_str = join_text(&out, '|');
        if self.tags.len() > 0 {
            out_str.push('#');
            out_str.append(join_text(&self.tags, ',').as_str());
        }
        out_str
    }

    /// The rule's answer to a visitor, if it applies to the visitor.
    pub fn react<V: Visitor>(&self, v: &V) -> (r: Option<Reaction>)
        ensures
            option_reaction(r) == self@.react(v.facts()),
    {
        let uri = v.uri();
        let mut match_target = false;
        let mut i: usize = 0;
        while i < self.target.len() && !match_target
            invariant
                i <= self.target.len(),
                uri@ == v.facts().uri,
                match_target ==> targets_admit(self@.target, uri@),
                !match_target ==> forall|j: int|
                    0 <= j < i ==> !(#[trigger] self@.target[j]).admits(uri@),
            decreases self.target.len() - i,
        {
            if self.target[i].admits(uri.as_str()) {
                assert(self@.target[i as int].admits(uri@));
                match_target = true;
            }
            i += 1;
        }
        if !match_target {
            return None;
        }
        let mut allowed = false;
        assert(self@.access.take(0) == Seq::<AccessView>::empty());
        for k in 0..self.access.len()
            invariant
                allowed == access_allows(self@.access.take(k as int), v.facts()),
        {
            proof {
                let seen = self@.access.take(k + 1);
                assert(seen.drop_last() == self@.access.take(k as int));
                assert(seen.last() == self.access@[k as int]@);
            }
            if self.access[k].fires(v) {
                allowed = match &self.access[k] {
                    Access::From(_) => true,
                    Access::Excluding(_) => false,
                };
            }
        }
        assert(self@.access.take(self.access@.len() as int) == self@.access);
        if allowed {
            Some(self.reaction.clone())
        } else {
            None
        }
    }
}

} // verus!
