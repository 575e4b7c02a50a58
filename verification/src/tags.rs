//! Filters over the tags of a rule, built from a query such as
//! `blacklist,-temp`.

use crate::text::{after_first, first_char, split, split_text, texts};
use vstd::hash_map::StringHashMap;
use vstd::prelude::*;

verus! {

/// A filter over tags: the tags of which a rule must carry one, and the tags
/// of which it may carry none.
pub struct TagMap {
    pub including: StringHashMap<u8>,
    pub excluding: StringHashMap<u8>,
}

/// The model of a [`TagMap`]: its two sets of tags.
#[verifier::ext_equal]
pub struct TagMapView {
    pub including: Set<Seq<char>>,
    pub excluding: Set<Seq<char>>,
}

impl View for TagMap {
    type V = TagMapView;

    open spec fn view(&self) -> TagMapView {
        TagMapView { including: self.including@.dom(), excluding: self.excluding@.dom() }
    }
}

/// Whether a token of a query excludes a tag: it starts with `-`.
pub open spec fn is_excluding_token(t: Seq<char>) -> bool {
    t.len() > 0 && t[0] == '-'
}

/// The tags that the tokens of a query include.
pub open spec fn included(tokens: Seq<Seq<char>>) -> Set<Seq<char>> {
    tokens.filter(|t: Seq<char>| !is_excluding_token(t)).to_set()
}

/// The tags that the tokens of a query exclude: what follows the `-`.
pub open spec fn excluded(tokens: Seq<Seq<char>>) -> Set<Seq<char>> {
    tokens.filter(|t: Seq<char>| is_excluding_token(t)).map_values(
        |t: Seq<char>| t.drop_first(),
    ).to_set()
}

impl TagMapView {
    /// The filter with no tag in either set.
    pub open spec fn empty() -> TagMapView {
        TagMapView { including: Set::empty(), excluding: Set::empty() }
    }

    /// The filter that a query stands for. The empty query is the empty
    /// filter. Any other query is split on commas: a token with `-` in front
    /// excludes the tag that follows the `-`, any other token includes the
    /// tag that it is.
    pub open spec fn of(query: Seq<char>) -> TagMapView {
        if query.len() == 0 {
            TagMapView::empty()
        } else {
            TagMapView {
                including: included(split(query, ',')),
                excluding: excluded(split(query, ',')),
            }
        }
    }

    /// Whether a rule with the tags `tags` passes the filter: none of its
    /// tags is excluded and, if the filter includes any tag at all, one of
    /// its tags is included.
    pub open spec fn matches(self, tags: Seq<Seq<char>>) -> bool {
        &&& forall|i: int| 0 <= i < tags.len() ==> !self.excluding.contains(#[trigger] tags[i])
        &&& (self.including.is_empty() || exists|i: int|
            0 <= i < tags.len() && self.including.contains(#[trigger] tags[i]))
    }
}

/// How the two sets of a query grow with one more token.
pub proof fn lemma_query_push(tokens: Seq<Seq<char>>, t: Seq<char>)
    ensures
        included(tokens.push(t)) == (if is_excluding_token(t) {
            included(tokens)
        } else {
            included(tokens).insert(t)
        }),
        excluded(tokens.push(t)) == (if is_excluding_token(t) {
            excluded(tokens).insert(t.drop_first())
        } else {
            excluded(tokens)
        }),
{
    let keeps = |t: Seq<char>| !is_excluding_token(t);
    let drops = |t: Seq<char>| is_excluding_token(t);
    let tag = |t: Seq<char>| t.drop_first();
    tokens.lemma_filter_push(t, keeps);
    tokens.lemma_filter_push(t, drops);
    tokens.filter(keeps).lemma_push_to_set_commute(t);
    tokens.filter(drops).lemma_push_map_commute(tag, t);
    tokens.filter(drops).map_values(tag).lemma_push_to_set_commute(tag(t));
}

/// The empty filter lets every rule pass, whatever its tags.
pub proof fn lemma_empty_filter_matches(tags: Seq<Seq<char>>)
    ensures
        TagMapView::empty().matches(tags),
        TagMapView::of(Seq::empty()).matches(tags),
{
}

impl TagMap {
    /// The empty filter, which every rule passes.
    pub fn new() -> (r: Self)
        ensures
            r@ == TagMapView::empty(),
    {
        let r = TagMap { including: StringHashMap::new(), excluding: StringHashMap::new() };
        assert(r@.including =~= Set::empty());
        assert(r@.excluding =~= Set::empty());
        r
    }

    /// The filter that a query stands for.
    pub fn from_query(input: &str) -> (r: Self)
        ensures
            r@ == TagMapView::of(input@),
    {
        let mut including: StringHashMap<u8> = StringHashMap::new();
        let mut excluding: StringHashMap<u8> = StringHashMap::new();
        if input.is_empty() {
            let r = TagMap { including, excluding };
            assert(r@.including =~= Set::empty());
            assert(r@.excluding =~= Set::empty());
            return r;
        }
        let tokens = split_text(input, ',');
        let ghost pieces = texts(tokens@);
        proof {
            reveal(Seq::filter);
            assert(pieces.take(0) == Seq::<Seq<char>>::empty());
            assert(included(pieces.take(0)) =~= Set::empty());
            assert(excluded(pieces.take(0)) =~= Set::empty());
        }
        for i in 0..tokens.len()
            invariant
                pieces == texts(tokens@),
                including@.dom() == included(pieces.take(i as int)),
                excluding@.dom() == excluded(pieces.take(i as int)),
        {
            proof {
                assert(pieces.take(i + 1) == pieces.take(i as int).push(tokens@[i as int]@));
                lemma_query_push(pieces.take(i as int), tokens@[i as int]@);
            }
            let tag = tokens[i].as_str();
            if first_char(tag) == Some('-') {
                excluding.insert(after_first(tag), 1);
            } else {
                including.insert(tag.to_owned(), 1);
            }
        }
        assert(pieces.take(tokens@.len() as int) == pieces);
        TagMap { including, excluding }
    }

    /// Whether a rule with the tags `tags` passes the filter.
    pub fn matches(&self, tags: &Vec<String>) -> (r: bool)
        ensures
            r == self@.matches(texts(tags@)),
    {
        if self.including.is_empty() && self.excluding.is_empty() {
            return true;
        }
        for i in 0..tags.len()
            invariant
                forall|j: int| 0 <= j < i ==> !self@.excluding.contains(#[trigger] texts(tags@)[j]),
        {
            if self.excluding.contains_key(tags[i].as_str()) {
                assert(self@.excluding.contains(texts(tags@)[i as int]));
                return false;
            }
        }
        if self.including.is_empty() {
            return true;
        }
        for i in 0..tags.len()
            invariant
                forall|j: int|
                    0 <= j < tags.len() ==> !self@.excluding.contains(#[trigger] texts(tags@)[j]),
                forall|j: int| 0 <= j < i ==> !self@.including.contains(#[trigger] texts(tags@)[j]),
        {
            if self.including.contains_key(tags[i].as_str()) {
                assert(self@.including.contains(texts(tags@)[i as int]));
                return true;
            }
        }
        false
    }
}

} // verus!
