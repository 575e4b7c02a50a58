//! Writing a rule and reading the line back: which rules a line can stand
//! for, and the proof that such a rule is read back from its line.

use crate::decimal::{
    decimal, is_digit, lemma_decimal_shape, lemma_u16_of_decimal, octet_of,
};
use crate::ip::{
    cidr_of, cidr_text, ipv4_of, ipv4_text, lemma_ipv4_of_text, lemma_ipv4_text_shape, Ipv4Addr,
};
use crate::proto::{
    is_target_token, AccessView, GrammarError, ReactionView, SourceView, TargetView,
};
use crate::rule::{
    access_of_tokens, access_texts, lemma_non_empty_push, lemma_of_tokens_push, non_empty,
    target_of_tokens, target_texts, RuleView,
};
use crate::text::{
    all_free_of, join, lemma_free_of, lemma_join_free, lemma_join_split,
    lemma_split_around, lemma_split_free, lemma_split_join, lemma_split_pieces, split,
};
use vstd::prelude::*;

verus! {

/// Whether `s` holds none of the characters that divide a line: `,`, `|`
/// and `#`.
pub open spec fn plain(s: Seq<char>) -> bool {
    !s.contains(',') && !s.contains('|') && !s.contains('#')
}

/// Whether a token can stand for the source: a country has two characters;
/// a city is not empty, is not taken for anything else, and holds no
/// dividing character; and a network is one that its own notation is read
/// back as.
pub open spec fn source_representable(s: SourceView) -> bool {
    match s {
        SourceView::Any => true,
        SourceView::FromIpv4(_) => true,
        SourceView::FromIpv4Network(addr, prefix) => cidr_of(cidr_text(addr, prefix)) == Some(
            (addr, prefix),
        ),
        SourceView::FromCountry(c) => c.len() == 2 && plain(c),
        SourceView::FromCity(c) => c.len() != 0 && c.len() != 2 && c != seq!['*'] && ipv4_of(c)
            is None && cidr_of(c) is None && plain(c),
    }
}

/// Whether a token can stand for the access entry. The token of an entry
/// that lets a source in must not look like an entry that keeps one out,
/// nor like a target.
pub open spec fn access_representable(a: AccessView) -> bool {
    match a {
        AccessView::From(s) => source_representable(s) && !(s.text().len() > 1 && s.text()[0]
            == '-') && !is_target_token(s.text()),
        AccessView::Excluding(s) => source_representable(s),
    }
}

/// Whether a token can stand for the target: a path starts with `/`, and
/// neither a path nor a prefix holds a dividing character. No token stands
/// for the target that is any target.
pub open spec fn target_representable(t: TargetView) -> bool {
    match t {
        TargetView::Any => false,
        TargetView::Path(p) => p.len() > 0 && p[0] == '/' && plain(p),
        TargetView::PathPrefix(p) => plain(p),
    }
}

/// Whether a line can stand for the rule. An access list that is shown is
/// made of entries that tokens can stand for, and one that is not shown is
/// the single entry that lets any source in. The targets are the single
/// target that is any target, or targets that tokens can stand for. The
/// location of a redirect holds neither `|` nor `#`, and no tag holds `,`
/// or `#`.
pub open spec fn representable(r: RuleView) -> bool {
    &&& if r.shows_access() {
        forall|i: int| 0 <= i < r.access.len() ==> access_representable(#[trigger] r.access[i])
    } else {
        r.access.len() == 1
    }
    &&& (r.target == seq![TargetView::Any] || (r.target.len() > 0 && forall|i: int|
        0 <= i < r.target.len() ==> target_representable(#[trigger] r.target[i])))
    &&& match r.reaction.redirect() {
        Some(loc) => !loc.contains('|') && !loc.contains('#'),
        None => true,
    }
    &&& forall|i: int|
        0 <= i < r.tags.len() ==> !(#[trigger] r.tags[i]).contains(',') && !r.tags[i].contains('#')
}

/// A text made of digits and of the characters `.` and `/` holds no dividing
/// character and starts neither an excluding entry nor a target, if it
/// starts with a digit.
proof fn lemma_numeric_plain(s: Seq<char>)
    requires
        forall|i: int| 0 <= i < s.len() ==> is_digit(#[trigger] s[i]) || s[i] == '.' || s[i] == '/',
    ensures
        plain(s),
{
    lemma_free_of(s, ',');
    lemma_free_of(s, '|');
    lemma_free_of(s, '#');
}

/// The notation of a network is longer than two characters, is made of
/// digits, dots and one slash, starts with a digit, and is no address.
proof fn lemma_cidr_text_shape(addr: Ipv4Addr, prefix: u8)
    ensures
        cidr_text(addr, prefix).len() >= 9,
        plain(cidr_text(addr, prefix)),
        is_digit(cidr_text(addr, prefix)[0]),
        ipv4_of(cidr_text(addr, prefix)) is None,
{
    let t = cidr_text(addr, prefix);
    let ip = ipv4_text(addr);
    lemma_ipv4_text_shape(addr);
    lemma_decimal_shape(prefix as nat);
    assert(t[0] == ip[0]);
    assert forall|i: int| 0 <= i < t.len() implies is_digit(#[trigger] t[i]) || t[i] == '.'
        || t[i] == '/' by {
        if i < ip.len() {
            assert(t[i] == ip[i]);
        } else if i > ip.len() {
            assert(t[i] == decimal(prefix as nat)[i - ip.len() - 1]);
        }
    }
    lemma_numeric_plain(t);
    let parts = split(t, '.');
    lemma_split_pieces(t, '.');
    lemma_join_split(t, '.');
    assert(t[ip.len() as int] == '/');
    if all_free_of(parts, '/') {
        lemma_join_free(parts, '.', '/');
        assert(t.contains(t[ip.len() as int]));
    }
    let i = choose|i: int| 0 <= i < parts.len() && (#[trigger] parts[i]).contains('/');
    let j = choose|j: int| 0 <= j < parts[i].len() && parts[i][j] == '/';
    assert(!is_digit(parts[i][j]));
    assert(octet_of(parts[i]) is None);
}

/// A source that a token can stand for is read back from its token.
pub proof fn lemma_source_reads_back(s: SourceView)
    requires
        source_representable(s),
    ensures
        SourceView::of(s.text()) == s,
        plain(s.text()),
        s.text().len() > 0,
{
    match s {
        SourceView::Any => {
            lemma_free_of(s.text(), ',');
            lemma_free_of(s.text(), '|');
            lemma_free_of(s.text(), '#');
        },
        SourceView::FromIpv4(ip) => {
            lemma_ipv4_text_shape(ip);
            lemma_ipv4_of_text(ip);
            let t = ipv4_text(ip);
            assert forall|i: int| 0 <= i < t.len() implies is_digit(#[trigger] t[i]) || t[i]
                == '.' || t[i] == '/' by {}
            lemma_numeric_plain(t);
        },
        SourceView::FromIpv4Network(addr, prefix) => {
            lemma_cidr_text_shape(addr, prefix);
        },
        SourceView::FromCountry(_) => {},
        SourceView::FromCity(_) => {},
    }
}

/// An access entry that a token can stand for is read back from its token,
/// which is not empty, holds no dividing character and names no target.
pub proof fn lemma_access_reads_back(a: AccessView)
    requires
        access_representable(a),
    ensures
        AccessView::of(a.text()) == a,
        plain(a.text()),
        a.text().len() > 0,
        !is_target_token(a.text()),
{
    match a {
        AccessView::From(s) => {
            lemma_source_reads_back(s);
        },
        AccessView::Excluding(s) => {
            lemma_source_reads_back(s);
            let t = a.text();
            assert(t.drop_first() == s.text());
            lemma_free_of(s.text(), ',');
            lemma_free_of(s.text(), '|');
            lemma_free_of(s.text(), '#');
            assert forall|i: int| 0 <= i < t.len() implies t[i] != ',' && t[i] != '|' && t[i]
                != '#' by {
                if i > 0 {
                    assert(t[i] == s.text()[i - 1]);
                }
            }
            lemma_free_of(t, ',');
            lemma_free_of(t, '|');
            lemma_free_of(t, '#');
        },
    }
}

/// A target that a token can stand for is read back from its token, which
/// names a target and holds no dividing character.
pub proof fn lemma_target_reads_back(t: TargetView)
    requires
        target_representable(t),
    ensures
        TargetView::of(t.text()) == t,
        plain(t.text()),
        is_target_token(t.text()),
{
    match t {
        TargetView::Any => {},
        TargetView::Path(_) => {},
        TargetView::PathPrefix(p) => {
            let s = t.text();
            assert(s.drop_first() == p);
            lemma_free_of(p, ',');
            lemma_free_of(p, '|');
            lemma_free_of(p, '#');
            assert forall|i: int| 0 <= i < s.len() implies s[i] != ',' && s[i] != '|' && s[i]
                != '#' by {
                if i > 0 {
                    assert(s[i] == p[i - 1]);
                }
            }
            lemma_free_of(s, ',');
            lemma_free_of(s, '|');
            lemma_free_of(s, '#');
        },
    }
}

/// Of no tokens, none is written and none is read.
proof fn lemma_no_tokens()
    ensures
        non_empty(Seq::empty()) == Seq::<Seq<char>>::empty(),
        access_of_tokens(Seq::empty()) == Seq::<AccessView>::empty(),
        target_of_tokens(Seq::empty()) == Seq::<TargetView>::empty(),
{
    reveal(Seq::filter);
}

/// Whether no token of `tokens` holds a dividing character.
pub open spec fn all_plain(tokens: Seq<Seq<char>>) -> bool {
    all_free_of(tokens, ',') && all_free_of(tokens, '|') && all_free_of(tokens, '#')
}

/// One more token that holds no dividing character keeps the tokens free of
/// them.
proof fn lemma_all_plain_push(tokens: Seq<Seq<char>>, t: Seq<char>)
    requires
        all_plain(tokens),
        plain(t),
    ensures
        all_plain(tokens.push(t)),
{
    let grown = tokens.push(t);
    assert forall|i: int| 0 <= i < grown.len() implies !(#[trigger] grown[i]).contains(',')
        && !grown[i].contains('|') && !grown[i].contains('#') by {
        if i < tokens.len() {
            assert(grown[i] == tokens[i]);
        }
    }
}

/// The tokens of access entries that tokens can stand for are all written,
/// and are read back as those entries and no target.
proof fn lemma_access_tokens_read_back(access: Seq<AccessView>)
    requires
        forall|i: int| 0 <= i < access.len() ==> access_representable(#[trigger] access[i]),
    ensures
        non_empty(access_texts(access)) == access_texts(access),
        access_of_tokens(access_texts(access)) == access,
        target_of_tokens(access_texts(access)) == Seq::<TargetView>::empty(),
        all_plain(access_texts(access)),
    decreases access.len(),
{
    if access.len() == 0 {
        lemma_no_tokens();
        assert(access_texts(access) == Seq::<Seq<char>>::empty());
        assert(access == Seq::<AccessView>::empty());
    } else {
        let init = access.drop_last();
        let last = access.last();
        lemma_access_tokens_read_back(init);
        lemma_access_reads_back(last);
        let before = access_texts(init);
        assert(access_texts(access) == before.push(last.text()));
        lemma_of_tokens_push(before, last.text());
        lemma_non_empty_push(before, last.text());
        lemma_all_plain_push(before, last.text());
        assert(init.push(last) == access);
    }
}

/// Behind any tokens, the tokens of targets that tokens can stand for are
/// all written, and are read back as those targets and no access entry.
proof fn lemma_target_tokens_read_back(before: Seq<Seq<char>>, target: Seq<TargetView>)
    requires
        forall|i: int| 0 <= i < target.len() ==> target_representable(#[trigger] target[i]),
        all_plain(before),
    ensures
        non_empty(target_texts(target)) == target_texts(target),
        access_of_tokens(before + target_texts(target)) == access_of_tokens(before),
        target_of_tokens(before + target_texts(target)) == target_of_tokens(before) + target,
        all_plain(before + target_texts(target)),
    decreases target.len(),
{
    if target.len() == 0 {
        lemma_no_tokens();
        assert(target_texts(target) == Seq::<Seq<char>>::empty());
        assert(before + target_texts(target) == before);
        assert(target_of_tokens(before) + target == target_of_tokens(before));
    } else {
        let init = target.drop_last();
        let last = target.last();
        lemma_target_tokens_read_back(before, init);
        lemma_target_reads_back(last);
        let seen = before + target_texts(init);
        assert(target_texts(target) == target_texts(init).push(last.text()));
        assert(before + target_texts(target) == seen.push(last.text()));
        lemma_of_tokens_push(seen, last.text());
        lemma_non_empty_push(target_texts(init), last.text());
        lemma_all_plain_push(seen, last.text());
        assert(init.push(last) == target);
        assert((target_of_tokens(before) + init).push(last) == target_of_tokens(before) + target);
    }
}

/// The body of a rule that a line can stand for holds none of `|` and `#`,
/// and its tokens are read back as the rule's access list and targets.
proof fn lemma_body_reads_back(r: RuleView)
    requires
        representable(r),
    ensures
        !r.body().contains('|'),
        !r.body().contains('#'),
        ({
            let access = access_of_tokens(split(r.body(), ','));
            if access.len() == 0 {
                r.access == seq![AccessView::From(SourceView::Any)]
            } else {
                r.access == access
            }
        }),
        ({
            let target = target_of_tokens(split(r.body(), ','));
            if target.len() == 0 {
                r.target == seq![TargetView::Any]
            } else {
                r.target == target
            }
        }),
{
    let any_source = AccessView::From(SourceView::Any);
    let empty = Seq::<char>::empty();
    let none = Seq::<Seq<char>>::empty();
    let shown_access = if r.shows_access() {
        r.access
    } else {
        Seq::<AccessView>::empty()
    };
    let shown_target = if r.target == seq![TargetView::Any] {
        Seq::<TargetView>::empty()
    } else {
        r.target
    };
    lemma_no_tokens();
    if !r.shows_access() {
        assert(r.access[0] == any_source);
        assert(r.access == seq![any_source]);
    }
    if r.target == seq![TargetView::Any] {
        assert(target_texts(r.target) == none.push(empty));
        lemma_non_empty_push(none, empty);
    }
    lemma_access_tokens_read_back(shown_access);
    lemma_target_tokens_read_back(access_texts(shown_access), shown_target);
    let tokens = access_texts(shown_access) + target_texts(shown_target);
    assert(access_texts(Seq::<AccessView>::empty()) == none);
    assert(target_texts(Seq::<TargetView>::empty()) == none);
    assert(r.body() == join(tokens, ','));
    lemma_join_free(tokens, ',', '|');
    lemma_join_free(tokens, ',', '#');
    assert(Seq::<TargetView>::empty() + shown_target == shown_target);
    if tokens.len() == 0 {
        assert(r.body() == empty);
        assert(split(empty, ',') == seq![empty]);
        assert(seq![empty] == none.push(empty));
        lemma_of_tokens_push(none, empty);
        assert(SourceView::of(empty) == SourceView::Any);
        assert(access_of_tokens(seq![empty]) == seq![any_source]);
        assert(shown_access.len() == 0);
        assert(shown_target.len() == 0);
    } else {
        lemma_split_join(tokens, ',');
        if shown_access.len() > 0 {
            assert(r.shows_access());
        }
    }
}

/// The numerals of the two redirect statuses.
proof fn lemma_redirect_numerals()
    ensures
        decimal(301) == seq!['3', '0', '1'],
        decimal(302) == seq!['3', '0', '2'],
{
    assert(decimal(3) == seq!['3']);
    assert(decimal(30) == seq!['3', '0']);
    assert(decimal(301) == decimal(30).push('1'));
    assert(decimal(302) == decimal(30).push('2'));
}

/// A rule that a line can stand for is read back from the line that it is
/// written as.
pub proof fn lemma_round_trip(r: RuleView)
    requires
        representable(r),
    ensures
        RuleView::of(r.text()) == Ok::<RuleView, GrammarError>(r),
{
    lemma_body_reads_back(r);
    let body = r.body();
    let code = r.reaction.code();
    let head = if code != 200 {
        seq![decimal(code as nat)]
    } else {
        Seq::<Seq<char>>::empty()
    };
    let tail = match r.reaction.redirect() {
        Some(loc) => seq![loc],
        None => Seq::<Seq<char>>::empty(),
    };
    let parts = head + seq![body] + tail;
    let line = join(parts, '|');
    lemma_decimal_shape(code as nat);
    assert forall|c: char| !is_digit(c) implies !decimal(code as nat).contains(c) by {
        if decimal(code as nat).contains(c) {
            let i = choose|i: int|
                0 <= i < decimal(code as nat).len() && decimal(code as nat)[i] == c;
            assert(is_digit(decimal(code as nat)[i]));
        }
    }
    assert(all_free_of(parts, '|') && all_free_of(parts, '#')) by {
        assert forall|i: int| 0 <= i < parts.len() implies !(#[trigger] parts[i]).contains('|')
            && !parts[i].contains('#') by {
            if i < head.len() {
                assert(parts[i] == decimal(code as nat));
            } else if i == head.len() {
                assert(parts[i] == body);
            } else {
                assert(parts[i] == r.reaction.redirect()->0);
            }
        }
    }
    lemma_split_join(parts, '|');
    lemma_join_free(parts, '|', '#');
    lemma_split_free(line, '#');
    // The tags.
    let text = r.text();
    let segments = split(text, '#');
    if r.tags.len() > 0 {
        let tags = join(r.tags, ',');
        assert(all_free_of(r.tags, '#') && all_free_of(r.tags, ','));
        lemma_join_free(r.tags, ',', '#');
        lemma_split_free(tags, '#');
        lemma_split_around(line, tags, '#');
        assert(text == line.push('#') + tags);
        assert(segments == seq![line, tags]);
        lemma_split_join(r.tags, ',');
    } else {
        assert(segments == seq![line]);
    }
    assert(segments[0] == line);
    // The reaction.
    lemma_u16_of_decimal(code);
    lemma_redirect_numerals();
    match r.reaction {
        ReactionView::PermanentRedirect(loc) => {
            assert(parts == seq![decimal(301), body, loc]);
        },
        ReactionView::TemporaryRedirect(loc) => {
            assert(parts == seq![decimal(302), body, loc]);
            assert(decimal(302)[2] != seq!['3', '0', '1'][2]);
        },
        ReactionView::HttpStatus(status) => {
            if status != 200 {
                assert(parts == seq![decimal(status as nat), body]);
            } else {
                assert(parts == seq![body]);
            }
        },
    }
    assert(ReactionView::extract(line) == Ok::<(Seq<char>, ReactionView), GrammarError>(
        (body, r.reaction),
    ));
    let read = RuleView::of(text)->Ok_0;
    assert(read.access == r.access);
    assert(read.target == r.target);
    assert(read.tags == r.tags);
    assert(read.reaction == r.reaction);
}

} // verus!
