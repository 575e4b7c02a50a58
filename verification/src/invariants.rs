//! What holds of every group and of every service that the operations of
//! this library make: the index of a group fits its two lists, and no two
//! groups of a service share a name.

use crate::group::{dropped_keys, is_gone, kept, SecurityGroupView};
use crate::rule::RuleView;
use crate::text::{before_suffix, split, trim};
use crate::state::{
    add_lines, group_of_file, lemma_position_named, matching, position, RulesRefView,
    ServiceView,
};
use vstd::prelude::*;

verus! {

/// The last of the rules that has the index key `k`.
pub open spec fn last_with(rules: Seq<RuleView>, k: Seq<char>) -> Option<RuleView>
    decreases rules.len(),
{
    if rules.len() == 0 {
        None
    } else if rules.last().index_keys().contains(k) {
        Some(rules.last())
    } else {
        last_with(rules.drop_last(), k)
    }
}

/// Whether the index and the two lists of a group fit together: the indexed
/// rules are those with index keys, the scanned rules those without, and
/// every key of the index is a key of an indexed rule and has the reaction
/// of the last indexed rule with that key.
pub open spec fn consistent(g: SecurityGroupView) -> bool {
    &&& forall|i: int| 0 <= i < g.indexed.len() ==> (#[trigger] g.indexed[i]).index_keys().len() > 0
    &&& forall|i: int|
        0 <= i < g.non_indexed.len() ==> (#[trigger] g.non_indexed[i]).index_keys().len() == 0
    &&& forall|k: Seq<char>| #[trigger]
        g.index.contains_key(k) ==> holds_for(g, k)
}

/// Whether the index of the group holds for the key `k` the reaction of the
/// last indexed rule with that key.
pub open spec fn holds_for(g: SecurityGroupView, k: Seq<char>) -> bool {
    last_with(g.indexed, k) matches Some(r) && g.index[k] == r.reaction
}

/// Every rule that stays was there before.
proof fn lemma_kept_from(rules: Seq<RuleView>, offset: int, gone: Seq<usize>, i: int)
    requires
        0 <= i < kept(rules, offset, gone).len(),
    ensures
        exists|j: int| 0 <= j < rules.len() && #[trigger] rules[j] == kept(rules, offset, gone)[i],
    decreases rules.len(),
{
    if rules.len() > 0 {
        let init = rules.drop_last();
        if i < kept(init, offset, gone).len() {
            lemma_kept_from(init, offset, gone, i);
            let j = choose|j: int|
                0 <= j < init.len() && #[trigger] init[j] == kept(init, offset, gone)[i];
            assert(rules[j] == kept(rules, offset, gone)[i]);
        } else {
            assert(rules[rules.len() - 1] == kept(rules, offset, gone)[i]);
        }
    }
}

/// Where no rule that leaves has the key `k`, the last rule with that key
/// stays the last rule with that key.
proof fn lemma_kept_last_with(rules: Seq<RuleView>, gone: Seq<usize>, k: Seq<char>)
    requires
        !dropped_keys(rules, gone).contains(k),
    ensures
        last_with(kept(rules, 0, gone), k) == last_with(rules, k),
    decreases rules.len(),
{
    if rules.len() > 0 {
        let init = rules.drop_last();
        let last = rules.last();
        assert(!dropped_keys(init, gone).contains(k)) by {
            if dropped_keys(init, gone).contains(k) {
                let p = choose|p: int|
                    0 <= p < init.len() && is_gone(gone, p) && (
                    #[trigger] init[p]).index_keys().contains(k);
                assert(rules[p].index_keys().contains(k));
            }
        }
        lemma_kept_last_with(init, gone, k);
        if is_gone(gone, rules.len() - 1) {
            assert(!rules[rules.len() - 1].index_keys().contains(k));
        } else {
            assert(kept(rules, 0, gone).drop_last() == kept(init, 0, gone));
        }
    }
}

/// A group without rules is consistent.
pub proof fn lemma_new_consistent(name: Seq<char>)
    ensures
        consistent(SecurityGroupView::new(name)),
{
}

/// Adding a rule keeps a group consistent.
pub proof fn lemma_add_consistent(g: SecurityGroupView, r: RuleView)
    requires
        consistent(g),
    ensures
        consistent(g.add(r)),
{
    let after = g.add(r);
    if r.index_keys().len() > 0 {
        assert(after.indexed.drop_last() == g.indexed);
        assert forall|i: int| 0 <= i < after.indexed.len() implies (
        #[trigger] after.indexed[i]).index_keys().len() > 0 by {
            if i < g.indexed.len() {
                assert(after.indexed[i] == g.indexed[i]);
            }
        }
        assert forall|k: Seq<char>| #[trigger] after.index.contains_key(k) implies holds_for(
            after,
            k,
        ) by {
            if !r.index_keys().contains(k) {
                assert(g.index.contains_key(k));
                assert(holds_for(g, k));
            }
        }
    } else {
        assert forall|i: int| 0 <= i < after.non_indexed.len() implies (
        #[trigger] after.non_indexed[i]).index_keys().len() == 0 by {
            if i < g.non_indexed.len() {
                assert(after.non_indexed[i] == g.non_indexed[i]);
            }
        }
    }
}

/// Removing rules keeps a group consistent.
pub proof fn lemma_remove_many_consistent(g: SecurityGroupView, gone: Seq<usize>)
    requires
        consistent(g),
    ensures
        consistent(g.remove_many(gone)),
{
    let after = g.remove_many(gone);
    assert forall|i: int| 0 <= i < after.indexed.len() implies (
    #[trigger] after.indexed[i]).index_keys().len() > 0 by {
        lemma_kept_from(g.indexed, 0, gone, i);
    }
    assert forall|i: int| 0 <= i < after.non_indexed.len() implies (
    #[trigger] after.non_indexed[i]).index_keys().len() == 0 by {
        lemma_kept_from(g.non_indexed, g.indexed.len() as int, gone, i);
    }
    assert forall|k: Seq<char>| #[trigger] after.index.contains_key(k) implies holds_for(
        after,
        k,
    ) by {
        assert(g.index.contains_key(k));
        assert(holds_for(g, k));
        lemma_kept_last_with(g.indexed, gone, k);
    }
}

/// Reading the lines of a rules file keeps a group consistent.
pub proof fn lemma_load_consistent(g: SecurityGroupView, lines: Seq<Seq<char>>)
    requires
        consistent(g),
    ensures
        consistent(g.load(lines)),
    decreases lines.len(),
{
    if lines.len() > 0 {
        let before = g.load(lines.drop_last());
        lemma_load_consistent(g, lines.drop_last());
        if let Ok(r) = RuleView::of(trim(lines.last())) {
            lemma_add_consistent(before, r);
        }
    }
}

/// Adding the rules that the lines of a text read as keeps a group
/// consistent, and keeps its name.
pub proof fn lemma_add_lines_consistent(g: SecurityGroupView, lines: Seq<Seq<char>>)
    requires
        consistent(g),
    ensures
        consistent(add_lines(g, lines).group),
        add_lines(g, lines).group.name == g.name,
    decreases lines.len(),
{
    if lines.len() > 0 {
        let before = add_lines(g, lines.drop_last());
        lemma_add_lines_consistent(g, lines.drop_last());
        if let Ok(r) = RuleView::of(trim(lines.last())) {
            lemma_add_consistent(before.group, r);
        }
    }
}

/// Reading the lines of a rules file keeps the name of a group.
pub proof fn lemma_load_name(g: SecurityGroupView, lines: Seq<Seq<char>>)
    ensures
        g.load(lines).name == g.name,
    decreases lines.len(),
{
    if lines.len() > 0 {
        lemma_load_name(g, lines.drop_last());
    }
}

/// Whether the groups of a service are sound: no two of them share a name,
/// and each of them is consistent.
pub open spec fn sound(svc: ServiceView) -> bool {
    &&& forall|i: int, j: int|
        0 <= i < j < svc.groups.len() ==> (#[trigger] svc.groups[i]).name != (
        #[trigger] svc.groups[j]).name
    &&& forall|i: int| 0 <= i < svc.groups.len() ==> consistent(#[trigger] svc.groups[i])
}

/// Where no group is found under a name, no group has the name.
proof fn lemma_position_none(svc: ServiceView, name: Seq<char>)
    requires
        position(svc.groups, name) is None,
    ensures
        forall|i: int| 0 <= i < svc.groups.len() ==> (#[trigger] svc.groups[i]).name != name,
    decreases svc.groups.len(),
{
    if svc.groups.len() > 0 {
        let init = ServiceView { groups: svc.groups.drop_last(), ..svc };
        lemma_position_none(init, name);
        assert forall|i: int| 0 <= i < svc.groups.len() implies (#[trigger] svc.groups[i]).name
            != name by {
            if i < init.groups.len() {
                assert(init.groups[i] == svc.groups[i]);
            }
        }
    }
}

/// Putting a consistent group in the place of the group of its name keeps a
/// service sound.
pub proof fn lemma_put_sound(svc: ServiceView, g: SecurityGroupView)
    requires
        sound(svc),
        consistent(g),
    ensures
        sound(svc.put(g)),
{
    lemma_position_named(svc.groups, g.name);
    let after = svc.put(g);
    match position(svc.groups, g.name) {
        Some(p) => {
            assert forall|i: int, j: int| 0 <= i < j < after.groups.len() implies (
            #[trigger] after.groups[i]).name != (#[trigger] after.groups[j]).name by {
                assert(after.groups[i].name == svc.groups[i].name);
                assert(after.groups[j].name == svc.groups[j].name);
            }
            assert forall|i: int| 0 <= i < after.groups.len() implies consistent(
                #[trigger] after.groups[i],
            ) by {
                if i != p {
                    assert(after.groups[i] == svc.groups[i]);
                }
            }
        },
        None => {
            lemma_position_none(svc, g.name);
            assert forall|i: int, j: int| 0 <= i < j < after.groups.len() implies (
            #[trigger] after.groups[i]).name != (#[trigger] after.groups[j]).name by {
                assert(after.groups[i] == svc.groups[i]);
                if j < svc.groups.len() {
                    assert(after.groups[j] == svc.groups[j]);
                }
            }
            assert forall|i: int| 0 <= i < after.groups.len() implies consistent(
                #[trigger] after.groups[i],
            ) by {
                if i < svc.groups.len() {
                    assert(after.groups[i] == svc.groups[i]);
                }
            }
        },
    }
}

/// Reading the files of a storage directory keeps a service sound.
pub proof fn lemma_load_files_sound(svc: ServiceView, files: Seq<(Seq<char>, Seq<char>)>)
    requires
        sound(svc),
    ensures
        sound(svc.load_files(files)),
    decreases files.len(),
{
    if files.len() > 0 {
        lemma_load_files_sound(svc, files.drop_last());
        match group_of_file(files.last()) {
            Some(g) => {
                let name = before_suffix(files.last().0, ".rules.txt"@)->0;
                lemma_load_consistent(SecurityGroupView::new(name), split(files.last().1, '\n'));
                lemma_put_sound(svc.load_files(files.drop_last()), g);
            },
            None => {},
        }
    }
}

/// Creating rules keeps a service sound.
pub proof fn lemma_create_rule_sound(svc: ServiceView, name: Seq<char>, lines: Seq<Seq<char>>)
    requires
        sound(svc),
    ensures
        sound(svc.put(add_lines(svc.group_or_new(name), lines).group)),
{
    lemma_position_named(svc.groups, name);
    lemma_add_lines_consistent(svc.group_or_new(name), lines);
    lemma_put_sound(svc, add_lines(svc.group_or_new(name), lines).group);
}

/// Putting a consistent group of the same name in the place of a group
/// keeps a service sound.
proof fn lemma_update_sound(svc: ServiceView, p: int, g: SecurityGroupView)
    requires
        sound(svc),
        0 <= p < svc.groups.len(),
        consistent(g),
        g.name == svc.groups[p].name,
    ensures
        sound(ServiceView { groups: svc.groups.update(p, g), ..svc }),
{
    let after = ServiceView { groups: svc.groups.update(p, g), ..svc };
    assert forall|i: int, j: int| 0 <= i < j < after.groups.len() implies (
    #[trigger] after.groups[i]).name != (#[trigger] after.groups[j]).name by {
        assert(after.groups[i].name == svc.groups[i].name);
        assert(after.groups[j].name == svc.groups[j].name);
    }
    assert forall|i: int| 0 <= i < after.groups.len() implies consistent(
        #[trigger] after.groups[i],
    ) by {
        if i != p {
            assert(after.groups[i] == svc.groups[i]);
        }
    }
}

/// Replacing rules keeps a service sound.
pub proof fn lemma_update_rule_sound(
    svc: ServiceView,
    name: Seq<char>,
    rules: RulesRefView,
    input: Seq<char>,
)
    requires
        sound(svc),
    ensures
        svc.update_rule(name, rules, input) matches Ok(after) ==> sound(after),
{
    lemma_position_named(svc.groups, name);
    if let Some(p) = position(svc.groups, name) {
        let g = svc.groups[p];
        if let Ok(after) = svc.update_rule(name, rules, input) {
            if after != svc {
                let gone = match rules {
                    RulesRefView::Index(index) => seq![index],
                    RulesRefView::Tag(filter) => matching(g.rules(), filter),
                    RulesRefView::All => Seq::empty(),
                };
                let r = RuleView::of(input)->Ok_0;
                lemma_remove_many_consistent(g, gone);
                lemma_add_consistent(g.remove_many(gone), r);
                lemma_update_sound(svc, p, g.remove_many(gone).add(r));
            }
        }
    }
}

/// Deleting rules keeps a service sound.
pub proof fn lemma_delete_rule_sound(svc: ServiceView, name: Seq<char>, rules: RulesRefView)
    requires
        sound(svc),
    ensures
        svc.delete_rule(name, rules) matches Ok(after) ==> sound(after),
{
    lemma_position_named(svc.groups, name);
    if let Some(p) = position(svc.groups, name) {
        let g = svc.groups[p];
        if let Ok(after) = svc.delete_rule(name, rules) {
            if after != svc {
                match rules {
                    RulesRefView::All => {
                        lemma_new_consistent(g.name);
                        lemma_update_sound(svc, p, g.reset());
                    },
                    RulesRefView::Index(index) => {
                        lemma_remove_many_consistent(g, seq![index]);
                        lemma_update_sound(svc, p, g.remove_many(seq![index]));
                    },
                    RulesRefView::Tag(filter) => {
                        lemma_remove_many_consistent(g, matching(g.rules(), filter));
                        lemma_update_sound(svc, p, g.remove_many(matching(g.rules(), filter)));
                    },
                }
            }
        }
    }
}

} // verus!
