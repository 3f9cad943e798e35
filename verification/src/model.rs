//! The store as mathematics: what the two tables hold, and what each
//! operation makes of them.
//!
//! The restaurant list is a sequence of entries in ascending order of name,
//! which makes the name a key. The history is a sequence of picks from the
//! latest to the earliest, one per name, never longer than
//! [`HISTORY_LIMIT`]. Names and timestamps are ordered by
//! [`text_lt`](crate::text::text_lt); categories are compared by
//! [`same_ignoring_case`](crate::text::same_ignoring_case).

use crate::seq_facts::{
    lemma_filter_drops_one, lemma_filter_keeps_all, lemma_filter_members, lemma_filter_prefix,
    lemma_filter_step,
};
use crate::text::{
    lemma_lt_asymmetric, lemma_lt_irreflexive, lemma_lt_total, lemma_lt_transitive,
    lemma_not_lt_transitive, same_ignoring_case, text_lt,
};
use vstd::prelude::*;

verus! {

/// How many picks the history keeps.
pub const HISTORY_LIMIT: usize = 14;

/// A row of the restaurant list.
pub ghost struct Entry {
    pub name: Seq<char>,
    pub category: Seq<char>,
}

/// A row of the history: a restaurant's name and when it was last picked.
pub ghost struct Pick {
    pub name: Seq<char>,
    pub picked_at: Seq<char>,
}

/// Both tables.
pub ghost struct Store {
    pub list: Seq<Entry>,
    pub recent: Seq<Pick>,
}

/// An entry may enter the list only with a name and a category.
pub open spec fn entry_ok(e: Entry) -> bool {
    e.name.len() > 0 && e.category.len() > 0
}

/// Some entry of `list` has this name, letter for letter.
pub open spec fn has_name(list: Seq<Entry>, name: Seq<char>) -> bool {
    exists|i: int| 0 <= i < list.len() && (#[trigger] list[i]).name == name
}

/// Each entry's name sorts strictly before the next one's.
pub open spec fn sorted_by_name(list: Seq<Entry>) -> bool {
    forall|i: int, j: int|
        0 <= i < j < list.len() ==> text_lt((#[trigger] list[i]).name, (#[trigger] list[j]).name)
}

/// The list's invariant: ascending by name, and every entry complete.
pub open spec fn list_wf(list: Seq<Entry>) -> bool {
    &&& sorted_by_name(list)
    &&& forall|i: int| 0 <= i < list.len() ==> entry_ok(#[trigger] list[i])
}

/// Selects the entries whose name sorts before `name`.
pub open spec fn sorts_before(name: Seq<char>) -> spec_fn(Entry) -> bool {
    |e: Entry| text_lt(e.name, name)
}

/// Selects the entries with another name than `name`.
pub open spec fn not_named(name: Seq<char>) -> spec_fn(Entry) -> bool {
    |e: Entry| e.name != name
}

/// Selects the entries of `category`, whatever the case of its letters.
pub open spec fn categorized(category: Seq<char>) -> spec_fn(Entry) -> bool {
    |e: Entry| same_ignoring_case(e.category, category)
}

/// The number of entries whose name sorts before `name`: the place where an
/// entry of that name belongs.
pub open spec fn rank(list: Seq<Entry>, name: Seq<char>) -> int {
    list.filter(sorts_before(name)).len() as int
}

/// `list` with `e` put where its name belongs.
pub open spec fn with_entry(list: Seq<Entry>, e: Entry) -> Seq<Entry> {
    list.insert(rank(list, e.name), e)
}

/// The list after `e` was offered to it: with `e` where its name is new, as
/// it was where the name is taken.
pub open spec fn added(list: Seq<Entry>, e: Entry) -> Seq<Entry> {
    if has_name(list, e.name) {
        list
    } else {
        with_entry(list, e)
    }
}

/// `list` without the entry of that name, if there is one.
pub open spec fn without_name(list: Seq<Entry>, name: Seq<char>) -> Seq<Entry> {
    list.filter(not_named(name))
}

/// The entries of `category`, in the list's order.
pub open spec fn in_category(list: Seq<Entry>, category: Seq<char>) -> Seq<Entry> {
    list.filter(categorized(category))
}

/// What seeding an empty list with `rows` leaves: each complete row is
/// offered to the list in turn, so that of two rows with one name the first
/// stays; an incomplete row is passed over.
pub open spec fn seeded(rows: Seq<Entry>) -> Seq<Entry>
    decreases rows.len(),
{
    if rows.len() == 0 {
        Seq::empty()
    } else {
        let before = seeded(rows.drop_last());
        let row = rows.last();
        if entry_ok(row) {
            added(before, row)
        } else {
            before
        }
    }
}

/// The history's invariant: at most [`HISTORY_LIMIT`] picks, one per name,
/// none earlier than one that stands behind it.
pub open spec fn history_wf(recent: Seq<Pick>) -> bool {
    &&& recent.len() <= HISTORY_LIMIT
    &&& one_pick_per_name(recent)
    &&& latest_first(recent)
}

/// No two picks share a name.
pub open spec fn one_pick_per_name(recent: Seq<Pick>) -> bool {
    forall|i: int, j: int|
        0 <= i < j < recent.len() ==> (#[trigger] recent[i]).name != (#[trigger] recent[j]).name
}

/// No pick is earlier than one that stands behind it.
pub open spec fn latest_first(recent: Seq<Pick>) -> bool {
    forall|i: int, j: int|
        0 <= i < j < recent.len() ==> !text_lt(
            (#[trigger] recent[i]).picked_at,
            (#[trigger] recent[j]).picked_at,
        )
}

/// Selects the picks of another name than `name`.
pub open spec fn pick_not_named(name: Seq<char>) -> spec_fn(Pick) -> bool {
    |p: Pick| p.name != name
}

/// Selects the picks made strictly later than `at`.
pub open spec fn picked_after(at: Seq<char>) -> spec_fn(Pick) -> bool {
    |p: Pick| text_lt(at, p.picked_at)
}

/// The name picked last, if anything was picked.
pub open spec fn last_pick(recent: Seq<Pick>) -> Option<Seq<char>> {
    if recent.len() > 0 {
        Some(recent[0].name)
    } else {
        None
    }
}

/// `recent` without the pick of that name, if there is one.
pub open spec fn forgetting(recent: Seq<Pick>, name: Seq<char>) -> Seq<Pick> {
    recent.filter(pick_not_named(name))
}

/// The number of picks made strictly later than `at`.
pub open spec fn later_than(recent: Seq<Pick>, at: Seq<char>) -> int {
    recent.filter(picked_after(at)).len() as int
}

/// `recent` with the pick of `name` replaced by one made at `at`, or with
/// that pick added. It stands behind the picks that are strictly later and
/// before all others, so of two picks with one timestamp the one recorded last
/// counts as the later.
pub open spec fn upserted(recent: Seq<Pick>, name: Seq<char>, at: Seq<char>) -> Seq<Pick> {
    let rest = forgetting(recent, name);
    rest.insert(later_than(rest, at), Pick { name, picked_at: at })
}

/// The [`HISTORY_LIMIT`] latest picks of `recent`.
pub open spec fn pruned(recent: Seq<Pick>) -> Seq<Pick> {
    if recent.len() > HISTORY_LIMIT {
        recent.take(HISTORY_LIMIT as int)
    } else {
        recent
    }
}

/// The history after `name` was picked at `at`.
pub open spec fn recorded(recent: Seq<Pick>, name: Seq<char>, at: Seq<char>) -> Seq<Pick> {
    pruned(upserted(recent, name, at))
}

/// The entries that a roll in `category` chooses from: those of the category
/// but the one picked last, or all of them where that leaves none.
pub open spec fn pool(list: Seq<Entry>, recent: Seq<Pick>, category: Seq<char>) -> Seq<Entry> {
    let all = in_category(list, category);
    let fresh = match last_pick(recent) {
        Some(name) => without_name(all, name),
        None => all,
    };
    if fresh.len() == 0 {
        all
    } else {
        fresh
    }
}

/// In a sorted list the entries that sort before `name` come first, so their
/// number is where the others begin.
pub proof fn lemma_rank_splits(list: Seq<Entry>, name: Seq<char>)
    requires
        sorted_by_name(list),
    ensures
        0 <= rank(list, name) <= list.len(),
        forall|i: int| 0 <= i < rank(list, name) ==> text_lt((#[trigger] list[i]).name, name),
        forall|i: int|
            rank(list, name) <= i < list.len() ==> !text_lt((#[trigger] list[i]).name, name),
    decreases list.len(),
{
    let p = sorts_before(name);
    if list.len() == 0 {
        lemma_filter_prefix(list, p, 0);
    } else {
        let front = list.drop_last();
        let last = list.last();
        assert forall|i: int, j: int| 0 <= i < j < front.len() implies text_lt(
            (#[trigger] front[i]).name,
            (#[trigger] front[j]).name,
        ) by {
            assert(front[i] == list[i] && front[j] == list[j]);
        }
        lemma_rank_splits(front, name);
        assert(list.take(list.len() as int) =~= list);
        assert(list.take(list.len() - 1) =~= front);
        lemma_filter_step(list, p, list.len() - 1);
        if text_lt(last.name, name) {
            assert forall|i: int| 0 <= i < front.len() implies text_lt(
                (#[trigger] list[i]).name,
                name,
            ) by {
                assert(list[list.len() - 1] == last);
                lemma_lt_transitive(list[i].name, last.name, name);
            }
            lemma_filter_prefix(list, p, list.len() as int);
        } else {
            assert forall|i: int| 0 <= i < rank(list, name) implies text_lt(
                (#[trigger] list[i]).name,
                name,
            ) by {
                assert(front[i] == list[i]);
            }
            assert forall|i: int| rank(list, name) <= i < list.len() implies !text_lt(
                (#[trigger] list[i]).name,
                name,
            ) by {
                if i < front.len() {
                    assert(front[i] == list[i]);
                }
            }
        }
    }
}

/// The place found by walking a sorted list up to the first entry that does
/// not sort before `name` is the rank of `name`, and only there can an entry
/// of that name stand.
pub proof fn lemma_locate(list: Seq<Entry>, name: Seq<char>, k: int)
    requires
        sorted_by_name(list),
        0 <= k <= list.len(),
        forall|i: int| 0 <= i < k ==> text_lt((#[trigger] list[i]).name, name),
        k < list.len() ==> !text_lt(list[k].name, name),
    ensures
        rank(list, name) == k,
        has_name(list, name) <==> k < list.len() && !text_lt(name, list[k].name),
        has_name(list, name) ==> list[k].name == name,
        forall|i: int| k <= i < list.len() ==> !text_lt((#[trigger] list[i]).name, name),
        forall|i: int| k < i < list.len() ==> text_lt(name, (#[trigger] list[i]).name),
{
    assert forall|i: int| k <= i < list.len() implies !text_lt((#[trigger] list[i]).name, name) by {
        if i > k && text_lt(list[i].name, name) {
            lemma_lt_transitive(list[k].name, list[i].name, name);
        }
    }
    lemma_filter_prefix(list, sorts_before(name), k);
    assert forall|i: int| k < i < list.len() implies text_lt(name, (#[trigger] list[i]).name) by {
        lemma_lt_total(name, list[k].name);
        if name != list[k].name {
            lemma_lt_transitive(name, list[k].name, list[i].name);
        }
    }
    if k < list.len() && !text_lt(name, list[k].name) {
        lemma_lt_total(name, list[k].name);
        assert(list[k].name == name);
    }
    if has_name(list, name) {
        let i = choose|i: int| 0 <= i < list.len() && (#[trigger] list[i]).name == name;
        lemma_lt_irreflexive(name);
        if i > k {
            assert(text_lt(name, list[i].name));
        }
        assert(i == k);
    }
}

/// A sorted list holds each name once.
pub proof fn lemma_names_differ(list: Seq<Entry>)
    requires
        sorted_by_name(list),
    ensures
        forall|i: int, j: int|
            0 <= i < list.len() && 0 <= j < list.len() && i != j ==> (#[trigger] list[i]).name != (
            #[trigger] list[j]).name,
{
    assert forall|i: int, j: int|
        0 <= i < list.len() && 0 <= j < list.len() && i != j implies (#[trigger] list[i]).name != (
    #[trigger] list[j]).name by {
        lemma_lt_irreflexive(list[i].name);
        if i < j {
            assert(text_lt(list[i].name, list[j].name));
        } else {
            assert(text_lt(list[j].name, list[i].name));
        }
    }
}

/// Putting a complete entry with a new name where it belongs keeps the list
/// in order.
pub proof fn lemma_with_entry_wf(list: Seq<Entry>, e: Entry)
    requires
        list_wf(list),
        entry_ok(e),
        !has_name(list, e.name),
    ensures
        list_wf(with_entry(list, e)),
        with_entry(list, e).len() == list.len() + 1,
        with_entry(list, e)[rank(list, e.name)] == e,
{
    let k = rank(list, e.name);
    lemma_rank_splits(list, e.name);
    lemma_locate(list, e.name, k);
    let next = with_entry(list, e);
    assert forall|i: int, j: int| 0 <= i < j < next.len() implies text_lt(
        (#[trigger] next[i]).name,
        (#[trigger] next[j]).name,
    ) by {
        if j < k {
            assert(next[i] == list[i] && next[j] == list[j]);
        } else if j == k {
            assert(next[i] == list[i]);
        } else if i < k {
            assert(next[i] == list[i] && next[j] == list[j - 1]);
        } else if i == k {
            assert(next[j] == list[j - 1]);
            if j - 1 == k {
                lemma_lt_total(e.name, list[k].name);
            }
        } else {
            assert(next[i] == list[i - 1] && next[j] == list[j - 1]);
        }
    }
    assert forall|i: int| 0 <= i < next.len() implies entry_ok(#[trigger] next[i]) by {
        if i < k {
            assert(next[i] == list[i]);
        } else if i > k {
            assert(next[i] == list[i - 1]);
        }
    }
}

/// Taking a name out of a sorted list removes the one entry that has it, or
/// nothing. What is left is in order, lacks that name and holds every other
/// name that was there.
pub proof fn lemma_without_name(list: Seq<Entry>, name: Seq<char>)
    requires
        list_wf(list),
    ensures
        list_wf(without_name(list, name)),
        !has_name(without_name(list, name), name),
        !has_name(list, name) ==> without_name(list, name) == list,
        forall|k: int|
            0 <= k < list.len() && (#[trigger] list[k]).name == name ==> without_name(list, name)
                == list.remove(k),
        forall|other: Seq<char>|
            other != name ==> (#[trigger] has_name(without_name(list, name), other) <==> has_name(
                list,
                other,
            )),
{
    let rest = without_name(list, name);
    lemma_names_differ(list);
    if has_name(list, name) {
        let k = choose|k: int| 0 <= k < list.len() && (#[trigger] list[k]).name == name;
        lemma_filter_drops_one(list, not_named(name), k);
        assert forall|j: int| 0 <= j < list.len() && (#[trigger] list[j]).name == name implies rest
            == list.remove(j) by {
            assert(j == k);
        }
        assert forall|i: int| 0 <= i < rest.len() implies (#[trigger] rest[i]) == list[if i < k {
            i
        } else {
            i + 1
        }] by {}
        assert forall|i: int, j: int| 0 <= i < j < rest.len() implies text_lt(
            (#[trigger] rest[i]).name,
            (#[trigger] rest[j]).name,
        ) by {
            let a = if i < k { i } else { i + 1 };
            let b = if j < k { j } else { j + 1 };
            assert(rest[i] == list[a] && rest[j] == list[b]);
        }
        assert forall|i: int| 0 <= i < rest.len() implies entry_ok(#[trigger] rest[i]) by {
            let a = if i < k { i } else { i + 1 };
            assert(rest[i] == list[a]);
        }
    } else {
        assert forall|i: int| 0 <= i < list.len() implies not_named(name)(#[trigger] list[i]) by {}
        lemma_filter_keeps_all(list, not_named(name));
    }
    lemma_filter_members(list, not_named(name));
    assert forall|other: Seq<char>| other != name implies (#[trigger] has_name(rest, other)
        <==> has_name(list, other)) by {
        if has_name(rest, other) {
            let i = choose|i: int| 0 <= i < rest.len() && (#[trigger] rest[i]).name == other;
            assert(list.contains(rest[i]));
            let j = choose|j: int| 0 <= j < list.len() && list[j] == rest[i];
            assert(list[j].name == other);
        }
        if has_name(list, other) {
            let j = choose|j: int| 0 <= j < list.len() && (#[trigger] list[j]).name == other;
            assert(rest.contains(list[j]));
            let i = choose|i: int| 0 <= i < rest.len() && rest[i] == list[j];
            assert(rest[i].name == other);
        }
    }
    if has_name(rest, name) {
        let i = choose|i: int| 0 <= i < rest.len() && (#[trigger] rest[i]).name == name;
        assert(not_named(name)(rest[i]));
    }
}

/// Taking a name out of a history removes the one pick that has it, or
/// nothing, and keeps the history's order.
pub proof fn lemma_forgetting(recent: Seq<Pick>, name: Seq<char>)
    requires
        one_pick_per_name(recent),
        latest_first(recent),
    ensures
        one_pick_per_name(forgetting(recent, name)),
        latest_first(forgetting(recent, name)),
        forgetting(recent, name).len() <= recent.len(),
        forall|i: int|
            0 <= i < forgetting(recent, name).len() ==> (#[trigger] forgetting(
                recent,
                name,
            )[i]).name != name,
        (forall|i: int| 0 <= i < recent.len() ==> (#[trigger] recent[i]).name != name)
            ==> forgetting(recent, name) == recent,
        forall|k: int|
            0 <= k < recent.len() && (#[trigger] recent[k]).name == name ==> forgetting(
                recent,
                name,
            ) == recent.remove(k),
{
    let rest = forgetting(recent, name);
    let keep = pick_not_named(name);
    lemma_filter_members(recent, keep);
    if exists|k: int| 0 <= k < recent.len() && (#[trigger] recent[k]).name == name {
        let k = choose|k: int| 0 <= k < recent.len() && (#[trigger] recent[k]).name == name;
        assert forall|i: int| 0 <= i < recent.len() && i != k implies keep(#[trigger] recent[i]) by {
            if i < k {
                assert(recent[i].name != recent[k].name);
            } else {
                assert(recent[k].name != recent[i].name);
            }
        }
        lemma_filter_drops_one(recent, keep, k);
        assert forall|j: int| 0 <= j < recent.len() && (#[trigger] recent[j]).name == name implies rest
            == recent.remove(j) by {
            assert(j == k);
        }
        assert forall|i: int, j: int| 0 <= i < j < rest.len() implies (#[trigger] rest[i]).name != (
        #[trigger] rest[j]).name && !text_lt(rest[i].picked_at, rest[j].picked_at) by {
            let a = if i < k { i } else { i + 1 };
            let b = if j < k { j } else { j + 1 };
            assert(rest[i] == recent[a] && rest[j] == recent[b]);
        }
    } else {
        assert forall|i: int| 0 <= i < recent.len() implies keep(#[trigger] recent[i]) by {}
        lemma_filter_keeps_all(recent, keep);
    }
    assert forall|i: int| 0 <= i < rest.len() implies (#[trigger] rest[i]).name != name by {
        assert(keep(rest[i]));
    }
}

/// In a history the picks later than `at` come first, so their number is
/// where the others begin.
pub proof fn lemma_later_splits(recent: Seq<Pick>, at: Seq<char>)
    requires
        latest_first(recent),
    ensures
        0 <= later_than(recent, at) <= recent.len(),
        forall|i: int|
            0 <= i < later_than(recent, at) ==> text_lt(at, (#[trigger] recent[i]).picked_at),
        forall|i: int|
            later_than(recent, at) <= i < recent.len() ==> !text_lt(
                at,
                (#[trigger] recent[i]).picked_at,
            ),
    decreases recent.len(),
{
    let p = picked_after(at);
    if recent.len() == 0 {
        lemma_filter_prefix(recent, p, 0);
    } else {
        let front = recent.drop_last();
        let last = recent.last();
        assert forall|i: int, j: int| 0 <= i < j < front.len() implies !text_lt(
            (#[trigger] front[i]).picked_at,
            (#[trigger] front[j]).picked_at,
        ) by {
            assert(front[i] == recent[i] && front[j] == recent[j]);
        }
        lemma_later_splits(front, at);
        assert(recent.take(recent.len() as int) =~= recent);
        assert(recent.take(recent.len() - 1) =~= front);
        lemma_filter_step(recent, p, recent.len() - 1);
        if text_lt(at, last.picked_at) {
            assert forall|i: int| 0 <= i < front.len() implies text_lt(
                at,
                (#[trigger] recent[i]).picked_at,
            ) by {
                assert(recent[recent.len() - 1] == last);
                if !text_lt(at, recent[i].picked_at) {
                    lemma_not_lt_transitive(at, recent[i].picked_at, last.picked_at);
                }
            }
            lemma_filter_prefix(recent, p, recent.len() as int);
        } else {
            assert forall|i: int| 0 <= i < later_than(recent, at) implies text_lt(
                at,
                (#[trigger] recent[i]).picked_at,
            ) by {
                assert(front[i] == recent[i]);
            }
            assert forall|i: int| later_than(recent, at) <= i < recent.len() implies !text_lt(
                at,
                (#[trigger] recent[i]).picked_at,
            ) by {
                if i < front.len() {
                    assert(front[i] == recent[i]);
                }
            }
        }
    }
}

/// The place found by walking a history up to the first pick that is not
/// later than `at` is the number of picks later than `at`.
pub proof fn lemma_place(recent: Seq<Pick>, at: Seq<char>, k: int)
    requires
        latest_first(recent),
        0 <= k <= recent.len(),
        forall|i: int| 0 <= i < k ==> text_lt(at, (#[trigger] recent[i]).picked_at),
        k < recent.len() ==> !text_lt(at, recent[k].picked_at),
    ensures
        later_than(recent, at) == k,
{
    assert forall|i: int| k <= i < recent.len() implies !text_lt(
        at,
        (#[trigger] recent[i]).picked_at,
    ) by {
        if i > k {
            lemma_not_lt_transitive(at, recent[k].picked_at, recent[i].picked_at);
        }
    }
    lemma_filter_prefix(recent, picked_after(at), k);
}

/// Recording a pick keeps the history's invariant. What is left are the
/// latest picks: the history with the new pick in its place, cut after
/// [`HISTORY_LIMIT`] rows, so that a pick that was dropped is no later than
/// any that stayed.
pub proof fn lemma_recorded(recent: Seq<Pick>, name: Seq<char>, at: Seq<char>)
    requires
        history_wf(recent),
    ensures
        history_wf(recorded(recent, name, at)),
        one_pick_per_name(upserted(recent, name, at)),
        latest_first(upserted(recent, name, at)),
        upserted(recent, name, at).len() == forgetting(recent, name).len() + 1,
        upserted(recent, name, at)[later_than(forgetting(recent, name), at)] == (Pick {
            name,
            picked_at: at,
        }),
        recorded(recent, name, at).len() <= upserted(recent, name, at).len() <= HISTORY_LIMIT + 1,
        forall|i: int|
            0 <= i < recorded(recent, name, at).len() ==> (#[trigger] recorded(recent, name, at)[i])
                == upserted(recent, name, at)[i],
        forall|i: int, j: int|
            0 <= i < recorded(recent, name, at).len() <= j < upserted(recent, name, at).len()
                ==> !text_lt(
                (#[trigger] recorded(recent, name, at)[i]).picked_at,
                (#[trigger] upserted(recent, name, at)[j]).picked_at,
            ),
{
    let rest = forgetting(recent, name);
    let k = later_than(rest, at);
    let pick = Pick { name, picked_at: at };
    let all = upserted(recent, name, at);
    lemma_forgetting(recent, name);
    lemma_later_splits(rest, at);
    assert forall|i: int, j: int| 0 <= i < j < all.len() implies (#[trigger] all[i]).name != (
    #[trigger] all[j]).name && !text_lt(all[i].picked_at, all[j].picked_at) by {
        if j < k {
            assert(all[i] == rest[i] && all[j] == rest[j]);
        } else if j == k {
            assert(all[i] == rest[i]);
            lemma_lt_asymmetric(at, rest[i].picked_at);
        } else if i < k {
            assert(all[i] == rest[i] && all[j] == rest[j - 1]);
        } else if i == k {
            assert(all[j] == rest[j - 1]);
        } else {
            assert(all[i] == rest[i - 1] && all[j] == rest[j - 1]);
        }
    }
}

} // verus!
