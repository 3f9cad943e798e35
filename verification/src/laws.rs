//! What holds of the store whatever it contains: laws that relate its
//! operations, proved over the model of [`crate::model`].

use crate::model::{
    added, categorized, entry_ok, forgetting, has_name, history_wf, in_category, last_pick, later_than,
    latest_first, lemma_forgetting, lemma_names_differ, lemma_recorded, lemma_with_entry_wf,
    list_wf, not_named, pick_not_named, picked_after, pool, rank, recorded, sorted_by_name,
    upserted, without_name, Entry, Pick,
};
use crate::seq_facts::{lemma_filter_members, lemma_filter_prefix, lemma_filter_same};
use crate::text::{lemma_lt_irreflexive, lemma_lt_transitive, same_ignoring_case, text_lt};
use vstd::prelude::*;

verus! {

/// After a restaurant was offered to the list, the list holds it, and no
/// other entry has its name. This is so where the name was new, and where the
/// list held that very restaurant already; where it held the name under
/// another category the list keeps what it had.
pub proof fn lemma_added_is_listed_once(list: Seq<Entry>, e: Entry)
    requires
        list_wf(list),
        entry_ok(e),
        has_name(list, e.name) ==> list.contains(e),
    ensures
        list_wf(added(list, e)),
        added(list, e).contains(e),
        forall|i: int, j: int|
            0 <= i < added(list, e).len() && 0 <= j < added(list, e).len() && (#[trigger] added(
                list,
                e,
            )[i]).name == e.name && (#[trigger] added(list, e)[j]).name == e.name ==> i == j,
{
    let after = added(list, e);
    if !has_name(list, e.name) {
        lemma_with_entry_wf(list, e);
        assert(after[rank(list, e.name)] == e);
    }
    lemma_names_differ(after);
}

/// A sorted list is fixed by the entries it holds, so the listing does not
/// depend on the order in which the restaurants were added.
pub proof fn lemma_order_fixes_the_list(a: Seq<Entry>, b: Seq<Entry>)
    requires
        sorted_by_name(a),
        sorted_by_name(b),
        forall|e: Entry| #[trigger] a.contains(e) <==> b.contains(e),
    ensures
        a == b,
    decreases a.len(),
{
    if a.len() == 0 || b.len() == 0 {
        if a.len() > 0 {
            assert(a.contains(a[0]));
            assert(b.contains(a[0]));
        }
        if b.len() > 0 {
            assert(b.contains(b[0]));
            assert(a.contains(b[0]));
        }
        assert(a =~= b);
    } else {
        let x = a.last();
        let y = b.last();
        let front_a = a.drop_last();
        let front_b = b.drop_last();
        assert(a[a.len() - 1] == x && b[b.len() - 1] == y);
        assert(a.contains(x) && b.contains(y));
        assert(b.contains(x) && a.contains(y));
        let j = choose|j: int| 0 <= j < b.len() && b[j] == x;
        let i = choose|i: int| 0 <= i < a.len() && a[i] == y;
        if j < b.len() - 1 {
            assert(text_lt(b[j].name, b[b.len() - 1].name));
            if i < a.len() - 1 {
                assert(text_lt(a[i].name, a[a.len() - 1].name));
                lemma_lt_transitive(x.name, y.name, x.name);
            }
            lemma_lt_irreflexive(x.name);
        }
        assert(x == y);
        lemma_names_differ(a);
        lemma_names_differ(b);
        assert forall|e: Entry| #[trigger] front_a.contains(e) <==> front_b.contains(e) by {
            if front_a.contains(e) {
                let k = choose|k: int| 0 <= k < front_a.len() && front_a[k] == e;
                assert(a[k] == e);
                assert(a.contains(e));
                assert(b.contains(e));
                let m = choose|m: int| 0 <= m < b.len() && b[m] == e;
                assert(m != b.len() - 1);
                assert(front_b[m] == e);
            }
            if front_b.contains(e) {
                let k = choose|k: int| 0 <= k < front_b.len() && front_b[k] == e;
                assert(b[k] == e);
                assert(b.contains(e));
                assert(a.contains(e));
                let m = choose|m: int| 0 <= m < a.len() && a[m] == e;
                assert(m != a.len() - 1);
                assert(front_a[m] == e);
            }
        }
        assert forall|p: int, q: int| 0 <= p < q < front_a.len() implies text_lt(
            (#[trigger] front_a[p]).name,
            (#[trigger] front_a[q]).name,
        ) by {
            assert(front_a[p] == a[p] && front_a[q] == a[q]);
        }
        assert forall|p: int, q: int| 0 <= p < q < front_b.len() implies text_lt(
            (#[trigger] front_b[p]).name,
            (#[trigger] front_b[q]).name,
        ) by {
            assert(front_b[p] == b[p] && front_b[q] == b[q]);
        }
        lemma_order_fixes_the_list(front_a, front_b);
        assert(a =~= front_a.push(x));
        assert(b =~= front_b.push(y));
    }
}

/// A query by category does not depend on the case of the letters it is
/// asked in.
pub proof fn lemma_category_ignores_case(list: Seq<Entry>, asked: Seq<char>, other: Seq<char>)
    requires
        same_ignoring_case(asked, other),
    ensures
        in_category(list, asked) == in_category(list, other),
{
    lemma_filter_same(list, categorized(asked), categorized(other));
}

/// A restaurant is found under its category in whatever case the category
/// is asked for.
pub proof fn lemma_listed_under_its_category(list: Seq<Entry>, e: Entry, asked: Seq<char>)
    requires
        list.contains(e),
        same_ignoring_case(e.category, asked),
    ensures
        in_category(list, asked).contains(e),
{
    lemma_filter_members(list, categorized(asked));
    let i = choose|i: int| 0 <= i < list.len() && list[i] == e;
    assert(categorized(asked)(list[i]));
}

/// A selection from a sorted list is sorted.
pub proof fn lemma_filter_keeps_order(list: Seq<Entry>, p: spec_fn(Entry) -> bool)
    requires
        sorted_by_name(list),
    ensures
        sorted_by_name(list.filter(p)),
    decreases list.len(),
{
    reveal(Seq::filter);
    if list.len() > 0 {
        let front = list.drop_last();
        let last = list.last();
        assert forall|i: int, j: int| 0 <= i < j < front.len() implies text_lt(
            (#[trigger] front[i]).name,
            (#[trigger] front[j]).name,
        ) by {
            assert(front[i] == list[i] && front[j] == list[j]);
        }
        lemma_filter_keeps_order(front, p);
        lemma_filter_members(front, p);
        let chosen = list.filter(p);
        assert forall|i: int, j: int| 0 <= i < j < chosen.len() implies text_lt(
            (#[trigger] chosen[i]).name,
            (#[trigger] chosen[j]).name,
        ) by {
            if j < front.filter(p).len() {
                assert(chosen[i] == front.filter(p)[i] && chosen[j] == front.filter(p)[j]);
            } else {
                let x = front.filter(p)[i];
                assert(front.contains(x));
                let k = choose|k: int| 0 <= k < front.len() && front[k] == x;
                assert(list[k] == x && list[list.len() - 1] == last);
            }
        }
    }
}

/// What a roll chooses from is never empty where the category is not, and
/// holds only restaurants of the category.
pub proof fn lemma_pool_within_category(list: Seq<Entry>, recent: Seq<Pick>, category: Seq<char>)
    ensures
        pool(list, recent, category).len() == 0 <==> in_category(list, category).len() == 0,
        forall|i: int|
            0 <= i < pool(list, recent, category).len() ==> in_category(list, category).contains(
                #[trigger] pool(list, recent, category)[i],
            ),
{
    let all = in_category(list, category);
    if let Some(name) = last_pick(recent) {
        lemma_filter_members(all, not_named(name));
    }
}

/// In a category of one restaurant a roll has that restaurant to choose
/// from and no other, whether or not it was picked last.
pub proof fn lemma_single_option(list: Seq<Entry>, recent: Seq<Pick>, category: Seq<char>)
    requires
        in_category(list, category).len() == 1,
    ensures
        pool(list, recent, category) == in_category(list, category),
{
    let all = in_category(list, category);
    if let Some(name) = last_pick(recent) {
        let fresh = without_name(all, name);
        lemma_filter_members(all, not_named(name));
        if fresh.len() == 1 {
            assert(all.contains(fresh[0]));
            assert(fresh =~= all);
        }
    }
}

/// In a category of two restaurants or more a roll never chooses from the
/// one picked last.
pub proof fn lemma_pool_avoids_last(list: Seq<Entry>, recent: Seq<Pick>, category: Seq<char>)
    requires
        sorted_by_name(list),
        in_category(list, category).len() >= 2,
    ensures
        forall|i: int|
            0 <= i < pool(list, recent, category).len() ==> Some(
                (#[trigger] pool(list, recent, category)[i]).name,
            ) != last_pick(recent),
{
    let all = in_category(list, category);
    if let Some(name) = last_pick(recent) {
        let fresh = without_name(all, name);
        lemma_filter_keeps_order(list, categorized(category));
        lemma_names_differ(all);
        lemma_filter_members(all, not_named(name));
        assert(all[0].name != all[1].name);
        if all[0].name != name {
            assert(fresh.contains(all[0]));
        } else {
            assert(fresh.contains(all[1]));
        }
        assert forall|i: int| 0 <= i < fresh.len() implies (#[trigger] fresh[i]).name != name by {
            assert(not_named(name)(fresh[i]));
        }
    }
}

/// The pick at the head of the history is the latest: none has a later
/// timestamp.
pub proof fn lemma_last_pick_is_latest(recent: Seq<Pick>)
    requires
        latest_first(recent),
        recent.len() > 0,
    ensures
        last_pick(recent) == Some(recent[0].name),
        forall|i: int|
            0 <= i < recent.len() ==> !text_lt(recent[0].picked_at, (#[trigger] recent[i]).picked_at),
{
    lemma_lt_irreflexive(recent[0].picked_at);
}

/// A pick recorded at a time that is not earlier than any pick in the
/// history is the last pick afterwards.
pub proof fn lemma_latest_pick_leads(recent: Seq<Pick>, name: Seq<char>, at: Seq<char>)
    requires
        history_wf(recent),
        forall|i: int| 0 <= i < recent.len() ==> !text_lt(at, (#[trigger] recent[i]).picked_at),
    ensures
        last_pick(recorded(recent, name, at)) == Some(name),
{
    let rest = forgetting(recent, name);
    lemma_forgetting(recent, name);
    lemma_filter_members(recent, pick_not_named(name));
    assert forall|i: int| 0 <= i < rest.len() implies !picked_after(at)(#[trigger] rest[i]) by {
        assert(recent.contains(rest[i]));
        let j = choose|j: int| 0 <= j < recent.len() && recent[j] == rest[i];
        assert(!text_lt(at, recent[j].picked_at));
    }
    lemma_filter_prefix(rest, picked_after(at), 0);
    assert(later_than(rest, at) == 0);
    lemma_recorded(recent, name, at);
    assert(upserted(recent, name, at)[0] == Pick { name, picked_at: at });
}

/// Two rolls in a row in a category of two restaurants or more never give
/// the same restaurant, whatever is drawn, as long as the first roll's
/// timestamp is not earlier than a pick that the history already holds.
pub proof fn lemma_no_immediate_repeat(
    list: Seq<Entry>,
    recent: Seq<Pick>,
    category: Seq<char>,
    first: Entry,
    at: Seq<char>,
    second: Entry,
)
    requires
        sorted_by_name(list),
        history_wf(recent),
        in_category(list, category).len() >= 2,
        pool(list, recent, category).contains(first),
        forall|i: int| 0 <= i < recent.len() ==> !text_lt(at, (#[trigger] recent[i]).picked_at),
        pool(list, recorded(recent, first.name, at), category).contains(second),
    ensures
        second.name != first.name,
{
    let after = recorded(recent, first.name, at);
    lemma_latest_pick_leads(recent, first.name, at);
    lemma_pool_avoids_last(list, after, category);
    let options = pool(list, after, category);
    let i = choose|i: int| 0 <= i < options.len() && options[i] == second;
    assert(Some(options[i].name) != last_pick(after));
}

} // verus!
