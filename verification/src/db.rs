//! The store: a restaurant list and the history of recent picks.

use crate::error::StoreError;
use crate::laws::{lemma_filter_keeps_order, lemma_pool_within_category, lemma_single_option};
use crate::model::{
    added, categorized, entry_ok, forgetting, has_name, history_wf, in_category, last_pick, lemma_forgetting,
    lemma_locate, lemma_place, lemma_recorded, lemma_with_entry_wf, lemma_without_name, list_wf,
    not_named, pool, rank, recorded, seeded, sorted_by_name, upserted, with_entry, without_name,
    Entry, Pick, Store, HISTORY_LIMIT,
};
use crate::seq_facts::{lemma_filter_keeps_all, lemma_filter_step};
use crate::sources::{draw, now_rfc3339};
use crate::text::{equals_ignoring_case, precedes, same_text, text_lt};
use vstd::prelude::*;

verus! {

/// A place to eat, and the price category it is listed under.
#[derive(Debug)]
pub struct Restaurant {
    pub name: String,
    pub category: String,
}

impl View for Restaurant {
    type V = Entry;

    open spec fn view(&self) -> Entry {
        Entry { name: self.name@, category: self.category@ }
    }
}

impl Clone for Restaurant {
    fn clone(&self) -> (copy: Self)
        ensures
            copy == *self,
    {
        Restaurant { name: self.name.clone(), category: self.category.clone() }
    }
}

/// A restaurant's name and the time at which it was last picked, as an
/// RFC 3339 timestamp.
#[derive(Debug)]
pub struct RecentPick {
    pub name: String,
    pub picked_at: String,
}

impl View for RecentPick {
    type V = Pick;

    open spec fn view(&self) -> Pick {
        Pick { name: self.name@, picked_at: self.picked_at@ }
    }
}

impl Clone for RecentPick {
    fn clone(&self) -> (copy: Self)
        ensures
            copy == *self,
    {
        RecentPick { name: self.name.clone(), picked_at: self.picked_at.clone() }
    }
}

/// The entries that a sequence of restaurants stands for.
pub open spec fn entries(restaurants: Seq<Restaurant>) -> Seq<Entry> {
    restaurants.map_values(|r: Restaurant| r@)
}

/// The picks that a sequence of recent picks stands for.
pub open spec fn picks(recent: Seq<RecentPick>) -> Seq<Pick> {
    recent.map_values(|p: RecentPick| p@)
}

/// The store. It keeps the list in ascending order of name and the history
/// from the latest pick to the earliest.
pub struct Database {
    list: Vec<Restaurant>,
    recent: Vec<RecentPick>,
}

impl View for Database {
    type V = Store;

    closed spec fn view(&self) -> Store {
        Store { list: entries(self.list@), recent: picks(self.recent@) }
    }
}

impl Database {
    /// The store's invariant: every operation keeps it.
    pub open spec fn wf(&self) -> bool {
        list_wf(self@.list) && history_wf(self@.recent)
    }

    /// An empty store that lives in memory only. Making one cannot fail: the
    /// `Result` is the shape that the store's operations share.
    pub fn in_memory() -> (made: Result<Self, StoreError>)
        ensures
            made is Ok,
            made->Ok_0.wf(),
            made->Ok_0@.list == Seq::<Entry>::empty(),
            made->Ok_0@.recent == Seq::<Pick>::empty(),
    {
        let db = Database { list: Vec::new(), recent: Vec::new() };
        assert(db@.list =~= Seq::<Entry>::empty());
        assert(db@.recent =~= Seq::<Pick>::empty());
        Ok(db)
    }

    /// Every restaurant, in ascending order of name.
    pub fn list_all(&self) -> (listed: Result<Vec<Restaurant>, StoreError>)
        requires
            self.wf(),
        ensures
            listed is Ok,
            entries(listed->Ok_0@) == self@.list,
            sorted_by_name(entries(listed->Ok_0@)),
    {
        let mut all: Vec<Restaurant> = Vec::new();
        let mut i: usize = 0;
        while i < self.list.len()
            invariant
                i <= self.list.len(),
                entries(all@) == entries(self.list@).take(i as int),
            decreases self.list.len() - i,
        {
            let ghost before = entries(all@);
            all.push(self.list[i].clone());
            assert(entries(all@) =~= before.push(entries(self.list@)[i as int]));
            i += 1;
            assert(entries(all@) =~= entries(self.list@).take(i as int));
        }
        assert(entries(self.list@).take(i as int) =~= entries(self.list@));
        Ok(all)
    }

    /// The restaurants of `category`, whatever the case of its letters, in
    /// ascending order of name.
    pub fn list_by_category(&self, category: &str) -> (listed: Result<Vec<Restaurant>, StoreError>)
        requires
            self.wf(),
        ensures
            listed is Ok,
            entries(listed->Ok_0@) == in_category(self@.list, category@),
            sorted_by_name(entries(listed->Ok_0@)),
    {
        proof {
            lemma_filter_keeps_order(self@.list, categorized(category@));
        }
        Ok(self.of_category(category))
    }

    fn of_category(&self, category: &str) -> (found: Vec<Restaurant>)
        requires
            self.wf(),
        ensures
            entries(found@) == in_category(self@.list, category@),
    {
        let mut found: Vec<Restaurant> = Vec::new();
        let mut i: usize = 0;
        let ghost all = entries(self.list@);
        let ghost wanted = categorized(category@);
        proof {
            lemma_filter_keeps_all(all.take(0), wanted);
        }
        while i < self.list.len()
            invariant
                i <= self.list.len(),
                all == entries(self.list@),
                wanted == categorized(category@),
                entries(found@) == all.take(i as int).filter(wanted),
            decreases self.list.len() - i,
        {
            proof {
                lemma_filter_step(all, wanted, i as int);
            }
            if equals_ignoring_case(self.list[i].category.as_str(), category) {
                found.push(self.list[i].clone());
                assert(entries(found@) =~= all.take(i as int).filter(wanted).push(all[i as int]));
            }
            i += 1;
        }
        assert(all.take(i as int) =~= all);
        found
    }

    /// Where `name` belongs in the list, and whether it stands there.
    fn locate(&self, name: &str) -> (place: (usize, bool))
        requires
            self.wf(),
        ensures
            place.0 == rank(self@.list, name@),
            place.0 <= self@.list.len(),
            place.1 == has_name(self@.list, name@),
            place.1 ==> place.0 < self@.list.len() && self@.list[place.0 as int].name == name@,
    {
        let mut k: usize = 0;
        while k < self.list.len() && precedes(self.list[k].name.as_str(), name)
            invariant
                k <= self.list.len(),
                forall|i: int| 0 <= i < k ==> text_lt((#[trigger] self@.list[i]).name, name@),
            decreases self.list.len() - k,
        {
            k += 1;
        }
        let found = k < self.list.len() && !precedes(name, self.list[k].name.as_str());
        proof {
            lemma_locate(self@.list, name@, k as int);
        }
        (k, found)
    }

    /// Adds a restaurant. The list holds each name once: a name that is there
    /// already, letter for letter, is refused and nothing changes.
    pub fn add(&mut self, name: &str, category: &str) -> (outcome: Result<(), StoreError>)
        requires
            old(self).wf(),
            name@.len() > 0,
            category@.len() > 0,
        ensures
            final(self).wf(),
            final(self)@.recent == old(self)@.recent,
            final(self)@.list == added(
                old(self)@.list,
                (Entry { name: name@, category: category@ }),
            ),
            has_name(old(self)@.list, name@) ==> outcome == Err::<(), StoreError>(
                StoreError::DuplicateName,
            ) && final(self)@ == old(self)@,
            !has_name(old(self)@.list, name@) ==> outcome is Ok && final(self)@.list == with_entry(
                old(self)@.list,
                (Entry { name: name@, category: category@ }),
            ),
    {
        let (k, found) = self.locate(name);
        if found {
            return Err(StoreError::DuplicateName);
        }
        let ghost before = self@.list;
        let ghost entry = Entry { name: name@, category: category@ };
        self.list.insert(k, Restaurant { name: name.to_owned(), category: category.to_owned() });
        proof {
            assert(self@.list =~= before.insert(k as int, entry));
            lemma_with_entry_wf(before, entry);
        }
        Ok(())
    }

    /// Removes the restaurant of that name. Where there is none, nothing
    /// changes, and that is no failure. The history keeps its picks either
    /// way.
    pub fn delete(&mut self, name: &str) -> (deleted: Result<(), StoreError>)
        requires
            old(self).wf(),
        ensures
            final(self).wf(),
            deleted is Ok,
            final(self)@.list == without_name(old(self)@.list, name@),
            final(self)@.recent == old(self)@.recent,
            !has_name(old(self)@.list, name@) ==> final(self)@ == old(self)@,
    {
        let (k, found) = self.locate(name);
        let ghost before = self@.list;
        proof {
            lemma_without_name(before, name@);
        }
        if found {
            self.list.remove(k);
            assert(self@.list =~= before.remove(k as int));
        }
        Ok(())
    }

    /// Renames the restaurant `current` to `name` and lists it under
    /// `category`. Fails where `current` is not listed, and where `name` is
    /// the name of another restaurant; nothing changes then.
    pub fn update(&mut self, current: &str, name: &str, category: &str) -> (updated: Result<
        (),
        StoreError,
    >)
        requires
            old(self).wf(),
            name@.len() > 0,
            category@.len() > 0,
        ensures
            final(self).wf(),
            final(self)@.recent == old(self)@.recent,
            !has_name(old(self)@.list, current@) ==> updated == Err::<(), StoreError>(
                StoreError::NotFound,
            ) && final(self)@ == old(self)@,
            has_name(old(self)@.list, current@) && name@ != current@ && has_name(
                old(self)@.list,
                name@,
            ) ==> updated == Err::<(), StoreError>(StoreError::DuplicateName) && final(self)@
                == old(self)@,
            has_name(old(self)@.list, current@) && (name@ == current@ || !has_name(
                old(self)@.list,
                name@,
            )) ==> updated is Ok && final(self)@.list == with_entry(
                without_name(old(self)@.list, current@),
                (Entry { name: name@, category: category@ }),
            ),
    {
        let (k, found) = self.locate(current);
        if !found {
            return Err(StoreError::NotFound);
        }
        if !same_text(name, current) {
            let (_, taken) = self.locate(name);
            if taken {
                return Err(StoreError::DuplicateName);
            }
        }
        let ghost before = self@.list;
        let ghost entry = Entry { name: name@, category: category@ };
        proof {
            lemma_without_name(before, current@);
        }
        self.list.remove(k);
        assert(self@.list =~= before.remove(k as int));
        let ghost rest = self@.list;
        let (at, _) = self.locate(name);
        self.list.insert(at, Restaurant { name: name.to_owned(), category: category.to_owned() });
        proof {
            assert(self@.list =~= rest.insert(at as int, entry));
            lemma_with_entry_wf(rest, entry);
        }
        Ok(())
    }

    /// The name of the restaurant picked last, in whatever category.
    pub fn last_pick(&self) -> (last: Option<String>)
        requires
            self.wf(),
        ensures
            match last {
                Some(name) => last_pick(self@.recent) == Some(name@),
                None => last_pick(self@.recent) is None,
            },
    {
        if self.recent.len() > 0 {
            Some(self.recent[0].name.clone())
        } else {
            None
        }
    }

    /// The history, from the latest pick to the earliest.
    pub fn recent_picks(&self) -> (history: Vec<RecentPick>)
        requires
            self.wf(),
        ensures
            picks(history@) == self@.recent,
    {
        let mut history: Vec<RecentPick> = Vec::new();
        let mut i: usize = 0;
        while i < self.recent.len()
            invariant
                i <= self.recent.len(),
                picks(history@) == picks(self.recent@).take(i as int),
            decreases self.recent.len() - i,
        {
            let ghost before = picks(history@);
            history.push(self.recent[i].clone());
            assert(picks(history@) =~= before.push(picks(self.recent@)[i as int]));
            i += 1;
            assert(picks(history@) =~= picks(self.recent@).take(i as int));
        }
        assert(picks(self.recent@).take(i as int) =~= picks(self.recent@));
        history
    }

    /// The restaurants that a roll in `category` chooses from: those of the
    /// category but the one picked last, or all of them where that leaves
    /// none, as it does for a category of one restaurant that was picked
    /// last.
    pub fn candidates(&self, category: &str) -> (options: Vec<Restaurant>)
        requires
            self.wf(),
        ensures
            entries(options@) == pool(self@.list, self@.recent, category@),
    {
        let all = self.of_category(category);
        if self.recent.len() == 0 {
            return all;
        }
        let last = self.recent[0].name.as_str();
        let mut fresh: Vec<Restaurant> = Vec::new();
        let mut i: usize = 0;
        let ghost whole = entries(all@);
        let ghost other = not_named(last@);
        proof {
            lemma_filter_keeps_all(whole.take(0), other);
        }
        while i < all.len()
            invariant
                i <= all.len(),
                whole == entries(all@),
                other == not_named(last@),
                entries(fresh@) == whole.take(i as int).filter(other),
            decreases all.len() - i,
        {
            proof {
                lemma_filter_step(whole, other, i as int);
            }
            if !same_text(all[i].name.as_str(), last) {
                fresh.push(all[i].clone());
                assert(entries(fresh@) =~= whole.take(i as int).filter(other).push(whole[i as int]));
            }
            i += 1;
        }
        assert(whole.take(i as int) =~= whole);
        if fresh.len() == 0 {
            all
        } else {
            fresh
        }
    }

    /// Records that `name` was picked at `picked_at`: the pick takes the
    /// place of an earlier one of the same name, and only the
    /// [`HISTORY_LIMIT`] latest picks stay.
    pub fn record_pick(&mut self, name: &str, picked_at: &str)
        requires
            old(self).wf(),
        ensures
            final(self).wf(),
            final(self)@.list == old(self)@.list,
            final(self)@.recent == recorded(old(self)@.recent, name@, picked_at@),
            final(self)@.recent.len() <= HISTORY_LIMIT,
    {
        let ghost before = self@.recent;
        let mut i: usize = 0;
        while i < self.recent.len() && !same_text(self.recent[i].name.as_str(), name)
            invariant
                i <= self.recent.len(),
                self@ == old(self)@,
                forall|j: int| 0 <= j < i ==> (#[trigger] self@.recent[j]).name != name@,
            decreases self.recent.len() - i,
        {
            i += 1;
        }
        proof {
            lemma_forgetting(before, name@);
        }
        if i < self.recent.len() {
            assert(before[i as int].name == name@);
            self.recent.remove(i);
            assert(self@.recent =~= before.remove(i as int));
        } else {
            assert(self@.recent == before);
        }
        let ghost rest = self@.recent;
        assert(rest == forgetting(before, name@));
        let mut k: usize = 0;
        while k < self.recent.len() && precedes(picked_at, self.recent[k].picked_at.as_str())
            invariant
                k <= self.recent.len(),
                self@.recent == rest,
                self@.list == old(self)@.list,
                forall|j: int| 0 <= j < k ==> text_lt(picked_at@, (#[trigger] rest[j]).picked_at),
            decreases self.recent.len() - k,
        {
            k += 1;
        }
        proof {
            lemma_place(rest, picked_at@, k as int);
            lemma_recorded(before, name@, picked_at@);
        }
        self.recent.insert(
            k,
            RecentPick { name: name.to_owned(), picked_at: picked_at.to_owned() },
        );
        assert(self@.recent =~= upserted(before, name@, picked_at@));
        let ghost all = self@.recent;
        self.recent.truncate(HISTORY_LIMIT);
        assert(self@.recent =~= recorded(before, name@, picked_at@)) by {
            if all.len() > HISTORY_LIMIT {
                assert(self@.recent =~= all.take(HISTORY_LIMIT as int));
            }
        }
    }

    /// Picks a restaurant of `category` at random, never the one picked last
    /// unless the category has no other, and records the pick with the
    /// current time. Fails where the category is empty.
    pub fn roll(&mut self, category: &str) -> (rolled: Result<Restaurant, StoreError>)
        requires
            old(self).wf(),
        ensures
            final(self).wf(),
            final(self)@.list == old(self)@.list,
            in_category(old(self)@.list, category@).len() == 0 ==> rolled == Err::<
                Restaurant,
                StoreError,
            >(StoreError::NoCandidates) && final(self)@ == old(self)@,
            in_category(old(self)@.list, category@).len() > 0 ==> rolled is Ok && pool(
                old(self)@.list,
                old(self)@.recent,
                category@,
            ).contains(rolled->Ok_0@) && exists|at: Seq<char>|
                final(self)@.recent == recorded(old(self)@.recent, rolled->Ok_0@.name, at),
            in_category(old(self)@.list, category@).len() == 1 ==> rolled->Ok_0@ == in_category(
                old(self)@.list,
                category@,
            )[0],
            final(self)@.recent.len() <= HISTORY_LIMIT,
    {
        proof {
            lemma_pool_within_category(self@.list, self@.recent, category@);
            if in_category(self@.list, category@).len() == 1 {
                lemma_single_option(self@.list, self@.recent, category@);
            }
        }
        let options = self.candidates(category);
        match draw(&options) {
            None => Err(StoreError::NoCandidates),
            Some(drawn) => {
                let picked = drawn.clone();
                proof {
                    let i = choose|i: int| 0 <= i < options@.len() && options@[i] == *drawn;
                    assert(entries(options@)[i] == picked@);
                }
                let now = now_rfc3339();
                self.record_pick(picked.name.as_str(), now.as_str());
                assert(self@.recent == recorded(old(self)@.recent, picked@.name, now@));
                Ok(picked)
            },
        }
    }

    /// Fills an empty list with `rows`, as a first run does: each row is
    /// added in turn, and one that lacks a name or a category, or whose name
    /// an earlier row has, is passed over. A list that holds anything is left
    /// as it is. Returns the number of rows that went in.
    pub fn seed(&mut self, rows: &Vec<Restaurant>) -> (count: usize)
        requires
            old(self).wf(),
        ensures
            final(self).wf(),
            final(self)@.recent == old(self)@.recent,
            old(self)@.list.len() > 0 ==> count == 0 && final(self)@ == old(self)@,
            old(self)@.list.len() == 0 ==> count == final(self)@.list.len() && final(self)@.list
                == seeded(entries(rows@)),
    {
        if self.list.len() > 0 {
            return 0;
        }
        let mut count: usize = 0;
        let mut i: usize = 0;
        let ghost all = entries(rows@);
        assert(self@.list =~= seeded(all.take(0)));
        while i < rows.len()
            invariant
                i <= rows.len(),
                all == entries(rows@),
                self.wf(),
                self@.recent == old(self)@.recent,
                self@.list == seeded(all.take(i as int)),
                count == self@.list.len(),
                count <= i,
            decreases rows.len() - i,
        {
            let row = &rows[i];
            proof {
                assert(all.take(i + 1).drop_last() =~= all.take(i as int));
                assert(all.take(i + 1).last() == row@);
                lemma_with_entry_wf_len(self@.list, row@);
            }
            if !row.name.as_str().is_empty() && !row.category.as_str().is_empty() {
                match self.add(row.name.as_str(), row.category.as_str()) {
                    Ok(_) => {
                        count += 1;
                    },
                    Err(_) => {},
                }
            }
            i += 1;
        }
        assert(all.take(i as int) =~= all);
        count
    }
}

/// An entry that goes in makes the list one longer.
proof fn lemma_with_entry_wf_len(list: Seq<Entry>, e: Entry)
    requires
        list_wf(list),
    ensures
        entry_ok(e) && !has_name(list, e.name) ==> with_entry(list, e).len() == list.len() + 1,
{
    if entry_ok(e) && !has_name(list, e.name) {
        lemma_with_entry_wf(list, e);
    }
}

} // verus!
