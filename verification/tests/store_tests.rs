use lunch::db::{Database, RecentPick, Restaurant};
use lunch::error::StoreError;
use lunch::model::HISTORY_LIMIT;
use lunch::text::{equals_ignoring_case, precedes, same_text, to_ascii_lower};

fn empty() -> Database {
    Database::in_memory().unwrap()
}

fn names(list: &[Restaurant]) -> Vec<String> {
    list.iter().map(|r| r.name.clone()).collect()
}

fn history(db: &Database) -> Vec<(String, String)> {
    db.recent_picks().into_iter().map(|p: RecentPick| (p.name, p.picked_at)).collect()
}

fn row(name: &str, category: &str) -> Restaurant {
    Restaurant { name: name.to_string(), category: category.to_string() }
}

fn stamp(n: usize) -> String {
    format!("2024-03-{:02}T12:00:00+00:00", n)
}

#[test]
fn order_of_text_is_that_of_str() {
    let samples = [
        "", "A", "Apple", "Apples", "Mango", "Zebra", "a", "apple", "zebra", "Caf\u{e9}", "Cafe",
        "\u{4e2d}\u{6587}", "\u{1f35c}", "2024-03-01T12:00:00+00:00",
        "2024-03-01T12:00:00.5+00:00", "2024-03-01T12:00:00.123456789+00:00",
    ];
    for a in samples {
        for b in samples {
            assert_eq!(precedes(a, b), a < b, "{:?} before {:?}", a, b);
            assert_eq!(same_text(a, b), a == b, "{:?} equals {:?}", a, b);
        }
    }
}

#[test]
fn prefix_sorts_first() {
    assert!(precedes("Sushi", "Sushi Bar"));
    assert!(!precedes("Sushi Bar", "Sushi"));
    assert!(!precedes("Sushi", "Sushi"));
    assert!(precedes("", "x"));
    assert!(!precedes("", ""));
}

#[test]
fn lower_case_moves_ascii_letters_only() {
    assert_eq!(to_ascii_lower('A'), 'a');
    assert_eq!(to_ascii_lower('Z'), 'z');
    assert_eq!(to_ascii_lower('m'), 'm');
    assert_eq!(to_ascii_lower('@'), '@');
    assert_eq!(to_ascii_lower('['), '[');
    assert_eq!(to_ascii_lower('7'), '7');
    assert_eq!(to_ascii_lower('\u{c9}'), '\u{c9}');
}

#[test]
fn categories_match_whatever_the_case() {
    assert!(equals_ignoring_case("Cheap", "cheap"));
    assert!(equals_ignoring_case("CHEAP", "cHeAp"));
    assert!(equals_ignoring_case("", ""));
    assert!(!equals_ignoring_case("cheap", "cheap "));
    assert!(!equals_ignoring_case("cheap", "chea"));
    assert!(!equals_ignoring_case("cheap", "normal"));
    assert!(!equals_ignoring_case("\u{c9}t\u{e9}", "\u{e9}t\u{e9}"));
    assert!(equals_ignoring_case("\u{e9}T\u{e9}", "\u{e9}t\u{e9}"));
}

#[test]
fn added_restaurant_is_listed_once() {
    let mut db = empty();
    db.add("Noodle Bar", "cheap").unwrap();
    db.add("Bistro", "normal").unwrap();
    let all = db.list_all().unwrap();
    let hits: Vec<&Restaurant> = all.iter().filter(|r| r.name == "Bistro").collect();
    assert_eq!(hits.len(), 1);
    assert_eq!(hits[0].category, "normal");
    assert_eq!(all.len(), 2);
}

#[test]
fn duplicate_name_changes_nothing() {
    let mut db = empty();
    db.add("Bistro", "normal").unwrap();
    db.add("Noodle Bar", "cheap").unwrap();
    let err = db.add("Bistro", "cheap").unwrap_err();
    assert_eq!(err, StoreError::DuplicateName);
    let all = db.list_all().unwrap();
    assert_eq!(names(&all), vec!["Bistro", "Noodle Bar"]);
    assert_eq!(all[0].category, "normal");
}

#[test]
fn names_differ_by_case() {
    let mut db = empty();
    db.add("bistro", "normal").unwrap();
    db.add("Bistro", "normal").unwrap();
    assert_eq!(names(&db.list_all().unwrap()), vec!["Bistro", "bistro"]);
}

#[test]
fn delete_of_absent_name_changes_nothing() {
    let mut db = empty();
    db.add("Bistro", "normal").unwrap();
    db.record_pick("Bistro", &stamp(1));
    assert!(db.delete("Diner").is_ok());
    assert!(db.delete("bistro").is_ok());
    let all = db.list_all().unwrap();
    assert_eq!(names(&all), vec!["Bistro"]);
    assert_eq!(all[0].category, "normal");
    assert_eq!(history(&db), vec![("Bistro".to_string(), stamp(1))]);
}

#[test]
fn delete_takes_one_and_keeps_the_history() {
    let mut db = empty();
    db.add("Bistro", "normal").unwrap();
    db.add("Diner", "cheap").unwrap();
    db.add("Noodle Bar", "cheap").unwrap();
    db.record_pick("Diner", &stamp(1));
    db.delete("Diner").unwrap();
    assert_eq!(names(&db.list_all().unwrap()), vec!["Bistro", "Noodle Bar"]);
    assert_eq!(history(&db), vec![("Diner".to_string(), stamp(1))]);
}

#[test]
fn list_is_sorted_whatever_the_order_of_adding() {
    let orders = [
        ["Zebra", "Apple", "Mango"],
        ["Apple", "Zebra", "Mango"],
        ["Mango", "Zebra", "Apple"],
        ["Apple", "Mango", "Zebra"],
    ];
    for order in orders {
        let mut db = empty();
        for name in order {
            db.add(name, "cheap").unwrap();
        }
        assert_eq!(names(&db.list_all().unwrap()), vec!["Apple", "Mango", "Zebra"]);
    }
}

#[test]
fn category_query_ignores_case_and_keeps_stored_text() {
    let mut db = empty();
    db.add("Place", "Cheap").unwrap();
    db.add("Other", "normal").unwrap();
    for asked in ["cheap", "CHEAP", "Cheap"] {
        let found = db.list_by_category(asked).unwrap();
        assert_eq!(found.len(), 1);
        assert_eq!(found[0].name, "Place");
        assert_eq!(found[0].category, "Cheap");
    }
    assert!(db.list_by_category("chea").unwrap().is_empty());
}

#[test]
fn category_query_is_sorted_by_name() {
    let mut db = empty();
    db.add("Zebra", "cheap").unwrap();
    db.add("Mango", "normal").unwrap();
    db.add("Apple", "CHEAP").unwrap();
    assert_eq!(names(&db.list_by_category("cheap").unwrap()), vec!["Apple", "Zebra"]);
}

#[test]
fn update_renames_and_recategorizes() {
    let mut db = empty();
    db.add("Bistro", "normal").unwrap();
    db.add("Diner", "cheap").unwrap();
    db.update("Bistro", "Tavern", "cheap").unwrap();
    let all = db.list_all().unwrap();
    assert_eq!(names(&all), vec!["Diner", "Tavern"]);
    assert_eq!(all[1].category, "cheap");
}

#[test]
fn update_may_keep_the_name() {
    let mut db = empty();
    db.add("Bistro", "normal").unwrap();
    db.add("Diner", "cheap").unwrap();
    db.update("Bistro", "Bistro", "cheap").unwrap();
    let all = db.list_all().unwrap();
    assert_eq!(names(&all), vec!["Bistro", "Diner"]);
    assert_eq!(all[0].category, "cheap");
}

#[test]
fn update_of_absent_name_is_not_found() {
    let mut db = empty();
    db.add("Bistro", "normal").unwrap();
    assert_eq!(db.update("Diner", "Tavern", "cheap"), Err(StoreError::NotFound));
    assert_eq!(db.update("Diner", "Bistro", "cheap"), Err(StoreError::NotFound));
    let all = db.list_all().unwrap();
    assert_eq!(names(&all), vec!["Bistro"]);
    assert_eq!(all[0].category, "normal");
}

#[test]
fn update_onto_another_name_is_refused() {
    let mut db = empty();
    db.add("Bistro", "normal").unwrap();
    db.add("Diner", "cheap").unwrap();
    assert_eq!(db.update("Bistro", "Diner", "normal"), Err(StoreError::DuplicateName));
    let all = db.list_all().unwrap();
    assert_eq!(names(&all), vec!["Bistro", "Diner"]);
    assert_eq!(all[0].category, "normal");
    assert_eq!(all[1].category, "cheap");
}

#[test]
fn roll_on_empty_category_is_no_candidates() {
    let mut db = empty();
    assert_eq!(db.roll("cheap").unwrap_err(), StoreError::NoCandidates);
    db.add("Bistro", "normal").unwrap();
    assert_eq!(db.roll("cheap").unwrap_err(), StoreError::NoCandidates);
    assert!(db.recent_picks().is_empty());
    assert_eq!(db.last_pick(), None);
}

#[test]
fn roll_returns_a_candidate_and_records_it() {
    let mut db = empty();
    db.add("Bistro", "Cheap").unwrap();
    db.add("Diner", "cheap").unwrap();
    db.add("Tavern", "normal").unwrap();
    let options = names(&db.candidates("CHEAP"));
    assert_eq!(options, vec!["Bistro", "Diner"]);
    let picked = db.roll("CHEAP").unwrap();
    assert!(options.contains(&picked.name));
    assert!(picked.category.eq_ignore_ascii_case("cheap"));
    let recent = db.recent_picks();
    assert_eq!(recent.len(), 1);
    assert_eq!(recent[0].name, picked.name);
    assert_eq!(db.last_pick(), Some(picked.name));
    let at = &recent[0].picked_at;
    assert!(at.len() >= 25, "{}", at);
    assert_eq!(&at[4..5], "-");
    assert_eq!(&at[10..11], "T");
    assert!(at.ends_with("+00:00"), "{}", at);
}

#[test]
fn two_options_alternate() {
    let mut db = empty();
    db.add("Place A", "cheap").unwrap();
    db.add("Place B", "cheap").unwrap();
    let mut last = db.roll("cheap").unwrap().name;
    for _ in 0..40 {
        let next = db.roll("cheap").unwrap().name;
        assert_ne!(next, last);
        last = next;
    }
    assert_eq!(db.recent_picks().len(), 2);
}

#[test]
fn candidates_leave_out_the_last_pick() {
    let mut db = empty();
    db.add("Place A", "cheap").unwrap();
    db.add("Place B", "cheap").unwrap();
    db.add("Place C", "cheap").unwrap();
    assert_eq!(names(&db.candidates("cheap")), vec!["Place A", "Place B", "Place C"]);
    db.record_pick("Place B", &stamp(1));
    assert_eq!(names(&db.candidates("cheap")), vec!["Place A", "Place C"]);
    db.record_pick("Place A", &stamp(2));
    assert_eq!(names(&db.candidates("cheap")), vec!["Place B", "Place C"]);
}

#[test]
fn only_the_very_last_pick_is_left_out() {
    let mut db = empty();
    db.add("Place A", "cheap").unwrap();
    db.add("Place B", "cheap").unwrap();
    db.add("Elsewhere", "normal").unwrap();
    db.record_pick("Place A", &stamp(1));
    db.record_pick("Elsewhere", &stamp(2));
    assert_eq!(names(&db.candidates("cheap")), vec!["Place A", "Place B"]);
    assert_eq!(names(&db.candidates("normal")), vec!["Elsewhere"]);
}

#[test]
fn single_option_is_chosen_again_and_again() {
    let mut db = empty();
    db.add("Only One", "cheap").unwrap();
    db.add("Elsewhere", "normal").unwrap();
    for _ in 0..5 {
        assert_eq!(names(&db.candidates("cheap")), vec!["Only One"]);
        assert_eq!(db.roll("cheap").unwrap().name, "Only One");
    }
    assert_eq!(db.recent_picks().len(), 1);
}

#[test]
fn record_pick_replaces_the_pick_of_that_name() {
    let mut db = empty();
    db.record_pick("Bistro", &stamp(1));
    db.record_pick("Diner", &stamp(2));
    db.record_pick("Bistro", &stamp(3));
    assert_eq!(
        history(&db),
        vec![("Bistro".to_string(), stamp(3)), ("Diner".to_string(), stamp(2))]
    );
    assert_eq!(db.last_pick(), Some("Bistro".to_string()));
}

#[test]
fn of_equal_timestamps_the_one_recorded_last_leads() {
    let mut db = empty();
    db.record_pick("Bistro", &stamp(1));
    db.record_pick("Diner", &stamp(1));
    assert_eq!(db.last_pick(), Some("Diner".to_string()));
    db.record_pick("Bistro", &stamp(1));
    assert_eq!(db.last_pick(), Some("Bistro".to_string()));
}

#[test]
fn earlier_timestamp_goes_behind() {
    let mut db = empty();
    db.record_pick("Bistro", &stamp(5));
    db.record_pick("Diner", &stamp(2));
    db.record_pick("Tavern", &stamp(3));
    assert_eq!(
        history(&db),
        vec![
            ("Bistro".to_string(), stamp(5)),
            ("Tavern".to_string(), stamp(3)),
            ("Diner".to_string(), stamp(2)),
        ]
    );
    assert_eq!(db.last_pick(), Some("Bistro".to_string()));
}

#[test]
fn history_keeps_the_latest_fourteen() {
    assert_eq!(HISTORY_LIMIT, 14);
    let mut db = empty();
    for n in 1..=20 {
        db.record_pick(&format!("Place {:02}", n), &stamp(n));
        assert!(db.recent_picks().len() <= 14);
    }
    let kept = history(&db);
    assert_eq!(kept.len(), 14);
    for (i, (name, at)) in kept.iter().enumerate() {
        assert_eq!(name, &format!("Place {:02}", 20 - i));
        assert_eq!(at, &stamp(20 - i));
    }
}

#[test]
fn pick_earlier_than_a_full_history_is_dropped() {
    let mut db = empty();
    for n in 2..=15 {
        db.record_pick(&format!("Place {:02}", n), &stamp(n));
    }
    let before = history(&db);
    assert_eq!(before.len(), 14);
    db.record_pick("Latecomer", &stamp(1));
    assert_eq!(history(&db), before);
}

#[test]
fn twenty_rolls_leave_at_most_fourteen_picks() {
    let mut db = empty();
    for n in 0..30 {
        let category = if n % 2 == 0 { "cheap" } else { "normal" };
        db.add(&format!("Place {:02}", n), category).unwrap();
    }
    for n in 0..20 {
        let category = if n % 3 == 0 { "normal" } else { "cheap" };
        db.roll(category).unwrap();
        assert!(db.recent_picks().len() <= 14);
    }
    let recent = db.recent_picks();
    for pair in recent.windows(2) {
        assert!(pair[0].picked_at >= pair[1].picked_at);
        assert_ne!(pair[0].name, pair[1].name);
    }
}

#[test]
fn seed_fills_an_empty_list() {
    let mut db = empty();
    let rows = vec![row("Zebra", "cheap"), row("Apple", "normal"), row("Mango", "cheap")];
    assert_eq!(db.seed(&rows), 3);
    let all = db.list_all().unwrap();
    assert_eq!(names(&all), vec!["Apple", "Mango", "Zebra"]);
    assert_eq!(all[0].category, "normal");
}

#[test]
fn seed_of_a_filled_list_changes_nothing() {
    let mut db = empty();
    let rows = vec![row("Zebra", "cheap"), row("Apple", "normal")];
    assert_eq!(db.seed(&rows), 2);
    db.delete("Zebra").unwrap();
    assert_eq!(db.seed(&rows), 0);
    assert_eq!(db.seed(&vec![row("Mango", "cheap")]), 0);
    let all = db.list_all().unwrap();
    assert_eq!(names(&all), vec!["Apple"]);
    assert_eq!(all[0].category, "normal");
}

#[test]
fn seed_passes_over_repeated_and_incomplete_rows() {
    let mut db = empty();
    let rows = vec![
        row("Apple", "normal"),
        row("", "cheap"),
        row("Apple", "cheap"),
        row("Mango", ""),
        row("Zebra", "cheap"),
    ];
    assert_eq!(db.seed(&rows), 2);
    let all = db.list_all().unwrap();
    assert_eq!(names(&all), vec!["Apple", "Zebra"]);
    assert_eq!(all[0].category, "normal");
}

#[test]
fn seed_with_nothing_leaves_the_list_empty() {
    let mut db = empty();
    assert_eq!(db.seed(&Vec::new()), 0);
    assert!(db.list_all().unwrap().is_empty());
}

#[test]
fn error_texts() {
    assert_eq!(
        StoreError::DuplicateName.to_string(),
        "UNIQUE constraint failed: lunch_list.restaurants"
    );
    assert_eq!(StoreError::NotFound.to_string(), "Restaurant not found");
    assert_eq!(StoreError::NoCandidates.to_string(), "Query returned no rows");
    assert_eq!(StoreError::Storage("disk I/O error".to_string()).to_string(), "disk I/O error");
}

#[test]
fn user_messages() {
    assert_eq!(
        StoreError::DuplicateName.user_message("Bistro"),
        "Restaurant 'Bistro' already exists"
    );
    assert_eq!(StoreError::NotFound.user_message("Bistro"), "Restaurant 'Bistro' not found");
    assert_eq!(StoreError::NoCandidates.user_message("cheap"), "No restaurants found!");
    assert_eq!(
        StoreError::Storage("disk I/O error".to_string()).user_message("Bistro"),
        "disk I/O error"
    );
}

#[test]
fn clones_are_equal() {
    let r = row("Bistro", "normal");
    let c = r.clone();
    assert_eq!(c.name, "Bistro");
    assert_eq!(c.category, "normal");
    let e = StoreError::Storage("x".to_string());
    assert_eq!(e.clone(), e);
    assert_eq!(StoreError::NotFound.clone(), StoreError::NotFound);
}
