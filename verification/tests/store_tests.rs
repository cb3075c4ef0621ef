use culinary_adventures::record::{CulinaryAdventure, CulinaryAdventurePayload, Error};
use culinary_adventures::store::AdventureStore;

fn payload(
    restaurant_name: &str,
    dish_name: &str,
    rating: u64,
    notes: &str,
    visit_date: u64,
) -> CulinaryAdventurePayload {
    CulinaryAdventurePayload {
        restaurant_name: restaurant_name.to_string(),
        dish_name: dish_name.to_string(),
        rating,
        notes: notes.to_string(),
        visit_date,
    }
}

/// An order-preserving integer key for a floating-point rating: larger
/// ratings map to larger keys.
fn rating_key(r: f64) -> u64 {
    let b = r.to_bits();
    if r >= 0.0 {
        b | (1u64 << 63)
    } else {
        !b
    }
}

fn assert_not_found(r: Result<CulinaryAdventure, Error>, expected_msg: &str) {
    match r {
        Err(Error::NotFound { msg }) => assert_eq!(msg, expected_msg),
        Ok(_) => panic!("expected NotFound"),
    }
}

#[test]
fn add_then_get_returns_payload_with_id() {
    let mut store = AdventureStore::new();
    let a = store.add_culinary_adventure(payload("Trattoria", "Cacio e pepe", 41, "al dente", 900));
    assert_eq!(a.id, 1);
    let got = store.get_culinary_adventure(1).unwrap_or_else(|_| panic!("expected Ok"));
    assert_eq!(got.id, 1);
    assert_eq!(got.restaurant_name, "Trattoria");
    assert_eq!(got.dish_name, "Cacio e pepe");
    assert_eq!(got.rating, 41);
    assert_eq!(got.notes, "al dente");
    assert_eq!(got.visit_date, 900);
}

#[test]
fn ids_strictly_increase_even_across_deletes() {
    let mut store = AdventureStore::new();
    let a = store.add_culinary_adventure(payload("A", "a", 1, "", 1));
    let b = store.add_culinary_adventure(payload("B", "b", 2, "", 2));
    assert!(b.id > a.id);
    assert!(store.delete_culinary_adventure(a.id).is_ok());
    assert!(store.delete_culinary_adventure(b.id).is_ok());
    let c = store.add_culinary_adventure(payload("C", "c", 3, "", 3));
    assert!(c.id > b.id);
    assert_eq!(c.id, 3);
}

#[test]
fn delete_then_get_is_not_found() {
    let mut store = AdventureStore::new();
    let a = store.add_culinary_adventure(payload("D", "d", 5, "", 5));
    let removed = store.delete_culinary_adventure(a.id).unwrap_or_else(|_| panic!("expected Ok"));
    assert_eq!(removed.restaurant_name, "D");
    assert_not_found(
        store.get_culinary_adventure(a.id),
        "culinary adventure with id=1 not found",
    );
}

#[test]
fn delete_nonexistent_is_not_found_and_leaves_store_unchanged() {
    let mut store = AdventureStore::new();
    store.add_culinary_adventure(payload("E", "e", 5, "", 5));
    assert_not_found(
        store.delete_culinary_adventure(77),
        "couldn't delete culinary adventure with id=77. item not found.",
    );
    assert_eq!(store.get_total_culinary_adventures(), 1);
    assert_eq!(store.get_all_culinary_adventures().len(), 1);
}

#[test]
fn update_replaces_all_fields_except_id() {
    let mut store = AdventureStore::new();
    let a = store.add_culinary_adventure(payload("Old", "old dish", 10, "old notes", 100));
    let updated = store
        .update_culinary_adventure(a.id, payload("New", "new dish", 20, "new notes", 200))
        .unwrap_or_else(|_| panic!("expected Ok"));
    assert_eq!(updated.id, a.id);
    let got = store.get_culinary_adventure(a.id).unwrap_or_else(|_| panic!("expected Ok"));
    assert_eq!(got.id, a.id);
    assert_eq!(got.restaurant_name, "New");
    assert_eq!(got.dish_name, "new dish");
    assert_eq!(got.rating, 20);
    assert_eq!(got.notes, "new notes");
    assert_eq!(got.visit_date, 200);
}

#[test]
fn update_nonexistent_is_not_found() {
    let mut store = AdventureStore::new();
    assert_not_found(
        store.update_culinary_adventure(9, payload("X", "x", 1, "", 1)),
        "couldn't update culinary adventure with id=9. item not found",
    );
}

#[test]
fn update_visit_date_changes_only_the_date() {
    let mut store = AdventureStore::new();
    let a = store.add_culinary_adventure(payload("F", "f", 7, "keep", 100));
    let updated =
        store.update_visit_date(a.id, 555).unwrap_or_else(|_| panic!("expected Ok"));
    assert_eq!(updated.visit_date, 555);
    let got = store.get_culinary_adventure(a.id).unwrap_or_else(|_| panic!("expected Ok"));
    assert_eq!(got.visit_date, 555);
    assert_eq!(got.restaurant_name, "F");
    assert_eq!(got.dish_name, "f");
    assert_eq!(got.rating, 7);
    assert_eq!(got.notes, "keep");
}

#[test]
fn update_visit_date_nonexistent_is_not_found() {
    let mut store = AdventureStore::new();
    assert_not_found(
        store.update_visit_date(3, 1),
        "couldn't update visit date for culinary adventure with id=3. item not found",
    );
}

#[test]
fn total_equals_list_length_at_all_times() {
    let mut store = AdventureStore::new();
    assert_eq!(store.get_total_culinary_adventures(), 0);
    assert_eq!(store.get_all_culinary_adventures().len(), 0);
    store.add_culinary_adventure(payload("G", "g", 1, "", 1));
    store.add_culinary_adventure(payload("H", "h", 2, "", 2));
    assert_eq!(store.get_total_culinary_adventures(), 2);
    assert_eq!(store.get_all_culinary_adventures().len(), 2);
    store.delete_culinary_adventure(1).unwrap_or_else(|_| panic!("expected Ok"));
    assert_eq!(store.get_total_culinary_adventures(), 1);
    assert_eq!(store.get_all_culinary_adventures().len(), 1);
}

#[test]
fn list_all_is_in_ascending_id_order() {
    let mut store = AdventureStore::new();
    store.add_culinary_adventure(payload("I", "i", 1, "", 1));
    store.add_culinary_adventure(payload("J", "j", 2, "", 2));
    store.add_culinary_adventure(payload("K", "k", 3, "", 3));
    store.delete_culinary_adventure(2).unwrap_or_else(|_| panic!("expected Ok"));
    let all = store.get_all_culinary_adventures();
    let ids: Vec<u64> = all.iter().map(|a| a.id).collect();
    assert_eq!(ids, vec![1, 3]);
}

#[test]
fn before_date_returns_exactly_the_dated_subset() {
    let mut store = AdventureStore::new();
    store.add_culinary_adventure(payload("L", "l", 1, "", 100));
    store.add_culinary_adventure(payload("M", "m", 2, "", 200));
    store.add_culinary_adventure(payload("N", "n", 3, "", 300));
    let all = store.get_all_culinary_adventures();
    let before = store.get_culinary_adventures_before_date(200);
    let expected: Vec<u64> =
        all.iter().filter(|a| a.visit_date <= 200).map(|a| a.id).collect();
    let got: Vec<u64> = before.iter().map(|a| a.id).collect();
    assert_eq!(got, expected);
    assert_eq!(got, vec![1, 2]);
    assert_eq!(
        store.get_culinary_adventures_count_before_date(200),
        before.len()
    );
    assert_eq!(store.get_culinary_adventures_count_before_date(50), 0);
}

#[test]
fn top_rated_zero_is_empty_and_overshoot_returns_all() {
    let mut store = AdventureStore::new();
    store.add_culinary_adventure(payload("O", "o", 30, "", 1));
    store.add_culinary_adventure(payload("P", "p", 10, "", 2));
    store.add_culinary_adventure(payload("Q", "q", 20, "", 3));
    assert_eq!(store.get_top_rated_culinary_adventures(0).len(), 0);
    let all = store.get_top_rated_culinary_adventures(3 + 5);
    assert_eq!(all.len(), 3);
    let ratings: Vec<u64> = all.iter().map(|a| a.rating).collect();
    assert_eq!(ratings, vec![30, 20, 10]);
}

#[test]
fn top_rated_two_of_three_float_ratings() {
    let mut store = AdventureStore::new();
    store.add_culinary_adventure(payload("First", "x", rating_key(4.5), "", 1));
    store.add_culinary_adventure(payload("Second", "y", rating_key(2.0), "", 2));
    store.add_culinary_adventure(payload("Third", "z", rating_key(5.0), "", 3));
    let top = store.get_top_rated_culinary_adventures(2);
    assert_eq!(top.len(), 2);
    assert_eq!(top[0].restaurant_name, "Third");
    assert_eq!(top[0].rating, rating_key(5.0));
    assert_eq!(top[1].restaurant_name, "First");
    assert_eq!(top[1].rating, rating_key(4.5));
}

#[test]
fn search_by_notes_finds_substring_matches_only() {
    let mut store = AdventureStore::new();
    store.add_culinary_adventure(payload("R", "dessert", 9, "great tiramisu", 1));
    let hit = store.search_culinary_adventures_by_notes("tiramisu".to_string());
    assert_eq!(hit.len(), 1);
    assert_eq!(hit[0].notes, "great tiramisu");
    let miss = store.search_culinary_adventures_by_notes("sushi".to_string());
    assert_eq!(miss.len(), 0);
}

#[test]
fn search_by_empty_keyword_returns_everything() {
    let mut store = AdventureStore::new();
    store.add_culinary_adventure(payload("S", "s", 1, "alpha", 1));
    store.add_culinary_adventure(payload("T", "t", 2, "beta", 2));
    assert_eq!(
        store.search_culinary_adventures_by_notes(String::new()).len(),
        2
    );
}

#[test]
fn search_by_partial_dish_name() {
    let mut store = AdventureStore::new();
    store.add_culinary_adventure(payload("U", "margherita pizza", 1, "", 1));
    store.add_culinary_adventure(payload("V", "pad thai", 2, "", 2));
    let hit = store.search_culinary_adventures_by_partial_dish_name("pizza".to_string());
    assert_eq!(hit.len(), 1);
    assert_eq!(hit[0].dish_name, "margherita pizza");
    assert_eq!(
        store
            .search_culinary_adventures_by_partial_dish_name("ramen".to_string())
            .len(),
        0
    );
}

#[test]
fn by_restaurant_matches_exact_name_only() {
    let mut store = AdventureStore::new();
    store.add_culinary_adventure(payload("Cafe Azul", "c", 1, "", 1));
    store.add_culinary_adventure(payload("Cafe", "d", 2, "", 2));
    let hit = store.get_culinary_adventures_by_restaurant("Cafe".to_string());
    assert_eq!(hit.len(), 1);
    assert_eq!(hit[0].restaurant_name, "Cafe");
    assert_eq!(
        store
            .get_culinary_adventures_by_restaurant("Azul".to_string())
            .len(),
        0
    );
}

#[test]
fn add_delete_scenario_leaves_empty_store() {
    let mut store = AdventureStore::new();
    let a = store.add_culinary_adventure(payload("Cafe A", "soup", 3, "", 10));
    assert_eq!(a.id, 1);
    assert!(store.delete_culinary_adventure(1).is_ok());
    assert_not_found(
        store.get_culinary_adventure(1),
        "culinary adventure with id=1 not found",
    );
    assert_eq!(store.get_total_culinary_adventures(), 0);
}

#[test]
fn get_on_empty_store_names_the_missing_id() {
    let store = AdventureStore::new();
    assert_not_found(
        store.get_culinary_adventure(42),
        "culinary adventure with id=42 not found",
    );
}

#[test]
fn records_survive_in_store_with_unicode_text() {
    let mut store = AdventureStore::new();
    store.add_culinary_adventure(payload("Crêperie Österreich", "crêpe sucrée", 5, "très bon — 美味しい", 7));
    let got = store.get_culinary_adventure(1).unwrap_or_else(|_| panic!("expected Ok"));
    assert_eq!(got.restaurant_name, "Crêperie Österreich");
    assert_eq!(got.dish_name, "crêpe sucrée");
    assert_eq!(got.notes, "très bon — 美味しい");
}

#[test]
fn counter_keeps_its_value_across_deletes() {
    let mut store = AdventureStore::new();
    assert_eq!(store.last_assigned_id(), 0);
    store.add_culinary_adventure(payload("W", "w", 1, "", 1));
    store.add_culinary_adventure(payload("X", "x", 2, "", 2));
    assert_eq!(store.last_assigned_id(), 2);
    store.delete_culinary_adventure(1).unwrap_or_else(|_| panic!("expected Ok"));
    store.delete_culinary_adventure(2).unwrap_or_else(|_| panic!("expected Ok"));
    assert_eq!(store.last_assigned_id(), 2);
}
