//! The record type, its caller-supplied payload, and their mathematical views.

use vstd::prelude::*;

verus! {

/// One culinary adventure: a restaurant visit with a dish, a rating, notes and
/// a visit date.
///
/// The rating is held as an order-preserving integer key supplied by the
/// caller (a larger key means a better rating); the store never interprets it
/// beyond its ordering. The visit date is a point in time in caller-defined
/// units.
pub struct CulinaryAdventure {
    pub id: u64,
    pub restaurant_name: String,
    pub dish_name: String,
    pub rating: u64,
    pub notes: String,
    pub visit_date: u64,
}

/// The caller-supplied fields of an adventure: everything except the id,
/// which the store assigns.
pub struct CulinaryAdventurePayload {
    pub restaurant_name: String,
    pub dish_name: String,
    pub rating: u64,
    pub notes: String,
    pub visit_date: u64,
}

/// The mathematical value of one record.
pub struct AdventureView {
    pub id: u64,
    pub restaurant_name: Seq<char>,
    pub dish_name: Seq<char>,
    pub rating: u64,
    pub notes: Seq<char>,
    pub visit_date: u64,
}

/// The mathematical value of a payload.
pub struct PayloadView {
    pub restaurant_name: Seq<char>,
    pub dish_name: Seq<char>,
    pub rating: u64,
    pub notes: Seq<char>,
    pub visit_date: u64,
}

impl View for CulinaryAdventure {
    type V = AdventureView;

    open spec fn view(&self) -> AdventureView {
        AdventureView {
            id: self.id,
            restaurant_name: self.restaurant_name@,
            dish_name: self.dish_name@,
            rating: self.rating,
            notes: self.notes@,
            visit_date: self.visit_date,
        }
    }
}

impl View for CulinaryAdventurePayload {
    type V = PayloadView;

    open spec fn view(&self) -> PayloadView {
        PayloadView {
            restaurant_name: self.restaurant_name@,
            dish_name: self.dish_name@,
            rating: self.rating,
            notes: self.notes@,
            visit_date: self.visit_date,
        }
    }
}

/// The record that a payload becomes once the store assigns it an id.
pub open spec fn payload_with_id(p: PayloadView, id: u64) -> AdventureView {
    AdventureView {
        id: id,
        restaurant_name: p.restaurant_name,
        dish_name: p.dish_name,
        rating: p.rating,
        notes: p.notes,
        visit_date: p.visit_date,
    }
}

/// The same record with its visit date replaced.
pub open spec fn with_visit_date(w: AdventureView, d: u64) -> AdventureView {
    AdventureView {
        id: w.id,
        restaurant_name: w.restaurant_name,
        dish_name: w.dish_name,
        rating: w.rating,
        notes: w.notes,
        visit_date: d,
    }
}

/// The one error the store reports: a lookup, update or delete named an id
/// that no live record carries.
pub enum Error {
    NotFound { msg: String },
}

} // verus!
