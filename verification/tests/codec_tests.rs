use culinary_adventures::codec::{decode_adventure, encode_adventure};
use culinary_adventures::record::CulinaryAdventure;

fn sample() -> CulinaryAdventure {
    CulinaryAdventure {
        id: 7,
        restaurant_name: "Bistro Nine".to_string(),
        dish_name: "onion soup".to_string(),
        rating: 88,
        notes: "rich broth".to_string(),
        visit_date: 1234567,
    }
}

#[test]
fn encode_decode_round_trips_every_field() {
    let a = sample();
    let bytes = encode_adventure(&a);
    let back = match decode_adventure(bytes.as_slice()) {
        Some(b) => b,
        None => panic!("expected a decode"),
    };
    assert_eq!(back.id, 7);
    assert_eq!(back.restaurant_name, "Bistro Nine");
    assert_eq!(back.dish_name, "onion soup");
    assert_eq!(back.rating, 88);
    assert_eq!(back.notes, "rich broth");
    assert_eq!(back.visit_date, 1234567);
}

#[test]
fn encode_decode_round_trips_unicode_text() {
    let a = CulinaryAdventure {
        id: 1,
        restaurant_name: "château".to_string(),
        dish_name: "皿".to_string(),
        rating: 0,
        notes: "œufs à la neige".to_string(),
        visit_date: 0,
    };
    let bytes = encode_adventure(&a);
    let back = match decode_adventure(bytes.as_slice()) {
        Some(b) => b,
        None => panic!("expected a decode"),
    };
    assert_eq!(back.restaurant_name, "château");
    assert_eq!(back.dish_name, "皿");
    assert_eq!(back.notes, "œufs à la neige");
}

#[test]
fn decode_rejects_short_input() {
    assert!(decode_adventure(&[1, 2, 3]).is_none());
    assert!(decode_adventure(&[]).is_none());
}

#[test]
fn decode_rejects_truncated_encoding() {
    let bytes = encode_adventure(&sample());
    let cut = &bytes[..bytes.len() - 1];
    assert!(decode_adventure(cut).is_none());
}

#[test]
fn decode_rejects_trailing_bytes() {
    let mut bytes = encode_adventure(&sample());
    bytes.push(0);
    assert!(decode_adventure(bytes.as_slice()).is_none());
}

#[test]
fn decode_rejects_invalid_utf8_in_a_text_chunk() {
    let a = CulinaryAdventure {
        id: 2,
        restaurant_name: "ab".to_string(),
        dish_name: String::new(),
        rating: 0,
        notes: String::new(),
        visit_date: 0,
    };
    let mut bytes = encode_adventure(&a);
    // The restaurant name's two bytes sit right after the 8-byte length
    // prefix that follows the three numeric fields.
    bytes[32] = 0xff;
    bytes[33] = 0xff;
    assert!(decode_adventure(bytes.as_slice()).is_none());
}
