use namestats::browse::{
    apply_initial_rating, build_entries, contains_substring, NamesApp, RatingFilter,
};
use namestats::codec::deserialize;
use namestats::names::{Info, NameEntry, Rating};

fn entry(name: &str, sex: u8, rating: Option<Rating>) -> NameEntry {
    let mut e = NameEntry::new(name.to_string(), Info { year_count: [1; 40], sex });
    e.rating = rating;
    e
}

fn app(names: Vec<NameEntry>) -> NamesApp {
    NamesApp {
        part: String::new(),
        current: 0,
        names,
        max_len: 4,
        rating_filter: RatingFilter::Any,
    }
}

#[test]
fn substring_search_finds_inner_runs() {
    assert!(contains_substring("Annalena", "nale"));
    assert!(contains_substring("Annalena", "Anna"));
    assert!(contains_substring("Annalena", "lena"));
    assert!(!contains_substring("Annalena", "lean"));
    assert!(!contains_substring("Ann", "Anna"));
}

#[test]
fn substring_search_with_empty_needle() {
    assert!(contains_substring("Mia", ""));
    assert!(contains_substring("", ""));
    assert!(!contains_substring("", "M"));
}

#[test]
fn filter_keeps_short_sex_one_matches() {
    let a = app(vec![
        entry("Mia", 1, None),      // kept
        entry("Mia", 2, None),      // wrong sex
        entry("Matilda", 1, None),  // too long
        entry("Ben", 1, None),      // kept
    ]);
    assert_eq!(a.filtered_names(), vec![0, 3]);
}

#[test]
fn filter_searches_the_entered_text() {
    let mut a = app(vec![
        entry("Mia", 1, None),
        entry("Emma", 1, None),
        entry("Ida", 1, None),
    ]);
    a.part = "ma".to_string();
    assert_eq!(a.filtered_names(), vec![1]);
}

#[test]
fn filter_honours_the_length_slider() {
    let mut a = app(vec![entry("Mia", 1, None), entry("Amelie", 1, None)]);
    a.max_len = 20;
    assert_eq!(a.filtered_names(), vec![0, 1]);
    a.max_len = 0;
    assert_eq!(a.filtered_names(), Vec::<usize>::new());
}

#[test]
fn filter_length_counts_bytes_not_chars() {
    // Zoë is three characters but four bytes; the cap is a byte cap.
    let a = app(vec![entry("Zoë", 1, None)]);
    assert_eq!(a.filtered_names(), vec![0]);
    let mut tight = app(vec![entry("Zoë", 1, None)]);
    tight.max_len = 3;
    assert_eq!(tight.filtered_names(), Vec::<usize>::new());
}

#[test]
fn rating_filter_variants() {
    let names = || {
        vec![
            entry("Ada", 1, Some(Rating::Good)),
            entry("Bea", 1, Some(Rating::Bad)),
            entry("Cleo", 1, None),
        ]
    };
    let mut a = app(names());
    a.rating_filter = RatingFilter::Any;
    assert_eq!(a.filtered_names(), vec![0, 1, 2]);
    a.rating_filter = RatingFilter::Rating;
    assert_eq!(a.filtered_names(), vec![0, 1]);
    a.rating_filter = RatingFilter::NoRating;
    assert_eq!(a.filtered_names(), vec![2]);
    a.rating_filter = RatingFilter::Is(Rating::Good);
    assert_eq!(a.filtered_names(), vec![0]);
    a.rating_filter = RatingFilter::Is(Rating::Bad);
    assert_eq!(a.filtered_names(), vec![1]);
}

#[test]
fn initial_rating_rules() {
    // Too long, too short, or hyphenated: bad out of hand.
    let mut e = entry("Friedrich", 1, None);
    apply_initial_rating(&mut e, None);
    assert_eq!(e.rating, Some(Rating::Bad));

    let mut e = entry("A", 1, None);
    apply_initial_rating(&mut e, Some(Rating::Good));
    assert_eq!(e.rating, Some(Rating::Bad));

    let mut e = entry("An-Na", 1, None);
    apply_initial_rating(&mut e, Some(Rating::Good));
    assert_eq!(e.rating, Some(Rating::Bad));

    // Otherwise the stored rating is taken, if any.
    let mut e = entry("Mia", 1, None);
    apply_initial_rating(&mut e, Some(Rating::Good));
    assert_eq!(e.rating, Some(Rating::Good));

    let mut e = entry("Mia", 1, None);
    apply_initial_rating(&mut e, None);
    assert_eq!(e.rating, None);

    // An entry already rated keeps its rating.
    let mut e = entry("Friedrich", 1, Some(Rating::Good));
    apply_initial_rating(&mut e, None);
    assert_eq!(e.rating, Some(Rating::Good));
}

#[test]
fn entries_built_from_a_decoded_table() {
    let mut buf = Vec::new();
    buf.extend_from_slice(&1984u32.to_le_bytes());
    buf.extend_from_slice(&40u32.to_le_bytes());
    buf.extend_from_slice(&2u32.to_le_bytes());
    buf.push(1);
    buf.push(3);
    buf.extend_from_slice(b"Mia");
    for _ in 0..40 {
        buf.extend_from_slice(&1u32.to_le_bytes());
    }
    buf.push(2);
    buf.push(3);
    buf.extend_from_slice(b"Ben");
    for _ in 0..40 {
        buf.extend_from_slice(&3u32.to_le_bytes());
    }
    let table = deserialize(&buf).unwrap();
    let entries = build_entries(&table);
    assert_eq!(entries.len(), 2);
    let mia = entries.iter().find(|e| e.name == "Mia").unwrap();
    assert_eq!(mia.total, 40);
    assert_eq!(mia.year_count, [5u64; 8]);
    assert_eq!(mia.sex, 1);
    let ben = entries.iter().find(|e| e.name == "Ben").unwrap();
    assert_eq!(ben.total, 120);
    assert_eq!(ben.year_count, [15u64; 8]);
    assert_eq!(ben.sex, 2);
}
