use bibleref::reference::books;
use bibleref::reference::find_closest;
use bibleref::reference::uppercase;
use bibleref::reference::Book;
use bibleref::reference::CaseSensitivity;
use bibleref::reference::Reference;
use bibleref::reference::ReferenceError;

#[test]
fn uppercase_maps_ascii_letters_only() {
    assert_eq!(uppercase("abc"), "ABC");
    assert_eq!(uppercase("aBc!7"), "ABC!7");
    assert_eq!(uppercase(""), "");
}

#[test]
fn vocabulary_is_ordered_and_named() {
    let bks = books();
    assert_eq!(bks.len(), 16);
    assert_eq!(bks[0], Book::Genesis);
    assert_eq!(bks[8], Book::Samuel1);
    assert_eq!(bks[8].name(), "1Samuel");
    assert_eq!(bks[15], Book::John);
}

#[test]
fn find_closest_always_picks_from_a_non_empty_list() {
    let options: Vec<String> = vec!["alpha".to_string(), "beta".to_string()];
    let r = find_closest("gamma", &options, CaseSensitivity::CaseInsensitive);
    assert!(r.is_some());
    assert!(r.unwrap() < options.len());
}

#[test]
fn find_closest_fails_only_on_an_empty_list() {
    let options: Vec<String> = Vec::new();
    assert_eq!(find_closest("anything", &options, CaseSensitivity::CaseInsensitive), None);
}

#[test]
fn find_closest_picks_exact_match() {
    let options: Vec<String> = vec!["GENESIS".to_string(), "EXODUS".to_string()];
    assert_eq!(find_closest("EXODUS", &options, CaseSensitivity::CaseInsensitive), Some(1));
}

#[test]
fn find_closest_breaks_ties_by_first_occurrence() {
    // Case-insensitive mode upper-cases only the candidate, so a lower-case
    // input matches an equal lower-case candidate no better than an
    // unrelated one: both need two changes, and the tie goes to the first.
    let options: Vec<String> = vec!["zz".to_string(), "ab".to_string()];
    assert_eq!(find_closest("ab", &options, CaseSensitivity::CaseInsensitive), Some(0));
}

#[test]
fn find_closest_case_sensitive_uppercases_the_input() {
    let options: Vec<String> = vec!["zz".to_string(), "AB".to_string()];
    assert_eq!(find_closest("ab", &options, CaseSensitivity::CaseSensitive), Some(1));
}

#[test]
fn book_from_str_rejects_only_the_empty_string() {
    assert!(matches!(Book::from_str(""), Err(ReferenceError::UnknownBook)));
    assert_eq!(Book::from_str("Genesis").unwrap(), Book::Genesis);
    assert_eq!(Book::from_str("genesis").unwrap(), Book::Genesis);
    assert_eq!(Book::from_str("exdus").unwrap(), Book::Exodus);
}

#[test]
fn every_canonical_name_resolves_to_its_own_book() {
    for b in books() {
        assert_eq!(Book::from_str(&b.name()).unwrap(), b);
    }
}

#[test]
fn parse_full_reference() {
    // The fixed vocabulary has no Romans; the nearest candidates are Ruth
    // and John at equal score, and the tie goes to the earlier entry.
    let r = Reference::from_str("Romans 8:12").unwrap();
    assert_eq!(r.book, Book::Ruth);
    assert_eq!(r.chapter, Some(8));
    assert_eq!(r.verse, Some(12));
    assert_eq!(r.display_string(), "Ruth 8:12");
}

#[test]
fn parse_exact_book_chapter_verse() {
    let r = Reference::from_str("Matthew 5:9").unwrap();
    assert_eq!(r.book, Book::Matthew);
    assert_eq!(r.chapter, Some(5));
    assert_eq!(r.verse, Some(9));
    assert_eq!(r.display_string(), "Matthew 5:9");
}

#[test]
fn parse_book_only() {
    // Jude is not in the vocabulary; Luke is its nearest match.
    let r = Reference::from_str("Jude").unwrap();
    assert_eq!(r.chapter, None);
    assert_eq!(r.verse, None);
    assert_eq!(r.display_string(), "Luke");
}

#[test]
fn parse_numbered_book() {
    let r = Reference::from_str("1Kings 2").unwrap();
    assert_eq!(r.book, Book::Kings1);
    assert_eq!(r.chapter, Some(2));
    assert_eq!(r.verse, None);
    assert_eq!(r.display_string(), "1Kings 2");
}

#[test]
fn parse_empty_input_is_missing_book() {
    assert!(matches!(Reference::from_str(""), Err(ReferenceError::MissingBook)));
}

#[test]
fn parse_non_numeric_chapter_is_bad_format() {
    match Reference::from_str("Matthew abc") {
        Err(ReferenceError::BadFormat(d)) => {
            assert_eq!(d, "not a valid chapter number: abc");
        },
        other => panic!("expected BadFormat, got {other:?}"),
    }
}

#[test]
fn parse_oversized_chapter_is_bad_format() {
    match Reference::from_str("Matthew 300") {
        Err(ReferenceError::BadFormat(d)) => {
            assert_eq!(d, "not a valid chapter number: 300");
        },
        other => panic!("expected BadFormat, got {other:?}"),
    }
}

#[test]
fn parse_bad_verse_is_bad_format() {
    match Reference::from_str("Mark 3:x") {
        Err(ReferenceError::BadFormat(d)) => {
            assert_eq!(d, "not a valid verse number: x");
        },
        other => panic!("expected BadFormat, got {other:?}"),
    }
}

#[test]
fn parse_missing_chapter_token() {
    assert!(matches!(Reference::from_str("Matthew "), Err(ReferenceError::MissingChapter)));
    assert!(matches!(Reference::from_str("Matthew :5"), Err(ReferenceError::MissingChapter)));
}

#[test]
fn parse_unmatched_shape_is_invalid_format() {
    assert!(matches!(Reference::from_str("John3:16"), Err(ReferenceError::InvalidFormat(_))));
    assert!(matches!(Reference::from_str("??"), Err(ReferenceError::InvalidFormat(_))));
}

#[test]
fn round_trip_book_only() {
    let r = Reference { book: Book::John, chapter: None, verse: None };
    let shown = r.display_string();
    assert_eq!(shown, "John");
    assert_eq!(Reference::from_str(&shown).unwrap(), r);
}

#[test]
fn round_trip_book_and_chapter() {
    let r = Reference { book: Book::Samuel2, chapter: Some(0), verse: None };
    let shown = r.display_string();
    assert_eq!(shown, "2Samuel 0");
    assert_eq!(Reference::from_str(&shown).unwrap(), r);
}

#[test]
fn round_trip_full_reference() {
    let r = Reference { book: Book::Deuteronomy, chapter: Some(255), verse: Some(255) };
    let shown = r.display_string();
    assert_eq!(shown, "Deuteronomy 255:255");
    assert_eq!(Reference::from_str(&shown).unwrap(), r);
}

#[test]
fn round_trip_every_book() {
    for b in books() {
        let r = Reference { book: b, chapter: Some(12), verse: Some(3) };
        let shown = r.display_string();
        assert_eq!(Reference::from_str(&shown).unwrap(), r);
    }
}
