use filmsmash::film::{parse_date, parse_u32, Date, Film, LoadError, OmdbResponse};
use filmsmash::film::{films_from_rows, get_letterboxd_watched};
use std::io::Write;

/// Builds an in-memory archive holding the given entries.
fn make_archive(entries: &[(&str, &str)]) -> Vec<u8> {
    let cursor = std::io::Cursor::new(Vec::new());
    let mut writer = zip::ZipWriter::new(cursor);
    let options = zip::write::SimpleFileOptions::default()
        .compression_method(zip::CompressionMethod::Stored);
    for (name, contents) in entries {
        writer.start_file(*name, options).unwrap();
        writer.write_all(contents.as_bytes()).unwrap();
    }
    writer.finish().unwrap().into_inner()
}

#[test]
fn loads_films_from_archive() {
    let csv = "Date,Name,Year,Letterboxd URI\n\
               2024-01-31,The Long Goodbye,1973,https://example.invalid/a\n\
               2023-12-02,Playtime,1967,https://example.invalid/b\n";
    let data = make_archive(&[("watched.csv", csv)]);
    let films = get_letterboxd_watched(&data).unwrap();
    assert_eq!(films.len(), 2);
    assert_eq!(films[0].name(), "The Long Goodbye");
    assert_eq!(films[0].year(), 1973);
    assert_eq!(
        films[0].date_watched(),
        Date { year: 2024, month: 1, day: 31 }
    );
    assert_eq!(films[1].name(), "Playtime");
    assert_eq!(films[1].year(), 1967);
    assert_eq!(
        films[1].date_watched(),
        Date { year: 2023, month: 12, day: 2 }
    );
}

#[test]
fn ranks_loaded_films_by_year() {
    let csv = "Date,Name,Year\n\
               2024-01-01,Alpha,1999\n\
               2024-01-02,Beta,1954\n\
               2024-01-03,Gamma,2011\n";
    let data = make_archive(&[("watched.csv", csv)]);
    let films = get_letterboxd_watched(&data).unwrap();
    let mut engine = filmsmash::ranker::MergeSortRanker::new(films);
    while !engine.is_ranked() {
        let earlier = engine.peek_left().unwrap().year() <= engine.peek_right().unwrap().year();
        if earlier {
            engine.record_left_preferred();
        } else {
            engine.record_right_preferred();
        }
    }
    let order = engine.finalize().unwrap();
    let names: Vec<&str> = order.iter().map(|f| f.name()).collect();
    assert_eq!(names, vec!["Beta", "Alpha", "Gamma"]);
}

#[test]
fn archive_without_watched_entry_is_rejected() {
    let data = make_archive(&[("diary.csv", "Date,Name,Year\n")]);
    assert_eq!(
        get_letterboxd_watched(&data).unwrap_err(),
        LoadError::NoArchiveEntry
    );
}

#[test]
fn bytes_that_are_no_archive_are_rejected() {
    let data = b"not an archive at all".to_vec();
    assert_eq!(
        get_letterboxd_watched(&data).unwrap_err(),
        LoadError::NoArchiveEntry
    );
}

#[test]
fn bad_year_field_is_rejected() {
    let csv = "Date,Name,Year\n2024-01-31,Some Film,nineteen73\n";
    let data = make_archive(&[("watched.csv", csv)]);
    assert_eq!(
        get_letterboxd_watched(&data).unwrap_err(),
        LoadError::BadRecord
    );
}

#[test]
fn bad_date_field_is_rejected() {
    let csv = "Date,Name,Year\n2024-02-30,Some Film,1973\n";
    let data = make_archive(&[("watched.csv", csv)]);
    assert_eq!(
        get_letterboxd_watched(&data).unwrap_err(),
        LoadError::BadRecord
    );
}

#[test]
fn short_record_is_rejected() {
    let rows = vec![vec!["2024-01-31".to_string(), "Some Film".to_string()]];
    assert_eq!(films_from_rows(&rows).unwrap_err(), LoadError::BadRecord);
}

#[test]
fn unreadable_table_is_rejected() {
    // A quoted field left open makes the tabular text unreadable.
    let csv = "Date,Name,Year\n2024-01-31,\"Some Film,1973\n2024-02-01,Other,1999\n";
    let data = make_archive(&[("watched.csv", csv)]);
    assert_eq!(
        get_letterboxd_watched(&data).unwrap_err(),
        LoadError::BadCsv
    );
}

#[test]
fn parse_date_accepts_calendar_dates() {
    assert_eq!(
        parse_date("2020-02-29"),
        Some(Date { year: 2020, month: 2, day: 29 })
    );
    assert_eq!(
        parse_date("1900-02-28"),
        Some(Date { year: 1900, month: 2, day: 28 })
    );
    assert_eq!(
        parse_date("2000-02-29"),
        Some(Date { year: 2000, month: 2, day: 29 })
    );
}

#[test]
fn parse_date_rejects_impossible_dates() {
    assert_eq!(parse_date("2021-02-29"), None);
    assert_eq!(parse_date("1900-02-29"), None);
    assert_eq!(parse_date("2024-13-01"), None);
    assert_eq!(parse_date("2024-00-10"), None);
    assert_eq!(parse_date("2024-04-31"), None);
    assert_eq!(parse_date("2024-01-00"), None);
}

#[test]
fn parse_date_rejects_wrong_shapes() {
    assert_eq!(parse_date(""), None);
    assert_eq!(parse_date("2024-1-31"), None);
    assert_eq!(parse_date("2024/01/31"), None);
    assert_eq!(parse_date("31-01-2024x"), None);
    assert_eq!(parse_date("abcd-ef-gh"), None);
}

#[test]
fn parse_u32_reads_decimal_text() {
    assert_eq!(parse_u32("0"), Some(0));
    assert_eq!(parse_u32("1973"), Some(1973));
    assert_eq!(parse_u32("+7"), Some(7));
    assert_eq!(parse_u32("0000000001"), Some(1));
    assert_eq!(parse_u32("4294967295"), Some(u32::MAX));
}

#[test]
fn parse_u32_rejects_bad_text() {
    assert_eq!(parse_u32(""), None);
    assert_eq!(parse_u32("+"), None);
    assert_eq!(parse_u32("19a73"), None);
    assert_eq!(parse_u32("-3"), None);
    assert_eq!(parse_u32("4294967296"), None);
    assert_eq!(parse_u32("99999999999999999999999"), None);
}

fn response(flag: &str) -> OmdbResponse {
    OmdbResponse {
        Title: Some("Playtime".to_string()),
        Year: Some("1967".to_string()),
        Genre: Some("Comedy".to_string()),
        Director: Some("Jacques Tati".to_string()),
        Actors: None,
        Plot: Some("Monsieur Hulot curiously wanders".to_string()),
        imdbRating: None,
        Response: flag.to_string(),
        Error: None,
    }
}

#[test]
fn found_metadata_fills_fields_once() {
    let mut film = Film::new("Playtime", 1967, Date { year: 2023, month: 12, day: 2 });
    assert!(!film.metadata_fetched());
    assert_eq!(film.genre(), None);
    film.apply_fetch(Some(response("True")));
    assert!(film.metadata_fetched());
    assert_eq!(film.genre(), Some("Comedy"));
    assert_eq!(film.director(), Some("Jacques Tati"));
    assert_eq!(film.plot(), Some("Monsieur Hulot curiously wanders"));
    assert_eq!(film.name(), "Playtime");
    assert_eq!(film.year(), 1967);
}

#[test]
fn missed_lookup_leaves_fields_but_is_recorded() {
    let mut film = Film::new("Obscurity", 2001, Date { year: 2020, month: 5, day: 5 });
    film.apply_fetch(Some(response("False")));
    assert!(film.metadata_fetched());
    assert_eq!(film.genre(), None);
    assert_eq!(film.director(), None);
    assert_eq!(film.plot(), None);
}

#[test]
fn failed_lookup_leaves_fields_but_is_recorded() {
    let mut film = Film::new("Offline", 1999, Date { year: 2020, month: 5, day: 6 });
    film.apply_fetch(None);
    assert!(film.metadata_fetched());
    assert_eq!(film.genre(), None);
    assert_eq!(film.director(), None);
    assert_eq!(film.plot(), None);
}
