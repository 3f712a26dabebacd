//! Films: the item type the surrounding application ranks.
//!
//! A film carries its name, release year, the date it was watched, and
//! descriptive fields that a metadata service fills in at most once. The
//! watched-films list is loaded from an exported archive: the archive and
//! its tabular entry are decoded by outside crates behind trusted wrappers,
//! and every field of every record is then validated and parsed here, with
//! the date and number grammars specified exactly.

use vstd::prelude::*;

verus! {

/// `c` is an ASCII decimal digit.
pub open spec fn is_digit(c: char) -> bool {
    48 <= c as u32 <= 57
}

/// The numeric value of an ASCII decimal digit.
pub open spec fn digit_val(c: char) -> int {
    c as u32 - 48
}

/// Every character of `s` is an ASCII decimal digit.
pub open spec fn all_digits(s: Seq<char>) -> bool {
    forall|i: int| 0 <= i < s.len() ==> is_digit(#[trigger] s[i])
}

/// The value of a digit string read most-significant first.
pub open spec fn digits_value(s: Seq<char>) -> int
    decreases s.len(),
{
    if s.len() == 0 {
        0
    } else {
        digits_value(s.drop_last()) * 10 + digit_val(s.last())
    }
}

/// What `"+"`-prefixed or bare decimal text denotes as a `u32`: absent on an
/// empty digit string, a stray character, or a value beyond `u32::MAX`.
pub open spec fn u32_of_text(s: Seq<char>) -> Option<u32> {
    let digits = if s.len() > 0 && s[0] == '+' {
        s.skip(1)
    } else {
        s
    };
    if digits.len() > 0 && all_digits(digits) && digits_value(digits) <= u32::MAX {
        Some(digits_value(digits) as u32)
    } else {
        None
    }
}

/// A calendar date as plain values.
#[derive(Clone, Copy, PartialEq, Eq, Structural, Debug)]
pub struct Date {
    pub year: u32,
    pub month: u8,
    pub day: u8,
}

/// Gregorian leap years.
pub open spec fn leap_year(y: int) -> bool {
    (y % 4 == 0 && y % 100 != 0) || y % 400 == 0
}

/// Days in month `m` of year `y`, for `1 <= m <= 12`.
pub open spec fn days_in_month(y: int, m: int) -> int {
    if m == 2 {
        if leap_year(y) {
            29
        } else {
            28
        }
    } else if m == 4 || m == 6 || m == 9 || m == 11 {
        30
    } else {
        31
    }
}

impl Date {
    /// The date exists in the Gregorian calendar.
    pub open spec fn valid(self) -> bool {
        &&& 1 <= self.month <= 12
        &&& 1 <= self.day <= days_in_month(self.year as int, self.month as int)
    }
}

/// What `YYYY-MM-DD` text denotes: absent unless the shape is exact and the
/// date exists in the calendar.
pub open spec fn date_of_text(s: Seq<char>) -> Option<Date> {
    if s.len() == 10 && all_digits(s.subrange(0, 4)) && s[4] == '-' && all_digits(
        s.subrange(5, 7),
    ) && s[7] == '-' && all_digits(s.subrange(8, 10)) {
        let y = digits_value(s.subrange(0, 4));
        let m = digits_value(s.subrange(5, 7));
        let d = digits_value(s.subrange(8, 10));
        if 1 <= m <= 12 && 1 <= d <= days_in_month(y, m) {
            Some(Date { year: y as u32, month: m as u8, day: d as u8 })
        } else {
            None
        }
    } else {
        None
    }
}

/// The numeric value of one digit character, or absent.
fn char_digit(c: char) -> (r: Option<u8>)
    ensures
        r matches Some(d) ==> is_digit(c) && d == digit_val(c),
        r is None ==> !is_digit(c),
{
    let u = c as u32;
    if 48 <= u && u <= 57 {
        Some((u - 48) as u8)
    } else {
        None
    }
}

/// Parses decimal text as the grammar of [`u32_of_text`] reads it.
pub fn parse_u32(s: &str) -> (r: Option<u32>)
    ensures
        r == u32_of_text(s@),
{
    let n = s.unicode_len();
    let start: usize = if n > 0 && s.get_char(0) == '+' {
        1
    } else {
        0
    };
    let ghost digits = if start == 1 {
        s@.skip(1)
    } else {
        s@
    };
    proof {
        assert(digits =~= s@.subrange(start as int, n as int));
    }
    if n == start {
        return None;
    }
    let mut acc: u64 = 0;
    let mut too_big = false;
    let mut i: usize = start;
    while i < n
        invariant
            start <= i <= n,
            n == s@.len(),
            start == (if s@.len() > 0 && s@[0] == '+' {
                1int
            } else {
                0int
            }),
            digits == s@.subrange(start as int, n as int),
            forall|j: int| start <= j < i ==> is_digit(#[trigger] s@[j]),
            !too_big ==> acc == digits_value(s@.subrange(start as int, i as int)) && acc
                <= u32::MAX,
            too_big ==> digits_value(s@.subrange(start as int, i as int)) > u32::MAX,
        decreases n - i,
    {
        let c = s.get_char(i);
        let ghost seen = s@.subrange(start as int, i as int);
        let ghost seen1 = s@.subrange(start as int, i + 1 as int);
        proof {
            assert(seen1.drop_last() =~= seen);
            assert(seen1.last() == s@[i as int]);
            assert(digits[i - start] == s@[i as int]);
        }
        match char_digit(c) {
            None => {
                proof {
                    assert(!is_digit(digits[i - start]));
                    assert(!all_digits(digits));
                    assert(s@.skip(1) =~= s@.subrange(1, s@.len() as int));
                    assert(u32_of_text(s@) is None);
                }
                return None;
            },
            Some(d) => {
                if too_big {
                    proof {
                        assert(digits_value(seen1) == digits_value(seen) * 10 + digit_val(c));
                        assert(digits_value(seen) * 10 >= digits_value(seen));
                    }
                } else {
                    let next = acc * 10 + (d as u64);
                    if next > 0xFFFF_FFFF {
                        too_big = true;
                    } else {
                        acc = next;
                    }
                }
            },
        }
        i = i + 1;
    }
    proof {
        assert(s@.subrange(start as int, n as int) == digits);
        assert(all_digits(digits));
        assert(digits.len() > 0);
    }
    if too_big {
        None
    } else {
        Some(acc as u32)
    }
}

/// Days in the given month, executably.
fn days_in_month_of(year: u32, month: u8) -> (r: u8)
    requires
        1 <= month <= 12,
    ensures
        r == days_in_month(year as int, month as int),
{
    if month == 2 {
        if (year % 4 == 0 && year % 100 != 0) || year % 400 == 0 {
            29
        } else {
            28
        }
    } else if month == 4 || month == 6 || month == 9 || month == 11 {
        30
    } else {
        31
    }
}

/// Parses `YYYY-MM-DD` text as the grammar of [`date_of_text`] reads it.
/// A parsed date always exists in the calendar.
pub fn parse_date(s: &str) -> (r: Option<Date>)
    ensures
        r == date_of_text(s@),
        r matches Some(d) ==> d.valid(),
{
    if s.unicode_len() != 10 {
        return None;
    }
    if s.get_char(4) != '-' || s.get_char(7) != '-' {
        return None;
    }
    let d0 = char_digit(s.get_char(0));
    let d1 = char_digit(s.get_char(1));
    let d2 = char_digit(s.get_char(2));
    let d3 = char_digit(s.get_char(3));
    let d5 = char_digit(s.get_char(5));
    let d6 = char_digit(s.get_char(6));
    let d8 = char_digit(s.get_char(8));
    let d9 = char_digit(s.get_char(9));
    match (d0, d1, d2, d3, d5, d6, d8, d9) {
        (
            Some(y0),
            Some(y1),
            Some(y2),
            Some(y3),
            Some(m0),
            Some(m1),
            Some(a0),
            Some(a1),
        ) => {
            let year: u32 = (y0 as u32) * 1000 + (y1 as u32) * 100 + (y2 as u32) * 10 + (
            y3 as u32);
            let month: u32 = (m0 as u32) * 10 + (m1 as u32);
            let day: u32 = (a0 as u32) * 10 + (a1 as u32);
            proof {
                lemma_four_digits(s@.subrange(0, 4), s@[0], s@[1], s@[2], s@[3]);
                lemma_two_digits(s@.subrange(5, 7), s@[5], s@[6]);
                lemma_two_digits(s@.subrange(8, 10), s@[8], s@[9]);
            }
            if 1 <= month && month <= 12 {
                if 1 <= day && day <= days_in_month_of(year, month as u8) as u32 {
                    Some(Date { year, month: month as u8, day: day as u8 })
                } else {
                    None
                }
            } else {
                None
            }
        },
        _ => {
            proof {
                if d0 is None {
                    assert(!all_digits(s@.subrange(0, 4))) by {
                        assert(s@.subrange(0, 4)[0] == s@[0]);
                    }
                } else if d1 is None {
                    assert(!all_digits(s@.subrange(0, 4))) by {
                        assert(s@.subrange(0, 4)[1] == s@[1]);
                    }
                } else if d2 is None {
                    assert(!all_digits(s@.subrange(0, 4))) by {
                        assert(s@.subrange(0, 4)[2] == s@[2]);
                    }
                } else if d3 is None {
                    assert(!all_digits(s@.subrange(0, 4))) by {
                        assert(s@.subrange(0, 4)[3] == s@[3]);
                    }
                } else if d5 is None {
                    assert(!all_digits(s@.subrange(5, 7))) by {
                        assert(s@.subrange(5, 7)[0] == s@[5]);
                    }
                } else if d6 is None {
                    assert(!all_digits(s@.subrange(5, 7))) by {
                        assert(s@.subrange(5, 7)[1] == s@[6]);
                    }
                } else if d8 is None {
                    assert(!all_digits(s@.subrange(8, 10))) by {
                        assert(s@.subrange(8, 10)[0] == s@[8]);
                    }
                } else {
                    assert(!all_digits(s@.subrange(8, 10))) by {
                        assert(s@.subrange(8, 10)[1] == s@[9]);
                    }
                }
            }
            None
        },
    }
}

/// The value of a four-digit string, digit by digit.
proof fn lemma_four_digits(s: Seq<char>, c0: char, c1: char, c2: char, c3: char)
    requires
        s.len() == 4,
        s[0] == c0,
        s[1] == c1,
        s[2] == c2,
        s[3] == c3,
        is_digit(c0),
        is_digit(c1),
        is_digit(c2),
        is_digit(c3),
    ensures
        all_digits(s),
        digits_value(s) == ((digit_val(c0) * 10 + digit_val(c1)) * 10 + digit_val(c2)) * 10
            + digit_val(c3),
{
    assert(s.drop_last() =~= s.subrange(0, 3));
    lemma_three_digits(s.subrange(0, 3), c0, c1, c2);
}

proof fn lemma_three_digits(s: Seq<char>, c0: char, c1: char, c2: char)
    requires
        s.len() == 3,
        s[0] == c0,
        s[1] == c1,
        s[2] == c2,
        is_digit(c0),
        is_digit(c1),
        is_digit(c2),
    ensures
        all_digits(s),
        digits_value(s) == (digit_val(c0) * 10 + digit_val(c1)) * 10 + digit_val(c2),
{
    assert(s.drop_last() =~= s.subrange(0, 2));
    lemma_two_digits(s.subrange(0, 2), c0, c1);
}

/// What a metadata lookup for a film returns: descriptive fields, present
/// as the service knows them, and a `Response` flag that is `"True"` exactly
/// when the lookup found the film.
#[allow(non_snake_case)]
pub struct OmdbResponse {
    pub Title: Option<String>,
    pub Year: Option<String>,
    pub Genre: Option<String>,
    pub Director: Option<String>,
    pub Actors: Option<String>,
    pub Plot: Option<String>,
    pub imdbRating: Option<String>,
    pub Response: String,
    pub Error: Option<String>,
}

/// The abstract value of a [`Film`]: every field as a plain mathematical
/// value.
#[verifier::ext_equal]
pub struct FilmData {
    pub name: Seq<char>,
    pub year: u32,
    pub genre: Option<Seq<char>>,
    pub director: Option<Seq<char>>,
    pub plot: Option<Seq<char>>,
    pub date_watched: Date,
    pub metadata_fetched: bool,
}

/// A watched film: name, release year, date watched, and descriptive fields
/// that a metadata lookup fills in at most once.
#[derive(Debug)]
pub struct Film {
    name: String,
    year: u32,
    genre: Option<String>,
    director: Option<String>,
    plot: Option<String>,
    date_watched: Date,
    metadata_fetched: bool,
}

impl View for Film {
    type V = FilmData;

    closed spec fn view(&self) -> FilmData {
        FilmData {
            name: self.name@,
            year: self.year,
            genre: self.genre.deep_view(),
            director: self.director.deep_view(),
            plot: self.plot.deep_view(),
            date_watched: self.date_watched,
            metadata_fetched: self.metadata_fetched,
        }
    }
}

impl DeepView for Film {
    type V = FilmData;

    open spec fn deep_view(&self) -> FilmData {
        self.view()
    }
}

impl Film {
    /// A film fresh from the watched list: no descriptive fields yet, no
    /// metadata lookup recorded.
    pub fn new(name: &str, year: u32, date_watched: Date) -> (film: Film)
        ensures
            film@ == (FilmData {
                name: name@,
                year,
                genre: None,
                director: None,
                plot: None,
                date_watched,
                metadata_fetched: false,
            }),
    {
        Film {
            name: name.to_owned(),
            year,
            genre: None,
            director: None,
            plot: None,
            date_watched,
            metadata_fetched: false,
        }
    }

    /// The film's name: also its display form, the one line the persisted
    /// ranking holds for it.
    pub fn name(&self) -> (r: &str)
        ensures
            r@ == self@.name,
    {
        self.name.as_str()
    }

    pub fn year(&self) -> (r: u32)
        ensures
            r == self@.year,
    {
        self.year
    }

    pub fn date_watched(&self) -> (r: Date)
        ensures
            r == self@.date_watched,
    {
        self.date_watched
    }

    pub fn genre(&self) -> (r: Option<&str>)
        ensures
            match r {
                Some(g) => self@.genre == Some(g@),
                None => self@.genre is None,
            },
    {
        match &self.genre {
            Some(g) => Some(g.as_str()),
            None => None,
        }
    }

    pub fn director(&self) -> (r: Option<&str>)
        ensures
            match r {
                Some(d) => self@.director == Some(d@),
                None => self@.director is None,
            },
    {
        match &self.director {
            Some(d) => Some(d.as_str()),
            None => None,
        }
    }

    pub fn plot(&self) -> (r: Option<&str>)
        ensures
            match r {
                Some(p) => self@.plot == Some(p@),
                None => self@.plot is None,
            },
    {
        match &self.plot {
            Some(p) => Some(p.as_str()),
            None => None,
        }
    }

    /// Whether a metadata lookup outcome has been recorded: once true, no
    /// further lookup is warranted.
    pub fn metadata_fetched(&self) -> (r: bool)
        ensures
            r == self@.metadata_fetched,
    {
        self.metadata_fetched
    }

    /// Records the outcome of the one metadata lookup. A found response
    /// (`Response` is `"True"`) fills the descriptive fields; a failed
    /// lookup or a miss leaves them as they were. Either way the lookup is
    /// recorded as done, so it happens at most once.
    pub fn apply_fetch(&mut self, resp: Option<OmdbResponse>)
        ensures
            final(self)@.name == old(self)@.name,
            final(self)@.year == old(self)@.year,
            final(self)@.date_watched == old(self)@.date_watched,
            final(self)@.metadata_fetched,
            match resp {
                Some(found) => {
                    if found.Response@ == "True"@ {
                        &&& final(self)@.genre == found.Genre.deep_view()
                        &&& final(self)@.director == found.Director.deep_view()
                        &&& final(self)@.plot == found.Plot.deep_view()
                    } else {
                        &&& final(self)@.genre == old(self)@.genre
                        &&& final(self)@.director == old(self)@.director
                        &&& final(self)@.plot == old(self)@.plot
                    }
                },
                None => {
                    &&& final(self)@.genre == old(self)@.genre
                    &&& final(self)@.director == old(self)@.director
                    &&& final(self)@.plot == old(self)@.plot
                },
            },
    {
        if let Some(found) = resp {
            let found_flag = "True".to_owned();
            if found.Response == found_flag {
                self.genre = found.Genre;
                self.director = found.Director;
                self.plot = found.Plot;
            }
        }
        self.metadata_fetched = true;
    }
}

/// A failure loading the watched-films list from exported archive bytes.
#[derive(Clone, Copy, PartialEq, Eq, Structural, Debug)]
pub enum LoadError {
    /// The bytes are not a readable archive holding a `watched.csv` entry.
    NoArchiveEntry,
    /// The entry is not readable tabular text.
    BadCsv,
    /// A data row lacks a field, or its date or year does not parse.
    BadRecord,
}

/// The film a data row of `date,name,year,...` fields denotes, if the date
/// and the year parse.
pub open spec fn film_of_row(row: Seq<Seq<char>>) -> Option<FilmData> {
    if row.len() >= 3 {
        match (date_of_text(row[0]), u32_of_text(row[2])) {
            (Some(date), Some(year)) => Some(
                FilmData {
                    name: row[1],
                    year,
                    genre: None,
                    director: None,
                    plot: None,
                    date_watched: date,
                    metadata_fetched: false,
                },
            ),
            _ => None,
        }
    } else {
        None
    }
}

/// The films a whole table of rows denotes, in row order; absent as soon as
/// one row is bad.
pub open spec fn films_of_rows(rows: Seq<Seq<Seq<char>>>) -> Option<Seq<FilmData>>
    decreases rows.len(),
{
    if rows.len() == 0 {
        Some(Seq::empty())
    } else {
        match (films_of_rows(rows.drop_last()), film_of_row(rows.last())) {
            (Some(rest), Some(film)) => Some(rest.push(film)),
            _ => None,
        }
    }
}

proof fn lemma_films_of_rows_bad(rows: Seq<Seq<Seq<char>>>, i: int)
    requires
        0 <= i < rows.len(),
        film_of_row(rows[i]) is None,
    ensures
        films_of_rows(rows) is None,
    decreases rows.len(),
{
    if i < rows.len() - 1 {
        assert(rows.drop_last()[i] == rows[i]);
        lemma_films_of_rows_bad(rows.drop_last(), i);
    }
}

/// Builds films from parsed rows, in row order. One bad row fails the whole
/// load: a corrupt export is reported, never silently truncated.
pub fn films_from_rows(rows: &Vec<Vec<String>>) -> (r: Result<Vec<Film>, LoadError>)
    ensures
        match r {
            Ok(films) => films_of_rows(rows.deep_view()) == Some(films.deep_view()),
            Err(e) => films_of_rows(rows.deep_view()) is None && e == LoadError::BadRecord,
        },
{
    let ghost table = rows.deep_view();
    let mut films: Vec<Film> = Vec::new();
    let mut i: usize = 0;
    while i < rows.len()
        invariant
            i <= rows.len(),
            table == rows.deep_view(),
            films_of_rows(table.take(i as int)) == Some(films.deep_view()),
        decreases rows.len() - i,
    {
        let row = &rows[i];
        proof {
            assert(table[i as int] =~~= row.deep_view());
        }
        if row.len() < 3 {
            proof {
                lemma_films_of_rows_bad(table, i as int);
            }
            return Err(LoadError::BadRecord);
        }
        proof {
            assert(table[i as int][0] == row@[0]@);
            assert(table[i as int][1] == row@[1]@);
            assert(table[i as int][2] == row@[2]@);
        }
        let date = match parse_date(row[0].as_str()) {
            Some(d) => d,
            None => {
                proof {
                    lemma_films_of_rows_bad(table, i as int);
                }
                return Err(LoadError::BadRecord);
            },
        };
        let year = match parse_u32(row[2].as_str()) {
            Some(y) => y,
            None => {
                proof {
                    lemma_films_of_rows_bad(table, i as int);
                }
                return Err(LoadError::BadRecord);
            },
        };
        let ghost films_before = films.deep_view();
        let film = Film::new(row[1].as_str(), year, date);
        films.push(film);
        proof {
            assert(table.take(i + 1).drop_last() =~= table.take(i as int));
            assert(table.take(i + 1).last() == table[i as int]);
            assert(film_of_row(table[i as int]) == Some(film@));
            assert(films.deep_view() =~= films_before.push(film@));
        }
        i = i + 1;
    }
    proof {
        assert(table.take(rows.len() as int) =~= table);
    }
    Ok(films)
}

/// What decoding the archive entry `name` out of `archive` yields: a
/// function of the bytes and the name alone.
pub uninterp spec fn zip_entry_bytes(archive: Seq<u8>, name: Seq<char>) -> Option<Seq<u8>>;

/// Relies on the zip crate — `ZipArchive::new` over an in-memory cursor,
/// `ZipArchive::by_name`, and reading the returned entry to its end — to
/// decode one named entry of an archive. Decoding is a pure function of the
/// archive bytes and the entry name; any failure (unreadable archive,
/// missing entry, corrupt entry data) yields `None`.
#[verifier::external_body]
fn read_archive_entry(archive: &[u8], name: &str) -> (r: Option<Vec<u8>>)
    ensures
        r matches Some(v) ==> zip_entry_bytes(archive@, name@) == Some(v@),
        r is None ==> zip_entry_bytes(archive@, name@) is None,
{
    let cursor = std::io::Cursor::new(archive);
    let mut zip_archive = zip::ZipArchive::new(cursor).ok()?;
    let mut entry = zip_archive.by_name(name).ok()?;
    let mut out = Vec::new();
    std::io::Read::read_to_end(&mut entry, &mut out).ok()?;
    Some(out)
}

/// What reading `bytes` as comma-separated text yields, header row skipped:
/// a function of the bytes alone.
pub uninterp spec fn csv_rows(bytes: Seq<u8>) -> Option<Seq<Seq<Seq<char>>>>;

/// Relies on the csv crate — `ReaderBuilder::has_headers(true)`,
/// `ReaderBuilder::from_reader` over the bytes, and the `records` iterator —
/// to split tabular text into rows of fields, the header row skipped.
/// Parsing is a pure function of the bytes; one malformed record yields
/// `None` for the whole table.
#[verifier::external_body]
fn parse_csv_rows(bytes: &[u8]) -> (r: Option<Vec<Vec<String>>>)
    ensures
        r matches Some(rows) ==> csv_rows(bytes@) == Some(rows.deep_view()),
        r is None ==> csv_rows(bytes@) is None,
{
    let mut reader = csv::ReaderBuilder::new().has_headers(true).from_reader(bytes);
    let mut rows = Vec::new();
    for record in reader.records() {
        let record = record.ok()?;
        rows.push(record.iter().map(|field| field.to_string()).collect());
    }
    Some(rows)
}

/// The films an exported archive denotes: the `watched.csv` entry decoded,
/// read as a table, and every data row parsed — or the first stage that
/// failed.
pub open spec fn films_of_archive(data: Seq<u8>) -> Result<Seq<FilmData>, LoadError> {
    match zip_entry_bytes(data, "watched.csv"@) {
        None => Err(LoadError::NoArchiveEntry),
        Some(entry) => match csv_rows(entry) {
            None => Err(LoadError::BadCsv),
            Some(rows) => match films_of_rows(rows) {
                None => Err(LoadError::BadRecord),
                Some(films) => Ok(films),
            },
        },
    }
}

/// Loads the watched-films list from the raw bytes of an exported archive:
/// the `watched.csv` entry is decoded, its header skipped, and each data row
/// of `date,name,year` fields becomes one film, in file order.
pub fn get_letterboxd_watched(data: &[u8]) -> (r: Result<Vec<Film>, LoadError>)
    ensures
        match r {
            Ok(films) => films_of_archive(data@) == Ok::<Seq<FilmData>, LoadError>(
                films.deep_view(),
            ),
            Err(e) => films_of_archive(data@) == Err::<Seq<FilmData>, LoadError>(e),
        },
{
    let entry = match read_archive_entry(data, "watched.csv") {
        Some(e) => e,
        None => {
            return Err(LoadError::NoArchiveEntry);
        },
    };
    let rows = match parse_csv_rows(entry.as_slice()) {
        Some(rs) => rs,
        None => {
            return Err(LoadError::BadCsv);
        },
    };
    films_from_rows(&rows)
}

/// The value of a two-digit string, digit by digit.
proof fn lemma_two_digits(s: Seq<char>, c0: char, c1: char)
    requires
        s.len() == 2,
        s[0] == c0,
        s[1] == c1,
        is_digit(c0),
        is_digit(c1),
    ensures
        all_digits(s),
        digits_value(s) == digit_val(c0) * 10 + digit_val(c1),
{
    assert(s.drop_last() =~= s.subrange(0, 1));
    assert(s.subrange(0, 1).drop_last() =~= Seq::<char>::empty());
    assert(digits_value(Seq::<char>::empty()) == 0);
    assert(s.subrange(0, 1).last() == c0);
    assert(digits_value(s.subrange(0, 1)) == digit_val(c0));
}

} // verus!
