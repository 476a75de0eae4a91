use vstd::prelude::*;
use vstd::string::StrSliceExecFns;
use vstd::string::StringExecFns;

use crate::edit_distance::edit_distance;
use crate::edit_distance::score10;
use crate::edit_distance::LEN_WEIGHT_TENTHS;

verus! {

/// Which side of a comparison gets upper-cased in `find_closest`: with
/// `CaseSensitive` the input is upper-cased and the candidate left alone,
/// with `CaseInsensitive` the candidate is upper-cased and the input left
/// alone.
#[derive(Clone, Copy, Debug, PartialEq, Eq, Structural)]
pub enum CaseSensitivity {
    CaseSensitive,
    CaseInsensitive,
}

/// One canonical book of the fixed vocabulary.
#[derive(Clone, Copy, Debug, PartialEq, Eq, Structural)]
pub enum Book {
    Genesis,
    Exodus,
    Leviticus,
    Numbers,
    Deuteronomy,
    Joshua,
    Judges,
    Ruth,
    Samuel1,
    Samuel2,
    Kings1,
    Kings2,
    Matthew,
    Mark,
    Luke,
    John,
}

impl Book {
    /// The canonical display text of this book.
    pub open spec fn name_spec(self) -> Seq<char> {
        match self {
            Book::Genesis => "Genesis"@,
            Book::Exodus => "Exodus"@,
            Book::Leviticus => "Leviticus"@,
            Book::Numbers => "Numbers"@,
            Book::Deuteronomy => "Deuteronomy"@,
            Book::Joshua => "Joshua"@,
            Book::Judges => "Judges"@,
            Book::Ruth => "Ruth"@,
            Book::Samuel1 => "1Samuel"@,
            Book::Samuel2 => "2Samuel"@,
            Book::Kings1 => "1Kings"@,
            Book::Kings2 => "2Kings"@,
            Book::Matthew => "Matthew"@,
            Book::Mark => "Mark"@,
            Book::Luke => "Luke"@,
            Book::John => "John"@,
        }
    }

    /// The canonical display text of this book, as an owned string.
    pub fn name(&self) -> (r: String)
        ensures
            r@ == self.name_spec(),
    {
        match self {
            Book::Genesis => String::from_str("Genesis"),
            Book::Exodus => String::from_str("Exodus"),
            Book::Leviticus => String::from_str("Leviticus"),
            Book::Numbers => String::from_str("Numbers"),
            Book::Deuteronomy => String::from_str("Deuteronomy"),
            Book::Joshua => String::from_str("Joshua"),
            Book::Judges => String::from_str("Judges"),
            Book::Ruth => String::from_str("Ruth"),
            Book::Samuel1 => String::from_str("1Samuel"),
            Book::Samuel2 => String::from_str("2Samuel"),
            Book::Kings1 => String::from_str("1Kings"),
            Book::Kings2 => String::from_str("2Kings"),
            Book::Matthew => String::from_str("Matthew"),
            Book::Mark => String::from_str("Mark"),
            Book::Luke => String::from_str("Luke"),
            Book::John => String::from_str("John"),
        }
    }
}

/// The vocabulary, in its fixed tie-break order.
pub open spec fn book_list() -> Seq<Book> {
    seq![
        Book::Genesis,
        Book::Exodus,
        Book::Leviticus,
        Book::Numbers,
        Book::Deuteronomy,
        Book::Joshua,
        Book::Judges,
        Book::Ruth,
        Book::Samuel1,
        Book::Samuel2,
        Book::Kings1,
        Book::Kings2,
        Book::Matthew,
        Book::Mark,
        Book::Luke,
        Book::John,
    ]
}

/// The vocabulary as a vector, in its fixed tie-break order.
pub fn books() -> (r: Vec<Book>)
    ensures
        r@ == book_list(),
{
    let mut v: Vec<Book> = Vec::new();
    v.push(Book::Genesis);
    v.push(Book::Exodus);
    v.push(Book::Leviticus);
    v.push(Book::Numbers);
    v.push(Book::Deuteronomy);
    v.push(Book::Joshua);
    v.push(Book::Judges);
    v.push(Book::Ruth);
    v.push(Book::Samuel1);
    v.push(Book::Samuel2);
    v.push(Book::Kings1);
    v.push(Book::Kings2);
    v.push(Book::Matthew);
    v.push(Book::Mark);
    v.push(Book::Luke);
    v.push(Book::John);
    proof {
        assert(v@ =~= book_list());
    }
    v
}

pub open spec fn is_lower(c: char) -> bool {
    97 <= c as u32 && c as u32 <= 122
}

/// ASCII upper-casing of one character; everything else is left alone.
pub open spec fn upper_char(c: char) -> char {
    if is_lower(c) {
        ((c as u32) - 32) as char
    } else {
        c
    }
}

/// ASCII upper-casing of a whole string.
pub open spec fn ascii_upper(s: Seq<char>) -> Seq<char> {
    Seq::new(s.len(), |i: int| upper_char(s[i]))
}

fn upper_char_exec(c: char) -> (r: char)
    ensures
        r == upper_char(c),
{
    let u = c as u32;
    if 97 <= u && u <= 122 {
        ((u - 32) as u8) as char
    } else {
        c
    }
}

/// Relies on String::push: appends exactly the one character at the end.
#[verifier::external_body]
fn push_char(s: &mut String, c: char)
    ensures
        final(s)@ == old(s)@.push(c),
{
    s.push(c);
}

/// Upper-cases the ASCII letters of a string, leaving all other characters
/// as they are.
pub fn uppercase(s: &str) -> (r: String)
    ensures
        r@ == ascii_upper(s@),
{
    let len = s.unicode_len();
    let mut r = String::new();
    let mut i: usize = 0;
    while i < len
        invariant
            len as nat == s@.len(),
            i <= len,
            r@ == ascii_upper(s@).take(i as int),
        decreases len - i,
    {
        let c = s.get_char(i);
        let u = upper_char_exec(c);
        push_char(&mut r, u);
        proof {
            assert(ascii_upper(s@).take(i as int).push(upper_char(s@[i as int])) =~= ascii_upper(
                s@,
            ).take(i as int + 1));
        }
        i = i + 1;
    }
    proof {
        assert(ascii_upper(s@).take(len as int) =~= ascii_upper(s@));
    }
    r
}

/// The score a candidate gets against the input, after the one-sided case
/// normalization that `find_closest` applies, under the default weight.
pub open spec fn variant_score(input: Seq<char>, cand: Seq<char>, cs: CaseSensitivity) -> int {
    match cs {
        CaseSensitivity::CaseSensitive => score10(ascii_upper(input), cand, LEN_WEIGHT_TENTHS as int),
        CaseSensitivity::CaseInsensitive => score10(input, ascii_upper(cand), LEN_WEIGHT_TENTHS as int),
    }
}

pub open spec fn option_scores(input: Seq<char>, options: Seq<Seq<char>>, cs: CaseSensitivity) -> Seq<int> {
    Seq::new(options.len(), |i: int| variant_score(input, options[i], cs))
}

/// Index of the first occurrence of the minimum of a non-empty sequence.
pub open spec fn first_min_index(scores: Seq<int>) -> int
    decreases scores.len(),
{
    if scores.len() <= 1 {
        0
    } else {
        let t = first_min_index(scores.drop_last());
        if scores.last() < scores[t] {
            scores.len() - 1
        } else {
            t
        }
    }
}

fn candidate_score(input: &str, cand: &String, case_sensitive: CaseSensitivity) -> (s: i128)
    ensures
        s == variant_score(input@, cand@, case_sensitive),
{
    match case_sensitive {
        CaseSensitivity::CaseSensitive => {
            let up = uppercase(input);
            edit_distance(up.as_str(), cand.as_str(), None)
        },
        CaseSensitivity::CaseInsensitive => {
            let up = uppercase(cand.as_str());
            edit_distance(input, up.as_str(), None)
        },
    }
}

/// Best-effort nearest match: scores every candidate against the input and
/// returns the index of the first candidate with the minimal score. Fails
/// only when the candidate list is empty.
pub fn find_closest(input: &str, options: &Vec<String>, case_sensitive: CaseSensitivity) -> (r:
    Option<usize>)
    ensures
        r is Some <==> options@.len() > 0,
        r matches Some(best) ==> {
            let scores = option_scores(input@, options.deep_view(), case_sensitive);
            &&& (best as int) < options@.len()
            &&& best as int == first_min_index(scores)
            &&& forall|j: int| 0 <= j < scores.len() ==> scores[best as int] <= scores[j]
            &&& forall|j: int| 0 <= j < best as int ==> scores[best as int] < scores[j]
        },
{
    let n = options.len();
    if n == 0 {
        return None;
    }
    let ghost scores = option_scores(input@, options.deep_view(), case_sensitive);
    assert(options.deep_view().len() == options@.len());
    let mut best: usize = 0;
    let mut best_score: i128 = candidate_score(input, &options[0], case_sensitive);
    assert(options.deep_view()[0] == options@[0]@);
    let mut j: usize = 1;
    while j < n
        invariant
            n as nat == options@.len(),
            options.deep_view().len() == options@.len(),
            scores == option_scores(input@, options.deep_view(), case_sensitive),
            forall|i: int| 0 <= i < n ==> options.deep_view()[i] == options@[i]@,
            1 <= j <= n,
            (best as int) < j,
            best_score == scores[best as int],
            best as int == first_min_index(scores.take(j as int)),
            forall|i: int| 0 <= i < j ==> best_score <= scores[i],
            forall|i: int| 0 <= i < best as int ==> best_score < scores[i],
        decreases n - j,
    {
        let sc = candidate_score(input, &options[j], case_sensitive);
        assert(options.deep_view()[j as int] == options@[j as int]@);
        assert(sc == scores[j as int]);
        proof {
            assert(scores.take(j as int + 1).drop_last() =~= scores.take(j as int));
            assert(scores.take(j as int + 1).last() == scores[j as int]);
        }
        if sc < best_score {
            best = j;
            best_score = sc;
        }
        j = j + 1;
    }
    proof {
        assert(scores.take(n as int) =~= scores);
    }
    Some(best)
}

/// The scores of the vocabulary against an already upper-cased book token,
/// in vocabulary order.
pub open spec fn book_scores(token_upper: Seq<char>) -> Seq<int> {
    option_scores(
        token_upper,
        book_list().map_values(|b: Book| b.name_spec()),
        CaseSensitivity::CaseInsensitive,
    )
}

/// The book that nearest-match resolution picks for a book token: the first
/// vocabulary entry whose upper-cased name scores least against the
/// upper-cased token.
pub open spec fn resolve_book(token: Seq<char>) -> Book {
    book_list()[first_min_index(book_scores(ascii_upper(token)))]
}

/// Why a reference string was rejected.
#[derive(Debug)]
pub enum ReferenceError {
    /// The input was empty.
    MissingBook,
    /// A chapter was expected but its token was empty.
    MissingChapter,
    /// The book token was empty, so nothing could be resolved.
    UnknownBook,
    /// A chapter or verse token was not a valid bounded number.
    BadFormat(String),
    /// The input matched none of the reference patterns.
    InvalidFormat(String),
}

impl Book {
    /// Resolves a free-form book name to the nearest canonical book;
    /// only an empty input fails.
    pub fn from_str(value: &str) -> (r: Result<Book, ReferenceError>)
        ensures
            value@.len() == 0 ==> r matches Err(ReferenceError::UnknownBook),
            value@.len() > 0 ==> (r matches Ok(b) && b == resolve_book(value@)),
    {
        let up = uppercase(value);
        if up.as_str().unicode_len() == 0 {
            return Err(ReferenceError::UnknownBook);
        }
        let bks = books();
        let mut names: Vec<String> = Vec::new();
        let mut i: usize = 0;
        while i < bks.len()
            invariant
                bks@ == book_list(),
                i <= bks@.len(),
                names@.len() == i,
                forall|j: int| 0 <= j < i ==> names@[j]@ == book_list()[j].name_spec(),
            decreases bks@.len() - i,
        {
            let nm = bks[i].name();
            names.push(nm);
            i = i + 1;
        }
        proof {
            assert(names.deep_view() =~= book_list().map_values(|b: Book| b.name_spec()));
            assert(option_scores(
                up@,
                names.deep_view(),
                CaseSensitivity::CaseInsensitive,
            ) == book_scores(ascii_upper(value@)));
        }
        match find_closest(up.as_str(), &names, CaseSensitivity::CaseInsensitive) {
            Some(idx) => Ok(bks[idx]),
            None => Err(ReferenceError::UnknownBook),
        }
    }
}

pub open spec fn is_digit(c: char) -> bool {
    48 <= c as u32 && c as u32 <= 57
}

pub open spec fn digit_val(c: char) -> int {
    c as u32 - 48
}

pub open spec fn digit_char(d: int) -> char {
    (48 + d) as char
}

pub open spec fn is_ascii_letter(c: char) -> bool {
    (65 <= c as u32 && c as u32 <= 90) || (97 <= c as u32 && c as u32 <= 122)
}

/// End of the run of ASCII letters that starts at `i`.
pub open spec fn letters_end(s: Seq<char>, i: int) -> int
    decreases s.len() - i,
{
    if 0 <= i < s.len() && is_ascii_letter(s[i]) {
        letters_end(s, i + 1)
    } else {
        i
    }
}

/// Where the letters of the book token begin: an optional leading digit,
/// then an optional single space.
pub open spec fn token_start(s: Seq<char>) -> int {
    let k0: int = if s.len() > 0 && is_digit(s[0]) {
        1
    } else {
        0
    };
    if k0 < s.len() && s[k0] == ' ' {
        k0 + 1
    } else {
        k0
    }
}

/// End of the book token: the leading digit and space, if any, followed by
/// at least one ASCII letter.
pub open spec fn book_token_end(s: Seq<char>) -> int {
    letters_end(s, token_start(s))
}

pub open spec fn has_book_token(s: Seq<char>) -> bool {
    book_token_end(s) > token_start(s)
}

/// Index of the first colon at or after `i`, or the length if there is none.
pub open spec fn colon_idx(s: Seq<char>, i: int) -> int
    decreases s.len() - i,
{
    if 0 <= i < s.len() {
        if s[i] == ':' {
            i
        } else {
            colon_idx(s, i + 1)
        }
    } else {
        i
    }
}

pub open spec fn all_digits(s: Seq<char>) -> bool {
    forall|i: int| 0 <= i < s.len() ==> is_digit(s[i])
}

/// The number a digit string denotes.
pub open spec fn dec_value(s: Seq<char>) -> int
    decreases s.len(),
{
    if s.len() == 0 {
        0
    } else {
        10 * dec_value(s.drop_last()) + digit_val(s.last())
    }
}

/// A chapter or verse token: non-empty, all digits, and within bounds.
pub open spec fn valid_u8_token(s: Seq<char>) -> bool {
    s.len() > 0 && all_digits(s) && dec_value(s) <= 255
}

/// The decimal rendering of a number.
pub open spec fn dec_digits(n: int) -> Seq<char>
    decreases n,
{
    if n < 10 {
        seq![digit_char(n)]
    } else {
        dec_digits(n / 10).push(digit_char(n % 10))
    }
}

/// How a parse attempt can fail; the model that the contracts speak of.
pub enum ParseFailure {
    MissingBook,
    MissingChapter,
    BadChapter(Seq<char>),
    BadVerse(Seq<char>),
    Invalid,
}

/// A parsed scripture reference; a verse is only ever present together
/// with a chapter.
#[derive(Clone, Copy, Debug, PartialEq, Eq)]
pub struct Reference {
    pub book: Book,
    pub chapter: Option<u8>,
    pub verse: Option<u8>,
}

/// The whole reference grammar: an optional leading digit and space, a run
/// of letters, then optionally a space and a chapter token, then optionally
/// a colon and a verse token. The book token is resolved best-effort; the
/// number tokens must be valid bounded numbers.
pub open spec fn parse_spec(s: Seq<char>) -> Result<Reference, ParseFailure> {
    if s.len() == 0 {
        Err(ParseFailure::MissingBook)
    } else if !has_book_token(s) {
        Err(ParseFailure::Invalid)
    } else {
        let bt = book_token_end(s);
        let book = resolve_book(s.take(bt));
        if bt == s.len() {
            Ok(Reference { book, chapter: None, verse: None })
        } else if s[bt] != ' ' {
            Err(ParseFailure::Invalid)
        } else {
            let rest = s.skip(bt + 1);
            let ci = colon_idx(rest, 0);
            if ci == rest.len() {
                if rest.len() == 0 {
                    Err(ParseFailure::MissingChapter)
                } else if !valid_u8_token(rest) {
                    Err(ParseFailure::BadChapter(rest))
                } else {
                    Ok(Reference { book, chapter: Some(dec_value(rest) as u8), verse: None })
                }
            } else {
                let chap = rest.take(ci);
                let vers = rest.skip(ci + 1);
                if chap.len() == 0 {
                    Err(ParseFailure::MissingChapter)
                } else if !valid_u8_token(chap) {
                    Err(ParseFailure::BadChapter(chap))
                } else if !valid_u8_token(vers) {
                    Err(ParseFailure::BadVerse(vers))
                } else {
                    Ok(
                        Reference {
                            book,
                            chapter: Some(dec_value(chap) as u8),
                            verse: Some(dec_value(vers) as u8),
                        },
                    )
                }
            }
        }
    }
}

pub open spec fn bad_chapter_detail(tok: Seq<char>) -> Seq<char> {
    "not a valid chapter number: "@ + tok
}

pub open spec fn bad_verse_detail(tok: Seq<char>) -> Seq<char> {
    "not a valid verse number: "@ + tok
}

pub open spec fn invalid_detail() -> Seq<char> {
    "Failed to parse reference"@
}

fn is_digit_exec(c: char) -> (r: bool)
    ensures
        r == is_digit(c),
{
    let u = c as u32;
    48 <= u && u <= 57
}

fn is_letter_exec(c: char) -> (r: bool)
    ensures
        r == is_ascii_letter(c),
{
    let u = c as u32;
    (65 <= u && u <= 90) || (97 <= u && u <= 122)
}

fn letters_end_exec(s: &str, from: usize) -> (e: usize)
    requires
        from as int <= s@.len(),
    ensures
        e as int == letters_end(s@, from as int),
        from <= e,
        e as int <= s@.len(),
{
    let len = s.unicode_len();
    let mut e = from;
    loop
        invariant
            len as nat == s@.len(),
            from <= e <= len,
            letters_end(s@, from as int) == letters_end(s@, e as int),
        ensures
            e as int == letters_end(s@, from as int),
        decreases len - e,
    {
        if e >= len {
            break ;
        }
        let c = s.get_char(e);
        if !is_letter_exec(c) {
            break ;
        }
        e = e + 1;
    }
    e
}

fn colon_pos_exec(s: &str) -> (p: usize)
    ensures
        p as int == colon_idx(s@, 0),
        p as int <= s@.len(),
{
    let len = s.unicode_len();
    let mut i: usize = 0;
    loop
        invariant
            len as nat == s@.len(),
            i <= len,
            colon_idx(s@, 0) == colon_idx(s@, i as int),
        ensures
            i as int == colon_idx(s@, 0),
        decreases len - i,
    {
        if i >= len {
            break ;
        }
        if s.get_char(i) == ':' {
            break ;
        }
        i = i + 1;
    }
    i
}

fn parse_u8(tok: &str) -> (r: Option<u8>)
    ensures
        r is Some <==> valid_u8_token(tok@),
        r matches Some(v) ==> v as int == dec_value(tok@),
{
    let n = tok.unicode_len();
    if n == 0 {
        return None;
    }
    let mut acc: u32 = 0;
    let mut over = false;
    let mut i: usize = 0;
    while i < n
        invariant
            n as nat == tok@.len(),
            i <= n,
            all_digits(tok@.take(i as int)),
            !over ==> acc as int == dec_value(tok@.take(i as int)) && acc <= 255,
            over ==> dec_value(tok@.take(i as int)) > 255,
        decreases n - i,
    {
        let c = tok.get_char(i);
        let u = c as u32;
        if u < 48 || u > 57 {
            proof {
                assert(!is_digit(tok@[i as int]));
                assert(!all_digits(tok@));
            }
            return None;
        }
        let d = u - 48;
        proof {
            assert(tok@.take(i as int + 1).drop_last() =~= tok@.take(i as int));
            assert(tok@.take(i as int + 1).last() == tok@[i as int]);
            assert(all_digits(tok@.take(i as int + 1)));
        }
        if !over {
            let next = acc * 10 + d;
            if next > 255 {
                over = true;
            } else {
                acc = next;
            }
        }
        i = i + 1;
    }
    proof {
        assert(tok@.take(n as int) =~= tok@);
    }
    if over {
        None
    } else {
        Some(acc as u8)
    }
}

impl Reference {
    /// A verse never stands without a chapter.
    pub open spec fn wf(self) -> bool {
        self.verse is Some ==> self.chapter is Some
    }

    /// The rendered text of this reference: the book name, then the
    /// chapter, then a colon and the verse, as far as they are present.
    pub open spec fn display_spec(self) -> Seq<char> {
        match (self.chapter, self.verse) {
            (None, None) => self.book.name_spec(),
            (Some(c), None) => self.book.name_spec() + seq![' '] + dec_digits(c as int),
            (Some(c), Some(v)) => self.book.name_spec() + seq![' '] + dec_digits(c as int)
                + seq![':'] + dec_digits(v as int),
            (None, Some(_)) => Seq::<char>::empty(),
        }
    }

    /// Renders the reference as text.
    pub fn display_string(&self) -> (r: String)
        requires
            self.wf(),
        ensures
            r@ == self.display_spec(),
    {
        let mut r = self.book.name();
        match (self.chapter, self.verse) {
            (None, None) => {},
            (Some(c), None) => {
                push_char(&mut r, ' ');
                let cs = u8_to_string(c);
                r.append(cs.as_str());
                proof {
                    assert(self.book.name_spec().push(' ') + dec_digits(c as int)
                        =~= self.display_spec());
                }
            },
            (Some(c), Some(v)) => {
                push_char(&mut r, ' ');
                let cs = u8_to_string(c);
                r.append(cs.as_str());
                push_char(&mut r, ':');
                let vs = u8_to_string(v);
                r.append(vs.as_str());
                proof {
                    assert((self.book.name_spec().push(' ') + dec_digits(c as int)).push(':')
                        + dec_digits(v as int) =~= self.display_spec());
                }
            },
            (None, Some(_)) => {},
        }
        r
    }

    /// Parses a free-form reference string: a fuzzily-spelled book, then an
    /// optional chapter and an optional verse.
    pub fn from_str(value: &str) -> (r: Result<Reference, ReferenceError>)
        ensures
            r is Ok <==> parse_spec(value@) is Ok,
            r matches Ok(x) ==> parse_spec(value@) == Ok::<Reference, ParseFailure>(x) && x.wf(),
            parse_spec(value@) == Err::<Reference, ParseFailure>(ParseFailure::MissingBook)
                ==> r matches Err(ReferenceError::MissingBook),
            parse_spec(value@) == Err::<Reference, ParseFailure>(ParseFailure::MissingChapter)
                ==> r matches Err(ReferenceError::MissingChapter),
            parse_spec(value@) matches Err(ParseFailure::BadChapter(t)) ==> (r matches Err(
                ReferenceError::BadFormat(d),
            ) && d@ == bad_chapter_detail(t)),
            parse_spec(value@) matches Err(ParseFailure::BadVerse(t)) ==> (r matches Err(
                ReferenceError::BadFormat(d),
            ) && d@ == bad_verse_detail(t)),
            parse_spec(value@) == Err::<Reference, ParseFailure>(ParseFailure::Invalid)
                ==> (r matches Err(ReferenceError::InvalidFormat(d)) && d@ == invalid_detail()),
    {
        let len = value.unicode_len();
        if len == 0 {
            return Err(ReferenceError::MissingBook);
        }
        let c0 = value.get_char(0);
        let k0: usize = if is_digit_exec(c0) {
            1
        } else {
            0
        };
        let k1: usize = if k0 < len && value.get_char(k0) == ' ' {
            k0 + 1
        } else {
            k0
        };
        assert(k1 as int == token_start(value@));
        let e = letters_end_exec(value, k1);
        if e == k1 {
            return Err(ReferenceError::InvalidFormat(String::from_str("Failed to parse reference")));
        }
        let book_tok = value.substring_char(0, e);
        proof {
            assert(book_tok@ =~= value@.take(e as int));
        }
        let book = match Book::from_str(book_tok) {
            Ok(b) => b,
            Err(_) => {
                return Err(ReferenceError::UnknownBook);
            },
        };
        if e == len {
            return Ok(Reference { book, chapter: None, verse: None });
        }
        if value.get_char(e) != ' ' {
            return Err(ReferenceError::InvalidFormat(String::from_str("Failed to parse reference")));
        }
        let rest = value.substring_char(e + 1, len);
        proof {
            assert(rest@ =~= value@.skip(e as int + 1));
        }
        let rlen = rest.unicode_len();
        let ci = colon_pos_exec(rest);
        if ci == rlen {
            if rlen == 0 {
                return Err(ReferenceError::MissingChapter);
            }
            match parse_u8(rest) {
                Some(c) => Ok(Reference { book, chapter: Some(c), verse: None }),
                None => {
                    let mut d = String::from_str("not a valid chapter number: ");
                    d.append(rest);
                    Err(ReferenceError::BadFormat(d))
                },
            }
        } else {
            if ci == 0 {
                return Err(ReferenceError::MissingChapter);
            }
            let chap = rest.substring_char(0, ci);
            let vers = rest.substring_char(ci + 1, rlen);
            proof {
                assert(chap@ =~= rest@.take(ci as int));
                assert(vers@ =~= rest@.skip(ci as int + 1));
            }
            match parse_u8(chap) {
                None => {
                    let mut d = String::from_str("not a valid chapter number: ");
                    d.append(chap);
                    Err(ReferenceError::BadFormat(d))
                },
                Some(c) => {
                    match parse_u8(vers) {
                        None => {
                            let mut d = String::from_str("not a valid verse number: ");
                            d.append(vers);
                            Err(ReferenceError::BadFormat(d))
                        },
                        Some(v) => Ok(Reference { book, chapter: Some(c), verse: Some(v) }),
                    }
                },
            }
        }
    }
}

proof fn lemma_first_min_in_range(scores: Seq<int>)
    requires
        scores.len() > 0,
    ensures
        0 <= first_min_index(scores) < scores.len(),
    decreases scores.len(),
{
    if scores.len() > 1 {
        lemma_first_min_in_range(scores.drop_last());
    }
}

proof fn lemma_first_min_unique(scores: Seq<int>, i: int)
    requires
        0 <= i < scores.len(),
        forall|j: int| 0 <= j < scores.len() && j != i ==> scores[j] > scores[i],
    ensures
        first_min_index(scores) == i,
    decreases scores.len(),
{
    if scores.len() <= 1 {
    } else {
        let d = scores.drop_last();
        if i == scores.len() - 1 {
            lemma_first_min_in_range(d);
            let t = first_min_index(d);
            assert(d[t] == scores[t]);
            assert(scores.last() == scores[i]);
        } else {
            assert forall|j: int| 0 <= j < d.len() && j != i implies d[j] > d[i] by {
                assert(d[j] == scores[j]);
                assert(d[i] == scores[i]);
            }
            lemma_first_min_unique(d, i);
            assert(scores.last() == scores[scores.len() - 1]);
            assert(d[i] == scores[i]);
        }
    }
}

/// The upper-cased canonical name at a vocabulary index.
spec fn uname(i: int) -> Seq<char> {
    ascii_upper(book_list()[i].name_spec())
}

spec fn differs2(s: Seq<char>, t: Seq<char>) -> bool {
    s.len() != t.len() || (s.len() >= 2 && (s[0] != t[0] || s[1] != t[1]))
}

proof fn lemma_differs2(s: Seq<char>, t: Seq<char>)
    requires
        differs2(s, t),
    ensures
        s != t,
{
    if s == t {
        assert(s.len() == t.len());
        if s.len() >= 2 {
            assert(s[0] == t[0]);
            assert(s[1] == t[1]);
        }
    }
}

spec fn distinct_from(i: int, j: int) -> bool
    decreases 16 - j,
{
    if j >= 16 {
        true
    } else {
        (j == i || differs2(uname(i), uname(j))) && distinct_from(i, j + 1)
    }
}

spec fn all_pairs(k: int) -> bool
    decreases 16 - k,
{
    if k >= 16 {
        true
    } else {
        distinct_from(k, 0) && all_pairs(k + 1)
    }
}

proof fn lemma_distinct_from_unfold(i: int, j: int, k: int)
    requires
        distinct_from(i, j),
        j <= k < 16,
    ensures
        k == i || differs2(uname(i), uname(k)),
    decreases k - j,
{
    if j < k {
        lemma_distinct_from_unfold(i, j + 1, k);
    }
}

proof fn lemma_all_pairs_unfold(k: int, i: int)
    requires
        all_pairs(k),
        k <= i < 16,
    ensures
        distinct_from(i, 0),
    decreases i - k,
{
    if k < i {
        lemma_all_pairs_unfold(k + 1, i);
    }
}

proof fn lemma_all_pairs()
    ensures
        all_pairs(0),
{
    reveal_strlit("Genesis");
    reveal_strlit("Exodus");
    reveal_strlit("Leviticus");
    reveal_strlit("Numbers");
    reveal_strlit("Deuteronomy");
    reveal_strlit("Joshua");
    reveal_strlit("Judges");
    reveal_strlit("Ruth");
    reveal_strlit("1Samuel");
    reveal_strlit("2Samuel");
    reveal_strlit("1Kings");
    reveal_strlit("2Kings");
    reveal_strlit("Matthew");
    reveal_strlit("Mark");
    reveal_strlit("Luke");
    reveal_strlit("John");
    assert(uname(0).len() == 7 && uname(0)[0] == 'G' && uname(0)[1] == 'E');
    assert(uname(1).len() == 6 && uname(1)[0] == 'E' && uname(1)[1] == 'X');
    assert(uname(2).len() == 9 && uname(2)[0] == 'L' && uname(2)[1] == 'E');
    assert(uname(3).len() == 7 && uname(3)[0] == 'N' && uname(3)[1] == 'U');
    assert(uname(4).len() == 11 && uname(4)[0] == 'D' && uname(4)[1] == 'E');
    assert(uname(5).len() == 6 && uname(5)[0] == 'J' && uname(5)[1] == 'O');
    assert(uname(6).len() == 6 && uname(6)[0] == 'J' && uname(6)[1] == 'U');
    assert(uname(7).len() == 4 && uname(7)[0] == 'R' && uname(7)[1] == 'U');
    assert(uname(8).len() == 7 && uname(8)[0] == '1' && uname(8)[1] == 'S');
    assert(uname(9).len() == 7 && uname(9)[0] == '2' && uname(9)[1] == 'S');
    assert(uname(10).len() == 6 && uname(10)[0] == '1' && uname(10)[1] == 'K');
    assert(uname(11).len() == 6 && uname(11)[0] == '2' && uname(11)[1] == 'K');
    assert(uname(12).len() == 7 && uname(12)[0] == 'M' && uname(12)[1] == 'A');
    assert(uname(13).len() == 4 && uname(13)[0] == 'M' && uname(13)[1] == 'A');
    assert(uname(14).len() == 4 && uname(14)[0] == 'L' && uname(14)[1] == 'U');
    assert(uname(15).len() == 4 && uname(15)[0] == 'J' && uname(15)[1] == 'O');
    reveal_with_fuel(distinct_from, 18);
    assert(distinct_from(0, 0));
    assert(distinct_from(1, 0));
    assert(distinct_from(2, 0));
    assert(distinct_from(3, 0));
    assert(distinct_from(4, 0));
    assert(distinct_from(5, 0));
    assert(distinct_from(6, 0));
    assert(distinct_from(7, 0));
    assert(distinct_from(8, 0));
    assert(distinct_from(9, 0));
    assert(distinct_from(10, 0));
    assert(distinct_from(11, 0));
    assert(distinct_from(12, 0));
    assert(distinct_from(13, 0));
    assert(distinct_from(14, 0));
    assert(distinct_from(15, 0));
    reveal_with_fuel(all_pairs, 18);
    assert(all_pairs(0));
}

proof fn lemma_resolve_canonical_idx(ib: int)
    requires
        0 <= ib < 16,
    ensures
        resolve_book(book_list()[ib].name_spec()) == book_list()[ib],
{
    let token = book_list()[ib].name_spec();
    let scores = book_scores(ascii_upper(token));
    assert(book_list().map_values(|b: Book| b.name_spec()).len() == 16);
    assert(scores.len() == 16);
    assert forall|j: int| 0 <= j < 16 implies scores[j] == score10(
        uname(ib),
        uname(j),
        LEN_WEIGHT_TENTHS as int,
    ) by {
        assert(book_list().map_values(|b: Book| b.name_spec())[j] == book_list()[j].name_spec());
    }
    crate::edit_distance::lemma_score_self_zero(uname(ib), LEN_WEIGHT_TENTHS as int);
    assert(scores[ib] == 0);
    lemma_all_pairs();
    lemma_all_pairs_unfold(0, ib);
    assert forall|j: int| 0 <= j < 16 && j != ib implies scores[j] > scores[ib] by {
        lemma_distinct_from_unfold(ib, 0, j);
        lemma_differs2(uname(ib), uname(j));
        crate::edit_distance::lemma_score_positive(uname(ib), uname(j));
    }
    lemma_first_min_unique(scores, ib);
}

/// Resolution is exact on the vocabulary itself: every canonical name
/// resolves to its own book.
pub proof fn lemma_resolve_canonical(b: Book)
    ensures
        resolve_book(b.name_spec()) == b,
{
    match b {
        Book::Genesis => {
            assert(book_list()[0] == Book::Genesis);
            lemma_resolve_canonical_idx(0);
        },
        Book::Exodus => {
            assert(book_list()[1] == Book::Exodus);
            lemma_resolve_canonical_idx(1);
        },
        Book::Leviticus => {
            assert(book_list()[2] == Book::Leviticus);
            lemma_resolve_canonical_idx(2);
        },
        Book::Numbers => {
            assert(book_list()[3] == Book::Numbers);
            lemma_resolve_canonical_idx(3);
        },
        Book::Deuteronomy => {
            assert(book_list()[4] == Book::Deuteronomy);
            lemma_resolve_canonical_idx(4);
        },
        Book::Joshua => {
            assert(book_list()[5] == Book::Joshua);
            lemma_resolve_canonical_idx(5);
        },
        Book::Judges => {
            assert(book_list()[6] == Book::Judges);
            lemma_resolve_canonical_idx(6);
        },
        Book::Ruth => {
            assert(book_list()[7] == Book::Ruth);
            lemma_resolve_canonical_idx(7);
        },
        Book::Samuel1 => {
            assert(book_list()[8] == Book::Samuel1);
            lemma_resolve_canonical_idx(8);
        },
        Book::Samuel2 => {
            assert(book_list()[9] == Book::Samuel2);
            lemma_resolve_canonical_idx(9);
        },
        Book::Kings1 => {
            assert(book_list()[10] == Book::Kings1);
            lemma_resolve_canonical_idx(10);
        },
        Book::Kings2 => {
            assert(book_list()[11] == Book::Kings2);
            lemma_resolve_canonical_idx(11);
        },
        Book::Matthew => {
            assert(book_list()[12] == Book::Matthew);
            lemma_resolve_canonical_idx(12);
        },
        Book::Mark => {
            assert(book_list()[13] == Book::Mark);
            lemma_resolve_canonical_idx(13);
        },
        Book::Luke => {
            assert(book_list()[14] == Book::Luke);
            lemma_resolve_canonical_idx(14);
        },
        Book::John => {
            assert(book_list()[15] == Book::John);
            lemma_resolve_canonical_idx(15);
        },
    }
}

proof fn lemma_digit_char_val(d: int)
    requires
        0 <= d <= 9,
    ensures
        digit_char(d) as u32 == 48 + d,
        is_digit(digit_char(d)),
        digit_val(digit_char(d)) == d,
{
    assert(digit_char(d) as u32 == 48 + d);
}

proof fn lemma_dec_digits_props(n: int)
    requires
        0 <= n,
    ensures
        dec_digits(n).len() >= 1,
        all_digits(dec_digits(n)),
        dec_value(dec_digits(n)) == n,
    decreases n,
{
    if n < 10 {
        lemma_digit_char_val(n);
        assert(dec_digits(n).len() == 1);
        assert(dec_digits(n).last() == digit_char(n));
        assert(dec_digits(n).drop_last() =~= Seq::<char>::empty());
        assert(dec_value(Seq::<char>::empty()) == 0);
        assert(dec_value(dec_digits(n)) == 10 * dec_value(dec_digits(n).drop_last()) + digit_val(dec_digits(n).last()));
    } else {
        lemma_dec_digits_props(n / 10);
        lemma_digit_char_val(n % 10);
        let s = dec_digits(n / 10);
        let c = digit_char(n % 10);
        assert(s.push(c).drop_last() =~= s);
        assert(s.push(c).last() == c);
        assert(is_digit(c));
        assert forall|i: int| 0 <= i < s.push(c).len() implies is_digit(s.push(c)[i]) by {
            if i < s.len() {
                assert(s.push(c)[i] == s[i]);
            } else {
                assert(s.push(c)[i] == c);
            }
        }
        vstd::arithmetic::div_mod::lemma_fundamental_div_mod(n, 10);
    }
}

proof fn lemma_digit_not_special(c: char)
    requires
        is_digit(c),
    ensures
        c != ':',
        c != ' ',
        !is_ascii_letter(c),
{
    assert(':' as u32 == 58);
}

proof fn lemma_letters_end_run(s: Seq<char>, i: int, j: int)
    requires
        0 <= i <= j <= s.len(),
        forall|k: int| i <= k < j ==> is_ascii_letter(s[k]),
        j == s.len() || !is_ascii_letter(s[j]),
    ensures
        letters_end(s, i) == j,
    decreases j - i,
{
    if i < j {
        lemma_letters_end_run(s, i + 1, j);
    }
}

proof fn lemma_colon_run(s: Seq<char>, i: int, j: int)
    requires
        0 <= i <= j <= s.len(),
        forall|k: int| i <= k < j ==> s[k] != ':',
        j == s.len() || s[j] == ':',
    ensures
        colon_idx(s, i) == j,
    decreases j - i,
{
    if i < j {
        lemma_colon_run(s, i + 1, j);
    }
}

spec fn all_letters_in(s: Seq<char>, i: int, j: int) -> bool
    decreases j - i,
{
    if i >= j {
        true
    } else {
        is_ascii_letter(s[i]) && all_letters_in(s, i + 1, j)
    }
}

proof fn lemma_all_letters_in(s: Seq<char>, i: int, j: int, k: int)
    requires
        all_letters_in(s, i, j),
        i <= k < j,
    ensures
        is_ascii_letter(s[k]),
    decreases k - i,
{
    if i < k {
        lemma_all_letters_in(s, i + 1, j, k);
    }
}

spec fn name_letters_start(s: Seq<char>) -> int {
    if s.len() > 0 && is_digit(s[0]) {
        1
    } else {
        0
    }
}

proof fn lemma_name_shape(b: Book)
    ensures
        b.name_spec().len() >= 4,
        name_letters_start(b.name_spec()) < b.name_spec().len(),
        all_letters_in(b.name_spec(), name_letters_start(b.name_spec()), b.name_spec().len() as int),
{
    reveal_with_fuel(all_letters_in, 13);
    match b {
        Book::Genesis => {
            reveal_strlit("Genesis");
            assert(all_letters_in("Genesis"@, 0, 7));
        },
        Book::Exodus => {
            reveal_strlit("Exodus");
            assert(all_letters_in("Exodus"@, 0, 6));
        },
        Book::Leviticus => {
            reveal_strlit("Leviticus");
            assert(all_letters_in("Leviticus"@, 0, 9));
        },
        Book::Numbers => {
            reveal_strlit("Numbers");
            assert(all_letters_in("Numbers"@, 0, 7));
        },
        Book::Deuteronomy => {
            reveal_strlit("Deuteronomy");
            assert(all_letters_in("Deuteronomy"@, 0, 11));
        },
        Book::Joshua => {
            reveal_strlit("Joshua");
            assert(all_letters_in("Joshua"@, 0, 6));
        },
        Book::Judges => {
            reveal_strlit("Judges");
            assert(all_letters_in("Judges"@, 0, 6));
        },
        Book::Ruth => {
            reveal_strlit("Ruth");
            assert(all_letters_in("Ruth"@, 0, 4));
        },
        Book::Samuel1 => {
            reveal_strlit("1Samuel");
            assert(all_letters_in("1Samuel"@, 1, 7));
        },
        Book::Samuel2 => {
            reveal_strlit("2Samuel");
            assert(all_letters_in("2Samuel"@, 1, 7));
        },
        Book::Kings1 => {
            reveal_strlit("1Kings");
            assert(all_letters_in("1Kings"@, 1, 6));
        },
        Book::Kings2 => {
            reveal_strlit("2Kings");
            assert(all_letters_in("2Kings"@, 1, 6));
        },
        Book::Matthew => {
            reveal_strlit("Matthew");
            assert(all_letters_in("Matthew"@, 0, 7));
        },
        Book::Mark => {
            reveal_strlit("Mark");
            assert(all_letters_in("Mark"@, 0, 4));
        },
        Book::Luke => {
            reveal_strlit("Luke");
            assert(all_letters_in("Luke"@, 0, 4));
        },
        Book::John => {
            reveal_strlit("John");
            assert(all_letters_in("John"@, 0, 4));
        },
    }
}

proof fn lemma_letter_not_space(c: char)
    requires
        is_ascii_letter(c),
    ensures
        c != ' ',
{
    assert(' ' as u32 == 32);
}

/// Rendering a well-formed reference and parsing the text back yields the
/// same reference: the reference grammar inverts the renderer, and the
/// resolver maps each canonical name to its own book.
pub proof fn lemma_display_parse_round_trip(r: Reference)
    requires
        r.wf(),
    ensures
        parse_spec(r.display_spec()) == Ok::<Reference, ParseFailure>(r),
{
    let name = r.book.name_spec();
    lemma_name_shape(r.book);
    lemma_resolve_canonical(r.book);
    let st = name_letters_start(name);
    let nlen = name.len() as int;
    let s = r.display_spec();
    assert(' ' as u32 == 32);
    match (r.chapter, r.verse) {
        (None, None) => {
            assert(s == name);
            assert(token_start(s) == st) by {
                if st < nlen {
                    lemma_all_letters_in(name, st, nlen, st);
                    lemma_letter_not_space(s[st]);
                }
            }
            assert forall|k: int| st <= k < nlen implies is_ascii_letter(s[k]) by {
                lemma_all_letters_in(name, st, nlen, k);
            }
            lemma_letters_end_run(s, st, nlen);
            assert(book_token_end(s) == nlen);
            assert(has_book_token(s));
            assert(s.take(nlen) =~= name);
        },
        (Some(c), None) => {
            let dc = dec_digits(c as int);
            lemma_dec_digits_props(c as int);
            assert(s == name + seq![' '] + dc);
            assert(s.len() == nlen + 1 + dc.len());
            assert forall|k: int| 0 <= k < nlen implies s[k] == name[k] by {
                assert((name + seq![' '])[k] == name[k]);
            }
            assert(s[nlen] == ' ') by {
                assert((name + seq![' '])[nlen] == seq![' '][0]);
            }
            assert(token_start(s) == st) by {
                lemma_all_letters_in(name, st, nlen, st);
                lemma_letter_not_space(name[st]);
            }
            assert forall|k: int| st <= k < nlen implies is_ascii_letter(s[k]) by {
                lemma_all_letters_in(name, st, nlen, k);
            }
            lemma_letters_end_run(s, st, nlen);
            assert(book_token_end(s) == nlen);
            assert(has_book_token(s));
            assert(s.take(nlen) =~= name);
            let rest = s.skip(nlen + 1);
            assert(rest =~= dc);
            assert forall|k: int| 0 <= k < rest.len() implies rest[k] != ':' by {
                lemma_digit_not_special(rest[k]);
            }
            lemma_colon_run(rest, 0, rest.len() as int);
            assert(valid_u8_token(rest));
            assert(dec_value(rest) as u8 == c);
        },
        (Some(c), Some(v)) => {
            let dc = dec_digits(c as int);
            let dv = dec_digits(v as int);
            lemma_dec_digits_props(c as int);
            lemma_dec_digits_props(v as int);
            assert(s == name + seq![' '] + dc + seq![':'] + dv);
            assert(s.len() == nlen + 1 + dc.len() + 1 + dv.len());
            assert forall|k: int| 0 <= k < nlen implies s[k] == name[k] by {
                assert((name + seq![' '])[k] == name[k]);
                assert((name + seq![' '] + dc)[k] == (name + seq![' '])[k]);
                assert((name + seq![' '] + dc + seq![':'])[k] == (name + seq![' '] + dc)[k]);
            }
            assert(s[nlen] == ' ') by {
                assert((name + seq![' '])[nlen] == seq![' '][0]);
                assert((name + seq![' '] + dc)[nlen] == (name + seq![' '])[nlen]);
                assert((name + seq![' '] + dc + seq![':'])[nlen] == (name + seq![' '] + dc)[nlen]);
            }
            assert(token_start(s) == st) by {
                lemma_all_letters_in(name, st, nlen, st);
                lemma_letter_not_space(name[st]);
            }
            assert forall|k: int| st <= k < nlen implies is_ascii_letter(s[k]) by {
                lemma_all_letters_in(name, st, nlen, k);
            }
            lemma_letters_end_run(s, st, nlen);
            assert(book_token_end(s) == nlen);
            assert(has_book_token(s));
            assert(s.take(nlen) =~= name);
            let rest = s.skip(nlen + 1);
            assert(rest =~= dc + seq![':'] + dv);
            let cl = dc.len() as int;
            assert forall|k: int| 0 <= k < cl implies rest[k] != ':' by {
                assert((dc + seq![':'])[k] == dc[k]);
                assert((dc + seq![':'] + dv)[k] == (dc + seq![':'])[k]);
                lemma_digit_not_special(dc[k]);
            }
            assert(rest[cl] == ':') by {
                assert((dc + seq![':'])[cl] == seq![':'][0]);
                assert((dc + seq![':'] + dv)[cl] == (dc + seq![':'])[cl]);
            }
            lemma_colon_run(rest, 0, cl);
            assert(rest.take(cl) =~= dc);
            assert(rest.skip(cl + 1) =~= dv);
            assert(valid_u8_token(dc));
            assert(valid_u8_token(dv));
            assert(dec_value(dc) as u8 == c);
            assert(dec_value(dv) as u8 == v);
        },
        (None, Some(_)) => {
        },
    }
}

fn u8_to_string(n: u8) -> (r: String)
    ensures
        r@ == dec_digits(n as int),
    decreases n,
{
    if n < 10 {
        let mut r = String::new();
        push_char(&mut r, ((48 + n as u32) as u8) as char);
        proof {
            assert(Seq::<char>::empty().push(digit_char(n as int)) =~= dec_digits(n as int));
        }
        r
    } else {
        let mut r = u8_to_string(n / 10);
        push_char(&mut r, ((48 + (n % 10) as u32) as u8) as char);
        r
    }
}

} // verus!
