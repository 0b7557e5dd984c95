//! Pure account metadata, selection and report values.

use vstd::prelude::*;

use crate::identifier::Identifier;
use crate::resolve::Source;
use crate::error::owned as owned_text;
use crate::doc::{entry, entry_value, Doc};
use crate::text::{chars_of, same_text, decimal, digit_char, zero_padded};
use crate::calendar::{civil, law_civil_date_exists, rfc3339_text, signed_padded};

verus! {

/// Authentication modes recognized in durable metadata.
#[derive(Clone, Copy, Debug, PartialEq, Eq, Structural)]
pub enum AuthMode {
    Login,
    Token,
}

impl AuthMode {
    /// Returns the spelling metadata and reports use.
    pub fn spelling(self) -> (r: &'static str)
        ensures
            r@ == (match self {
                AuthMode::Login => "login"@,
                AuthMode::Token => "token"@,
            }),
    {
        match self {
            AuthMode::Login => "login",
            AuthMode::Token => "token",
        }
    }
}

/// Whether a character is an ASCII digit.
pub open spec fn is_ascii_digit(c: char) -> bool {
    '0' <= c && c <= '9'
}

/// The value of two or four ASCII digits at `at`.
pub open spec fn digits_at(t: Seq<char>, at: int, n: int) -> int
    decreases n,
{
    if n <= 0 {
        0
    } else {
        digits_at(t, at, n - 1) * 10 + (t[at + n - 1] as int - '0' as int)
    }
}

/// Whether a year is a leap year.
pub open spec fn leap_year(year: int) -> bool {
    year % 4 == 0 && (year % 100 != 0 || year % 400 == 0)
}

/// The days a month has in a year, or zero for a month that does not exist.
pub open spec fn month_days(year: int, month: int) -> int {
    if month == 1 || month == 3 || month == 5 || month == 7 || month == 8 || month == 10 || month == 12 {
        31
    } else if month == 4 || month == 6 || month == 9 || month == 11 {
        30
    } else if month == 2 {
        if leap_year(year) { 29 } else { 28 }
    } else {
        0
    }
}

/// Whether a text has the shape `YYYY-MM-DDTHH:MM:SSZ`, digits everywhere else.
pub open spec fn rfc3339_shape(t: Seq<char>) -> bool {
    &&& t.len() == 20
    &&& t[4] == '-' && t[7] == '-' && t[10] == 'T' && t[13] == ':' && t[16] == ':' && t[19] == 'Z'
    &&& forall|i: int| 0 <= i < 20 && i != 4 && i != 7 && i != 10 && i != 13 && i != 16 && i != 19
        ==> is_ascii_digit(#[trigger] t[i])
}

/// Whether a well-shaped timestamp names a real instant.
pub open spec fn components_in_range(t: Seq<char>) -> bool {
    let year = digits_at(t, 0, 4);
    let month = digits_at(t, 5, 2);
    let day = digits_at(t, 8, 2);
    &&& day != 0
    &&& day <= month_days(year, month)
    &&& digits_at(t, 11, 2) <= 23
    &&& digits_at(t, 14, 2) <= 59
    &&& digits_at(t, 17, 2) <= 59
}

/// What reading a recorded timestamp gives: the text itself, or why it is refused.
pub open spec fn recorded_at_spec(t: Seq<char>) -> Result<Seq<char>, Seq<char>> {
    if !rfc3339_shape(t) {
        Err("recorded_at must be RFC 3339 UTC seconds"@)
    } else if !components_in_range(t) {
        Err("recorded_at contains an out-of-range component"@)
    } else {
        Ok(t)
    }
}

/// A digit character's value.
proof fn lemma_digit_char(k: int)
    requires
        0 <= k < 10,
    ensures
        is_ascii_digit(digit_char(k)),
        digit_char(k) as int - '0' as int == k,
{
}

/// A number below one hundred, two characters wide.
proof fn lemma_two_digits(v: int)
    requires
        0 <= v < 100,
    ensures
        zero_padded(decimal(v as nat), 2) == seq![digit_char(v / 10), digit_char(v % 10)],
{
    reveal_with_fuel(decimal, 2);
    let n = v as nat;
    if v < 10 {
        assert(decimal(n) == seq![digit_char(v)]);
    } else {
        assert(n / 10 < 10);
        assert(decimal(n / 10) == seq![digit_char(v / 10)]);
        assert(decimal(n) =~= seq![digit_char(v / 10), digit_char(v % 10)]);
    }
    assert(zero_padded(decimal(n), 2) =~= seq![digit_char(v / 10), digit_char(v % 10)]);
}

/// A number below ten thousand, four characters wide.
proof fn lemma_four_digits(v: int)
    requires
        0 <= v < 10000,
    ensures
        zero_padded(decimal(v as nat), 4) == seq![
            digit_char(v / 1000),
            digit_char(v / 100 % 10),
            digit_char(v / 10 % 10),
            digit_char(v % 10),
        ],
{
    reveal_with_fuel(decimal, 4);
    let n = v as nat;
    assert(n / 10 / 10 == v / 100);
    assert(n / 10 / 10 / 10 == v / 1000);
    assert((n / 10) % 10 == v / 10 % 10);
    assert((n / 10 / 10) % 10 == v / 100 % 10);
    if v < 10 {
        assert(decimal(n) == seq![digit_char(v)]);
    } else if v < 100 {
        assert(decimal(n / 10) == seq![digit_char(v / 10)]);
        assert(decimal(n) =~= seq![digit_char(v / 10), digit_char(v % 10)]);
    } else if v < 1000 {
        assert(decimal(n / 10 / 10) == seq![digit_char(v / 100)]);
        assert(decimal(n / 10) =~= seq![digit_char(v / 100), digit_char(v / 10 % 10)]);
        assert(decimal(n) =~= seq![digit_char(v / 100), digit_char(v / 10 % 10), digit_char(v % 10)]);
    } else {
        assert(decimal(n / 10 / 10 / 10) == seq![digit_char(v / 1000)]);
        assert(decimal(n / 10 / 10) =~= seq![digit_char(v / 1000), digit_char(v / 100 % 10)]);
        assert(decimal(n / 10) =~= seq![digit_char(v / 1000), digit_char(v / 100 % 10), digit_char(v / 10 % 10)]);
        assert(decimal(n) =~= seq![
            digit_char(v / 1000),
            digit_char(v / 100 % 10),
            digit_char(v / 10 % 10),
            digit_char(v % 10),
        ]);
    }
    assert(zero_padded(decimal(n), 4) =~= seq![
        digit_char(v / 1000),
        digit_char(v / 100 % 10),
        digit_char(v / 10 % 10),
        digit_char(v % 10),
    ]);
}

/// The text of every instant from the epoch through the last second of the
/// year 9999 reads back as a recorded timestamp, unchanged.
pub proof fn law_recorded_instants_read_back(seconds: u64)
    requires
        seconds < 253402300800,
    ensures
        recorded_at_spec(rfc3339_text(seconds)) == Ok::<Seq<char>, Seq<char>>(rfc3339_text(seconds)),
{
    let s = (seconds as i64) as int;
    assert(s == seconds as int);
    let days = s / 86400;
    let ds = s % 86400;
    law_civil_date_exists(days);
    let date = civil(days);
    let y = date.0;
    let mo = date.1;
    let d = date.2;
    let h = ds / 3600;
    let mi = ds / 60 % 60;
    let se = ds % 60;
    assert(0 <= h < 24);
    lemma_four_digits(y);
    lemma_two_digits(mo);
    lemma_two_digits(d);
    lemma_two_digits(h);
    lemma_two_digits(mi);
    lemma_two_digits(se);
    let t = rfc3339_text(seconds);
    assert(signed_padded(y, 4) == zero_padded(decimal(y as nat), 4));
    let e = seq![
        digit_char(y / 1000),
        digit_char(y / 100 % 10),
        digit_char(y / 10 % 10),
        digit_char(y % 10),
        '-',
        digit_char(mo / 10),
        digit_char(mo % 10),
        '-',
        digit_char(d / 10),
        digit_char(d % 10),
        'T',
        digit_char(h / 10),
        digit_char(h % 10),
        ':',
        digit_char(mi / 10),
        digit_char(mi % 10),
        ':',
        digit_char(se / 10),
        digit_char(se % 10),
        'Z',
    ];
    assert(t =~= e);
    lemma_digit_char(y / 1000);
    lemma_digit_char(y / 100 % 10);
    lemma_digit_char(y / 10 % 10);
    lemma_digit_char(y % 10);
    lemma_digit_char(mo / 10);
    lemma_digit_char(mo % 10);
    lemma_digit_char(d / 10);
    lemma_digit_char(d % 10);
    lemma_digit_char(h / 10);
    lemma_digit_char(h % 10);
    lemma_digit_char(mi / 10);
    lemma_digit_char(mi % 10);
    lemma_digit_char(se / 10);
    lemma_digit_char(se % 10);
    assert(rfc3339_shape(t));
    reveal_with_fuel(digits_at, 5);
    assert(digits_at(t, 0, 4) == y);
    assert(digits_at(t, 5, 2) == mo);
    assert(digits_at(t, 8, 2) == d);
    assert(digits_at(t, 11, 2) == h);
    assert(digits_at(t, 14, 2) == mi);
    assert(digits_at(t, 17, 2) == se);
    assert(components_in_range(t));
}

/// A validated RFC 3339 UTC timestamp.
#[derive(Debug, PartialEq, Eq)]
pub struct RecordedAt {
    text: String,
}

impl View for RecordedAt {
    type V = Seq<char>;

    closed spec fn view(&self) -> Seq<char> {
        self.text@
    }
}

fn digit_value(c: char) -> (r: u32)
    requires
        is_ascii_digit(c),
    ensures
        r == c as int - '0' as int,
        r <= 9,
{
    (c as u32) - ('0' as u32)
}

fn number_at(t: &Vec<char>, at: usize, n: usize) -> (r: u32)
    requires
        n <= 4,
        at + n <= t.len(),
        forall|i: int| at <= i < at + n ==> is_ascii_digit(#[trigger] t@[i]),
    ensures
        r == digits_at(t@, at as int, n as int),
        r < 10000,
{
    let mut acc: u32 = 0;
    let mut k: usize = 0;
    while k < n
        invariant
            k <= n <= 4,
            at + n <= t.len(),
            forall|i: int| at <= i < at + n ==> is_ascii_digit(#[trigger] t@[i]),
            acc == digits_at(t@, at as int, k as int),
            acc < 10000,
            k <= 1 ==> acc < 10,
            k <= 2 ==> acc < 100,
            k <= 3 ==> acc < 1000,
        decreases n - k,
    {
        let d = digit_value(t[at + k]);
        acc = acc * 10 + d;
        k = k + 1;
    }
    acc
}

impl RecordedAt {
    /// Reads a recorded timestamp, refusing any other shape and any instant
    /// that does not exist.
    pub fn parse(value: String) -> (r: Result<RecordedAt, String>)
        ensures
            match recorded_at_spec(value@) {
                Ok(t) => r matches Ok(a) && a@ == t,
                Err(m) => r matches Err(n) && n@ == m,
            },
    {
        let t = chars_of(value.as_str());
        let mut shape = t.len() == 20;
        if shape {
            shape = t[4] == '-' && t[7] == '-' && t[10] == 'T' && t[13] == ':' && t[16] == ':' && t[19] == 'Z';
        }
        let mut i: usize = 0;
        while shape && i < 20
            invariant
                t@ == value@,
                shape ==> t@.len() == 20,
                shape ==> t@[4] == '-' && t@[7] == '-' && t@[10] == 'T' && t@[13] == ':' && t@[16] == ':'
                    && t@[19] == 'Z',
                i <= 20,
                shape ==> forall|k: int| 0 <= k < i && k != 4 && k != 7 && k != 10 && k != 13 && k != 16
                    && k != 19 ==> is_ascii_digit(#[trigger] t@[k]),
                !shape ==> !rfc3339_shape(value@),
            decreases 20 - i,
        {
            if i != 4 && i != 7 && i != 10 && i != 13 && i != 16 && i != 19 && !('0' <= t[i] && t[i] <= '9') {
                shape = false;
            }
            i = i + 1;
        }
        if !shape {
            return Err(owned_text("recorded_at must be RFC 3339 UTC seconds"));
        }
        assert(rfc3339_shape(value@));
        let year = number_at(&t, 0, 4);
        let month = number_at(&t, 5, 2);
        let day = number_at(&t, 8, 2);
        let hour = number_at(&t, 11, 2);
        let minute = number_at(&t, 14, 2);
        let second = number_at(&t, 17, 2);
        let leap = year % 4 == 0 && (year % 100 != 0 || year % 400 == 0);
        let days: u32 = if month == 1 || month == 3 || month == 5 || month == 7 || month == 8 || month == 10
            || month == 12 {
            31
        } else if month == 4 || month == 6 || month == 9 || month == 11 {
            30
        } else if month == 2 {
            if leap { 29 } else { 28 }
        } else {
            0
        };
        assert(leap == leap_year(year as int));
        assert(days == month_days(year as int, month as int));
        if day == 0 || day > days || hour > 23 || minute > 59 || second > 59 {
            return Err(owned_text("recorded_at contains an out-of-range component"));
        }
        Ok(RecordedAt { text: value })
    }

    /// Wraps a value the caller produced itself in the same shape.
    pub fn new_unchecked(value: String) -> (r: RecordedAt)
        ensures
            r@ == value@,
    {
        RecordedAt { text: value }
    }

    /// Borrows the timestamp text.
    pub fn as_str(&self) -> (r: &str)
        ensures
            r@ == self@,
    {
        self.text.as_str()
    }
}

/// The public account-selection provenance vocabulary.
#[derive(Clone, Copy, Debug, PartialEq, Eq, Structural)]
pub enum SelectionSource {
    Flag,
    Environment,
    UserConfig,
    Marker,
    /// No layer selected an account.
    Unselected,
}

/// The spelling of each selection source.
pub open spec fn selection_spelling(s: SelectionSource) -> Seq<char> {
    match s {
        SelectionSource::Flag => "flag"@,
        SelectionSource::Environment => "environment"@,
        SelectionSource::UserConfig => "user-config"@,
        SelectionSource::Marker => "marker"@,
        SelectionSource::Unselected => "none"@,
    }
}

/// The selection source a configuration layer stands for.
pub open spec fn selection_of(s: Source) -> SelectionSource {
    match s {
        Source::Cli => SelectionSource::Flag,
        Source::Environment => SelectionSource::Environment,
        Source::User => SelectionSource::UserConfig,
        Source::Default | Source::Project => SelectionSource::Unselected,
    }
}

impl SelectionSource {
    /// Returns the public spelling.
    pub fn spelling(self) -> (r: &'static str)
        ensures
            r@ == selection_spelling(self),
    {
        match self {
            SelectionSource::Flag => "flag",
            SelectionSource::Environment => "environment",
            SelectionSource::UserConfig => "user-config",
            SelectionSource::Marker => "marker",
            SelectionSource::Unselected => "none",
        }
    }

    /// The selection source a configuration layer stands for; a project file
    /// cannot select an account.
    pub fn from_source(source: Source) -> (r: SelectionSource)
        ensures
            r == selection_of(source),
    {
        match source {
            Source::Cli => SelectionSource::Flag,
            Source::Environment => SelectionSource::Environment,
            Source::User => SelectionSource::UserConfig,
            Source::Default | Source::Project => SelectionSource::Unselected,
        }
    }
}

impl From<Source> for SelectionSource {
    fn from(source: Source) -> (r: SelectionSource) {
        SelectionSource::from_source(source)
    }
}

impl vstd::std_specs::convert::FromSpecImpl<Source> for SelectionSource {
    open spec fn obeys_from_spec() -> bool {
        true
    }

    open spec fn from_spec(source: Source) -> SelectionSource {
        selection_of(source)
    }
}

/// Durable account metadata: the mode and when it was recorded. Fields that
/// later token formats add are not part of it.
#[derive(Debug, PartialEq, Eq)]
pub struct AuthModeMetadata {
    pub mode: AuthMode,
    pub recorded_at: RecordedAt,
}

/// The mode a metadata document names: its text spelled `login` or `token`.
pub open spec fn mode_named(d: Doc) -> Option<AuthMode> {
    match d {
        Doc::Text(t) => if t@ == "login"@ {
            Some(AuthMode::Login)
        } else if t@ == "token"@ {
            Some(AuthMode::Token)
        } else {
            None
        },
        _ => None,
    }
}

/// What a metadata document holds: the mode, then the recorded time, each
/// required; fields that later token formats add are ignored, and for a key
/// given twice the later entry counts.
pub open spec fn metadata_spec(d: Doc) -> Result<(AuthMode, Seq<char>), Seq<char>> {
    match d {
        Doc::Mapping(entries) => match entry_value(entries@, "mode"@) {
            None => Err("missing field `mode`"@),
            Some(m) => match mode_named(m) {
                None => Err("mode must be login or token"@),
                Some(mode) => match entry_value(entries@, "recorded_at"@) {
                    None => Err("missing field `recorded_at`"@),
                    Some(Doc::Text(t)) => match recorded_at_spec(t@) {
                        Ok(at) => Ok((mode, at)),
                        Err(message) => Err(message),
                    },
                    Some(_) => Err("recorded_at must be text"@),
                },
            },
        },
        _ => Err("metadata must be an object"@),
    }
}

impl AuthModeMetadata {
    /// Reads the metadata from its document, refusing a missing or mistyped
    /// field and a mode or time that is not one of the accepted forms.
    pub fn from_document(d: &Doc) -> (r: Result<AuthModeMetadata, String>)
        ensures
            match metadata_spec(*d) {
                Ok((mode, at)) => r matches Ok(m) && m.mode == mode && m.recorded_at@ == at,
                Err(message) => r matches Err(e) && e@ == message,
            },
    {
        let entries = match d {
            Doc::Mapping(entries) => entries,
            _ => return Err(owned_text("metadata must be an object")),
        };
        let mode = match entry(entries, "mode") {
            None => return Err(owned_text("missing field `mode`")),
            Some(Doc::Text(t)) => if same_text(t.as_str(), "login") {
                AuthMode::Login
            } else if same_text(t.as_str(), "token") {
                AuthMode::Token
            } else {
                return Err(owned_text("mode must be login or token"));
            },
            Some(_) => return Err(owned_text("mode must be login or token")),
        };
        match entry(entries, "recorded_at") {
            None => Err(owned_text("missing field `recorded_at`")),
            Some(Doc::Text(t)) => match RecordedAt::parse(owned_text(t.as_str())) {
                Ok(at) => Ok(AuthModeMetadata { mode, recorded_at: at }),
                Err(message) => Err(message),
            },
            Some(_) => Err(owned_text("recorded_at must be text")),
        }
    }
}

/// One immutable selection resolved before the application context is built.
#[derive(Debug)]
pub struct AccountSelection {
    pub account: Option<Identifier>,
    pub source: SelectionSource,
}

impl AccountSelection {
    /// The empty selection.
    pub fn none() -> (r: AccountSelection)
        ensures
            r.account is None,
            r.source == SelectionSource::Unselected,
    {
        AccountSelection { account: None, source: SelectionSource::Unselected }
    }

    /// A selection of one account from one source.
    pub fn new(account: Identifier, source: SelectionSource) -> (r: AccountSelection)
        ensures
            r.account matches Some(a) && a@ == account@,
            r.source == source,
    {
        AccountSelection { account: Some(account), source }
    }

    /// Borrows the selected account.
    pub fn account(&self) -> (r: Option<&Identifier>)
        ensures
            match self.account {
                Some(a) => r matches Some(b) && b@ == a@,
                None => r is None,
            },
    {
        match &self.account {
            Some(a) => Some(a),
            None => None,
        }
    }

    /// Returns where the selection came from.
    pub fn source(&self) -> (r: SelectionSource)
        ensures
            r == self.source,
    {
        self.source
    }
}

/// List-only mode projection; `Invalid` is never durable metadata.
#[derive(Clone, Copy, Debug, PartialEq, Eq, Structural)]
pub enum ReportMode {
    Login,
    Token,
    Invalid,
}

impl ReportMode {
    /// Returns the spelling a report uses.
    pub fn spelling(self) -> (r: &'static str)
        ensures
            r@ == (match self {
                ReportMode::Login => "login"@,
                ReportMode::Token => "token"@,
                ReportMode::Invalid => "invalid"@,
            }),
    {
        match self {
            ReportMode::Login => "login",
            ReportMode::Token => "token",
            ReportMode::Invalid => "invalid",
        }
    }
}

/// One account as a list reports it.
#[derive(Debug)]
pub struct AccountFinding {
    pub name: Identifier,
    pub mode: ReportMode,
    pub usable: bool,
    pub selected: bool,
}

} // verus!
