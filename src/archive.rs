//! Backup file names, their creation times, and the TTL-based liveness of backups.
use vstd::prelude::*;
use vstd::string::*;

use chrono::TimeZone;

verus! {

/// What a backup file holds, told by its extension.
#[derive(Debug, Clone, Copy, PartialEq, Eq, Structural)]
pub enum BackupKind {
    /// A `.kbi` backup manifest.
    Manifest,
    /// A `.zip` full backup.
    FullArchive,
}

pub open spec fn is_ascii_digit(c: char) -> bool {
    '0' <= c && c <= '9'
}

/// Unicode `White_Space`.
pub open spec fn is_white_space(c: char) -> bool {
    ('\u{9}' <= c && c <= '\u{d}') || c == ' ' || c == '\u{85}' || c == '\u{a0}' || c
        == '\u{1680}' || ('\u{2000}' <= c && c <= '\u{200a}') || c == '\u{2028}' || c == '\u{2029}'
        || c == '\u{202f}' || c == '\u{205f}' || c == '\u{3000}'
}

/// The separator expected at position `i` of a `YYYY-MM-DD_hh-mm-ss` stamp, if any.
pub open spec fn stamp_separator(i: int) -> Option<char> {
    if i == 4 || i == 7 || i == 13 || i == 16 {
        Some('-')
    } else if i == 10 {
        Some('_')
    } else {
        None
    }
}

/// Whether `c` may stand at position `i` of a stamp.
pub open spec fn stamp_char_ok(i: int, c: char) -> bool {
    match stamp_separator(i) {
        Some(sep) => c == sep,
        None => is_ascii_digit(c),
    }
}

/// `YYYY-MM-DD_hh-mm-ss`, with ASCII digits.
pub open spec fn is_stamp_shape(t: Seq<char>) -> bool {
    t.len() == 19 && forall|i: int| 0 <= i < 19 ==> stamp_char_ok(i, #[trigger] t[i])
}

pub open spec fn kbackup_prefix() -> Seq<char> {
    seq!['k', 'b', 'a', 'c', 'k', 'u', 'p', '-']
}

pub open spec fn incremental_prefix() -> Seq<char> {
    seq!['i', 'n', 'c', 'r', 'e', 'm', 'e', 'n', 't', 'a', 'l', '-']
}

/// The length of the `kbackup-` or `incremental-` prefix of `s`, or zero.
pub open spec fn prefix_len(s: Seq<char>) -> int {
    if s.len() >= 8 && s.take(8) == kbackup_prefix() {
        8
    } else if s.len() >= 12 && s.take(12) == incremental_prefix() {
        12
    } else {
        0
    }
}

pub open spec fn kind_of_extension(e: Seq<char>) -> Option<BackupKind> {
    if e == seq!['.', 'k', 'b', 'i'] {
        Some(BackupKind::Manifest)
    } else if e == seq!['.', 'z', 'i', 'p'] {
        Some(BackupKind::FullArchive)
    } else {
        None
    }
}

/// The stamp and the kind of a backup file name of the form
/// `(kbackup|incremental)-YYYY-MM-DD_hh-mm-ss_<suffix>.(kbi|zip)`, where the
/// suffix is one or more characters other than white space.
pub open spec fn parse_backup_name(s: Seq<char>) -> Option<(Seq<char>, BackupKind)> {
    let p = prefix_len(s);
    if p == 0 || s.len() < p + 25 {
        None
    } else {
        let t = s.subrange(p, p + 19);
        let kind = kind_of_extension(s.skip(s.len() - 4));
        if is_stamp_shape(t) && s[p + 19] == '_' && kind is Some && (forall|i: int|
            p + 20 <= i < s.len() - 4 ==> !is_white_space(s[i])) {
            Some((t, kind->Some_0))
        } else {
            None
        }
    }
}

fn is_white(c: char) -> (r: bool)
    ensures
        r == is_white_space(c),
{
    ('\u{9}' <= c && c <= '\u{d}') || c == ' ' || c == '\u{85}' || c == '\u{a0}' || c
        == '\u{1680}' || ('\u{2000}' <= c && c <= '\u{200a}') || c == '\u{2028}' || c == '\u{2029}'
        || c == '\u{202f}' || c == '\u{205f}' || c == '\u{3000}'
}

/// Whether the characters of `s` from `start` on begin with `w`.
fn chars_match(s: &str, start: usize, w: &Vec<char>) -> (r: bool)
    requires
        start + w@.len() <= s@.len(),
        s@.len() <= usize::MAX,
    ensures
        r == (s@.subrange(start as int, start + w@.len()) == w@),
{
    let mut i: usize = 0;
    while i < w.len()
        invariant
            start + w@.len() <= s@.len(),
            s@.len() <= usize::MAX,
            i <= w@.len(),
            forall|j: int| 0 <= j < i ==> s@[start + j] == w@[j],
        decreases w@.len() - i,
    {
        if s.get_char(start + i) != w[i] {
            assert(s@.subrange(start as int, start + w@.len())[i as int] != w@[i as int]);
            return false;
        }
        i = i + 1;
    }
    assert(s@.subrange(start as int, start + w@.len()) =~= w@);
    true
}

fn stamp_sep(i: usize) -> (r: Option<char>)
    ensures
        r == stamp_separator(i as int),
{
    if i == 4 || i == 7 || i == 13 || i == 16 {
        Some('-')
    } else if i == 10 {
        Some('_')
    } else {
        None
    }
}

/// A backup file name split into its parts.
#[derive(Debug)]
pub struct BackupName {
    /// The creation time as written in the name, `YYYY-MM-DD_hh-mm-ss`.
    pub stamp: String,
    pub kind: BackupKind,
}

/// Reads a backup file name; `None` where it does not have the expected form.
pub fn parse_archive_name(s: &str) -> (r: Option<BackupName>)
    ensures
        match parse_backup_name(s@) {
            Some((t, k)) => r matches Some(b) && b.stamp@ == t && b.kind == k,
            None => r is None,
        },
{
    let n = s.unicode_len();
    let kb: Vec<char> = vec!['k', 'b', 'a', 'c', 'k', 'u', 'p', '-'];
    let inc: Vec<char> = vec!['i', 'n', 'c', 'r', 'e', 'm', 'e', 'n', 't', 'a', 'l', '-'];
    assert(kb@ =~= kbackup_prefix());
    assert(inc@ =~= incremental_prefix());
    assert(forall|k: int| 0 <= k <= s@.len() ==> s@.take(k) =~= s@.subrange(0, k));
    let p: usize = if n >= 8 && chars_match(s, 0, &kb) {
        8
    } else if n >= 12 && chars_match(s, 0, &inc) {
        12
    } else {
        0
    };
    assert(p == prefix_len(s@));
    if p == 0 || n < p + 25 {
        return None;
    }
    let mut i: usize = 0;
    while i < 19
        invariant
            n == s@.len(),
            p + 25 <= n,
            p == prefix_len(s@),
            p > 0,
            i <= 19,
            forall|j: int| 0 <= j < i ==> stamp_char_ok(j, #[trigger] s@[p + j]),
        decreases 19 - i,
    {
        let c = s.get_char(p + i);
        let ok = match stamp_sep(i) {
            Some(sep) => c == sep,
            None => '0' <= c && c <= '9',
        };
        if !ok {
            assert(!is_stamp_shape(s@.subrange(p as int, p + 19))) by {
                assert(s@.subrange(p as int, p + 19)[i as int] == c);
                assert(!stamp_char_ok(i as int, s@.subrange(p as int, p + 19)[i as int]));
            }
            return None;
        }
        i = i + 1;
    }
    assert(is_stamp_shape(s@.subrange(p as int, p + 19))) by {
        assert forall|j: int| 0 <= j < 19 implies stamp_char_ok(j, #[trigger] s@.subrange(p as int, p + 19)[j]) by {
            assert(s@.subrange(p as int, p + 19)[j] == s@[p + j]);
        }
    }
    if s.get_char(p + 19) != '_' {
        return None;
    }
    let mut j: usize = p + 20;
    while j < n - 4
        invariant
            n == s@.len(),
            p + 25 <= n,
            p == prefix_len(s@),
            p > 0,
            is_stamp_shape(s@.subrange(p as int, p + 19)),
            s@[p + 19] == '_',
            p + 20 <= j,
            forall|k: int| p + 20 <= k < j ==> !is_white_space(s@[k]),
        decreases n - j,
    {
        if is_white(s.get_char(j)) {
            assert(is_white_space(s@[j as int]));
            return None;
        }
        j = j + 1;
    }
    let kbi: Vec<char> = vec!['.', 'k', 'b', 'i'];
    let zip: Vec<char> = vec!['.', 'z', 'i', 'p'];
    assert(s@.skip(n - 4) =~= s@.subrange(n - 4, n as int));
    let kind = if chars_match(s, n - 4, &kbi) {
        assert(kbi@ =~= seq!['.', 'k', 'b', 'i']);
        BackupKind::Manifest
    } else if chars_match(s, n - 4, &zip) {
        assert(zip@ =~= seq!['.', 'z', 'i', 'p']);
        BackupKind::FullArchive
    } else {
        assert(kbi@ =~= seq!['.', 'k', 'b', 'i']);
        assert(zip@ =~= seq!['.', 'z', 'i', 'p']);
        return None;
    };
    let stamp = String::from_str(s.substring_char(p, p + 19));
    Some(BackupName { stamp, kind })
}

/// An instant: seconds since the Unix epoch and nanoseconds past that second.
#[derive(Debug, Clone, Copy, PartialEq, Eq, Structural)]
pub struct Timestamp {
    pub secs: i64,
    pub nanos: u32,
}

/// A span of time to look back from now.
#[derive(Debug, Clone, Copy, PartialEq, Eq, Structural)]
pub struct Ttl {
    pub secs: u64,
    pub nanos: u32,
}

pub open spec fn nanos_of(t: Timestamp) -> int {
    t.secs * 1_000_000_000 + t.nanos
}

pub open spec fn ttl_nanos(d: Ttl) -> int {
    d.secs * 1_000_000_000 + d.nanos
}

/// `a` is at `b` or later, ordering by seconds, then by nanoseconds.
pub open spec fn at_or_after(a: Timestamp, b: Timestamp) -> bool {
    a.secs > b.secs || (a.secs == b.secs && a.nanos >= b.nanos)
}

/// The instant `ttl` before `now`, with its nanoseconds below one second;
/// `None` where its second lies outside what an `i64` can count.
pub open spec fn cutoff_before_spec(now: Timestamp, ttl: Ttl) -> Option<Timestamp> {
    let d = nanos_of(now) - ttl_nanos(ttl);
    if d < i64::MIN * 1_000_000_000 || d >= (i64::MAX + 1) * 1_000_000_000 {
        None
    } else {
        Some(Timestamp { secs: (d / 1_000_000_000) as i64, nanos: (d % 1_000_000_000) as u32 })
    }
}

/// The instant `ttl` before `now`, with its nanoseconds below one second;
/// `None` where its second lies outside what an `i64` can count.
pub fn cutoff_before(now: Timestamp, ttl: Ttl) -> (r: Option<Timestamp>)
    requires
        ttl.nanos < 1_000_000_000,
    ensures
        r == cutoff_before_spec(now, ttl),
        match r {
            Some(c) => c.nanos < 1_000_000_000 && nanos_of(c) == nanos_of(now) - ttl_nanos(ttl),
            None => nanos_of(now) - ttl_nanos(ttl) < i64::MIN * 1_000_000_000 || nanos_of(now)
                - ttl_nanos(ttl) >= (i64::MAX + 1) * 1_000_000_000,
        },
{
    let carry: u32 = now.nanos / 1_000_000_000;
    let now_nanos: u32 = now.nanos % 1_000_000_000;
    let mut secs: i128 = now.secs as i128 + carry as i128 - ttl.secs as i128;
    let mut nanos: i64 = now_nanos as i64 - ttl.nanos as i64;
    if nanos < 0 {
        nanos = nanos + 1_000_000_000;
        secs = secs - 1;
    }
    assert(now.nanos as int == carry as int * 1_000_000_000 + now_nanos as int);
    if secs < i64::MIN as i128 || secs > i64::MAX as i128 {
        return None;
    }
    let c = Timestamp { secs: secs as i64, nanos: nanos as u32 };
    proof {
        vstd::arithmetic::div_mod::lemma_fundamental_div_mod_converse(
            nanos_of(now) - ttl_nanos(ttl),
            1_000_000_000,
            c.secs as int,
            c.nanos as int,
        );
    }
    Some(c)
}

/// The duration, in seconds and nanoseconds, that `duration_str` reads from a text.
pub uninterp spec fn duration_of(s: Seq<char>) -> Option<(u64, u32)>;

/// Relies on `duration_str::parse`: a duration read from human-readable text
/// such as `30d`, depending on the text alone; an empty text is refused.
#[verifier::external_body]
fn parse_duration(s: &str) -> (r: Result<Ttl, String>)
    ensures
        r is Ok <==> duration_of(s@) is Some,
        r matches Ok(d) ==> duration_of(s@) == Some((d.secs, d.nanos)),
        r matches Ok(d) ==> d.nanos < 1_000_000_000,
        s@.len() == 0 ==> r is Err,
{
    match duration_str::parse(s) {
        Ok(d) => Ok(Ttl { secs: d.as_secs(), nanos: d.subsec_nanos() }),
        Err(e) => Err(e),
    }
}

/// Relies on chrono's `Local::now`: the current instant from the system clock.
#[verifier::external_body]
fn now_instant() -> (r: Timestamp) {
    let d = chrono::Local::now();
    Timestamp { secs: d.timestamp(), nanos: d.timestamp_subsec_nanos() }
}

/// Why an archival run cannot start.
#[derive(Debug, Clone, PartialEq, Eq)]
pub enum CutoffError {
    /// The TTL text is not a duration; the parser's message.
    InvalidTtl(String),
    /// The TTL reaches back past the earliest instant that can be held.
    TtlTooLong,
}

/// `c` is the instant that the duration of `ttl` reaches back to from some instant.
pub open spec fn is_cutoff_for(ttl: Seq<char>, c: Timestamp) -> bool {
    match duration_of(ttl) {
        Some((s, n)) => exists|now: Timestamp|
            #[trigger] cutoff_before_spec(now, Ttl { secs: s, nanos: n }) == Some(c),
        None => false,
    }
}

/// The cutoff of an archival run: `ttl` before now. Backups created at the
/// cutoff or later are live.
pub fn archive_cutoff(ttl: &str) -> (r: Result<Timestamp, CutoffError>)
    ensures
        ttl@.len() == 0 ==> r matches Err(CutoffError::InvalidTtl(_)),
        r matches Err(CutoffError::InvalidTtl(_)) <==> duration_of(ttl@) is None,
        r matches Ok(c) ==> c.nanos < 1_000_000_000 && is_cutoff_for(ttl@, c),
{
    let d = match parse_duration(ttl) {
        Ok(d) => d,
        Err(e) => return Err(CutoffError::InvalidTtl(e)),
    };
    let now = now_instant();
    match cutoff_before(now, d) {
        Some(c) => {
            assert(d == Ttl { secs: d.secs, nanos: d.nanos });
            assert(cutoff_before_spec(now, Ttl { secs: d.secs, nanos: d.nanos }) == Some(c));
            assert(is_cutoff_for(ttl@, c));
            Ok(c)
        },
        None => Err(CutoffError::TtlTooLong),
    }
}

pub open spec fn digit_value(c: char) -> int {
    c as int - 48
}

/// The number that the `len` decimal digits of `t` from `start` on write.
pub open spec fn number_at(t: Seq<char>, start: int, len: nat) -> int
    decreases len,
{
    if len == 0 {
        0
    } else {
        number_at(t, start, (len - 1) as nat) * 10 + digit_value(t[start + len - 1])
    }
}

pub open spec fn stamp_year(t: Seq<char>) -> int {
    number_at(t, 0, 4)
}

pub open spec fn stamp_month(t: Seq<char>) -> int {
    number_at(t, 5, 2)
}

pub open spec fn stamp_day(t: Seq<char>) -> int {
    number_at(t, 8, 2)
}

pub open spec fn stamp_hour(t: Seq<char>) -> int {
    number_at(t, 11, 2)
}

pub open spec fn stamp_minute(t: Seq<char>) -> int {
    number_at(t, 14, 2)
}

pub open spec fn stamp_second(t: Seq<char>) -> int {
    number_at(t, 17, 2)
}

pub open spec fn is_leap_year(y: int) -> bool {
    (y % 4 == 0 && y % 100 != 0) || y % 400 == 0
}

pub open spec fn days_in_month(y: int, m: int) -> int {
    if m == 2 {
        if is_leap_year(y) {
            29
        } else {
            28
        }
    } else if m == 4 || m == 6 || m == 9 || m == 11 {
        30
    } else {
        31
    }
}

/// A stamp names a calendar date and a time of day; a second of 60 is a leap second.
pub open spec fn valid_stamp(t: Seq<char>) -> bool {
    &&& 1 <= stamp_month(t) <= 12
    &&& 1 <= stamp_day(t) <= days_in_month(stamp_year(t), stamp_month(t))
    &&& stamp_hour(t) < 24
    &&& stamp_minute(t) < 60
    &&& stamp_second(t) <= 60
}

pub open spec fn pow10(n: nat) -> int
    decreases n,
{
    if n == 0 {
        1
    } else {
        10 * pow10((n - 1) as nat)
    }
}

/// The number written by the `len` ASCII digits of `s` from `start` on.
fn number(s: &str, start: usize, len: usize) -> (r: u32)
    requires
        len <= 4,
        start + len <= s@.len(),
        s@.len() <= usize::MAX,
        forall|i: int| start <= i < start + len ==> is_ascii_digit(#[trigger] s@[i]),
    ensures
        r == number_at(s@, start as int, len as nat),
        r < pow10(len as nat),
{
    let mut r: u32 = 0;
    let mut k: usize = 0;
    while k < len
        invariant
            len <= 4,
            start + len <= s@.len(),
            s@.len() <= usize::MAX,
            forall|i: int| start <= i < start + len ==> is_ascii_digit(#[trigger] s@[i]),
            k <= len,
            r == number_at(s@, start as int, k as nat),
            0 <= r < pow10(k as nat),
            pow10(k as nat) <= 10000,
        decreases len - k,
    {
        let c = s.get_char(start + k);
        assert(is_ascii_digit(s@[start + k]));
        let d = (c as u32) - 48;
        assert(pow10((k + 1) as nat) == 10 * pow10(k as nat));
        assert(r * 10 + d < 10 * pow10(k as nat)) by (nonlinear_arith)
            requires r < pow10(k as nat), d < 10;
        assert(k + 1 <= 4);
        assert(pow10((k + 1) as nat) <= 10000) by {
            assert(pow10(0) == 1);
            assert(pow10(1) == 10);
            assert(pow10(2) == 100);
            assert(pow10(3) == 1000);
            assert(pow10(4) == 10000);
        }
        r = r * 10 + d;
        k = k + 1;
    }
    r
}

fn leap_year(y: u32) -> (r: bool)
    ensures
        r == is_leap_year(y as int),
{
    (y % 4 == 0 && y % 100 != 0) || y % 400 == 0
}

fn month_days(y: u32, m: u32) -> (r: u32)
    ensures
        r == days_in_month(y as int, m as int),
{
    if m == 2 {
        if leap_year(y) {
            29
        } else {
            28
        }
    } else if m == 4 || m == 6 || m == 9 || m == 11 {
        30
    } else {
        31
    }
}

/// Relies on chrono's `NaiveDate::from_ymd_opt`, `NaiveDate::and_hms_nano_opt`,
/// `Local::from_local_datetime` and `LocalResult::single`: the instant that a
/// wall-clock time of the local zone names, or `None` where it names none or
/// two (a gap or a fold) or is no calendar time.
#[verifier::external_body]
fn local_instant(year: i32, month: u32, day: u32, hour: u32, minute: u32, second: u32, nano: u32) -> (r: Option<Timestamp>) {
    let date = chrono::NaiveDate::from_ymd_opt(year, month, day)?;
    let t = date.and_hms_nano_opt(hour, minute, second, nano)?;
    match chrono::Local.from_local_datetime(&t).single() {
        Some(d) => Some(Timestamp { secs: d.timestamp(), nanos: d.timestamp_subsec_nanos() }),
        None => None,
    }
}

/// Why a backup file is left out of classification.
#[derive(Debug, Clone, Copy, PartialEq, Eq, Structural)]
pub enum NameError {
    /// The name does not have the backup file form.
    Unrecognized,
    /// The stamp is not a calendar date and time.
    InvalidTime,
    /// The stamp names no single instant in the local zone.
    AmbiguousTime,
}

/// The creation time and kind of a backup file, read from its name and taken
/// in the local time zone. A stamp whose second is 60 is a leap second, kept
/// as second 59 with a full second of nanoseconds.
pub fn parse_archive_time_from_filename(name: &str) -> (r: Result<(Timestamp, BackupKind), NameError>)
    ensures
        parse_backup_name(name@) is None <==> r == Err::<(Timestamp, BackupKind), NameError>(
            NameError::Unrecognized,
        ),
        r == Err::<(Timestamp, BackupKind), NameError>(NameError::InvalidTime) <==> (parse_backup_name(
            name@,
        ) matches Some((t, _)) && !valid_stamp(t)),
        r matches Ok((_, k)) ==> parse_backup_name(name@) matches Some((_, k2)) && k == k2,
{
    let n = name.unicode_len();
    let b = match parse_archive_name(name) {
        Some(b) => b,
        None => return Err(NameError::Unrecognized),
    };
    let ghost t = b.stamp@;
    let st = b.stamp.as_str();
    proof {
        assert(is_stamp_shape(t));
        assert forall|i: int| 0 <= i < 19 && stamp_separator(i) is None implies is_ascii_digit(#[trigger] t[i]) by {
            assert(stamp_char_ok(i, t[i]));
        }
    }
    let year = number(st, 0, 4);
    let month = number(st, 5, 2);
    let day = number(st, 8, 2);
    let hour = number(st, 11, 2);
    let minute = number(st, 14, 2);
    let second = number(st, 17, 2);
    if month < 1 || month > 12 || day < 1 || day > month_days(year, month) || hour >= 24 || minute
        >= 60 || second > 60 {
        return Err(NameError::InvalidTime);
    }
    let (sec, nano) = if second == 60 {
        (59u32, 1_000_000_000u32)
    } else {
        (second, 0u32)
    };
    match local_instant(year as i32, month, day, hour, minute, sec, nano) {
        Some(i) => Ok((i, b.kind)),
        None => Err(NameError::AmbiguousTime),
    }
}

/// Where a backup file stands in an archival run.
#[derive(Debug, Clone, Copy, PartialEq, Eq, Structural)]
pub enum Liveness {
    /// Created at the cutoff or later: kept, and its objects with it.
    Active,
    /// Created before the cutoff: moved to the archive.
    Inactive,
    /// Its name gives no creation time: left where it is.
    Unclassified,
}

pub open spec fn liveness_spec(time: Result<(Timestamp, BackupKind), NameError>, cutoff: Timestamp) -> Liveness {
    match time {
        Ok((t, _)) => if at_or_after(t, cutoff) {
            Liveness::Active
        } else {
            Liveness::Inactive
        },
        Err(_) => Liveness::Unclassified,
    }
}

/// The liveness of a backup file from its creation time alone: active exactly
/// when it was created at the cutoff or later.
pub fn liveness_of(time: &Result<(Timestamp, BackupKind), NameError>, cutoff: Timestamp) -> (r: Liveness)
    ensures
        r == liveness_spec(*time, cutoff),
{
    match time {
        Ok((t, _)) => if t.secs > cutoff.secs || (t.secs == cutoff.secs && t.nanos >= cutoff.nanos) {
            Liveness::Active
        } else {
            Liveness::Inactive
        },
        Err(_) => Liveness::Unclassified,
    }
}

} // verus!
