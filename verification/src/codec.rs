//! The backup-name codec.
//!
//! A backup entry is named `<target>_<timestamp>`, where the timestamp is a
//! lexicographically sortable local date-time with a UTC-offset suffix, for
//! example `2022-04-15_21-01-41+1000`. [`time_text`] is the definition of
//! that 24-character grammar; [`format_time`] and [`decode_time`] are the two
//! verified directions, and [`lemma_decode_encode`] states the round trip.

use vstd::prelude::*;
use vstd::arithmetic::div_mod::lemma_fundamental_div_mod;
use crate::paths::push_char;

verus! {

/// A local calendar time together with its UTC offset, the payload of a
/// backup entry's name.
#[derive(Clone, Copy, Debug, PartialEq, Eq, Structural)]
pub struct BackupTime {
    pub year: u32,
    pub month: u32,
    pub day: u32,
    pub hour: u32,
    pub minute: u32,
    pub second: u32,
    /// Minutes to add to UTC to obtain the local time.
    pub offset_minutes: i32,
}

impl BackupTime {
    /// Field ranges under which the 24-character name grammar is exact.
    pub open spec fn wf(self) -> bool {
        &&& self.year <= 9999
        &&& 1 <= self.month <= 12
        &&& 1 <= self.day <= 31
        &&& self.hour <= 23
        &&& self.minute <= 59
        &&& self.second <= 59
        &&& -1439 <= self.offset_minutes <= 1439
    }
}

/// The character for one decimal digit.
pub open spec fn digit_char(d: int) -> char {
    if d == 0 {
        '0'
    } else if d == 1 {
        '1'
    } else if d == 2 {
        '2'
    } else if d == 3 {
        '3'
    } else if d == 4 {
        '4'
    } else if d == 5 {
        '5'
    } else if d == 6 {
        '6'
    } else if d == 7 {
        '7'
    } else if d == 8 {
        '8'
    } else {
        '9'
    }
}

/// The magnitude of an offset in minutes.
pub open spec fn abs_off(m: int) -> int {
    if m < 0 {
        -m
    } else {
        m
    }
}

/// The sign character of an offset; zero is written with `+`.
pub open spec fn sign_char(m: int) -> char {
    if m < 0 {
        '-'
    } else {
        '+'
    }
}

/// The fixed 24-character timestamp text `YYYY-MM-DD_HH-MM-SS+ZZZZ`.
pub open spec fn time_text(t: BackupTime) -> Seq<char> {
    let y = t.year as int;
    let mo = t.month as int;
    let d = t.day as int;
    let h = t.hour as int;
    let mi = t.minute as int;
    let s = t.second as int;
    let a = abs_off(t.offset_minutes as int);
    seq![
        digit_char(y / 1000),
        digit_char((y / 100) % 10),
        digit_char((y / 10) % 10),
        digit_char(y % 10),
        '-',
        digit_char(mo / 10),
        digit_char(mo % 10),
        '-',
        digit_char(d / 10),
        digit_char(d % 10),
        '_',
        digit_char(h / 10),
        digit_char(h % 10),
        '-',
        digit_char(mi / 10),
        digit_char(mi % 10),
        '-',
        digit_char(s / 10),
        digit_char(s % 10),
        sign_char(t.offset_minutes as int),
        digit_char((a / 60) / 10),
        digit_char((a / 60) % 10),
        digit_char((a % 60) / 10),
        digit_char((a % 60) % 10),
    ]
}

/// The full backup name: the target's name, an underscore, the timestamp.
pub open spec fn spec_encode(name: Seq<char>, t: BackupTime) -> Seq<char> {
    name + seq!['_'] + time_text(t)
}

/// Appends the character of the decimal digit `d`.
fn push_digit(s: &mut String, d: u32)
    requires
        d <= 9,
    ensures
        final(s)@ == old(s)@ + seq![digit_char(d as int)],
{
    let c = if d == 0 {
        '0'
    } else if d == 1 {
        '1'
    } else if d == 2 {
        '2'
    } else if d == 3 {
        '3'
    } else if d == 4 {
        '4'
    } else if d == 5 {
        '5'
    } else if d == 6 {
        '6'
    } else if d == 7 {
        '7'
    } else if d == 8 {
        '8'
    } else {
        '9'
    };
    push_char(s, c);
}

/// Writes the timestamp of `t` in the fixed name grammar.
#[verifier::rlimit(60)]
pub fn format_time(t: &BackupTime) -> (r: String)
    requires
        t.wf(),
    ensures
        r@ == time_text(*t),
{
    let mut r = String::new();
    push_digit(&mut r, t.year / 1000);
    push_digit(&mut r, (t.year / 100) % 10);
    push_digit(&mut r, (t.year / 10) % 10);
    push_digit(&mut r, t.year % 10);
    push_char(&mut r, '-');
    push_digit(&mut r, t.month / 10);
    push_digit(&mut r, t.month % 10);
    push_char(&mut r, '-');
    push_digit(&mut r, t.day / 10);
    push_digit(&mut r, t.day % 10);
    push_char(&mut r, '_');
    push_digit(&mut r, t.hour / 10);
    push_digit(&mut r, t.hour % 10);
    push_char(&mut r, '-');
    push_digit(&mut r, t.minute / 10);
    push_digit(&mut r, t.minute % 10);
    push_char(&mut r, '-');
    push_digit(&mut r, t.second / 10);
    push_digit(&mut r, t.second % 10);
    let a: u32 = if t.offset_minutes < 0 {
        push_char(&mut r, '-');
        (0 - t.offset_minutes) as u32
    } else {
        push_char(&mut r, '+');
        t.offset_minutes as u32
    };
    push_digit(&mut r, (a / 60) / 10);
    push_digit(&mut r, (a / 60) % 10);
    push_digit(&mut r, (a % 60) / 10);
    push_digit(&mut r, (a % 60) % 10);
    proof {
        assert(r@ =~= time_text(*t));
    }
    r
}

/// The decimal value of a digit character, `-1` for any other character.
pub open spec fn digit_val(c: char) -> int {
    if c == '0' {
        0
    } else if c == '1' {
        1
    } else if c == '2' {
        2
    } else if c == '3' {
        3
    } else if c == '4' {
        4
    } else if c == '5' {
        5
    } else if c == '6' {
        6
    } else if c == '7' {
        7
    } else if c == '8' {
        8
    } else if c == '9' {
        9
    } else {
        -1
    }
}

/// `digit_val` inverts `digit_char`, and vice versa on digit characters.
proof fn lemma_digit_roundtrip()
    ensures
        forall|d: int| 0 <= d <= 9 ==> #[trigger] digit_val(digit_char(d)) == d,
        forall|c: char| digit_val(c) >= 0 ==> digit_val(c) <= 9 && #[trigger] digit_char(digit_val(c)) == c,
{
}

/// Reads the decimal value of a digit character, `-1` for any other.
fn digit_val_exec(c: char) -> (r: i32)
    ensures
        r as int == digit_val(c),
{
    if c == '0' {
        0
    } else if c == '1' {
        1
    } else if c == '2' {
        2
    } else if c == '3' {
        3
    } else if c == '4' {
        4
    } else if c == '5' {
        5
    } else if c == '6' {
        6
    } else if c == '7' {
        7
    } else if c == '8' {
        8
    } else if c == '9' {
        9
    } else {
        -1
    }
}

/// The conditions under which a 24-character text is read back as the
/// well-formed time `t`: every digit position carries the matching digit of
/// `t`'s fields, every separator is in place, and the offset sign is
/// canonical.
pub open spec fn reads_back_as(s: Seq<char>, t: BackupTime) -> bool {
    &&& s.len() == 24
    &&& digit_val(s[0]) >= 0 && digit_val(s[1]) >= 0 && digit_val(s[2]) >= 0 && digit_val(s[3]) >= 0
    &&& digit_val(s[5]) >= 0 && digit_val(s[6]) >= 0 && digit_val(s[8]) >= 0 && digit_val(s[9]) >= 0
    &&& digit_val(s[11]) >= 0 && digit_val(s[12]) >= 0 && digit_val(s[14]) >= 0 && digit_val(s[15]) >= 0
    &&& digit_val(s[17]) >= 0 && digit_val(s[18]) >= 0 && digit_val(s[20]) >= 0 && digit_val(s[21]) >= 0
    &&& digit_val(s[22]) >= 0 && digit_val(s[23]) >= 0
    &&& s[4] == '-' && s[7] == '-' && s[10] == '_' && s[13] == '-' && s[16] == '-'
    &&& s[19] == '+' || s[19] == '-'
    &&& t.year == 1000 * digit_val(s[0]) + 100 * digit_val(s[1]) + 10 * digit_val(s[2]) + digit_val(s[3])
    &&& t.month == 10 * digit_val(s[5]) + digit_val(s[6])
    &&& t.day == 10 * digit_val(s[8]) + digit_val(s[9])
    &&& t.hour == 10 * digit_val(s[11]) + digit_val(s[12])
    &&& t.minute == 10 * digit_val(s[14]) + digit_val(s[15])
    &&& t.second == 10 * digit_val(s[17]) + digit_val(s[18])
    &&& 10 * digit_val(s[20]) + digit_val(s[21]) <= 23
    &&& 10 * digit_val(s[22]) + digit_val(s[23]) <= 59
    &&& abs_off(t.offset_minutes as int) == 60 * (10 * digit_val(s[20]) + digit_val(s[21])) + 10
        * digit_val(s[22]) + digit_val(s[23])
    &&& (s[19] == '-' <==> t.offset_minutes < 0)
}

/// A text that reads back as `t` is the timestamp text of `t`.
#[verifier::rlimit(100)]
proof fn lemma_parse_sound(s: Seq<char>, t: BackupTime)
    requires
        t.wf(),
        reads_back_as(s, t),
    ensures
        s == time_text(t),
{
    lemma_digit_roundtrip();
    let y = t.year as int;
    let a = abs_off(t.offset_minutes as int);
    assert(y / 1000 == digit_val(s[0]) && (y / 100) % 10 == digit_val(s[1]) && (y / 10) % 10
        == digit_val(s[2]) && y % 10 == digit_val(s[3]));
    assert(t.month as int / 10 == digit_val(s[5]) && t.month as int % 10 == digit_val(s[6]));
    assert(t.day as int / 10 == digit_val(s[8]) && t.day as int % 10 == digit_val(s[9]));
    assert(t.hour as int / 10 == digit_val(s[11]) && t.hour as int % 10 == digit_val(s[12]));
    assert(t.minute as int / 10 == digit_val(s[14]) && t.minute as int % 10 == digit_val(s[15]));
    assert(t.second as int / 10 == digit_val(s[17]) && t.second as int % 10 == digit_val(s[18]));
    assert(a / 60 == 10 * digit_val(s[20]) + digit_val(s[21]) && a % 60 == 10 * digit_val(s[22])
        + digit_val(s[23]));
    assert((a / 60) / 10 == digit_val(s[20]) && (a / 60) % 10 == digit_val(s[21]));
    assert((a % 60) / 10 == digit_val(s[22]) && (a % 60) % 10 == digit_val(s[23]));
    assert(s =~= time_text(t));
}

/// The timestamp text of a well-formed time reads back as that time.
#[verifier::rlimit(100)]
proof fn lemma_parse_complete(t: BackupTime)
    requires
        t.wf(),
    ensures
        reads_back_as(time_text(t), t),
{
    lemma_digit_roundtrip();
    let s = time_text(t);
    let y = t.year as int;
    let a = abs_off(t.offset_minutes as int);
    assert(y == 1000 * (y / 1000) + 100 * ((y / 100) % 10) + 10 * ((y / 10) % 10) + y % 10);
    assert(t.month as int == 10 * (t.month as int / 10) + t.month as int % 10);
    assert(t.day as int == 10 * (t.day as int / 10) + t.day as int % 10);
    assert(t.hour as int == 10 * (t.hour as int / 10) + t.hour as int % 10);
    assert(t.minute as int == 10 * (t.minute as int / 10) + t.minute as int % 10);
    assert(t.second as int == 10 * (t.second as int / 10) + t.second as int % 10);
    assert(a == 60 * (a / 60) + a % 60);
    assert(a / 60 == 10 * ((a / 60) / 10) + (a / 60) % 10);
    assert(a % 60 == 10 * ((a % 60) / 10) + (a % 60) % 10);
    assert(a / 60 <= 23);
    assert(a % 60 <= 59);
}

/// Parses the fixed 24-character timestamp text, and accepts exactly the
/// texts that [`format_time`] writes for well-formed times.
#[verifier::rlimit(100)]
pub fn decode_time(s: &str) -> (r: Option<BackupTime>)
    ensures
        match r {
            Some(t) => t.wf() && s@ == time_text(t),
            None => forall|t: BackupTime| t.wf() ==> s@ != time_text(t),
        },
{
    proof {
        lemma_digit_roundtrip();
    }
    let n = s.unicode_len();
    if n != 24 {
        return None;
    }
    let ya = digit_val_exec(s.get_char(0));
    let yb = digit_val_exec(s.get_char(1));
    let yc = digit_val_exec(s.get_char(2));
    let yd = digit_val_exec(s.get_char(3));
    let ma = digit_val_exec(s.get_char(5));
    let mb = digit_val_exec(s.get_char(6));
    let da = digit_val_exec(s.get_char(8));
    let db = digit_val_exec(s.get_char(9));
    let ha = digit_val_exec(s.get_char(11));
    let hb = digit_val_exec(s.get_char(12));
    let na = digit_val_exec(s.get_char(14));
    let nb = digit_val_exec(s.get_char(15));
    let sa = digit_val_exec(s.get_char(17));
    let sb = digit_val_exec(s.get_char(18));
    let oa = digit_val_exec(s.get_char(20));
    let ob = digit_val_exec(s.get_char(21));
    let oc = digit_val_exec(s.get_char(22));
    let od = digit_val_exec(s.get_char(23));
    let digits_ok = ya >= 0 && yb >= 0 && yc >= 0 && yd >= 0 && ma >= 0 && mb >= 0 && da >= 0
        && db >= 0 && ha >= 0 && hb >= 0 && na >= 0 && nb >= 0 && sa >= 0 && sb >= 0 && oa >= 0
        && ob >= 0 && oc >= 0 && od >= 0;
    let seps_ok = s.get_char(4) == '-' && s.get_char(7) == '-' && s.get_char(10) == '_'
        && s.get_char(13) == '-' && s.get_char(16) == '-';
    let sign = s.get_char(19);
    let sign_ok = sign == '+' || sign == '-';
    let month: i32 = 10 * ma + mb;
    let day: i32 = 10 * da + db;
    let hour: i32 = 10 * ha + hb;
    let minute: i32 = 10 * na + nb;
    let second: i32 = 10 * sa + sb;
    let off_h: i32 = 10 * oa + ob;
    let off_m: i32 = 10 * oc + od;
    let ranges_ok = 1 <= month && month <= 12 && 1 <= day && day <= 31 && hour <= 23 && minute
        <= 59 && second <= 59 && off_h <= 23 && off_m <= 59 && !(sign == '-' && off_h == 0 && off_m
        == 0);
    if digits_ok && seps_ok && sign_ok && ranges_ok {
        let year: i32 = 1000 * ya + 100 * yb + 10 * yc + yd;
        let off_abs: i32 = 60 * off_h + off_m;
        let t = BackupTime {
            year: year as u32,
            month: month as u32,
            day: day as u32,
            hour: hour as u32,
            minute: minute as u32,
            second: second as u32,
            offset_minutes: if sign == '-' {
                0 - off_abs
            } else {
                off_abs
            },
        };
        proof {
            assert(reads_back_as(s@, t));
            lemma_parse_sound(s@, t);
        }
        Some(t)
    } else {
        proof {
            assert forall|t: BackupTime| t.wf() implies s@ != time_text(t) by {
                if s@ == time_text(t) {
                    lemma_parse_complete(t);
                    assert(reads_back_as(s@, t));
                    assert(false);
                }
            }
        }
        None
    }
}

/// A save-directory entry whose name cannot be read as a backup of the
/// target; such entries are skipped, never escalated.
#[derive(Clone, Copy, Debug, PartialEq, Eq, Structural)]
pub struct ParseError;

/// The entry name with a final `.zip` removed, when present.
pub open spec fn strip_zip(s: Seq<char>) -> Seq<char> {
    if s.len() >= 4 && s.subrange(s.len() - 4, s.len() as int) == seq!['.', 'z', 'i', 'p'] {
        s.subrange(0, s.len() - 4)
    } else {
        s
    }
}

/// The unique well-formed time whose encoded name is `entry` (after `.zip`
/// stripping), if there is one.
#[verifier::opaque]
pub open spec fn spec_decoded(name: Seq<char>, entry: Seq<char>) -> Option<BackupTime> {
    if exists|t: BackupTime| t.wf() && strip_zip(entry) == spec_encode(name, t) {
        Some(choose|t: BackupTime| t.wf() && strip_zip(entry) == spec_encode(name, t))
    } else {
        None
    }
}

/// Two well-formed times with the same timestamp text are equal.
pub proof fn lemma_text_injective(t1: BackupTime, t2: BackupTime)
    requires
        t1.wf(),
        t2.wf(),
        time_text(t1) == time_text(t2),
    ensures
        t1 == t2,
{
    lemma_parse_complete(t1);
    lemma_parse_complete(t2);
}

/// A well-formed time whose encoded name equals `strip_zip(entry)` is the one
/// that `spec_decoded` picks.
pub proof fn lemma_spec_decoded_unique(name: Seq<char>, entry: Seq<char>, t: BackupTime)
    requires
        t.wf(),
        strip_zip(entry) == spec_encode(name, t),
    ensures
        spec_decoded(name, entry) == Some(t),
{
    reveal(spec_decoded);
    let picked = choose|t2: BackupTime| t2.wf() && strip_zip(entry) == spec_encode(name, t2);
    assert(picked.wf() && strip_zip(entry) == spec_encode(name, picked));
    assert(time_text(picked) =~= strip_zip(entry).subrange(
        name.len() + 1 as int,
        strip_zip(entry).len() as int,
    ));
    assert(time_text(t) =~= strip_zip(entry).subrange(name.len() + 1 as int, strip_zip(entry).len() as int));
    lemma_text_injective(picked, t);
}

/// If no well-formed time encodes to `entry`, decoding picks nothing.
proof fn lemma_decoded_none(name: Seq<char>, entry: Seq<char>)
    requires
        forall|t: BackupTime| t.wf() ==> strip_zip(entry) != #[trigger] spec_encode(name, t),
    ensures
        spec_decoded(name, entry) is None,
{
    reveal(spec_decoded);
    if spec_decoded(name, entry) is Some {
        let w = choose|t: BackupTime| t.wf() && strip_zip(entry) == spec_encode(name, t);
        assert(w.wf() && strip_zip(entry) == spec_encode(name, w));
    }
}

/// Writes the backup name `<name>_<timestamp>` for the target `name`.
pub fn encode(name: &str, t: &BackupTime) -> (r: String)
    requires
        t.wf(),
    ensures
        r@ == spec_encode(name@, *t),
{
    let mut r = String::from_str(name);
    push_char(&mut r, '_');
    let text = format_time(t);
    r.append(text.as_str());
    r
}

/// Reads a backup entry name back into the timestamp it was written with:
/// strips a final `.zip`, requires the `<name>_` prefix, and parses the
/// remainder in the fixed timestamp grammar.
#[verifier::rlimit(100)]
pub fn decode(name: &str, entry: &str) -> (r: Result<BackupTime, ParseError>)
    ensures
        match r {
            Ok(t) => spec_decoded(name@, entry@) == Some(t) && t.wf(),
            Err(_) => spec_decoded(name@, entry@) is None,
        },
{
    let elen = entry.unicode_len();
    let stripped: &str = if elen >= 4 && entry.get_char(elen - 4) == '.' && entry.get_char(
        elen - 3,
    ) == 'z' && entry.get_char(elen - 2) == 'i' && entry.get_char(elen - 1) == 'p' {
        proof {
            assert(entry@.subrange(entry@.len() - 4, entry@.len() as int) =~= seq![
                '.',
                'z',
                'i',
                'p',
            ]);
        }
        entry.substring_char(0, elen - 4)
    } else {
        proof {
            if entry@.len() >= 4 && entry@.subrange(entry@.len() - 4, entry@.len() as int) =~= seq![
                '.',
                'z',
                'i',
                'p',
            ] {
                assert(false);
            }
        }
        entry
    };
    let ghost body = strip_zip(entry@);
    assert(stripped@ == body);
    let nl = name.unicode_len();
    let sl = stripped.unicode_len();
    if sl < 25 || sl - 25 != nl {
        proof {
            assert forall|t: BackupTime| t.wf() implies strip_zip(entry@) != #[trigger] spec_encode(name@, t) by {}
            lemma_decoded_none(name@, entry@);
        }
        return Err(ParseError);
    }
    let mut i: usize = 0;
    while i < nl
        invariant
            i <= nl,
            nl == name@.len(),
            sl == stripped@.len() == nl + 25,
            stripped@ == body,
            body == strip_zip(entry@),
            forall|k: int| 0 <= k < i ==> stripped@[k] == name@[k],
        decreases nl - i,
    {
        if stripped.get_char(i) != name.get_char(i) {
            proof {
                assert forall|t: BackupTime| t.wf() implies strip_zip(entry@) != #[trigger] spec_encode(name@, t) by {
                    if strip_zip(entry@) == spec_encode(name@, t) {
                        assert(i < name@.len());
                        assert(spec_encode(name@, t)[i as int] == name@[i as int]);
                        assert(strip_zip(entry@)[i as int] == stripped@[i as int]);
                        assert(false);
                    }
                }
                lemma_decoded_none(name@, entry@);
            }
            return Err(ParseError);
        }
        i = i + 1;
    }
    if stripped.get_char(nl) != '_' {
        proof {
            assert forall|t: BackupTime| t.wf() implies strip_zip(entry@) != #[trigger] spec_encode(
                name@,
                t,
            ) by {
                if strip_zip(entry@) == spec_encode(name@, t) {
                    assert(spec_encode(name@, t)[nl as int] == '_');
                    assert(strip_zip(entry@)[nl as int] == stripped@[nl as int]);
                    assert(false);
                }
            }
            lemma_decoded_none(name@, entry@);
        }
        return Err(ParseError);
    }
    let ts = stripped.substring_char(nl + 1, sl);
    proof {
        assert(ts@ =~= body.subrange(nl + 1, body.len() as int));
    }
    match decode_time(ts) {
        Some(t) => {
            proof {
                assert(body =~= spec_encode(name@, t));
                lemma_spec_decoded_unique(name@, entry@, t);
            }
            Ok(t)
        },
        None => {
            proof {
                assert forall|t: BackupTime| t.wf() implies strip_zip(entry@) != #[trigger] spec_encode(name@, t) by {
                    if strip_zip(entry@) == spec_encode(name@, t) {
                        assert(ts@ =~= time_text(t));
                        assert(false);
                    }
                }
                lemma_decoded_none(name@, entry@);
            }
            Err(ParseError)
        },
    }
}

/// The backup-name codec round trip: decoding a name the codec wrote for
/// target `name` returns exactly the timestamp it was written with, for every
/// well-formed timestamp and every target name.
pub proof fn lemma_decode_encode(name: Seq<char>, t: BackupTime)
    requires
        t.wf(),
    ensures
        spec_decoded(name, spec_encode(name, t)) == Some(t),
{
    let e = spec_encode(name, t);
    assert(e.len() == name.len() + 25);
    if e.len() >= 4 && e.subrange(e.len() - 4, e.len() as int) == seq!['.', 'z', 'i', 'p'] {
        assert(e[e.len() - 1] == time_text(t)[23]);
        assert(false);
    }
    assert(strip_zip(e) == e);
    lemma_spec_decoded_unique(name, e, t);
}

/// The number of days from 1970-01-01 to the civil date `y-m-d` in the
/// proleptic Gregorian calendar.
pub open spec fn days_from_civil(y: int, m: int, d: int) -> int {
    let yy = (if m <= 2 {
        y - 1
    } else {
        y
    }) + 400;
    let era = yy / 400;
    let yoe = yy - era * 400;
    let mp = if m > 2 {
        m - 3
    } else {
        m + 9
    };
    let doy = (153 * mp + 2) / 5 + d - 1;
    let doe = yoe * 365 + yoe / 4 - yoe / 100 + doy;
    era * 146097 + doe - 719468 - 146097
}

/// The unix timestamp, in seconds, of a local civil time with its UTC offset.
pub open spec fn unix_of(t: BackupTime) -> int {
    days_from_civil(t.year as int, t.month as int, t.day as int) * 86400 + t.hour as int * 3600
        + t.minute as int * 60 + t.second as int - t.offset_minutes as int * 60
}

/// Converts a local time to unix seconds.
pub fn to_unix(t: &BackupTime) -> (r: i64)
    requires
        t.wf(),
    ensures
        r == unix_of(*t),
{
    let yy: u64 = if t.month <= 2 {
        t.year as u64 + 399
    } else {
        t.year as u64 + 400
    };
    let era: u64 = yy / 400;
    proof {
        vstd::arithmetic::div_mod::lemma_fundamental_div_mod(yy as int, 400);
        assert(era <= 25);
    }
    let yoe: u64 = yy - era * 400;
    let mp: u64 = if t.month > 2 {
        (t.month - 3) as u64
    } else {
        (t.month + 9) as u64
    };
    let doy: u64 = (153 * mp + 2) / 5 + t.day as u64 - 1;
    let doe: u64 = yoe * 365 + yoe / 4 - yoe / 100 + doy;
    let days: i64 = (era * 146097 + doe) as i64 - 719468 - 146097;
    days * 86400 + t.hour as i64 * 3600 + t.minute as i64 * 60 + t.second as i64
        - t.offset_minutes as i64 * 60
}

/// The unix timestamp encoded in a save-directory entry's name, if the entry
/// is a backup of the target `name`.
pub open spec fn decoded_unix(name: Seq<char>, entry: Seq<char>) -> Option<int> {
    match spec_decoded(name, entry) {
        Some(t) => Some(unix_of(t)),
        None => None,
    }
}

/// Reads the creation timestamp out of a backup entry's name, as unix
/// seconds.
pub fn get_backup_time(name: &str, filename: &str) -> (r: Result<i64, ParseError>)
    ensures
        match r {
            Ok(u) => decoded_unix(name@, filename@) == Some(u as int),
            Err(_) => decoded_unix(name@, filename@) is None,
        },
{
    match decode(name, filename) {
        Ok(t) => Ok(to_unix(&t)),
        Err(e) => Err(e),
    }
}

} // verus!
