//! The logic of the `connect` program: argument parsing, labels for logs and match
//! directories, the result line of a game, UTC stamps, and the server address.
//!
//! The program itself (sockets, files, the clock, printing) lives outside the library.

use vstd::prelude::*;
use vstd::string::{StrSliceExecFns, StringExecFns};

use crate::util::{chars_of, str_eq};
use crate::wire::event::WirePlayerId;

verus! {

/// Settings from the command line.
pub struct Config {
    pub server: String,
    pub bot: String,
    pub seed: u64,
    pub games: u32,
    pub deck_path: Option<String>,
    pub cards_dir: String,
    pub log_dir: String,
    pub participant_id: String,
    pub auth_token: String,
    pub bucket: String,
    pub room: String,
    pub vs: String,
}

/// Default directory of the card data.
pub const DEFAULT_CARDS_DIR: &'static str = "data/pokemon-card-data/cards";

/// Default directory of the match logs.
pub const DEFAULT_LOG_DIR: &'static str = "target/matches";

// ============================================================================
// Labels
// ============================================================================

/// The result line of a game: `winner=P1|P2|Draw reason=...` (no winner is a draw).
pub open spec fn summary_spec(winner: Option<WirePlayerId>, reason: Seq<char>) -> Seq<char> {
    let w = match winner {
        Some(WirePlayerId::P1) => "P1"@,
        Some(WirePlayerId::P2) => "P2"@,
        None => "Draw"@,
    };
    "winner="@ + w + " reason="@ + reason
}

/// The result line of a game.
pub fn game_end_summary(winner: Option<WirePlayerId>, reason: &str) -> (r: String)
    ensures
        r@ == summary_spec(winner, reason@),
{
    let mut s = String::new();
    s.append("winner=");
    match winner {
        Some(WirePlayerId::P1) => s.append("P1"),
        Some(WirePlayerId::P2) => s.append("P2"),
        None => s.append("Draw"),
    }
    s.append(" reason=");
    s.append(reason);
    proof {
        assert(Seq::<char>::empty() + "winner="@ =~= "winner="@);
    }
    s
}

/// A character kept in file names: ASCII letters and digits, `-` and `_`.
pub open spec fn safe_char(c: char) -> bool {
    ('a' <= c && c <= 'z') || ('A' <= c && c <= 'Z') || ('0' <= c && c <= '9') || c == '-' || c == '_'
}

/// `s` with every other character replaced by `_`.
pub open spec fn sanitize_spec(s: Seq<char>) -> Seq<char> {
    s.map_values(|c: char| if safe_char(c) { c } else { '_' })
}

/// `s` with every character other than ASCII letters, digits, `-` and `_` replaced by `_`.
pub fn sanitize(s: &str) -> (r: String)
    ensures
        r@ == sanitize_spec(s@),
{
    let cs = chars_of(s);
    let mut out = String::new();
    let mut i: usize = 0;
    while i < cs.len()
        invariant
            cs@ == s@,
            i <= cs@.len(),
            out@ == sanitize_spec(s@.take(i as int)),
        decreases cs.len() - i,
    {
        let c = cs[i];
        if ('a' <= c && c <= 'z') || ('A' <= c && c <= 'Z') || ('0' <= c && c <= '9') || c == '-'
            || c == '_' {
            let piece = s.substring_char(i, i + 1);
            out.append(piece);
            assert(piece@ =~= seq![c]);
        } else {
            out.append("_");
            proof {
                reveal_strlit("_");
            }
        }
        assert(sanitize_spec(s@.take(i + 1)) =~= sanitize_spec(s@.take(i as int)).push(
            if safe_char(c) { c } else { '_' },
        ));
        i = i + 1;
    }
    assert(s@.take(i as int) =~= s@);
    out
}

/// The intent for logs: `vs-bot:NAME`, `room:ID`, `ladder`, or `none`, in that priority.
pub open spec fn intent_spec(cfg: Config) -> Seq<char> {
    if cfg.vs@.len() > 0 {
        "vs-bot:"@ + cfg.vs@
    } else if cfg.room@.len() > 0 {
        "room:"@ + cfg.room@
    } else if cfg.participant_id@.len() > 0 {
        "ladder"@
    } else {
        "none"@
    }
}

/// The intent for logs.
pub fn intent_label(cfg: &Config) -> (r: String)
    ensures
        r@ == intent_spec(*cfg),
{
    let mut s = String::new();
    if cfg.vs.as_str().unicode_len() > 0 {
        s.append("vs-bot:");
        s.append(cfg.vs.as_str());
    } else if cfg.room.as_str().unicode_len() > 0 {
        s.append("room:");
        s.append(cfg.room.as_str());
    } else if cfg.participant_id.as_str().unicode_len() > 0 {
        s.append("ladder");
    } else {
        s.append("none");
    }
    assert(Seq::<char>::empty() + "vs-bot:"@ =~= "vs-bot:"@);
    assert(Seq::<char>::empty() + "room:"@ =~= "room:"@);
    assert(Seq::<char>::empty() + "ladder"@ =~= "ladder"@);
    assert(Seq::<char>::empty() + "none"@ =~= "none"@);
    s
}

/// The opponent for match directory names: the bot's name, `room-ID`, `ladder`, or `none`
/// (names sanitized).
pub open spec fn opp_spec(cfg: Config) -> Seq<char> {
    if cfg.vs@.len() > 0 {
        sanitize_spec(cfg.vs@)
    } else if cfg.room@.len() > 0 {
        "room-"@ + sanitize_spec(cfg.room@)
    } else if cfg.participant_id@.len() > 0 {
        "ladder"@
    } else {
        "none"@
    }
}

/// The opponent for match directory names.
pub fn opp_label(cfg: &Config) -> (r: String)
    ensures
        r@ == opp_spec(*cfg),
{
    if cfg.vs.as_str().unicode_len() > 0 {
        sanitize(cfg.vs.as_str())
    } else if cfg.room.as_str().unicode_len() > 0 {
        let mut s = String::new();
        s.append("room-");
        let tail = sanitize(cfg.room.as_str());
        s.append(tail.as_str());
        assert(Seq::<char>::empty() + "room-"@ =~= "room-"@);
        s
    } else if cfg.participant_id.as_str().unicode_len() > 0 {
        let mut s = String::new();
        s.append("ladder");
        assert(Seq::<char>::empty() + "ladder"@ =~= "ladder"@);
        s
    } else {
        let mut s = String::new();
        s.append("none");
        assert(Seq::<char>::empty() + "none"@ =~= "none"@);
        s
    }
}

} // verus!

verus! {

// ============================================================================
// UTC stamps
// ============================================================================

/// The character of decimal digit `d`.
pub open spec fn digit_char(d: int) -> char {
    if d == 0 {
        '0'
    } else if d == 1 {
        '1'
    } else if d == 2 {
        '2'
    } else if d == 3 {
        '3'
    } else if d == 4 {
        '4'
    } else if d == 5 {
        '5'
    } else if d == 6 {
        '6'
    } else if d == 7 {
        '7'
    } else if d == 8 {
        '8'
    } else {
        '9'
    }
}

/// The decimal digits of `n`.
pub open spec fn digits(n: nat) -> Seq<char>
    decreases n,
{
    if n < 10 {
        seq![digit_char(n as int)]
    } else {
        digits(n / 10) + seq![digit_char((n % 10) as int)]
    }
}

/// `s` padded on the left with `0` to width `w`.
pub open spec fn zero_pad(s: Seq<char>, w: int) -> Seq<char> {
    if s.len() >= w {
        s
    } else {
        Seq::new((w - s.len()) as nat, |i: int| '0') + s
    }
}

/// `n` in decimal, zero-padded to width `w` with the sign counted in the width (as
/// `format!("{n:0w}")` writes it).
pub open spec fn fmt_int(n: int, w: int) -> Seq<char> {
    if n < 0 {
        seq!['-'] + zero_pad(digits((-n) as nat), w - 1)
    } else {
        zero_pad(digits(n as nat), w)
    }
}

/// The string of one decimal digit.
fn digit_str(d: u128) -> (r: &'static str)
    requires
        d < 10,
    ensures
        r@ == seq![digit_char(d as int)],
{
    proof {
        reveal_strlit("0");
        reveal_strlit("1");
        reveal_strlit("2");
        reveal_strlit("3");
        reveal_strlit("4");
        reveal_strlit("5");
        reveal_strlit("6");
        reveal_strlit("7");
        reveal_strlit("8");
        reveal_strlit("9");
    }
    if d == 0 {
        "0"
    } else if d == 1 {
        "1"
    } else if d == 2 {
        "2"
    } else if d == 3 {
        "3"
    } else if d == 4 {
        "4"
    } else if d == 5 {
        "5"
    } else if d == 6 {
        "6"
    } else if d == 7 {
        "7"
    } else if d == 8 {
        "8"
    } else {
        "9"
    }
}

/// Appends the decimal digits of `n`.
pub fn push_digits(out: &mut String, n: u128)
    ensures
        final(out)@ == old(out)@ + digits(n as nat),
    decreases n,
{
    if n >= 10 {
        push_digits(out, n / 10);
    }
    out.append(digit_str(n % 10));
    proof {
        if n >= 10 {
            assert(old(out)@ + digits((n / 10) as nat) + seq![digit_char((n % 10) as int)] =~= old(
                out,
            )@ + digits(n as nat));
        } else {
            assert(old(out)@ + seq![digit_char((n % 10) as int)] =~= old(out)@ + digits(n as nat));
        }
    }
}

/// Number of decimal digits of `n`.
fn num_digits(n: u128) -> (r: usize)
    ensures
        r == digits(n as nat).len(),
    decreases n,
{
    if n < 10 {
        1
    } else {
        let k = num_digits(n / 10);
        proof {
            lemma_digits_len(n as nat);
        }
        k + 1
    }
}

/// A number has at most 39 decimal digits below `2^128`.
pub proof fn lemma_digits_len(n: nat)
    ensures
        digits(n).len() >= 1,
        n < 10 ==> digits(n).len() == 1,
        n >= 10 ==> digits(n).len() == digits(n / 10).len() + 1,
        n <= u128::MAX ==> digits(n).len() <= 39,
    decreases n,
{
    if n >= 10 {
        lemma_digits_len(n / 10);
        if n <= u128::MAX {
            lemma_digits_bound(n);
        }
    }
}

/// Numbers below `10^k` have at most `k` digits (used with `u128`).
pub proof fn lemma_digits_bound(n: nat)
    requires
        n <= u128::MAX,
    ensures
        digits(n).len() <= 39,
{
    assert(pow10(39) == 1000000000000000000000000000000000000000nat) by {
        reveal_with_fuel(pow10, 40);
    }
    assert(u128::MAX < 1000000000000000000000000000000000000000nat);
    lemma_digits_pow(n, 39);
}

/// `n < 10^k` (with `k >= 1`) has at most `k` digits.
pub proof fn lemma_digits_pow(n: nat, k: nat)
    requires
        k >= 1,
        n < pow10(k),
    ensures
        digits(n).len() <= k,
    decreases k,
{
    if n >= 10 {
        assert(k >= 2) by {
            if k == 1 {
                assert(pow10(1) == 10) by {
                    assert(pow10(0) == 1);
                }
            }
        }
        assert(pow10(k) == 10 * pow10((k - 1) as nat));
        assert(n / 10 < pow10((k - 1) as nat));
        lemma_digits_pow(n / 10, (k - 1) as nat);
    }
}

/// `10^k`.
pub open spec fn pow10(k: nat) -> nat
    decreases k,
{
    if k == 0 {
        1
    } else {
        10 * pow10((k - 1) as nat)
    }
}

/// Appends `n` in decimal zero-padded to width `w` (see `fmt_int`).
fn push_padded(out: &mut String, n: i128, w: usize)
    requires
        n > i128::MIN,
        w <= 64,
    ensures
        final(out)@ == old(out)@ + fmt_int(n as int, w as int),
{
    let neg = n < 0;
    let mag: u128 = if neg {
        (-n) as u128
    } else {
        n as u128
    };
    let width: usize = if neg {
        if w > 0 {
            w - 1
        } else {
            0
        }
    } else {
        w
    };
    if neg {
        out.append("-");
        proof {
            reveal_strlit("-");
        }
    }
    let ghost base = out@;
    let nd = num_digits(mag);
    let mut k: usize = nd;
    while k < width
        invariant
            nd <= k <= (if width > nd {
                width
            } else {
                nd
            }),
            out@ == base + Seq::new((k - nd) as nat, |i: int| '0'),
        decreases width - k,
    {
        out.append("0");
        proof {
            reveal_strlit("0");
            assert(base + Seq::new((k + 1 - nd) as nat, |i: int| '0') =~= base + Seq::new(
                (k - nd) as nat,
                |i: int| '0',
            ) + seq!['0']);
        }
        k = k + 1;
    }
    push_digits(out, mag);
    proof {
        let ds = digits(mag as nat);
        if ds.len() >= width {
            assert(Seq::new((k - nd) as nat, |i: int| '0') =~= Seq::<char>::empty());
            assert(base + Seq::<char>::empty() + ds =~= base + zero_pad(ds, width as int));
        } else {
            assert(base + Seq::new((k - nd) as nat, |i: int| '0') + ds =~= base + zero_pad(ds, width as int));
        }
        if neg {
            assert(old(out)@ + seq!['-'] + zero_pad(ds, width as int) =~= old(out)@ + fmt_int(n as int, w as int));
        } else {
            assert(old(out)@ + zero_pad(ds, width as int) =~= old(out)@ + fmt_int(n as int, w as int));
        }
    }
}

} // verus!

verus! {

/// The proleptic Gregorian date `(year, month, day)` of the day `days` after 1970-01-01
/// (civil-from-days: 400-year eras of 146097 days, years starting on March 1st).
pub open spec fn civil_from_days(days: nat) -> (int, int, int) {
    let z = days + 719468;
    let era = z / 146097;
    let doe = z - era * 146097;
    let yoe = (doe - doe / 1460 + doe / 36524 - doe / 146096) / 365;
    let y = yoe + era * 400;
    let doy = doe - (365 * yoe + yoe / 4 - yoe / 100);
    let mp = (5 * doy + 2) / 153;
    let d = doy - (153 * mp + 2) / 5 + 1;
    let m = if mp < 10 {
        mp + 3
    } else {
        mp - 9
    };
    (if m <= 2 {
        y + 1
    } else {
        y
    }, m, d)
}

/// `YYYY-MM-DDThhmmss` for `secs` seconds after the Unix epoch (UTC).
pub open spec fn utc_spec(secs: nat) -> Seq<char> {
    let (y, m, d) = civil_from_days(secs / 86400);
    let sod: int = (secs % 86400) as int;
    fmt_int(y, 4) + "-"@ + fmt_int(m, 2) + "-"@ + fmt_int(d, 2) + "T"@ + fmt_int(sod / 3600, 2)
        + fmt_int((sod % 3600) / 60, 2) + fmt_int(sod % 60, 2)
}

/// Within an era, the day of the year counted from March 1st lies in `0..=365`.
proof fn lemma_day_of_year(doe: int)
    requires
        0 <= doe < 146097,
    ensures
        ({
            let yoe = (doe - doe / 1460 + doe / 36524 - doe / 146096) / 365;
            let doy = doe - (365 * yoe + yoe / 4 - yoe / 100);
            &&& 0 <= yoe <= 399
            &&& 0 <= doy <= 365
        }),
{
}

/// Formats `secs` seconds after the Unix epoch (UTC) as `YYYY-MM-DDThhmmss`.
pub fn fmt_utc(secs: u64) -> (r: String)
    ensures
        r@ == utc_spec(secs as nat),
{
    let days: u64 = secs / 86400;
    let sod: u64 = secs % 86400;
    let hh: u64 = sod / 3600;
    let mm: u64 = (sod % 3600) / 60;
    let ss: u64 = sod % 60;
    let z: u64 = days + 719468;
    let era: u64 = z / 146097;
    let doe: u64 = z - era * 146097;
    proof {
        lemma_day_of_year(doe as int);
    }
    let yoe: u64 = (doe - doe / 1460 + doe / 36524 - doe / 146096) / 365;
    let y: u64 = yoe + era * 400;
    let doy: u64 = doe - (365 * yoe + yoe / 4 - yoe / 100);
    let mp: u64 = (5 * doy + 2) / 153;
    let d: u64 = doy - (153 * mp + 2) / 5 + 1;
    let m: u64 = if mp < 10 {
        mp + 3
    } else {
        mp - 9
    };
    let y: u64 = if m <= 2 {
        y + 1
    } else {
        y
    };
    let mut out = String::new();
    push_padded(&mut out, y as i128, 4);
    out.append("-");
    push_padded(&mut out, m as i128, 2);
    out.append("-");
    push_padded(&mut out, d as i128, 2);
    out.append("T");
    push_padded(&mut out, hh as i128, 2);
    push_padded(&mut out, mm as i128, 2);
    push_padded(&mut out, ss as i128, 2);
    proof {
        assert(out@ =~= utc_spec(secs as nat));
    }
    out
}

} // verus!

verus! {

// ============================================================================
// Decimal numbers
// ============================================================================

/// Why a decimal number was refused.
#[derive(Clone, Copy, Debug, PartialEq, Eq, Structural)]
pub enum NumErr {
    Empty,
    InvalidDigit,
    Overflow,
}

/// The message for each refusal (the words std's integer parsing uses).
pub open spec fn num_err_text(e: NumErr) -> Seq<char> {
    match e {
        NumErr::Empty => "cannot parse integer from empty string"@,
        NumErr::InvalidDigit => "invalid digit found in string"@,
        NumErr::Overflow => "number too large to fit in target type"@,
    }
}

/// The message for a refusal.
pub fn num_err_message(e: NumErr) -> (r: String)
    ensures
        r@ == num_err_text(e),
{
    match e {
        NumErr::Empty => String::from_str("cannot parse integer from empty string"),
        NumErr::InvalidDigit => String::from_str("invalid digit found in string"),
        NumErr::Overflow => String::from_str("number too large to fit in target type"),
    }
}

pub open spec fn is_digit(c: char) -> bool {
    '0' <= c && c <= '9'
}

pub open spec fn digit_value(c: char) -> int {
    c as int - '0' as int
}

/// Reads the digits of `ds` from `i` on after `acc`, left to right: the first character
/// that is no digit refuses the text, and so does the first digit that takes the value
/// above `max`.
pub open spec fn scan_digits(ds: Seq<char>, i: nat, acc: int, max: int) -> Result<int, NumErr>
    decreases ds.len() - i,
{
    if i >= ds.len() {
        Ok(acc)
    } else if !is_digit(ds[i as int]) {
        Err(NumErr::InvalidDigit)
    } else if acc * 10 + digit_value(ds[i as int]) > max {
        Err(NumErr::Overflow)
    } else {
        scan_digits(ds, i + 1, acc * 10 + digit_value(ds[i as int]), max)
    }
}

/// An unsigned decimal number no larger than `max`, with an optional leading `+`.
pub open spec fn parse_uint_spec(s: Seq<char>, max: int) -> Result<int, NumErr> {
    if s.len() == 0 {
        Err(NumErr::Empty)
    } else if s.len() == 1 && (s[0] == '+' || s[0] == '-') {
        Err(NumErr::InvalidDigit)
    } else if s[0] == '+' {
        scan_digits(s, 1, 0, max)
    } else {
        scan_digits(s, 0, 0, max)
    }
}

/// Parses an unsigned decimal number no larger than `max`.
pub fn parse_uint(s: &str, max: u64) -> (r: Result<u64, NumErr>)
    ensures
        match r {
            Ok(v) => v <= max && parse_uint_spec(s@, max as int) == Ok::<int, NumErr>(v as int),
            Err(e) => parse_uint_spec(s@, max as int) == Err::<int, NumErr>(e),
        },
{
    let cs = chars_of(s);
    let n = cs.len();
    if n == 0 {
        return Err(NumErr::Empty);
    }
    if n == 1 && (cs[0] == '+' || cs[0] == '-') {
        return Err(NumErr::InvalidDigit);
    }
    let start: usize = if cs[0] == '+' {
        1
    } else {
        0
    };
    let ghost whole = scan_digits(s@, start as nat, 0, max as int);
    let mut acc: u64 = 0;
    let mut i: usize = start;
    while i < n
        invariant
            cs@ == s@,
            n == cs@.len(),
            start <= i <= n,
            acc <= max,
            whole == scan_digits(s@, start as nat, 0, max as int),
            whole == scan_digits(s@, i as nat, acc as int, max as int),
        decreases n - i,
    {
        let c = cs[i];
        if !('0' <= c && c <= '9') {
            return Err(NumErr::InvalidDigit);
        }
        let d: u64 = ((c as u32) - 48) as u64;
        assert(d as int == digit_value(c));
        if d > max || acc > (max - d) / 10 {
            assert(acc * 10 + d > max) by (nonlinear_arith)
                requires
                    d > max || acc > (max - d) / 10,
                    acc >= 0,
            ;
            return Err(NumErr::Overflow);
        }
        assert(acc * 10 + d <= max) by (nonlinear_arith)
            requires
                acc <= (max - d) / 10,
                d <= max,
        ;
        acc = acc * 10 + d;
        i = i + 1;
    }
    Ok(acc)
}

} // verus!

verus! {

// ============================================================================
// Server address
// ============================================================================

/// What `format!("{:?}", s)` writes for the string `s` (quoted, with escapes).
pub uninterp spec fn str_debug(s: Seq<char>) -> Seq<char>;

/// std's `Debug` for `str`. The contract names the text it writes `str_debug` of the
/// characters; the quoting and escaping rules themselves are not stated.
#[verifier::external_body]
fn debug_quoted(s: &str) -> (r: String)
    ensures
        r@ == str_debug(s@),
{
    format!("{:?}", s)
}

/// `s` without a leading `wss://` (secure) or `ws://`.
pub open spec fn strip_scheme(s: Seq<char>) -> (Seq<char>, bool) {
    if s.len() >= 6 && s.take(6) == "wss://"@ {
        (s.skip(6), true)
    } else if s.len() >= 5 && s.take(5) == "ws://"@ {
        (s.skip(5), false)
    } else {
        (s, false)
    }
}

/// `s` up to its first `c`, or all of `s`.
pub open spec fn before_first(s: Seq<char>, c: char) -> Seq<char>
    decreases s.len(),
{
    if s.len() == 0 {
        s
    } else if s[0] == c {
        Seq::empty()
    } else {
        seq![s[0]] + before_first(s.drop_first(), c)
    }
}

/// The position of the last `c` in `s`.
pub open spec fn last_index_of(s: Seq<char>, c: char) -> Option<int>
    decreases s.len(),
{
    if s.len() == 0 {
        None
    } else if s.last() == c {
        Some(s.len() - 1)
    } else {
        last_index_of(s.drop_last(), c)
    }
}

/// `(host, port, secure)` of `ws://host:port`, `wss://host[:port]` or `host:port`: the
/// scheme is dropped, then everything from the first `/`; the port follows the last `:`
/// and defaults to 443 (wss) or 80.
pub open spec fn ws_server_spec(s: Seq<char>) -> Result<(Seq<char>, int, bool), Seq<char>> {
    let (rest, secure) = strip_scheme(s);
    let authority = before_first(rest, '/');
    let (host, port) = match last_index_of(authority, ':') {
        Some(k) => (
            authority.take(k),
            match parse_uint_spec(authority.skip(k + 1), 65535) {
                Ok(p) => Ok(p),
                Err(e) => Err("bad port in --server "@ + str_debug(s) + ": "@ + num_err_text(e)),
            },
        ),
        None => (authority, Ok(if secure {
            443
        } else {
            80
        })),
    };
    match port {
        Err(msg) => Err(msg),
        Ok(p) => if host.len() == 0 {
            Err("--server has empty host (got "@ + str_debug(s) + ")"@)
        } else {
            Ok((host, p, secure))
        },
    }
}

/// Whether `cs` begins with `p`.
fn has_prefix(cs: &Vec<char>, p: &str) -> (r: bool)
    ensures
        r == (cs@.len() >= p@.len() && cs@.take(p@.len() as int) == p@),
{
    let ps = chars_of(p);
    if ps.len() > cs.len() {
        return false;
    }
    let mut i: usize = 0;
    while i < ps.len()
        invariant
            ps@ == p@,
            ps@.len() <= cs@.len(),
            i <= ps@.len(),
            forall|j: int| 0 <= j < i ==> cs@[j] == ps@[j],
        decreases ps.len() - i,
    {
        if cs[i] != ps[i] {
            assert(cs@.take(p@.len() as int)[i as int] != p@[i as int]);
            return false;
        }
        i = i + 1;
    }
    assert(cs@.take(p@.len() as int) =~= p@);
    true
}

proof fn lemma_before_first(s: Seq<char>, c: char, k: int)
    requires
        0 <= k <= s.len(),
        forall|j: int| 0 <= j < k ==> s[j] != c,
        k == s.len() || s[k] == c,
    ensures
        before_first(s, c) == s.take(k),
    decreases s.len(),
{
    if s.len() > 0 && s[0] != c {
        let t = s.drop_first();
        assert forall|j: int| 0 <= j < k - 1 implies t[j] != c by {
            assert(t[j] == s[j + 1]);
        }
        lemma_before_first(t, c, k - 1);
        assert(seq![s[0]] + t.take(k - 1) =~= s.take(k));
    } else if s.len() == 0 {
        assert(s.take(k) =~= s);
    } else {
        assert(s.take(k) =~= Seq::<char>::empty());
    }
}

proof fn lemma_last_index(s: Seq<char>, c: char)
    ensures
        match last_index_of(s, c) {
            Some(k) => 0 <= k < s.len() && s[k] == c && forall|j: int| k < j < s.len() ==> s[j] != c,
            None => forall|j: int| 0 <= j < s.len() ==> s[j] != c,
        },
    decreases s.len(),
{
    if s.len() > 0 && s.last() != c {
        let t = s.drop_last();
        lemma_last_index(t, c);
        assert forall|j: int| 0 <= j < t.len() implies t[j] == s[j] by {}
    }
}

/// Where the authority of `s` lies: after the scheme, up to the first `/`.
fn authority_bounds(s: &str, cs: &Vec<char>) -> (r: (usize, usize))
    requires
        cs@ == s@,
    ensures
        r.0 <= r.1 <= s@.len(),
        before_first(strip_scheme(s@).0, '/') == s@.subrange(r.0 as int, r.1 as int),
        strip_scheme(s@).1 == (r.0 == 6),
{
    let n = cs.len();
    proof {
        reveal_strlit("wss://");
        reveal_strlit("ws://");
    }
    let wss = has_prefix(cs, "wss://");
    let ws = !wss && has_prefix(cs, "ws://");
    let start: usize = if wss {
        6
    } else if ws {
        5
    } else {
        0
    };
    let ghost rest = strip_scheme(s@).0;
    assert(rest =~= s@.skip(start as int));
    let mut end: usize = start;
    while end < n
        invariant
            cs@ == s@,
            n == cs@.len(),
            start <= end <= n,
            forall|j: int| start <= j < end ==> cs@[j] != '/',
        decreases n - end,
    {
        if cs[end] == '/' {
            break;
        }
        end = end + 1;
    }
    proof {
        assert forall|j: int| 0 <= j < end - start implies rest[j] != '/' by {
            assert(rest[j] == cs@[j + start]);
        }
        if end < n {
            assert(rest[end - start] == cs@[end as int]);
        }
        lemma_before_first(rest, '/', end - start);
        assert(rest.take(end - start) =~= s@.subrange(start as int, end as int));
    }
    (start, end)
}

/// The position of the last `:` in `cs[start..end]`, counted from `start`.
fn last_colon(cs: &Vec<char>, start: usize, end: usize) -> (r: Option<usize>)
    requires
        start <= end <= cs@.len(),
    ensures
        match r {
            Some(k) => k < end - start && last_index_of(cs@.subrange(start as int, end as int), ':')
                == Some(k as int),
            None => last_index_of(cs@.subrange(start as int, end as int), ':') is None,
        },
{
    let ghost a = cs@.subrange(start as int, end as int);
    let mut k: usize = end;
    while k > start
        invariant
            start <= k <= end <= cs@.len(),
            forall|j: int| k <= j < end ==> cs@[j] != ':',
        decreases k,
    {
        if cs[k - 1] == ':' {
            break;
        }
        k = k - 1;
    }
    proof {
        lemma_last_index(a, ':');
        if k > start {
            assert(a[k - 1 - start] == ':');
            if last_index_of(a, ':') != Some(k - 1 - start) {
                let kk = last_index_of(a, ':').unwrap();
                assert(a[kk] == cs@[kk + start]);
            }
        } else if last_index_of(a, ':') is Some {
            let kk = last_index_of(a, ':').unwrap();
            assert(a[kk] == cs@[kk + start]);
        }
    }
    if k > start {
        Some(k - 1 - start)
    } else {
        None
    }
}

/// Splits the `--server` value into `(host, port, secure)`.
pub fn parse_ws_server(s: &str) -> (r: Result<(String, u16, bool), String>)
    ensures
        match r {
            Ok((h, p, sec)) => ws_server_spec(s@) == Ok::<(Seq<char>, int, bool), Seq<char>>(
                (h@, p as int, sec),
            ),
            Err(e) => ws_server_spec(s@) == Err::<(Seq<char>, int, bool), Seq<char>>(e@),
        },
{
    let cs = chars_of(s);
    let (start, end) = authority_bounds(s, &cs);
    let secure = start == 6;
    let ghost authority = s@.subrange(start as int, end as int);
    let host_end: usize;
    let port: u16;
    match last_colon(&cs, start, end) {
        Some(k) => {
            host_end = start + k;
            let port_str = s.substring_char(start + k + 1, end);
            assert(port_str@ =~= authority.skip(k + 1));
            match parse_uint(port_str, 65535) {
                Ok(p) => {
                    port = p as u16;
                },
                Err(e) => {
                    let mut msg = String::from_str("bad port in --server ");
                    let q = debug_quoted(s);
                    msg.append(q.as_str());
                    msg.append(": ");
                    let t = num_err_message(e);
                    msg.append(t.as_str());
                    proof {
                        reveal_strlit("bad port in --server ");
                        reveal_strlit(": ");
                    }
                    return Err(msg);
                },
            }
        },
        None => {
            host_end = end;
            port = if secure {
                443
            } else {
                80
            };
        },
    }
    if host_end == start {
        let mut msg = String::from_str("--server has empty host (got ");
        let q = debug_quoted(s);
        msg.append(q.as_str());
        msg.append(")");
        proof {
            reveal_strlit("--server has empty host (got ");
            reveal_strlit(")");
        }
        return Err(msg);
    }
    let host = s.substring_char(start, host_end);
    let h = String::from_str(host);
    assert(h@ =~= authority.take(host_end - start));
    Ok((h, port, secure))
}

} // verus!

verus! {

// ============================================================================
// Command line
// ============================================================================

/// The options of the command line.
#[derive(Clone, Copy, Debug, PartialEq, Eq, Structural)]
pub enum Flag {
    Server,
    Bot,
    Seed,
    Games,
    Deck,
    CardsDir,
    LogDir,
    Room,
    Vs,
    ParticipantId,
    AuthToken,
    Bucket,
    Help,
    Unknown,
}

/// The option an argument names.
pub open spec fn flag_of(a: Seq<char>) -> Flag {
    if a == "--server"@ {
        Flag::Server
    } else if a == "--bot"@ {
        Flag::Bot
    } else if a == "--seed"@ {
        Flag::Seed
    } else if a == "--games"@ {
        Flag::Games
    } else if a == "--deck"@ {
        Flag::Deck
    } else if a == "--cards-dir"@ {
        Flag::CardsDir
    } else if a == "--log-dir"@ {
        Flag::LogDir
    } else if a == "--room"@ {
        Flag::Room
    } else if a == "--vs"@ {
        Flag::Vs
    } else if a == "--participant-id"@ {
        Flag::ParticipantId
    } else if a == "--auth-token"@ {
        Flag::AuthToken
    } else if a == "--bucket"@ {
        Flag::Bucket
    } else if a == "-h"@ || a == "--help"@ {
        Flag::Help
    } else {
        Flag::Unknown
    }
}

/// The option an argument names.
pub fn flag_kind(a: &str) -> (r: Flag)
    ensures
        r == flag_of(a@),
{
    if str_eq(a, "--server") {
        Flag::Server
    } else if str_eq(a, "--bot") {
        Flag::Bot
    } else if str_eq(a, "--seed") {
        Flag::Seed
    } else if str_eq(a, "--games") {
        Flag::Games
    } else if str_eq(a, "--deck") {
        Flag::Deck
    } else if str_eq(a, "--cards-dir") {
        Flag::CardsDir
    } else if str_eq(a, "--log-dir") {
        Flag::LogDir
    } else if str_eq(a, "--room") {
        Flag::Room
    } else if str_eq(a, "--vs") {
        Flag::Vs
    } else if str_eq(a, "--participant-id") {
        Flag::ParticipantId
    } else if str_eq(a, "--auth-token") {
        Flag::AuthToken
    } else if str_eq(a, "--bucket") {
        Flag::Bucket
    } else if str_eq(a, "-h") || str_eq(a, "--help") {
        Flag::Help
    } else {
        Flag::Unknown
    }
}

/// The settings as plain values, while the arguments are read (`server` may be missing).
pub struct ArgsModel {
    pub server: Option<Seq<char>>,
    pub bot: Seq<char>,
    pub seed: u64,
    pub games: u32,
    pub deck_path: Option<Seq<char>>,
    pub cards_dir: Seq<char>,
    pub log_dir: Seq<char>,
    pub participant_id: Seq<char>,
    pub auth_token: Seq<char>,
    pub bucket: Seq<char>,
    pub room: Seq<char>,
    pub vs: Seq<char>,
}

/// The settings before any argument: the `random` bot, seed 42, one game, the default
/// directories.
pub open spec fn default_args() -> ArgsModel {
    ArgsModel {
        server: None,
        bot: "random"@,
        seed: 42,
        games: 1,
        deck_path: None,
        cards_dir: DEFAULT_CARDS_DIR@,
        log_dir: DEFAULT_LOG_DIR@,
        participant_id: Seq::empty(),
        auth_token: Seq::empty(),
        bucket: Seq::empty(),
        room: Seq::empty(),
        vs: Seq::empty(),
    }
}

/// The settings after option `f` with value `v` (numbers must parse).
pub open spec fn with_value(m: ArgsModel, f: Flag, v: Seq<char>) -> Result<ArgsModel, Seq<char>> {
    match f {
        Flag::Server => Ok(ArgsModel { server: Some(v), ..m }),
        Flag::Bot => Ok(ArgsModel { bot: v, ..m }),
        Flag::Seed => match parse_uint_spec(v, u64::MAX as int) {
            Ok(n) => Ok(ArgsModel { seed: n as u64, ..m }),
            Err(e) => Err(num_err_text(e)),
        },
        Flag::Games => match parse_uint_spec(v, u32::MAX as int) {
            Ok(n) => Ok(ArgsModel { games: n as u32, ..m }),
            Err(e) => Err(num_err_text(e)),
        },
        Flag::Deck => Ok(ArgsModel { deck_path: Some(v), ..m }),
        Flag::CardsDir => Ok(ArgsModel { cards_dir: v, ..m }),
        Flag::LogDir => Ok(ArgsModel { log_dir: v, ..m }),
        Flag::Room => Ok(ArgsModel { room: v, ..m }),
        Flag::Vs => Ok(ArgsModel { vs: v, ..m }),
        Flag::ParticipantId => Ok(ArgsModel { participant_id: v, ..m }),
        Flag::AuthToken => Ok(ArgsModel { auth_token: v, ..m }),
        Flag::Bucket => Ok(ArgsModel { bucket: v, ..m }),
        _ => Ok(m),
    }
}

/// Reads `argv` from position `i` on: `-h`/`--help` stops with `Ok(None)`, an unknown
/// argument or an option without its value is an error, and at the end `--server` must
/// have been given.
pub open spec fn args_from(argv: Seq<Seq<char>>, i: nat, m: ArgsModel) -> Result<
    Option<ArgsModel>,
    Seq<char>,
>
    decreases argv.len() - i,
{
    if i >= argv.len() {
        if m.server is Some {
            Ok(Some(m))
        } else {
            Err("connect requires --server wss://HOST (or ws://HOST:PORT)"@)
        }
    } else {
        let a = argv[i as int];
        let f = flag_of(a);
        if f == Flag::Help {
            Ok(None)
        } else if f == Flag::Unknown {
            Err("unknown arg: "@ + a)
        } else if i + 1 >= argv.len() {
            Err("missing value for "@ + a)
        } else {
            match with_value(m, f, argv[(i + 1) as int]) {
                Ok(m2) => args_from(argv, i + 2, m2),
                Err(e) => Err(e),
            }
        }
    }
}

/// The settings as plain values.
pub open spec fn config_model(c: Config) -> ArgsModel {
    ArgsModel {
        server: Some(c.server@),
        bot: c.bot@,
        seed: c.seed,
        games: c.games,
        deck_path: match c.deck_path {
            Some(p) => Some(p@),
            None => None,
        },
        cards_dir: c.cards_dir@,
        log_dir: c.log_dir@,
        participant_id: c.participant_id@,
        auth_token: c.auth_token@,
        bucket: c.bucket@,
        room: c.room@,
        vs: c.vs@,
    }
}

/// The arguments as plain values.
pub open spec fn argv_view(argv: Seq<String>) -> Seq<Seq<char>> {
    argv.map_values(|a: String| a@)
}

/// The settings of a run so far, as plain values.
spec fn locals_model(
    server: Option<String>,
    bot: String,
    seed: u64,
    games: u32,
    deck_path: Option<String>,
    cards_dir: String,
    log_dir: String,
    participant_id: String,
    auth_token: String,
    bucket: String,
    room: String,
    vs: String,
) -> ArgsModel {
    ArgsModel {
        server: match server {
            Some(p) => Some(p@),
            None => None,
        },
        bot: bot@,
        seed: seed,
        games: games,
        deck_path: match deck_path {
            Some(p) => Some(p@),
            None => None,
        },
        cards_dir: cards_dir@,
        log_dir: log_dir@,
        participant_id: participant_id@,
        auth_token: auth_token@,
        bucket: bucket@,
        room: room@,
        vs: vs@,
    }
}

/// Reads the command line into settings. `Ok(None)`: help was asked for.
pub fn parse_args(argv: &[String]) -> (r: Result<Option<Config>, String>)
    ensures
        match r {
            Ok(Some(c)) => args_from(argv_view(argv@), 0, default_args()) == Ok::<
                Option<ArgsModel>,
                Seq<char>,
            >(Some(config_model(c))),
            Ok(None) => args_from(argv_view(argv@), 0, default_args()) == Ok::<
                Option<ArgsModel>,
                Seq<char>,
            >(None),
            Err(e) => args_from(argv_view(argv@), 0, default_args()) == Err::<
                Option<ArgsModel>,
                Seq<char>,
            >(e@),
        },
{
    let ghost av = argv_view(argv@);
    let mut server: Option<String> = None;
    let mut bot = String::from_str("random");
    let mut seed: u64 = 42;
    let mut games: u32 = 1;
    let mut deck_path: Option<String> = None;
    let mut cards_dir = String::from_str(DEFAULT_CARDS_DIR);
    let mut log_dir = String::from_str(DEFAULT_LOG_DIR);
    let mut participant_id = String::new();
    let mut auth_token = String::new();
    let mut bucket = String::new();
    let mut room = String::new();
    let mut vs = String::new();
    proof {
        reveal_strlit("random");
    }
    assert(locals_model(server, bot, seed, games, deck_path, cards_dir, log_dir, participant_id,
        auth_token, bucket, room, vs) == default_args());
    let n = argv.len();
    let mut i: usize = 0;
    while i < n
        invariant
            n == argv@.len(),
            av == argv_view(argv@),
            i <= n,
            args_from(av, 0, default_args()) == args_from(
                av,
                i as nat,
                locals_model(
                    server,
                    bot,
                    seed,
                    games,
                    deck_path,
                    cards_dir,
                    log_dir,
                    participant_id,
                    auth_token,
                    bucket,
                    room,
                    vs,
                ),
            ),
        decreases n - i,
    {
        let a = argv[i].as_str();
        assert(av[i as int] == a@);
        let f = flag_kind(a);
        if f == Flag::Help {
            return Ok(None);
        }
        if f == Flag::Unknown {
            let mut msg = String::from_str("unknown arg: ");
            msg.append(a);
            proof {
                reveal_strlit("unknown arg: ");
            }
            return Err(msg);
        }
        if i + 1 >= n {
            let mut msg = String::from_str("missing value for ");
            msg.append(a);
            proof {
                reveal_strlit("missing value for ");
            }
            return Err(msg);
        }
        let v = argv[i + 1].clone();
        assert(av[i + 1] == v@);
        match f {
            Flag::Server => {
                server = Some(v);
            },
            Flag::Bot => {
                bot = v;
            },
            Flag::Seed => {
                match parse_uint(v.as_str(), u64::MAX) {
                    Ok(x) => {
                        seed = x;
                    },
                    Err(e) => {
                        return Err(num_err_message(e));
                    },
                }
            },
            Flag::Games => {
                match parse_uint(v.as_str(), 4294967295) {
                    Ok(x) => {
                        games = x as u32;
                    },
                    Err(e) => {
                        return Err(num_err_message(e));
                    },
                }
            },
            Flag::Deck => {
                deck_path = Some(v);
            },
            Flag::CardsDir => {
                cards_dir = v;
            },
            Flag::LogDir => {
                log_dir = v;
            },
            Flag::Room => {
                room = v;
            },
            Flag::Vs => {
                vs = v;
            },
            Flag::ParticipantId => {
                participant_id = v;
            },
            Flag::AuthToken => {
                auth_token = v;
            },
            _ => {
                bucket = v;
            },
        }
        i = i + 2;
    }
    match server {
        Some(sv) => Ok(
            Some(
                Config {
                    server: sv,
                    bot,
                    seed,
                    games,
                    deck_path,
                    cards_dir,
                    log_dir,
                    participant_id,
                    auth_token,
                    bucket,
                    room,
                    vs,
                },
            ),
        ),
        None => {
            proof {
                reveal_strlit("connect requires --server wss://HOST (or ws://HOST:PORT)");
            }
            Err(String::from_str("connect requires --server wss://HOST (or ws://HOST:PORT)"))
        },
    }
}

} // verus!

verus! {

// ============================================================================
// Laws
// ============================================================================

/// A UTC stamp names a real time of day on a real date: month 1 to 12, day 1 to 31, hour
/// below 24, minute and second below 60, and a year from 1970 on.
pub proof fn law_utc_fields_in_range(secs: nat)
    ensures
        ({
            let (y, m, d) = civil_from_days(secs / 86400);
            let sod = (secs % 86400) as int;
            &&& y >= 1970
            &&& 1 <= m <= 12
            &&& 1 <= d <= 31
            &&& 0 <= sod / 3600 < 24
            &&& 0 <= (sod % 3600) / 60 < 60
            &&& 0 <= sod % 60 < 60
        }),
{
    let days = secs / 86400;
    let z = days + 719468;
    let era = z / 146097;
    let doe = z - era * 146097;
    assert(0 <= doe < 146097);
    lemma_day_of_year(doe);
    assert(era >= 4);
}

/// A leap year of the Gregorian calendar.
pub open spec fn leap_year(y: int) -> bool {
    y % 4 == 0 && (y % 100 != 0 || y % 400 == 0)
}

/// The number of days in month `m` of year `y`.
pub open spec fn month_days(y: int, m: int) -> int {
    if m == 2 {
        if leap_year(y) {
            29
        } else {
            28
        }
    } else if m == 4 || m == 6 || m == 9 || m == 11 {
        30
    } else {
        31
    }
}

/// The calendar date after `(year, month, day)`.
pub open spec fn day_after(date: (int, int, int)) -> (int, int, int) {
    let (y, m, d) = date;
    if d < month_days(y, m) {
        (y, m, d + 1)
    } else if m < 12 {
        (y, m + 1, 1)
    } else {
        (y + 1, 1, 1)
    }
}

/// The year of the era (counted from March 1st) that holds day `doe` of the era.
#[verifier::opaque]
spec fn era_year(doe: int) -> int {
    (doe - doe / 1460 + doe / 36524 - doe / 146096) / 365
}

/// The day of that year, counted from March 1st.
#[verifier::opaque]
spec fn year_day(doe: int) -> int {
    let yoe = era_year(doe);
    doe - (365 * yoe + yoe / 4 - yoe / 100)
}

/// The length of the year of the era `yoe` (from March 1st): 366 where the February it
/// ends with is a leap one.
spec fn era_year_len(yoe: int) -> int {
    if leap_year(yoe + 1) {
        366
    } else {
        365
    }
}

/// The date of day `doy` (from March 1st) of year `yoe` of the era.
#[verifier::opaque]
spec fn date_of(yoe: int, doy: int) -> (int, int, int) {
    let mp = (5 * doy + 2) / 153;
    let d = doy - (153 * mp + 2) / 5 + 1;
    let m = if mp < 10 {
        mp + 3
    } else {
        mp - 9
    };
    (if m <= 2 {
        yoe + 1
    } else {
        yoe
    }, m, d)
}

/// The date of day `doe` of a 400-year era that starts on March 1st of year 0 of the era.
#[verifier::opaque]
spec fn era_date(doe: int) -> (int, int, int) {
    date_of(era_year(doe), year_day(doe))
}

/// From one day of an era to the next, the year stays and its day goes up by one, or the
/// year ends and the next starts.
#[verifier::rlimit(100)]
#[verifier::spinoff_prover]
proof fn lemma_year_step(doe: int)
    requires
        0 <= doe < 146096,
    ensures
        0 <= era_year(doe) < 400,
        0 <= year_day(doe) < era_year_len(era_year(doe)),
        0 <= year_day(doe + 1) < era_year_len(era_year(doe + 1)),
        (era_year(doe + 1) == era_year(doe) && year_day(doe + 1) == year_day(doe) + 1) || (era_year(
            doe + 1,
        ) == era_year(doe) + 1 && year_day(doe + 1) == 0 && year_day(doe) == era_year_len(
            era_year(doe),
        ) - 1),
{
    reveal(era_year);
    reveal(year_day);
}

/// Within a year (from March 1st), each day's date is the day after the previous one's.
#[verifier::rlimit(50)]
#[verifier::spinoff_prover]
proof fn lemma_date_step(yoe: int, doy: int, leap: bool)
    requires
        leap == leap_year(yoe + 1),
        0 <= doy,
        doy + 1 < if leap {
            366int
        } else {
            365int
        },
    ensures
        date_of(yoe, doy + 1) == day_after(date_of(yoe, doy)),
{
    reveal(date_of);
}

/// The day after a year's last day (February 28th or 29th) is March 1st of the next.
#[verifier::spinoff_prover]
proof fn lemma_date_year_end(yoe: int)
    ensures
        day_after(date_of(yoe, era_year_len(yoe) - 1)) == date_of(yoe + 1, 0),
{
    reveal(date_of);
}

/// Within an era, each day's date is the day after the previous one's.
#[verifier::spinoff_prover]
proof fn lemma_era_step(doe: int)
    requires
        0 <= doe < 146096,
    ensures
        era_date(doe + 1) == day_after(era_date(doe)),
{
    reveal(era_date);
    lemma_year_step(doe);
    let yoe = era_year(doe);
    let doy = year_day(doe);
    if era_year(doe + 1) == yoe {
        lemma_date_step(yoe, doy, leap_year(yoe + 1));
    } else {
        lemma_date_year_end(yoe);
    }
}

/// An era starts on March 1st of its year 0 and ends on February 29th of its year 400.
proof fn lemma_era_ends()
    ensures
        era_date(0) == (0int, 3int, 1int),
        era_date(146096) == (400int, 2int, 29int),
{
    reveal(era_year);
    reveal(year_day);
    reveal(date_of);
    reveal(era_date);
}

/// Leap years repeat every 400 years, so the day after moves with a 400-year shift.
#[verifier::spinoff_prover]
#[verifier::rlimit(50)]
proof fn lemma_day_after_shift(y: int, m: int, d: int, era: int)
    ensures
        day_after((y + era * 400, m, d)) == ({
            let n = day_after((y, m, d));
            (n.0 + era * 400, n.1, n.2)
        }),
{
    vstd::arithmetic::div_mod::lemma_mod_multiples_vanish(100 * era, y, 4);
    vstd::arithmetic::div_mod::lemma_mod_multiples_vanish(4 * era, y, 100);
    vstd::arithmetic::div_mod::lemma_mod_multiples_vanish(era, y, 400);
    assert(4 * (100 * era) + y == y + era * 400);
    assert(100 * (4 * era) + y == y + era * 400);
    assert(400 * era + y == y + era * 400);
    assert(leap_year(y + era * 400) == leap_year(y));
}

/// The day's date is its era's date, shifted by 400 years per era.
#[verifier::spinoff_prover]
#[verifier::rlimit(50)]
proof fn lemma_civil_by_era(days: nat)
    ensures
        ({
            let z = days + 719468;
            let era = z / 146097;
            let e = era_date(z - era * 146097);
            &&& 0 <= z - era * 146097 < 146097
            &&& civil_from_days(days) == (e.0 + era * 400, e.1, e.2)
        }),
{
    reveal(era_year);
    reveal(year_day);
    reveal(date_of);
    reveal(era_date);
}

/// A UTC stamp follows the calendar: day 0 is 1970-01-01, and each next day is the Gregorian
/// calendar's day after (months of 28 to 31 days, leap years every 4 years but centuries not
/// divisible by 400).
#[verifier::spinoff_prover]
#[verifier::rlimit(50)]
pub proof fn law_civil_days_follow_calendar(days: nat)
    ensures
        civil_from_days(0) == (1970int, 1int, 1int),
        civil_from_days(days + 1) == day_after(civil_from_days(days)),
{
    lemma_civil_by_era(0);
    lemma_civil_by_era(days);
    lemma_civil_by_era(days + 1);
    lemma_era_ends();
    let z: int = days as int + 719468;
    let era: int = z / 146097;
    let doe: int = z - era * 146097;
    let e = era_date(doe);
    lemma_day_after_shift(e.0, e.1, e.2, era);
    if doe < 146096 {
        lemma_era_step(doe);
        assert((z + 1) / 146097 == era);
    } else {
        assert((z + 1) / 146097 == era + 1);
    }
}

/// Sanitizing keeps the length, leaves only safe characters, and changes nothing more when
/// done twice.
pub proof fn law_sanitize_idempotent(s: Seq<char>)
    ensures
        sanitize_spec(s).len() == s.len(),
        forall|i: int| 0 <= i < s.len() ==> safe_char(#[trigger] sanitize_spec(s)[i]),
        sanitize_spec(sanitize_spec(s)) == sanitize_spec(s),
{
    assert(sanitize_spec(sanitize_spec(s)) =~= sanitize_spec(s));
}

} // verus!

verus! {

// ============================================================================
// Running the games
// ============================================================================

/// The settings are usable when they name a known bot; the message says which names are.
/// Any intent goes, none included: without `--vs`, `--room` or `--participant-id` the
/// connection asks for an open match.
pub open spec fn config_check_spec(cfg: Config) -> Result<(), Seq<char>> {
    if !crate::bots::bot_names().contains(cfg.bot@) {
        Err(
            "--bot must be one of [\"random\", \"dragapult-takeuchi\", \"dragapult-yopifutto\"] (got "@
                + str_debug(cfg.bot@) + ")"@,
        )
    } else {
        Ok(())
    }
}

/// Checks the settings before any connection (see `config_check_spec`).
pub fn check_config(cfg: &Config) -> (r: Result<(), String>)
    ensures
        match r {
            Ok(()) => config_check_spec(*cfg) == Ok::<(), Seq<char>>(()),
            Err(e) => config_check_spec(*cfg) == Err::<(), Seq<char>>(e@),
        },
{
    let known = str_eq(cfg.bot.as_str(), "random") || str_eq(cfg.bot.as_str(), "dragapult-takeuchi")
        || str_eq(cfg.bot.as_str(), "dragapult-yopifutto");
    proof {
        let bn = crate::bots::bot_names();
        assert(bn[0] == "random"@ && bn[1] == "dragapult-takeuchi"@ && bn[2] == "dragapult-yopifutto"@);
        if bn.contains(cfg.bot@) {
            let k = choose|k: int| 0 <= k < bn.len() && bn[k] == cfg.bot@;
            assert(k == 0 || k == 1 || k == 2);
        }
    }
    if !known {
        let mut msg = String::from_str(
            "--bot must be one of [\"random\", \"dragapult-takeuchi\", \"dragapult-yopifutto\"] (got ",
        );
        let q = debug_quoted(cfg.bot.as_str());
        msg.append(q.as_str());
        msg.append(")");
        proof {
            reveal_strlit(
                "--bot must be one of [\"random\", \"dragapult-takeuchi\", \"dragapult-yopifutto\"] (got ",
            );
            reveal_strlit(")");
        }
        return Err(msg);
    }
    Ok(())
}

/// A configuration that names a known bot and no intent (no `--vs`, `--room` or
/// `--participant-id`) is accepted: the connection then asks for an open match.
pub proof fn law_no_intent_is_an_open_match(cfg: Config)
    requires
        crate::bots::bot_names().contains(cfg.bot@),
        cfg.vs@.len() == 0,
        cfg.room@.len() == 0,
        cfg.participant_id@.len() == 0,
    ensures
        config_check_spec(cfg) == Ok::<(), Seq<char>>(()),
{
}

/// The seed of game number `game` (from 0): the run's seed plus `game`, wrapping.
pub open spec fn game_seed_spec(seed: u64, game: u32) -> int {
    (seed + game) % 0x1_0000_0000_0000_0000
}

/// The seed of game number `game` (from 0).
pub fn game_seed(seed: u64, game: u32) -> (r: u64)
    ensures
        r == game_seed_spec(seed, game),
{
    let g = game as u64;
    if seed > u64::MAX - g {
        seed - (u64::MAX - g) - 1
    } else {
        seed + g
    }
}

/// The directory name of one game's logs: `STAMP-BOT-vs-OPP-seedN`, names sanitized.
pub open spec fn match_dir_spec(stamp: Seq<char>, cfg: Config, game: u32) -> Seq<char> {
    stamp + "-"@ + sanitize_spec(cfg.bot@) + "-vs-"@ + opp_spec(cfg) + "-seed"@ + digits(
        game_seed_spec(cfg.seed, game) as nat,
    )
}

/// The directory name of one game's logs (see `match_dir_spec`).
pub fn match_dir_name(stamp: &str, cfg: &Config, game: u32) -> (r: String)
    ensures
        r@ == match_dir_spec(stamp@, *cfg, game),
{
    let mut s = String::from_str(stamp);
    s.append("-");
    let b = sanitize(cfg.bot.as_str());
    s.append(b.as_str());
    s.append("-vs-");
    let o = opp_label(cfg);
    s.append(o.as_str());
    s.append("-seed");
    push_digits(&mut s, game_seed(cfg.seed, game) as u128);
    proof {
        reveal_strlit("-");
        reveal_strlit("-vs-");
        reveal_strlit("-seed");
        assert(s@ =~= match_dir_spec(stamp@, *cfg, game));
    }
    s
}

/// The first message of a connection: the intent, the credentials and the deck brought
/// along, with no match to resume.
pub fn subscribe_msg(cfg: &Config, decklist: Option<crate::deck::DeckList>) -> (r:
    crate::wire::protocol::ClientMessage)
    ensures
        r matches crate::wire::protocol::ClientMessage::Subscribe(m) && m.match_id@.len() == 0
            && m.session_token@.len() == 0 && m.from_seq == 0 && m.participant_id@
            == cfg.participant_id@ && m.auth_token@ == cfg.auth_token@ && m.bucket@ == cfg.bucket@
            && m.room@ == cfg.room@ && m.vs_bot@ == cfg.vs@ && m.decklist == decklist,
{
    crate::wire::protocol::ClientMessage::Subscribe(
        crate::wire::protocol::SubscribeMsg {
            match_id: String::new(),
            session_token: String::new(),
            from_seq: 0,
            participant_id: cfg.participant_id.clone(),
            auth_token: cfg.auth_token.clone(),
            bucket: cfg.bucket.clone(),
            room: cfg.room.clone(),
            vs_bot: cfg.vs.clone(),
            decklist,
        },
    )
}

} // verus!
