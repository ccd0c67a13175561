use vstd::prelude::*;

use crate::db::keys;
use crate::text::{
    chars_of, decimal, is_digit, lemma_decimal_reads_back, parse_i32, parse_u32, push_decimal, signed_literal, string_of,
    unsigned_literal,
};

verus! {

/// A saved setting read as an `i32` the way std's `from_str` reads it.
pub open spec fn saved_i32(v: Option<Seq<char>>) -> Option<int> {
    match v {
        Some(s) => match signed_literal(s) {
            Some(x) => if i32::MIN <= x <= i32::MAX { Some(x) } else { None },
            None => None,
        },
        None => None,
    }
}

/// A saved setting read as a `u32` the way std's `from_str` reads it.
pub open spec fn saved_u32(v: Option<Seq<char>>) -> Option<int> {
    match v {
        Some(s) => match unsigned_literal(s) {
            Some(x) => if 0 <= x <= u32::MAX { Some(x) } else { None },
            None => None,
        },
        None => None,
    }
}

pub open spec fn opt_view(v: Option<String>) -> Option<Seq<char>> {
    match v {
        Some(s) => Some(s@),
        None => None,
    }
}

fn read_i32(v: &Option<String>) -> (r: Option<i32>)
    ensures
        r matches Some(x) ==> saved_i32(opt_view(*v)) == Some(x as int),
        r is None ==> saved_i32(opt_view(*v)) is None,
{
    match v {
        Some(s) => parse_i32(s.as_str()),
        None => None,
    }
}

fn read_u32(v: &Option<String>) -> (r: Option<u32>)
    ensures
        r matches Some(x) ==> saved_u32(opt_view(*v)) == Some(x as int),
        r is None ==> saved_u32(opt_view(*v)) is None,
{
    match v {
        Some(s) => parse_u32(s.as_str()),
        None => None,
    }
}

/// `a - b` saturated to the `i32` range.
pub open spec fn sat_sub(a: int, b: int) -> int {
    if a - b < i32::MIN { i32::MIN as int } else if a - b > i32::MAX { i32::MAX as int } else { a - b }
}

/// Where the ticker window goes when shown on a monitor of `mon_w` x `mon_h`
/// with an outer size of `tw` x `th`: the saved position when both
/// coordinates read as numbers and the window then overlaps the monitor;
/// else the bottom-right corner, 10 pixels in from the right and 60 up from
/// the bottom.
pub open spec fn ticker_position_spec(
    saved_x: Option<Seq<char>>,
    saved_y: Option<Seq<char>>,
    mon_w: i32,
    mon_h: i32,
    tw: i32,
    th: i32,
) -> (int, int) {
    match (saved_i32(saved_x), saved_i32(saved_y)) {
        (Some(x), Some(y)) => if x + tw > 0 && y + th > 0 && x < mon_w && y < mon_h {
            (x, y)
        } else {
            (sat_sub(mon_w as int, tw + 10), sat_sub(mon_h as int, th + 60))
        },
        _ => (sat_sub(mon_w as int, tw + 10), sat_sub(mon_h as int, th + 60)),
    }
}

/// Where the ticker window goes when shown (see `ticker_position_spec`).
pub fn ticker_position(
    saved_x: Option<String>,
    saved_y: Option<String>,
    mon_w: i32,
    mon_h: i32,
    tw: i32,
    th: i32,
) -> (r: (i32, i32))
    requires
        tw + 10 <= i32::MAX,
        th + 60 <= i32::MAX,
    ensures
        (r.0 as int, r.1 as int) == ticker_position_spec(opt_view(saved_x), opt_view(saved_y), mon_w, mon_h, tw, th),
{
    let fx = read_i32(&saved_x);
    let fy = read_i32(&saved_y);
    match (fx, fy) {
        (Some(x), Some(y)) => {
            if x as i64 + tw as i64 > 0 && y as i64 + th as i64 > 0 && x < mon_w && y < mon_h {
                return (x, y);
            }
        },
        _ => {},
    }
    (saturating_sub(mon_w, tw + 10), saturating_sub(mon_h, th + 60))
}

/// `a - b` saturated to the `i32` range, as std's `i32::saturating_sub`.
fn saturating_sub(a: i32, b: i32) -> (r: i32)
    ensures
        r as int == sat_sub(a as int, b as int),
{
    let d: i64 = a as i64 - b as i64;
    if d < i32::MIN as i64 {
        i32::MIN
    } else if d > i32::MAX as i64 {
        i32::MAX
    } else {
        d as i32
    }
}

/// The part of `[lo, lo + len)` that lies in `[0, limit)`, as a length.
pub open spec fn overlap(lo: int, len: int, limit: int) -> int {
    let right = if lo + len < limit { lo + len } else { limit };
    let left = if lo > 0 { lo } else { 0 };
    if right - left > 0 { right - left } else { 0 }
}

/// Where a moved ticker window is remembered: nowhere when less than 50 x 20
/// pixels of it are on the monitor (it is too far off to be found again);
/// else its position with negative coordinates raised to 0 and then lowered
/// so that the window ends on the monitor.
pub open spec fn ticker_moved_spec(x: int, y: int, tw: int, th: int, mon_w: int, mon_h: int) -> Option<(int, int)> {
    if overlap(x, tw, mon_w) < 50 || overlap(y, th, mon_h) < 20 {
        None
    } else {
        let cx = if x > 0 { x } else { 0 };
        let cy = if y > 0 { y } else { 0 };
        Some((if cx < mon_w - tw { cx } else { mon_w - tw }, if cy < mon_h - th { cy } else { mon_h - th }))
    }
}

fn overlap_exec(lo: i32, len: i32, limit: i32) -> (r: i64)
    ensures
        r as int == overlap(lo as int, len as int, limit as int),
{
    let end: i64 = lo as i64 + len as i64;
    let right: i64 = if end < limit as i64 { end } else { limit as i64 };
    let left: i64 = if lo > 0 { lo as i64 } else { 0 };
    if right - left > 0 { right - left } else { 0 }
}

/// The position to remember after the ticker window moved to `(x, y)` (see
/// `ticker_moved_spec`).
pub fn ticker_moved_position(x: i32, y: i32, tw: i32, th: i32, mon_w: i32, mon_h: i32) -> (r: Option<(i32, i32)>)
    requires
        i32::MIN <= x + tw <= i32::MAX,
        i32::MIN <= y + th <= i32::MAX,
        i32::MIN <= mon_w - tw <= i32::MAX,
        i32::MIN <= mon_h - th <= i32::MAX,
    ensures
        match ticker_moved_spec(x as int, y as int, tw as int, th as int, mon_w as int, mon_h as int) {
            Some(p) => r matches Some(q) && q.0 as int == p.0 && q.1 as int == p.1,
            None => r is None,
        },
{
    if overlap_exec(x, tw, mon_w) < 50 || overlap_exec(y, th, mon_h) < 20 {
        return None;
    }
    let cx: i32 = if x > 0 { x } else { 0 };
    let cy: i32 = if y > 0 { y } else { 0 };
    let mx: i32 = mon_w - tw;
    let my: i32 = mon_h - th;
    Some((if cx < mx { cx } else { mx }, if cy < my { cy } else { my }))
}

/// The saved size of the main window, when both numbers read and the size
/// is at least 400 x 300 and fits the monitor.
pub open spec fn main_size_spec(saved_w: Option<Seq<char>>, saved_h: Option<Seq<char>>, mon_w: i32, mon_h: i32) -> Option<(int, int)> {
    match (saved_u32(saved_w), saved_u32(saved_h)) {
        (Some(w), Some(h)) => if w >= 400 && w <= (mon_w as u32) && h >= 300 && h <= (mon_h as u32) {
            Some((w, h))
        } else {
            None
        },
        _ => None,
    }
}

/// The saved size of the main window, if it is still usable.
pub fn main_window_size(saved_w: Option<String>, saved_h: Option<String>, mon_w: i32, mon_h: i32) -> (r: Option<(u32, u32)>)
    ensures
        r matches Some(p) ==> main_size_spec(opt_view(saved_w), opt_view(saved_h), mon_w, mon_h) == Some((p.0 as int, p.1 as int)),
        r is None ==> main_size_spec(opt_view(saved_w), opt_view(saved_h), mon_w, mon_h) is None,
{
    match (read_u32(&saved_w), read_u32(&saved_h)) {
        (Some(w), Some(h)) => {
            if w >= 400 && w <= mon_w as u32 && h >= 300 && h <= mon_h as u32 {
                Some((w, h))
            } else {
                None
            }
        },
        _ => None,
    }
}

/// The saved position of the main window, when both numbers read and the
/// window stays reachable (at most 50 pixels off the top-left, at least 200
/// x 100 pixels on the monitor); negative coordinates are raised to 0.
pub open spec fn main_position_spec(saved_x: Option<Seq<char>>, saved_y: Option<Seq<char>>, mon_w: i32, mon_h: i32) -> Option<(int, int)> {
    match (saved_i32(saved_x), saved_i32(saved_y)) {
        (Some(x), Some(y)) => if x + 200 < mon_w && x > -50 && y + 100 < mon_h && y > -50 {
            Some((if x < 0 { 0 } else { x }, if y < 0 { 0 } else { y }))
        } else {
            None
        },
        _ => None,
    }
}

/// The saved position of the main window, if it is still reachable.
pub fn main_window_position(saved_x: Option<String>, saved_y: Option<String>, mon_w: i32, mon_h: i32) -> (r: Option<(i32, i32)>)
    ensures
        r matches Some(p) ==> main_position_spec(opt_view(saved_x), opt_view(saved_y), mon_w, mon_h) == Some((p.0 as int, p.1 as int)),
        r is None ==> main_position_spec(opt_view(saved_x), opt_view(saved_y), mon_w, mon_h) is None,
{
    match (read_i32(&saved_x), read_i32(&saved_y)) {
        (Some(x), Some(y)) => {
            if (x as i64) + 200 < mon_w as i64 && x > -50 && (y as i64) + 100 < mon_h as i64 && y > -50 {
                Some((if x < 0 { 0 } else { x }, if y < 0 { 0 } else { y }))
            } else {
                None
            }
        },
        _ => None,
    }
}

/// Whether the main window was maximized: the saved flag is exactly `1`.
pub fn was_maximized(saved: Option<String>) -> (r: bool)
    ensures
        r == (opt_view(saved) == Some("1"@)),
{
    match saved {
        Some(v) => {
            let c = chars_of(v.as_str());
            proof {
                reveal_strlit("1");
                if c@.len() == 1 && c@[0] == '1' {
                    assert(c@ =~= "1"@);
                }
            }
            c.len() == 1 && c[0] == '1'
        },
        None => false,
    }
}

/// How a number is written in a setting: decimal, `-` in front when negative.
pub open spec fn int_text(n: int) -> Seq<char> {
    if n < 0 { "-"@ + decimal((-n) as nat) } else { decimal(n as nat) }
}

/// A number written by `int_text` reads back as that number.
pub proof fn lemma_int_text_reads_back(n: int)
    ensures
        signed_literal(int_text(n)) == Some(n),
{
    reveal_strlit("-");
    if n < 0 {
        lemma_decimal_reads_back((-n) as nat);
        let t = int_text(n);
        assert(t[0] == '-');
        assert(t.drop_first() =~= decimal((-n) as nat));
    } else {
        lemma_decimal_reads_back(n as nat);
        assert(is_digit(decimal(n as nat)[0]));
    }
}

/// A moved ticker that is remembered comes back where it was left: the
/// position `ticker_moved_spec` keeps, written with `int_text`, is where
/// `ticker_position_spec` puts the window on the same monitor.
pub proof fn lemma_moved_ticker_comes_back(x: i32, y: i32, tw: i32, th: i32, mon_w: i32, mon_h: i32)
    requires
        ticker_moved_spec(x as int, y as int, tw as int, th as int, mon_w as int, mon_h as int) is Some,
    ensures
        ({
            let p = ticker_moved_spec(x as int, y as int, tw as int, th as int, mon_w as int, mon_h as int).unwrap();
            ticker_position_spec(Some(int_text(p.0)), Some(int_text(p.1)), mon_w, mon_h, tw, th) == p
        }),
{
    let p = ticker_moved_spec(x as int, y as int, tw as int, th as int, mon_w as int, mon_h as int).unwrap();
    lemma_int_text_reads_back(p.0);
    lemma_int_text_reads_back(p.1);
}

/// The main window comes back as it was saved: the geometry written by
/// `close_settings` or `settled_settings` (positions with `int_text`, sizes
/// with `decimal`) reads back exactly, so the saved size is restored when it
/// is at least 400 x 300 and fits the monitor, and the saved position when
/// the window stays reachable on it.
pub proof fn lemma_saved_main_geometry_restored(x: i32, y: i32, w: u32, h: u32, mon_w: i32, mon_h: i32)
    ensures
        main_size_spec(Some(decimal(w as nat)), Some(decimal(h as nat)), mon_w, mon_h) == (if w >= 400 && w <= (mon_w as u32)
            && h >= 300 && h <= (mon_h as u32) {
            Some((w as int, h as int))
        } else {
            None
        }),
        main_position_spec(Some(int_text(x as int)), Some(int_text(y as int)), mon_w, mon_h) == (if x + 200 < mon_w && x > -50
            && y + 100 < mon_h && y > -50 {
            Some((if x < 0 { 0 } else { x as int }, if y < 0 { 0 } else { y as int }))
        } else {
            None
        }),
{
    lemma_int_text_reads_back(x as int);
    lemma_int_text_reads_back(y as int);
    lemma_decimal_reads_back(w as nat);
    lemma_decimal_reads_back(h as nat);
    assert(is_digit(decimal(w as nat)[0]));
    assert(is_digit(decimal(h as nat)[0]));
}

/// `n` written in decimal.
pub fn i32_text(n: i32) -> (r: String)
    ensures
        r@ == int_text(n as int),
{
    let mut out: Vec<char> = Vec::new();
    if n < 0 {
        out.push('-');
        let m: u32 = if n == i32::MIN { 0x8000_0000u32 } else { (-n) as u32 };
        push_decimal(m, &mut out);
        proof {
            reveal_strlit("-");
            assert(out@ =~= "-"@ + decimal((-n) as nat));
        }
    } else {
        push_decimal(n as u32, &mut out);
        proof {
            assert(out@ =~= decimal(n as nat));
        }
    }
    string_of(&out)
}

/// `n` written in decimal.
pub fn u32_text(n: u32) -> (r: String)
    ensures
        r@ == decimal(n as nat),
{
    let mut out: Vec<char> = Vec::new();
    push_decimal(n, &mut out);
    proof {
        assert(out@ =~= decimal(n as nat));
    }
    string_of(&out)
}

/// The settings written when the main window is closed (hidden): nothing
/// when it is hidden or minimized already; else whether it is maximized,
/// its position when it is not maximized and the position is known, and its
/// size when known. In that order.
pub open spec fn close_settings_spec(
    visible: bool,
    minimized: bool,
    maximized: bool,
    pos: Option<(i32, i32)>,
    size: Option<(u32, u32)>,
) -> Seq<(Seq<char>, Seq<char>)> {
    if !visible || minimized {
        Seq::empty()
    } else {
        let a = seq![(keys::WINDOW_MAXIMIZED@, if maximized { "1"@ } else { "0"@ })];
        let b = match pos {
            Some(p) => if !maximized {
                a + seq![(keys::WINDOW_X@, int_text(p.0 as int)), (keys::WINDOW_Y@, int_text(p.1 as int))]
            } else {
                a
            },
            None => a,
        };
        match size {
            Some(s) => b + seq![(keys::WINDOW_WIDTH@, decimal(s.0 as nat)), (keys::WINDOW_HEIGHT@, decimal(s.1 as nat))],
            None => b,
        }
    }
}

pub open spec fn pairs_view(v: Seq<(&'static str, String)>) -> Seq<(Seq<char>, Seq<char>)> {
    v.map_values(|p: (&'static str, String)| (p.0@, p.1@))
}

/// The settings to write when the main window is closed.
pub fn close_settings(
    visible: bool,
    minimized: bool,
    maximized: bool,
    pos: Option<(i32, i32)>,
    size: Option<(u32, u32)>,
) -> (r: Vec<(&'static str, String)>)
    ensures
        pairs_view(r@) == close_settings_spec(visible, minimized, maximized, pos, size),
{
    let mut out: Vec<(&'static str, String)> = Vec::new();
    if !visible || minimized {
        proof {
            assert(pairs_view(out@) =~= Seq::<(Seq<char>, Seq<char>)>::empty());
        }
        return out;
    }
    let flag = if maximized { string_of(&chars_of("1")) } else { string_of(&chars_of("0")) };
    out.push((keys::WINDOW_MAXIMIZED, flag));
    let ghost a = pairs_view(out@);
    match pos {
        Some(p) => {
            if !maximized {
                out.push((keys::WINDOW_X, i32_text(p.0)));
                out.push((keys::WINDOW_Y, i32_text(p.1)));
            }
        },
        None => {},
    }
    let ghost b = pairs_view(out@);
    match size {
        Some(s) => {
            out.push((keys::WINDOW_WIDTH, u32_text(s.0)));
            out.push((keys::WINDOW_HEIGHT, u32_text(s.1)));
        },
        None => {},
    }
    proof {
        let a2 = seq![(keys::WINDOW_MAXIMIZED@, if maximized { "1"@ } else { "0"@ })];
        assert(a =~= a2);
        let b2 = match pos {
            Some(p) => if !maximized {
                a2 + seq![(keys::WINDOW_X@, int_text(p.0 as int)), (keys::WINDOW_Y@, int_text(p.1 as int))]
            } else {
                a2
            },
            None => a2,
        };
        assert(b =~= b2);
        assert(pairs_view(out@) =~= close_settings_spec(visible, minimized, maximized, pos, size));
    }
    out
}

/// The settings written once a move or resize has settled: the position
/// when known, and the size when known and not zero.
pub open spec fn settled_settings_spec(pos: Option<(i32, i32)>, size: Option<(u32, u32)>) -> Seq<(Seq<char>, Seq<char>)> {
    let a = match pos {
        Some(p) => seq![(keys::WINDOW_X@, int_text(p.0 as int)), (keys::WINDOW_Y@, int_text(p.1 as int))],
        None => Seq::empty(),
    };
    match size {
        Some(s) => if s.0 > 0 && s.1 > 0 {
            a + seq![(keys::WINDOW_WIDTH@, decimal(s.0 as nat)), (keys::WINDOW_HEIGHT@, decimal(s.1 as nat))]
        } else {
            a
        },
        None => a,
    }
}

/// The settings to write once a move or resize has settled.
pub fn settled_settings(pos: Option<(i32, i32)>, size: Option<(u32, u32)>) -> (r: Vec<(&'static str, String)>)
    ensures
        pairs_view(r@) == settled_settings_spec(pos, size),
{
    let mut out: Vec<(&'static str, String)> = Vec::new();
    match pos {
        Some(p) => {
            out.push((keys::WINDOW_X, i32_text(p.0)));
            out.push((keys::WINDOW_Y, i32_text(p.1)));
        },
        None => {},
    }
    let ghost a = pairs_view(out@);
    match size {
        Some(s) => {
            if s.0 > 0 && s.1 > 0 {
                out.push((keys::WINDOW_WIDTH, u32_text(s.0)));
                out.push((keys::WINDOW_HEIGHT, u32_text(s.1)));
            }
        },
        None => {},
    }
    proof {
        let a2 = match pos {
            Some(p) => seq![(keys::WINDOW_X@, int_text(p.0 as int)), (keys::WINDOW_Y@, int_text(p.1 as int))],
            None => Seq::empty(),
        };
        assert(a =~= a2);
        assert(pairs_view(out@) =~= settled_settings_spec(pos, size));
    }
    out
}

} // verus!
