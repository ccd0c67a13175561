use vstd::prelude::*;

use crate::domain::StockBrief;
use crate::text::{
    append_chars, chars_eq_str, chars_of, char_from_u32, find_char, find_chars, find_seq, slice_chars,
    split_by, split_chars, string_of, trim_chars, trim_spec,
};

verus! {

/// Maximum number of search results returned to the frontend.
pub const MAX_RESULTS: usize = 20;

// ── \uXXXX unescaping ──

pub open spec fn hex_digit_value(c: char) -> Option<int> {
    if '0' <= c && c <= '9' {
        Some(c as int - '0' as int)
    } else if 'a' <= c && c <= 'f' {
        Some(c as int - 'a' as int + 10)
    } else if 'A' <= c && c <= 'F' {
        Some(c as int - 'A' as int + 10)
    } else {
        None
    }
}

/// The value of a string of hexadecimal digits (0 for the empty string).
pub open spec fn hex_digits_value(s: Seq<char>) -> Option<int>
    decreases s.len(),
{
    if s.len() == 0 {
        Some(0)
    } else {
        match (hex_digits_value(s.drop_last()), hex_digit_value(s.last())) {
            (Some(a), Some(d)) => Some(a * 16 + d),
            _ => None,
        }
    }
}

/// std's `u32::from_str_radix(s, 16)` on a string of at most four characters:
/// an optional leading `+` (not alone), then hexadecimal digits.
pub open spec fn parse_hex_short(s: Seq<char>) -> Option<int> {
    if s.len() == 0 {
        None
    } else if s[0] == '+' {
        if s.len() == 1 { None } else { hex_digits_value(s.drop_first()) }
    } else {
        hex_digits_value(s)
    }
}

/// The character that the four characters after `\u` stand for, if any.
pub open spec fn decode_escape(hex: Seq<char>) -> Option<char> {
    if hex.len() != 4 {
        None
    } else {
        match parse_hex_short(hex) {
            Some(cp) => if 0xD800 <= cp && cp <= 0xDFFF { None } else { Some((cp as u32) as char) },
            None => None,
        }
    }
}

/// `s` with every `\uXXXX` sequence that names a character replaced by it;
/// sequences that do not are kept as they stand.
pub open spec fn unescape_spec(s: Seq<char>) -> Seq<char>
    decreases s.len(),
{
    if s.len() == 0 {
        Seq::empty()
    } else if s.len() >= 2 && s[0] == '\\' && s[1] == 'u' {
        let end = if s.len() < 6 { s.len() as int } else { 6 };
        let hex = s.subrange(2, end);
        match decode_escape(hex) {
            Some(c) => seq![c] + unescape_spec(s.skip(end)),
            None => seq!['\\', 'u'] + hex + unescape_spec(s.skip(end)),
        }
    } else {
        seq![s[0]] + unescape_spec(s.drop_first())
    }
}

proof fn lemma_hex_bound(s: Seq<char>)
    requires
        hex_digits_value(s) is Some,
    ensures
        0 <= hex_digits_value(s)->0,
        s.len() <= 4 ==> hex_digits_value(s)->0 < 0x10000,
        s.len() <= 3 ==> hex_digits_value(s)->0 < 0x1000,
        s.len() <= 2 ==> hex_digits_value(s)->0 < 0x100,
        s.len() <= 1 ==> hex_digits_value(s)->0 < 0x10,
    decreases s.len(),
{
    if s.len() > 0 {
        lemma_hex_bound(s.drop_last());
    }
}

fn hex_digit_value_exec(c: char) -> (r: Option<u32>)
    ensures
        r matches Some(v) ==> hex_digit_value(c) == Some(v as int),
        r is None ==> hex_digit_value(c) is None,
{
    if '0' <= c && c <= '9' {
        Some((c as u32) - ('0' as u32))
    } else if 'a' <= c && c <= 'f' {
        Some((c as u32) - ('a' as u32) + 10)
    } else if 'A' <= c && c <= 'F' {
        Some((c as u32) - ('A' as u32) + 10)
    } else {
        None
    }
}

fn hex_digits_value_exec(s: &Vec<char>, from: usize) -> (r: Option<u32>)
    requires
        from <= s@.len(),
        s@.len() - from <= 4,
    ensures
        r matches Some(v) ==> hex_digits_value(s@.skip(from as int)) == Some(v as int),
        r is None ==> hex_digits_value(s@.skip(from as int)) is None,
{
    let mut acc: u32 = 0;
    let mut i = from;
    proof {
        assert(s@.skip(from as int).subrange(0, 0) =~= Seq::<char>::empty());
    }
    while i < s.len()
        invariant
            from <= i <= s@.len(),
            s@.len() - from <= 4,
            hex_digits_value(s@.subrange(from as int, i as int)) == Some(acc as int),
        decreases s@.len() - i,
    {
        let ghost pre = s@.subrange(from as int, i as int);
        proof {
            lemma_hex_bound(pre);
            assert(s@.subrange(from as int, i + 1).drop_last() =~= pre);
        }
        match hex_digit_value_exec(s[i]) {
            Some(d) => {
                acc = acc * 16 + d;
            },
            None => {
                proof {
                    assert(hex_digits_value(s@.subrange(from as int, i + 1)) is None);
                    lemma_none_extends(s@.skip(from as int), (i + 1 - from) as int);
                }
                return None;
            },
        }
        i = i + 1;
    }
    proof {
        assert(s@.subrange(from as int, i as int) =~= s@.skip(from as int));
    }
    Some(acc)
}

/// Once a prefix holds a non-digit, so does the whole string.
proof fn lemma_none_extends(s: Seq<char>, k: int)
    requires
        0 <= k <= s.len(),
        hex_digits_value(s.subrange(0, k)) is None,
    ensures
        hex_digits_value(s) is None,
    decreases s.len() - k,
{
    if k < s.len() {
        assert(s.subrange(0, k + 1).drop_last() =~= s.subrange(0, k));
        lemma_none_extends(s, k + 1);
    } else {
        assert(s.subrange(0, k) =~= s);
    }
}

fn decode_escape_exec(hex: &Vec<char>) -> (r: Option<char>)
    ensures
        r == decode_escape(hex@),
{
    if hex.len() != 4 {
        return None;
    }
    let parsed = if hex[0] == '+' {
        proof {
            assert(hex@.drop_first() =~= hex@.skip(1));
        }
        hex_digits_value_exec(hex, 1)
    } else {
        proof {
            assert(hex@.skip(0) =~= hex@);
        }
        hex_digits_value_exec(hex, 0)
    };
    match parsed {
        Some(cp) => {
            proof {
                if hex[0] == '+' {
                    lemma_hex_bound(hex@.skip(1));
                } else {
                    lemma_hex_bound(hex@.skip(0));
                }
            }
            char_from_u32(cp)
        },
        None => None,
    }
}

/// `e` is `\u` and four hexadecimal digits (either letter case) that write
/// the code point of `c`.
pub open spec fn is_escape_of(e: Seq<char>, c: char) -> bool {
    &&& e.len() == 6
    &&& e[0] == '\\' && e[1] == 'u'
    &&& hex_digits_value(e.subrange(2, 6)) == Some(c as int)
}

/// `s` is `t` with every character written as its `\uXXXX` escape.
pub open spec fn escapes_of(s: Seq<char>, t: Seq<char>) -> bool
    decreases t.len(),
{
    if t.len() == 0 {
        s.len() == 0
    } else {
        &&& s.len() >= 6
        &&& is_escape_of(s.subrange(0, 6), t[0])
        &&& escapes_of(s.skip(6), t.drop_first())
    }
}

/// A string of hexadecimal digits starts with one.
proof fn lemma_hex_first(h: Seq<char>)
    requires
        h.len() > 0,
        hex_digits_value(h) is Some,
    ensures
        hex_digit_value(h[0]) is Some,
    decreases h.len(),
{
    if h.len() > 1 {
        assert(h.drop_last()[0] == h[0]);
        lemma_hex_first(h.drop_last());
    }
}

/// Unescaping gives back a text of characters up to U+FFFF that was written
/// wholly as `\uXXXX` escapes.
pub proof fn lemma_unescape_round_trip(s: Seq<char>, t: Seq<char>)
    requires
        escapes_of(s, t),
        forall|i: int| 0 <= i < t.len() ==> (#[trigger] t[i]) as u32 <= 0xFFFF,
    ensures
        unescape_spec(s) == t,
    decreases t.len(),
{
    if t.len() == 0 {
        assert(s.len() == 0);
    } else {
        let e = s.subrange(0, 6);
        let hex = s.subrange(2, 6);
        assert(hex =~= e.subrange(2, 6));
        assert(s[0] == e[0] && s[1] == e[1]);
        lemma_hex_first(hex);
        assert(hex[0] != '+');
        assert(parse_hex_short(hex) == Some(t[0] as int));
        assert((t[0] as int) as u32 == t[0] as u32);
        vstd::utf8::char_is_scalar(t[0]);
        vstd::utf8::char_u32_cast(t[0], t[0] as u32);
        assert(!(0xD800 <= t[0] as int && t[0] as int <= 0xDFFF));
        assert(((t[0] as int) as u32) as char == t[0]);
        assert(decode_escape(hex) == Some(t[0]));
        assert forall|i: int| 0 <= i < t.drop_first().len() implies (#[trigger] t.drop_first()[i]) as u32 <= 0xFFFF by {
            assert(t.drop_first()[i] == t[i + 1]);
        }
        lemma_unescape_round_trip(s.skip(6), t.drop_first());
        assert(seq![t[0]] + t.drop_first() =~= t);
    }
}

/// Decodes `\uXXXX` escape sequences into the characters they name.
/// A sequence that does not name a character (too short, not hexadecimal,
/// a surrogate) is copied through unchanged.
pub fn unescape_unicode(s: &str) -> (r: String)
    ensures
        r@ == unescape_spec(s@),
{
    let v = chars_of(s);
    let out = unescape_chars(&v);
    string_of(&out)
}

#[verifier::spinoff_prover]
pub fn unescape_chars(v: &Vec<char>) -> (r: Vec<char>)
    ensures
        r@ == unescape_spec(v@),
{
    let n = v.len();
    let mut out: Vec<char> = Vec::new();
    let mut i: usize = 0;
    proof {
        assert(v@.skip(0) =~= v@);
    }
    while i < n
        invariant
            n == v@.len(),
            0 <= i <= n,
            unescape_spec(v@) == out@ + unescape_spec(v@.skip(i as int)),
        decreases n - i,
    {
        let ghost rest = v@.skip(i as int);
        if v[i] == '\\' && i + 1 < n && v[i + 1] == 'u' {
            let end: usize = if n - i < 6 { n } else { i + 6 };
            let hex = slice_chars(v, i + 2, end);
            proof {
                let e = if rest.len() < 6 { rest.len() as int } else { 6 };
                assert(e == end - i);
                assert(rest.subrange(2, e) =~= hex@);
                assert(rest.skip(e) =~= v@.skip(end as int));
            }
            match decode_escape_exec(&hex) {
                Some(c) => {
                    out.push(c);
                },
                None => {
                    out.push('\\');
                    out.push('u');
                    let mut k: usize = 0;
                    let ghost before = out@;
                    while k < hex.len()
                        invariant
                            0 <= k <= hex@.len(),
                            out@ == before + hex@.subrange(0, k as int),
                        decreases hex@.len() - k,
                    {
                        out.push(hex[k]);
                        k = k + 1;
                        assert(out@ =~= before + hex@.subrange(0, k as int));
                    }
                    assert(hex@.subrange(0, hex@.len() as int) =~= hex@);
                },
            }
            proof {
                assert(out@ + unescape_spec(v@.skip(end as int)) =~= out@ + unescape_spec(v@.skip(end as int)));
            }
            i = end;
        } else {
            proof {
                assert(rest.drop_first() =~= v@.skip(i + 1));
            }
            out.push(v[i]);
            i = i + 1;
        }
    }
    proof {
        assert(v@.skip(n as int) =~= Seq::<char>::empty());
        assert(out@ + Seq::<char>::empty() =~= out@);
    }
    out
}

// ── URL encoding ──

/// Bytes that pass through unescaped: ASCII letters, digits and `-_.~`.
pub open spec fn is_unreserved(b: u8) -> bool {
    (65 <= b && b <= 90) || (97 <= b && b <= 122) || (48 <= b && b <= 57) || b == 45 || b == 95
        || b == 46 || b == 126
}

/// Upper-case hexadecimal digit for `d < 16`.
pub open spec fn hex_upper(d: u8) -> char {
    if d < 10 { ((48 + d) as u8) as char } else { ((55 + d) as u8) as char }
}

pub open spec fn encode_byte(b: u8) -> Seq<char> {
    if is_unreserved(b) { seq![b as char] } else { seq!['%', hex_upper(b / 16), hex_upper(b % 16)] }
}

pub open spec fn url_encode_bytes(bs: Seq<u8>) -> Seq<char>
    decreases bs.len(),
{
    if bs.len() == 0 { Seq::empty() } else { url_encode_bytes(bs.drop_last()) + encode_byte(bs.last()) }
}

fn hex_upper_exec(d: u8) -> (r: char)
    requires
        d < 16,
    ensures
        r == hex_upper(d),
{
    if d < 10 { (48 + d) as char } else { (55 + d) as char }
}

/// Percent-encodes the UTF-8 bytes of `s` (upper-case hex), leaving
/// ASCII letters, digits and `-_.~` as they are.
pub fn urlencoding(s: &str) -> (r: String)
    ensures
        r@ == url_encode_bytes(vstd::utf8::encode_utf8(s@)),
{
    let bytes = s.as_bytes();
    let n = bytes.len();
    let mut out: Vec<char> = Vec::new();
    let mut i: usize = 0;
    proof {
        assert(bytes@.subrange(0, 0) =~= Seq::<u8>::empty());
    }
    while i < n
        invariant
            n == bytes@.len(),
            bytes@ == vstd::utf8::encode_utf8(s@),
            0 <= i <= n,
            out@ == url_encode_bytes(bytes@.subrange(0, i as int)),
        decreases n - i,
    {
        let b = bytes[i];
        proof {
            assert(bytes@.subrange(0, i + 1).drop_last() =~= bytes@.subrange(0, i as int));
        }
        if (65 <= b && b <= 90) || (97 <= b && b <= 122) || (48 <= b && b <= 57) || b == 45
            || b == 95 || b == 46 || b == 126 {
            out.push(b as char);
        } else {
            out.push('%');
            out.push(hex_upper_exec(b / 16));
            out.push(hex_upper_exec(b % 16));
        }
        i = i + 1;
        proof {
            assert(out@ =~= url_encode_bytes(bytes@.subrange(0, i as int)));
        }
    }
    proof {
        assert(bytes@.subrange(0, n as int) =~= bytes@);
    }
    string_of(&out)
}

// ── Suggest response parsing ──

pub open spec fn is_ascii_digit(c: char) -> bool {
    '0' <= c && c <= '9'
}

/// Exactly six ASCII digits.
pub open spec fn is_six_digit_code(s: Seq<char>) -> bool {
    s.len() == 6 && forall|i: int| 0 <= i < 6 ==> is_ascii_digit(#[trigger] s[i])
}

/// The text between the first `marker` in `body` and the next `"` after it;
/// empty when either is missing.
pub open spec fn quoted_after(body: Seq<char>, marker: Seq<char>) -> Seq<char> {
    match find_seq(body, marker) {
        Some(st) => {
            let after = st + marker.len();
            match find_seq(body.skip(after), seq!['"']) {
                Some(e) => body.subrange(after, after + e),
                None => Seq::empty(),
            }
        },
        None => Seq::empty(),
    }
}

/// The two response formats the suggest services answer in.
#[derive(Clone, Copy, Debug, PartialEq, Eq, Structural)]
pub enum SuggestFormat {
    /// `v_hint="exchange~code~name(\u escaped)~pinyin~type^..."`
    Tencent,
    /// `var cn="full_code,type,code,_,name,...;..."`
    Sina,
}

pub open spec fn tencent_type_ok(t: Seq<char>) -> bool {
    t == "GP-A"@ || t == "ETF"@ || t == "LOF"@
}

pub open spec fn sina_type_ok(t: Seq<char>) -> bool {
    t == "11"@ || t == "12"@ || t == "22"@ || t == "23"@ || t == "203"@
}

/// The (code, name) one entry contributes, or `None` when it is filtered out.
pub open spec fn parse_entry(fmt: SuggestFormat, entry: Seq<char>) -> Option<(Seq<char>, Seq<char>)> {
    match fmt {
        SuggestFormat::Tencent => {
            let f = split_by(entry, '~');
            if f.len() < 5 || !tencent_type_ok(f[4]) || !is_six_digit_code(f[1]) {
                None
            } else {
                let name = unescape_spec(f[2]);
                if name.len() == 0 { None } else { Some((f[1], name)) }
            }
        },
        SuggestFormat::Sina => {
            let f = split_by(entry, ',');
            if f.len() < 5 || !sina_type_ok(f[1]) || !is_six_digit_code(f[2]) || f[4].len() == 0 {
                None
            } else {
                Some((f[2], f[4]))
            }
        },
    }
}

pub open spec fn has_code(acc: Seq<(Seq<char>, Seq<char>)>, code: Seq<char>) -> bool {
    exists|i: int| 0 <= i < acc.len() && (#[trigger] acc[i]).0 == code
}

/// Entries taken in order: empty ones are skipped, nothing is added once
/// `limit` results are held, and a code already held is not added again.
pub open spec fn collect_briefs(
    entries: Seq<Seq<char>>,
    limit: int,
    fmt: SuggestFormat,
    acc: Seq<(Seq<char>, Seq<char>)>,
) -> Seq<(Seq<char>, Seq<char>)>
    decreases entries.len(),
{
    if entries.len() == 0 {
        acc
    } else {
        let e = entries[0];
        let next = if e.len() == 0 || acc.len() >= limit {
            acc
        } else {
            match parse_entry(fmt, e) {
                Some(b) => if has_code(acc, b.0) { acc } else { acc.push(b) },
                None => acc,
            }
        };
        collect_briefs(entries.drop_first(), limit, fmt, next)
    }
}

/// A piece without the separator splits into itself.
proof fn lemma_split_single(a: Seq<char>, sep: char)
    requires
        !a.contains(sep),
    ensures
        split_by(a, sep) == seq![a],
    decreases a.len(),
{
    if a.len() == 0 {
        assert(a =~= Seq::<char>::empty());
    } else {
        assert(!a.drop_first().contains(sep)) by {
            if a.drop_first().contains(sep) {
                let i = choose|i: int| 0 <= i < a.drop_first().len() && a.drop_first()[i] == sep;
                assert(a[i + 1] == sep);
            }
        }
        lemma_split_single(a.drop_first(), sep);
        assert(a[0] != sep);
        assert(seq![a[0]] + a.drop_first() =~= a);
        assert(split_by(a, sep) =~= seq![a]);
    }
}

/// A piece without the separator, then the separator, splits off first.
proof fn lemma_split_cons(a: Seq<char>, b: Seq<char>, sep: char)
    requires
        !a.contains(sep),
    ensures
        split_by(a + seq![sep] + b, sep) == seq![a] + split_by(b, sep),
    decreases a.len(),
{
    let s = a + seq![sep] + b;
    if a.len() == 0 {
        assert(s.drop_first() =~= b);
        assert(s[0] == sep);
        assert(a =~= Seq::<char>::empty());
    } else {
        assert(!a.drop_first().contains(sep)) by {
            if a.drop_first().contains(sep) {
                let i = choose|i: int| 0 <= i < a.drop_first().len() && a.drop_first()[i] == sep;
                assert(a[i + 1] == sep);
            }
        }
        lemma_split_cons(a.drop_first(), b, sep);
        assert(s.drop_first() =~= a.drop_first() + seq![sep] + b);
        assert(s[0] == a[0]);
        assert(a[0] != sep);
        assert(seq![a[0]] + a.drop_first() =~= a);
        assert(split_by(s, sep) =~= seq![a] + split_by(b, sep));
    }
}

/// A Tencent smartbox entry `EXCHANGE~CODE~NAME~PINYIN~TYPE` (no `~` inside
/// a field) is kept exactly when its type is an A share (`GP-A`), an ETF or
/// a LOF, its code is six digits and its unescaped name is not empty; it then
/// gives its code and unescaped name.
pub proof fn lemma_tencent_entry(ex: Seq<char>, code: Seq<char>, name: Seq<char>, py: Seq<char>, ty: Seq<char>)
    requires
        !ex.contains('~'),
        !code.contains('~'),
        !name.contains('~'),
        !py.contains('~'),
        !ty.contains('~'),
    ensures
        ({
            let entry = ex + seq!['~'] + code + seq!['~'] + name + seq!['~'] + py + seq!['~'] + ty;
            let kept = (ty == "GP-A"@ || ty == "ETF"@ || ty == "LOF"@) && code.len() == 6
                && (forall|i: int| 0 <= i < 6 ==> '0' <= #[trigger] code[i] <= '9') && unescape_spec(name).len() > 0;
            &&& kept ==> parse_entry(SuggestFormat::Tencent, entry) == Some((code, unescape_spec(name)))
            &&& !kept ==> parse_entry(SuggestFormat::Tencent, entry) is None
        }),
{
    let entry = ex + seq!['~'] + code + seq!['~'] + name + seq!['~'] + py + seq!['~'] + ty;
    let r3 = py + seq!['~'] + ty;
    let r2 = name + seq!['~'] + r3;
    let r1 = code + seq!['~'] + r2;
    assert(entry =~= ex + seq!['~'] + r1);
    lemma_split_single(ty, '~');
    lemma_split_cons(py, ty, '~');
    lemma_split_cons(name, r3, '~');
    lemma_split_cons(code, r2, '~');
    lemma_split_cons(ex, r1, '~');
    let f = split_by(entry, '~');
    assert(f =~= seq![ex, code, name, py, ty]);
}

/// A Sina suggest entry `FULLCODE,TYPE,CODE,_,NAME,...` (no `,` inside the
/// first five fields) is kept exactly when its type is one of the A-share
/// and fund types `11`, `12`, `22`, `23`, `203`, its code is six digits and
/// its name is not empty; it then gives its code and name.
pub proof fn lemma_sina_entry(full: Seq<char>, ty: Seq<char>, code: Seq<char>, x: Seq<char>, name: Seq<char>, rest: Seq<char>)
    requires
        !full.contains(','),
        !ty.contains(','),
        !code.contains(','),
        !x.contains(','),
        !name.contains(','),
    ensures
        ({
            let entry = full + seq![','] + ty + seq![','] + code + seq![','] + x + seq![','] + name + seq![','] + rest;
            let kept = (ty == "11"@ || ty == "12"@ || ty == "22"@ || ty == "23"@ || ty == "203"@) && code.len() == 6
                && (forall|i: int| 0 <= i < 6 ==> '0' <= #[trigger] code[i] <= '9') && name.len() > 0;
            &&& kept ==> parse_entry(SuggestFormat::Sina, entry) == Some((code, name))
            &&& !kept ==> parse_entry(SuggestFormat::Sina, entry) is None
        }),
{
    let entry = full + seq![','] + ty + seq![','] + code + seq![','] + x + seq![','] + name + seq![','] + rest;
    let r4 = name + seq![','] + rest;
    let r3 = x + seq![','] + r4;
    let r2 = code + seq![','] + r3;
    let r1 = ty + seq![','] + r2;
    assert(entry =~= full + seq![','] + r1);
    lemma_split_cons(name, rest, ',');
    lemma_split_cons(x, r4, ',');
    lemma_split_cons(code, r3, ',');
    lemma_split_cons(ty, r2, ',');
    lemma_split_cons(full, r1, ',');
    let f = split_by(entry, ',');
    assert(f[0] == full && f[1] == ty && f[2] == code && f[3] == x && f[4] == name);
}

/// What `parse_tencent_smartbox` returns, as (code, name) pairs.
pub open spec fn tencent_smartbox_spec(body: Seq<char>, limit: int) -> Seq<(Seq<char>, Seq<char>)> {
    let content = quoted_after(body, "v_hint=\""@);
    if content.len() == 0 || content == "N"@ {
        Seq::empty()
    } else {
        collect_briefs(split_by(content, '^'), limit, SuggestFormat::Tencent, Seq::empty())
    }
}

/// What `parse_sina_suggest` returns, as (code, name) pairs.
pub open spec fn sina_suggest_spec(body: Seq<char>, limit: int) -> Seq<(Seq<char>, Seq<char>)> {
    let content = quoted_after(body, "cn=\""@);
    if content.len() == 0 {
        Seq::empty()
    } else {
        collect_briefs(split_by(content, ';'), limit, SuggestFormat::Sina, Seq::empty())
    }
}

/// `r` holds these (code, name) pairs, in order, each in market `"CN"`.
pub open spec fn briefs_are(r: Seq<StockBrief>, s: Seq<(Seq<char>, Seq<char>)>) -> bool {
    &&& r.len() == s.len()
    &&& forall|k: int| 0 <= k < r.len() ==> #[trigger] r[k]@ == (s[k].0, "CN"@, s[k].1)
}

fn quoted_after_exec(body: &Vec<char>, marker: &str) -> (r: Vec<char>)
    ensures
        r@ == quoted_after(body@, marker@),
{
    let m = chars_of(marker);
    let n = body.len();
    match find_chars(body, &m) {
        Some(st) => {
            let after = st + m.len();
            let rem = slice_chars(body, after, n);
            proof {
                assert(rem@ =~= body@.skip(after as int));
            }
            match find_char(&rem, '"') {
                Some(e) => slice_chars(body, after, after + e),
                None => Vec::new(),
            }
        },
        None => Vec::new(),
    }
}

fn is_six_digit_code_exec(v: &Vec<char>) -> (r: bool)
    ensures
        r == is_six_digit_code(v@),
{
    if v.len() != 6 {
        return false;
    }
    let mut i: usize = 0;
    while i < 6
        invariant
            v@.len() == 6,
            0 <= i <= 6,
            forall|j: int| 0 <= j < i ==> is_ascii_digit(#[trigger] v@[j]),
        decreases 6 - i,
    {
        if !('0' <= v[i] && v[i] <= '9') {
            return false;
        }
        i = i + 1;
    }
    true
}

fn parse_entry_exec(fmt: SuggestFormat, e: &Vec<char>) -> (r: Option<(Vec<char>, Vec<char>)>)
    ensures
        r matches Some(b) ==> parse_entry(fmt, e@) == Some((b.0@, b.1@)),
        r is None ==> parse_entry(fmt, e@) is None,
{
    match fmt {
        SuggestFormat::Tencent => {
            let f = split_chars(e, '~');
            if f.len() < 5 {
                return None;
            }
            let t = &f[4];
            if !(chars_eq_str(t, "GP-A") || chars_eq_str(t, "ETF") || chars_eq_str(t, "LOF")) {
                return None;
            }
            if !is_six_digit_code_exec(&f[1]) {
                return None;
            }
            let name = unescape_chars(&f[2]);
            if name.len() == 0 {
                return None;
            }
            let code = slice_chars(&f[1], 0, f[1].len());
            proof {
                assert(code@ =~= f@[1]@);
            }
            Some((code, name))
        },
        SuggestFormat::Sina => {
            let f = split_chars(e, ',');
            if f.len() < 5 {
                return None;
            }
            let t = &f[1];
            if !(chars_eq_str(t, "11") || chars_eq_str(t, "12") || chars_eq_str(t, "22")
                || chars_eq_str(t, "23") || chars_eq_str(t, "203")) {
                return None;
            }
            if !is_six_digit_code_exec(&f[2]) {
                return None;
            }
            if f[4].len() == 0 {
                return None;
            }
            let code = slice_chars(&f[2], 0, f[2].len());
            let name = slice_chars(&f[4], 0, f[4].len());
            proof {
                assert(code@ =~= f@[2]@);
                assert(name@ =~= f@[4]@);
            }
            Some((code, name))
        },
    }
}

fn collect_entries(entries: &Vec<Vec<char>>, limit: usize, fmt: SuggestFormat) -> (r: Vec<StockBrief>)
    ensures
        briefs_are(
            r@,
            collect_briefs(entries@.map_values(|e: Vec<char>| e@), limit as int, fmt, Seq::empty()),
        ),
{
    let ghost es = entries@.map_values(|e: Vec<char>| e@);
    let mut results: Vec<StockBrief> = Vec::new();
    let mut seen: Vec<Vec<char>> = Vec::new();
    let ghost acc: Seq<(Seq<char>, Seq<char>)> = Seq::empty();
    let mut i: usize = 0;
    proof {
        assert(es.skip(0) =~= es);
    }
    while i < entries.len()
        invariant
            es == entries@.map_values(|e: Vec<char>| e@),
            0 <= i <= entries@.len(),
            briefs_are(results@, acc),
            seen@.len() == acc.len(),
            forall|j: int| 0 <= j < seen@.len() ==> #[trigger] seen@[j]@ == acc[j].0,
            collect_briefs(es, limit as int, fmt, Seq::empty()) == collect_briefs(
                es.skip(i as int),
                limit as int,
                fmt,
                acc,
            ),
        decreases entries@.len() - i,
    {
        let e = &entries[i];
        proof {
            assert(es.skip(i as int)[0] == e@);
            assert(es.skip(i as int).drop_first() =~= es.skip(i + 1));
        }
        if e.len() == 0 || results.len() >= limit {
            i = i + 1;
            continue;
        }
        match parse_entry_exec(fmt, e) {
            Some(b) => {
                let (code, name) = b;
                let mut dup = false;
                let mut j: usize = 0;
                while j < seen.len()
                    invariant
                        0 <= j <= seen@.len(),
                        seen@.len() == acc.len(),
                        forall|k: int| 0 <= k < seen@.len() ==> #[trigger] seen@[k]@ == acc[k].0,
                        dup == (exists|k: int| 0 <= k < j && (#[trigger] acc[k]).0 == code@),
                    decreases seen@.len() - j,
                {
                    if crate::text::chars_eq(&seen[j], &code) {
                        dup = true;
                    }
                    j = j + 1;
                }
                assert(dup == has_code(acc, code@));
                if !dup {
                    let brief = StockBrief {
                        code: string_of(&code),
                        market: "CN".to_owned(),
                        name: string_of(&name),
                    };
                    results.push(brief);
                    seen.push(code);
                    proof {
                        acc = acc.push((seen@[seen@.len() - 1]@, name@));
                    }
                }
            },
            None => {},
        }
        i = i + 1;
    }
    proof {
        assert(es.skip(i as int) =~= Seq::<Seq<char>>::empty());
    }
    results
}

/// Parses a Tencent smartbox response into at most `limit` A-share, ETF and
/// LOF matches (six-digit codes, non-empty names), first occurrence of each code.
pub fn parse_tencent_smartbox(body: &str, limit: usize) -> (r: Vec<StockBrief>)
    ensures
        briefs_are(r@, tencent_smartbox_spec(body@, limit as int)),
{
    let b = chars_of(body);
    let content = quoted_after_exec(&b, "v_hint=\"");
    if content.len() == 0 || chars_eq_str(&content, "N") {
        return Vec::new();
    }
    let entries = split_chars(&content, '^');
    proof {
        assert(entries@.map_values(|e: Vec<char>| e@) =~= split_by(content@, '^'));
    }
    collect_entries(&entries, limit, SuggestFormat::Tencent)
}

/// Parses a (decoded) Sina suggest response into at most `limit` matches of
/// types 11/12/22/23/203 with six-digit codes and non-empty names, first
/// occurrence of each code.
pub fn parse_sina_suggest(body: &str, limit: usize) -> (r: Vec<StockBrief>)
    ensures
        briefs_are(r@, sina_suggest_spec(body@, limit as int)),
{
    let b = chars_of(body);
    let content = quoted_after_exec(&b, "cn=\"");
    if content.len() == 0 {
        return Vec::new();
    }
    let entries = split_chars(&content, ';');
    proof {
        assert(entries@.map_values(|e: Vec<char>| e@) =~= split_by(content@, ';'));
    }
    collect_entries(&entries, limit, SuggestFormat::Sina)
}

/// What encoding_rs's `GBK.decode` makes of a byte string (the Sina
/// suggest service answers in GBK).
pub uninterp spec fn gbk_decode(bytes: Seq<u8>) -> Seq<char>;

/// Decodes GBK bytes with encoding_rs's `GBK.decode`: a byte-order mark, if
/// any, picks UTF-8 or UTF-16 instead and is dropped; malformed sequences
/// become U+FFFD. The text depends on the bytes alone; which text that is,
/// is not stated beyond that.
#[verifier::external_body]
fn decode_gbk(bytes: &[u8]) -> (r: String)
    ensures
        r@ == gbk_decode(bytes@),
{
    let (text, _, _) = encoding_rs::GBK.decode(bytes);
    text.into_owned()
}

/// A GBK reply body as text (what the quote services send).
pub fn gbk_text(bytes: &[u8]) -> (r: String)
    ensures
        r@ == gbk_decode(bytes@),
{
    decode_gbk(bytes)
}

/// The matches in a raw (GBK) Sina suggest response.
pub fn parse_sina_suggest_bytes(body: &[u8], limit: usize) -> (r: Vec<StockBrief>)
    ensures
        briefs_are(r@, sina_suggest_spec(gbk_decode(body@), limit as int)),
{
    let text = decode_gbk(body);
    parse_sina_suggest(text.as_str(), limit)
}

/// Where the Sina suggest service is asked.
pub const SINA_SUGGEST_URL: &'static str = "https://suggest3.sinajs.cn/suggest/name=cn";
/// Where the Tencent smartbox service is asked.
pub const TENCENT_SUGGEST_URL: &'static str = "http://smartbox.gtimg.cn/s3/";

/// The Sina suggest request for a keyword; `None` (nothing to ask) when the
/// trimmed keyword is empty.
pub open spec fn sina_suggest_url_spec(keyword: Seq<char>) -> Option<Seq<char>> {
    let t = trim_spec(keyword);
    if t.len() == 0 {
        None
    } else {
        Some(SINA_SUGGEST_URL@ + "&key="@ + url_encode_bytes(vstd::utf8::encode_utf8(t)))
    }
}

/// The Tencent smartbox request for a keyword; `None` when the trimmed
/// keyword is empty.
pub open spec fn tencent_suggest_url_spec(keyword: Seq<char>) -> Option<Seq<char>> {
    let t = trim_spec(keyword);
    if t.len() == 0 {
        None
    } else {
        Some(TENCENT_SUGGEST_URL@ + "?q="@ + url_encode_bytes(vstd::utf8::encode_utf8(t)) + "&t=all"@)
    }
}

/// The Sina suggest request for a keyword, if there is anything to ask.
pub fn sina_suggest_url(keyword: &str) -> (r: Option<String>)
    ensures
        r matches Some(u) ==> sina_suggest_url_spec(keyword@) == Some(u@),
        r is None ==> sina_suggest_url_spec(keyword@) is None,
{
    let t = trim_chars(&chars_of(keyword));
    if t.len() == 0 {
        return None;
    }
    let ts = string_of(&t);
    let enc = urlencoding(ts.as_str());
    let mut out = chars_of(SINA_SUGGEST_URL);
    append_chars(&mut out, "&key=");
    append_chars(&mut out, enc.as_str());
    Some(string_of(&out))
}

/// The Tencent smartbox request for a keyword, if there is anything to ask.
pub fn tencent_suggest_url(keyword: &str) -> (r: Option<String>)
    ensures
        r matches Some(u) ==> tencent_suggest_url_spec(keyword@) == Some(u@),
        r is None ==> tencent_suggest_url_spec(keyword@) is None,
{
    let t = trim_chars(&chars_of(keyword));
    if t.len() == 0 {
        return None;
    }
    let ts = string_of(&t);
    let enc = urlencoding(ts.as_str());
    let mut out = chars_of(TENCENT_SUGGEST_URL);
    append_chars(&mut out, "?q=");
    append_chars(&mut out, enc.as_str());
    append_chars(&mut out, "&t=all");
    Some(string_of(&out))
}

} // verus!
