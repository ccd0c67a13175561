use vstd::prelude::*;

verus! {

/// The characters of `s`, in order.
pub fn chars_of(s: &str) -> (r: Vec<char>)
    ensures
        r@ == s@,
{
    let mut out: Vec<char> = Vec::new();
    for c in it: s.chars()
        invariant
            out@ == it.seq().take(it.index() as int),
            it.seq() == s@,
    {
        out.push(c);
    }
    out
}

/// std's `String: FromIterator<&char>`: a string made of exactly these characters.
#[verifier::external_body]
pub fn string_of(v: &Vec<char>) -> (r: String)
    ensures
        r@ == v@,
{
    v.iter().collect()
}

/// std's `char::from_u32`: `None` exactly for surrogate code points
/// (and values above `0x10FFFF`), else the character with that code point.
#[verifier::external_body]
pub fn char_from_u32(cp: u32) -> (r: Option<char>)
    ensures
        r == (if (0xD800 <= cp <= 0xDFFF) || cp > 0x10FFFF { None::<char> } else { Some(cp as char) }),
{
    char::from_u32(cp)
}

/// Exec equality of two character vectors.
pub fn chars_eq(a: &Vec<char>, b: &Vec<char>) -> (r: bool)
    ensures
        r == (a@ == b@),
{
    if a.len() != b.len() {
        return false;
    }
    let mut i: usize = 0;
    while i < a.len()
        invariant
            a@.len() == b@.len(),
            0 <= i <= a@.len(),
            forall|j: int| 0 <= j < i ==> a@[j] == b@[j],
        decreases a@.len() - i,
    {
        if a[i] != b[i] {
            return false;
        }
        i = i + 1;
    }
    assert(a@ =~= b@);
    true
}

/// The characters of `s` equal those of the literal `lit`.
pub fn chars_eq_str(a: &Vec<char>, lit: &str) -> (r: bool)
    ensures
        r == (a@ == lit@),
{
    let l = chars_of(lit);
    chars_eq(a, &l)
}

// ── Substring search ──

/// `pat` occurs in `hay` starting at position `i`.
pub open spec fn matches_at(hay: Seq<char>, pat: Seq<char>, i: int) -> bool {
    0 <= i && i + pat.len() <= hay.len() && hay.subrange(i, i + pat.len()) == pat
}

/// Position of the first occurrence of `pat` in `hay` at or after `i`.
pub open spec fn find_from(hay: Seq<char>, pat: Seq<char>, i: int) -> Option<int>
    decreases hay.len() + 1 - i,
{
    if i < 0 || i + pat.len() > hay.len() {
        None
    } else if matches_at(hay, pat, i) {
        Some(i)
    } else {
        find_from(hay, pat, i + 1)
    }
}

/// A match found from `i` on lies at or after `i` and is a match.
pub proof fn lemma_find_from_matches(hay: Seq<char>, pat: Seq<char>, i: int)
    ensures
        find_from(hay, pat, i) matches Some(p) ==> i <= p && matches_at(hay, pat, p),
    decreases hay.len() + 1 - i,
{
    if !(i < 0 || i + pat.len() > hay.len()) && !matches_at(hay, pat, i) {
        lemma_find_from_matches(hay, pat, i + 1);
    }
}

/// Position of the first occurrence of `pat` in `hay` (std's `str::find`,
/// counted in characters).
pub open spec fn find_seq(hay: Seq<char>, pat: Seq<char>) -> Option<int> {
    find_from(hay, pat, 0)
}

fn matches_at_exec(hay: &Vec<char>, pat: &Vec<char>, i: usize) -> (r: bool)
    requires
        i + pat@.len() <= hay@.len(),
    ensures
        r == matches_at(hay@, pat@, i as int),
{
    let n = hay.len();
    let mut j: usize = 0;
    while j < pat.len()
        invariant
            n == hay@.len(),
            i + pat@.len() <= hay@.len(),
            0 <= j <= pat@.len(),
            forall|k: int| 0 <= k < j ==> hay@[i + k] == pat@[k],
        decreases pat@.len() - j,
    {
        assert(i + j < hay@.len());
        if hay[i + j] != pat[j] {
            assert(hay@.subrange(i as int, i + pat@.len())[j as int] != pat@[j as int]);
            return false;
        }
        j = j + 1;
    }
    assert(hay@.subrange(i as int, i + pat@.len()) =~= pat@);
    true
}

/// First position of `pat` in `hay`.
pub fn find_chars(hay: &Vec<char>, pat: &Vec<char>) -> (r: Option<usize>)
    ensures
        r matches Some(p) ==> find_seq(hay@, pat@) == Some(p as int) && p + pat@.len() <= hay@.len(),
        r is None ==> find_seq(hay@, pat@) is None,
{
    proof {
        lemma_find_from_matches(hay@, pat@, 0);
    }
    if pat.len() > hay.len() {
        return None;
    }
    let last: usize = hay.len() - pat.len();
    let mut i: usize = 0;
    loop
        invariant
            last + pat@.len() == hay@.len(),
            0 <= i <= last,
            find_seq(hay@, pat@) == find_from(hay@, pat@, i as int),
        decreases last - i,
    {
        if matches_at_exec(hay, pat, i) {
            return Some(i);
        }
        if i == last {
            assert(find_from(hay@, pat@, i + 1) is None);
            return None;
        }
        i = i + 1;
    }
}

/// First position of the character `c` in `hay`.
pub fn find_char(hay: &Vec<char>, c: char) -> (r: Option<usize>)
    ensures
        r matches Some(p) ==> find_seq(hay@, seq![c]) == Some(p as int) && p < hay@.len(),
        r is None ==> find_seq(hay@, seq![c]) is None,
{
    let mut pat: Vec<char> = Vec::new();
    pat.push(c);
    assert(pat@ =~= seq![c]);
    find_chars(hay, &pat)
}

/// A copy of `v[from..to]`.
pub fn slice_chars(v: &Vec<char>, from: usize, to: usize) -> (r: Vec<char>)
    requires
        from <= to <= v@.len(),
    ensures
        r@ == v@.subrange(from as int, to as int),
{
    let mut out: Vec<char> = Vec::new();
    let mut i = from;
    while i < to
        invariant
            from <= i <= to <= v@.len(),
            out@ == v@.subrange(from as int, i as int),
        decreases to - i,
    {
        out.push(v[i]);
        i = i + 1;
        assert(out@ =~= v@.subrange(from as int, i as int));
    }
    out
}

// ── Splitting ──

/// std's `str::split(sep)`: the pieces between occurrences of `sep`,
/// always at least one (empty pieces included).
pub open spec fn split_by(s: Seq<char>, sep: char) -> Seq<Seq<char>>
    decreases s.len(),
{
    if s.len() == 0 {
        seq![Seq::<char>::empty()]
    } else {
        let rest = split_by(s.drop_first(), sep);
        if s[0] == sep {
            seq![Seq::<char>::empty()] + rest
        } else {
            rest.update(0, seq![s[0]] + rest[0])
        }
    }
}

/// Splitting yields at least one piece.
pub proof fn lemma_split_nonempty(s: Seq<char>, sep: char)
    ensures
        split_by(s, sep).len() >= 1,
    decreases s.len(),
{
    if s.len() > 0 {
        lemma_split_nonempty(s.drop_first(), sep);
    }
}

spec fn prefix_first(c: Seq<char>, r: Seq<Seq<char>>) -> Seq<Seq<char>> {
    r.update(0, c + r[0])
}

/// `v` split at every `sep`.
pub fn split_chars(v: &Vec<char>, sep: char) -> (r: Vec<Vec<char>>)
    ensures
        r@.len() == split_by(v@, sep).len(),
        forall|k: int| 0 <= k < r@.len() ==> #[trigger] r@[k]@ == split_by(v@, sep)[k],
{
    let mut done: Vec<Vec<char>> = Vec::new();
    let mut cur: Vec<char> = Vec::new();
    let mut i: usize = 0;
    let ghost dv: Seq<Seq<char>> = Seq::empty();
    proof {
        lemma_split_nonempty(v@, sep);
        assert(v@.skip(0) =~= v@);
        assert(prefix_first(Seq::empty(), split_by(v@, sep)) =~= split_by(v@, sep));
    }
    while i < v.len()
        invariant
            0 <= i <= v@.len(),
            dv.len() == done@.len(),
            forall|k: int| 0 <= k < dv.len() ==> #[trigger] done@[k]@ == dv[k],
            split_by(v@, sep) == dv + prefix_first(cur@, split_by(v@.skip(i as int), sep)),
        decreases v@.len() - i,
    {
        let ghost rest = split_by(v@.skip(i + 1), sep);
        proof {
            lemma_split_nonempty(v@.skip(i + 1), sep);
            assert(v@.skip(i as int).drop_first() =~= v@.skip(i + 1));
        }
        let c = v[i];
        if c == sep {
            proof {
                assert(split_by(v@.skip(i as int), sep) == seq![Seq::<char>::empty()] + rest);
                assert(prefix_first(cur@, seq![Seq::<char>::empty()] + rest) =~= seq![cur@] + prefix_first(Seq::empty(), rest));
                assert(prefix_first(Seq::<char>::empty(), rest) =~= rest);
                assert(dv + (seq![cur@] + rest) =~= dv.push(cur@) + rest);
            }
            let finished = cur;
            done.push(finished);
            cur = Vec::new();
            proof {
                dv = dv.push(finished@);
                assert(prefix_first(cur@, rest) =~= rest);
            }
        } else {
            proof {
                assert(split_by(v@.skip(i as int), sep) == rest.update(0, seq![c] + rest[0]));
                assert(cur@ + (seq![c] + rest[0]) =~= cur@.push(c) + rest[0]);
                assert(prefix_first(cur@, rest.update(0, seq![c] + rest[0])) =~= prefix_first(cur@.push(c), rest));
            }
            cur.push(c);
        }
        i = i + 1;
    }
    proof {
        assert(v@.skip(i as int) =~= Seq::<char>::empty());
        assert(split_by(Seq::<char>::empty(), sep) =~= seq![Seq::<char>::empty()]);
        assert(prefix_first(cur@, seq![Seq::<char>::empty()]) =~= seq![cur@]);
    }
    let ghost last = cur@;
    done.push(cur);
    proof {
        dv = dv.push(last);
        assert(split_by(v@, sep) =~= dv);
    }
    done
}

// ── Trimming ──

/// Unicode `White_Space` (what std's `char::is_whitespace` tests).
pub open spec fn is_white_space(c: char) -> bool {
    ||| ('\u{9}' <= c && c <= '\u{d}')
    ||| c == ' '
    ||| c == '\u{85}'
    ||| c == '\u{a0}'
    ||| c == '\u{1680}'
    ||| ('\u{2000}' <= c && c <= '\u{200a}')
    ||| c == '\u{2028}'
    ||| c == '\u{2029}'
    ||| c == '\u{202f}'
    ||| c == '\u{205f}'
    ||| c == '\u{3000}'
}

pub open spec fn trim_start_spec(s: Seq<char>) -> Seq<char>
    decreases s.len(),
{
    if s.len() > 0 && is_white_space(s[0]) { trim_start_spec(s.drop_first()) } else { s }
}

pub open spec fn trim_end_spec(s: Seq<char>) -> Seq<char>
    decreases s.len(),
{
    if s.len() > 0 && is_white_space(s.last()) { trim_end_spec(s.drop_last()) } else { s }
}

/// std's `str::trim`: `s` without leading and trailing white space.
pub open spec fn trim_spec(s: Seq<char>) -> Seq<char> {
    trim_end_spec(trim_start_spec(s))
}

pub fn is_white_space_exec(c: char) -> (r: bool)
    ensures
        r == is_white_space(c),
{
    ('\u{9}' <= c && c <= '\u{d}') || c == ' ' || c == '\u{85}' || c == '\u{a0}'
        || c == '\u{1680}' || ('\u{2000}' <= c && c <= '\u{200a}') || c == '\u{2028}'
        || c == '\u{2029}' || c == '\u{202f}' || c == '\u{205f}' || c == '\u{3000}'
}

/// `v` without leading and trailing white space.
pub fn trim_chars(v: &Vec<char>) -> (r: Vec<char>)
    ensures
        r@ == trim_spec(v@),
{
    let n = v.len();
    let mut start: usize = 0;
    proof {
        assert(v@.subrange(0, n as int) =~= v@);
    }
    while start < n && is_white_space_exec(v[start])
        invariant
            n == v@.len(),
            0 <= start <= n,
            trim_start_spec(v@) == trim_start_spec(v@.subrange(start as int, n as int)),
        decreases n - start,
    {
        proof {
            assert(v@.subrange(start as int, n as int).drop_first() =~= v@.subrange(start + 1, n as int));
        }
        start = start + 1;
    }
    let mut end: usize = n;
    proof {
        assert(trim_start_spec(v@.subrange(start as int, n as int)) == v@.subrange(start as int, n as int));
    }
    while end > start && is_white_space_exec(v[end - 1])
        invariant
            n == v@.len(),
            0 <= start <= end <= n,
            trim_start_spec(v@) == v@.subrange(start as int, n as int),
            trim_spec(v@) == trim_end_spec(v@.subrange(start as int, end as int)),
        decreases end - start,
    {
        proof {
            assert(v@.subrange(start as int, end as int).drop_last() =~= v@.subrange(start as int, end - 1));
        }
        end = end - 1;
    }
    slice_chars(v, start, end)
}

/// Appends the characters of `more` to `out`.
pub fn append_chars(out: &mut Vec<char>, more: &str)
    ensures
        final(out)@ == old(out)@ + more@,
{
    let m = chars_of(more);
    let mut i: usize = 0;
    while i < m.len()
        invariant
            0 <= i <= m@.len(),
            out@ == old(out)@ + m@.take(i as int),
        decreases m@.len() - i,
    {
        out.push(m[i]);
        i = i + 1;
        proof {
            assert(out@ =~= old(out)@ + m@.take(i as int));
        }
    }
    proof {
        assert(m@.take(m@.len() as int) =~= m@);
    }
}

// ── Numbers ──

/// Decimal digits of `n`, most significant first, without leading zeros.
pub open spec fn decimal(n: nat) -> Seq<char>
    decreases n,
{
    if n < 10 {
        seq![digit_char(n)]
    } else {
        decimal(n / 10).push(digit_char(n % 10))
    }
}

pub open spec fn digit_char(d: nat) -> char {
    (d + 48) as char
}

/// Appends the decimal digits of `n` to `out`.
pub fn push_decimal(n: u32, out: &mut Vec<char>)
    ensures
        final(out)@ == old(out)@ + decimal(n as nat),
    decreases n,
{
    if n >= 10 {
        push_decimal(n / 10, out);
    }
    let d: u32 = n % 10;
    let c: char = if d == 0 { '0' } else if d == 1 { '1' } else if d == 2 { '2' } else if d == 3 { '3' } else if d == 4 {
        '4'
    } else if d == 5 { '5' } else if d == 6 { '6' } else if d == 7 { '7' } else if d == 8 { '8' } else { '9' };
    out.push(c);
    proof {
        assert(c == digit_char(d as nat));
        if n >= 10 {
            assert(old(out)@ + decimal((n / 10) as nat) + seq![c] =~= old(out)@ + decimal(n as nat));
        } else {
            assert(old(out)@ + seq![c] =~= old(out)@ + decimal(n as nat));
        }
    }
}

/// An ASCII decimal digit.
pub open spec fn is_digit(c: char) -> bool {
    '0' <= c && c <= '9'
}

pub open spec fn all_digits(s: Seq<char>) -> bool {
    forall|i: int| 0 <= i < s.len() ==> is_digit(#[trigger] s[i])
}

/// The number a string of decimal digits writes.
pub open spec fn digits_value(s: Seq<char>) -> int
    decreases s.len(),
{
    if s.len() == 0 {
        0
    } else {
        digits_value(s.drop_last()) * 10 + (s.last() as int - '0' as int)
    }
}

/// What std's `from_str` reads for a signed integer type: an optional `+`
/// or `-`, then one or more decimal digits (range aside).
pub open spec fn signed_literal(s: Seq<char>) -> Option<int> {
    if s.len() > 0 && (s[0] == '+' || s[0] == '-') {
        let d = s.drop_first();
        if d.len() > 0 && all_digits(d) {
            Some(if s[0] == '-' { -digits_value(d) } else { digits_value(d) })
        } else {
            None
        }
    } else if s.len() > 0 && all_digits(s) {
        Some(digits_value(s))
    } else {
        None
    }
}

/// What std's `from_str` reads for an unsigned integer type: an optional
/// `+`, then one or more decimal digits (range aside).
pub open spec fn unsigned_literal(s: Seq<char>) -> Option<int> {
    if s.len() > 0 && s[0] == '-' {
        None
    } else {
        signed_literal(s)
    }
}

proof fn lemma_digits_value_nonneg(s: Seq<char>)
    requires
        all_digits(s),
    ensures
        digits_value(s) >= 0,
    decreases s.len(),
{
    if s.len() > 0 {
        assert(all_digits(s.drop_last())) by {
            assert forall|i: int| 0 <= i < s.drop_last().len() implies is_digit(#[trigger] s.drop_last()[i]) by {
                assert(s.drop_last()[i] == s[i]);
            }
        }
        lemma_digits_value_nonneg(s.drop_last());
        assert(is_digit(s[s.len() - 1]));
    }
}

/// Decimal digits read back as the number they write.
pub proof fn lemma_decimal_reads_back(n: nat)
    ensures
        decimal(n).len() > 0,
        all_digits(decimal(n)),
        digits_value(decimal(n)) == n,
    decreases n,
{
    let c = digit_char(n % 10);
    assert(c as int == n % 10 + 48);
    assert('0' as int == 48);
    if n < 10 {
        assert(decimal(n).drop_last() =~= Seq::<char>::empty());
        assert(decimal(n).last() == c);
        assert(digits_value(Seq::<char>::empty()) == 0);
        assert(digits_value(decimal(n)) == digits_value(decimal(n).drop_last()) * 10 + (c as int - '0' as int));
    } else {
        lemma_decimal_reads_back(n / 10);
        let d = decimal(n);
        assert(d.drop_last() =~= decimal(n / 10));
        assert(d.last() == c);
        assert(digits_value(d) == digits_value(d.drop_last()) * 10 + (c as int - '0' as int));
        assert(n == (n / 10) * 10 + n % 10);
        assert forall|i: int| 0 <= i < d.len() implies is_digit(#[trigger] d[i]) by {
            if i < d.len() - 1 {
                assert(d[i] == decimal(n / 10)[i]);
            }
        }
    }
}

/// Reads the digits of `v` from `start`: `None` when one is not a digit or
/// there are none, else their value, or `u64::MAX` for any value above
/// 2^63 (which no caller accepts).
fn digits_from(v: &Vec<char>, start: usize) -> (r: Option<u64>)
    requires
        start <= v@.len(),
    ensures
        ({
            let d = v@.subrange(start as int, v@.len() as int);
            &&& r is None <==> !(d.len() > 0 && all_digits(d))
            &&& r matches Some(x) ==> (digits_value(d) <= 0x8000_0000_0000_0000 ==> x == digits_value(d))
                && (digits_value(d) > 0x8000_0000_0000_0000 ==> x == u64::MAX)
        }),
{
    if start == v.len() {
        return None;
    }
    let mut acc: u128 = 0;
    let mut over = false;
    let mut i: usize = start;
    while i < v.len()
        invariant
            start <= i <= v@.len(),
            all_digits(v@.subrange(start as int, i as int)),
            !over ==> acc == digits_value(v@.subrange(start as int, i as int)) && acc <= 0x8000_0000_0000_0000,
            over ==> digits_value(v@.subrange(start as int, i as int)) > 0x8000_0000_0000_0000,
        decreases v@.len() - i,
    {
        let c = v[i];
        if !('0' <= c && c <= '9') {
            proof {
                let d = v@.subrange(start as int, v@.len() as int);
                assert(d[i - start] == c);
            }
            return None;
        }
        let ghost pre = v@.subrange(start as int, i as int);
        let ghost cur = v@.subrange(start as int, i + 1);
        proof {
            assert(cur.drop_last() =~= pre);
            assert(cur.last() == c);
            assert(all_digits(cur)) by {
                assert forall|k: int| 0 <= k < cur.len() implies is_digit(#[trigger] cur[k]) by {
                    if k < pre.len() {
                        assert(cur[k] == pre[k]);
                    }
                }
            }
            lemma_digits_value_nonneg(pre);
        }
        let d: u128 = (c as u32 - '0' as u32) as u128;
        if !over {
            let next = acc * 10 + d;
            if next > 0x8000_0000_0000_0000u128 {
                over = true;
            } else {
                acc = next;
            }
        }
        i = i + 1;
    }
    proof {
        assert(v@.subrange(start as int, i as int) =~= v@.subrange(start as int, v@.len() as int));
    }
    if over { Some(u64::MAX) } else { Some(acc as u64) }
}

/// std's `i64::from_str`: `None` where it returns an error.
pub fn parse_i64(s: &str) -> (r: Option<i64>)
    ensures
        r matches Some(x) ==> signed_literal(s@) == Some(x as int),
        r is None ==> !(signed_literal(s@) matches Some(v) && i64::MIN <= v <= i64::MAX),
{
    let v = chars_of(s);
    if v.len() == 0 {
        return None;
    }
    let neg = v[0] == '-';
    let start: usize = if v[0] == '+' || v[0] == '-' { 1 } else { 0 };
    proof {
        if start == 1 {
            assert(v@.subrange(1, v@.len() as int) =~= s@.drop_first());
        } else {
            assert(v@.subrange(0, v@.len() as int) =~= s@);
        }
    }
    match digits_from(&v, start) {
        None => None,
        Some(x) => {
            if neg {
                if x <= 0x8000_0000_0000_0000u64 {
                    if x == 0x8000_0000_0000_0000u64 {
                        Some(i64::MIN)
                    } else {
                        Some(-(x as i64))
                    }
                } else {
                    None
                }
            } else if x <= 0x7fff_ffff_ffff_ffffu64 {
                Some(x as i64)
            } else {
                None
            }
        },
    }
}

/// std's `i32::from_str`: `None` where it returns an error.
pub fn parse_i32(s: &str) -> (r: Option<i32>)
    ensures
        r matches Some(x) ==> signed_literal(s@) == Some(x as int),
        r is None ==> !(signed_literal(s@) matches Some(v) && i32::MIN <= v <= i32::MAX),
{
    match parse_i64(s) {
        Some(x) => if i32::MIN as i64 <= x && x <= i32::MAX as i64 { Some(x as i32) } else { None },
        None => None,
    }
}

/// std's `u32::from_str`: `None` where it returns an error.
pub fn parse_u32(s: &str) -> (r: Option<u32>)
    ensures
        r matches Some(x) ==> unsigned_literal(s@) == Some(x as int),
        r is None ==> !(unsigned_literal(s@) matches Some(v) && 0 <= v <= u32::MAX),
{
    let v = chars_of(s);
    if v.len() > 0 && v[0] == '-' {
        return None;
    }
    match parse_i64(s) {
        Some(x) => if 0 <= x && x <= u32::MAX as i64 { Some(x as u32) } else { None },
        None => None,
    }
}

} // verus!
