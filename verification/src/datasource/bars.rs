use vstd::prelude::*;

use crate::datasource::sources::{has_prefix, minute_span, minute_span_spec};
use crate::text::{append_chars, chars_eq_str, chars_of, decimal, push_decimal, slice_chars, string_of, trim_chars, trim_spec};

verus! {

// ── Chart requests ──

/// An index code as the index bar writes it (`s_sh000001`) names the chart
/// symbol after its `s_`.
pub open spec fn index_chart_symbol(code: Seq<char>) -> Option<Seq<char>> {
    if has_prefix(code, "s_"@) { Some(code.subrange(2, code.len() as int)) } else { None }
}

/// The chart symbol of an index code (see `index_chart_symbol`); none for a
/// stock code.
pub fn index_symbol(code: &str) -> (r: Option<String>)
    ensures
        r matches Some(s) ==> index_chart_symbol(code@) == Some(s@),
        r is None ==> index_chart_symbol(code@) is None,
{
    let c = chars_of(code);
    proof {
        reveal_strlit("s_");
    }
    if c.len() >= 2 && c[0] == 's' && c[1] == '_' {
        proof {
            assert(code@.subrange(0, 2) =~= "s_"@);
        }
        Some(string_of(&slice_chars(&c, 2, c.len())))
    } else {
        proof {
            if has_prefix(code@, "s_"@) {
                assert(code@.subrange(0, 2)[0] == code@[0]);
                assert(code@.subrange(0, 2)[1] == code@[1]);
            }
        }
        None
    }
}

/// Tencent's name of a day, week or month period: `week` for `weekly`,
/// `month` for `monthly`, `day` for anything else.
pub open spec fn tencent_period_spec(period: Seq<char>) -> Seq<char> {
    if period == "weekly"@ {
        "week"@
    } else if period == "monthly"@ {
        "month"@
    } else {
        "day"@
    }
}

/// Tencent's name of a day, week or month period.
pub fn tencent_period(period: &str) -> (r: &'static str)
    ensures
        r@ == tencent_period_spec(period@),
{
    let p = chars_of(period);
    if chars_eq_str(&p, "weekly") {
        "week"
    } else if chars_eq_str(&p, "monthly") {
        "month"
    } else {
        "day"
    }
}

/// `s` without its `-` characters.
pub open spec fn without_dashes(s: Seq<char>) -> Seq<char>
    decreases s.len(),
{
    if s.len() == 0 {
        s
    } else if s.last() == '-' {
        without_dashes(s.drop_last())
    } else {
        without_dashes(s.drop_last()).push(s.last())
    }
}

pub open spec fn opt_text(v: Option<String>) -> Seq<char> {
    match v {
        Some(s) => s@,
        None => Seq::empty(),
    }
}

pub open spec fn opt_count(v: Option<u32>, default: u32) -> nat {
    match v {
        Some(n) => n as nat,
        None => default as nat,
    }
}

/// Tencent's bar request for `symbol`: minute bars (`minute_span_spec`)
/// through the `mkline` endpoint, with the end date's dashes removed and 320
/// bars by default; day, week and month bars through `fqkline`, adjusted
/// forward (`qfq`), 200 bars by default.
pub open spec fn tencent_kline_url_spec(symbol: Seq<char>, period: Seq<char>, end_date: Seq<char>, count: Option<u32>) -> Seq<char> {
    match minute_span_spec(period) {
        Some(span) => "http://ifzq.gtimg.cn/appstock/app/kline/mkline?param="@ + symbol + ",m"@ + decimal(span as nat)
            + ",,"@ + without_dashes(end_date) + ","@ + decimal(opt_count(count, 320)),
        None => "http://web.ifzq.gtimg.cn/appstock/app/fqkline/get?param="@ + symbol + ","@ + tencent_period_spec(period)
            + ",,"@ + end_date + ","@ + decimal(opt_count(count, 200)) + ",qfq"@,
    }
}

fn push_without_dashes(out: &mut Vec<char>, s: &str)
    ensures
        final(out)@ == old(out)@ + without_dashes(s@),
{
    let c = chars_of(s);
    let mut i: usize = 0;
    while i < c.len()
        invariant
            0 <= i <= c@.len(),
            out@ == old(out)@ + without_dashes(c@.take(i as int)),
        decreases c@.len() - i,
    {
        proof {
            assert(c@.take(i + 1).drop_last() =~= c@.take(i as int));
        }
        if c[i] != '-' {
            out.push(c[i]);
        }
        i = i + 1;
        proof {
            assert(out@ =~= old(out)@ + without_dashes(c@.take(i as int)));
        }
    }
    proof {
        assert(c@.take(c@.len() as int) =~= c@);
    }
}

/// Tencent's bar request (see `tencent_kline_url_spec`).
pub fn tencent_kline_url(symbol: &str, period: &str, end_date: Option<String>, count: Option<u32>) -> (r: String)
    ensures
        r@ == tencent_kline_url_spec(symbol@, period@, opt_text(end_date), count),
{
    let end: String = match end_date {
        Some(s) => s,
        None => String::new(),
    };
    proof {
        assert(end@ == opt_text(end_date));
    }
    match minute_span(period) {
        Some(span) => {
            let mut out = chars_of("http://ifzq.gtimg.cn/appstock/app/kline/mkline?param=");
            append_chars(&mut out, symbol);
            append_chars(&mut out, ",m");
            push_decimal(span, &mut out);
            append_chars(&mut out, ",,");
            push_without_dashes(&mut out, end.as_str());
            append_chars(&mut out, ",");
            let n: u32 = match count {
                Some(n) => n,
                None => 320,
            };
            push_decimal(n, &mut out);
            proof {
                assert(out@ =~= tencent_kline_url_spec(symbol@, period@, opt_text(end_date), count));
            }
            string_of(&out)
        },
        None => {
            let mut out = chars_of("http://web.ifzq.gtimg.cn/appstock/app/fqkline/get?param=");
            append_chars(&mut out, symbol);
            append_chars(&mut out, ",");
            append_chars(&mut out, tencent_period(period));
            append_chars(&mut out, ",,");
            append_chars(&mut out, end.as_str());
            append_chars(&mut out, ",");
            let n: u32 = match count {
                Some(n) => n,
                None => 200,
            };
            push_decimal(n, &mut out);
            append_chars(&mut out, ",qfq");
            proof {
                assert(out@ =~= tencent_kline_url_spec(symbol@, period@, opt_text(end_date), count));
            }
            string_of(&out)
        },
    }
}

/// Sina serves daily bars only.
pub fn sina_has_period(period: &str) -> (r: bool)
    ensures
        r == (period@ == "daily"@),
{
    chars_eq_str(&chars_of(period), "daily")
}

// ── Sina bar replies ──

/// `s` without the characters after its last `]` (all of it when it has
/// none), as std's `trim_end_matches(|c| c != ']')`.
pub open spec fn through_last_bracket(s: Seq<char>) -> Seq<char>
    decreases s.len(),
{
    if s.len() > 0 && s.last() != ']' { through_last_bracket(s.drop_last()) } else { s }
}

/// The JSON array of a Sina bar reply, which ends in script text: the reply
/// up to its last `]`, trimmed; none unless that starts with `[`.
pub open spec fn json_array_spec(body: Seq<char>) -> Option<Seq<char>> {
    let j = trim_spec(through_last_bracket(body));
    if j.len() > 0 && j[0] == '[' { Some(j) } else { None }
}

/// The JSON array of a Sina bar reply (see `json_array_spec`).
pub fn json_array_text(body: &str) -> (r: Option<String>)
    ensures
        r matches Some(s) ==> json_array_spec(body@) == Some(s@),
        r is None ==> json_array_spec(body@) is None,
{
    let c = chars_of(body);
    let mut end: usize = c.len();
    proof {
        assert(c@.take(c@.len() as int) =~= c@);
    }
    while end > 0 && c[end - 1] != ']'
        invariant
            0 <= end <= c@.len(),
            through_last_bracket(c@) == through_last_bracket(c@.take(end as int)),
        decreases end,
    {
        proof {
            assert(c@.take(end as int).drop_last() =~= c@.take(end - 1));
        }
        end = end - 1;
    }
    let kept = slice_chars(&c, 0, end);
    proof {
        assert(kept@ =~= c@.take(end as int));
    }
    let j = trim_chars(&kept);
    if j.len() > 0 && j[0] == '[' {
        Some(string_of(&j))
    } else {
        None
    }
}

} // verus!
