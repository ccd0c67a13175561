use vstd::prelude::*;

use crate::text::{append_chars, chars_eq_str, chars_of, decimal, slice_chars, string_of};

verus! {

/// Index codes the index bar can show (comma separated).
pub const INDEX_CODES: &'static str = "s_sh000001,s_sz399001,s_sz399006,s_sh000688,s_sh000698,s_sh000905,s_sh000680";

/// Index codes shown by default, in display order.
pub const DEFAULT_INDEX_CODES: [&'static str; 7] = [
    "s_sh000001",
    "s_sz399001",
    "s_sz399006",
    "s_sh000688",
    "s_sh000698",
    "s_sh000905",
    "s_sh000680",
];

/// The index pool the settings page offers, as (code, name), in display
/// order: the same codes as `DEFAULT_INDEX_CODES`.
pub const INDEX_POOL_NAMES: [(&'static str, &'static str); 7] = [
    ("s_sh000001", "上证指数"),
    ("s_sz399001", "深证成指"),
    ("s_sz399006", "创业板指"),
    ("s_sh000688", "科创50"),
    ("s_sh000698", "科创100"),
    ("s_sh000905", "中证500"),
    ("s_sh000680", "科创综指"),
];

/// User-Agent of plain requests.
pub const USER_AGENT: &'static str = "Mozilla/5.0 (Windows NT 10.0; Win64; x64) AppleWebKit/537.36";

/// Default size of the ticker window, in logical pixels.
pub const TICKER_WIDTH: u32 = 230;
pub const TICKER_HEIGHT: u32 = 38;

/// Tencent counts volume in lots of this many shares.
pub const VOLUME_HANDS_TO_SHARES: u64 = 100;

/// Lots in shares, saturating at `u64::MAX`.
pub fn normalize_volume(hands: u64) -> (r: u64)
    ensures
        r == (if hands * VOLUME_HANDS_TO_SHARES > u64::MAX { u64::MAX as int } else { hands * VOLUME_HANDS_TO_SHARES }),
{
    if hands > u64::MAX / VOLUME_HANDS_TO_SHARES {
        u64::MAX
    } else {
        hands * VOLUME_HANDS_TO_SHARES
    }
}

/// The minutes of a minute-bar period (`1m` or `m1`, and so on for 5, 15, 30
/// and 60); none for day, week and month bars.
pub open spec fn minute_span_spec(period: Seq<char>) -> Option<u32> {
    if period == "1m"@ || period == "m1"@ {
        Some(1)
    } else if period == "5m"@ || period == "m5"@ {
        Some(5)
    } else if period == "15m"@ || period == "m15"@ {
        Some(15)
    } else if period == "30m"@ || period == "m30"@ {
        Some(30)
    } else if period == "60m"@ || period == "m60"@ {
        Some(60)
    } else {
        None
    }
}

/// The minutes of a minute-bar period (see `minute_span_spec`).
pub fn minute_span(period: &str) -> (r: Option<u32>)
    ensures
        r == minute_span_spec(period@),
{
    let p = chars_of(period);
    if chars_eq_str(&p, "1m") || chars_eq_str(&p, "m1") {
        Some(1)
    } else if chars_eq_str(&p, "5m") || chars_eq_str(&p, "m5") {
        Some(5)
    } else if chars_eq_str(&p, "15m") || chars_eq_str(&p, "m15") {
        Some(15)
    } else if chars_eq_str(&p, "30m") || chars_eq_str(&p, "m30") {
        Some(30)
    } else if chars_eq_str(&p, "60m") || chars_eq_str(&p, "m60") {
        Some(60)
    } else {
        None
    }
}

/// Every minute period, 1, 5, 15, 30 and 60, in either spelling (`15m` or
/// `m15`), stands for its number of minutes; day, week and month periods
/// stand for none.
pub proof fn lemma_minute_periods(n: u32)
    requires
        n == 1 || n == 5 || n == 15 || n == 30 || n == 60,
    ensures
        minute_span_spec(decimal(n as nat) + "m"@) == Some(n),
        minute_span_spec("m"@ + decimal(n as nat)) == Some(n),
        minute_span_spec("daily"@) is None,
        minute_span_spec("weekly"@) is None,
        minute_span_spec("monthly"@) is None,
{
    reveal_strlit("m");
    reveal_strlit("1m");
    reveal_strlit("m1");
    reveal_strlit("5m");
    reveal_strlit("m5");
    reveal_strlit("15m");
    reveal_strlit("m15");
    reveal_strlit("30m");
    reveal_strlit("m30");
    reveal_strlit("60m");
    reveal_strlit("m60");
    reveal_strlit("daily");
    reveal_strlit("weekly");
    reveal_strlit("monthly");
    let d = decimal(n as nat);
    if n == 1 {
        assert(d =~= seq!['1']);
    } else if n == 5 {
        assert(d =~= seq!['5']);
    } else if n == 15 {
        assert(decimal(1) =~= seq!['1']);
        assert(d =~= seq!['1', '5']);
    } else if n == 30 {
        assert(decimal(3) =~= seq!['3']);
        assert(d =~= seq!['3', '0']);
    } else {
        assert(decimal(6) =~= seq!['6']);
        assert(d =~= seq!['6', '0']);
    }
    let a = d + "m"@;
    let b = "m"@ + d;
    if n == 1 {
        assert(a =~= "1m"@);
        assert(b =~= "m1"@);
    } else if n == 5 {
        assert(a =~= "5m"@);
        assert(b =~= "m5"@);
        assert(a != "1m"@ && b != "m1"@) by {
            assert(a[0] != "1m"@[0]);
            assert(b[1] != "m1"@[1]);
        }
    } else if n == 15 {
        assert(a =~= "15m"@);
        assert(b =~= "m15"@);
        assert(a.len() != "1m"@.len() && a.len() != "5m"@.len());
        assert(b.len() != "m1"@.len() && b.len() != "m5"@.len());
    } else if n == 30 {
        assert(a =~= "30m"@);
        assert(b =~= "m30"@);
        assert(a.len() != "1m"@.len() && a.len() != "5m"@.len());
        assert(b.len() != "m1"@.len() && b.len() != "m5"@.len());
        assert(a[0] != "15m"@[0] && b[1] != "m15"@[1]);
    } else {
        assert(a =~= "60m"@);
        assert(b =~= "m60"@);
        assert(a.len() != "1m"@.len() && a.len() != "5m"@.len());
        assert(b.len() != "m1"@.len() && b.len() != "m5"@.len());
        assert(a[0] != "15m"@[0] && b[1] != "m15"@[1]);
        assert(a[0] != "30m"@[0] && b[1] != "m30"@[1]);
    }
    assert("daily"@.len() == 5 && "weekly"@.len() == 6 && "monthly"@.len() == 7);
}

/// An A-share code traded in Shanghai: it starts with 6, 5 or 9.
pub open spec fn shanghai(code: Seq<char>) -> bool {
    code.len() > 0 && (code[0] == '6' || code[0] == '5' || code[0] == '9')
}

/// `code` starts with `p`.
pub open spec fn has_prefix(code: Seq<char>, p: Seq<char>) -> bool {
    p.len() <= code.len() && code.subrange(0, p.len() as int) == p
}

/// Sina's symbol for a stock: `sh`/`sz` and the code for market `CN`, the
/// code itself elsewhere.
pub open spec fn sina_symbol(code: Seq<char>, market: Seq<char>) -> Seq<char> {
    if market == "CN"@ {
        if shanghai(code) { "sh"@ + code } else { "sz"@ + code }
    } else {
        code
    }
}

/// Tencent's symbol: as Sina's, but a code that already carries `sh` or `sz`
/// is kept.
pub open spec fn tencent_symbol(code: Seq<char>, market: Seq<char>) -> Seq<char> {
    if market == "CN"@ && (has_prefix(code, "sh"@) || has_prefix(code, "sz"@)) {
        code
    } else {
        sina_symbol(code, market)
    }
}

/// Eastmoney's security id for market `CN`: a code written with its
/// exchange (`sh600519`, `sz000001`) gives `1.` for Shanghai or `0.` for
/// Shenzhen and the bare code (`1.600519`, `0.000001`); a bare code gives `1.`
/// when it is a Shanghai code (6, 5 or 9 first), else `0.` (Shenzhen,
/// Beijing), and the code. Elsewhere `CODE.CODE`.
pub open spec fn eastmoney_secid(code: Seq<char>, market: Seq<char>) -> Seq<char> {
    if market == "CN"@ {
        if has_prefix(code, "sh"@) {
            "1."@ + code.subrange(2, code.len() as int)
        } else if has_prefix(code, "sz"@) {
            "0."@ + code.subrange(2, code.len() as int)
        } else {
            (if shanghai(code) { "1."@ } else { "0."@ }) + code
        }
    } else {
        code + "."@ + code
    }
}

/// Eastmoney's exchange digit agrees with Sina's symbol: for an A-share
/// code without its exchange, the security id starts with `1.` exactly when
/// the code starts with 6, 5 or 9, which is exactly when Sina writes it with
/// `sh`; the code follows unchanged. A code written with `sh` gets `1.`, one
/// written with `sz` gets `0.`, each followed by the code without them.
pub proof fn lemma_secid_exchange(code: Seq<char>)
    ensures
        !has_prefix(code, "sh"@) && !has_prefix(code, "sz"@) ==> {
            &&& eastmoney_secid(code, "CN"@) == (if code.len() > 0 && (code[0] == '6' || code[0] == '5' || code[0] == '9') {
                "1."@
            } else {
                "0."@
            }) + code
            &&& has_prefix(eastmoney_secid(code, "CN"@), "1."@) <==> has_prefix(sina_symbol(code, "CN"@), "sh"@)
        },
        has_prefix(code, "sh"@) ==> eastmoney_secid(code, "CN"@) == "1."@ + code.subrange(2, code.len() as int),
        has_prefix(code, "sz"@) ==> eastmoney_secid(code, "CN"@) == "0."@ + code.subrange(2, code.len() as int),
{
    reveal_strlit("sh");
    reveal_strlit("sz");
    reveal_strlit("1.");
    reveal_strlit("0.");
    if has_prefix(code, "sz"@) {
        assert(code.subrange(0, 2)[1] == 'z');
        assert(!has_prefix(code, "sh"@)) by {
            if has_prefix(code, "sh"@) {
                assert(code.subrange(0, 2)[1] == 'h');
            }
        }
    }
    if !has_prefix(code, "sh"@) && !has_prefix(code, "sz"@) {
        let id = eastmoney_secid(code, "CN"@);
        let sym = sina_symbol(code, "CN"@);
        if shanghai(code) {
            assert(id.subrange(0, 2) =~= "1."@);
            assert(sym.subrange(0, 2) =~= "sh"@);
        } else {
            assert(id.subrange(0, 2)[0] == '0');
            assert(sym.subrange(0, 2)[1] == 'z');
            assert(!has_prefix(id, "1."@)) by {
                if has_prefix(id, "1."@) {
                    assert(id.subrange(0, 2)[0] == '1');
                }
            }
            assert(!has_prefix(sym, "sh"@)) by {
                if has_prefix(sym, "sh"@) {
                    assert(sym.subrange(0, 2)[1] == 'h');
                }
            }
        }
    }
}

/// Sina and Tencent write an A-share code with `sh` exactly when it starts
/// with 6, 5 or 9 and with `sz` otherwise, the code following unchanged;
/// Tencent keeps a code that already carries `sh` or `sz`; other markets use
/// the code as it is.
pub proof fn lemma_symbol_exchange(code: Seq<char>, market: Seq<char>)
    ensures
        market == "CN"@ ==> sina_symbol(code, market) == (if code.len() > 0 && (code[0] == '6' || code[0] == '5'
            || code[0] == '9') {
            "sh"@
        } else {
            "sz"@
        }) + code,
        market == "CN"@ && !has_prefix(code, "sh"@) && !has_prefix(code, "sz"@) ==> tencent_symbol(code, market) == sina_symbol(code, market),
        market == "CN"@ && (has_prefix(code, "sh"@) || has_prefix(code, "sz"@)) ==> tencent_symbol(code, market) == code,
        market != "CN"@ ==> sina_symbol(code, market) == code && tencent_symbol(code, market) == code,
{
}

fn is_cn(market: &str) -> (r: bool)
    ensures
        r == (market@ == "CN"@),
{
    let m = chars_of(market);
    proof {
        reveal_strlit("CN");
        if m@.len() == 2 && m@[0] == 'C' && m@[1] == 'N' {
            assert(m@ =~= "CN"@);
        }
    }
    m.len() == 2 && m[0] == 'C' && m[1] == 'N'
}

fn starts_shanghai(code: &Vec<char>) -> (r: bool)
    ensures
        r == shanghai(code@),
{
    code.len() > 0 && (code[0] == '6' || code[0] == '5' || code[0] == '9')
}

fn joined(first: &str, second: &str) -> (r: String)
    ensures
        r@ == first@ + second@,
{
    let mut out = chars_of(first);
    append_chars(&mut out, second);
    string_of(&out)
}

/// Sina's symbol for a stock.
pub fn code_to_sina(code: &str, market: &str) -> (r: String)
    ensures
        r@ == sina_symbol(code@, market@),
{
    if is_cn(market) {
        if starts_shanghai(&chars_of(code)) { joined("sh", code) } else { joined("sz", code) }
    } else {
        code.to_owned()
    }
}

/// Tencent's symbol for a stock.
pub fn code_to_tencent(code: &str, market: &str) -> (r: String)
    ensures
        r@ == tencent_symbol(code@, market@),
{
    let c = chars_of(code);
    if is_cn(market) && c.len() >= 2 && c[0] == 's' && (c[1] == 'h' || c[1] == 'z') {
        proof {
            reveal_strlit("sh");
            reveal_strlit("sz");
            if c@[1] == 'h' {
                assert(code@.subrange(0, 2) =~= "sh"@);
            } else {
                assert(code@.subrange(0, 2) =~= "sz"@);
            }
        }
        return code.to_owned();
    }
    proof {
        reveal_strlit("sh");
        reveal_strlit("sz");
        if market@ == "CN"@ && (has_prefix(code@, "sh"@) || has_prefix(code@, "sz"@)) {
            assert(code@.subrange(0, 2)[0] == code@[0]);
            assert(code@.subrange(0, 2)[1] == code@[1]);
            assert(c@[0] == 's');
        }
    }
    code_to_sina(code, market)
}

/// Eastmoney's security id for a stock.
pub fn code_to_secid(code: &str, market: &str) -> (r: String)
    ensures
        r@ == eastmoney_secid(code@, market@),
{
    if is_cn(market) {
        let c = chars_of(code);
        proof {
            reveal_strlit("sh");
            reveal_strlit("sz");
            reveal_strlit("1.");
            reveal_strlit("0.");
        }
        if c.len() >= 2 && c[0] == 's' && (c[1] == 'h' || c[1] == 'z') {
            let bare = slice_chars(&c, 2, c.len());
            let mut out: Vec<char> = Vec::new();
            out.push(if c[1] == 'h' { '1' } else { '0' });
            out.push('.');
            let ghost head = out@;
            let mut i: usize = 0;
            while i < bare.len()
                invariant
                    0 <= i <= bare@.len(),
                    out@ == head + bare@.take(i as int),
                decreases bare@.len() - i,
            {
                out.push(bare[i]);
                i = i + 1;
                proof {
                    assert(out@ =~= head + bare@.take(i as int));
                }
            }
            proof {
                assert(bare@.take(bare@.len() as int) =~= bare@);
                if c@[1] == 'h' {
                    assert(code@.subrange(0, 2) =~= "sh"@);
                    assert(out@ =~= "1."@ + code@.subrange(2, code@.len() as int));
                } else {
                    assert(code@.subrange(0, 2) =~= "sz"@);
                    assert(!has_prefix(code@, "sh"@)) by {
                        assert(code@.subrange(0, 2)[1] == code@[1]);
                    }
                    assert(out@ =~= "0."@ + code@.subrange(2, code@.len() as int));
                }
            }
            return string_of(&out);
        }
        proof {
            if has_prefix(code@, "sh"@) || has_prefix(code@, "sz"@) {
                assert(code@.subrange(0, 2)[0] == code@[0]);
                assert(code@.subrange(0, 2)[1] == code@[1]);
            }
        }
        if starts_shanghai(&c) { joined("1.", code) } else { joined("0.", code) }
    } else {
        let mut out = chars_of(code);
        out.push('.');
        append_chars(&mut out, code);
        proof {
            reveal_strlit(".");
            assert(out@ =~= code@ + "."@ + code@);
        }
        string_of(&out)
    }
}

/// The names of the registered data sources and the active one.
pub struct SourceRegistry {
    names: Vec<String>,
    active: String,
}

impl SourceRegistry {
    /// Registered names, in registration order, each once.
    pub closed spec fn names(self) -> Seq<Seq<char>> {
        self.names@.map_values(|s: String| s@)
    }

    /// The active source's name (empty before the first registration).
    pub closed spec fn active(self) -> Seq<char> {
        self.active@
    }

    /// No name twice.
    pub open spec fn wf(self) -> bool {
        forall|i: int, j: int| 0 <= i < self.names().len() && 0 <= j < self.names().len() && i != j ==> self.names()[i] != self.names()[j]
    }

    /// No source registered, none active.
    pub fn new() -> (r: SourceRegistry)
        ensures
            r.wf(),
            r.names().len() == 0,
            r.active() == Seq::<char>::empty(),
    {
        SourceRegistry { names: Vec::new(), active: String::new() }
    }

    fn position(&self, name: &str) -> (r: Option<usize>)
        ensures
            r matches Some(i) ==> i < self.names().len() && self.names()[i as int] == name@,
            r is None ==> !self.names().contains(name@),
    {
        let n = string_of(&chars_of(name));
        let mut i: usize = 0;
        while i < self.names.len()
            invariant
                0 <= i <= self.names@.len(),
                n@ == name@,
                forall|t: int| 0 <= t < i ==> self.names@[t]@ != name@,
            decreases self.names@.len() - i,
        {
            if self.names[i] == n {
                return Some(i);
            }
            i = i + 1;
        }
        proof {
            if self.names().contains(name@) {
                let t = choose|t: int| 0 <= t < self.names().len() && self.names()[t] == name@;
                assert(self.names@[t]@ == name@);
            }
        }
        None
    }

    /// Where the active source stands in registration order; none when no
    /// source is registered.
    pub fn active_position(&self) -> (r: Option<usize>)
        ensures
            r matches Some(i) ==> i < self.names().len() && self.names()[i as int] == self.active(),
            r is None ==> !self.names().contains(self.active()),
    {
        self.position(self.active.as_str())
    }

    /// Whether a source of this name is registered.
    pub fn is_registered(&self, name: &str) -> (r: bool)
        ensures
            r == self.names().contains(name@),
    {
        self.position(name).is_some()
    }

    /// Registers a source name. The first source registered becomes the
    /// active one; registering a name again keeps a single entry.
    pub fn register(&mut self, name: &str)
        requires
            old(self).wf(),
        ensures
            final(self).wf(),
            final(self).names().contains(name@),
            forall|n: Seq<char>| old(self).names().contains(n) ==> final(self).names().contains(n),
            forall|n: Seq<char>| final(self).names().contains(n) ==> n == name@ || old(self).names().contains(n),
            !old(self).names().contains(name@) ==> final(self).names() == old(self).names().push(name@),
            old(self).names().contains(name@) ==> final(self).names() == old(self).names(),
            old(self).names().len() == 0 ==> final(self).active() == name@,
            old(self).names().len() > 0 ==> final(self).active() == old(self).active(),
    {
        let was_empty = self.names.len() == 0;
        if was_empty {
            self.active = string_of(&chars_of(name));
        }
        if self.position(name).is_none() {
            let ghost before = self.names();
            self.names.push(string_of(&chars_of(name)));
            proof {
                assert(self.names() =~= before.push(name@));
                assert(self.names()[before.len() as int] == name@);
                assert forall|n: Seq<char>| before.contains(n) implies self.names().contains(n) by {
                    let t = choose|t: int| 0 <= t < before.len() && before[t] == n;
                    assert(self.names()[t] == n);
                }
                assert forall|n: Seq<char>| self.names().contains(n) implies n == name@ || before.contains(n) by {
                    let t = choose|t: int| 0 <= t < self.names().len() && self.names()[t] == n;
                    if t < before.len() {
                        assert(before[t] == n);
                    }
                }
            }
        }
    }

    /// Makes `name` the active source; an unregistered name is refused with
    /// `Data source 'NAME' is not registered`.
    pub fn set_active(&mut self, name: &str) -> (r: Result<(), String>)
        ensures
            final(self).names() == old(self).names(),
            old(self).names().contains(name@) ==> r is Ok && final(self).active() == name@,
            !old(self).names().contains(name@) ==> (r matches Err(m) && m@ == "Data source '"@ + name@ + "' is not registered"@)
                && final(self).active() == old(self).active(),
    {
        if self.is_registered(name) {
            self.active = string_of(&chars_of(name));
            Ok(())
        } else {
            let mut m = chars_of("Data source '");
            append_chars(&mut m, name);
            append_chars(&mut m, "' is not registered");
            Err(string_of(&m))
        }
    }

    /// The active source's name.
    pub fn active_name(&self) -> (r: String)
        ensures
            r@ == self.active(),
    {
        self.active.clone()
    }

    /// The registered names, in registration order.
    pub fn list(&self) -> (r: Vec<String>)
        ensures
            r@.map_values(|s: String| s@) == self.names(),
    {
        let mut out: Vec<String> = Vec::new();
        let mut i: usize = 0;
        while i < self.names.len()
            invariant
                0 <= i <= self.names@.len(),
                out@.len() == i,
                forall|t: int| 0 <= t < i ==> (#[trigger] out@[t])@ == self.names@[t]@,
            decreases self.names@.len() - i,
        {
            out.push(self.names[i].clone());
            i = i + 1;
        }
        proof {
            assert(out@.map_values(|s: String| s@) =~= self.names());
        }
        out
    }
}

} // verus!
