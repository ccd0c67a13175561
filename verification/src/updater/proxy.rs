use vstd::prelude::*;

use crate::text::{decimal, push_decimal, string_of};

verus! {

/// Local proxy ports probed when no proxy is configured, most common first,
/// with the tool that usually listens there.
pub open spec fn proxy_ports() -> Seq<(u16, Seq<char>)> {
    seq![
        (7890u16, "Clash"@),
        (10809u16, "Clash Meta"@),
        (7891u16, "Clash (alt)"@),
        (1080u16, "V2Ray/SOCKS5"@),
        (10808u16, "V2Ray HTTP"@),
        (8118u16, "Privoxy"@),
        (8080u16, "Generic HTTP"@),
    ]
}

/// The probe table as values.
pub fn proxy_port_table() -> (r: Vec<(u16, &'static str)>)
    ensures
        r@.len() == proxy_ports().len(),
        forall|i: int| 0 <= i < r@.len() ==> (#[trigger] r@[i]).0 == proxy_ports()[i].0 && r@[i].1@ == proxy_ports()[i].1,
{
    let mut v: Vec<(u16, &'static str)> = Vec::new();
    v.push((7890, "Clash"));
    v.push((10809, "Clash Meta"));
    v.push((7891, "Clash (alt)"));
    v.push((1080, "V2Ray/SOCKS5"));
    v.push((10808, "V2Ray HTTP"));
    v.push((8118, "Privoxy"));
    v.push((8080, "Generic HTTP"));
    v
}

/// How a proxy found on a local port is reported: `http://127.0.0.1:PORT (NAME)`.
pub open spec fn local_proxy_label(port: u16, name: Seq<char>) -> Seq<char> {
    "http://127.0.0.1:"@ + decimal(port as nat) + " ("@ + name + ")"@
}

fn label_for(port: u16, name: &str) -> (r: String)
    ensures
        r@ == local_proxy_label(port, name@),
{
    let mut out: Vec<char> = Vec::new();
    let prefix = crate::text::chars_of("http://127.0.0.1:");
    let mut i: usize = 0;
    while i < prefix.len()
        invariant
            0 <= i <= prefix@.len(),
            out@ == prefix@.take(i as int),
        decreases prefix@.len() - i,
    {
        out.push(prefix[i]);
        i = i + 1;
        proof {
            assert(out@ =~= prefix@.take(i as int));
        }
    }
    proof {
        assert(prefix@.take(prefix@.len() as int) =~= prefix@);
    }
    push_decimal(port as u32, &mut out);
    out.push(' ');
    out.push('(');
    let nm = crate::text::chars_of(name);
    let mut j: usize = 0;
    let ghost base = out@;
    while j < nm.len()
        invariant
            0 <= j <= nm@.len(),
            out@ == base + nm@.take(j as int),
        decreases nm@.len() - j,
    {
        out.push(nm[j]);
        j = j + 1;
        proof {
            assert(out@ =~= base + nm@.take(j as int));
        }
    }
    out.push(')');
    proof {
        reveal_strlit("http://127.0.0.1:");
        reveal_strlit(" (");
        reveal_strlit(")");
        assert(nm@.take(nm@.len() as int) =~= nm@);
        assert(out@ =~= local_proxy_label(port, name@));
    }
    string_of(&out)
}

/// The proxy configured in the environment: the first of `HTTPS_PROXY`,
/// `https_proxy`, `HTTP_PROXY`, `http_proxy` that is set decides, and an
/// empty value there means none.
pub open spec fn system_proxy_spec(vars: Seq<Option<Seq<char>>>) -> Option<Seq<char>>
    decreases vars.len(),
{
    if vars.len() == 0 {
        None
    } else {
        match vars[0] {
            Some(v) => if v.len() == 0 { None } else { Some(v) },
            None => system_proxy_spec(vars.drop_first()),
        }
    }
}

/// The proxy configured in the environment, from the values of `HTTPS_PROXY`,
/// `https_proxy`, `HTTP_PROXY` and `http_proxy` in that order (`None` where a
/// variable is unset or not Unicode).
pub fn system_proxy_url(vars: Vec<Option<String>>) -> (r: Option<String>)
    ensures
        r matches Some(s) ==> system_proxy_spec(vars@.map_values(|o: Option<String>| opt_view(o))) == Some(s@),
        r is None ==> system_proxy_spec(vars@.map_values(|o: Option<String>| opt_view(o))) is None,
{
    let ghost vs = vars@.map_values(|o: Option<String>| opt_view(o));
    let mut i: usize = 0;
    proof {
        assert(vs.skip(0) =~= vs);
    }
    while i < vars.len()
        invariant
            0 <= i <= vars@.len(),
            vs == vars@.map_values(|o: Option<String>| opt_view(o)),
            system_proxy_spec(vs) == system_proxy_spec(vs.skip(i as int)),
        decreases vars@.len() - i,
    {
        proof {
            assert(vs.skip(i as int).drop_first() =~= vs.skip(i + 1));
            assert(vs.skip(i as int)[0] == vs[i as int]);
        }
        match &vars[i] {
            Some(v) => {
                if v.as_str().is_empty() {
                    proof {
                        assert(v@.len() == 0);
                    }
                    return None;
                }
                return Some(v.clone());
            },
            None => {},
        }
        i = i + 1;
    }
    proof {
        assert(vs.skip(vars@.len() as int).len() == 0);
    }
    None
}

pub open spec fn opt_view(o: Option<String>) -> Option<Seq<char>> {
    match o {
        Some(s) => Some(s@),
        None => None,
    }
}

/// A proxy is configured: the value is there and not empty.
pub open spec fn configured(system: Option<String>) -> bool {
    system matches Some(s) && s@.len() > 0
}

/// The first proxy found: the configured one if any; else the first local
/// port of the probe table, in table order, for which `is_port_open`
/// answers `true` (later ports are not probed); else none.
pub fn detect_proxy_url<F: Fn(u16) -> bool>(system: Option<String>, is_port_open: F) -> (r: Option<String>)
    requires
        forall|p: u16| call_requires(is_port_open, (p,)),
    ensures
        configured(system) ==> r == system,
        !configured(system) ==> {
            ||| (r is None && forall|i: int| 0 <= i < proxy_ports().len() ==> call_ensures(is_port_open, (#[trigger] proxy_ports()[i].0,), false))
            ||| exists|i: int| 0 <= i < proxy_ports().len() && call_ensures(is_port_open, (#[trigger] proxy_ports()[i].0,), true)
                && (forall|j: int| 0 <= j < i ==> call_ensures(is_port_open, (#[trigger] proxy_ports()[j].0,), false))
                && (r matches Some(s) && s@ == local_proxy_label(proxy_ports()[i].0, proxy_ports()[i].1))
        },
{
    match system {
        Some(s) => {
            if !s.as_str().is_empty() {
                return Some(s);
            }
        },
        None => {},
    }
    let table = proxy_port_table();
    let mut i: usize = 0;
    while i < table.len()
        invariant
            0 <= i <= table@.len(),
            !configured(system),
            table@.len() == proxy_ports().len(),
            forall|t: int| 0 <= t < table@.len() ==> (#[trigger] table@[t]).0 == proxy_ports()[t].0 && table@[t].1@ == proxy_ports()[t].1,
            forall|p: u16| call_requires(is_port_open, (p,)),
            forall|j: int| 0 <= j < i ==> call_ensures(is_port_open, (#[trigger] proxy_ports()[j].0,), false),
        decreases table@.len() - i,
    {
        let (port, name) = table[i];
        let open = is_port_open(port);
        if open {
            let label = label_for(port, name);
            proof {
                assert(call_ensures(is_port_open, (proxy_ports()[i as int].0,), true));
            }
            return Some(label);
        }
        proof {
            assert(call_ensures(is_port_open, (proxy_ports()[i as int].0,), false));
        }
        i = i + 1;
    }
    None
}

/// Local proxy ports tried at startup, in order.
pub open spec fn startup_ports() -> Seq<u16> {
    seq![7890u16, 10809u16, 10808u16, 7891u16, 1080u16, 8118u16, 8080u16]
}

/// Hosts of the quote services, which keep going direct when a local proxy
/// is set for the process.
pub const DIRECT_HOSTS: &'static str = "sinajs.cn,sina.com.cn,gtimg.cn,gu.qq.com,qq.com,eastmoney.com,localhost,127.0.0.1";

/// A local proxy on `port`: `http://127.0.0.1:PORT`.
pub open spec fn local_proxy_url(port: u16) -> Seq<char> {
    "http://127.0.0.1:"@ + decimal(port as nat)
}

fn url_for(port: u16) -> (r: String)
    ensures
        r@ == local_proxy_url(port),
{
    let mut out = crate::text::chars_of("http://127.0.0.1:");
    push_decimal(port as u32, &mut out);
    string_of(&out)
}

/// The proxy to set for the process at startup: none when any of
/// `HTTPS_PROXY`, `HTTP_PROXY`, `https_proxy`, `http_proxy` is set already
/// (`vars` holds their values); else the first port of `startup_ports`, in
/// order, for which `is_port_open` answers `true` (later ports are not
/// probed); else none.
pub fn startup_proxy<F: Fn(u16) -> bool>(vars: &Vec<Option<String>>, is_port_open: F) -> (r: Option<String>)
    requires
        forall|p: u16| call_requires(is_port_open, (p,)),
    ensures
        (exists|i: int| 0 <= i < vars@.len() && vars@[i] is Some) ==> r is None,
        (forall|i: int| 0 <= i < vars@.len() ==> vars@[i] is None) ==> {
            ||| (r is None && forall|i: int| 0 <= i < startup_ports().len() ==> call_ensures(is_port_open, (#[trigger] startup_ports()[i],), false))
            ||| exists|i: int| 0 <= i < startup_ports().len() && call_ensures(is_port_open, (#[trigger] startup_ports()[i],), true)
                && (forall|j: int| 0 <= j < i ==> call_ensures(is_port_open, (#[trigger] startup_ports()[j],), false))
                && (r matches Some(s) && s@ == local_proxy_url(startup_ports()[i]))
        },
{
    let mut k: usize = 0;
    while k < vars.len()
        invariant
            0 <= k <= vars@.len(),
            forall|i: int| 0 <= i < k ==> vars@[i] is None,
        decreases vars@.len() - k,
    {
        if vars[k].is_some() {
            return None;
        }
        k = k + 1;
    }
    let mut table: Vec<u16> = Vec::new();
    table.push(7890);
    table.push(10809);
    table.push(10808);
    table.push(7891);
    table.push(1080);
    table.push(8118);
    table.push(8080);
    proof {
        assert(table@ =~= startup_ports());
    }
    let mut i: usize = 0;
    while i < table.len()
        invariant
            0 <= i <= table@.len(),
            table@ == startup_ports(),
            forall|t: int| 0 <= t < vars@.len() ==> vars@[t] is None,
            forall|p: u16| call_requires(is_port_open, (p,)),
            forall|j: int| 0 <= j < i ==> call_ensures(is_port_open, (#[trigger] startup_ports()[j],), false),
        decreases table@.len() - i,
    {
        let port = table[i];
        let open = is_port_open(port);
        if open {
            return Some(url_for(port));
        }
        i = i + 1;
    }
    None
}

} // verus!
