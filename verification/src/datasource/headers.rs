use vstd::prelude::*;

verus! {

/// Browser User-Agent strings (Windows Chrome, Edge and Firefox) that requests
/// rotate through.
pub const USER_AGENTS: [&'static str; 7] = [
    "Mozilla/5.0 (Windows NT 10.0; Win64; x64) AppleWebKit/537.36 (KHTML, like Gecko) Chrome/131.0.0.0 Safari/537.36",
    "Mozilla/5.0 (Windows NT 10.0; Win64; x64) AppleWebKit/537.36 (KHTML, like Gecko) Chrome/130.0.0.0 Safari/537.36",
    "Mozilla/5.0 (Windows NT 10.0; Win64; x64) AppleWebKit/537.36 (KHTML, like Gecko) Chrome/131.0.0.0 Safari/537.36 Edg/131.0.0.0",
    "Mozilla/5.0 (Windows NT 10.0; Win64; x64) AppleWebKit/537.36 (KHTML, like Gecko) Chrome/129.0.0.0 Safari/537.36",
    "Mozilla/5.0 (Windows NT 10.0; Win64; x64; rv:133.0) Gecko/20100101 Firefox/133.0",
    "Mozilla/5.0 (Windows NT 10.0; Win64; x64) AppleWebKit/537.36 (KHTML, like Gecko) Chrome/128.0.0.0 Safari/537.36",
    "Mozilla/5.0 (Windows NT 10.0; Win64; x64) AppleWebKit/537.36 (KHTML, like Gecko) Chrome/130.0.0.0 Safari/537.36 Edg/130.0.0.0",
];

/// The User-Agent for the request with rotation number `ticket`: the pool is
/// walked in order and starts over after its last entry.
pub fn pick_user_agent(ticket: usize) -> (r: &'static str)
    ensures
        r == USER_AGENTS[(ticket % 7) as int],
{
    let n: usize = USER_AGENTS.len();
    USER_AGENTS[ticket % n]
}

/// Consecutive requests get consecutive pool entries, and every seven
/// consecutive requests use the whole pool once.
pub proof fn lemma_rotation(ticket: nat)
    ensures
        (ticket + 1) % 7 == if ticket % 7 == 6 { 0 } else { ticket % 7 + 1 },
        (ticket + 7) % 7 == ticket % 7,
{
}

} // verus!
