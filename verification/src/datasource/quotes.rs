use vstd::prelude::*;

use crate::datasource::sources::has_prefix;
use crate::text::{chars_of, find_char, find_seq, parse_i64, signed_literal, slice_chars, split_by, split_chars, string_of};

verus! {

/// The parts of a quote line `PREFIXSYMBOL="F0SEPF1SEP..."`: the symbol
/// after `prefix` in front of the first `=`, and the fields between the
/// first two `"` after it, split at `sep`.
pub open spec fn quote_parts(line: Seq<char>, prefix: Seq<char>, sep: char) -> Option<(Seq<char>, Seq<Seq<char>>)> {
    match find_seq(line, seq!['=']) {
        None => None,
        Some(e) => {
            let var = line.subrange(0, e);
            if !has_prefix(var, prefix) {
                None
            } else {
                let after = line.subrange(e + 1, line.len() as int);
                match find_seq(after, seq!['"']) {
                    None => None,
                    Some(q1) => {
                        let rest = after.subrange(q1 + 1, after.len() as int);
                        match find_seq(rest, seq!['"']) {
                            None => None,
                            Some(q2) => Some((var.subrange(prefix.len() as int, var.len() as int), split_by(rest.subrange(0, q2), sep))),
                        }
                    },
                }
            }
        },
    }
}

pub open spec fn strings_view(v: Seq<String>) -> Seq<Seq<char>> {
    v.map_values(|s: String| s@)
}

/// `r` is what `quote_parts` finds, with at least `min_fields` fields.
pub open spec fn parts_are(r: Option<(String, Vec<String>)>, line: Seq<char>, prefix: Seq<char>, sep: char, min_fields: int) -> bool {
    match quote_parts(line, prefix, sep) {
        Some((sym, fields)) => if fields.len() >= min_fields {
            r matches Some(p) && p.0@ == sym && strings_view(p.1@) == fields
        } else {
            r is None
        },
        None => r is None,
    }
}

fn starts_with(v: &Vec<char>, p: &Vec<char>) -> (r: bool)
    ensures
        r == has_prefix(v@, p@),
{
    if p.len() > v.len() {
        return false;
    }
    let mut i: usize = 0;
    while i < p.len()
        invariant
            p@.len() <= v@.len(),
            0 <= i <= p@.len(),
            forall|k: int| 0 <= k < i ==> v@[k] == p@[k],
        decreases p@.len() - i,
    {
        if v[i] != p[i] {
            assert(v@.subrange(0, p@.len() as int)[i as int] != p@[i as int]);
            return false;
        }
        i = i + 1;
    }
    assert(v@.subrange(0, p@.len() as int) =~= p@);
    true
}

/// The symbol and fields of a quote line with at least `min_fields` fields.
pub fn split_quote_line(line: &str, prefix: &str, sep: char, min_fields: usize) -> (r: Option<(String, Vec<String>)>)
    ensures
        parts_are(r, line@, prefix@, sep, min_fields as int),
{
    let l = chars_of(line);
    let found = find_char(&l, '=');
    if found.is_none() {
        return None;
    }
    let e = found.unwrap();
    let n = l.len();
    assert(e < n);
    let var = slice_chars(&l, 0, e);
    let p = chars_of(prefix);
    if !starts_with(&var, &p) {
        return None;
    }
    let after = slice_chars(&l, e + 1, n);
    let f1 = find_char(&after, '"');
    if f1.is_none() {
        return None;
    }
    let q1 = f1.unwrap();
    let rest = slice_chars(&after, q1 + 1, after.len());
    let f2 = find_char(&rest, '"');
    if f2.is_none() {
        return None;
    }
    let q2 = f2.unwrap();
    let data = slice_chars(&rest, 0, q2);
    let pieces = split_chars(&data, sep);
    if pieces.len() < min_fields {
        return None;
    }
    let sym = slice_chars(&var, p.len(), var.len());
    let mut fields: Vec<String> = Vec::new();
    let mut i: usize = 0;
    while i < pieces.len()
        invariant
            0 <= i <= pieces@.len(),
            fields@.len() == i,
            forall|k: int| 0 <= k < i ==> (#[trigger] fields@[k])@ == pieces@[k]@,
        decreases pieces@.len() - i,
    {
        fields.push(string_of(&pieces[i]));
        i = i + 1;
    }
    proof {
        assert(strings_view(fields@) =~= split_by(data@, sep));
    }
    Some((string_of(&sym), fields))
}

/// A Tencent quote line `v_SYMBOL="..."`: the full symbol (exchange prefix
/// kept) and its `~`-separated fields, at least 38 of them.
pub fn tencent_quote_fields(line: &str) -> (r: Option<(String, Vec<String>)>)
    ensures
        parts_are(r, line@, "v_"@, '~', 38),
{
    split_quote_line(line, "v_", '~', 38)
}

/// A Tencent index line `v_SYMBOL="..."`: the symbol and its fields, at
/// least 6 of them.
pub fn tencent_index_fields(line: &str) -> (r: Option<(String, Vec<String>)>)
    ensures
        parts_are(r, line@, "v_"@, '~', 6),
{
    split_quote_line(line, "v_", '~', 6)
}

/// `a + b` saturated at `u32::MAX`.
pub open spec fn sat_add(a: int, b: int) -> int {
    if a + b > u32::MAX { u32::MAX as int } else { a + b }
}

/// The (up, down, flat) counts after one `KEY: COUNT` entry of a change
/// bucket: a negative key counts as down, a positive one as up, zero as flat;
/// a key that is not an `i64` number is skipped; sums saturate at `u32::MAX`.
pub open spec fn breadth_step(t: (int, int, int), e: (Seq<char>, u32)) -> (int, int, int) {
    let (up, down, flat) = t;
    match signed_literal(e.0) {
        Some(n) => if !(i64::MIN <= n <= i64::MAX) {
            t
        } else if n < 0 {
            (up, sat_add(down, e.1 as int), flat)
        } else if n > 0 {
            (sat_add(up, e.1 as int), down, flat)
        } else {
            (up, down, sat_add(flat, e.1 as int))
        },
        None => t,
    }
}

/// The counts after the entries of one bucket, in order.
pub open spec fn breadth_entries(t: (int, int, int), entries: Seq<(Seq<char>, u32)>) -> (int, int, int)
    decreases entries.len(),
{
    if entries.len() == 0 {
        t
    } else {
        breadth_step(breadth_entries(t, entries.drop_last()), entries.last())
    }
}

/// The counts after the buckets of a distribution, in order.
pub open spec fn breadth_buckets(t: (int, int, int), buckets: Seq<Seq<(Seq<char>, u32)>>) -> (int, int, int)
    decreases buckets.len(),
{
    if buckets.len() == 0 {
        t
    } else {
        breadth_entries(breadth_buckets(t, buckets.drop_last()), buckets.last())
    }
}

/// A bucket's entries as plain values.
pub open spec fn bucket_view(b: Vec<(String, u32)>) -> Seq<(Seq<char>, u32)> {
    b@.map_values(|e: (String, u32)| (e.0@, e.1))
}

/// Up, down and flat counts of a change distribution, given as its buckets
/// (one per item of the distribution, with the `KEY: COUNT` entries of that
/// item; an item that holds no entries is an empty bucket).
pub open spec fn breadth_spec(buckets: Seq<Vec<(String, u32)>>) -> (int, int, int) {
    breadth_buckets((0, 0, 0), buckets.map_values(|b: Vec<(String, u32)>| bucket_view(b)))
}

/// The running counts after one entry, on `u32`s.
fn add_entry(up: u32, down: u32, flat: u32, key: &String, c: u32) -> (r: (u32, u32, u32))
    ensures
        (r.0 as int, r.1 as int, r.2 as int) == breadth_step((up as int, down as int, flat as int), (key@, c)),
{
    match parse_i64(key.as_str()) {
        Some(n) => {
            if n < 0 {
                (up, if down > u32::MAX - c { u32::MAX } else { down + c }, flat)
            } else if n > 0 {
                (if up > u32::MAX - c { u32::MAX } else { up + c }, down, flat)
            } else {
                (up, down, if flat > u32::MAX - c { u32::MAX } else { flat + c })
            }
        },
        None => (up, down, flat),
    }
}

/// Market breadth from a change distribution given as its buckets: `None`
/// when there is no distribution or it has no bucket, else (up, down, flat).
pub fn parse_breadth(buckets: Option<Vec<Vec<(String, u32)>>>) -> (r: Option<(u32, u32, u32)>)
    ensures
        ({
            match buckets {
                None => r is None,
                Some(v) => if v@.len() == 0 {
                    r is None
                } else {
                    let t = breadth_spec(v@);
                    r matches Some(x) && x.0 as int == t.0 && x.1 as int == t.1 && x.2 as int == t.2
                },
            }
        }),
{
    let v = match buckets {
        Some(v) => v,
        None => return None,
    };
    if v.len() == 0 {
        return None;
    }
    let ghost bv = v@.map_values(|b: Vec<(String, u32)>| bucket_view(b));
    let mut up: u32 = 0;
    let mut down: u32 = 0;
    let mut flat: u32 = 0;
    let mut i: usize = 0;
    proof {
        assert(bv.take(0) =~= Seq::<Seq<(Seq<char>, u32)>>::empty());
    }
    while i < v.len()
        invariant
            0 <= i <= v@.len(),
            bv == v@.map_values(|b: Vec<(String, u32)>| bucket_view(b)),
            (up as int, down as int, flat as int) == breadth_buckets((0, 0, 0), bv.take(i as int)),
        decreases v@.len() - i,
    {
        let bucket = &v[i];
        let ghost ev = bucket_view(*bucket);
        let ghost start = (up as int, down as int, flat as int);
        let mut j: usize = 0;
        proof {
            assert(ev.take(0) =~= Seq::<(Seq<char>, u32)>::empty());
        }
        while j < bucket.len()
            invariant
                0 <= j <= bucket@.len(),
                ev == bucket_view(*bucket),
                (up as int, down as int, flat as int) == breadth_entries(start, ev.take(j as int)),
            decreases bucket@.len() - j,
        {
            proof {
                assert(ev.take(j + 1).drop_last() =~= ev.take(j as int));
                assert(ev.take(j + 1).last() == (bucket@[j as int].0@, bucket@[j as int].1));
            }
            let (u, d, f) = add_entry(up, down, flat, &bucket[j].0, bucket[j].1);
            up = u;
            down = d;
            flat = f;
            j = j + 1;
        }
        proof {
            assert(ev.take(bucket@.len() as int) =~= ev);
            assert(bv.take(i + 1).drop_last() =~= bv.take(i as int));
            assert(bv.take(i + 1).last() == ev);
        }
        i = i + 1;
    }
    proof {
        assert(bv.take(v@.len() as int) =~= bv);
    }
    Some((up, down, flat))
}

} // verus!
