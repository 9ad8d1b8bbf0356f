//! The browsing-time domains that colour the leaves: reading them from a JSON
//! object of seconds per domain name, ranking them by time, and the hues that
//! their colours are made from.
use std::collections::HashMap;
use vstd::prelude::*;
use vstd::utf8::encode_utf8;

verus! {

/// A domain that colours leaves: its name, the seconds spent on it, and the
/// hue of its colour in degrees.
#[derive(Clone, Debug)]
pub struct DomainData {
    pub name: String,
    pub seconds: u64,
    pub hue: u32,
}

/// The 32-bit string hash of `bytes`: starting from 0, each byte `b` turns
/// the hash `h` into `31 h + b`, modulo 2^32.
pub open spec fn name_hash(bytes: Seq<u8>) -> u32
    decreases bytes.len(),
{
    if bytes.len() == 0 {
        0
    } else {
        ((name_hash(bytes.drop_last()) as int * 31 + bytes.last() as int) % 0x1_0000_0000) as u32
    }
}

/// The hash is the plain polynomial hash of the bytes, each byte taken as it
/// is: the empty string hashes to 0, and one more byte `b` turns hash `h`
/// into `31 h + b` modulo 2^32.
pub proof fn lemma_name_hash_step(bytes: Seq<u8>, b: u8)
    ensures
        name_hash(Seq::<u8>::empty()) == 0,
        name_hash(bytes.push(b)) as int == (31 * name_hash(bytes) as int + b as int) % 0x1_0000_0000,
{
    assert(bytes.push(b).drop_last() =~= bytes);
}

/// The hue of a domain's colour: the hash of its name's UTF-8 bytes, in degrees below 360.
pub open spec fn name_hue(name: Seq<char>) -> u32 {
    name_hash(encode_utf8(name)) % 360
}

/// One step of the hash as the code computes it: `b + ((h << 5) - h)` with
/// wrapping arithmetic is `31 h + b` modulo 2^32.
proof fn lemma_hash_step(h: u32, b: u32)
    ensures
        b.wrapping_add((h << 5).wrapping_sub(h)) as int == (h as int * 31 + b as int)
            % 0x1_0000_0000,
{
    assert((h << 5) as int == (h as int * 32) % 0x1_0000_0000) by (bit_vector);
}

/// The hue of the colour of the domain called `name`.
pub fn domain_hue(name: &str) -> (hue: u32)
    ensures
        hue == name_hue(name@),
        hue == name_hash(encode_utf8(name@)) % 360,
        hue < 360,
{
    let bytes = name.as_bytes();
    let mut hash: u32 = 0;
    for i in 0..bytes.len()
        invariant
            hash == name_hash(bytes@.take(i as int)),
    {
        let b = bytes[i] as u32;
        proof {
            lemma_hash_step(hash, b);
            assert(bytes@.take(i + 1).drop_last() =~= bytes@.take(i as int));
        }
        hash = b.wrapping_add((hash << 5).wrapping_sub(hash));
    }
    assert(bytes@.take(bytes.len() as int) =~= bytes@);
    hash % 360
}

/// The base hues, in degrees, that the domains of the tree cycle through.
pub open spec fn base_hue_table() -> Seq<u32> {
    seq![110, 45, 140, 75, 165, 90, 30]
}

/// The base hue of the domain with position `index`: the table of base hues,
/// cycled.
pub fn domain_base_hue(index: usize) -> (hue: u32)
    ensures
        hue == base_hue_table()[(index % 7) as int],
{
    let base_hues: [u32; 7] = [110, 45, 140, 75, 165, 90, 30];
    assert(base_hues@ =~= base_hue_table());
    base_hues[index % 7]
}

/// The domain that an entry of the JSON object stands for.
pub open spec fn domain_from_entry(e: (String, u64)) -> DomainData {
    DomainData { name: e.0, seconds: e.1, hue: name_hue(e.0@) }
}

/// `d` placed into `sorted` after every domain with at least its seconds.
pub open spec fn insert_by_seconds(sorted: Seq<DomainData>, d: DomainData) -> Seq<DomainData>
    decreases sorted.len(),
{
    if sorted.len() == 0 || sorted.last().seconds >= d.seconds {
        sorted.push(d)
    } else {
        insert_by_seconds(sorted.drop_last(), d).push(sorted.last())
    }
}

/// The domains of `s` from most to fewest seconds, those with equal seconds
/// in their order in `s`.
pub open spec fn sort_by_seconds(s: Seq<DomainData>) -> Seq<DomainData>
    decreases s.len(),
{
    if s.len() == 0 {
        seq![]
    } else {
        insert_by_seconds(sort_by_seconds(s.drop_last()), s.last())
    }
}

/// The first `limit` domains of `s` by seconds.
pub open spec fn top_domains(s: Seq<DomainData>, limit: nat) -> Seq<DomainData> {
    let sorted = sort_by_seconds(s);
    if limit < sorted.len() {
        sorted.take(limit as int)
    } else {
        sorted
    }
}

/// No domain of `s` has more seconds than one before it.
pub open spec fn sorted_by_seconds(s: Seq<DomainData>) -> bool {
    forall|i: int, j: int| 0 <= i < j < s.len() ==> #[trigger] s[i].seconds >= #[trigger] s[j].seconds
}

/// Placing `d` into `s` from the back, at position `j`: the part of `s` past
/// `j` has fewer seconds than `d`, so `d` goes into `s.take(j)`.
proof fn lemma_insert_split(s: Seq<DomainData>, d: DomainData, j: int)
    requires
        0 < j <= s.len(),
        s[j - 1].seconds < d.seconds,
    ensures
        insert_by_seconds(s.take(j), d) + s.skip(j) == insert_by_seconds(s.take(j - 1), d) + s.skip(
            j - 1,
        ),
{
    assert(s.take(j).drop_last() =~= s.take(j - 1));
    assert(s.take(j).last() == s[j - 1]);
    assert(insert_by_seconds(s.take(j - 1), d).push(s[j - 1]) + s.skip(j) =~= insert_by_seconds(
        s.take(j - 1),
        d,
    ) + s.skip(j - 1));
}

/// A lower bound on the seconds of all of `s` and of `d` bounds all of `s` with `d` placed in.
proof fn lemma_insert_lower_bound(s: Seq<DomainData>, d: DomainData, m: u64)
    requires
        forall|i: int| 0 <= i < s.len() ==> #[trigger] s[i].seconds >= m,
        d.seconds >= m,
    ensures
        forall|i: int|
            0 <= i < insert_by_seconds(s, d).len() ==> #[trigger] insert_by_seconds(s, d)[i].seconds
                >= m,
    decreases s.len(),
{
    if s.len() > 0 && s.last().seconds < d.seconds {
        let p = s.drop_last();
        assert forall|i: int| 0 <= i < p.len() implies #[trigger] p[i].seconds >= m by {
            assert(p[i] == s[i]);
        }
        lemma_insert_lower_bound(p, d, m);
        let r = insert_by_seconds(p, d);
        assert forall|i: int| 0 <= i < r.push(s.last()).len() implies #[trigger] r.push(
            s.last(),
        )[i].seconds >= m by {
            if i < r.len() {
                assert(r.push(s.last())[i] == r[i]);
            } else {
                assert(s[s.len() - 1].seconds >= m);
            }
        }
    }
}

/// Placing a domain into a sorted sequence keeps it sorted, and adds exactly that domain.
proof fn lemma_insert_sorted(s: Seq<DomainData>, d: DomainData)
    requires
        sorted_by_seconds(s),
    ensures
        sorted_by_seconds(insert_by_seconds(s, d)),
        insert_by_seconds(s, d).to_multiset() == s.to_multiset().insert(d),
        insert_by_seconds(s, d).len() == s.len() + 1,
    decreases s.len(),
{
    broadcast use vstd::seq_lib::group_to_multiset_ensures;

    if s.len() == 0 || s.last().seconds >= d.seconds {
    } else {
        let p = s.drop_last();
        let x = s.last();
        assert(s =~= p.push(x));
        lemma_insert_sorted(p, d);
        lemma_insert_lower_bound(p, d, x.seconds);
        let r = insert_by_seconds(p, d);
        assert(sorted_by_seconds(r.push(x))) by {
            assert forall|i: int, j: int| 0 <= i < j < r.push(x).len() implies #[trigger] r.push(x)[i].seconds
                >= #[trigger] r.push(x)[j].seconds by {
                if j < r.len() {
                    assert(r.push(x)[i] == r[i]);
                    assert(r.push(x)[j] == r[j]);
                } else {
                    assert(r.push(x)[i] == r[i]);
                    assert(r[i].seconds >= x.seconds);
                }
            }
        }
        assert(r.push(x).to_multiset() =~= s.to_multiset().insert(d));
    }
}

/// Ranking by seconds orders the domains from most to fewest seconds and
/// neither loses nor adds a domain.
pub proof fn lemma_sort_by_seconds(s: Seq<DomainData>)
    ensures
        sorted_by_seconds(sort_by_seconds(s)),
        sort_by_seconds(s).to_multiset() == s.to_multiset(),
        sort_by_seconds(s).len() == s.len(),
    decreases s.len(),
{
    broadcast use vstd::seq_lib::group_to_multiset_ensures;

    if s.len() > 0 {
        lemma_sort_by_seconds(s.drop_last());
        lemma_insert_sorted(sort_by_seconds(s.drop_last()), s.last());
        assert(s =~= s.drop_last().push(s.last()));
    }
}

/// Whether a domain has exactly `k` seconds.
pub open spec fn has_seconds(k: u64) -> spec_fn(DomainData) -> bool {
    |e: DomainData| e.seconds == k
}

/// Placing `d` keeps the order of the domains with any given seconds, and
/// puts `d` after those with its own.
proof fn lemma_insert_stable(s: Seq<DomainData>, d: DomainData, k: u64)
    ensures
        insert_by_seconds(s, d).filter(has_seconds(k)) == if d.seconds == k {
            s.filter(has_seconds(k)).push(d)
        } else {
            s.filter(has_seconds(k))
        },
    decreases s.len(),
{
    reveal_with_fuel(Seq::filter, 1);
    if s.len() == 0 || s.last().seconds >= d.seconds {
        assert(s.push(d).drop_last() =~= s);
    } else {
        let p = s.drop_last();
        let x = s.last();
        lemma_insert_stable(p, d, k);
        assert(insert_by_seconds(p, d).push(x).drop_last() =~= insert_by_seconds(p, d));
    }
}

/// Ranking is stable: the domains with any given seconds come out in the
/// order in which they came in.
pub proof fn lemma_sort_by_seconds_stable(s: Seq<DomainData>, k: u64)
    ensures
        sort_by_seconds(s).filter(has_seconds(k)) == s.filter(has_seconds(k)),
    decreases s.len(),
{
    reveal_with_fuel(Seq::filter, 1);
    if s.len() > 0 {
        lemma_sort_by_seconds_stable(s.drop_last(), k);
        lemma_insert_stable(sort_by_seconds(s.drop_last()), s.last(), k);
    }
}

/// The first domains by seconds come out sorted, `limit` of them (all when
/// there are fewer), and each of them is one of the domains given.
pub proof fn lemma_top_domains(s: Seq<DomainData>, limit: nat)
    ensures
        sorted_by_seconds(top_domains(s, limit)),
        top_domains(s, limit).len() == if limit < s.len() {
            limit as int
        } else {
            s.len() as int
        },
        forall|i: int|
            0 <= i < top_domains(s, limit).len() ==> s.contains(#[trigger] top_domains(s, limit)[i]),
        forall|x: DomainData, i: int|
            #![trigger s.contains(x), top_domains(s, limit)[i]]
            s.contains(x) && !top_domains(s, limit).contains(x) && 0 <= i < top_domains(s, limit).len()
                ==> top_domains(s, limit)[i].seconds >= x.seconds,
{
    broadcast use vstd::seq_lib::group_to_multiset_ensures;

    lemma_sort_by_seconds(s);
    let sorted = sort_by_seconds(s);
    let top = top_domains(s, limit);
    assert forall|i: int| 0 <= i < top.len() implies s.contains(#[trigger] top[i]) by {
        assert(top[i] == sorted[i]);
        assert(sorted.contains(sorted[i]));
        assert(sorted.to_multiset().count(sorted[i]) > 0);
    }
    assert forall|x: DomainData, i: int|
        #![trigger s.contains(x), top[i]]
        s.contains(x) && !top.contains(x) && 0 <= i < top.len() implies top[i].seconds
        >= x.seconds by {
        assert(s.to_multiset().count(x) > 0);
        assert(sorted.contains(x));
        let j = choose|j: int| 0 <= j < sorted.len() && sorted[j] == x;
        if j < top.len() {
            assert(top[j] == x);
        }
        assert(top[i] == sorted[i]);
    }
}

/// The domains of `entries`, with the hue of each name, ranked from most to
/// fewest seconds (those with equal seconds in entry order) and cut to the
/// first `top_limit`.
pub fn rank_domains(entries: &Vec<(String, u64)>, top_limit: usize) -> (res: Vec<DomainData>)
    ensures
        res@ == top_domains(entries@.map_values(|e: (String, u64)| domain_from_entry(e)), top_limit as nat),
{
    let ghost domains = entries@.map_values(|e: (String, u64)| domain_from_entry(e));
    let mut result: Vec<DomainData> = Vec::new();
    for i in 0..entries.len()
        invariant
            domains == entries@.map_values(|e: (String, u64)| domain_from_entry(e)),
            result@ == sort_by_seconds(domains.take(i as int)),
    {
        let name = entries[i].0.clone();
        let hue = domain_hue(entries[i].0.as_str());
        let d = DomainData { name, seconds: entries[i].1, hue };
        assert(d == domains[i as int]);
        let ghost sorted = result@;
        let mut j = result.len();
        assert(sorted.take(j as int) =~= sorted);
        assert(sorted.take(j as int) + sorted.skip(j as int) =~= sorted.take(j as int));
        while j > 0 && result[j - 1].seconds < d.seconds
            invariant
                result@ == sorted,
                j <= sorted.len(),
                insert_by_seconds(sorted, d) == insert_by_seconds(sorted.take(j as int), d)
                    + sorted.skip(j as int),
            decreases j,
        {
            proof {
                lemma_insert_split(sorted, d, j as int);
            }
            j -= 1;
        }
        proof {
            assert(insert_by_seconds(sorted.take(j as int), d) == sorted.take(j as int).push(d));
            assert(domains.take(i + 1).drop_last() =~= domains.take(i as int));
            assert(sorted.take(j as int).push(d) + sorted.skip(j as int) =~= sorted.insert(j as int, d));
        }
        result.insert(j, d);
    }
    assert(domains.take(entries.len() as int) =~= domains);
    result.truncate(top_limit);
    result
}

/// What `serde_json` reads from `json` as an object that maps domain names
/// to seconds: none when `json` is not such an object.
pub uninterp spec fn spec_seconds_map(json: Seq<char>) -> Option<Map<Seq<char>, u64>>;

/// `l` lists each entry of `m` exactly once, in some order.
pub open spec fn lists_entries(l: Seq<(String, u64)>, m: Map<Seq<char>, u64>) -> bool {
    &&& forall|i: int|
        0 <= i < l.len() ==> m.contains_key(#[trigger] l[i].0@) && m[l[i].0@] == l[i].1
    &&& forall|i: int, j: int| 0 <= i < j < l.len() ==> #[trigger] l[i].0@ != #[trigger] l[j].0@
    &&& forall|k: Seq<char>|
        #[trigger] m.contains_key(k) ==> exists|i: int| 0 <= i < l.len() && #[trigger] l[i].0@ == k
}

/// A listing of the entries of `m` is as long as `m` has keys.
proof fn lemma_listing_len(l: Seq<(String, u64)>, m: Map<Seq<char>, u64>)
    requires
        lists_entries(l, m),
    ensures
        l.len() == m.dom().len(),
        m.dom().finite(),
{
    let keys = l.map_values(|e: (String, u64)| e.0@);
    assert forall|i: int, j: int|
        0 <= i < keys.len() && 0 <= j < keys.len() && i != j implies keys[i] != keys[j] by {
        if i < j {
            assert(l[i].0@ != l[j].0@);
        } else {
            assert(l[j].0@ != l[i].0@);
        }
    }
    keys.unique_seq_to_set();
    assert forall|k: Seq<char>| keys.to_set().contains(k) <==> m.dom().contains(k) by {
        if keys.to_set().contains(k) {
            let i = choose|i: int| 0 <= i < keys.len() && keys[i] == k;
            assert(m.contains_key(l[i].0@));
        }
        if m.contains_key(k) {
            let i = choose|i: int| 0 <= i < l.len() && #[trigger] l[i].0@ == k;
            assert(keys[i] == k);
        }
    }
    assert(keys.to_set() =~= m.dom());
}

/// Reads `json` with `serde_json::from_str` as a `HashMap<String, u64>` and
/// lists its entries. The claim: the listing exists exactly when the named
/// reading succeeds, and holds each entry of that map once. The order of the
/// listing is that in which the hash map is walked, which each process seeds
/// anew, so nothing is claimed of it.
#[verifier::external_body]
fn parse_seconds_json(json: &str) -> (res: Option<Vec<(String, u64)>>)
    ensures
        res is Some <==> spec_seconds_map(json@) is Some,
        res matches Some(v) ==> lists_entries(v@, spec_seconds_map(json@).unwrap()),
{
    match serde_json::from_str::<HashMap<String, u64>>(json) {
        Ok(map) => Some(map.into_iter().collect()),
        Err(_) => None,
    }
}

/// Reads the seconds spent per domain from the JSON object `json_str`, gives
/// each domain the hue of its name, and keeps the `top_limit` domains with the
/// most seconds, from most to fewest. Text that is not such an object gives
/// no domains. Domains with equal seconds keep the order in which the parsed
/// map was walked.
pub fn parse_input_json(json_str: &str, top_limit: usize) -> (res: Vec<DomainData>)
    ensures
        spec_seconds_map(json_str@) is None ==> res@.len() == 0,
        spec_seconds_map(json_str@) matches Some(m) ==> exists|l: Seq<(String, u64)>|
            #[trigger] lists_entries(l, m) && res@ == top_domains(
                l.map_values(|e: (String, u64)| domain_from_entry(e)),
                top_limit as nat,
            ),
        spec_seconds_map(json_str@) matches Some(m) ==> {
            &&& sorted_by_seconds(res@)
            &&& res@.len() == if top_limit < m.dom().len() {
                top_limit as int
            } else {
                m.dom().len() as int
            }
            &&& forall|k: Seq<char>, i: int|
                #![trigger m.contains_key(k), res@[i]]
                m.contains_key(k) && (forall|j: int| 0 <= j < res@.len() ==> #[trigger] res@[j].name@ != k)
                    && 0 <= i < res@.len() ==> res@[i].seconds >= m[k]
            &&& forall|i: int|
                0 <= i < res@.len() ==> {
                    &&& m.contains_key(#[trigger] res@[i].name@)
                    &&& m[res@[i].name@] == res@[i].seconds
                    &&& res@[i].hue == name_hue(res@[i].name@)
                }
        },
{
    let entries = match parse_seconds_json(json_str) {
        Some(v) => v,
        None => Vec::new(),
    };
    let res = rank_domains(&entries, top_limit);
    proof {
        if spec_seconds_map(json_str@) is None {
            assert(entries@.map_values(|e: (String, u64)| domain_from_entry(e)) =~= Seq::<
                DomainData,
            >::empty());
        } else {
            let m = spec_seconds_map(json_str@).unwrap();
            let ds = entries@.map_values(|e: (String, u64)| domain_from_entry(e));
            assert(lists_entries(entries@, m));
            lemma_listing_len(entries@, m);
            lemma_top_domains(ds, top_limit as nat);
            assert forall|i: int| 0 <= i < res@.len() implies {
                &&& m.contains_key(#[trigger] res@[i].name@)
                &&& m[res@[i].name@] == res@[i].seconds
                &&& res@[i].hue == name_hue(res@[i].name@)
            } by {
                assert(ds.contains(res@[i]));
                let j = choose|j: int| 0 <= j < ds.len() && ds[j] == res@[i];
                assert(ds[j] == domain_from_entry(entries@[j]));
                assert(m.contains_key(entries@[j].0@));
            }
            assert forall|k: Seq<char>, i: int|
                #![trigger m.contains_key(k), res@[i]]
                m.contains_key(k) && (forall|j: int| 0 <= j < res@.len() ==> #[trigger] res@[j].name@ != k)
                    && 0 <= i < res@.len() implies res@[i].seconds >= m[k] by {
                let j = choose|j: int| 0 <= j < entries@.len() && #[trigger] entries@[j].0@ == k;
                let x = ds[j];
                assert(x == domain_from_entry(entries@[j]));
                assert(ds.contains(x));
                if res@.contains(x) {
                    let t = choose|t: int| 0 <= t < res@.len() && res@[t] == x;
                    assert(res@[t].name@ != k);
                }
            }
        }
    }
    res
}

} // verus!
