//! Fresh-key generation for the player and game tables.
//!
//! A fresh key is drawn at random a bounded number of times; if every draw
//! collides, a deterministic sweep of the small candidates `0 ..= len` finds
//! a free key, which must exist because there are more candidates than
//! entries.

use vstd::prelude::*;
use crate::table::{has_key, keys};

verus! {

/// Relies on rand::random: a draw from the thread-local generator; nothing
/// is assumed of the value.
#[verifier::external_body]
fn random_i64() -> i64 {
    rand::random()
}

/// Relies on rand::random: a draw from the thread-local generator; nothing
/// is assumed of the value.
#[verifier::external_body]
fn random_u16() -> u16 {
    rand::random()
}

/// Relies on rand::random_range over `0..n`: the sample lies in the range.
/// The range must be non-empty, or the call panics.
#[verifier::external_body]
pub(crate) fn random_below(n: usize) -> (r: usize)
    requires
        n > 0,
    ensures
        r < n,
{
    rand::random_range(0..n)
}

/// Whether the table holds an entry under key `k`.
pub fn contains_key_i64<V>(map: &Vec<(i64, V)>, k: i64) -> (r: bool)
    ensures
        r == has_key(map@, k),
{
    let mut i: usize = 0;
    while i < map.len()
        invariant
            0 <= i <= map@.len(),
            forall|j: int| 0 <= j < i ==> map@[j].0 != k,
        decreases map@.len() - i,
    {
        if map[i].0 == k {
            return true;
        }
        i = i + 1;
    }
    false
}

/// Whether the table holds an entry under key `k`.
pub fn contains_key_u16<V>(map: &Vec<(u16, V)>, k: u16) -> (r: bool)
    ensures
        r == has_key(map@, k),
{
    let mut i: usize = 0;
    while i < map.len()
        invariant
            0 <= i <= map@.len(),
            forall|j: int| 0 <= j < i ==> map@[j].0 != k,
        decreases map@.len() - i,
    {
        if map[i].0 == k {
            return true;
        }
        i = i + 1;
    }
    false
}

/// Keys of `map` as mathematical integers.
spec fn int_keys<K, V>(map: Seq<(K, V)>, f: spec_fn(K) -> int) -> Seq<int> {
    keys(map).map_values(f)
}

proof fn lemma_missing_key_i64<V>(map: Seq<(i64, V)>)
    requires
        map.len() + 1 < 0x7fff_ffff,
    ensures
        exists|c: int| #![trigger has_key(map, c as i64)] 0 <= c <= map.len() && !has_key(map, c as i64),
{
    let ks = int_keys(map, |k: i64| k as int);
    crate::table::lemma_missing_small_int(ks);
    let c = choose|c: int| 0 <= c <= ks.len() && !ks.contains(c);
    assert(!has_key(map, c as i64)) by {
        if has_key(map, c as i64) {
            let i = choose|i: int| 0 <= i < map.len() && map[i].0 == c as i64;
            assert(ks[i] == c);
            assert(ks.contains(c));
        }
    }
}

proof fn lemma_missing_key_u16<V>(map: Seq<(u16, V)>)
    requires
        map.len() <= 0xffff,
    ensures
        exists|c: int| #![trigger has_key(map, c as u16)] 0 <= c <= map.len() && !has_key(map, c as u16),
{
    let ks = int_keys(map, |k: u16| k as int);
    crate::table::lemma_missing_small_int(ks);
    let c = choose|c: int| 0 <= c <= ks.len() && !ks.contains(c);
    assert(!has_key(map, c as u16)) by {
        if has_key(map, c as u16) {
            let i = choose|i: int| 0 <= i < map.len() && map[i].0 == c as u16;
            assert(ks[i] == c);
            assert(ks.contains(c));
        }
    }
}

/// How many random draws are tried before the deterministic sweep.
const RANDOM_ATTEMPTS: usize = 16;

/// A player id not yet present in the table.
pub fn generate_id<V>(map: &Vec<(i64, V)>) -> (id: i64)
    requires
        map@.len() + 1 < 0x7fff_ffff,
    ensures
        !has_key(map@, id),
{
    let mut attempts: usize = 0;
    while attempts < RANDOM_ATTEMPTS
        invariant
            attempts <= RANDOM_ATTEMPTS,
        decreases RANDOM_ATTEMPTS - attempts,
    {
        let id = random_i64();
        if !contains_key_i64(map, id) {
            return id;
        }
        attempts = attempts + 1;
    }
    let n: usize = map.len();
    let mut c: usize = 0;
    while c <= n
        invariant
            map@.len() == n,
            n + 1 < 0x7fff_ffff,
            forall|j: int| 0 <= j < c ==> #[trigger] has_key(map@, j as i64),
        decreases n - c + 1,
    {
        if !contains_key_i64(map, c as i64) {
            return c as i64;
        }
        c = c + 1;
    }
    proof {
        lemma_missing_key_i64(map@);
        assert(false);
    }
    0
}

/// A game code not yet present in the table, or `None` when every code is
/// taken.
pub fn generate_code<V>(map: &Vec<(u16, V)>) -> (code: Option<u16>)
    ensures
        match code {
            Some(c) => !has_key(map@, c) && map@.len() <= 0xffff,
            None => map@.len() > 0xffff,
        },
{
    if map.len() > 0xffff {
        return None;
    }
    let mut attempts: usize = 0;
    while attempts < RANDOM_ATTEMPTS
        invariant
            attempts <= RANDOM_ATTEMPTS,
            map@.len() <= 0xffff,
        decreases RANDOM_ATTEMPTS - attempts,
    {
        let code = random_u16();
        if !contains_key_u16(map, code) {
            return Some(code);
        }
        attempts = attempts + 1;
    }
    let n: usize = map.len();
    let mut c: usize = 0;
    while c <= n
        invariant
            map@.len() == n,
            n <= 0xffff,
            forall|j: int| 0 <= j < c ==> #[trigger] has_key(map@, j as u16),
        decreases n - c + 1,
    {
        if !contains_key_u16(map, c as u16) {
            return Some(c as u16);
        }
        c = c + 1;
    }
    proof {
        lemma_missing_key_u16(map@);
        assert(false);
    }
    None
}

} // verus!
