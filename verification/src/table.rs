//! One open-addressed hash table of the file: where linear probing puts each
//! entry of a bucket, and what that placement promises to a lookup.
//!
//! A table has twice as many slots as its bucket has entries. A slot is a
//! pair of a key hash and a record position, and a slot whose position is 0
//! is empty.

use vstd::prelude::*;
use vstd::arithmetic::div_mod::{lemma_fundamental_div_mod_converse, lemma_small_mod};
use vstd::set_lib::lemma_int_range;

verus! {

/// The empty slot.
pub open spec fn empty_slot() -> (u32, u32) {
    (0u32, 0u32)
}

/// The slot at which probing for `hash` starts in a table of `nslots` slots.
pub open spec fn home_slot(hash: u32, nslots: int) -> int {
    (hash >> 8) as int % nslots
}

/// The slot reached `d` steps after `start`, wrapping at the table's end.
pub open spec fn slot_at(start: int, d: int, nslots: int) -> int {
    (start + d) % nslots
}

/// Whether the slot `d` steps after `start` holds an entry.
pub open spec fn taken(t: Seq<(u32, u32)>, start: int, d: int) -> bool {
    t[slot_at(start, d, t.len() as int)].1 != 0
}

/// The number of steps from `start`, at least `d`, to the first empty slot;
/// the table's length or more when no such slot is met before wrapping.
pub open spec fn probe(t: Seq<(u32, u32)>, start: int, d: int) -> int
    decreases t.len() - d,
{
    if d >= t.len() || !taken(t, start, d) {
        d
    } else {
        probe(t, start, d + 1)
    }
}

/// The table with `e` put into the first empty slot from its home slot on.
pub open spec fn place(t: Seq<(u32, u32)>, e: (u32, u32)) -> Seq<(u32, u32)> {
    let start = home_slot(e.0, t.len() as int);
    t.update(slot_at(start, probe(t, start, 0), t.len() as int), e)
}

/// The table of a bucket after its first `k` entries were placed, in order,
/// into `2 * entries.len()` empty slots.
pub open spec fn fill(entries: Seq<(u32, u32)>, k: int) -> Seq<(u32, u32)>
    decreases k,
{
    if k <= 0 {
        Seq::new((2 * entries.len()) as nat, |s: int| empty_slot())
    } else {
        place(fill(entries, k - 1), entries[k - 1])
    }
}

/// The finished table of a bucket.
pub open spec fn bucket_table(entries: Seq<(u32, u32)>) -> Seq<(u32, u32)> {
    fill(entries, entries.len() as int)
}

/// The home slot of entry `i` in its bucket's table.
pub open spec fn home_of(entries: Seq<(u32, u32)>, i: int) -> int {
    home_slot(entries[i].0, (2 * entries.len()) as int)
}

/// How many steps from its home slot entry `i` was placed.
pub open spec fn dist_of(entries: Seq<(u32, u32)>, i: int) -> int {
    probe(fill(entries, i), home_of(entries, i), 0)
}

/// The slot that holds entry `i`.
pub open spec fn slot_of(entries: Seq<(u32, u32)>, i: int) -> int {
    slot_at(home_of(entries, i), dist_of(entries, i), (2 * entries.len()) as int)
}

/// The slots of a table that hold an entry.
pub open spec fn occupied(t: Seq<(u32, u32)>) -> Set<int> {
    Set::new(|s: int| 0 <= s < t.len() && t[s].1 != 0)
}

/// No entry of the bucket has the position 0, which marks an empty slot.
pub open spec fn positions_nonzero(entries: Seq<(u32, u32)>) -> bool {
    forall|i: int| 0 <= i < entries.len() ==> (#[trigger] entries[i]).1 != 0
}

/// What holds of a bucket's table once its first `k` entries are placed:
/// each of them sits in its slot, every taken slot holds one of them, and
/// from an entry's home slot up to its own slot no slot is empty.
pub open spec fn fill_inv(entries: Seq<(u32, u32)>, k: int) -> bool {
    let n = (2 * entries.len()) as int;
    let t = fill(entries, k);
    &&& t.len() == n
    &&& occupied(t).finite()
    &&& occupied(t).len() == k
    &&& forall|i: int|
        0 <= i < k ==> 0 <= #[trigger] dist_of(entries, i) < n && t[slot_of(entries, i)]
            == entries[i]
    &&& forall|s: int|
        0 <= s < n && (#[trigger] t[s]).1 != 0 ==> exists|i: int|
            0 <= i < k && s == #[trigger] slot_of(entries, i)
    &&& forall|i: int, d: int|
        0 <= i < k && 0 <= d <= dist_of(entries, i) ==> #[trigger] taken(
            t,
            home_of(entries, i),
            d,
        )
}

/// A number below twice the modulus wraps at most once.
pub proof fn lemma_wrap(x: int, n: int)
    requires
        0 <= x < 2 * n,
    ensures
        x % n == (if x < n {
            x
        } else {
            x - n
        }),
{
    if x < n {
        lemma_small_mod(x as nat, n as nat);
    } else {
        lemma_fundamental_div_mod_converse(x, n, 1, x - n);
    }
}

/// The home slot of any hash lies inside the table.
pub proof fn lemma_home_slot_in_range(hash: u32, nslots: int)
    requires
        nslots > 0,
    ensures
        0 <= home_slot(hash, nslots) < nslots,
{
    vstd::arithmetic::div_mod::lemma_mod_bound((hash >> 8) as int, nslots);
}

/// The slot `d` steps after `start` lies inside the table.
pub proof fn lemma_slot_at_in_range(start: int, d: int, nslots: int)
    requires
        0 <= start < nslots,
        0 <= d < nslots,
    ensures
        0 <= slot_at(start, d, nslots) < nslots,
        slot_at(start, d, nslots) == (if start + d < nslots {
            start + d
        } else {
            start + d - nslots
        }),
{
    lemma_wrap(start + d, nslots);
}

/// Every slot of the table is some number of steps, below the table's
/// length, after any given start.
pub proof fn lemma_slot_reached(start: int, s: int, nslots: int) -> (d: int)
    requires
        0 <= start < nslots,
        0 <= s < nslots,
    ensures
        0 <= d < nslots,
        slot_at(start, d, nslots) == s,
{
    let d = if s >= start {
        s - start
    } else {
        s - start + nslots
    };
    lemma_wrap(start + d, nslots);
    d
}

/// Probing stops at the first empty slot: every slot before it is taken.
pub proof fn lemma_probe(t: Seq<(u32, u32)>, start: int, d0: int)
    requires
        0 <= d0,
    ensures
        d0 <= probe(t, start, d0),
        d0 <= t.len() ==> probe(t, start, d0) <= t.len(),
        forall|d: int| d0 <= d < probe(t, start, d0) ==> #[trigger] taken(t, start, d),
        probe(t, start, d0) < t.len() ==> !taken(t, start, probe(t, start, d0)),
    decreases t.len() - d0,
{
    if d0 >= t.len() || !taken(t, start, d0) {
    } else {
        lemma_probe(t, start, d0 + 1);
    }
}

/// Probing from a later step finds the same slot while every step in
/// between meets a taken slot.
pub proof fn lemma_probe_skip(t: Seq<(u32, u32)>, start: int, d0: int, d1: int)
    requires
        0 <= d0 <= d1,
        d1 <= t.len(),
        forall|d: int| d0 <= d < d1 ==> #[trigger] taken(t, start, d),
    ensures
        probe(t, start, d0) == probe(t, start, d1),
    decreases d1 - d0,
{
    if d0 < d1 {
        assert(taken(t, start, d0));
        lemma_probe_skip(t, start, d0 + 1, d1);
    }
}

/// In a table that is not full, probing finds an empty slot before it
/// wraps.
pub proof fn lemma_probe_finds_free(t: Seq<(u32, u32)>, start: int)
    requires
        0 <= start < t.len(),
        occupied(t).finite(),
        occupied(t).len() < t.len(),
    ensures
        0 <= probe(t, start, 0) < t.len(),
{
    let n = t.len() as int;
    lemma_probe(t, start, 0);
    if probe(t, start, 0) >= n {
        assert forall|s: int| 0 <= s < n implies occupied(t).contains(s) by {
            let d = lemma_slot_reached(start, s, n);
            assert(taken(t, start, d));
        }
        assert(occupied(t) =~= vstd::set_lib::set_int_range(0, n));
        lemma_int_range(0, n);
    }
}

/// Placing the first `k` entries of a bucket keeps `fill_inv`.
pub proof fn lemma_fill_inv(entries: Seq<(u32, u32)>, k: int)
    requires
        0 <= k <= entries.len(),
        positions_nonzero(entries),
    ensures
        fill_inv(entries, k),
    decreases k,
{
    let n = (2 * entries.len()) as int;
    let t = fill(entries, k);
    if k == 0 {
        assert(occupied(t) =~= Set::<int>::empty());
    } else {
        lemma_fill_inv(entries, k - 1);
        let t0 = fill(entries, k - 1);
        let e = entries[k - 1];
        let start = home_of(entries, k - 1);
        let d = dist_of(entries, k - 1);
        let slot = slot_of(entries, k - 1);
        lemma_home_slot_in_range(e.0, n);
        lemma_probe_finds_free(t0, start);
        lemma_probe(t0, start, 0);
        lemma_slot_at_in_range(start, d, n);
        assert(!taken(t0, start, d));
        assert(t == t0.update(slot, e));
        assert(occupied(t) =~= occupied(t0).insert(slot));
        assert forall|i: int| 0 <= i < k implies 0 <= #[trigger] dist_of(entries, i) < n && t[slot_of(
            entries,
            i,
        )] == entries[i] by {
            if i < k - 1 {
                assert(t0[slot_of(entries, i)] == entries[i]);
                lemma_home_slot_in_range(entries[i].0, n);
                lemma_slot_at_in_range(home_of(entries, i), dist_of(entries, i), n);
            }
        }
        assert forall|s: int| 0 <= s < n && (#[trigger] t[s]).1 != 0 implies exists|i: int|
            0 <= i < k && s == #[trigger] slot_of(entries, i) by {
            if s == slot {
                assert(s == slot_of(entries, k - 1));
            } else {
                assert(t0[s].1 != 0);
                let i = choose|i: int| 0 <= i < k - 1 && s == #[trigger] slot_of(entries, i);
                assert(0 <= i < k && s == slot_of(entries, i));
            }
        }
        assert forall|i: int, dd: int|
            0 <= i < k && 0 <= dd <= dist_of(entries, i) implies #[trigger] taken(
            t,
            home_of(entries, i),
            dd,
        ) by {
            lemma_home_slot_in_range(entries[i].0, n);
            lemma_slot_at_in_range(home_of(entries, i), dd, n);
            if i < k - 1 {
                assert(taken(t0, home_of(entries, i), dd));
            } else if dd < d {
                assert(taken(t0, start, dd));
            }
        }
    }
}

/// While a bucket still has entries to place, its table has an empty slot
/// within reach of every home slot.
pub proof fn lemma_fill_has_room(entries: Seq<(u32, u32)>, k: int, start: int)
    requires
        0 <= k <= entries.len(),
        0 < entries.len(),
        positions_nonzero(entries),
        0 <= start < 2 * entries.len(),
    ensures
        fill(entries, k).len() == 2 * entries.len(),
        0 <= probe(fill(entries, k), start, 0) < 2 * entries.len(),
{
    lemma_fill_inv(entries, k);
    lemma_probe_finds_free(fill(entries, k), start);
}

/// Of two entries with the same home slot, the one placed first sits fewer
/// steps from it.
pub proof fn lemma_placed_in_order(entries: Seq<(u32, u32)>, i: int, j: int)
    requires
        0 <= i < j < entries.len(),
        positions_nonzero(entries),
        home_of(entries, i) == home_of(entries, j),
    ensures
        dist_of(entries, i) < dist_of(entries, j),
{
    lemma_fill_inv(entries, j);
    let t = fill(entries, j);
    lemma_probe(t, home_of(entries, j), 0);
    lemma_home_slot_in_range(entries[j].0, (2 * entries.len()) as int);
    lemma_probe_finds_free(t, home_of(entries, j));
    if dist_of(entries, j) <= dist_of(entries, i) {
        assert(taken(t, home_of(entries, i), dist_of(entries, j)));
    }
}

/// A bucket's table has two slots for each entry of the bucket, however many
/// of them are placed.
pub proof fn lemma_fill_len(entries: Seq<(u32, u32)>, k: int)
    requires
        0 <= k <= entries.len(),
    ensures
        fill(entries, k).len() == 2 * entries.len(),
    decreases k,
{
    if k > 0 {
        lemma_fill_len(entries, k - 1);
        let t = fill(entries, k - 1);
        let start = home_slot(entries[k - 1].0, t.len() as int);
        vstd::arithmetic::div_mod::lemma_mod_bound(start + probe(t, start, 0), t.len() as int);
    }
}

/// Two numbers of steps below the table's length that reach the same slot
/// from the same start are the same number.
pub proof fn lemma_slot_at_injective(start: int, d1: int, d2: int, nslots: int)
    requires
        0 <= start < nslots,
        0 <= d1 < nslots,
        0 <= d2 < nslots,
        slot_at(start, d1, nslots) == slot_at(start, d2, nslots),
    ensures
        d1 == d2,
{
    lemma_slot_at_in_range(start, d1, nslots);
    lemma_slot_at_in_range(start, d2, nslots);
}

} // verus!
