//! The arpeggiator's patterns: in which order the notes of the held keys are
//! played.
use crate::chords::{
    all_notes, by_pitch, chord_notes, covered, lemma_all_notes, lemma_chord_notes,
    lemma_first_occurrences, played_notes, TOP_NOTE,
};
use crate::ieee754::{round_to_i32, rounded};
use crate::params::{Params, ARP_OCTAVES, ARP_PATTERN};
use vstd::arithmetic::div_mod::{
    lemma_add_mod_noop, lemma_fundamental_div_mod, lemma_fundamental_div_mod_converse,
    lemma_mod_equivalence, lemma_small_mod,
};
use vstd::arithmetic::mul::lemma_mul_is_commutative;
use vstd::prelude::*;
use vstd::relations::total_ordering;
use vstd::seq_lib::group_to_multiset_ensures;
use vstd::set_lib::{lemma_int_range, lemma_len_subset, set_int_range};

verus! {

/// The arpeggio that runs downwards.
pub const PATTERN_DOWN: i32 = 1;

/// The arpeggio that runs up and then down again.
pub const PATTERN_UP_DOWN: i32 = 2;

/// The arpeggio that jumps at random.
pub const PATTERN_RANDOM: i32 = 3;

/// The arpeggio that keeps the order in which the keys were pressed.
pub const PATTERN_AS_PLAYED: i32 = 4;

/// The notes that the arpeggiator draws from, in the order that the pattern
/// runs through.
pub open spec fn arp_pool(values: Seq<u32>, keys: Seq<u8>) -> Seq<u8> {
    if rounded(values[ARP_PATTERN as int]) == PATTERN_AS_PLAYED {
        played_notes(values, keys)
    } else {
        played_notes(values, keys).sort_by(by_pitch())
    }
}

/// Over how many octaves the arpeggio runs.
pub open spec fn arp_octaves(values: Seq<u32>) -> int {
    let n = rounded(values[ARP_OCTAVES as int]);
    if n < 1 {
        1
    } else if n > 4 {
        4
    } else {
        n
    }
}

/// How many steps the arpeggio takes until it repeats, when it runs up and
/// down over `total` places: neither end is played twice.
pub open spec fn up_down_period(total: int) -> int {
    if total * 2 - 2 > 1 {
        total * 2 - 2
    } else {
        1
    }
}

/// The place among `total` that an arpeggio plays at a step; `register` is
/// the random register after the step.
pub open spec fn arp_place(pattern: int, step: int, register: u32, total: int) -> int {
    if pattern == PATTERN_DOWN {
        total - 1 - step % total
    } else if pattern == PATTERN_UP_DOWN {
        let p = step % up_down_period(total);
        if p < total {
            p
        } else {
            up_down_period(total) - p
        }
    } else if pattern == PATTERN_RANDOM {
        register as int % total
    } else {
        step % total
    }
}

/// Whether a pattern takes the places one after another, in one direction.
pub open spec fn in_turn(pattern: int) -> bool {
    pattern != PATTERN_UP_DOWN && pattern != PATTERN_RANDOM
}

/// The note at a place: the pool repeated octave by octave, no higher than
/// the highest note.
pub open spec fn place_note(pool: Seq<u8>, place: int) -> int {
    let n = pool[place % (pool.len() as int)] + 12 * (place / (pool.len() as int));
    if n > TOP_NOTE {
        TOP_NOTE as int
    } else {
        n
    }
}

pub(crate) fn arp_range(params: &Params) -> (r: i32)
    ensures
        r == arp_octaves(params@),
        1 <= r <= 4,
{
    let n: i32 = round_to_i32(params.values[ARP_OCTAVES]);
    if n < 1 {
        1
    } else if n > 4 {
        4
    } else {
        n
    }
}

pub(crate) fn pattern_place(pattern: i32, step: i64, register: u32, total: i64) -> (r: i64)
    requires
        1 <= total <= 1024,
    ensures
        r == arp_place(pattern as int, step as int, register, total as int),
        0 <= r < total,
{
    proof {
        lemma_place_in_range(pattern as int, step as int, register, total as int);
    }
    if pattern == PATTERN_DOWN {
        total - 1 - remainder(step, total)
    } else if pattern == PATTERN_UP_DOWN {
        let period: i64 = if total * 2 - 2 > 1 {
            total * 2 - 2
        } else {
            1
        };
        let p: i64 = remainder(step, period);
        if p < total {
            p
        } else {
            period - p
        }
    } else if pattern == PATTERN_RANDOM {
        remainder(register as i64, total)
    } else {
        remainder(step, total)
    }
}

fn remainder(n: i64, d: i64) -> (r: i64)
    requires
        1 <= d <= 4096,
    ensures
        r == n as int % d as int,
        0 <= r < d,
{
    match n.checked_rem_euclid(d) {
        Some(r) => r,
        None => 0,
    }
}

pub(crate) fn note_at(pool: &Vec<u8>, place: i64, octaves: i32) -> (r: u8)
    requires
        1 <= pool.len() <= 256,
        1 <= octaves <= 4,
        0 <= place < pool.len() * octaves,
        forall|i: int| 0 <= i < pool.len() ==> pool@[i] <= TOP_NOTE,
    ensures
        r == place_note(pool@, place as int),
        r <= TOP_NOTE,
{
    let len: i64 = pool.len() as i64;
    assert(0 <= place / len < octaves && 0 <= place % len < len) by (nonlinear_arith)
        requires
            1 <= len,
            0 <= place < len * octaves,
    ;
    let octave: i64 = place / len;
    let base: u8 = pool[(place % len) as usize];
    let n: i64 = base as i64 + 12 * octave;
    if n > 127 {
        TOP_NOTE
    } else {
        n as u8
    }
}

/// An arpeggio's place is always one of those that there are.
pub proof fn lemma_place_in_range(pattern: int, step: int, register: u32, total: int)
    requires
        1 <= total,
    ensures
        0 <= arp_place(pattern, step, register, total) < total,
{
}

/// The arpeggiator draws from the notes that the held keys stand for, and
/// from no others. They all exist, and none comes twice.
pub proof fn lemma_pool(values: Seq<u32>, keys: Seq<u8>)
    ensures
        arp_pool(values, keys).no_duplicates(),
        arp_pool(values, keys).len() <= 128,
        forall|i: int|
            0 <= i < arp_pool(values, keys).len() ==> arp_pool(values, keys)[i] <= TOP_NOTE,
        forall|note: u8| #[trigger]
            arp_pool(values, keys).contains(note) <==> covered(values, keys, note),
{
    let all = all_notes(values, keys);
    let played = played_notes(values, keys);
    let sorted = played.sort_by(by_pitch());
    let pool = arp_pool(values, keys);
    lemma_first_occurrences(all);
    assert(total_ordering(by_pitch()));
    played.lemma_sort_by_ensures(by_pitch());
    assert(sorted.no_duplicates()) by {
        played.lemma_multiset_has_no_duplicates();
        sorted.lemma_multiset_has_no_duplicates_conv();
    }
    assert forall|note: u8| #[trigger] pool.contains(note) <==> covered(values, keys, note) by {
        broadcast use group_to_multiset_ensures;

        lemma_all_notes(values, keys, note);
        assert(played.contains(note) <==> all.contains(note));
        assert(sorted.contains(note) <==> sorted.to_multiset().count(note) > 0);
        assert(played.contains(note) <==> played.to_multiset().count(note) > 0);
    }
    assert forall|i: int| 0 <= i < pool.len() implies pool[i] <= TOP_NOTE by {
        assert(pool.contains(pool[i]));
        let k = choose|k: int|
            0 <= k < keys.len() && #[trigger] chord_notes(values, keys[k]).contains(pool[i]);
        lemma_chord_notes(values, keys[k]);
    }
    let numbers = pool.map_values(|n: u8| n as int);
    assert(numbers.no_duplicates());
    numbers.unique_seq_to_set();
    lemma_int_range(0, 128);
    assert forall|n: int| numbers.to_set().contains(n) implies set_int_range(0, 128).contains(
        n,
    ) by {
        let i = choose|i: int| 0 <= i < numbers.len() && numbers[i] == n;
    }
    lemma_len_subset(numbers.to_set(), set_int_range(0, 128));
}

/// The downward arpeggio is the upward one mirrored.
pub proof fn lemma_down_mirrors_up(step: int, register: u32, total: int)
    requires
        1 <= total,
    ensures
        arp_place(PATTERN_DOWN as int, step, register, total) == total - 1 - arp_place(
            0,
            step,
            register,
            total,
        ),
{
}

/// An upward arpeggio starts at the bottom, goes one place up at a time, and
/// starts again after the top.
pub proof fn lemma_up_climbs(step: int, register: u32, total: int)
    requires
        1 <= total,
    ensures
        arp_place(0, 0, register, total) == 0,
        arp_place(0, step + 1, register, total) == (if arp_place(0, step, register, total)
            == total - 1 {
            0
        } else {
            arp_place(0, step, register, total) + 1
        }),
{
    lemma_next_remainder(step, total);
}

/// An up-and-down arpeggio always moves to a neighbouring place, so that
/// neither end is played twice in a row.
pub proof fn lemma_up_down_moves(step: int, register: u32, total: int)
    requires
        2 <= total,
    ensures
        ({
            let here = arp_place(PATTERN_UP_DOWN as int, step, register, total);
            let next = arp_place(PATTERN_UP_DOWN as int, step + 1, register, total);
            next == here + 1 || next == here - 1
        }),
{
    lemma_next_remainder(step, up_down_period(total));
}

/// In every round an up-and-down arpeggio comes to each of its ends once.
pub proof fn lemma_up_down_ends(step: int, register: u32, total: int)
    requires
        2 <= total,
    ensures
        arp_place(PATTERN_UP_DOWN as int, step, register, total) == 0 <==> step
            % up_down_period(total) == 0,
        arp_place(PATTERN_UP_DOWN as int, step, register, total) == total - 1 <==> step
            % up_down_period(total) == total - 1,
{
}

/// A pattern that takes the places in turn goes on from where it is: upwards,
/// or downwards, and round again.
pub proof fn lemma_in_turn(pattern: int, step: int, k: int, register: u32, total: int)
    requires
        in_turn(pattern),
        1 <= total,
        0 <= k < total,
    ensures
        pattern != PATTERN_DOWN ==> arp_place(pattern, step + k, register, total) == (step % total
            + k) % total,
        pattern == PATTERN_DOWN ==> arp_place(pattern, step + k, register, total) == total - 1 - (
        step % total + k) % total,
{
    lemma_small_mod(k as nat, total as nat);
    lemma_add_mod_noop(step, k, total);
}

/// In a round, as many steps as there are places, a pattern that takes the
/// places in turn comes to every place, and to none twice.
pub proof fn lemma_round_takes_every_place_once(
    pattern: int,
    step: int,
    register: u32,
    total: int,
    place: int,
) -> (k: int)
    requires
        in_turn(pattern),
        0 <= place < total,
    ensures
        0 <= k < total,
        arp_place(pattern, step + k, register, total) == place,
        forall|j: int|
            0 <= j < total && #[trigger] arp_place(pattern, step + j, register, total) == place
                ==> j == k,
{
    let p = if pattern == PATTERN_DOWN {
        total - 1 - place
    } else {
        place
    };
    let k = (p - step) % total;
    lemma_small_mod(p as nat, total as nat);
    lemma_small_mod(k as nat, total as nat);
    lemma_add_mod_noop(step, p - step, total);
    lemma_add_mod_noop(step, k, total);
    assert((step + k) % total == p);
    assert forall|j: int|
        0 <= j < total && #[trigger] arp_place(
            pattern,
            step + j,
            register,
            total,
        ) == place implies j == k by {
        assert((step + j) % total == (step + k) % total);
        lemma_mod_equivalence(step + j, step + k, total);
        lemma_mod_equivalence(step + k, step + j, total);
        if j > k {
            lemma_small_mod((j - k) as nat, total as nat);
        }
        if k > j {
            lemma_small_mod((k - j) as nat, total as nat);
        }
    }
    k
}

proof fn lemma_next_remainder(n: int, d: int)
    requires
        1 <= d,
    ensures
        (n + 1) % d == (if n % d == d - 1 {
            0
        } else {
            n % d + 1
        }),
{
    lemma_fundamental_div_mod(n, d);
    if n % d == d - 1 {
        assert(n + 1 == d * (n / d + 1)) by (nonlinear_arith)
            requires
                n == d * (n / d) + (d - 1),
        ;
        assert(d * (n / d + 1) == (n / d + 1) * d) by (nonlinear_arith);
        lemma_fundamental_div_mod_converse(n + 1, d, n / d + 1, 0);
    } else {
        assert(d * (n / d) == (n / d) * d) by (nonlinear_arith);
        lemma_fundamental_div_mod_converse(n + 1, d, n / d, n % d + 1);
    }
}

/// Whatever the chord, the notes of the pool ascend in pitch, unless the pattern
/// keeps the order in which the keys were pressed.
pub proof fn lemma_pool_ascends(values: Seq<u32>, keys: Seq<u8>)
    ensures
        rounded(values[ARP_PATTERN as int]) != 4 ==> forall|i: int, j: int|
            0 <= i < j < arp_pool(values, keys).len() ==> #[trigger] arp_pool(values, keys)[i]
                < #[trigger] arp_pool(values, keys)[j],
        rounded(values[ARP_PATTERN as int]) == 4 ==> arp_pool(values, keys) == played_notes(
            values,
            keys,
        ),
{
    let played = played_notes(values, keys);
    let pool = arp_pool(values, keys);
    assert(total_ordering(by_pitch()));
    played.lemma_sort_by_ensures(by_pitch());
    lemma_pool(values, keys);
    if rounded(values[ARP_PATTERN as int]) != 4 {
        assert forall|i: int, j: int| 0 <= i < j < pool.len() implies #[trigger] pool[i]
            < #[trigger] pool[j] by {
            assert(by_pitch()(pool[i], pool[j]));
            assert(pool[i] != pool[j]);
        }
    }
}

/// The arpeggio runs over as many octaves as the parameter's value says, at
/// least one and at most four.
pub proof fn lemma_octaves(values: Seq<u32>)
    ensures
        ({
            let n = rounded(values[ARP_OCTAVES as int]);
            &&& n <= 1 ==> arp_octaves(values) == 1
            &&& 1 <= n <= 4 ==> arp_octaves(values) == n
            &&& 4 <= n ==> arp_octaves(values) == 4
        }),
{
}

/// Which place a pattern takes at a step: the downward one counts from the top;
/// the one that goes up and down comes to a place on the way up and on the way
/// down; the random one goes by the register; and all others count from the
/// bottom.
pub proof fn lemma_places_of_patterns(pattern: int, step: int, register: u32, total: int)
    requires
        1 <= total,
    ensures
        ({
            let place = arp_place(pattern, step, register, total);
            &&& 0 <= place < total
            &&& pattern == 1 ==> (step + place + 1) % total == 0
            &&& pattern == 2 && total >= 2 ==> (step - place) % (2 * total - 2) == 0 || (step
                + place) % (2 * total - 2) == 0
            &&& pattern == 3 ==> (register - place) % total == 0
            &&& pattern != 1 && pattern != 2 && pattern != 3 ==> (step - place) % total == 0
        }),
{
    let place = arp_place(pattern, step, register, total);
    lemma_fundamental_div_mod(step, total);
    lemma_fundamental_div_mod(register as int, total);
    let q = step / total;
    if pattern == 1 {
        assert(step + place + 1 == total * (q + 1)) by (nonlinear_arith)
            requires
                step == total * q + step % total,
                place == total - 1 - step % total,
        ;
        lemma_mul_is_commutative(total, q + 1);
        lemma_fundamental_div_mod_converse(step + place + 1, total, q + 1, 0);
    } else if pattern == 2 {
        let period = up_down_period(total);
        lemma_fundamental_div_mod(step, period);
        let r = step / period;
        if total >= 2 {
            if step % period < total {
                lemma_mul_is_commutative(period, r);
                lemma_fundamental_div_mod_converse(step - place, period, r, 0);
            } else {
                assert(step + place == period * (r + 1)) by (nonlinear_arith)
                    requires
                        step == period * r + step % period,
                        place == period - step % period,
                ;
                lemma_mul_is_commutative(period, r + 1);
                lemma_fundamental_div_mod_converse(step + place, period, r + 1, 0);
            }
        }
    } else if pattern == 3 {
        let r = register as int / total;
        lemma_mul_is_commutative(total, r);
        lemma_fundamental_div_mod_converse(register - place, total, r, 0);
    } else {
        lemma_mul_is_commutative(total, q);
        lemma_fundamental_div_mod_converse(step - place, total, q, 0);
    }
}

/// The places run through the pool octave by octave: twelve semitones up each
/// time, though never above the highest note.
pub proof fn lemma_note_at_a_place(pool: Seq<u8>, i: int, octave: int)
    requires
        0 <= i < pool.len(),
        0 <= octave,
    ensures
        ({
            let note = place_note(pool, octave * pool.len() + i);
            &&& pool[i] + 12 * octave <= 127 ==> note == pool[i] + 12 * octave
            &&& pool[i] + 12 * octave > 127 ==> note == 127
        }),
{
    lemma_fundamental_div_mod_converse(octave * pool.len() + i, pool.len() as int, octave, i);
}

} // verus!
