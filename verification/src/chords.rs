//! Chords: the notes that a key stands for.
use crate::ieee754::{round_to_i32, rounded};
use crate::params::{Params, CHORD_TYPE};
use vstd::multiset::group_multiset_axioms;
use vstd::prelude::*;
use vstd::relations::{sorted_by, total_ordering};
use vstd::seq_lib::{group_to_multiset_ensures, lemma_sorted_unique};

verus! {

/// How many kinds of chord there are.
pub const CHORD_COUNT: usize = 14;

/// The chords: a name, how many notes, and the distance of each note from
/// the root in semitones. The first is a single note.
pub const CHORDS: [(&'static str, usize, [i8; 5]); CHORD_COUNT] = [
    ("Off", 1, [0, 0, 0, 0, 0]),
    ("Oct", 2, [0, 12, 0, 0, 0]),
    ("5th", 2, [0, 7, 0, 0, 0]),
    ("Maj", 3, [0, 4, 7, 0, 0]),
    ("Min", 3, [0, 3, 7, 0, 0]),
    ("Sus2", 3, [0, 2, 7, 0, 0]),
    ("Sus4", 3, [0, 5, 7, 0, 0]),
    ("Maj7", 4, [0, 4, 7, 11, 0]),
    ("Min7", 4, [0, 3, 7, 10, 0]),
    ("Dom7", 4, [0, 4, 7, 10, 0]),
    ("Dim", 3, [0, 3, 6, 0, 0]),
    ("Aug", 3, [0, 4, 8, 0, 0]),
    ("Add9", 4, [0, 4, 7, 14, 0]),
    ("Min9", 5, [0, 3, 7, 10, 14]),
];

/// The highest note number.
pub const TOP_NOTE: u8 = 127;

/// The place in [`CHORDS`] of the chord that the parameters select.
pub open spec fn chord_index(values: Seq<u32>) -> int {
    let n = rounded(values[CHORD_TYPE as int]);
    if n < 0 {
        0
    } else if n < CHORD_COUNT {
        n
    } else {
        CHORD_COUNT - 1
    }
}

/// The distances of the selected chord's notes from the root.
pub open spec fn intervals(values: Seq<u32>) -> Seq<i8> {
    let chord = CHORDS@[chord_index(values)];
    chord.2@.take(chord.1 as int)
}

/// One note of a chord, if there is such a note.
pub open spec fn chord_note(root: u8) -> spec_fn(i8) -> Option<u8> {
    |step: i8|
        if 0 <= root + step <= TOP_NOTE {
            Some((root + step) as u8)
        } else {
            None
        }
}

/// The notes that a key stands for.
pub open spec fn chord_notes(values: Seq<u32>, root: u8) -> Seq<u8> {
    intervals(values).filter_map(chord_note(root))
}

/// Every item of `s` once, at its first place.
pub open spec fn first_occurrences(s: Seq<u8>) -> Seq<u8>
    decreases s.len(),
{
    if s.len() == 0 {
        s
    } else {
        let rest = first_occurrences(s.drop_last());
        if rest.contains(s.last()) {
            rest
        } else {
            rest.push(s.last())
        }
    }
}

/// The chord notes of several keys, one key after another.
pub open spec fn all_notes(values: Seq<u32>, keys: Seq<u8>) -> Seq<u8>
    decreases keys.len(),
{
    if keys.len() == 0 {
        Seq::empty()
    } else {
        all_notes(values, keys.drop_last()) + chord_notes(values, keys.last())
    }
}

/// The notes that the arpeggiator draws from, in the order played.
pub open spec fn played_notes(values: Seq<u32>, keys: Seq<u8>) -> Seq<u8> {
    first_occurrences(all_notes(values, keys))
}

/// The order of notes by pitch.
pub open spec fn by_pitch() -> spec_fn(u8, u8) -> bool {
    |a: u8, b: u8| a <= b
}

/// The selected chord's place.
pub fn selected_chord(params: &Params) -> (r: usize)
    ensures
        r == chord_index(params@),
        r < CHORD_COUNT,
{
    let n: i32 = round_to_i32(params.values[CHORD_TYPE]);
    if n < 0 {
        0
    } else if n < 14 {
        n as usize
    } else {
        CHORD_COUNT - 1
    }
}

proof fn lemma_chord_shape(i: int)
    requires
        0 <= i < CHORD_COUNT,
    ensures
        1 <= CHORDS@[i].1 <= 5,
        forall|k: int| 0 <= k < 5 ==> 0 <= #[trigger] CHORDS@[i].2@[k] <= 14,
        CHORDS@[i].2@[0] == 0,
        forall|j: int, k: int|
            0 <= j < k < CHORDS@[i].1 ==> #[trigger] CHORDS@[i].2@[j] < #[trigger] CHORDS@[i].2@[k],
{
}

/// The notes that a key stands for.
pub fn expand_chord(params: &Params, root: u8) -> (r: Vec<u8>)
    ensures
        r@ == chord_notes(params@, root),
{
    let chord = CHORDS[selected_chord(params)];
    let ghost steps = intervals(params@);
    let mut notes: Vec<u8> = Vec::new();
    let mut i: usize = 0;
    proof {
        lemma_chord_shape(chord_index(params@));
        assert(steps.take(0) =~= Seq::<i8>::empty());
    }
    while i < chord.1
        invariant
            i <= chord.1 <= 5,
            steps == chord.2@.take(chord.1 as int),
            notes@ == steps.take(i as int).filter_map(chord_note(root)),
        decreases chord.1 - i,
    {
        let step: i8 = chord.2[i];
        let n: i16 = root as i16 + step as i16;
        proof {
            assert(steps.take(i + 1).drop_last() =~= steps.take(i as int));
            assert(steps.take(i + 1).last() == step);
            reveal_with_fuel(Seq::filter_map, 2);
        }
        if 0 <= n && n <= 127 {
            notes.push(n as u8);
        }
        i = i + 1;
    }
    assert(steps.take(i as int) =~= steps);
    notes
}

pub(crate) fn holds(notes: &Vec<u8>, note: u8) -> (r: bool)
    ensures
        r == notes@.contains(note),
{
    let mut i: usize = 0;
    while i < notes.len()
        invariant
            i <= notes.len(),
            forall|k: int| 0 <= k < i ==> notes@[k] != note,
        decreases notes.len() - i,
    {
        if notes[i] == note {
            return true;
        }
        i = i + 1;
    }
    false
}

pub(crate) proof fn lemma_first_occurrences(s: Seq<u8>)
    ensures
        first_occurrences(s).no_duplicates(),
        forall|x: u8| first_occurrences(s).contains(x) <==> s.contains(x),
    decreases s.len(),
{
    if s.len() > 0 {
        let init = s.drop_last();
        let rest = first_occurrences(init);
        lemma_first_occurrences(init);
        let all = first_occurrences(s);
        assert forall|x: u8| all.contains(x) <==> s.contains(x) by {
            if s.contains(x) {
                let k = choose|k: int| 0 <= k < s.len() && s[k] == x;
                if k < init.len() {
                    assert(init[k] == x);
                    assert(init.contains(x));
                    assert(rest.contains(x));
                    let m = choose|m: int| 0 <= m < rest.len() && rest[m] == x;
                    assert(all[m] == x);
                } else if !rest.contains(x) {
                    assert(all[all.len() - 1] == x);
                }
            }
            if all.contains(x) {
                let m = choose|m: int| 0 <= m < all.len() && all[m] == x;
                if m < rest.len() {
                    assert(rest[m] == x);
                    assert(init.contains(x));
                    let k = choose|k: int| 0 <= k < init.len() && init[k] == x;
                    assert(s[k] == x);
                } else {
                    assert(s[s.len() - 1] == x);
                }
            }
        }
    }
}

proof fn lemma_first_occurrences_add(s: Seq<u8>, t: Seq<u8>, i: int)
    requires
        0 <= i < t.len(),
    ensures
        ({
            let before = first_occurrences(s + t.take(i));
            first_occurrences(s + t.take(i + 1)) == if before.contains(t[i]) {
                before
            } else {
                before.push(t[i])
            }
        }),
{
    let after = s + t.take(i + 1);
    assert(after.drop_last() =~= s + t.take(i));
    assert(after.last() == t[i]);
}

/// The notes that the arpeggiator draws from, in the order played.
pub fn build_pool(params: &Params, keys: &Vec<u8>) -> (r: Vec<u8>)
    ensures
        r@ == played_notes(params@, keys@),
{
    let mut pool: Vec<u8> = Vec::new();
    let mut i: usize = 0;
    assert(all_notes(params@, keys@.take(0)) =~= Seq::<u8>::empty());
    while i < keys.len()
        invariant
            i <= keys.len(),
            pool@ == first_occurrences(all_notes(params@, keys@.take(i as int))),
        decreases keys.len() - i,
    {
        let notes = expand_chord(params, keys[i]);
        let ghost earlier = all_notes(params@, keys@.take(i as int));
        let mut j: usize = 0;
        assert(earlier + notes@.take(0) =~= earlier);
        while j < notes.len()
            invariant
                j <= notes.len(),
                pool@ == first_occurrences(earlier + notes@.take(j as int)),
            decreases notes.len() - j,
        {
            proof {
                lemma_first_occurrences_add(earlier, notes@, j as int);
            }
            if !holds(&pool, notes[j]) {
                pool.push(notes[j]);
            }
            j = j + 1;
        }
        proof {
            assert(notes@.take(j as int) =~= notes@);
            assert(keys@.take(i + 1).drop_last() =~= keys@.take(i as int));
        }
        i = i + 1;
    }
    assert(keys@.take(i as int) =~= keys@);
    pool
}

/// The notes from low to high.
pub fn sort_notes(notes: &Vec<u8>) -> (r: Vec<u8>)
    ensures
        r@ == notes@.sort_by(by_pitch()),
{
    let mut sorted: Vec<u8> = Vec::new();
    let mut i: usize = 0;
    assert(notes@.take(0) =~= Seq::<u8>::empty());
    while i < notes.len()
        invariant
            i <= notes.len(),
            sorted_by(sorted@, by_pitch()),
            sorted@.to_multiset() == notes@.take(i as int).to_multiset(),
        decreases notes.len() - i,
    {
        let note = notes[i];
        let mut k: usize = 0;
        while k < sorted.len() && sorted[k] <= note
            invariant
                k <= sorted.len(),
                forall|m: int| 0 <= m < k ==> sorted@[m] <= note,
            decreases sorted.len() - k,
        {
            k = k + 1;
        }
        proof {
            assert(notes@.take(i + 1) =~= notes@.take(i as int).push(note));
            assert forall|a: int, b: int| 0 <= a < b < sorted@.len() implies sorted@[a]
                <= sorted@[b] by {
                assert(by_pitch()(sorted@[a], sorted@[b]));
            }
        }
        let ghost before = sorted@;
        sorted.insert(k, note);
        proof {
            broadcast use {group_multiset_axioms, group_to_multiset_ensures};

            assert(sorted@ == before.insert(k as int, note));
            assert(sorted@.to_multiset() =~= before.to_multiset().insert(note));
            assert(notes@.take(i as int).push(note).to_multiset() =~= notes@.take(
                i as int,
            ).to_multiset().insert(note));
        }
        i = i + 1;
    }
    proof {
        assert(notes@.take(i as int) =~= notes@);
        assert(total_ordering(by_pitch()));
        notes@.lemma_sort_by_ensures(by_pitch());
        lemma_sorted_unique(sorted@, notes@.sort_by(by_pitch()), by_pitch());
    }
    sorted
}

/// A chord's notes exist, and a key on an existing note is among them.
pub proof fn lemma_chord_notes(values: Seq<u32>, root: u8)
    ensures
        forall|i: int|
            0 <= i < chord_notes(values, root).len() ==> chord_notes(values, root)[i] <= TOP_NOTE,
        root <= TOP_NOTE ==> chord_notes(values, root).contains(root),
{
    let steps = intervals(values);
    let f = chord_note(root);
    let notes = chord_notes(values, root);
    lemma_chord_shape(chord_index(values));
    assert forall|i: int| 0 <= i < notes.len() implies notes[i] <= TOP_NOTE by {
        assert(notes.contains(notes[i]));
        steps.lemma_filter_map_contains(f, notes[i]);
        let step = choose|step: i8| #[trigger]
            steps.contains(step) && f(step) == Some(notes[i]);
    }
    if root <= TOP_NOTE {
        assert(steps[0] == 0);
        assert(f(steps[0]) == Some(root));
        lemma_filter_map_holds(steps, f, 0);
    }
}

proof fn lemma_filter_map_holds(s: Seq<i8>, f: spec_fn(i8) -> Option<u8>, i: int)
    requires
        0 <= i < s.len(),
        f(s[i]) is Some,
    ensures
        s.filter_map(f).contains(f(s[i])->0),
    decreases s.len(),
{
    let rest = s.drop_last();
    let x = f(s[i])->0;
    reveal_with_fuel(Seq::filter_map, 2);
    if i < rest.len() {
        lemma_filter_map_holds(rest, f, i);
        let k = choose|k: int| 0 <= k < rest.filter_map(f).len() && rest.filter_map(f)[k] == x;
        assert(s.filter_map(f)[k] == x);
    } else {
        assert(s.filter_map(f)[rest.filter_map(f).len() as int] == x);
    }
}

/// Whether one of the keys stands for this note.
pub open spec fn covered(values: Seq<u32>, keys: Seq<u8>, note: u8) -> bool {
    exists|k: int|
        0 <= k < keys.len() && #[trigger] chord_notes(values, keys[k]).contains(note)
}

pub(crate) proof fn lemma_all_notes(values: Seq<u32>, keys: Seq<u8>, note: u8)
    ensures
        all_notes(values, keys).contains(note) <==> covered(values, keys, note),
    decreases keys.len(),
{
    if keys.len() > 0 {
        let init = keys.drop_last();
        let first = all_notes(values, init);
        let last = chord_notes(values, keys.last());
        let all = all_notes(values, keys);
        lemma_all_notes(values, init, note);
        if all.contains(note) {
            let k = choose|k: int| 0 <= k < all.len() && all[k] == note;
            if k < first.len() {
                assert(first[k] == note);
                let m = choose|m: int|
                    0 <= m < init.len() && #[trigger] chord_notes(values, init[m]).contains(note);
                assert(keys[m] == init[m]);
                assert(chord_notes(values, keys[m]).contains(note));
            } else {
                assert(last[k - first.len()] == note);
                assert(chord_notes(values, keys[keys.len() - 1]).contains(note));
            }
        }
        if covered(values, keys, note) {
            let m = choose|m: int|
                0 <= m < keys.len() && #[trigger] chord_notes(values, keys[m]).contains(note);
            if m < init.len() {
                assert(init[m] == keys[m]);
                assert(chord_notes(values, init[m]).contains(note));
                let k = choose|k: int| 0 <= k < first.len() && first[k] == note;
                assert(all[k] == note);
            } else {
                let k = choose|k: int| 0 <= k < last.len() && last[k] == note;
                assert(all[first.len() + k] == note);
            }
        }
    }
}

/// The chord is the one whose place lies closest to the parameter's value, and
/// the first or the last one for values beyond them.
pub proof fn lemma_chord_selection(values: Seq<u32>)
    ensures
        ({
            let n = rounded(values[CHORD_TYPE as int]);
            &&& n <= 0 ==> chord_index(values) == 0
            &&& 0 <= n <= 13 ==> chord_index(values) == n
            &&& 13 <= n ==> chord_index(values) == 13
        }),
{
}

/// A key stands for the notes that lie the chord's distances above it, from the
/// key upwards, as far as there are such notes.
pub proof fn lemma_chord_notes_rise_from_the_key(values: Seq<u32>, root: u8)
    ensures
        ({
            let chord = CHORDS@[chord_index(values)];
            let notes = chord_notes(values, root);
            &&& notes.len() <= chord.1
            &&& forall|i: int|
                0 <= i < notes.len() ==> #[trigger] notes[i] == root + chord.2@[i] && notes[i]
                    <= 127
            &&& notes.len() < chord.1 ==> root + chord.2@[notes.len() as int] > 127
            &&& forall|i: int, j: int|
                0 <= i < j < notes.len() ==> #[trigger] notes[i] < #[trigger] notes[j]
        }),
{
    let chord = CHORDS@[chord_index(values)];
    let steps = intervals(values);
    lemma_chord_shape(chord_index(values));
    lemma_chord_prefix(values, root, chord.1 as int);
    assert(steps.take(chord.1 as int) =~= steps);
    let notes = chord_notes(values, root);
    assert forall|i: int, j: int| 0 <= i < j < notes.len() implies #[trigger] notes[i]
        < #[trigger] notes[j] by {
        assert(notes[i] == root + chord.2@[i]);
        assert(notes[j] == root + chord.2@[j]);
    }
}

proof fn lemma_chord_prefix(values: Seq<u32>, root: u8, m: int)
    requires
        0 <= m <= CHORDS@[chord_index(values)].1,
    ensures
        ({
            let chord = CHORDS@[chord_index(values)];
            let notes = intervals(values).take(m).filter_map(chord_note(root));
            &&& notes.len() <= m
            &&& forall|i: int|
                0 <= i < notes.len() ==> #[trigger] notes[i] == root + chord.2@[i] && notes[i]
                    <= 127
            &&& notes.len() < m ==> root + chord.2@[notes.len() as int] > 127
        }),
    decreases m,
{
    let chord = CHORDS@[chord_index(values)];
    let steps = intervals(values);
    lemma_chord_shape(chord_index(values));
    if m > 0 {
        lemma_chord_prefix(values, root, m - 1);
        let rest = steps.take(m - 1).filter_map(chord_note(root));
        assert(steps.take(m).drop_last() =~= steps.take(m - 1));
        assert(steps.take(m).last() == chord.2@[m - 1]);
        if rest.len() < m - 1 {
            assert(chord.2@[rest.len() as int] < chord.2@[m - 1]);
        }
    } else {
        assert(steps.take(0).filter_map(chord_note(root)) =~= Seq::<u8>::empty());
    }
}

/// One more key adds its notes after those that were there, in their order, but
/// for the ones that were there already; without a key there is none.
pub proof fn lemma_played_notes_grow(values: Seq<u32>, keys: Seq<u8>, key: u8)
    ensures
        played_notes(values, Seq::<u8>::empty()) == Seq::<u8>::empty(),
        ({
            let before = played_notes(values, keys);
            played_notes(values, keys.push(key)) == before + chord_notes(values, key).filter(
                |n: u8| !before.contains(n),
            )
        }),
{
    let before = played_notes(values, keys);
    let notes = chord_notes(values, key);
    let fresh = |n: u8| !before.contains(n);
    assert(keys.push(key).drop_last() =~= keys);
    lemma_chord_notes_rise_from_the_key(values, key);
    assert(notes.no_duplicates()) by {
        assert forall|i: int, j: int| 0 <= i < notes.len() && 0 <= j < notes.len() && i
            != j implies notes[i] != notes[j] by {
            if i < j {
                assert(notes[i] < notes[j]);
            } else {
                assert(notes[j] < notes[i]);
            }
        }
    }
    lemma_first_occurrences_join(all_notes(values, keys), notes, fresh);
}

proof fn lemma_first_occurrences_join(s: Seq<u8>, t: Seq<u8>, fresh: spec_fn(u8) -> bool)
    requires
        t.no_duplicates(),
        forall|n: u8| #[trigger] fresh(n) == !first_occurrences(s).contains(n),
    ensures
        first_occurrences(s + t) == first_occurrences(s) + t.filter(fresh),
    decreases t.len(),
{
    reveal(Seq::filter);
    let first = first_occurrences(s);
    if t.len() == 0 {
        assert(s + t =~= s);
        assert(first + t.filter(fresh) =~= first);
    } else {
        let init = t.drop_last();
        let last = t.last();
        lemma_first_occurrences_join(s, init, fresh);
        assert((s + t).drop_last() =~= s + init);
        let rest = first + init.filter(fresh);
        assert(!init.contains(last)) by {
            if init.contains(last) {
                let k = choose|k: int| 0 <= k < init.len() && init[k] == last;
                assert(t[k] == t[t.len() - 1]);
            }
        }
        assert(rest.contains(last) <==> first.contains(last)) by {
            if rest.contains(last) {
                let k = choose|k: int| 0 <= k < rest.len() && rest[k] == last;
                if k >= first.len() {
                    assert(init.filter(fresh)[k - first.len()] == last);
                    assert(init.filter(fresh).contains(last));
                    init.lemma_filter_contains_rev(fresh, last);
                } else {
                    assert(first[k] == last);
                }
            }
            if first.contains(last) {
                let k = choose|k: int| 0 <= k < first.len() && first[k] == last;
                assert(rest[k] == last);
            }
        }
        assert(fresh(last) == !first.contains(last));
        assert(first_occurrences(s + t) =~= first + t.filter(fresh));
    }
}

/// Every chord has at least one note, starts with the key itself and rises from
/// there, by at most fourteen semitones.
pub proof fn lemma_chord_table(values: Seq<u32>)
    ensures
        ({
            let chord = CHORDS@[chord_index(values)];
            &&& 1 <= chord.1 <= 5
            &&& chord.2@[0] == 0
            &&& forall|k: int| 0 <= k < 5 ==> 0 <= #[trigger] chord.2@[k] <= 14
            &&& forall|j: int, k: int|
                0 <= j < k < chord.1 ==> #[trigger] chord.2@[j] < #[trigger] chord.2@[k]
        }),
{
    lemma_chord_shape(chord_index(values));
}

} // verus!
