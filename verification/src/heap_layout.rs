//! How objects and arrays are laid out in the words of a memory chunk, and what makes a
//! chunk a well-formed heap.
//!
//! An allocation starts with its header word; an object then holds its class id and one
//! word per field; an array holds its entry type, its length and one word per entry.
use vstd::prelude::*;

use crate::abstract_object::{hdr_kind, hdr_size, hdr_state};
use crate::array_entry_type::{entry_type_word_is_reference, entry_type_word_valid};
use crate::class::Class;
use crate::class_manager::{class_of, has_class, reference_mask};

verus! {

/// Offset in bytes of the first field of an object: the allocation header and the object
/// header, rounded up to a whole word.
pub const FIELDS_OFFSET: usize = 16;

/// Offset in bytes of the first entry of an array: the allocation header and the array
/// header, rounded up to a whole word.
pub const ENTRIES_OFFSET: usize = 24;

/// The number of words of the allocation starting at word `t`.
pub open spec fn tile_words(words: Seq<u64>, t: int) -> int {
    hdr_size(words[t]) as int / 8
}

/// Whether `tiles` lists, in order, the first words of allocations that cover words
/// `0..used` of the chunk one after the other.
pub open spec fn tiling(words: Seq<u64>, used: int, tiles: Seq<int>) -> bool {
    &&& forall|j: int|
        0 <= j < tiles.len() ==> 0 <= #[trigger] tiles[j] < used && hdr_size(words[tiles[j]]) % 8
            == 0 && tile_words(words, tiles[j]) >= 2
    &&& (tiles.len() == 0 ==> used == 0)
    &&& (tiles.len() > 0 ==> tiles[0] == 0 && tiles.last() + tile_words(words, tiles.last())
        == used)
    &&& forall|j: int|
        0 <= j < tiles.len() - 1 ==> #[trigger] tiles[j + 1] == tiles[j] + tile_words(
            words,
            tiles[j],
        )
}

/// Whether the header and the layout of the allocation at word `t` agree, for the
/// given classes.
pub open spec fn tile_layout_ok(words: Seq<u64>, t: int, classes: Seq<Class>) -> bool {
    let h = words[t];
    if hdr_kind(h) == 0 {
        &&& has_class(classes, words[t + 1] as int)
        &&& tile_words(words, t) == 2 + class_of(classes, words[t + 1] as int).num_total_fields
    } else {
        &&& tile_words(words, t) >= 3
        &&& entry_type_word_valid(words[t + 1])
        &&& words[t + 2] < 0x1_0000_0000
        &&& tile_words(words, t) == 3 + words[t + 2]
    }
}

/// The number of fields, or of entries, of the allocation at word `t`.
pub open spec fn slot_count(words: Seq<u64>, t: int, classes: Seq<Class>) -> int {
    if hdr_kind(words[t]) == 0 {
        class_of(classes, words[t + 1] as int).num_total_fields as int
    } else {
        words[t + 2] as int
    }
}

/// The word that holds field, or entry, `i` of the allocation at word `t`.
pub open spec fn slot_index(words: Seq<u64>, t: int, i: int) -> int {
    if hdr_kind(words[t]) == 0 {
        t + 2 + i
    } else {
        t + 3 + i
    }
}

/// Whether field, or entry, `i` of the allocation at word `t` holds a reference.
pub open spec fn slot_is_ref(words: Seq<u64>, t: int, classes: Seq<Class>, i: int) -> bool {
    if hdr_kind(words[t]) == 0 {
        reference_mask(classes, words[t + 1] as int)[i]
    } else {
        entry_type_word_is_reference(words[t + 1])
    }
}

/// Whether `v` is null or the address of one of the allocations starting at `tiles` in
/// a chunk whose first byte is at `base`.
pub open spec fn ref_ok(base: int, tiles: Seq<int>, v: u64) -> bool {
    v == 0 || (v >= base && (v - base) % 8 == 0 && tiles.contains((v - base) / 8))
}

/// Whether the allocation at word `t` is laid out as its header says, is in the given
/// gc state, and holds valid references.
pub open spec fn tile_ok(
    words: Seq<u64>,
    base: int,
    tiles: Seq<int>,
    classes: Seq<Class>,
    state: u64,
    t: int,
) -> bool {
    &&& tile_layout_ok(words, t, classes)
    &&& hdr_state(words[t]) == state
    &&& forall|i: int|
        0 <= i < slot_count(words, t, classes) && slot_is_ref(words, t, classes, i) ==> ref_ok(
            base,
            tiles,
            words[#[trigger] slot_index(words, t, i)],
        )
}

/// Whether words `0..used` of a chunk whose first byte is at `base` hold well-formed
/// allocations starting at `tiles`, all in the given gc state.
pub open spec fn heap_ok(
    words: Seq<u64>,
    base: int,
    used: int,
    tiles: Seq<int>,
    classes: Seq<Class>,
    state: u64,
) -> bool {
    &&& used <= words.len()
    &&& tiling(words, used, tiles)
    &&& forall|j: int|
        0 <= j < tiles.len() ==> tile_ok(words, base, tiles, classes, state, #[trigger] tiles[j])
}

/// Allocations follow one another: each ends where a later one starts, or before the
/// end of the used words.
pub proof fn lemma_tiling_bounds(words: Seq<u64>, used: int, tiles: Seq<int>)
    requires
        tiling(words, used, tiles),
    ensures
        forall|j: int|
            0 <= j < tiles.len() ==> #[trigger] tiles[j] + tile_words(words, tiles[j]) <= used,
        forall|i: int, j: int|
            0 <= i < j < tiles.len() ==> #[trigger] tiles[i] + tile_words(words, tiles[i])
                <= #[trigger] tiles[j],
{
    assert forall|i: int, j: int| 0 <= i < j < tiles.len() implies #[trigger] tiles[i]
        + tile_words(words, tiles[i]) <= #[trigger] tiles[j] by {
        lemma_tiling_step(words, used, tiles, i, j);
    }
    assert forall|j: int| 0 <= j < tiles.len() implies #[trigger] tiles[j] + tile_words(
        words,
        tiles[j],
    ) <= used by {
        if j < tiles.len() - 1 {
            lemma_tiling_step(words, used, tiles, j, tiles.len() - 1);
            assert(tiles[tiles.len() - 1] == tiles.last());
        }
    }
}

proof fn lemma_tiling_step(words: Seq<u64>, used: int, tiles: Seq<int>, i: int, j: int)
    requires
        tiling(words, used, tiles),
        0 <= i < j < tiles.len(),
    ensures
        tiles[i] + tile_words(words, tiles[i]) <= tiles[j],
    decreases j - i,
{
    let k = j - 1;
    assert(tiles[k + 1] == tiles[k] + tile_words(words, tiles[k]));
    if i < j - 1 {
        lemma_tiling_step(words, used, tiles, i, j - 1);
    }
}

/// The allocation at word `t` keeps its validity when words outside of it change and
/// allocations are added.
pub proof fn lemma_tile_ok_frame(
    w1: Seq<u64>,
    w2: Seq<u64>,
    base: int,
    tiles1: Seq<int>,
    tiles2: Seq<int>,
    classes: Seq<Class>,
    state: u64,
    t: int,
)
    requires
        tile_ok(w1, base, tiles1, classes, state, t),
        0 <= t,
        t + tile_words(w1, t) <= w1.len(),
        t + tile_words(w1, t) <= w2.len(),
        forall|k: int| t <= k < t + tile_words(w1, t) ==> w1[k] == w2[k],
        forall|x: int| tiles1.contains(x) ==> tiles2.contains(x),
    ensures
        tile_ok(w2, base, tiles2, classes, state, t),
        tile_words(w2, t) == tile_words(w1, t),
{
    assert(w1[t] == w2[t]);
    if hdr_kind(w1[t]) == 0 {
        assert(w1[t + 1] == w2[t + 1]);
    } else {
        assert(w1[t + 1] == w2[t + 1]);
        assert(w1[t + 2] == w2[t + 2]);
    }
    assert forall|i: int|
        0 <= i < slot_count(w2, t, classes) && slot_is_ref(w2, t, classes, i) implies ref_ok(
        base,
        tiles2,
        w2[#[trigger] slot_index(w2, t, i)],
    ) by {
        assert(slot_index(w1, t, i) == slot_index(w2, t, i));
        assert(ref_ok(base, tiles1, w1[slot_index(w1, t, i)]));
        if w1[slot_index(w1, t, i)] != 0 {
            let x = (w1[slot_index(w1, t, i)] - base) / 8;
            assert(tiles1.contains(x));
        }
    }
}

/// Appending a well-formed allocation after the used words keeps a heap well formed.
pub proof fn lemma_heap_extend(
    w1: Seq<u64>,
    w2: Seq<u64>,
    base: int,
    used: int,
    tiles: Seq<int>,
    classes: Seq<Class>,
)
    requires
        heap_ok(w1, base, used, tiles, classes, 0),
        w2.len() == w1.len(),
        forall|k: int| 0 <= k < used ==> w1[k] == w2[k],
        used + tile_words(w2, used) <= w2.len(),
        hdr_size(w2[used]) % 8 == 0,
        tile_words(w2, used) >= 2,
        tile_ok(w2, base, tiles.push(used), classes, 0, used),
    ensures
        heap_ok(w2, base, used + tile_words(w2, used), tiles.push(used), classes, 0),
        forall|x: int| tiles.push(used).contains(x) <==> (tiles.contains(x) || x == used),
{
    let tiles2 = tiles.push(used);
    let used2 = used + tile_words(w2, used);
    lemma_tiling_bounds(w1, used, tiles);
    assert forall|x: int| tiles2.contains(x) <==> (tiles.contains(x) || x == used) by {
        if tiles2.contains(x) {
            let j = choose|j: int| 0 <= j < tiles2.len() && tiles2[j] == x;
            if j < tiles.len() {
                assert(tiles[j] == x);
            }
        }
        if tiles.contains(x) {
            let j = choose|j: int| 0 <= j < tiles.len() && tiles[j] == x;
            assert(tiles2[j] == x);
        }
        if x == used {
            assert(tiles2[tiles.len() as int] == x);
        }
    }
    assert forall|j: int| 0 <= j < tiles.len() implies w1[#[trigger] tiles[j]] == w2[tiles[j]]
        && tile_words(w1, tiles[j]) == tile_words(w2, tiles[j]) by {
        assert(w1[tiles[j]] == w2[tiles[j]]);
    }
    assert forall|j: int| 0 <= j < tiles2.len() implies 0 <= #[trigger] tiles2[j] < used2
        && hdr_size(w2[tiles2[j]]) % 8 == 0 && tile_words(w2, tiles2[j]) >= 2 by {
        if j < tiles.len() {
            assert(tiles2[j] == tiles[j]);
        }
    }
    assert forall|j: int| 0 <= j < tiles2.len() - 1 implies #[trigger] tiles2[j + 1] == tiles2[j]
        + tile_words(w2, tiles2[j]) by {
        if j < tiles.len() - 1 {
            assert(tiles2[j + 1] == tiles[j + 1]);
        } else {
            assert(j == tiles.len() - 1);
            assert(tiles[j] == tiles.last());
        }
    }
    assert(tiling(w2, used2, tiles2));
    assert forall|j: int| 0 <= j < tiles2.len() implies tile_ok(
        w2,
        base,
        tiles2,
        classes,
        0,
        #[trigger] tiles2[j],
    ) by {
        if j < tiles.len() {
            assert(tiles2[j] == tiles[j]);
            let t = tiles[j];
            assert(tile_ok(w1, base, tiles, classes, 0, t));
            lemma_tile_ok_frame(w1, w2, base, tiles, tiles2, classes, 0, t);
        }
    }
}

/// Distinct allocations do not overlap.
pub proof fn lemma_tiles_disjoint(words: Seq<u64>, used: int, tiles: Seq<int>, t1: int, t2: int, k: int)
    requires
        tiling(words, used, tiles),
        tiles.contains(t1),
        tiles.contains(t2),
        t1 != t2,
        t1 <= k < t1 + tile_words(words, t1),
    ensures
        !(t2 <= k < t2 + tile_words(words, t2)),
{
    lemma_tiling_bounds(words, used, tiles);
    let i = choose|i: int| 0 <= i < tiles.len() && tiles[i] == t1;
    let j = choose|j: int| 0 <= j < tiles.len() && tiles[j] == t2;
    if i < j {
        assert(tiles[i] + tile_words(words, tiles[i]) <= tiles[j]);
    } else {
        assert(tiles[j] + tile_words(words, tiles[j]) <= tiles[i]);
    }
}

/// Storing a word in a field, or an entry, keeps a heap well formed, as long as a
/// reference is stored only where a valid one is expected; no other allocation changes.
pub proof fn lemma_heap_write_slot(
    words: Seq<u64>,
    base: int,
    used: int,
    tiles: Seq<int>,
    classes: Seq<Class>,
    t: int,
    i: int,
    v: u64,
)
    requires
        heap_ok(words, base, used, tiles, classes, 0),
        tiles.contains(t),
        0 <= i < slot_count(words, t, classes),
        slot_is_ref(words, t, classes, i) ==> ref_ok(base, tiles, v),
    ensures
        ({
            let k = slot_index(words, t, i);
            let w2 = words.update(k, v);
            &&& t <= k < t + tile_words(words, t)
            &&& heap_ok(w2, base, used, tiles, classes, 0)
            &&& forall|t2: int|
                #[trigger] tiles.contains(t2) && t2 != t ==> w2.subrange(
                    t2,
                    t2 + tile_words(words, t2),
                ) == words.subrange(t2, t2 + tile_words(words, t2))
            &&& w2.subrange(t, t + tile_words(words, t)) == words.subrange(
                t,
                t + tile_words(words, t),
            ).update(k - t, v)
            &&& tile_words(w2, t) == tile_words(words, t)
        }),
{
    let k = slot_index(words, t, i);
    let w2 = words.update(k, v);
    lemma_tiling_bounds(words, used, tiles);
    let jt = choose|j: int| 0 <= j < tiles.len() && tiles[j] == t;
    assert(tile_ok(words, base, tiles, classes, 0, tiles[jt]));
    assert(t <= k < t + tile_words(words, t));
    assert(w2[t] == words[t]);
    if hdr_kind(words[t]) == 0 {
        assert(w2[t + 1] == words[t + 1]);
    } else {
        assert(w2[t + 1] == words[t + 1]);
        assert(w2[t + 2] == words[t + 2]);
    }
    assert forall|t2: int| #[trigger] tiles.contains(t2) && t2 != t implies w2.subrange(
        t2,
        t2 + tile_words(words, t2),
    ) == words.subrange(t2, t2 + tile_words(words, t2)) by {
        lemma_tiles_disjoint(words, used, tiles, t, t2, k);
        let j2 = choose|j: int| 0 <= j < tiles.len() && tiles[j] == t2;
        assert(tiles[j2] + tile_words(words, tiles[j2]) <= used);
        assert(w2.subrange(t2, t2 + tile_words(words, t2)) =~= words.subrange(
            t2,
            t2 + tile_words(words, t2),
        ));
    }
    assert(w2.subrange(t, t + tile_words(words, t)) =~= words.subrange(
        t,
        t + tile_words(words, t),
    ).update(k - t, v));
    assert forall|j: int| 0 <= j < tiles.len() implies w2[#[trigger] tiles[j]] == words[tiles[j]] by {
        if tiles[j] != t {
            lemma_tiles_disjoint(words, used, tiles, t, tiles[j], k);
        }
    }
    assert(tiling(w2, used, tiles));
    assert forall|j: int| 0 <= j < tiles.len() implies tile_ok(
        w2,
        base,
        tiles,
        classes,
        0,
        #[trigger] tiles[j],
    ) by {
        let t2 = tiles[j];
        assert(tile_ok(words, base, tiles, classes, 0, t2));
        if t2 != t {
            assert forall|m: int| t2 <= m < t2 + tile_words(words, t2) implies words[m] == w2[m] by {
                lemma_tiles_disjoint(words, used, tiles, t, t2, k);
            }
            lemma_tile_ok_frame(words, w2, base, tiles, tiles, classes, 0, t2);
        } else {
            assert forall|i2: int|
                0 <= i2 < slot_count(w2, t, classes) && slot_is_ref(w2, t, classes, i2) implies ref_ok(
                base,
                tiles,
                w2[#[trigger] slot_index(w2, t, i2)],
            ) by {
                if i2 != i {
                    assert(slot_index(w2, t, i2) != k);
                    assert(ref_ok(base, tiles, words[slot_index(words, t, i2)]));
                }
            }
        }
    }
}


/// The offset, from the header, of the first field of an object or of the first entry
/// of an array.
pub open spec fn first_slot(h: u64) -> int {
    if hdr_kind(h) == 0 {
        2
    } else {
        3
    }
}

/// Whether word `k` of the allocation at word `t` (counted from its header) is a field
/// or an entry that holds a reference.
pub open spec fn holds_ref(words: Seq<u64>, t: int, classes: Seq<Class>, k: int) -> bool {
    let i = k - first_slot(words[t]);
    0 <= i < slot_count(words, t, classes) && slot_is_ref(words, t, classes, i)
}

/// Word `k` of the allocation at word `t` of `words`, with a non-null reference `v`
/// replaced by `moved(v)`.
pub open spec fn moved_word(
    words: Seq<u64>,
    t: int,
    classes: Seq<Class>,
    k: int,
    moved: spec_fn(u64) -> u64,
) -> u64 {
    if holds_ref(words, t, classes, k) && words[t + k] != 0 {
        moved(words[t + k])
    } else {
        words[t + k]
    }
}

/// The allocation that the non-null reference `v` points at, as a word index.
pub open spec fn target(base: int, v: u64) -> int {
    (v - base) / 8
}

/// Whether allocation `c` is referenced by a field, or an entry, of allocation `t`.
pub open spec fn is_child(words: Seq<u64>, base: int, classes: Seq<Class>, t: int, c: int) -> bool {
    exists|i: int|
        0 <= i < slot_count(words, t, classes) && slot_is_ref(words, t, classes, i)
            && words[slot_index(words, t, i)] != 0 && c == #[trigger] target(
            base,
            words[slot_index(words, t, i)],
        )
}

/// The allocations reachable from `roots` by following at most `n` references.
pub open spec fn reach(
    words: Seq<u64>,
    base: int,
    classes: Seq<Class>,
    roots: Set<int>,
    n: nat,
) -> Set<int>
    decreases n,
{
    if n == 0 {
        roots
    } else {
        let prev = reach(words, base, classes, roots, (n - 1) as nat);
        prev.union(
            Set::new(|c: int| exists|t: int| prev.contains(t) && is_child(words, base, classes, t, c)),
        )
    }
}

/// Whether allocation `c` can be reached from `roots` by following references.
pub open spec fn reachable(
    words: Seq<u64>,
    base: int,
    classes: Seq<Class>,
    roots: Set<int>,
    c: int,
) -> bool {
    exists|n: nat| #[trigger] reach(words, base, classes, roots, n).contains(c)
}

/// A child of an allocation reached in `n` steps is reached in `n + 1`.
pub proof fn lemma_reach_child(
    words: Seq<u64>,
    base: int,
    classes: Seq<Class>,
    roots: Set<int>,
    n: nat,
    t: int,
    c: int,
)
    requires
        reach(words, base, classes, roots, n).contains(t),
        is_child(words, base, classes, t, c),
    ensures
        reach(words, base, classes, roots, n + 1).contains(c),
{
}

/// Every allocation that a set closed under references and holding the roots does not
/// miss any reachable allocation.
pub proof fn lemma_reach_closed(
    words: Seq<u64>,
    base: int,
    classes: Seq<Class>,
    roots: Set<int>,
    closed: Set<int>,
    n: nat,
)
    requires
        roots.subset_of(closed),
        forall|t: int, c: int|
            closed.contains(t) && #[trigger] is_child(words, base, classes, t, c) ==> closed.contains(c),
    ensures
        reach(words, base, classes, roots, n).subset_of(closed),
    decreases n,
{
    if n > 0 {
        lemma_reach_closed(words, base, classes, roots, closed, (n - 1) as nat);
    }
}

/// The number of allocations among the first `n` of `tiles` whose gc state is unmarked.
pub open spec fn unmarked_count(words: Seq<u64>, tiles: Seq<int>, n: int) -> nat
    decreases n,
{
    if n <= 0 {
        0
    } else {
        unmarked_count(words, tiles, n - 1) + if hdr_state(words[tiles[n - 1]]) == 0 {
            1nat
        } else {
            0
        }
    }
}

/// Marking allocations, and changing other words, never raises the unmarked count; marking
/// one that was unmarked lowers it.
pub proof fn lemma_unmarked_count(w1: Seq<u64>, w2: Seq<u64>, tiles: Seq<int>, n: int, t: int)
    requires
        0 <= n <= tiles.len(),
        forall|j: int|
            0 <= j < tiles.len() ==> (hdr_state(w2[#[trigger] tiles[j]]) == 0 ==> hdr_state(
                w1[tiles[j]],
            ) == 0),
    ensures
        unmarked_count(w2, tiles, n) <= unmarked_count(w1, tiles, n),
        (exists|j: int|
            0 <= j < n && tiles[j] == t && hdr_state(w1[t]) == 0 && hdr_state(w2[t]) != 0)
            ==> unmarked_count(w2, tiles, n) < unmarked_count(w1, tiles, n),
    decreases n,
{
    if n > 0 {
        lemma_unmarked_count(w1, w2, tiles, n - 1, t);
        if hdr_state(w1[tiles[n - 1]]) == 0 && hdr_state(w2[tiles[n - 1]]) != 0 {
        }
    }
}

/// The total size, in words, of the allocations among the first `n` of `tiles` that are
/// in `copied`.
pub open spec fn sum_copied(words: Seq<u64>, tiles: Seq<int>, copied: Set<int>, n: int) -> int
    decreases n,
{
    if n <= 0 {
        0
    } else {
        sum_copied(words, tiles, copied, n - 1) + if copied.contains(tiles[n - 1]) {
            tile_words(words, tiles[n - 1])
        } else {
            0
        }
    }
}

/// The allocations copied so far never take more room than the whole region.
pub proof fn lemma_sum_copied_bound(words: Seq<u64>, used: int, tiles: Seq<int>, copied: Set<int>, n: int)
    requires
        tiling(words, used, tiles),
        0 <= n <= tiles.len(),
    ensures
        0 <= sum_copied(words, tiles, copied, n) <= if n < tiles.len() {
            tiles[n]
        } else {
            used
        },
    decreases n,
{
    if n > 0 {
        lemma_sum_copied_bound(words, used, tiles, copied, n - 1);
        if n < tiles.len() {
            let k = n - 1;
            assert(tiles[k + 1] == tiles[k] + tile_words(words, tiles[k]));
        } else {
            assert(tiles[n - 1] == tiles.last());
        }
    } else if tiles.len() > 0 {
    }
}

/// Nothing has been copied when no allocation is in `copied`.
pub proof fn lemma_sum_copied_empty(words: Seq<u64>, tiles: Seq<int>, n: int)
    ensures
        sum_copied(words, tiles, Set::empty(), n) == 0,
    decreases n,
{
    if n > 0 {
        lemma_sum_copied_empty(words, tiles, n - 1);
    }
}

/// The words of the allocations of two disjoint sets add up.
pub proof fn lemma_sum_copied_union(words: Seq<u64>, tiles: Seq<int>, a: Set<int>, b: Set<int>, n: int)
    requires
        forall|t: int| #[trigger] a.contains(t) ==> !b.contains(t),
    ensures
        sum_copied(words, tiles, a.union(b), n) == sum_copied(words, tiles, a, n) + sum_copied(words, tiles, b, n),
    decreases n,
{
    if n > 0 {
        lemma_sum_copied_union(words, tiles, a, b, n - 1);
    }
}

/// Whether `t` is among the first `n` of `tiles`.
pub open spec fn in_prefix(tiles: Seq<int>, n: int, t: int) -> bool {
    exists|j: int| 0 <= j < n && #[trigger] tiles[j] == t
}

/// Copying one more allocation adds its size to the total.
pub proof fn lemma_sum_copied_insert(words: Seq<u64>, tiles: Seq<int>, copied: Set<int>, t: int, n: int)
    requires
        !copied.contains(t),
        0 <= n <= tiles.len(),
        tiles.no_duplicates(),
    ensures
        sum_copied(words, tiles, copied.insert(t), n) == sum_copied(words, tiles, copied, n) + if in_prefix(tiles, n, t) {
            tile_words(words, t)
        } else {
            0
        },
    decreases n,
{
    if n > 0 {
        lemma_sum_copied_insert(words, tiles, copied, t, n - 1);
        if tiles[n - 1] == t {
            assert(in_prefix(tiles, n, t));
            if in_prefix(tiles, n - 1, t) {
                let j = choose|j: int| 0 <= j < n - 1 && #[trigger] tiles[j] == t;
                assert(tiles[j] == tiles[n - 1]);
            }
        } else {
            if in_prefix(tiles, n, t) {
                let j = choose|j: int| 0 <= j < n && #[trigger] tiles[j] == t;
                assert(in_prefix(tiles, n - 1, t));
            }
            if in_prefix(tiles, n - 1, t) {
                let j = choose|j: int| 0 <= j < n - 1 && #[trigger] tiles[j] == t;
                assert(in_prefix(tiles, n, t));
            }
        }
    }
}

/// A tiling lists distinct allocations, in increasing order.
pub proof fn lemma_tiling_distinct(words: Seq<u64>, used: int, tiles: Seq<int>)
    requires
        tiling(words, used, tiles),
    ensures
        tiles.no_duplicates(),
        forall|i: int, j: int| 0 <= i < j < tiles.len() ==> tiles[i] < tiles[j],
{
    lemma_tiling_bounds(words, used, tiles);
    assert forall|i: int, j: int| 0 <= i < j < tiles.len() implies tiles[i] < tiles[j] by {
        assert(tiles[i] + tile_words(words, tiles[i]) <= tiles[j]);
    }
}

/// The offset, in words, of the `n`-th copy in the region it is copied to: the copies of
/// `sources` follow one another.
#[verifier::opaque]
pub open spec fn copies_total(words: Seq<u64>, sources: Seq<int>, n: int) -> int
    decreases n,
{
    if n <= 0 {
        0
    } else {
        copies_total(words, sources, n - 1) + tile_words(words, sources[n - 1])
    }
}

/// The first copy is at the start of the region, and each one follows the previous one.
pub proof fn lemma_copies_total_step(words: Seq<u64>, sources: Seq<int>, n: int)
    requires
        0 <= n,
    ensures
        copies_total(words, sources, 0) == 0,
        copies_total(words, sources, n + 1) == copies_total(words, sources, n) + tile_words(
            words,
            sources[n],
        ),
{
    reveal(copies_total);
}

/// The offsets of the first copies do not change when more copies are made.
pub proof fn lemma_copies_total_prefix(words: Seq<u64>, sources: Seq<int>, x: int, i: int)
    requires
        0 <= i <= sources.len(),
    ensures
        copies_total(words, sources.push(x), i) == copies_total(words, sources, i),
    decreases i,
{
    reveal(copies_total);
    if i > 0 {
        lemma_copies_total_prefix(words, sources, x, i - 1);
        assert(sources.push(x)[i - 1] == sources[i - 1]);
    }
}

/// Copies of allocations of at least one word start at distinct offsets, in order.
pub proof fn lemma_copies_total_strict(words: Seq<u64>, sources: Seq<int>, i: int, j: int)
    requires
        0 <= i < j <= sources.len(),
        forall|k: int| 0 <= k < sources.len() ==> tile_words(words, #[trigger] sources[k]) >= 1,
    ensures
        copies_total(words, sources, i) < copies_total(words, sources, j),
{
    lemma_copies_total_step(words, sources, i);
    lemma_copies_total_mono(words, sources, i + 1, j);
}

/// Copies come one after the other, in order.
pub proof fn lemma_copies_total_mono(words: Seq<u64>, sources: Seq<int>, i: int, j: int)
    requires
        0 <= i <= j,
    ensures
        copies_total(words, sources, i) <= copies_total(words, sources, j),
    decreases j - i,
{
    reveal(copies_total);
    if i < j {
        lemma_copies_total_mono(words, sources, i, j - 1);
        assert(tile_words(words, sources[j - 1]) >= 0);
    }
}

} // verus!
