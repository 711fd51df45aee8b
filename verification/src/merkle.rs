//! The reference definitions: the root of a sequence of leaf hashes, the
//! path that proves one of them, and the facts that tie the two together.
use crate::hash;
use crate::hash::{empty_digest, node_digest, MAX_HEIGHT};
use vstd::prelude::*;

verus! {

/// Four to the power of `height`: the number of leaves under a node of that
/// height.
pub open spec fn pow4(height: nat) -> nat
    decreases height,
{
    if height == 0 {
        1
    } else {
        4 * pow4((height - 1) as nat)
    }
}

/// The `i`-th run of `width` elements of `s`, cut short where `s` ends.
pub open spec fn part<A>(s: Seq<A>, i: nat, width: nat) -> Seq<A> {
    let lo = if i * width < s.len() {
        i * width
    } else {
        s.len()
    };
    let hi = if (i + 1) * width < s.len() {
        (i + 1) * width
    } else {
        s.len()
    };
    s.subrange(lo as int, hi as int)
}

/// The root of the tree of `height` levels whose leaves stand at height
/// `base` and hash to `leaves`, from the left; the places that `leaves` does
/// not reach are empty.
pub open spec fn root_of(base: nat, height: nat, leaves: Seq<Seq<u8>>) -> Seq<u8>
    decreases height,
{
    if height == 0 {
        if leaves.len() == 0 {
            empty_digest(base)
        } else {
            leaves[0]
        }
    } else {
        let below = (height - 1) as nat;
        let width = pow4(below);
        node_digest(
            base + height,
            root_of(base, below, part(leaves, 0, width)),
            root_of(base, below, part(leaves, 1, width)),
            root_of(base, below, part(leaves, 2, width)),
            root_of(base, below, part(leaves, 3, width)),
        )
    }
}

/// The hashes of the four children of the root of `leaves`, from the left.
pub open spec fn children_of(base: nat, height: nat, leaves: Seq<Seq<u8>>) -> Seq<Seq<u8>> {
    let below = (height - 1) as nat;
    let width = pow4(below);
    seq![
        root_of(base, below, part(leaves, 0, width)),
        root_of(base, below, part(leaves, 1, width)),
        root_of(base, below, part(leaves, 2, width)),
        root_of(base, below, part(leaves, 3, width)),
    ]
}

/// The path that proves the leaf at `index`: for each level from the lowest
/// to the root, the hashes of the three siblings met there, from the left.
pub open spec fn path_of(base: nat, height: nat, leaves: Seq<Seq<u8>>, index: nat) -> Seq<
    Seq<Seq<u8>>,
>
    decreases height,
{
    if height == 0 {
        Seq::empty()
    } else {
        let below = (height - 1) as nat;
        let width = pow4(below);
        let child = index / width;
        path_of(base, below, part(leaves, child, width), index % width).push(
            children_of(base, height, leaves).remove(child as int),
        )
    }
}

/// The root that a path leads to: start from `digest` at `index` and combine
/// it, level by level, with the siblings that `path` names.
pub open spec fn climb(
    base: nat,
    height: nat,
    digest: Seq<u8>,
    index: nat,
    path: Seq<Seq<Seq<u8>>>,
) -> Seq<u8>
    decreases height,
{
    if height == 0 {
        digest
    } else {
        let below = (height - 1) as nat;
        let width = pow4(below);
        let child = index / width;
        let all = path[below as int].insert(
            child as int,
            climb(base, below, digest, index % width, path),
        );
        node_digest(base + height, all[0], all[1], all[2], all[3])
    }
}

/// Every height has room for a leaf.
pub proof fn lemma_pow4_positive(height: nat)
    ensures
        pow4(height) > 0,
    decreases height,
{
    if height > 0 {
        lemma_pow4_positive((height - 1) as nat);
    }
}

/// A level more gives four times the room.
pub proof fn lemma_pow4_step(height: nat)
    requires
        height > 0,
    ensures
        pow4(height) == 4 * pow4((height - 1) as nat),
        pow4((height - 1) as nat) > 0,
{
    lemma_pow4_positive((height - 1) as nat);
}

/// A higher tree has no less room.
pub proof fn lemma_pow4_monotonic(low: nat, high: nat)
    requires
        low <= high,
    ensures
        pow4(low) <= pow4(high),
    decreases high,
{
    if low < high {
        lemma_pow4_monotonic(low, (high - 1) as nat);
    }
}

/// The number of leaves under a node of the given height.
pub(crate) fn width(height: u8) -> (w: u64)
    requires
        height <= MAX_HEIGHT,
    ensures
        w == pow4(height as nat),
        0 < w <= 0x1_0000_0000_0000,
{
    let mut w: u64 = 1;
    let mut level: u8 = 0;
    while level < height
        invariant
            level <= height <= MAX_HEIGHT,
            w == pow4(level as nat),
        decreases height - level,
    {
        proof {
            lemma_pow4_monotonic((level + 1) as nat, 24);
            lemma_pow4_values();
        }
        w = w * 4;
        level += 1;
    }
    proof {
        lemma_pow4_positive(height as nat);
        lemma_pow4_monotonic(height as nat, 24);
        lemma_pow4_values();
    }
    w
}

/// The multiples of a width that bound the four parts of a sequence.
pub proof fn lemma_multiples(width: nat)
    ensures
        0 * width == 0,
        1 * width == width,
        2 * width == width + width,
        3 * width == width + width + width,
        4 * width == width + width + width + width,
        (0 + 1) * width == width,
        (1 + 1) * width == width + width,
        (2 + 1) * width == width + width + width,
        (3 + 1) * width == width + width + width + width,
{
    assert(2 * width == width + width) by (nonlinear_arith);
    assert(3 * width == width + width + width) by (nonlinear_arith);
    assert(4 * width == width + width + width + width) by (nonlinear_arith);
}

/// The number of leaves of a tier, and of the whole tree.
pub proof fn lemma_pow4_values()
    ensures
        pow4(0) == 1,
        pow4(1) == 4,
        pow4(8) == 65536,
        pow4(16) == 0x1_0000_0000,
        pow4(24) == 0x1_0000_0000_0000,
{
    reveal_with_fuel(pow4, 25);
}

/// A tree without leaves hashes to the empty hash of its height.
pub proof fn lemma_root_of_empty(base: nat, height: nat)
    ensures
        root_of(base, height, Seq::empty()) == empty_digest(base + height),
    decreases height,
{
    if height > 0 {
        let below = (height - 1) as nat;
        let none = Seq::<Seq<u8>>::empty();
        lemma_root_of_empty(base, below);
        assert(part(none, 0, pow4(below)) =~= none);
        assert(part(none, 1, pow4(below)) =~= none);
        assert(part(none, 2, pow4(below)) =~= none);
        assert(part(none, 3, pow4(below)) =~= none);
    }
}

/// A tree with one leaf: that leaf's child beside three empty ones.
pub proof fn lemma_root_of_single(base: nat, height: nat, leaf: Seq<u8>)
    requires
        height > 0,
    ensures
        root_of(base, height, seq![leaf]) == node_digest(
            base + height,
            root_of(base, (height - 1) as nat, seq![leaf]),
            empty_digest((base + height - 1) as nat),
            empty_digest((base + height - 1) as nat),
            empty_digest((base + height - 1) as nat),
        ),
{
    let below = (height - 1) as nat;
    let width = pow4(below);
    let one = seq![leaf];
    let none = Seq::<Seq<u8>>::empty();
    lemma_pow4_positive(below);
    lemma_root_of_empty(base, below);
    assert(one.len() == 1);
    lemma_multiples(width);
    assert(part(one, 0, width) =~= one);
    assert(part(one, 1, width) =~= none);
    assert(part(one, 2, width) =~= none);
    assert(part(one, 3, width) =~= none);
}

/// An empty leaf at the end is the same as no leaf there.
pub proof fn lemma_root_of_push_empty(base: nat, height: nat, leaves: Seq<Seq<u8>>)
    requires
        leaves.len() < pow4(height),
    ensures
        root_of(base, height, leaves.push(empty_digest(base))) == root_of(base, height, leaves),
    decreases height,
{
    let more = leaves.push(empty_digest(base));
    if height > 0 {
        let below = (height - 1) as nat;
        let width = pow4(below);
        lemma_pow4_positive(below);
        lemma_multiples(width);
        lemma_root_of_empty(base, below);
        let len = leaves.len();
        if len < width {
            lemma_root_of_push_empty(base, below, part(leaves, 0, width));
            assert(part(more, 0, width) =~= part(leaves, 0, width).push(empty_digest(base)));
            assert(part(more, 1, width) =~= part(leaves, 1, width));
            assert(part(more, 2, width) =~= part(leaves, 2, width));
            assert(part(more, 3, width) =~= part(leaves, 3, width));
        } else if len < 2 * width {
            lemma_root_of_push_empty(base, below, part(leaves, 1, width));
            assert(part(more, 0, width) =~= part(leaves, 0, width));
            assert(part(more, 1, width) =~= part(leaves, 1, width).push(empty_digest(base)));
            assert(part(more, 2, width) =~= part(leaves, 2, width));
            assert(part(more, 3, width) =~= part(leaves, 3, width));
        } else if len < 3 * width {
            lemma_root_of_push_empty(base, below, part(leaves, 2, width));
            assert(part(more, 0, width) =~= part(leaves, 0, width));
            assert(part(more, 1, width) =~= part(leaves, 1, width));
            assert(part(more, 2, width) =~= part(leaves, 2, width).push(empty_digest(base)));
            assert(part(more, 3, width) =~= part(leaves, 3, width));
        } else {
            lemma_root_of_push_empty(base, below, part(leaves, 3, width));
            assert(part(more, 0, width) =~= part(leaves, 0, width));
            assert(part(more, 1, width) =~= part(leaves, 1, width));
            assert(part(more, 2, width) =~= part(leaves, 2, width));
            assert(part(more, 3, width) =~= part(leaves, 3, width).push(empty_digest(base)));
        }
    } else {
        assert(leaves.len() == 0);
        assert(more[0] == empty_digest(base));
    }
}

/// A path recombines to the root: climbing from a leaf along the path that
/// proves it ends at the root of all the leaves.
pub proof fn lemma_path_leads_to_root(base: nat, height: nat, leaves: Seq<Seq<u8>>, index: nat)
    requires
        index < leaves.len() <= pow4(height),
    ensures
        path_of(base, height, leaves, index).len() == height,
        climb(base, height, leaves[index as int], index, path_of(base, height, leaves, index))
            == root_of(base, height, leaves),
    decreases height,
{
    if height > 0 {
        let below = (height - 1) as nat;
        let width = pow4(below);
        lemma_pow4_positive(below);
        let child = index / width;
        let rest = index % width;
        assert(index == child * width + rest && 0 <= rest < width && 0 <= child < 4) by (nonlinear_arith)
            requires
                child == index / width,
                rest == index % width,
                width > 0,
                index < 4 * width,
        ;
        let sub = part(leaves, child, width);
        assert(sub.len() > rest && sub[rest as int] == leaves[index as int] && sub.len() <= width) by {
            assert((child + 1) * width == child * width + width) by (nonlinear_arith);
        }
        lemma_path_leads_to_root(base, below, sub, rest);
        let inner = path_of(base, below, sub, rest);
        let all = children_of(base, height, leaves);
        let path = path_of(base, height, leaves, index);
        assert(path == inner.push(all.remove(child as int)));
        lemma_climb_prefix(base, below, leaves[index as int], rest, inner, path);
        let up = climb(base, below, leaves[index as int], rest, path);
        assert(up == root_of(base, below, sub));
        assert(all[child as int] == root_of(base, below, sub));
        assert(path[below as int] == all.remove(child as int));
        assert(all.remove(child as int).insert(child as int, up) =~= all);
    }
}

/// Climbing `height` levels reads only the first `height` entries of a path.
pub proof fn lemma_climb_prefix(
    base: nat,
    height: nat,
    digest: Seq<u8>,
    index: nat,
    short: Seq<Seq<Seq<u8>>>,
    long: Seq<Seq<Seq<u8>>>,
)
    requires
        height <= short.len() <= long.len(),
        forall|i: int| 0 <= i < height ==> short[i] == long[i],
    ensures
        climb(base, height, digest, index, short) == climb(base, height, digest, index, long),
    decreases height,
{
    if height > 0 {
        let below = (height - 1) as nat;
        lemma_pow4_positive(below);
        lemma_climb_prefix(base, below, digest, index % pow4(below), short, long);
        assert(short[below as int] == long[below as int]);
    }
}

/// A sequence of hashes with one more at its end, or as it is.
pub open spec fn extend(digests: Seq<Seq<u8>>, next: Option<hash::Hash>) -> Seq<Seq<u8>> {
    match next {
        Some(h) => digests.push(h@),
        None => digests,
    }
}

/// The three sibling hashes of one level of a path.
pub open spec fn triple_view(siblings: [hash::Hash; 3]) -> Seq<Seq<u8>> {
    seq![siblings[0]@, siblings[1]@, siblings[2]@]
}

/// A path as the hashes it holds, lowest level first.
pub open spec fn path_view(path: Seq<[hash::Hash; 3]>) -> Seq<Seq<Seq<u8>>> {
    Seq::new(path.len(), |i: int| triple_view(path[i]))
}

/// Where an index falls among the four parts of a sequence.
pub proof fn lemma_part_index<A>(s: Seq<A>, index: nat, width: nat)
    requires
        width > 0,
        s.len() <= 4 * width,
    ensures
        index == (index / width) * width + index % width,
        index % width < width,
        index < s.len() <==> index / width < 4 && index % width < part(
            s,
            index / width,
            width,
        ).len(),
        index < s.len() ==> part(s, index / width, width)[(index % width) as int] == s[index as int],
        index < 4 * width ==> index / width < 4,
{
    let run = index / width;
    let rest = index % width;
    lemma_multiples(width);
    assert(index == run * width + rest && 0 <= rest < width && 0 <= run) by (nonlinear_arith)
        requires
            run == index / width,
            rest == index % width,
            width > 0,
            index >= 0,
    ;
    assert((run + 1) * width == run * width + width) by (nonlinear_arith);
    if run >= 4 {
        assert(run * width >= 4 * width) by (nonlinear_arith)
            requires
                run >= 4,
                width > 0,
        ;
    }
}

/// Two sequences with the same four parts are the same.
pub proof fn lemma_parts_determine<A>(s: Seq<A>, t: Seq<A>, width: nat)
    requires
        width > 0,
        s.len() <= 4 * width,
        t.len() <= 4 * width,
        part(s, 0, width) == part(t, 0, width),
        part(s, 1, width) == part(t, 1, width),
        part(s, 2, width) == part(t, 2, width),
        part(s, 3, width) == part(t, 3, width),
    ensures
        s == t,
{
    lemma_multiples(width);
    assert(s.len() == part(s, 0, width).len() + part(s, 1, width).len() + part(s, 2, width).len()
        + part(s, 3, width).len());
    assert(t.len() == part(t, 0, width).len() + part(t, 1, width).len() + part(t, 2, width).len()
        + part(t, 3, width).len());
    assert forall|i: int| 0 <= i < s.len() implies s[i] == t[i] by {
        if i < width {
            assert(part(s, 0, width)[i] == s[i]);
            assert(part(t, 0, width)[i] == t[i]);
        } else if i < 2 * width {
            assert(part(s, 1, width)[i - width] == s[i]);
            assert(part(t, 1, width)[i - width] == t[i]);
        } else if i < 3 * width {
            assert(part(s, 2, width)[i - 2 * width] == s[i]);
            assert(part(t, 2, width)[i - 2 * width] == t[i]);
        } else {
            assert(part(s, 3, width)[i - 3 * width] == s[i]);
            assert(part(t, 3, width)[i - 3 * width] == t[i]);
        }
    }
    assert(s =~= t);
}

/// The parts of a sequence in which one element was replaced: the part that
/// holds the element has it replaced, the others are as they were.
pub proof fn lemma_parts_update<A>(s: Seq<A>, index: nat, x: A, width: nat)
    requires
        width > 0,
        index < s.len() <= 4 * width,
    ensures
        forall|i: nat|
            i < 4 ==> #[trigger] part(s.update(index as int, x), i, width) == if i == index
                / width {
                part(s, i, width).update((index % width) as int, x)
            } else {
                part(s, i, width)
            },
{
    lemma_multiples(width);
    lemma_part_index(s, index, width);
    let t = s.update(index as int, x);
    let run = index / width;
    let rest = index % width;
    assert forall|i: nat| i < 4 implies #[trigger] part(t, i, width) == if i == run {
        part(s, i, width).update(rest as int, x)
    } else {
        part(s, i, width)
    } by {
        assert(i == 0 || i == 1 || i == 2 || i == 3);
        assert(run == 0 || run == 1 || run == 2 || run == 3);
        assert(run * width == if run == 0 {
            0
        } else if run == 1 {
            width
        } else if run == 2 {
            2 * width
        } else {
            3 * width
        }) by (nonlinear_arith)
            requires
                run == 0 || run == 1 || run == 2 || run == 3,
        ;
        if i == run {
            assert(part(t, i, width) =~= part(s, i, width).update(rest as int, x));
        } else {
            assert(part(t, i, width) =~= part(s, i, width));
        }
    }
}

/// The parts of a sequence with one more element at its end: the part that
/// the element falls in has it at its end, the others are as they were.
pub proof fn lemma_parts_push<A>(s: Seq<A>, x: A, width: nat)
    requires
        width > 0,
        s.len() < 4 * width,
    ensures
        s.len() / width < 4,
        forall|i: nat|
            i < 4 ==> #[trigger] part(s.push(x), i, width) == if i == s.len() / width {
                part(s, i, width).push(x)
            } else {
                part(s, i, width)
            },
{
    lemma_multiples(width);
    let t = s.push(x);
    let run = s.len() / width;
    let rest = s.len() % width;
    assert(s.len() == run * width + rest && 0 <= rest < width && 0 <= run < 4) by (nonlinear_arith)
        requires
            run == s.len() / width,
            rest == s.len() % width,
            width > 0,
            0 <= s.len() < 4 * width,
    ;
    assert(run * width == if run == 0 {
        0
    } else if run == 1 {
        width
    } else if run == 2 {
        2 * width
    } else {
        3 * width
    }) by (nonlinear_arith)
        requires
            run == 0 || run == 1 || run == 2 || run == 3,
    ;
    assert forall|i: nat| i < 4 implies #[trigger] part(t, i, width) == if i == run {
        part(s, i, width).push(x)
    } else {
        part(s, i, width)
    } by {
        assert(i == 0 || i == 1 || i == 2 || i == 3);
        if i == run {
            assert(part(t, i, width) =~= part(s, i, width).push(x));
        } else {
            assert(part(t, i, width) =~= part(s, i, width));
        }
    }
}

/// The path of the only leaf of a tree: empty siblings at every level.
pub proof fn lemma_path_of_single(base: nat, height: nat, leaf: Seq<u8>)
    ensures
        path_of(base, height, seq![leaf], 0).len() == height,
        forall|level: int|
            0 <= level < height ==> #[trigger] path_of(base, height, seq![leaf], 0)[level] == seq![
                empty_digest((base + level) as nat),
                empty_digest((base + level) as nat),
                empty_digest((base + level) as nat),
            ],
    decreases height,
{
    if height > 0 {
        let below = (height - 1) as nat;
        let width = pow4(below);
        let one = seq![leaf];
        let none = Seq::<Seq<u8>>::empty();
        lemma_pow4_positive(below);
        lemma_multiples(width);
        lemma_root_of_empty(base, below);
        lemma_path_of_single(base, below, leaf);
        assert(one.len() == 1);
        assert(0nat / width == 0 && 0nat % width == 0) by (nonlinear_arith)
            requires
                width > 0,
        ;
        assert(part(one, 0, width) =~= one);
        assert(part(one, 1, width) =~= none);
        assert(part(one, 2, width) =~= none);
        assert(part(one, 3, width) =~= none);
        let empty = empty_digest((base + below) as nat);
        assert(children_of(base, height, one).remove(0) =~= seq![empty, empty, empty]);
    }
}

/// The way from the root of a tree of `height` levels to its leaf at
/// `index`: for each level from the root down, which child to take.
pub open spec fn digits(index: nat, height: nat) -> Seq<u8>
    decreases height,
{
    if height == 0 {
        Seq::empty()
    } else {
        let below = (height - 1) as nat;
        seq![(index / pow4(below)) as u8] + digits(index % pow4(below), below)
    }
}

/// The way to a leaf has one step for each level, and each step names one of
/// four children.
pub proof fn lemma_digits(index: nat, height: nat)
    requires
        index < pow4(height),
    ensures
        digits(index, height).len() == height,
        forall|i: int| 0 <= i < height ==> #[trigger] digits(index, height)[i] < 4,
    decreases height,
{
    if height > 0 {
        let below = (height - 1) as nat;
        let width = pow4(below);
        lemma_pow4_positive(below);
        assert(index / width < 4 && index % width < width) by (nonlinear_arith)
            requires
                width > 0,
                0 <= index < 4 * width,
        ;
        lemma_digits(index % width, below);
    }
}

/// So many empty leaves.
pub open spec fn empties(base: nat, count: nat) -> Seq<Seq<u8>> {
    Seq::new(count, |i: int| empty_digest(base))
}

/// Leaves followed by empty leaves, up to a length.
pub open spec fn padded(base: nat, leaves: Seq<Seq<u8>>, len: nat) -> Seq<Seq<u8>> {
    leaves + empties(base, (len - leaves.len()) as nat)
}

/// Runs of leaves, one after the other.
pub open spec fn joined(chunks: Seq<Seq<Seq<u8>>>) -> Seq<Seq<u8>>
    decreases chunks.len(),
{
    if chunks.len() == 0 {
        Seq::empty()
    } else {
        joined(chunks.drop_last()) + chunks.last()
    }
}

/// The roots of runs of leaves.
pub open spec fn roots_of(base: nat, height: nat, chunks: Seq<Seq<Seq<u8>>>) -> Seq<Seq<u8>> {
    Seq::new(chunks.len(), |i: int| root_of(base, height, chunks[i]))
}

/// Whether each run has the given length.
pub open spec fn uniform(chunks: Seq<Seq<Seq<u8>>>, width: nat) -> bool {
    forall|i: int| 0 <= i < chunks.len() ==> (#[trigger] chunks[i]).len() == width
}

/// The room of a tree over trees is the product of their rooms.
pub proof fn lemma_pow4_add(a: nat, b: nat)
    ensures
        pow4(a + b) == pow4(a) * pow4(b),
    decreases a,
{
    if a > 0 {
        lemma_pow4_add((a - 1) as nat, b);
        assert(pow4(a + b) == 4 * pow4((a - 1 + b) as nat));
        assert(4 * (pow4((a - 1) as nat) * pow4(b)) == (4 * pow4((a - 1) as nat)) * pow4(b))
            by (nonlinear_arith);
    } else {
        assert(1 * pow4(b) == pow4(b)) by (nonlinear_arith);
    }
}

/// Empty leaves at the end are the same as no leaves there.
pub proof fn lemma_root_of_padded(base: nat, height: nat, leaves: Seq<Seq<u8>>, len: nat)
    requires
        leaves.len() <= len <= pow4(height),
    ensures
        root_of(base, height, padded(base, leaves, len)) == root_of(base, height, leaves),
    decreases len - leaves.len(),
{
    if leaves.len() < len {
        let less = padded(base, leaves, (len - 1) as nat);
        lemma_root_of_padded(base, height, leaves, (len - 1) as nat);
        lemma_root_of_push_empty(base, height, less);
        assert(padded(base, leaves, len) =~= less.push(empty_digest(base)));
    } else {
        assert(padded(base, leaves, len) =~= leaves);
    }
}

/// Where the leaves of runs of one length stand when the runs are joined.
pub proof fn lemma_joined_index(chunks: Seq<Seq<Seq<u8>>>, width: nat, run: int, place: int)
    requires
        uniform(chunks, width),
        0 <= run < chunks.len(),
        0 <= place < width,
    ensures
        joined(chunks).len() == chunks.len() * width,
        0 <= run * width + place < joined(chunks).len(),
        joined(chunks)[run * width + place] == chunks[run][place],
    decreases chunks.len(),
{
    lemma_joined_len(chunks, width);
    let count = chunks.len() as int;
    let front = chunks.drop_last();
    assert(0 <= run * width + place < count * width) by (nonlinear_arith)
        requires
            0 <= run < count,
            0 <= place < width,
    ;
    lemma_joined_len(front, width);
    if run < count - 1 {
        lemma_joined_index(front, width, run, place);
    } else {
        assert(run * width == (count - 1) * width);
    }
}

/// The length of runs of one length, joined.
pub proof fn lemma_joined_len(chunks: Seq<Seq<Seq<u8>>>, width: nat)
    requires
        uniform(chunks, width),
    ensures
        joined(chunks).len() == chunks.len() * width,
    decreases chunks.len(),
{
    if chunks.len() > 0 {
        lemma_joined_len(chunks.drop_last(), width);
        assert((chunks.len() - 1) * width + width == chunks.len() * width) by (nonlinear_arith);
    } else {
        assert(0 * width == 0) by (nonlinear_arith);
    }
}

/// A stretch of whole runs out of runs that were joined is those runs,
/// joined.
pub proof fn lemma_joined_part(chunks: Seq<Seq<Seq<u8>>>, width: nat, lo: int, hi: int)
    requires
        uniform(chunks, width),
        0 <= lo <= hi <= chunks.len(),
    ensures
        0 <= lo * width <= hi * width <= joined(chunks).len(),
        joined(chunks).subrange(lo * width, hi * width) == joined(chunks.subrange(lo, hi)),
{
    let some = chunks.subrange(lo, hi);
    let count = chunks.len() as int;
    lemma_joined_len(chunks, width);
    lemma_joined_len(some, width);
    assert(0 <= lo * width <= hi * width <= count * width && (hi - lo) * width == hi * width - lo
        * width) by (nonlinear_arith)
        requires
            0 <= lo <= hi <= count,
    ;
    let left = joined(chunks).subrange(lo * width, hi * width);
    let right = joined(some);
    assert(left.len() == right.len());
    assert forall|x: int| 0 <= x < left.len() implies left[x] == right[x] by {
        if width > 0 {
            let run = x / (width as int);
            let place = x % (width as int);
            assert(x == run * width + place && 0 <= place < width && 0 <= run < hi - lo)
                by (nonlinear_arith)
                requires
                    run == x / (width as int),
                    place == x % (width as int),
                    width > 0,
                    0 <= x < (hi - lo) * width,
            ;
            lemma_joined_index(some, width, run, place);
            lemma_joined_index(chunks, width, lo + run, place);
            assert((lo + run) * width + place == lo * width + x) by (nonlinear_arith)
                requires
                    x == run * width + place,
            ;
        }
    }
    assert(left =~= right);
}

/// Trees over trees: the root of runs of leaves, each run as long as a tree
/// of `low` levels holds, joined under a tree of `high + low` levels, is the
/// root of the roots of the runs under a tree of `high` levels.
pub proof fn lemma_root_of_joined(base: nat, high: nat, low: nat, chunks: Seq<Seq<Seq<u8>>>)
    requires
        uniform(chunks, pow4(low)),
        chunks.len() <= pow4(high),
    ensures
        root_of(base, high + low, joined(chunks)) == root_of(
            base + low,
            high,
            roots_of(base, low, chunks),
        ),
    decreases high,
{
    let all = joined(chunks);
    let roots = roots_of(base, low, chunks);
    let width = pow4(low);
    lemma_pow4_positive(low);
    if high == 0 {
        lemma_root_of_empty(base, low);
        if chunks.len() == 1 {
            reveal_with_fuel(joined, 2);
            assert(chunks.drop_last().len() == 0);
            assert(all =~= chunks[0]);
        }
    } else {
        let below = (high - 1) as nat;
        let span = pow4(below);
        let wide = pow4(below + low);
        let count = chunks.len();
        lemma_pow4_add(below, low);
        lemma_pow4_positive(below);
        lemma_multiples(span);
        lemma_multiples(wide);
        lemma_joined_len(chunks, width);
        assert(wide == span * width);
        assert forall|i: nat| i < 4 implies root_of(base, below + low, #[trigger] part(all, i, wide))
            == root_of(base + low, below, part(roots, i, span)) by {
            assert(i == 0 || i == 1 || i == 2 || i == 3);
            let lo = if i * span < count {
                i * span
            } else {
                count
            };
            let hi = if (i + 1) * span < count {
                (i + 1) * span
            } else {
                count
            };
            let some = chunks.subrange(lo as int, hi as int);
            assert(part(chunks, i, span) == some);
            assert((i * span) * width == i * wide && ((i + 1) * span) * width == (i + 1) * wide)
                by (nonlinear_arith)
                requires
                    wide == span * width,
            ;
            assert((i * span < count) == (i * wide < count * width) && ((i + 1) * span < count)
                == ((i + 1) * wide < count * width)) by (nonlinear_arith)
                requires
                    (i * span) * width == i * wide,
                    ((i + 1) * span) * width == (i + 1) * wide,
                    width > 0,
            ;
            lemma_joined_part(chunks, width, lo as int, hi as int);
            assert(part(all, i, wide) == joined(some));
            assert(part(roots, i, span) =~= roots_of(base, low, some));
            lemma_root_of_joined(base, below, low, some);
        }
        assert(part(all, 0, wide) == part(all, 0, wide));
        assert(part(all, 1, wide) == part(all, 1, wide));
        assert(part(all, 2, wide) == part(all, 2, wide));
        assert(part(all, 3, wide) == part(all, 3, wide));
        assert((high + low - 1) as nat == below + low);
    }
}

} // verus!
