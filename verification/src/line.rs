//! Sliding one line of four cells toward its front: the tiles close up,
//! and two equal neighbours merge into one tile of twice the value.
use vstd::prelude::*;

verus! {

/// What a cell holds seen as a tile sequence: one tile or none.
pub open spec fn cell_tiles(cell: Option<int>) -> Seq<int> {
    match cell {
        Some(v) => seq![v],
        None => Seq::empty(),
    }
}

/// The tiles of a line, front first, with the empty cells left out.
pub open spec fn tiles(line: Seq<Option<int>>) -> Seq<int>
    decreases line.len(),
{
    if line.len() == 0 {
        Seq::empty()
    } else {
        cell_tiles(line[0]) + tiles(line.drop_first())
    }
}

/// Merges the tiles front to back: two equal neighbours become one tile
/// of their sum, and a tile made by a merge does not merge again.
pub open spec fn merge_pairs(t: Seq<int>) -> Seq<int>
    decreases t.len(),
{
    if t.len() < 2 {
        t
    } else if t[0] == t[1] {
        seq![t[0] + t[1]] + merge_pairs(t.skip(2))
    } else {
        seq![t[0]] + merge_pairs(t.drop_first())
    }
}

/// `n` cells holding the tiles `t` at the front and nothing behind them.
pub open spec fn pack(t: Seq<int>, n: nat) -> Seq<Option<int>> {
    Seq::new(n, |i: int| if i < t.len() { Some(t[i]) } else { None })
}

/// The line after a slide toward its front.
pub open spec fn slide(line: Seq<Option<int>>) -> Seq<Option<int>> {
    pack(merge_pairs(tiles(line)), line.len())
}

/// A cell of a line buffer seen as a mathematical value.
pub open spec fn lift_cell(c: Option<i64>) -> Option<int> {
    match c {
        Some(v) => Some(v as int),
        None => None,
    }
}

/// A line buffer seen as a sequence of cells.
pub open spec fn lift(line: [Option<i64>; 4]) -> Seq<Option<int>> {
    Seq::new(4, |i: int| lift_cell(line@[i]))
}

/// The cell holds nothing, or a value that an `i32` can hold.
pub open spec fn in_i32(c: Option<int>) -> bool {
    match c {
        Some(v) => i32::MIN <= v <= i32::MAX,
        None => true,
    }
}

proof fn lemma_tiles_skip(l: Seq<Option<int>>, i: int)
    requires
        0 <= i < l.len(),
    ensures
        tiles(l.skip(i)) == cell_tiles(l[i]) + tiles(l.skip(i + 1)),
{
    assert(l.skip(i).drop_first() =~= l.skip(i + 1));
    assert(l.skip(i)[0] == l[i]);
}

proof fn lemma_tiles_empty_run(l: Seq<Option<int>>, a: int, b: int)
    requires
        0 <= a <= b <= l.len(),
        forall|k: int| a <= k < b ==> l[k] is None,
    ensures
        tiles(l.skip(a)) == tiles(l.skip(b)),
    decreases b - a,
{
    if a < b {
        lemma_tiles_skip(l, a);
        lemma_tiles_empty_run(l, a + 1, b);
        assert(cell_tiles(l[a]) + tiles(l.skip(a + 1)) =~= tiles(l.skip(a + 1)));
    }
}

/// What holds between the two cursors of `slide_line` while it runs over
/// the line `l`, which started as `l0`: the cells from `it` on are untouched,
/// those strictly between `dest` and `it` are empty, the cells before `dest`
/// hold the finished tiles `done`, and what is left to merge gives the rest.
spec fn slide_progress(l0: Seq<Option<int>>, l: Seq<Option<int>>, done: Seq<int>, dest: int, it: int) -> bool {
    &&& l.len() == 4
    &&& l0.len() == 4
    &&& 0 <= dest <= it <= 4
    &&& dest < 4
    &&& forall|k: int| it <= k < 4 ==> l[k] == l0[k]
    &&& forall|k: int| dest < k < it ==> #[trigger] l[k] is None
    &&& done.len() == dest
    &&& forall|k: int| 0 <= k < dest ==> #[trigger] l[k] == Some(done[k])
    &&& merge_pairs(tiles(l0)) == done + merge_pairs(tiles(l.skip(dest)))
    &&& forall|k: int| dest <= k < 4 ==> in_i32(#[trigger] l[k])
}

/// A tile moves from `it` into the empty cell `dest`.
proof fn lemma_step_shift(l0: Seq<Option<int>>, l: Seq<Option<int>>, done: Seq<int>, dest: int, it: int)
    requires
        slide_progress(l0, l, done, dest, it),
        dest < it < 4,
        l[dest] is None,
        l[it] is Some,
    ensures
        slide_progress(l0, l.update(dest, l[it]).update(it, None), done, dest, it + 1),
        l.update(dest, l[it]).update(it, None) != l0,
{
    let l2 = l.update(dest, l[it]).update(it, None);
    assert(l2[it] != l0[it]);
    lemma_tiles_skip(l, dest);
    lemma_tiles_empty_run(l, dest + 1, it);
    lemma_tiles_skip(l, it);
    lemma_tiles_skip(l2, dest);
    lemma_tiles_empty_run(l2, dest + 1, it + 1);
    assert(l2.skip(it + 1) =~= l.skip(it + 1));
    assert(cell_tiles(l[dest]) + (cell_tiles(l[it]) + tiles(l.skip(it + 1)))
        =~= cell_tiles(l2[dest]) + tiles(l2.skip(it + 1)));
}

/// The tile at `it` merges into the equal tile at `dest`.
proof fn lemma_step_merge(l0: Seq<Option<int>>, l: Seq<Option<int>>, done: Seq<int>, dest: int, it: int, d: int)
    requires
        slide_progress(l0, l, done, dest, it),
        dest < it < 4,
        l[dest] == Some(d),
        l[it] == Some(d),
    ensures
        slide_progress(l0, l.update(dest, Some(d + d)).update(it, None), done.push(d + d), dest + 1, it + 1),
        l.update(dest, Some(d + d)).update(it, None) != l0,
{
    let l2 = l.update(dest, Some(d + d)).update(it, None);
    assert(l2[it] != l0[it]);
    lemma_tiles_skip(l, dest);
    lemma_tiles_empty_run(l, dest + 1, it);
    lemma_tiles_skip(l, it);
    let r = tiles(l.skip(it + 1));
    let t = seq![d, d] + r;
    assert(tiles(l.skip(dest)) =~= t);
    assert(t.skip(2) =~= r);
    lemma_tiles_empty_run(l2, dest + 1, it + 1);
    assert(l2.skip(it + 1) =~= l.skip(it + 1));
    assert(done.push(d + d) + merge_pairs(r) =~= done + (seq![d + d] + merge_pairs(r)));
}

/// The tiles at `dest` and `it` differ: the tile at `dest` is finished.
proof fn lemma_step_keep(l0: Seq<Option<int>>, l: Seq<Option<int>>, done: Seq<int>, dest: int, it: int, d: int, o: int)
    requires
        slide_progress(l0, l, done, dest, it),
        dest < it < 4,
        l[dest] == Some(d),
        l[it] == Some(o),
        d != o,
    ensures
        slide_progress(l0, l, done.push(d), dest + 1, it),
{
    lemma_tiles_skip(l, dest);
    lemma_tiles_empty_run(l, dest + 1, it);
    lemma_tiles_skip(l, it);
    let r = tiles(l.skip(it + 1));
    let t = seq![d, o] + r;
    assert(tiles(l.skip(dest)) =~= t);
    assert(t.drop_first() =~= seq![o] + r);
    lemma_tiles_skip(l, dest + 1);
    assert(done.push(d) + merge_pairs(seq![o] + r) =~= done + (seq![d] + merge_pairs(seq![o] + r)));
}

/// Once `it` has passed the end, the line is the slide of `l0`.
proof fn lemma_slide_done(l0: Seq<Option<int>>, l: Seq<Option<int>>, done: Seq<int>, dest: int)
    requires
        slide_progress(l0, l, done, dest, 4),
    ensures
        l == slide(l0),
{
    lemma_tiles_skip(l, dest);
    lemma_tiles_empty_run(l, dest + 1, 4);
    assert(l.skip(4).len() == 0);
    let m = merge_pairs(tiles(l0));
    assert(m =~= done + cell_tiles(l[dest]));
    assert(l =~= pack(m, 4));
}

/// Slides the line toward index 0 with two cursors: `dest` is the cell that
/// the next tile lands on or merges into, and `it` walks over the tiles
/// behind it. Returns whether any cell changed.
pub fn slide_line(line: &mut [Option<i64>; 4]) -> (changed: bool)
    requires
        forall|i: int| 0 <= i < 4 ==> in_i32(#[trigger] lift(*old(line))[i]),
    ensures
        lift(*final(line)) == slide(lift(*old(line))),
        changed == (lift(*final(line)) != lift(*old(line))),
{
    let ghost l0 = lift(*line);
    let ghost mut done: Seq<int> = Seq::empty();
    let mut changed = false;
    let mut dest: usize = 0;
    let mut it: usize = 0;
    assert(lift(*line).skip(0) =~= l0);
    while it < 4
        invariant
            slide_progress(l0, lift(*line), done, dest as int, it as int),
            changed == (lift(*line) != l0),
        decreases 8 - it - dest,
    {
        let ghost l = lift(*line);
        if dest != it {
            match (line[dest], line[it]) {
                (None, Some(o)) => {
                    proof {
                        lemma_step_shift(l0, l, done, dest as int, it as int);
                    }
                    line[dest] = Some(o);
                    line[it] = None;
                    changed = true;
                    assert(lift(*line) =~= l.update(dest as int, l[it as int]).update(it as int, None));
                },
                (Some(d), Some(o)) => {
                    if d == o {
                        proof {
                            lemma_step_merge(l0, l, done, dest as int, it as int, d as int);
                            done = done.push(d + d);
                        }
                        line[dest] = Some(d + o);
                        line[it] = None;
                        changed = true;
                        assert(lift(*line) =~= l.update(dest as int, Some(d + d)).update(it as int, None));
                        dest = dest + 1;
                    } else {
                        proof {
                            lemma_step_keep(l0, l, done, dest as int, it as int, d as int, o as int);
                            done = done.push(d as int);
                        }
                        dest = dest + 1;
                        continue;
                    }
                },
                _ => {},
            }
        }
        it = it + 1;
    }
    proof {
        lemma_slide_done(l0, lift(*line), done, dest as int);
    }
    changed
}

/// What a cell adds to the sum of the tiles.
pub open spec fn value_of(c: Option<int>) -> int {
    match c {
        Some(v) => v,
        None => 0,
    }
}

/// The sum of the tiles in a line.
pub open spec fn line_sum(l: Seq<Option<int>>) -> int
    decreases l.len(),
{
    if l.len() == 0 {
        0
    } else {
        value_of(l[0]) + line_sum(l.drop_first())
    }
}

/// The sum of a sequence of tiles.
pub open spec fn seq_total(t: Seq<int>) -> int
    decreases t.len(),
{
    if t.len() == 0 {
        0
    } else {
        t[0] + seq_total(t.drop_first())
    }
}

proof fn lemma_seq_total_concat(a: Seq<int>, b: Seq<int>)
    ensures
        seq_total(a + b) == seq_total(a) + seq_total(b),
    decreases a.len(),
{
    if a.len() == 0 {
        assert(a + b =~= b);
    } else {
        assert((a + b).drop_first() =~= a.drop_first() + b);
        lemma_seq_total_concat(a.drop_first(), b);
    }
}

proof fn lemma_tiles_total(l: Seq<Option<int>>)
    ensures
        seq_total(tiles(l)) == line_sum(l),
        tiles(l).len() <= l.len(),
    decreases l.len(),
{
    if l.len() > 0 {
        lemma_tiles_total(l.drop_first());
        lemma_seq_total_concat(cell_tiles(l[0]), tiles(l.drop_first()));
        if let Some(v) = l[0] {
            assert(seq![v].drop_first() =~= Seq::<int>::empty());
            assert(seq_total(seq![v]) == v + seq_total(Seq::<int>::empty()));
        } else {
            assert(seq_total(cell_tiles(l[0])) == 0);
        }
    }
}

proof fn lemma_merge_total(t: Seq<int>)
    ensures
        seq_total(merge_pairs(t)) == seq_total(t),
        merge_pairs(t).len() <= t.len(),
    decreases t.len(),
{
    if t.len() >= 2 {
        if t[0] == t[1] {
            lemma_merge_total(t.skip(2));
            assert(t.drop_first().drop_first() =~= t.skip(2));
            assert(seq_total(t.drop_first()) == t[1] + seq_total(t.drop_first().drop_first()));
            lemma_seq_total_concat(seq![t[0] + t[1]], merge_pairs(t.skip(2)));
            assert(seq![t[0] + t[1]].drop_first() =~= Seq::<int>::empty());
            assert(seq_total(seq![t[0] + t[1]]) == t[0] + t[1] + seq_total(Seq::<int>::empty()));
        } else {
            lemma_merge_total(t.drop_first());
            lemma_seq_total_concat(seq![t[0]], merge_pairs(t.drop_first()));
            assert(seq![t[0]].drop_first() =~= Seq::<int>::empty());
            assert(seq_total(seq![t[0]]) == t[0] + seq_total(Seq::<int>::empty()));
        }
    }
}

proof fn lemma_pack_total(t: Seq<int>, n: nat)
    requires
        t.len() <= n,
    ensures
        line_sum(pack(t, n)) == seq_total(t),
    decreases n,
{
    if n > 0 {
        if t.len() == 0 {
            assert(pack(t, n).drop_first() =~= pack(t, (n - 1) as nat));
            lemma_pack_total(t, (n - 1) as nat);
        } else {
            assert(pack(t, n).drop_first() =~= pack(t.drop_first(), (n - 1) as nat));
            lemma_pack_total(t.drop_first(), (n - 1) as nat);
        }
    }
}

/// A slide keeps the sum of the tiles of a line: a merge puts the sum of
/// two tiles in their place.
pub proof fn lemma_slide_keeps_sum(l: Seq<Option<int>>)
    ensures
        line_sum(slide(l)) == line_sum(l),
{
    lemma_tiles_total(l);
    lemma_merge_total(tiles(l));
    lemma_pack_total(merge_pairs(tiles(l)), l.len());
}

/// After a slide no tile stands behind an empty cell.
pub proof fn lemma_slide_packs(l: Seq<Option<int>>)
    ensures
        forall|i: int, j: int| 0 <= i < j < l.len() && (#[trigger] slide(l)[i]) is None ==> (#[trigger] slide(l)[j]) is None,
{
}

proof fn lemma_full_tiles(l: Seq<Option<int>>)
    requires
        forall|i: int| 0 <= i < l.len() ==> #[trigger] l[i] is Some,
    ensures
        tiles(l).len() == l.len(),
        forall|i: int| 0 <= i < l.len() ==> Some(#[trigger] tiles(l)[i]) == l[i],
    decreases l.len(),
{
    if l.len() > 0 {
        lemma_full_tiles(l.drop_first());
        assert forall|i: int| 0 <= i < l.len() implies Some(#[trigger] tiles(l)[i]) == l[i] by {
            if i > 0 {
                assert(l.drop_first()[i - 1] == l[i]);
            }
        }
    }
}

proof fn lemma_merge_distinct(t: Seq<int>)
    requires
        forall|i: int| 0 <= i < t.len() - 1 ==> #[trigger] t[i] != t[i + 1],
    ensures
        merge_pairs(t) == t,
    decreases t.len(),
{
    if t.len() >= 2 {
        assert forall|i: int| 0 <= i < t.drop_first().len() - 1 implies #[trigger] t.drop_first()[i] != t.drop_first()[i + 1] by {
            assert(t[i + 1] != t[i + 2]);
        }
        lemma_merge_distinct(t.drop_first());
        assert(t[0] != t[1]);
        assert(seq![t[0]] + t.drop_first() =~= t);
    }
}

proof fn lemma_merge_shortens(t: Seq<int>, i: int)
    requires
        0 <= i < t.len() - 1,
        t[i] == t[i + 1],
    ensures
        merge_pairs(t).len() < t.len(),
    decreases t.len(),
{
    if t[0] == t[1] {
        lemma_merge_total(t.skip(2));
    } else {
        assert(i >= 1);
        assert(t.drop_first()[i - 1] == t.drop_first()[i]);
        lemma_merge_shortens(t.drop_first(), i - 1);
    }
}

/// A line of four tiles changes in a slide exactly when two neighbours are equal.
pub proof fn lemma_full_line_slide(l: Seq<Option<int>>)
    requires
        l.len() == 4,
        forall|i: int| 0 <= i < 4 ==> #[trigger] l[i] is Some,
    ensures
        slide(l) != l <==> exists|i: int| 0 <= i < 3 && #[trigger] l[i] == l[i + 1],
{
    lemma_full_tiles(l);
    let t = tiles(l);
    if exists|i: int| 0 <= i < 3 && #[trigger] l[i] == l[i + 1] {
        let i = choose|i: int| 0 <= i < 3 && #[trigger] l[i] == l[i + 1];
        assert(Some(t[i]) == l[i] && Some(t[i + 1]) == l[i + 1]);
        lemma_merge_shortens(t, i);
        assert(slide(l)[3] is None);
    } else {
        assert forall|i: int| 0 <= i < t.len() - 1 implies #[trigger] t[i] != t[i + 1] by {
            assert(Some(t[i]) == l[i] && Some(t[i + 1]) == l[i + 1]);
            assert(l[i] != l[i + 1]);
        }
        lemma_merge_distinct(t);
        assert(slide(l) =~= l);
    }
}

/// The sum of the tiles of a line of four cells, written out.
pub open spec fn sum4(l: Seq<Option<int>>) -> int {
    value_of(l[0]) + value_of(l[1]) + value_of(l[2]) + value_of(l[3])
}

/// For a line of four cells `line_sum` is `sum4`.
pub proof fn lemma_line_sum4(l: Seq<Option<int>>)
    requires
        l.len() == 4,
    ensures
        line_sum(l) == sum4(l),
{
    let l1 = l.drop_first();
    let l2 = l1.drop_first();
    let l3 = l2.drop_first();
    let l4 = l3.drop_first();
    assert(line_sum(l4) == 0);
    assert(line_sum(l3) == value_of(l[3]) + line_sum(l4));
    assert(line_sum(l2) == value_of(l[2]) + line_sum(l3));
    assert(line_sum(l1) == value_of(l[1]) + line_sum(l2));
}

proof fn lemma_tiles_len_full(l: Seq<Option<int>>)
    requires
        tiles(l).len() == l.len(),
    ensures
        forall|i: int| 0 <= i < l.len() ==> #[trigger] l[i] is Some,
    decreases l.len(),
{
    if l.len() > 0 {
        lemma_tiles_total(l.drop_first());
        lemma_tiles_len_full(l.drop_first());
        assert forall|i: int| 0 <= i < l.len() implies #[trigger] l[i] is Some by {
            if i > 0 {
                assert(l.drop_first()[i - 1] == l[i]);
            }
        }
    }
}

/// A slide that changes a line of four cells leaves its last cell empty:
/// either two tiles merged, or a tile moved up into an empty cell.
pub proof fn lemma_changed_slide_frees_last(l: Seq<Option<int>>)
    requires
        l.len() == 4,
        slide(l) != l,
    ensures
        slide(l)[3] is None,
{
    let t = tiles(l);
    lemma_tiles_total(l);
    lemma_merge_total(t);
    if merge_pairs(t).len() == 4 {
        lemma_tiles_len_full(l);
        if exists|i: int| 0 <= i < 3 && #[trigger] l[i] == l[i + 1] {
            lemma_full_tiles(l);
            let i = choose|i: int| 0 <= i < 3 && #[trigger] l[i] == l[i + 1];
            assert(Some(t[i]) == l[i] && Some(t[i + 1]) == l[i + 1]);
            lemma_merge_shortens(t, i);
        }
        lemma_full_line_slide(l);
    }
}

/// One for a tile, zero for an empty cell.
pub open spec fn tile_mark(c: Option<int>) -> int {
    if c is Some {
        1
    } else {
        0
    }
}

/// The number of tiles in a line of four cells, written out.
pub open spec fn count4(l: Seq<Option<int>>) -> int {
    tile_mark(l[0]) + tile_mark(l[1]) + tile_mark(l[2]) + tile_mark(l[3])
}

proof fn lemma_tiles_count4(l: Seq<Option<int>>)
    requires
        l.len() == 4,
    ensures
        tiles(l).len() == count4(l),
{
    let l1 = l.drop_first();
    let l2 = l1.drop_first();
    let l3 = l2.drop_first();
    let l4 = l3.drop_first();
    assert(tiles(l4).len() == 0);
    assert(tiles(l3).len() == tile_mark(l[3]) + tiles(l4).len());
    assert(tiles(l2).len() == tile_mark(l[2]) + tiles(l3).len());
    assert(tiles(l1).len() == tile_mark(l[1]) + tiles(l2).len());
    assert(tiles(l).len() == tile_mark(l[0]) + tiles(l1).len());
}

/// A slide never adds a tile to a line; each merge takes one away.
pub proof fn lemma_slide_keeps_or_drops_tiles(l: Seq<Option<int>>)
    requires
        l.len() == 4,
    ensures
        count4(slide(l)) <= count4(l),
{
    lemma_tiles_count4(l);
    lemma_merge_total(tiles(l));
    let m = merge_pairs(tiles(l));
    assert(count4(slide(l)) == m.len());
}

} // verus!
