use vstd::prelude::*;

verus! {

/// Number of cells in one row or column.
pub const LINE_LEN: usize = 4;

/// A value whose double still fits in an `i32`.
pub open spec fn doubles_fit(v: i32) -> bool {
    -0x4000_0000 <= v <= 0x3fff_ffff
}

/// Every value of `s` can be doubled without overflow.
pub open spec fn all_double_fit(s: Seq<i32>) -> bool {
    forall|k: int| 0 <= k < s.len() ==> doubles_fit(#[trigger] s[k])
}

/// Two to the power `n`.
pub open spec fn pow2(n: nat) -> int
    decreases n,
{
    if n == 0 {
        1
    } else {
        2 * pow2((n - 1) as nat)
    }
}

/// A cell value the game can hold: empty (`0`) or a power of two of at least 2.
pub open spec fn is_tile(v: i32) -> bool {
    v == 0 || exists|n: nat| n >= 1 && v == pow2(n)
}

/// Every value of `s` is a tile value.
pub open spec fn all_tiles(s: Seq<i32>) -> bool {
    forall|k: int| 0 <= k < s.len() ==> is_tile(#[trigger] s[k])
}

/// The merge pass over a line, walking from its far end towards its start:
/// the cells before position `k` are still to be visited, and `open` is the
/// position of the unmerged candidate (`-1` when there is none).
/// Returns the line after the pass and whether a merge happened.
pub open spec fn merge_from(s: Seq<i32>, k: int, open: int) -> (Seq<i32>, bool)
    decreases k,
{
    if k <= 0 || k > s.len() {
        (s, false)
    } else if s[k - 1] == 0 {
        merge_from(s, k - 1, open)
    } else if 0 <= open < s.len() && s[open] == s[k - 1] {
        let r = merge_from(s.update(open, 0).update(k - 1, (2 * s[k - 1]) as i32), k - 1, -1);
        (r.0, true)
    } else {
        merge_from(s, k - 1, k - 1)
    }
}

/// The line after one merge pass from its start.
pub open spec fn merge_line(s: Seq<i32>) -> Seq<i32> {
    merge_from(s, s.len() as int, -1).0
}

/// Whether one merge pass from its start merges any pair.
pub open spec fn merge_changes(s: Seq<i32>) -> bool {
    merge_from(s, s.len() as int, -1).1
}

/// The non-zero values of `s`, in order.
pub open spec fn nonzeros(s: Seq<i32>) -> Seq<i32>
    decreases s.len(),
{
    if s.len() == 0 {
        Seq::empty()
    } else if s[0] == 0 {
        nonzeros(s.skip(1))
    } else {
        seq![s[0]] + nonzeros(s.skip(1))
    }
}

/// `n` empty cells.
pub open spec fn zeros(n: nat) -> Seq<i32> {
    Seq::new(n, |i: int| 0i32)
}

/// The line with its non-zero values slid, in order, to its far end.
pub open spec fn pack_line(s: Seq<i32>) -> Seq<i32> {
    zeros((s.len() - nonzeros(s).len()) as nat) + nonzeros(s)
}

/// One line of a move: merge, then pack.
pub open spec fn slide_line(s: Seq<i32>) -> Seq<i32> {
    pack_line(merge_line(s))
}

/// Whether a move changes the line: a pair merged or a value slid.
pub open spec fn slide_changes(s: Seq<i32>) -> bool {
    merge_changes(s) || pack_line(merge_line(s)) != merge_line(s)
}

proof fn lemma_nonzeros_len(s: Seq<i32>)
    ensures
        nonzeros(s).len() <= s.len(),
    decreases s.len(),
{
    if s.len() > 0 {
        lemma_nonzeros_len(s.skip(1));
    }
}

/// Every value that survives packing is a non-zero tile of the line.
proof fn lemma_nonzeros_tiles(s: Seq<i32>)
    requires
        all_tiles(s),
    ensures
        forall|k: int|
            0 <= k < nonzeros(s).len() ==> #[trigger] nonzeros(s)[k] != 0 && is_tile(
                nonzeros(s)[k],
            ),
    decreases s.len(),
{
    if s.len() > 0 {
        let t = s.skip(1);
        assert(all_tiles(t)) by {
            assert forall|k: int| 0 <= k < t.len() implies is_tile(#[trigger] t[k]) by {
                assert(t[k] == s[k + 1]);
            }
        }
        lemma_nonzeros_tiles(t);
        if s[0] == 0 {
            assert(nonzeros(s) == nonzeros(t));
        } else {
            assert(nonzeros(s) == seq![s[0]] + nonzeros(t));
            assert(is_tile(s[0]));
            assert forall|k: int| 0 <= k < nonzeros(s).len() implies #[trigger] nonzeros(s)[k]
                != 0 && is_tile(nonzeros(s)[k]) by {
                if k > 0 {
                    assert(nonzeros(s)[k] == nonzeros(t)[k - 1]);
                } else {
                    assert(nonzeros(s)[0] == s[0]);
                }
            }
        }
    }
}

/// A merge pass that merges nothing leaves the line as it is.
proof fn lemma_merge_from_unchanged(s: Seq<i32>, k: int, open: int)
    ensures
        !merge_from(s, k, open).1 ==> merge_from(s, k, open).0 == s,
    decreases k,
{
    if k <= 0 || k > s.len() {
    } else if s[k - 1] == 0 {
        lemma_merge_from_unchanged(s, k - 1, open);
    } else if 0 <= open < s.len() && s[open] == s[k - 1] {
    } else {
        lemma_merge_from_unchanged(s, k - 1, k - 1);
    }
}

/// A merge pass keeps the length of the line.
proof fn lemma_merge_from_len(s: Seq<i32>, k: int, open: int)
    ensures
        merge_from(s, k, open).0.len() == s.len(),
    decreases k,
{
    if k <= 0 || k > s.len() {
    } else if s[k - 1] == 0 {
        lemma_merge_from_len(s, k - 1, open);
    } else if 0 <= open < s.len() && s[open] == s[k - 1] {
        lemma_merge_from_len(
            s.update(open, 0).update(k - 1, (2 * s[k - 1]) as i32),
            k - 1,
            -1,
        );
    } else {
        lemma_merge_from_len(s, k - 1, k - 1);
    }
}

/// Merging keeps every value a tile value, as long as each one can double.
proof fn lemma_merge_from_tiles(s: Seq<i32>, k: int, open: int)
    requires
        all_tiles(s),
        k <= s.len(),
        open == -1 || k <= open,
        forall|j: int| 0 <= j < k ==> doubles_fit(#[trigger] s[j]),
    ensures
        all_tiles(merge_from(s, k, open).0),
    decreases k,
{
    if k <= 0 || k > s.len() {
    } else if s[k - 1] == 0 {
        lemma_merge_from_tiles(s, k - 1, open);
    } else if 0 <= open < s.len() && s[open] == s[k - 1] {
        let n = choose|n: nat| n >= 1 && s[k - 1] == pow2(n);
        assert(2 * s[k - 1] == pow2(n + 1));
        let t = s.update(open, 0).update(k - 1, (2 * s[k - 1]) as i32);
        assert(is_tile(t[k - 1]));
        assert(is_tile(0i32));
        assert(all_tiles(t)) by {
            assert forall|j: int| 0 <= j < t.len() implies is_tile(#[trigger] t[j]) by {
                if j != k - 1 && j != open {
                    assert(t[j] == s[j]);
                }
            }
        }
        assert forall|j: int| 0 <= j < k - 1 implies doubles_fit(#[trigger] t[j]) by {
            assert(t[j] == s[j]);
        }
        lemma_merge_from_tiles(t, k - 1, -1);
    } else {
        lemma_merge_from_tiles(s, k - 1, k - 1);
    }
}

/// Packing keeps every value a tile value.
proof fn lemma_pack_tiles(s: Seq<i32>)
    requires
        all_tiles(s),
    ensures
        all_tiles(pack_line(s)),
{
    lemma_nonzeros_len(s);
    lemma_nonzeros_tiles(s);
    let z = zeros((s.len() - nonzeros(s).len()) as nat);
    assert(is_tile(0i32));
    assert forall|j: int| 0 <= j < pack_line(s).len() implies is_tile(#[trigger] pack_line(s)[j]) by {
        if j < z.len() {
            assert(pack_line(s)[j] == z[j]);
        } else {
            assert(pack_line(s)[j] == nonzeros(s)[j - z.len()]);
        }
    }
}

/// A move over a line of tile values, each of which can double, leaves only tile values.
pub proof fn lemma_slide_tiles(s: Seq<i32>)
    requires
        all_tiles(s),
        all_double_fit(s),
    ensures
        all_tiles(slide_line(s)),
        slide_line(s).len() == s.len(),
{
    lemma_merge_from_tiles(s, s.len() as int, -1);
    lemma_merge_from_len(s, s.len() as int, -1);
    lemma_pack_tiles(merge_line(s));
    lemma_nonzeros_len(merge_line(s));
}

/// A line that merges nothing and has no gap before its far end is left as it is.
pub proof fn lemma_slide_unchanged(s: Seq<i32>)
    ensures
        !slide_changes(s) ==> slide_line(s) == s,
{
    lemma_merge_from_unchanged(s, s.len() as int, -1);
}

/// Merges the line in place, walking from its far end towards its start:
/// each non-zero value that equals the open candidate met just before it
/// (empty cells aside) takes the doubled value, the candidate becomes empty,
/// and a merged value merges no further in the same pass.
pub fn merge(line: &mut [i32; 4]) -> (changed: bool)
    requires
        all_double_fit(old(line)@),
    ensures
        final(line)@ == merge_line(old(line)@),
        changed == merge_changes(old(line)@),
{
    let ghost start = line@;
    let mut changed = false;
    let mut open: usize = LINE_LEN;
    let mut k: usize = LINE_LEN;
    while k > 0
        invariant
            k <= LINE_LEN,
            open == LINE_LEN || (k <= open < LINE_LEN && line@[open as int] != 0),
            line@.len() == LINE_LEN,
            forall|j: int| 0 <= j < k ==> doubles_fit(#[trigger] line@[j]),
            merge_from(line@, k as int, if open == LINE_LEN { -1 } else { open as int }).0
                == merge_line(start),
            (changed || merge_from(
                line@,
                k as int,
                if open == LINE_LEN { -1 } else { open as int },
            ).1) == merge_changes(start),
        decreases k,
    {
        k = k - 1;
        let v = line[k];
        if v == 0 {
        } else if open < LINE_LEN && line[open] == v {
            line[open] = 0;
            line[k] = 2 * v;
            open = LINE_LEN;
            changed = true;
        } else {
            open = k;
        }
    }
    changed
}

/// Slides the non-zero values of the line, in order, to its far end,
/// leaving no gap between them or at that end.
pub fn pack(line: &mut [i32; 4]) -> (changed: bool)
    ensures
        final(line)@ == pack_line(old(line)@),
        changed == (pack_line(old(line)@) != old(line)@),
{
    let ghost start = line@;
    let mut changed = false;
    let mut w: usize = LINE_LEN;
    let mut r: usize = LINE_LEN;
    while r > 0
        invariant
            r <= w <= LINE_LEN,
            line@.len() == LINE_LEN,
            start.len() == LINE_LEN,
            line@.subrange(w as int, LINE_LEN as int) == nonzeros(
                start.subrange(r as int, LINE_LEN as int),
            ),
            forall|j: int| r <= j < w ==> #[trigger] line@[j] == 0,
            forall|j: int| 0 <= j < r ==> #[trigger] line@[j] == start[j],
            changed == !(line@ =~= start),
        decreases r,
    {
        r = r - 1;
        let v = line[r];
        let ghost before = line@;
        assert(start.subrange(r as int, LINE_LEN as int).skip(1) =~= start.subrange(
            r + 1,
            LINE_LEN as int,
        ));
        if v != 0 {
            w = w - 1;
            if w != r {
                line[w] = v;
                line[r] = 0;
                changed = true;
                assert(line@[r as int] != start[r as int]);
            }
            assert(line@.subrange(w as int, LINE_LEN as int) =~= seq![v] + before.subrange(
                w + 1,
                LINE_LEN as int,
            ));
        } else {
            assert(line@.subrange(w as int, LINE_LEN as int) =~= before.subrange(
                w as int,
                LINE_LEN as int,
            ));
        }
    }
    proof {
        assert(start.subrange(0, LINE_LEN as int) =~= start);
        assert(line@ =~= pack_line(start));
    }
    changed
}

} // verus!
