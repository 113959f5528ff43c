use crate::nine_by_nine::{count_empty, lemma_from_cells, lemma_grid_len, NineByNine};
use crate::nine_set::{all_digits, union, NineSet};
use vstd::prelude::*;

verus! {

broadcast use {lemma_grid_len, lemma_from_cells};

/// Row of the `j`-th cell of group `k`: groups 0..9 are the rows, 9..18 the
/// columns, and 18..27 the 3x3 boxes, numbered left to right, top to bottom.
pub open spec fn group_row(k: int, j: int) -> int {
    if k < 9 {
        k
    } else if k < 18 {
        j
    } else {
        (k - 18) / 3 * 3 + j / 3
    }
}

/// Column of the `j`-th cell of group `k` (see `group_row`).
pub open spec fn group_col(k: int, j: int) -> int {
    if k < 9 {
        j
    } else if k < 18 {
        k - 9
    } else {
        (k - 18) % 3 * 3 + j % 3
    }
}

/// Row-major index of the `j`-th cell of group `k`.
pub open spec fn group_cell(k: int, j: int) -> int {
    group_row(k, j) * 9 + group_col(k, j)
}

/// The box that holds cell (row, col).
pub open spec fn box_of(row: int, col: int) -> int {
    row / 3 * 3 + col / 3
}

/// 81 cells, each empty or a digit in [1, 9].
pub open spec fn valid_cells(g: Seq<Option<u8>>) -> bool {
    &&& g.len() == 81
    &&& forall|i: int| 0 <= i < 81 && (#[trigger] g[i]) is Some ==> 1 <= g[i]->0 <= 9
}

/// The values of the first `n` cells of group `k`, empty cells skipped, in order.
pub open spec fn group_list(g: Seq<Option<u8>>, k: int, n: int) -> Seq<u8>
    decreases n,
{
    if n <= 0 {
        Seq::empty()
    } else {
        match g[group_cell(k, n - 1)] {
            Some(v) => group_list(g, k, n - 1).push(v),
            None => group_list(g, k, n - 1),
        }
    }
}

/// The values present in group `k`.
pub open spec fn group_values(g: Seq<Option<u8>>, k: int) -> Set<u8> {
    Set::new(|v: u8| exists|j: int| 0 <= j < 9 && g[#[trigger] group_cell(k, j)] == Some(v))
}

/// No value appears twice in group `k`.
pub open spec fn group_ok(g: Seq<Option<u8>>, k: int) -> bool {
    forall|j1: int, j2: int|
        0 <= j1 < 9 && 0 <= j2 < 9 && j1 != j2 && (#[trigger] g[group_cell(k, j1)]) is Some
            ==> g[group_cell(k, j1)] != #[trigger] g[group_cell(k, j2)]
}

/// No row, column or box holds a value twice.
pub open spec fn consistent(g: Seq<Option<u8>>) -> bool {
    forall|k: int| 0 <= k < 27 ==> #[trigger] group_ok(g, k)
}

/// Every cell holds a value.
pub open spec fn full(g: Seq<Option<u8>>) -> bool {
    forall|i: int| 0 <= i < 81 ==> (#[trigger] g[i]) is Some
}

/// Fully filled without breaking a rule of Sudoku.
pub open spec fn solved(g: Seq<Option<u8>>) -> bool {
    full(g) && consistent(g)
}

/// `s` keeps every value that `g` holds.
pub open spec fn extends(s: Seq<Option<u8>>, g: Seq<Option<u8>>) -> bool {
    forall|i: int| 0 <= i < 81 && (#[trigger] g[i]) is Some ==> s[i] == g[i]
}

/// `s` is a solution of the puzzle `g`.
pub open spec fn is_completion(s: Seq<Option<u8>>, g: Seq<Option<u8>>) -> bool {
    valid_cells(s) && solved(s) && extends(s, g)
}

/// The values that cell `i` could hold: its own value if it has one, else
/// every digit absent from its row, column and box.
pub open spec fn candidates(g: Seq<Option<u8>>, i: int) -> Set<u8> {
    match g[i] {
        Some(v) => set![v],
        None => all_digits().difference(
            group_values(g, i / 9).union(group_values(g, 9 + i % 9)).union(
                group_values(g, 18 + box_of(i / 9, i % 9)),
            ),
        ),
    }
}

/// What one propagation pass writes at cell `i`: the only candidate if there
/// is exactly one, else nothing.
pub open spec fn propagated(g: Seq<Option<u8>>, i: int) -> Option<u8> {
    if candidates(g, i).len() == 1 {
        Some(candidates(g, i).choose())
    } else {
        None
    }
}

/// Cells of group `k` lie on the board.
pub proof fn lemma_group_cell_bounds(k: int, j: int)
    requires
        0 <= k < 27,
        0 <= j < 9,
    ensures
        0 <= group_row(k, j) < 9,
        0 <= group_col(k, j) < 9,
        0 <= group_cell(k, j) < 81,
{
}

/// The list of a group holds exactly the values present in its first `n`
/// cells, and each is a digit.
proof fn lemma_group_list_contains(g: Seq<Option<u8>>, k: int, n: int)
    requires
        valid_cells(g),
        0 <= k < 27,
        0 <= n <= 9,
    ensures
        forall|v: u8|
            group_list(g, k, n).contains(v) <==> exists|j: int|
                0 <= j < n && g[#[trigger] group_cell(k, j)] == Some(v),
        forall|i: int| 0 <= i < group_list(g, k, n).len() ==> 1 <= #[trigger] group_list(g, k, n)[i] <= 9,
    decreases n,
{
    if n > 0 {
        lemma_group_list_contains(g, k, n - 1);
        lemma_group_cell_bounds(k, n - 1);
        let prev = group_list(g, k, n - 1);
        assert forall|v: u8|
            group_list(g, k, n).contains(v) <==> exists|j: int|
                0 <= j < n && g[#[trigger] group_cell(k, j)] == Some(v) by {
            if group_list(g, k, n).contains(v) {
                let i = choose|i: int| 0 <= i < group_list(g, k, n).len() && group_list(g, k, n)[i] == v;
                if i < prev.len() {
                    assert(prev[i] == v);
                    assert(prev.contains(v));
                } else {
                    assert(g[group_cell(k, n - 1)] == Some(v));
                }
            }
            if exists|j: int| 0 <= j < n && g[#[trigger] group_cell(k, j)] == Some(v) {
                let j = choose|j: int| 0 <= j < n && g[#[trigger] group_cell(k, j)] == Some(v);
                if j < n - 1 {
                    assert(prev.contains(v));
                    let i = choose|i: int| 0 <= i < prev.len() && prev[i] == v;
                    assert(group_list(g, k, n)[i] == v);
                } else {
                    assert(group_list(g, k, n)[prev.len() as int] == v);
                }
            }
        }
        assert forall|i: int| 0 <= i < group_list(g, k, n).len() implies 1 <= #[trigger] group_list(g, k, n)[i] <= 9 by {
            if i < prev.len() {
                assert(group_list(g, k, n)[i] == prev[i]);
            }
        }
    }
}

/// A finite set with one member holds nothing else.
proof fn lemma_singleton(s: Set<u8>, a: u8, b: u8)
    requires
        s.finite(),
        s.len() == 1,
        s.contains(a),
        s.contains(b),
    ensures
        a == b,
{
    if a != b {
        assert(s.remove(a).contains(b));
        assert(s.remove(a).len() == 0);
    }
}

/// The candidates of a cell are digits, and a filled cell has its own value
/// as its only candidate.
proof fn lemma_candidates_bounded(g: Seq<Option<u8>>, i: int)
    requires
        valid_cells(g),
        0 <= i < 81,
    ensures
        candidates(g, i).finite(),
        candidates(g, i).subset_of(all_digits()),
        g[i] is Some ==> candidates(g, i).len() == 1,
{
    let d = set![1u8, 2u8, 3u8, 4u8, 5u8, 6u8, 7u8, 8u8, 9u8];
    assert(all_digits() =~= d);
    vstd::set_lib::lemma_len_subset(candidates(g, i), d);
}

/// The values of a group's first `n` cells repeat none exactly when no two of
/// those cells hold the same value.
proof fn lemma_group_list_distinct(g: Seq<Option<u8>>, k: int, n: int)
    requires
        valid_cells(g),
        0 <= k < 27,
        0 <= n <= 9,
    ensures
        group_list(g, k, n).no_duplicates() <==> forall|j1: int, j2: int|
            0 <= j1 < n && 0 <= j2 < n && j1 != j2 && (#[trigger] g[group_cell(k, j1)]) is Some
                ==> g[group_cell(k, j1)] != #[trigger] g[group_cell(k, j2)],
    decreases n,
{
    if n > 0 {
        lemma_group_list_distinct(g, k, n - 1);
        lemma_group_list_contains(g, k, n - 1);
        let prev = group_list(g, k, n - 1);
        let cur = group_list(g, k, n);
        match g[group_cell(k, n - 1)] {
            Some(v) => {
                if cur.no_duplicates() {
                    assert forall|i: int, j: int| 0 <= i < prev.len() && 0 <= j < prev.len() && i != j
                        implies prev[i] != prev[j] by {
                        assert(cur[i] == prev[i] && cur[j] == prev[j]);
                    }
                    assert forall|j1: int, j2: int|
                        0 <= j1 < n && 0 <= j2 < n && j1 != j2 && (#[trigger] g[group_cell(k, j1)]) is Some
                            implies g[group_cell(k, j1)] != #[trigger] g[group_cell(k, j2)] by {
                        if j1 == n - 1 || j2 == n - 1 {
                            let j = if j1 == n - 1 { j2 } else { j1 };
                            if g[group_cell(k, j)] == Some(v) {
                                assert(prev.contains(v));
                                let i = choose|i: int| 0 <= i < prev.len() && prev[i] == v;
                                assert(cur[i] == v && cur[prev.len() as int] == v);
                            }
                        }
                    }
                }
                if forall|j1: int, j2: int|
                    0 <= j1 < n && 0 <= j2 < n && j1 != j2 && (#[trigger] g[group_cell(k, j1)]) is Some
                        ==> g[group_cell(k, j1)] != #[trigger] g[group_cell(k, j2)] {
                    if prev.contains(v) {
                        let j = choose|j: int| 0 <= j < n - 1 && g[#[trigger] group_cell(k, j)] == Some(v);
                        assert(g[group_cell(k, j)] != g[group_cell(k, n - 1)]);
                    }
                    assert forall|i: int, j: int| 0 <= i < cur.len() && 0 <= j < cur.len() && i != j
                        implies cur[i] != cur[j] by {
                        if i < prev.len() && j < prev.len() {
                        } else if i < prev.len() {
                            assert(prev.contains(cur[i]));
                        } else {
                            assert(prev.contains(cur[j]));
                        }
                    }
                }
            },
            None => {},
        }
    }
}

/// A group is free of repeats exactly when its list of values is.
proof fn lemma_group_ok_list(g: Seq<Option<u8>>, k: int)
    requires
        valid_cells(g),
        0 <= k < 27,
    ensures
        group_ok(g, k) <==> group_list(g, k, 9).to_set().len() == group_list(g, k, 9).len(),
{
    lemma_group_list_distinct(g, k, 9);
    let l = group_list(g, k, 9);
    if l.no_duplicates() {
        l.unique_seq_to_set();
    }
    if l.to_set().len() == l.len() {
        l.lemma_no_dup_set_cardinality();
    }
}

/// Filling cells never adds empty ones, and keeps the count only if it fills nothing.
proof fn lemma_count_extends(t: Seq<Option<u8>>, s: Seq<Option<u8>>)
    requires
        t.len() == s.len(),
        forall|i: int| 0 <= i < s.len() && (#[trigger] s[i]) is Some ==> t[i] == s[i],
    ensures
        count_empty(t) <= count_empty(s),
        count_empty(t) == count_empty(s) ==> forall|i: int|
            0 <= i < s.len() && (#[trigger] s[i]) is None ==> t[i] is None,
    decreases s.len(),
{
    if s.len() > 0 {
        let t1 = t.drop_last();
        let s1 = s.drop_last();
        assert forall|i: int| 0 <= i < s1.len() && (#[trigger] s1[i]) is Some implies t1[i] == s1[i] by {
            assert(s[i] == s1[i] && t[i] == t1[i]);
        }
        lemma_count_extends(t1, s1);
        if count_empty(t) == count_empty(s) {
            assert forall|i: int| 0 <= i < s.len() && (#[trigger] s[i]) is None implies t[i] is None by {
                if i < s.len() - 1 {
                    assert(s[i] == s1[i] && t[i] == t1[i]);
                }
            }
        }
    }
}

/// A grid has no empty cell exactly when its count of empty cells is zero.
proof fn lemma_count_full(g: Seq<Option<u8>>)
    ensures
        count_empty(g) == 0 <==> forall|i: int| 0 <= i < g.len() ==> (#[trigger] g[i]) is Some,
    decreases g.len(),
{
    if g.len() > 0 {
        let g1 = g.drop_last();
        lemma_count_full(g1);
        if count_empty(g) == 0 {
            assert forall|i: int| 0 <= i < g.len() implies (#[trigger] g[i]) is Some by {
                if i < g.len() - 1 {
                    assert(g[i] == g1[i]);
                }
            }
        } else if forall|i: int| 0 <= i < g.len() ==> (#[trigger] g[i]) is Some {
            assert forall|i: int| 0 <= i < g1.len() implies (#[trigger] g1[i]) is Some by {
                assert(g[i] == g1[i]);
            }
            assert(g[g.len() - 1] is Some);
        }
    }
}

/// Cell `i` sits in its row, its column and its box, at these positions.
proof fn lemma_cell_groups(i: int)
    requires
        0 <= i < 81,
    ensures
        group_cell(i / 9, i % 9) == i,
        group_cell(9 + i % 9, i / 9) == i,
        group_cell(18 + box_of(i / 9, i % 9), (i / 9) % 3 * 3 + (i % 9) % 3) == i,
        0 <= box_of(i / 9, i % 9) < 9,
{
    let r = i / 9;
    let c = i % 9;
    let b = box_of(r, c);
    let j = r % 3 * 3 + c % 3;
    assert(b / 3 == r / 3 && b % 3 == c / 3);
    assert(j / 3 == r % 3 && j % 3 == c % 3);
}

/// Every value of a solution is among the candidates of the puzzle it solves.
proof fn lemma_completion_candidates(g: Seq<Option<u8>>, s: Seq<Option<u8>>, i: int)
    requires
        valid_cells(g),
        is_completion(s, g),
        0 <= i < 81,
    ensures
        s[i] is Some,
        candidates(g, i).contains(s[i]->0),
{
    let r = i / 9;
    let c = i % 9;
    lemma_cell_groups(i);
    assert(s[i] is Some);
    if g[i] is None {
        let w = s[i]->0;
        let b = box_of(r, c);
        let pos = r % 3 * 3 + c % 3;
        if group_values(g, r).contains(w) {
            let j = choose|j: int| 0 <= j < 9 && g[#[trigger] group_cell(r, j)] == Some(w);
            lemma_group_cell_bounds(r, j);
            assert(group_ok(s, r));
            assert(s[group_cell(r, j)] != s[group_cell(r, c)]);
        }
        if group_values(g, 9 + c).contains(w) {
            let j = choose|j: int| 0 <= j < 9 && g[#[trigger] group_cell(9 + c, j)] == Some(w);
            lemma_group_cell_bounds(9 + c, j);
            assert(group_ok(s, 9 + c));
            assert(s[group_cell(9 + c, j)] != s[group_cell(9 + c, r)]);
        }
        if group_values(g, 18 + b).contains(w) {
            let j = choose|j: int| 0 <= j < 9 && g[#[trigger] group_cell(18 + b, j)] == Some(w);
            lemma_group_cell_bounds(18 + b, j);
            assert(group_ok(s, 18 + b));
            assert(s[group_cell(18 + b, j)] != s[group_cell(18 + b, pos)]);
        }
    }
}

/// A propagation pass keeps every value already placed, and places only digits.
proof fn lemma_propagated_extends(g: Seq<Option<u8>>, h: Seq<Option<u8>>)
    requires
        valid_cells(g),
        h.len() == 81,
        forall|i: int| 0 <= i < 81 ==> (#[trigger] h[i]) == propagated(g, i),
    ensures
        extends(h, g),
        valid_cells(h),
{
    assert forall|i: int| 0 <= i < 81 && (#[trigger] g[i]) is Some implies h[i] == g[i] by {
        lemma_candidates_bounded(g, i);
        assert(candidates(g, i).contains(g[i]->0));
        lemma_singleton(candidates(g, i), g[i]->0, candidates(g, i).choose());
    }
    assert forall|i: int| 0 <= i < 81 && (#[trigger] h[i]) is Some implies 1 <= h[i]->0 <= 9 by {
        lemma_candidates_bounded(g, i);
        assert(candidates(g, i).contains(candidates(g, i).choose()));
    }
}

/// A solution of a puzzle leaves no cell without candidates, and solves the
/// result of a propagation pass too.
proof fn lemma_propagated_keeps_completion(g: Seq<Option<u8>>, h: Seq<Option<u8>>, s: Seq<Option<u8>>)
    requires
        valid_cells(g),
        is_completion(s, g),
        h.len() == 81,
        forall|i: int| 0 <= i < 81 ==> (#[trigger] h[i]) == propagated(g, i),
    ensures
        is_completion(s, h),
{
    assert forall|i: int| 0 <= i < 81 && (#[trigger] h[i]) is Some implies s[i] == h[i] by {
        lemma_completion_candidates(g, s, i);
        lemma_candidates_bounded(g, i);
        assert(candidates(g, i).contains(candidates(g, i).choose()));
        lemma_singleton(candidates(g, i), s[i]->0, candidates(g, i).choose());
    }
}

/// A puzzle that has a solution has candidates for every cell.
proof fn lemma_completion_no_empty_candidates(g: Seq<Option<u8>>, s: Seq<Option<u8>>)
    requires
        valid_cells(g),
        is_completion(s, g),
    ensures
        forall|i: int| 0 <= i < 81 ==> (#[trigger] candidates(g, i)).len() != 0,
{
    assert forall|i: int| 0 <= i < 81 implies (#[trigger] candidates(g, i)).len() != 0 by {
        lemma_completion_candidates(g, s, i);
        lemma_candidates_bounded(g, i);
    }
}

/// A grid that a consistent grid extends is consistent.
proof fn lemma_extends_consistent(s: Seq<Option<u8>>, g: Seq<Option<u8>>)
    requires
        g.len() == 81,
        consistent(s),
        extends(s, g),
    ensures
        consistent(g),
{
    assert forall|k: int| 0 <= k < 27 implies #[trigger] group_ok(g, k) by {
        assert forall|j1: int, j2: int|
            0 <= j1 < 9 && 0 <= j2 < 9 && j1 != j2 && (#[trigger] g[group_cell(k, j1)]) is Some
                implies g[group_cell(k, j1)] != #[trigger] g[group_cell(k, j2)] by {
            lemma_group_cell_bounds(k, j1);
            lemma_group_cell_bounds(k, j2);
            assert(group_ok(s, k));
            assert(s[group_cell(k, j1)] != s[group_cell(k, j2)]);
        }
    }
}

/// Whitespace that may separate the digits of a puzzle's text.
pub open spec fn is_blank(c: char) -> bool {
    c == ' ' || c == '\t' || c == '\n' || c == '\r' || c == '\x0B' || c == '\x0C'
}

/// A decimal digit character.
pub open spec fn is_digit_char(c: char) -> bool {
    '0' <= c <= '9'
}

/// The values of the digit characters of `s`, in order.
pub open spec fn digits_in(s: Seq<char>) -> Seq<u8>
    decreases s.len(),
{
    if s.len() == 0 {
        Seq::empty()
    } else if is_digit_char(s.last()) {
        digits_in(s.drop_last()).push((s.last() as u32 - '0' as u32) as u8)
    } else {
        digits_in(s.drop_last())
    }
}

/// Text that describes a puzzle: digits and whitespace only, with at least 81 digits.
pub open spec fn well_formed(s: Seq<char>) -> bool {
    &&& forall|i: int| 0 <= i < s.len() ==> is_blank(#[trigger] s[i]) || is_digit_char(s[i])
    &&& digits_in(s).len() >= 81
}

/// The cell that a digit of a puzzle's text stands for: 0 is an empty cell.
pub open spec fn cell_of(d: u8) -> Option<u8> {
    if d == 0 {
        None
    } else {
        Some(d)
    }
}

/// Digit `v` appears in exactly one cell of group `k`.
pub open spec fn appears_once(g: Seq<Option<u8>>, k: int, v: u8) -> bool {
    &&& exists|j: int| 0 <= j < 9 && g[#[trigger] group_cell(k, j)] == Some(v)
    &&& forall|j1: int, j2: int|
        0 <= j1 < 9 && 0 <= j2 < 9 && g[#[trigger] group_cell(k, j1)] == Some(v) && g[#[trigger] group_cell(k, j2)]
            == Some(v) ==> j1 == j2
}

/// The list of a group has one entry per filled cell among its first `n`.
proof fn lemma_group_list_len(g: Seq<Option<u8>>, k: int, n: int)
    requires
        valid_cells(g),
        0 <= k < 27,
        0 <= n <= 9,
    ensures
        group_list(g, k, n).len() <= n,
        group_list(g, k, n).len() == n <==> forall|j: int| 0 <= j < n ==> (#[trigger] g[group_cell(k, j)]) is Some,
    decreases n,
{
    if n > 0 {
        lemma_group_list_len(g, k, n - 1);
    }
}

/// There are nine digits.
proof fn lemma_all_digits_len()
    ensures
        all_digits().finite(),
        all_digits().len() == 9,
{
    let d = set![1u8, 2u8, 3u8, 4u8, 5u8, 6u8, 7u8, 8u8, 9u8];
    assert(all_digits() =~= d);
    let d8 = set![1u8, 2u8, 3u8, 4u8, 5u8, 6u8, 7u8, 8u8];
    let d7 = set![1u8, 2u8, 3u8, 4u8, 5u8, 6u8, 7u8];
    let d6 = set![1u8, 2u8, 3u8, 4u8, 5u8, 6u8];
    let d5 = set![1u8, 2u8, 3u8, 4u8, 5u8];
    let d4 = set![1u8, 2u8, 3u8, 4u8];
    let d3 = set![1u8, 2u8, 3u8];
    let d2 = set![1u8, 2u8];
    assert(d2.len() == 2);
    assert(d3.len() == 3);
    assert(d4.len() == 4);
    assert(d5.len() == 5);
    assert(d6.len() == 6);
    assert(d7.len() == 7);
    assert(d8.len() == 8);
}

/// A grid is solved (every cell filled, no value twice in a row, column or
/// box) exactly when every row, column and box holds each digit 1 to 9
/// exactly once.
pub proof fn lemma_solved_iff_each_digit_once(g: Seq<Option<u8>>)
    requires
        valid_cells(g),
    ensures
        solved(g) <==> forall|k: int, v: u8| 0 <= k < 27 && 1 <= v <= 9 ==> #[trigger] appears_once(g, k, v),
{
    lemma_all_digits_len();
    if solved(g) {
        assert forall|k: int, v: u8| 0 <= k < 27 && 1 <= v <= 9 implies #[trigger] appears_once(g, k, v) by {
            let l = group_list(g, k, 9);
            lemma_group_list_len(g, k, 9);
            lemma_group_list_contains(g, k, 9);
            lemma_group_ok_list(g, k);
            assert forall|j: int| 0 <= j < 9 implies (#[trigger] g[group_cell(k, j)]) is Some by {
                lemma_group_cell_bounds(k, j);
            }
            assert(group_ok(g, k));
            assert(l.to_set().subset_of(all_digits()));
            vstd::set_lib::lemma_subset_equality(l.to_set(), all_digits());
            assert(all_digits().contains(v));
            assert(l.contains(v));
        }
    }
    if forall|k: int, v: u8| 0 <= k < 27 && 1 <= v <= 9 ==> #[trigger] appears_once(g, k, v) {
        assert forall|k: int| 0 <= k < 27 implies #[trigger] group_ok(g, k) by {
            assert forall|j1: int, j2: int|
                0 <= j1 < 9 && 0 <= j2 < 9 && j1 != j2 && (#[trigger] g[group_cell(k, j1)]) is Some
                    implies g[group_cell(k, j1)] != #[trigger] g[group_cell(k, j2)] by {
                lemma_group_cell_bounds(k, j1);
                let v = g[group_cell(k, j1)]->0;
                assert(appears_once(g, k, v));
            }
        }
        assert forall|i: int| 0 <= i < 81 implies (#[trigger] g[i]) is Some by {
            let r = i / 9;
            let l = group_list(g, r, 9);
            lemma_cell_groups(i);
            lemma_group_list_len(g, r, 9);
            lemma_group_list_contains(g, r, 9);
            lemma_group_ok_list(g, r);
            assert(group_ok(g, r));
            assert forall|v: u8| all_digits().contains(v) implies l.to_set().contains(v) by {
                assert(appears_once(g, r, v));
                assert(l.contains(v));
            }
            vstd::seq_lib::seq_to_set_is_finite(l);
            vstd::set_lib::lemma_len_subset(all_digits(), l.to_set());
            assert(g[group_cell(r, i % 9)] is Some);
        }
    }
}

/// A Sudoku puzzle: a 9x9 grid of cells, each empty or holding a digit.
#[derive(Clone, Copy)]
pub struct SudokuPuzzle {
    nums: NineByNine<u8>,
}

impl View for SudokuPuzzle {
    type V = Seq<Option<u8>>;

    closed spec fn view(&self) -> Seq<Option<u8>> {
        self.nums@
    }
}

impl SudokuPuzzle {
    /// Every cell of a puzzle is empty or a digit in [1, 9].
    #[verifier::type_invariant]
    closed spec fn inv(&self) -> bool {
        valid_cells(self.nums@)
    }

    /// The values in row `row_idx`, empty cells skipped, left to right.
    fn row_list(&self, row_idx: usize) -> (r: Vec<u8>)
        requires
            row_idx < 9,
        ensures
            r@ == group_list(self@, row_idx as int, 9),
    {
        let mut row_list: Vec<u8> = Vec::new();
        let mut col: usize = 0;
        while col < 9
            invariant
                col <= 9,
                row_idx < 9,
                row_list@ == group_list(self@, row_idx as int, col as int),
            decreases 9 - col,
        {
            if let Some(n) = self.nums.get(row_idx, col) {
                row_list.push(*n);
            }
            col = col + 1;
        }
        row_list
    }

    /// The values in column `col_idx`, empty cells skipped, top to bottom.
    fn col_list(&self, col_idx: usize) -> (r: Vec<u8>)
        requires
            col_idx < 9,
        ensures
            r@ == group_list(self@, 9 + col_idx, 9),
    {
        let mut col_list: Vec<u8> = Vec::new();
        let mut row: usize = 0;
        while row < 9
            invariant
                row <= 9,
                col_idx < 9,
                col_list@ == group_list(self@, 9 + col_idx, row as int),
            decreases 9 - row,
        {
            if let Some(n) = self.nums.get(row, col_idx) {
                col_list.push(*n);
            }
            row = row + 1;
        }
        col_list
    }

    /// The values in the 3x3 box `sqr_idx`, empty cells skipped, row by row.
    /// Boxes are numbered from the upper left corner, left to right, top to bottom.
    fn sqr_list(&self, sqr_idx: usize) -> (r: Vec<u8>)
        requires
            sqr_idx < 9,
        ensures
            r@ == group_list(self@, 18 + sqr_idx, 9),
    {
        let mut sqr_list: Vec<u8> = Vec::new();
        let mut i: usize = 0;
        while i < 9
            invariant
                i <= 9,
                sqr_idx < 9,
                sqr_list@ == group_list(self@, 18 + sqr_idx, i as int),
            decreases 9 - i,
        {
            let row = sqr_idx / 3 * 3 + i / 3;
            let col = sqr_idx % 3 * 3 + i % 3;
            if let Some(n) = self.nums.get(row, col) {
                sqr_list.push(*n);
            }
            i = i + 1;
        }
        sqr_list
    }

    /// The set of values in group `k`, built from its list.
    fn group_set(&self, list: Vec<u8>, Ghost(k): Ghost<int>) -> (r: NineSet)
        requires
            0 <= k < 27,
            list@ == group_list(self@, k, 9),
        ensures
            r@ == group_values(self@, k),
    {
        proof {
            use_type_invariant(self);
            lemma_group_list_contains(self@, k, 9);
        }
        let r = NineSet::from_vec(&list);
        assert(r@ =~= group_values(self@, k));
        r
    }

    /// The set of numbers in the row with the given index.
    fn row_set(&self, row_idx: usize) -> (r: NineSet)
        requires
            row_idx < 9,
        ensures
            r@ == group_values(self@, row_idx as int),
    {
        self.group_set(self.row_list(row_idx), Ghost(row_idx as int))
    }

    /// The set of numbers in the column with the given index.
    fn col_set(&self, col_idx: usize) -> (r: NineSet)
        requires
            col_idx < 9,
        ensures
            r@ == group_values(self@, 9 + col_idx),
    {
        self.group_set(self.col_list(col_idx), Ghost(9 + col_idx))
    }

    /// The set of numbers in the 3x3 box with the given index.
    fn sqr_set(&self, sqr_idx: usize) -> (r: NineSet)
        requires
            sqr_idx < 9,
        ensures
            r@ == group_values(self@, 18 + sqr_idx),
    {
        self.group_set(self.sqr_list(sqr_idx), Ghost(18 + sqr_idx))
    }

    /// The set of numbers that the empty cell (row, col) could hold.
    fn could_be_set(&self, row: usize, col: usize) -> (r: NineSet)
        requires
            row < 9,
            col < 9,
        ensures
            r@ == all_digits().difference(
                group_values(self@, row as int).union(group_values(self@, 9 + col)).union(
                    group_values(self@, 18 + box_of(row as int, col as int)),
                ),
            ),
    {
        let a = self.row_set(row);
        let b = self.col_set(col);
        let c = self.sqr_set(row / 3 * 3 + col / 3);
        let sets = vec![a, b, c];
        let u = union(sets);
        assert(u@ =~= a@.union(b@).union(c@)) by {
            assert(sets@[0] == a && sets@[1] == b && sets@[2] == c);
        }
        u.complement()
    }

    /// The set of numbers that each cell could hold.
    fn could_be_sets(&self) -> (r: NineByNine<NineSet>)
        ensures
            forall|i: int| 0 <= i < 81 ==> (#[trigger] r@[i]) is Some && r@[i]->0@ == candidates(self@, i),
    {
        let mut sets: [Option<NineSet>; 81] = [None; 81];
        let mut row: usize = 0;
        while row < 9
            invariant
                row <= 9,
                forall|i: int| 0 <= i < row * 9 ==> (#[trigger] sets@[i]) is Some && sets@[i]->0@ == candidates(self@, i),
            decreases 9 - row,
        {
            let mut col: usize = 0;
            while col < 9
                invariant
                    row < 9,
                    col <= 9,
                    forall|i: int| 0 <= i < row * 9 + col ==> (#[trigger] sets@[i]) is Some && sets@[i]->0@ == candidates(self@, i),
                decreases 9 - col,
            {
                let ghost i = row * 9 + col;
                assert(i / 9 == row && i % 9 == col);
                let set = if let Some(n) = self.nums.get(row, col) {
                    proof {
                        use_type_invariant(self);
                    }
                    let mut set = NineSet::empty();
                    set.add(*n);
                    assert(set@ =~= candidates(self@, i));
                    set
                } else {
                    self.could_be_set(row, col)
                };
                sets[row * 9 + col] = Some(set);
                col = col + 1;
            }
            row = row + 1;
        }
        NineByNine::from(sets)
    }

    /// Do one pass over the puzzle and fill every cell that has a single candidate.
    /// Returns `None` if some cell has no candidate at all.
    fn fill_once(&self) -> (r: Option<SudokuPuzzle>)
        ensures
            r is None <==> exists|i: int| 0 <= i < 81 && (#[trigger] candidates(self@, i)).len() == 0,
            r is Some ==> forall|i: int| 0 <= i < 81 ==> (#[trigger] r->0@[i]) == propagated(self@, i),
    {
        let could_be_sets = self.could_be_sets();
        let mut nums: [Option<u8>; 81] = [None; 81];
        let mut row: usize = 0;
        while row < 9
            invariant
                row <= 9,
                forall|i: int| 0 <= i < 81 ==> (#[trigger] could_be_sets@[i]) is Some && could_be_sets@[i]->0@ == candidates(self@, i),
                forall|i: int| 0 <= i < row * 9 ==> (#[trigger] candidates(self@, i)).len() != 0,
                forall|i: int| 0 <= i < row * 9 ==> (#[trigger] nums@[i]) == propagated(self@, i),
                forall|i: int| row * 9 <= i < 81 ==> (#[trigger] nums@[i]) is None,
                forall|i: int| 0 <= i < 81 && (#[trigger] nums@[i]) is Some ==> 1 <= nums@[i]->0 <= 9,
            decreases 9 - row,
        {
            let mut col: usize = 0;
            while col < 9
                invariant
                    row < 9,
                    col <= 9,
                    forall|i: int| 0 <= i < 81 ==> (#[trigger] could_be_sets@[i]) is Some && could_be_sets@[i]->0@ == candidates(self@, i),
                    forall|i: int| 0 <= i < row * 9 + col ==> (#[trigger] candidates(self@, i)).len() != 0,
                    forall|i: int| 0 <= i < row * 9 + col ==> (#[trigger] nums@[i]) == propagated(self@, i),
                    forall|i: int| row * 9 + col <= i < 81 ==> (#[trigger] nums@[i]) is None,
                    forall|i: int| 0 <= i < 81 && (#[trigger] nums@[i]) is Some ==> 1 <= nums@[i]->0 <= 9,
                decreases 9 - col,
            {
                let ghost i = row * 9 + col;
                assert(could_be_sets@[i] is Some);
                let could_be = could_be_sets.get(row, col).unwrap();
                let ghost cands = candidates(self@, i);
                proof {
                    use_type_invariant(self);
                    lemma_candidates_bounded(self@, i);
                }
                let size = could_be.size();
                if size == 1 {
                    let vals = could_be.to_vec();
                    proof {
                        assert(cands.contains(cands.choose()));
                        assert(vals@.contains(cands.choose()));
                        lemma_singleton(cands, vals@[0], cands.choose());
                    }
                    nums[row * 9 + col] = Some(vals[0]);
                } else if size == 0 {
                    return None;
                }
                col = col + 1;
            }
            row = row + 1;
        }
        let grid = NineByNine::from(nums);
        Some(SudokuPuzzle { nums: grid })
    }

    /// Indicates whether this puzzle is consistent, that is, whether no row,
    /// column or box holds a number twice.
    fn is_consistent(&self) -> (r: bool)
        ensures
            r == consistent(self@),
    {
        proof {
            use_type_invariant(self);
        }
        let mut i: usize = 0;
        while i < 9
            invariant
                i <= 9,
                valid_cells(self@),
                forall|k: int|
                    0 <= k < 27 && (k < i || 9 <= k < 9 + i || 18 <= k < 18 + i) ==> #[trigger] group_ok(
                        self@,
                        k,
                    ),
            decreases 9 - i,
        {
            let row = self.row_list(i);
            let col = self.col_list(i);
            let sqr = self.sqr_list(i);
            proof {
                lemma_group_ok_list(self@, i as int);
                lemma_group_ok_list(self@, 9 + i);
                lemma_group_ok_list(self@, 18 + i);
                lemma_group_list_contains(self@, i as int, 9);
                lemma_group_list_contains(self@, 9 + i, 9);
                lemma_group_list_contains(self@, 18 + i, 9);
            }
            if row.len() != NineSet::from_vec(&row).size() || col.len() != NineSet::from_vec(&col).size()
                || sqr.len() != NineSet::from_vec(&sqr).size() {
                return false;
            }
            i = i + 1;
        }
        true
    }

    /// Creates a puzzle from text: 81 digits read row by row, where '0' is an
    /// empty cell and '1' to '9' a filled one. Whitespace and line breaks between
    /// digits are skipped, and digits after the 81st are ignored. Returns `None`
    /// if the text holds any other character or fewer than 81 digits.
    pub fn from_string(source: &str) -> (r: Option<SudokuPuzzle>)
        ensures
            r is Some <==> well_formed(source@),
            r is Some ==> forall|i: int| 0 <= i < 81 ==> (#[trigger] r->0@[i]) == cell_of(digits_in(source@)[i]),
    {
        let mut source_nums: Vec<u8> = Vec::new();
        let mut ok = true;
        for c in it: source.chars()
            invariant
                it.seq() == source@,
                source_nums@ == digits_in(source@.take(it.index())),
                forall|j: int| 0 <= j < source_nums.len() ==> (#[trigger] source_nums@[j]) <= 9,
                ok <==> forall|i: int| 0 <= i < it.index() ==> is_blank(#[trigger] source@[i]) || is_digit_char(source@[i]),
        {
            assert(source@.take(it.index() + 1).drop_last() =~= source@.take(it.index()));
            if c >= '0' && c <= '9' {
                source_nums.push((c as u32 - '0' as u32) as u8);
            } else if !(c == ' ' || c == '\t' || c == '\n' || c == '\r' || c == '\x0B' || c == '\x0C') {
                ok = false;
            }
        }
        assert(source@.take(source@.len() as int) =~= source@);
        if !ok || source_nums.len() < 81 {
            return None;
        }
        let mut nums: [Option<u8>; 81] = [None; 81];
        let mut i: usize = 0;
        while i < 81
            invariant
                i <= 81,
                source_nums.len() >= 81,
                forall|j: int| 0 <= j < i ==> (#[trigger] nums@[j]) == cell_of(source_nums@[j]),
                forall|j: int| 0 <= j < source_nums.len() ==> (#[trigger] source_nums@[j]) <= 9,
            decreases 81 - i,
        {
            nums[i] = if source_nums[i] == 0 {
                None
            } else {
                Some(source_nums[i])
            };
            i = i + 1;
        }
        Some(SudokuPuzzle { nums: NineByNine::from(nums) })
    }

    /// The value at (row, col), or `None` if that cell is empty; row and
    /// column must each be in [0, 9).
    pub fn get(&self, row: usize, col: usize) -> (r: Option<u8>)
        requires
            row < 9,
            col < 9,
        ensures
            r == self@[row * 9 + col],
    {
        match self.nums.get(row, col) {
            Some(n) => Some(*n),
            None => None,
        }
    }

    /// Indicates whether this puzzle is correctly solved: every cell is
    /// filled and no row, column or box holds a number twice.
    pub fn is_solved(&self) -> (r: bool)
        ensures
            r == solved(self@),
    {
        proof {
            lemma_count_full(self@);
        }
        self.count_unfilled() == 0 && self.is_consistent()
    }

    /// Solve this puzzle, if possible, filling in every empty cell.
    ///
    /// Returns a solution exactly when the puzzle has one; when it has several,
    /// the first one found by the search is returned.
    pub fn solve(&self) -> (r: Option<SudokuPuzzle>)
        ensures
            r is Some <==> exists|s: Seq<Option<u8>>| #[trigger] is_completion(s, self@),
            r is Some ==> is_completion(r->0@, self@),
            solved(self@) ==> r is Some && r->0@ == self@,
            !consistent(self@) ==> r is None,
        decreases count_empty(self@), 1nat,
    {
        proof {
            use_type_invariant(self);
            if solved(self@) {
                assert(is_completion(self@, self@));
            }
        }
        let solution = self.fill_all();
        let r = match solution {
            Some(solution) => {
                proof {
                    use_type_invariant(&solution);
                }
                if solution.is_solved() {
                    assert(is_completion(solution@, self@));
                    Some(solution)
                } else if solution.is_consistent() {
                    let r = solution.try_guesses();
                    proof {
                        if r is Some {
                            assert(is_completion(r->0@, self@));
                        }
                        if exists|s: Seq<Option<u8>>| #[trigger] is_completion(s, self@) {
                            let s = choose|s: Seq<Option<u8>>| #[trigger] is_completion(s, self@);
                            assert(is_completion(s, solution@));
                        }
                    }
                    r
                } else {
                    proof {
                        if exists|s: Seq<Option<u8>>| #[trigger] is_completion(s, self@) {
                            let s = choose|s: Seq<Option<u8>>| #[trigger] is_completion(s, self@);
                            lemma_extends_consistent(s, solution@);
                        }
                    }
                    None
                }
            },
            None => None,
        };
        proof {
            if solved(self@) {
                assert(r->0@ =~= self@);
            }
            if r is Some {
                lemma_extends_consistent(r->0@, self@);
            }
        }
        r
    }

    /// Find a cell that could be filled in several ways, try each choice, and
    /// return the first that leads to a solution; `None` if none does.
    fn try_guesses(&self) -> (r: Option<SudokuPuzzle>)
        ensures
            r is Some ==> is_completion(r->0@, self@),
            (exists|s: Seq<Option<u8>>| #[trigger] is_completion(s, self@)) && !full(self@) && (
            forall|i: int| 0 <= i < 81 && self@[i] is None ==> (#[trigger] candidates(self@, i)).len()
                != 1) ==> r is Some,
        decreases count_empty(self@), 0nat,
    {
        proof {
            use_type_invariant(self);
        }
        let could_be_sets = self.could_be_sets();

        // Find the last cell, in row-major order, that could be filled in several ways.
        let mut row: usize = 0;
        let mut col: usize = 0;
        let mut found = false;
        let mut r: usize = 0;
        while r < 9
            invariant
                r <= 9,
                row < 9,
                col < 9,
                forall|i: int| 0 <= i < 81 ==> (#[trigger] could_be_sets@[i]) is Some && could_be_sets@[i]->0@ == candidates(self@, i),
                found ==> candidates(self@, row * 9 + col).len() > 1,
                !found ==> forall|i: int| 0 <= i < r * 9 ==> (#[trigger] candidates(self@, i)).len() <= 1,
            decreases 9 - r,
        {
            let mut c: usize = 0;
            while c < 9
                invariant
                    r < 9,
                    c <= 9,
                    row < 9,
                    col < 9,
                    forall|i: int| 0 <= i < 81 ==> (#[trigger] could_be_sets@[i]) is Some && could_be_sets@[i]->0@ == candidates(self@, i),
                    found ==> candidates(self@, row * 9 + col).len() > 1,
                    !found ==> forall|i: int| 0 <= i < r * 9 + c ==> (#[trigger] candidates(self@, i)).len() <= 1,
                decreases 9 - c,
            {
                assert(could_be_sets@[r * 9 + c] is Some);
                if could_be_sets.get(r, c).unwrap().size() > 1 {
                    row = r;
                    col = c;
                    found = true;
                }
                c = c + 1;
            }
            r = r + 1;
        }
        proof {
            if (exists|s: Seq<Option<u8>>| #[trigger] is_completion(s, self@)) && !full(self@) && (
            forall|i: int| 0 <= i < 81 && self@[i] is None ==> (#[trigger] candidates(self@, i)).len()
                != 1) {
                let s = choose|s: Seq<Option<u8>>| #[trigger] is_completion(s, self@);
                let i = choose|i: int| 0 <= i < 81 && !(#[trigger] self@[i] is Some);
                lemma_completion_no_empty_candidates(self@, s);
                assert(candidates(self@, i).len() != 0);
                assert(found);
            }
        }
        if !found {
            return None;
        }
        let ghost cell = row * 9 + col;
        proof {
            lemma_candidates_bounded(self@, cell);
        }
        assert(could_be_sets@[cell] is Some);
        let guesses = could_be_sets.get(row, col).unwrap().to_vec();

        // Try each guess, recursively solving the puzzle that results from it,
        // until some guess yields a solution.
        let mut idx: usize = 0;
        while idx < guesses.len()
            invariant
                idx <= guesses.len(),
                row < 9,
                col < 9,
                cell == row * 9 + col,
                self@[cell] is None,
                valid_cells(self@),
                candidates(self@, cell).subset_of(all_digits()),
                forall|t: int| 0 <= t < guesses.len() ==> candidates(self@, cell).contains(#[trigger] guesses@[t]),
                forall|s: Seq<Option<u8>>| #[trigger] is_completion(s, self@) ==> forall|t: int|
                    0 <= t < idx ==> s[cell] != Some(#[trigger] guesses@[t]),
            decreases guesses.len() - idx,
        {
            let guess = guesses[idx];
            let mut nums = self.nums;
            nums.set(row, col, Some(guess));
            let ghost g2 = self@.update(cell, Some(guess));
            assert(nums@ == g2);
            proof {
                lemma_count_extends(g2, self@);
                assert(g2[cell] is Some);
            }
            let puzzle_guess = SudokuPuzzle { nums };
            if let Some(solution) = puzzle_guess.solve() {
                proof {
                    assert forall|i: int| 0 <= i < 81 && (#[trigger] self@[i]) is Some implies solution@[i] == self@[i] by {
                        assert(g2[i] == self@[i]);
                    }
                }
                return Some(solution);
            }
            proof {
                assert forall|s: Seq<Option<u8>>| #[trigger] is_completion(s, self@) implies forall|t: int|
                    0 <= t < idx + 1 ==> s[cell] != Some(#[trigger] guesses@[t]) by {
                    if s[cell] == Some(guess) {
                        assert(is_completion(s, g2));
                    }
                }
            }
            idx = idx + 1;
        }
        proof {
            if exists|s: Seq<Option<u8>>| #[trigger] is_completion(s, self@) {
                let s = choose|s: Seq<Option<u8>>| #[trigger] is_completion(s, self@);
                lemma_completion_candidates(self@, s, cell);
                assert(guesses@.contains(s[cell]->0));
            }
        }
        None
    }

    /// Fill every cell that can be filled by repeated deduction, until a pass
    /// fills nothing more. Returns `None` if some cell has no candidate left.
    fn fill_all(&self) -> (r: Option<SudokuPuzzle>)
        ensures
            r is Some ==> extends(r->0@, self@),
            r is Some ==> count_empty(r->0@) <= count_empty(self@),
            r is Some ==> forall|i: int|
                0 <= i < 81 && r->0@[i] is None ==> (#[trigger] candidates(r->0@, i)).len() != 1,
            forall|s: Seq<Option<u8>>| #[trigger] is_completion(s, self@) ==> r is Some && is_completion(s, r->0@),
    {
        proof {
            use_type_invariant(self);
        }
        let mut prev_unfilled = self.count_unfilled();
        let ghost mut prev: Seq<Option<u8>> = self@;
        let mut filled = self.fill_once();
        loop
            invariant
                valid_cells(prev),
                extends(prev, self@),
                prev_unfilled == count_empty(prev),
                count_empty(prev) <= count_empty(self@),
                filled is None ==> exists|i: int| 0 <= i < 81 && (#[trigger] candidates(prev, i)).len() == 0,
                filled is Some ==> forall|i: int| 0 <= i < 81 ==> (#[trigger] filled->0@[i]) == propagated(prev, i),
                forall|s: Seq<Option<u8>>| #[trigger] is_completion(s, self@) ==> is_completion(s, prev),
            decreases prev_unfilled,
        {
            let p = match filled {
                Some(p) => p,
                None => {
                    proof {
                        if exists|s: Seq<Option<u8>>| #[trigger] is_completion(s, self@) {
                            let s = choose|s: Seq<Option<u8>>| #[trigger] is_completion(s, self@);
                            lemma_completion_no_empty_candidates(prev, s);
                        }
                    }
                    return None;
                },
            };
            proof {
                use_type_invariant(&p);
                lemma_propagated_extends(prev, p@);
                lemma_count_extends(p@, prev);
                assert forall|s: Seq<Option<u8>>| #[trigger] is_completion(s, self@) implies is_completion(s, p@) by {
                    lemma_propagated_keeps_completion(prev, p@, s);
                }
            }
            let n = p.count_unfilled();
            if n == prev_unfilled {
                proof {
                    assert(p@ =~= prev);
                }
                return Some(p);
            }
            proof {
                prev = p@;
            }
            prev_unfilled = n;
            filled = p.fill_once();
        }
    }

    /// Returns the number of cells in this puzzle that are not filled yet.
    fn count_unfilled(&self) -> (r: usize)
        ensures
            r == count_empty(self@),
    {
        self.nums.count_nones()
    }
}

} // verus!
