use vstd::prelude::*;

use crate::board::{
    board_valid, box_of, box_values, column_values, is_grid, lemma_board_update,
    lemma_completion_excludes, lemma_unsolved_before, row_values, space_index, unsolved_spaces,
    SudokuBoard,
};
use crate::error::SudokuError;
use crate::solver::{agree_before, is_least_solution, is_solution, lex_less, solvable};
use crate::values::{append_nonzero, first_allowed_value, lemma_first_occurrences, unique_values};

verus! {

/// How many of the values `1..=m` occur in `tried`.
spec fn count_tried(tried: Seq<u8>, m: int) -> int
    decreases m,
{
    if m <= 0 {
        0
    } else {
        count_tried(tried, m - 1) + if tried.contains(m as u8) {
            1int
        } else {
            0int
        }
    }
}

proof fn lemma_count_tried_bounds(tried: Seq<u8>, m: int)
    requires
        0 <= m,
    ensures
        0 <= count_tried(tried, m) <= m,
    decreases m,
{
    if m > 0 {
        lemma_count_tried_bounds(tried, m - 1);
    }
}

proof fn lemma_count_tried_empty(tried: Seq<u8>, m: int)
    requires
        tried.len() == 0,
    ensures
        count_tried(tried, m) == 0,
    decreases m,
{
    if m > 0 {
        lemma_count_tried_empty(tried, m - 1);
    }
}

/// Trying one more value of `1..=m` counts once more.
proof fn lemma_count_tried_push(tried: Seq<u8>, v: u8, m: int)
    requires
        0 <= m <= 9,
        !tried.contains(v),
    ensures
        count_tried(tried.push(v), m) == count_tried(tried, m) + if 1 <= v <= m {
            1int
        } else {
            0int
        },
    decreases m,
{
    if m > 0 {
        lemma_count_tried_push(tried, v, m - 1);
        crate::values::lemma_push_contains(tried, v);
    }
}

spec fn pow20(n: nat) -> int
    decreases n,
{
    if n == 0 {
        1
    } else {
        20 * pow20((n - 1) as nat)
    }
}

/// The number whose base-20 digits, most significant first, are `d`.
spec fn rank(d: Seq<int>) -> int
    decreases d.len(),
{
    if d.len() == 0 {
        0
    } else {
        d[0] * pow20((d.len() - 1) as nat) + rank(d.drop_first())
    }
}

spec fn digits_bounded(d: Seq<int>) -> bool {
    forall|j: int| 0 <= j < d.len() ==> 0 <= #[trigger] d[j] < 20
}

proof fn lemma_rank_bounded(d: Seq<int>)
    requires
        digits_bounded(d),
    ensures
        0 <= rank(d) < pow20(d.len()),
        pow20(d.len()) > 0,
    decreases d.len(),
{
    if d.len() > 0 {
        let rest = d.drop_first();
        assert(digits_bounded(rest)) by {
            assert forall|j: int| 0 <= j < rest.len() implies 0 <= #[trigger] rest[j] < 20 by {
                assert(rest[j] == d[j + 1]);
            }
        }
        lemma_rank_bounded(rest);
        let p = pow20(rest.len());
        assert(0 <= d[0] < 20);
        assert(d[0] * p + p <= 20 * p) by (nonlinear_arith)
            requires
                0 <= d[0] < 20,
                p > 0,
        ;
        assert(d[0] * p >= 0) by (nonlinear_arith)
            requires
                0 <= d[0],
                p > 0,
        ;
    }
}

/// Raising the first digit where two digit strings differ raises the rank.
proof fn lemma_rank_less(a: Seq<int>, b: Seq<int>, p: int)
    requires
        a.len() == b.len(),
        digits_bounded(a),
        digits_bounded(b),
        0 <= p < a.len(),
        forall|j: int| 0 <= j < p ==> a[j] == b[j],
        a[p] < b[p],
    ensures
        rank(a) < rank(b),
    decreases p,
{
    let ra = a.drop_first();
    let rb = b.drop_first();
    assert(digits_bounded(ra)) by {
        assert forall|j: int| 0 <= j < ra.len() implies 0 <= #[trigger] ra[j] < 20 by {
            assert(ra[j] == a[j + 1]);
        }
    }
    assert(digits_bounded(rb)) by {
        assert forall|j: int| 0 <= j < rb.len() implies 0 <= #[trigger] rb[j] < 20 by {
            assert(rb[j] == b[j + 1]);
        }
    }
    if p == 0 {
        lemma_rank_bounded(ra);
        lemma_rank_bounded(rb);
        let q = pow20(ra.len());
        assert(a[0] * q + q <= b[0] * q) by (nonlinear_arith)
            requires
                a[0] < b[0],
                q > 0,
        ;
    } else {
        assert forall|j: int| 0 <= j < p - 1 implies ra[j] == rb[j] by {
            assert(ra[j] == a[j + 1] && rb[j] == b[j + 1]);
        }
        lemma_rank_less(ra, rb, p - 1);
    }
}

/// `spaces` lists the blank cells of `puzzle` once each, in strictly
/// increasing position.
spec fn levels_of(puzzle: Seq<u8>, spaces: Seq<(usize, usize)>) -> bool {
    &&& forall|j: int|
        0 <= j < spaces.len() ==> {
            let space = #[trigger] spaces[j];
            &&& space.0 < 9
            &&& space.1 < 9
            &&& 0 <= space_index(space) < 81
            &&& puzzle[space_index(space)] == 0
        }
    &&& forall|i: int, j: int|
        0 <= i < j < spaces.len() ==> space_index(#[trigger] spaces[i]) < space_index(
            #[trigger] spaces[j],
        )
    &&& forall|x: int|
        0 <= x < 81 && #[trigger] puzzle[x] == 0 ==> exists|j: int|
            0 <= j < spaces.len() && space_index(#[trigger] spaces[j]) == x
}

proof fn lemma_levels_of(puzzle: Seq<u8>)
    requires
        is_grid(puzzle),
    ensures
        levels_of(puzzle, unsolved_spaces(puzzle)),
        unsolved_spaces(puzzle).len() <= 81,
{
    lemma_unsolved_before(puzzle, 81);
    crate::board::lemma_filled_before_bounds(puzzle, 81);
}

/// `work` keeps the filled cells of `puzzle`, and its cells at the levels
/// after `cursor` are blank.
spec fn work_consistent(
    puzzle: Seq<u8>,
    spaces: Seq<(usize, usize)>,
    work: Seq<u8>,
    cursor: int,
) -> bool {
    &&& forall|y: int| 0 <= y < 81 && puzzle[y] != 0 ==> #[trigger] work[y] == puzzle[y]
    &&& forall|j: int| cursor < j < spaces.len() ==> work[space_index(#[trigger] spaces[j])] == 0
}

/// A completion that agrees with `work` before the cell of level `cursor`
/// agrees with it on every non-blank cell of `work`, provided that cell is
/// blank in `work`.
proof fn lemma_completion_keeps_work(
    puzzle: Seq<u8>,
    spaces: Seq<(usize, usize)>,
    work: Seq<u8>,
    cursor: int,
    t: Seq<u8>,
)
    requires
        is_grid(puzzle),
        work.len() == 81,
        levels_of(puzzle, spaces),
        work_consistent(puzzle, spaces, work, cursor),
        0 <= cursor < spaces.len(),
        work[space_index(spaces[cursor])] == 0,
        is_solution(puzzle, t),
        agree_before(t, work, space_index(spaces[cursor])),
    ensures
        forall|y: int| 0 <= y < 81 && #[trigger] work[y] != 0 ==> t[y] == work[y],
{
    let x = space_index(spaces[cursor]);
    assert forall|y: int| 0 <= y < 81 && #[trigger] work[y] != 0 implies t[y] == work[y] by {
        if y > x && puzzle[y] == 0 {
            let m = choose|m: int| 0 <= m < spaces.len() && space_index(#[trigger] spaces[m]) == y;
            if m <= cursor {
                if m < cursor {
                    assert(space_index(spaces[m]) < space_index(spaces[cursor]));
                }
            }
        }
    }
}

/// What a completion that agrees with `work` before level `cursor` puts
/// there is missing from that cell's row, column and box in `work`.
proof fn lemma_completion_choice(
    puzzle: Seq<u8>,
    spaces: Seq<(usize, usize)>,
    work: Seq<u8>,
    cursor: int,
    t: Seq<u8>,
)
    requires
        is_grid(puzzle),
        work.len() == 81,
        levels_of(puzzle, spaces),
        work_consistent(puzzle, spaces, work, cursor),
        0 <= cursor < spaces.len(),
        work[space_index(spaces[cursor])] == 0,
        is_solution(puzzle, t),
        agree_before(t, work, space_index(spaces[cursor])),
    ensures
        ({
            let (r, c) = spaces[cursor];
            let v = t[space_index(spaces[cursor])];
            &&& 1 <= v <= 9
            &&& !row_values(work, r as int).contains(v)
            &&& !column_values(work, c as int).contains(v)
            &&& !box_values(work, box_of(r as int, c as int)).contains(v)
        }),
{
    let x = space_index(spaces[cursor]);
    lemma_completion_keeps_work(puzzle, spaces, work, cursor, t);
    assert(x / 9 == spaces[cursor].0 && x % 9 == spaces[cursor].1);
    lemma_completion_excludes(t, work, x);
}

/// A completion of `puzzle` agrees with `work` before level `i` when it
/// agrees with it up to and including level `i - 1` (or when `i` is 0):
/// the cells in between are filled in `puzzle`.
proof fn lemma_agree_across_gap(
    puzzle: Seq<u8>,
    spaces: Seq<(usize, usize)>,
    work: Seq<u8>,
    i: int,
    t: Seq<u8>,
)
    requires
        is_grid(puzzle),
        work.len() == 81,
        levels_of(puzzle, spaces),
        forall|y: int| 0 <= y < 81 && puzzle[y] != 0 ==> #[trigger] work[y] == puzzle[y],
        0 <= i < spaces.len(),
        is_solution(puzzle, t),
        i > 0 ==> agree_before(t, work, space_index(spaces[i - 1])) && t[space_index(
            spaces[i - 1],
        )] == work[space_index(spaces[i - 1])],
    ensures
        agree_before(t, work, space_index(spaces[i])),
{
    let x = space_index(spaces[i]);
    assert forall|m: int| 0 <= m < x implies t[m] == work[m] by {
        if puzzle[m] == 0 {
            let k = choose|k: int| 0 <= k < spaces.len() && space_index(#[trigger] spaces[k]) == m;
            if k >= i {
                if k > i {
                    assert(space_index(spaces[i]) < space_index(spaces[k]));
                }
            } else if k < i - 1 {
                assert(space_index(spaces[k]) < space_index(spaces[i - 1]));
            }
        }
    }
}

/// The digits of the search's progress: two for each value tried at a
/// level, and one more at the current level once its cell is filled.
spec fn search_digits(
    attempted: Seq<Vec<u8>>,
    work: Seq<u8>,
    spaces: Seq<(usize, usize)>,
    cursor: int,
) -> Seq<int> {
    Seq::new(
        attempted.len(),
        |j: int|
            2 * count_tried(attempted[j]@, 9) + if j == cursor && work[space_index(spaces[j])] != 0 {
                1int
            } else {
                0int
            },
    )
}

/// Every completion that agrees with `work` before level `j` puts there at
/// least the value of `work`, and none of the values rejected before it.
spec fn level_settled(
    puzzle: Seq<u8>,
    spaces: Seq<(usize, usize)>,
    work: Seq<u8>,
    tried: Seq<u8>,
    j: int,
) -> bool {
    let x = space_index(spaces[j]);
    forall|t: Seq<u8>|
        #[trigger] is_solution(puzzle, t) && agree_before(t, work, x) ==> t[x] >= work[x]
            && !tried.drop_last().contains(t[x])
}

/// No completion that agrees with `work` before level `j` puts there one of
/// the values tried.
spec fn level_open(
    puzzle: Seq<u8>,
    spaces: Seq<(usize, usize)>,
    work: Seq<u8>,
    tried: Seq<u8>,
    j: int,
) -> bool {
    let x = space_index(spaces[j]);
    forall|t: Seq<u8>| #[trigger] is_solution(puzzle, t) && agree_before(t, work, x) ==> !tried.contains(t[x])
}

/// Changing cells only after level `j`'s cell leaves it settled.
proof fn lemma_settled_frame(
    puzzle: Seq<u8>,
    spaces: Seq<(usize, usize)>,
    old_work: Seq<u8>,
    new_work: Seq<u8>,
    tried: Seq<u8>,
    j: int,
)
    requires
        level_settled(puzzle, spaces, old_work, tried, j),
        0 <= space_index(spaces[j]) < 81,
        forall|m: int| 0 <= m <= space_index(spaces[j]) ==> new_work[m] == old_work[m],
    ensures
        level_settled(puzzle, spaces, new_work, tried, j),
{
    let x = space_index(spaces[j]);
    assert forall|t: Seq<u8>| #[trigger]
        is_solution(puzzle, t) && agree_before(t, new_work, x) implies t[x] >= new_work[x]
        && !tried.drop_last().contains(t[x]) by {
        assert(agree_before(t, old_work, x));
    }
}

/// What holds between the steps of the search: the cells of the levels
/// before `cursor` are filled, legally, with the values last tried there;
/// no completion is skipped; and the levels after `cursor` are blank and
/// have tried nothing.
spec fn search_state(
    puzzle: Seq<u8>,
    spaces: Seq<(usize, usize)>,
    work: Seq<u8>,
    attempted: Seq<Vec<u8>>,
    cursor: int,
) -> bool {
    &&& is_grid(puzzle)
    &&& board_valid(puzzle)
    &&& levels_of(puzzle, spaces)
    &&& spaces.len() <= 81
    &&& 0 <= cursor <= spaces.len()
    &&& attempted.len() == spaces.len()
    &&& is_grid(work)
    &&& board_valid(work)
    &&& work_consistent(puzzle, spaces, work, cursor)
    &&& forall|j: int| 0 <= j < cursor ==> 1 <= #[trigger] work[space_index(spaces[j])] <= 9
    &&& forall|j: int|
        0 <= j < cursor ==> (#[trigger] attempted[j])@.len() >= 1 && attempted[j]@.last()
            == work[space_index(spaces[j])]
    &&& forall|j: int|
        0 <= j < cursor ==> #[trigger] level_settled(puzzle, spaces, work, attempted[j]@, j)
    &&& cursor < spaces.len() ==> level_open(puzzle, spaces, work, attempted[cursor]@, cursor)
    &&& forall|j: int| cursor < j < spaces.len() ==> (#[trigger] attempted[j])@.len() == 0
}

/// `forbidden` holds, among the non-zero values, exactly those in `tried`
/// and those of the row, column and box of the cell at `space` in `work`.
spec fn forbids(forbidden: Seq<u8>, work: Seq<u8>, tried: Seq<u8>, space: (usize, usize)) -> bool {
    forall|u: u8|
        u != 0 ==> (#[trigger] forbidden.contains(u) <==> tried.contains(u) || row_values(
            work,
            space.0 as int,
        ).contains(u) || column_values(work, space.1 as int).contains(u) || box_values(
            work,
            box_of(space.0 as int, space.1 as int),
        ).contains(u))
}

proof fn lemma_digits_bounded(
    attempted: Seq<Vec<u8>>,
    work: Seq<u8>,
    spaces: Seq<(usize, usize)>,
    cursor: int,
)
    ensures
        digits_bounded(search_digits(attempted, work, spaces, cursor)),
        0 <= rank(search_digits(attempted, work, spaces, cursor)) < pow20(attempted.len()),
{
    let d = search_digits(attempted, work, spaces, cursor);
    assert forall|j: int| 0 <= j < d.len() implies 0 <= #[trigger] d[j] < 20 by {
        lemma_count_tried_bounds(attempted[j]@, 9);
    }
    lemma_rank_bounded(d);
}

/// When every value of `1..=9` is forbidden at level `cursor`, no
/// completion agrees with the search before that level.
proof fn search_no_extension(
    puzzle: Seq<u8>,
    spaces: Seq<(usize, usize)>,
    work0: Seq<u8>,
    work1: Seq<u8>,
    attempted: Seq<Vec<u8>>,
    forbidden: Seq<u8>,
    cursor: int,
)
    requires
        search_state(puzzle, spaces, work0, attempted, cursor),
        cursor < spaces.len(),
        work1 == work0.update(space_index(spaces[cursor]), 0),
        forbids(forbidden, work1, attempted[cursor]@, spaces[cursor]),
        forall|u: u8| 1 <= u <= 9 ==> #[trigger] forbidden.contains(u),
    ensures
        forall|t: Seq<u8>|
            #[trigger] is_solution(puzzle, t) ==> !agree_before(t, work1, space_index(spaces[cursor])),
{
    let x = space_index(spaces[cursor]);
    assert forall|t: Seq<u8>| #[trigger] is_solution(puzzle, t) implies !agree_before(t, work1, x) by {
        if agree_before(t, work1, x) {
            assert(work_consistent(puzzle, spaces, work1, cursor)) by {
                assert forall|j: int| cursor < j < spaces.len() implies work1[space_index(
                    #[trigger] spaces[j],
                )] == 0 by {
                    assert(space_index(spaces[cursor]) < space_index(spaces[j]));
                }
            }
            lemma_completion_choice(puzzle, spaces, work1, cursor, t);
            assert(agree_before(t, work0, x));
            assert(forbidden.contains(t[x]));
        }
    }
}

/// Blanking the cell of level `cursor` leaves the cells of the levels after
/// it blank.
proof fn lemma_blanked_consistent(
    puzzle: Seq<u8>,
    spaces: Seq<(usize, usize)>,
    work0: Seq<u8>,
    work1: Seq<u8>,
    attempted: Seq<Vec<u8>>,
    cursor: int,
)
    requires
        search_state(puzzle, spaces, work0, attempted, cursor),
        cursor < spaces.len(),
        work1 == work0.update(space_index(spaces[cursor]), 0),
    ensures
        work_consistent(puzzle, spaces, work1, cursor),
        work_consistent(puzzle, spaces, work1, cursor - 1),
{
    assert forall|j: int| cursor < j < spaces.len() implies work1[space_index(
        #[trigger] spaces[j],
    )] == 0 by {
        assert(space_index(spaces[cursor]) < space_index(spaces[j]));
    }
}

/// Filling level `cursor` with the least allowed value moves the search on
/// one level, and raises its progress.
proof fn search_step_forward(
    puzzle: Seq<u8>,
    spaces: Seq<(usize, usize)>,
    work0: Seq<u8>,
    work1: Seq<u8>,
    work2: Seq<u8>,
    attempted0: Seq<Vec<u8>>,
    attempted2: Seq<Vec<u8>>,
    forbidden: Seq<u8>,
    cursor: int,
    v: u8,
)
    requires
        search_state(puzzle, spaces, work0, attempted0, cursor),
        cursor < spaces.len(),
        work1 == work0.update(space_index(spaces[cursor]), 0),
        work2 == work1.update(space_index(spaces[cursor]), v),
        board_valid(work2),
        forbids(forbidden, work1, attempted0[cursor]@, spaces[cursor]),
        1 <= v <= 9,
        !forbidden.contains(v),
        forall|u: u8| 1 <= u < v ==> #[trigger] forbidden.contains(u),
        attempted2.len() == attempted0.len(),
        attempted2[cursor]@ == attempted0[cursor]@.push(v),
        forall|j: int| 0 <= j < attempted0.len() && j != cursor ==> attempted2[j] == attempted0[j],
    ensures
        search_state(puzzle, spaces, work2, attempted2, cursor + 1),
        rank(search_digits(attempted0, work0, spaces, cursor)) < rank(
            search_digits(attempted2, work2, spaces, cursor + 1),
        ),
        rank(search_digits(attempted2, work2, spaces, cursor + 1)) < pow20(spaces.len()),
{
    let x = space_index(spaces[cursor]);
    let n = spaces.len() as int;
    let tried = attempted0[cursor]@;
    lemma_blanked_consistent(puzzle, spaces, work0, work1, attempted0, cursor);
    assert(is_grid(work2));
    assert forall|j: int| cursor + 1 < j < n implies work2[space_index(#[trigger] spaces[j])] == 0 by {
        assert(space_index(spaces[cursor]) < space_index(spaces[j]));
    }
    assert forall|j: int| 0 <= j < cursor + 1 implies 1 <= #[trigger] work2[space_index(spaces[j])]
        <= 9 by {
        if j < cursor {
            assert(space_index(spaces[j]) < x);
        }
    }
    assert forall|j: int| 0 <= j < cursor + 1 implies (#[trigger] attempted2[j])@.len() >= 1
        && attempted2[j]@.last() == work2[space_index(spaces[j])] by {
        if j < cursor {
            assert(space_index(spaces[j]) < x);
        }
    }
    assert forall|j: int| 0 <= j < cursor + 1 implies #[trigger] level_settled(
        puzzle,
        spaces,
        work2,
        attempted2[j]@,
        j,
    ) by {
        if j < cursor {
            assert(space_index(spaces[j]) < x);
            assert(level_settled(puzzle, spaces, work0, attempted0[j]@, j));
            lemma_settled_frame(puzzle, spaces, work0, work2, attempted0[j]@, j);
        } else {
            assert(attempted2[j]@.drop_last() == tried);
            assert forall|t: Seq<u8>| #[trigger]
                is_solution(puzzle, t) && agree_before(t, work2, x) implies t[x] >= work2[x]
                && !tried.contains(t[x]) by {
                assert(agree_before(t, work1, x));
                assert(agree_before(t, work0, x));
                lemma_completion_choice(puzzle, spaces, work1, cursor, t);
                assert(!forbidden.contains(t[x]));
            }
        }
    }
    let d0 = search_digits(attempted0, work0, spaces, cursor);
    let d2 = search_digits(attempted2, work2, spaces, cursor + 1);
    lemma_digits_bounded(attempted0, work0, spaces, cursor);
    lemma_digits_bounded(attempted2, work2, spaces, cursor + 1);
    assert(!tried.contains(v));
    lemma_count_tried_push(tried, v, 9);
    assert forall|j: int| 0 <= j < cursor implies d0[j] == d2[j] by {}
    if cursor + 1 < n {
        lemma_count_tried_empty(attempted2[cursor + 1]@, 9);
    }
    lemma_count_tried_bounds(tried, 9);
    lemma_rank_less(d0, d2, cursor);
}

/// Stepping back from a level that no completion reaches reopens the level
/// before, and raises the search's progress.
proof fn search_step_back(
    puzzle: Seq<u8>,
    spaces: Seq<(usize, usize)>,
    work0: Seq<u8>,
    work1: Seq<u8>,
    attempted0: Seq<Vec<u8>>,
    attempted1: Seq<Vec<u8>>,
    cursor: int,
)
    requires
        search_state(puzzle, spaces, work0, attempted0, cursor),
        0 < cursor < spaces.len(),
        work1 == work0.update(space_index(spaces[cursor]), 0),
        board_valid(work1),
        forall|t: Seq<u8>|
            #[trigger] is_solution(puzzle, t) ==> !agree_before(t, work1, space_index(spaces[cursor])),
        attempted1.len() == attempted0.len(),
        attempted1[cursor]@.len() == 0,
        forall|j: int| 0 <= j < attempted0.len() && j != cursor ==> attempted1[j] == attempted0[j],
    ensures
        search_state(puzzle, spaces, work1, attempted1, cursor - 1),
        rank(search_digits(attempted0, work0, spaces, cursor)) < rank(
            search_digits(attempted1, work1, spaces, cursor - 1),
        ),
        rank(search_digits(attempted1, work1, spaces, cursor - 1)) < pow20(spaces.len()),
{
    let x = space_index(spaces[cursor]);
    let n = spaces.len() as int;
    let c1 = cursor - 1;
    let x1 = space_index(spaces[c1]);
    lemma_blanked_consistent(puzzle, spaces, work0, work1, attempted0, cursor);
    assert(x1 < x);
    assert(is_grid(work1));
    assert forall|j: int| 0 <= j < c1 implies 1 <= #[trigger] work1[space_index(spaces[j])] <= 9 by {
        assert(space_index(spaces[j]) < x);
    }
    assert forall|j: int| 0 <= j < c1 implies (#[trigger] attempted1[j])@.len() >= 1
        && attempted1[j]@.last() == work1[space_index(spaces[j])] by {
        assert(space_index(spaces[j]) < x);
    }
    assert forall|j: int| 0 <= j < c1 implies #[trigger] level_settled(
        puzzle,
        spaces,
        work1,
        attempted1[j]@,
        j,
    ) by {
        assert(space_index(spaces[j]) < x);
        assert(level_settled(puzzle, spaces, work0, attempted0[j]@, j));
        lemma_settled_frame(puzzle, spaces, work0, work1, attempted0[j]@, j);
    }
    let tried = attempted0[c1]@;
    assert(level_settled(puzzle, spaces, work0, tried, c1));
    assert(tried == tried.drop_last().push(tried.last()));
    crate::values::lemma_push_contains(tried.drop_last(), tried.last());
    assert forall|t: Seq<u8>| #[trigger]
        is_solution(puzzle, t) && agree_before(t, work1, x1) implies !tried.contains(t[x1]) by {
        assert(agree_before(t, work0, x1));
        if t[x1] == work1[x1] {
            lemma_agree_across_gap(puzzle, spaces, work1, cursor, t);
        }
    }
    assert forall|j: int| c1 < j < n implies (#[trigger] attempted1[j])@.len() == 0 by {}
    let d0 = search_digits(attempted0, work0, spaces, cursor);
    let d1 = search_digits(attempted1, work1, spaces, c1);
    lemma_digits_bounded(attempted0, work0, spaces, cursor);
    lemma_digits_bounded(attempted1, work1, spaces, c1);
    assert forall|j: int| 0 <= j < c1 implies d0[j] == d1[j] by {}
    lemma_rank_less(d0, d1, c1);
}

/// The values of `1..=9` that the cell at `row` and `column` cannot take:
/// those in `tried`, and those already in its row, column or box.
fn forbidden_values(work: &SudokuBoard, tried: &Vec<u8>, row: usize, column: usize) -> (r: Vec<u8>)
    requires
        row < 9,
        column < 9,
    ensures
        forbids(r@, work@, tried@, (row, column)),
{
    let in_row = work.row_at(row);
    let in_column = work.column_at(column);
    let in_box = work.box_at(3 * (row / 3) + column / 3);
    let mut all: Vec<u8> = Vec::new();
    append_nonzero(&mut all, tried);
    let ghost all1 = all@;
    append_nonzero(&mut all, &in_row);
    let ghost all2 = all@;
    append_nonzero(&mut all, &in_column);
    let ghost all3 = all@;
    append_nonzero(&mut all, &in_box);
    let distinct = unique_values(&all);
    proof {
        lemma_first_occurrences(all@);
        assert forall|u: u8| u != 0 implies (#[trigger] distinct@.contains(u) <==> tried@.contains(u)
            || in_row@.contains(u) || in_column@.contains(u) || in_box@.contains(u)) by {
            assert(all1.contains(u) <==> tried@.contains(u));
            assert(all2.contains(u) <==> all1.contains(u) || in_row@.contains(u));
            assert(all3.contains(u) <==> all2.contains(u) || in_column@.contains(u));
            assert(all@.contains(u) <==> all3.contains(u) || in_box@.contains(u));
        }
    }
    distinct
}

/// Depth-first search over the blank cells of `puzzle`, in the order of
/// `spaces`. Each step blanks the current cell and fills it with the least
/// value that its row, column and box lack and that was not tried there
/// since the search last arrived from the level before; when there is none,
/// it forgets what was tried there and steps back one level.
pub(crate) fn search(puzzle: &SudokuBoard, spaces: &Vec<(usize, usize)>) -> (r: Result<SudokuBoard, SudokuError>)
    requires
        board_valid(puzzle@),
        spaces@ == unsolved_spaces(puzzle@),
    ensures
        match r {
            Ok(b) => is_least_solution(puzzle@, b@),
            Err(e) => e == SudokuError::Unsolvable && !solvable(puzzle@),
        },
{
    proof {
        use_type_invariant(puzzle);
        lemma_levels_of(puzzle@);
    }
    let ghost base = puzzle@;
    let ghost sp = spaces@;
    let n = spaces.len();
    let mut attempted: Vec<Vec<u8>> = Vec::new();
    let mut k: usize = 0;
    while k < n
        invariant
            k <= n,
            n == spaces@.len(),
            attempted@.len() == k,
            forall|j: int| 0 <= j < k ==> (#[trigger] attempted@[j])@.len() == 0,
        decreases n - k,
    {
        attempted.push(Vec::new());
        k = k + 1;
    }
    let mut work = SudokuBoard::copy(puzzle);
    let mut cursor: usize = 0;
    while cursor < n
        invariant
            n == sp.len(),
            sp == spaces@,
            base == puzzle@,
            search_state(base, sp, work@, attempted@, cursor as int),
        decreases pow20(n as nat) - rank(search_digits(attempted@, work@, sp, cursor as int)),
    {
        proof {
            lemma_digits_bounded(attempted@, work@, sp, cursor as int);
        }
        let ghost work0 = work@;
        let ghost attempted0 = attempted@;
        let ghost c0 = cursor as int;
        let ghost tried0 = attempted@[c0]@;
        let (row, column) = spaces[cursor];
        let ghost x = space_index(sp[c0]);
        proof {
            assert(0 <= x < 81);
            assert(x / 9 == row && x % 9 == column);
            lemma_board_update(work0, x, 0);
        }
        work.set_value(row, column, 0);
        let ghost work1 = work@;
        let forbidden = forbidden_values(&work, &attempted[cursor], row, column);
        match first_allowed_value(&forbidden) {
            Some(v) => {
                proof {
                    lemma_board_update(work1, x, v);
                }
                work.set_value(row, column, v);
                attempted[cursor].push(v);
                cursor = cursor + 1;
                proof {
                    search_step_forward(
                        base,
                        sp,
                        work0,
                        work1,
                        work@,
                        attempted0,
                        attempted@,
                        forbidden@,
                        c0,
                        v,
                    );
                }
            },
            None => {
                attempted[cursor] = Vec::new();
                proof {
                    search_no_extension(base, sp, work0, work1, attempted0, forbidden@, c0);
                }
                if cursor == 0 {
                    proof {
                        assert forall|t: Seq<u8>| #[trigger] is_solution(base, t) implies false by {
                            lemma_agree_across_gap(base, sp, work1, 0, t);
                        }
                    }
                    return Err(SudokuError::Unsolvable);
                }
                cursor = cursor - 1;
                proof {
                    search_step_back(base, sp, work0, work1, attempted0, attempted@, c0);
                }
            },
        }
    }
    proof {
        let w = work@;
        assert forall|y: int| 0 <= y < 81 implies 1 <= #[trigger] w[y] <= 9 by {
            if base[y] == 0 {
                let j = choose|j: int| 0 <= j < sp.len() && space_index(#[trigger] sp[j]) == y;
            }
        }
        assert forall|t: Seq<u8>| #[trigger] is_solution(base, t) implies !lex_less(t, w) by {
            if lex_less(t, w) {
                let k = choose|k: int| 0 <= k < 81 && #[trigger] agree_before(t, w, k) && t[k] < w[k];
                if base[k] == 0 {
                    let j = choose|j: int| 0 <= j < sp.len() && space_index(#[trigger] sp[j]) == k;
                    assert(level_settled(base, sp, w, attempted@[j]@, j));
                }
            }
        }
    }
    Ok(work)
}

} // verus!
