//! Stack-based turtle interpretation of a derived symbol string.
//!
//! The machine walks the string once, left to right.  `F`, `G` and `X`
//! move the turtle one segment forward and record the new point; `+` and
//! `-` turn it by one unit angle (clockwise and counter-clockwise); `[`
//! saves the position and heading; `]` closes the current polyline,
//! restores the saved state and opens a fresh polyline there.  Every other
//! symbol is ignored.
//!
//! Geometry stays exact: a heading is the signed number of unit turns from
//! the initial direction, and a point is the sequence of headings of the
//! forward moves that lead from the origin to it.  A renderer evaluates a
//! point by summing, over its entries `m`, the unit vector at angle
//! `m * angle`, scaled by the segment length.

use vstd::prelude::*;

use crate::LsError;

verus! {

/// One vertex of a polyline, identified exactly by the headings of the
/// forward moves from the origin to it.
#[derive(Clone, Debug, PartialEq, Eq)]
pub struct Point {
    pub moves: Vec<i128>,
}

impl View for Point {
    type V = Seq<int>;

    open spec fn view(&self) -> Seq<int> {
        self.moves@.map_values(|m: i128| m as int)
    }
}

/// An ordered run of vertices drawn as connected straight segments.
#[derive(Clone, Debug, PartialEq, Eq)]
pub struct Polyline {
    pub points: Vec<Point>,
}

impl View for Polyline {
    type V = Seq<Seq<int>>;

    open spec fn view(&self) -> Seq<Seq<int>> {
        self.points@.map_values(|p: Point| p@)
    }
}

/// The view of a heading list.
pub open spec fn moves_view(v: Seq<i128>) -> Seq<int> {
    v.map_values(|m: i128| m as int)
}

/// The view of a saved-state stack.
pub open spec fn stack_view(v: Seq<(Vec<i128>, i128)>) -> Seq<(Seq<int>, int)> {
    v.map_values(|t: (Vec<i128>, i128)| (t.0@.map_values(|m: i128| m as int), t.1 as int))
}

/// The view of a polyline under construction.
pub open spec fn line_view(v: Seq<Point>) -> Seq<Seq<int>> {
    v.map_values(|p: Point| p@)
}

/// The view of the finished output.
pub open spec fn paths_view(v: Seq<Polyline>) -> Seq<Seq<Seq<int>>> {
    v.map_values(|l: Polyline| l@)
}

/// The full turtle state, as the specification sees it.
#[verifier::ext_equal]
pub struct TurtleModel {
    /// Signed count of unit turns from the initial direction.
    pub heading: int,
    /// The point the turtle stands on.
    pub position: Seq<int>,
    /// Saved (position, heading) pairs of the open branches.
    pub stack: Seq<(Seq<int>, int)>,
    /// The polyline accumulated since the last branch close or the start.
    pub current: Seq<Seq<int>>,
    /// The polylines already closed.
    pub finished: Seq<Seq<Seq<int>>>,
}

/// The state at the very start: at the origin, heading unturned, one open
/// polyline holding just the origin.
pub open spec fn initial_model() -> TurtleModel {
    TurtleModel {
        heading: 0,
        position: Seq::empty(),
        stack: Seq::empty(),
        current: seq![Seq::<int>::empty()],
        finished: Seq::empty(),
    }
}

/// The symbols that move the turtle forward and draw.
pub open spec fn is_forward(c: char) -> bool {
    c == 'F' || c == 'G' || c == 'X'
}

/// What one symbol does to the turtle state.  For `]` this is only
/// meaningful when the stack is not empty; the interpretation below
/// reports the error before stepping.
pub open spec fn model_step(m: TurtleModel, c: char) -> TurtleModel {
    if is_forward(c) {
        let p = m.position.push(m.heading);
        TurtleModel {
            heading: m.heading,
            position: p,
            stack: m.stack,
            current: m.current.push(p),
            finished: m.finished,
        }
    } else if c == '+' {
        TurtleModel {
            heading: m.heading - 1,
            position: m.position,
            stack: m.stack,
            current: m.current,
            finished: m.finished,
        }
    } else if c == '-' {
        TurtleModel {
            heading: m.heading + 1,
            position: m.position,
            stack: m.stack,
            current: m.current,
            finished: m.finished,
        }
    } else if c == '[' {
        TurtleModel {
            heading: m.heading,
            position: m.position,
            stack: m.stack.push((m.position, m.heading)),
            current: m.current,
            finished: m.finished,
        }
    } else if c == ']' {
        TurtleModel {
            heading: m.stack.last().1,
            position: m.stack.last().0,
            stack: m.stack.drop_last(),
            current: seq![m.stack.last().0],
            finished: m.finished.push(m.current),
        }
    } else {
        m
    }
}

/// Interpretation of `s` from index `i` in state `m`: either the finished
/// polylines (the still-open one appended last) or the index of the first
/// `]` met with no open `[`.
pub open spec fn interp_from(s: Seq<char>, i: int, m: TurtleModel) -> Result<
    Seq<Seq<Seq<int>>>,
    int,
>
    decreases s.len() - i,
{
    if i < 0 || i >= s.len() {
        Ok(m.finished.push(m.current))
    } else if s[i] == ']' && m.stack.len() == 0 {
        Err(i)
    } else {
        interp_from(s, i + 1, model_step(m, s[i]))
    }
}

/// Interpretation of a whole derived string from the initial state.
pub open spec fn interp(s: Seq<char>) -> Result<Seq<Seq<Seq<int>>>, int> {
    interp_from(s, 0, initial_model())
}

/// How many forward (drawing) symbols `s` holds in `[i, j)`.
pub open spec fn count_forwards(s: Seq<char>, i: int, j: int) -> int
    decreases j - i,
{
    if i < 0 || i >= j || j > s.len() {
        0
    } else {
        (if is_forward(s[i]) {
            1int
        } else {
            0int
        }) + count_forwards(s, i + 1, j)
    }
}

/// How many `[` symbols `s` holds in `[i, j)`.
pub open spec fn count_opens(s: Seq<char>, i: int, j: int) -> int
    decreases j - i,
{
    if i < 0 || i >= j || j > s.len() {
        0
    } else {
        (if s[i] == '[' {
            1int
        } else {
            0int
        }) + count_opens(s, i + 1, j)
    }
}

/// How many `]` symbols `s` holds in `[i, j)`.
pub open spec fn count_closes(s: Seq<char>, i: int, j: int) -> int
    decreases j - i,
{
    if i < 0 || i >= j || j > s.len() {
        0
    } else {
        (if s[i] == ']' {
            1int
        } else {
            0int
        }) + count_closes(s, i + 1, j)
    }
}

/// The first `]` at or after `i` that closes more than `depth` many open
/// `[`, walking left to right.
pub open spec fn first_unmatched_close(s: Seq<char>, i: int, depth: int) -> Option<int>
    decreases s.len() - i,
{
    if i < 0 || i >= s.len() {
        None
    } else if s[i] == ']' && depth == 0 {
        Some(i)
    } else if s[i] == ']' {
        first_unmatched_close(s, i + 1, depth - 1)
    } else if s[i] == '[' {
        first_unmatched_close(s, i + 1, depth + 1)
    } else {
        first_unmatched_close(s, i + 1, depth)
    }
}

/// Interpretation fails exactly where `first_unmatched_close` points, and
/// succeeds when there is no such place.
pub proof fn lemma_interp_err_iff(s: Seq<char>, i: int, m: TurtleModel)
    requires
        0 <= i <= s.len(),
    ensures
        match first_unmatched_close(s, i, m.stack.len() as int) {
            Some(j) => interp_from(s, i, m) matches Err(e) && e == j,
            None => interp_from(s, i, m) is Ok,
        },
    decreases s.len() - i,
{
    if i < s.len() {
        let c = s[i];
        if c == ']' && m.stack.len() == 0 {
        } else {
            lemma_interp_err_iff(s, i + 1, model_step(m, c));
        }
    }
}

/// Where `first_unmatched_close` points, the symbol is a `]` whose
/// preceding brackets leave no `[` open; before it, every `]` still has an
/// open `[`.
pub proof fn lemma_first_unmatched_close_props(s: Seq<char>, i: int, d: int)
    requires
        0 <= i <= s.len(),
        d >= 0,
    ensures
        match first_unmatched_close(s, i, d) {
            Some(j) => i <= j < s.len() && s[j] == ']' && d + count_opens(s, i, j) - count_closes(
                s,
                i,
                j,
            ) == 0 && forall|l: int|
                i <= l < j && s[l] == ']' ==> d + count_opens(s, i, l) - count_closes(s, i, l) > 0,
            None => forall|l: int|
                i <= l < s.len() && s[l] == ']' ==> d + count_opens(s, i, l) - count_closes(
                    s,
                    i,
                    l,
                ) > 0,
        },
    decreases s.len() - i,
{
    if i < s.len() {
        let c = s[i];
        if c == ']' && d == 0 {
        } else {
            let d2 = if c == ']' {
                d - 1
            } else if c == '[' {
                d + 1
            } else {
                d
            };
            lemma_first_unmatched_close_props(s, i + 1, d2);
            assert forall|l: int| i <= l < s.len() implies d + count_opens(s, i, l) - count_closes(
                s,
                i,
                l,
            ) == d2 + count_opens(s, i + 1, l) - count_closes(s, i + 1, l) || l == i by {
                if l > i {
                    assert(count_opens(s, i, l) == (if s[i] == '[' {
                        1int
                    } else {
                        0int
                    }) + count_opens(s, i + 1, l));
                    assert(count_closes(s, i, l) == (if s[i] == ']' {
                        1int
                    } else {
                        0int
                    }) + count_closes(s, i + 1, l));
                }
            }
        }
    }
}

/// A successful interpretation yields one polyline per `]`, plus the
/// trailing still-open one.
pub proof fn lemma_interp_path_count_from(s: Seq<char>, i: int, m: TurtleModel)
    requires
        0 <= i <= s.len(),
    ensures
        interp_from(s, i, m) matches Ok(p) ==> p.len() == m.finished.len() + 1 + count_closes(
            s,
            i,
            s.len() as int,
        ),
    decreases s.len() - i,
{
    if i < s.len() {
        let c = s[i];
        if c == ']' && m.stack.len() == 0 {
        } else {
            lemma_interp_path_count_from(s, i + 1, model_step(m, c));
        }
    }
}

/// A bracket-free tail leaves one growing polyline: the result closes the
/// open one after one new point per forward symbol.
pub proof fn lemma_interp_no_brackets_from(s: Seq<char>, i: int, m: TurtleModel)
    requires
        0 <= i <= s.len(),
        forall|j: int| i <= j < s.len() ==> s[j] != '[' && s[j] != ']',
    ensures
        interp_from(s, i, m) matches Ok(p) && p.len() == m.finished.len() + 1 && p.last().len()
            == m.current.len() + count_forwards(s, i, s.len() as int) && p.drop_last()
            == m.finished,
    decreases s.len() - i,
{
    if i < s.len() {
        lemma_interp_no_brackets_from(s, i + 1, model_step(m, s[i]));
    } else {
        assert(m.finished.push(m.current).drop_last() =~= m.finished);
    }
}

/// Interpreting a derived string without brackets produces exactly one
/// polyline, holding one point more than the string has forward symbols.
pub proof fn lemma_no_brackets_single_path(s: Seq<char>)
    requires
        forall|j: int| 0 <= j < s.len() ==> s[j] != '[' && s[j] != ']',
    ensures
        interp(s) matches Ok(p) && p.len() == 1 && p[0].len() == 1 + count_forwards(
            s,
            0,
            s.len() as int,
        ),
{
    lemma_interp_no_brackets_from(s, 0, initial_model());
}

/// Bracket accounting: for a derived string whose `k` many `]` all match
/// an earlier `[` and that leaves no `[` unmatched, interpretation
/// succeeds with exactly `k + 1` polylines.
pub proof fn lemma_balanced_path_count(s: Seq<char>)
    requires
        forall|l: int|
            0 <= l < s.len() && s[l] == ']' ==> count_opens(s, 0, l) - count_closes(s, 0, l) > 0,
        count_opens(s, 0, s.len() as int) == count_closes(s, 0, s.len() as int),
    ensures
        interp(s) matches Ok(p) && p.len() == 1 + count_closes(s, 0, s.len() as int),
{
    lemma_first_unmatched_close_props(s, 0, 0);
    lemma_interp_err_iff(s, 0, initial_model());
    lemma_interp_path_count_from(s, 0, initial_model());
}

/// A `]` met while no `[` is open is reported with its index; when no such
/// `]` exists, interpretation succeeds.
pub proof fn lemma_unbalanced_detection(s: Seq<char>)
    ensures
        match first_unmatched_close(s, 0, 0) {
            Some(j) => (interp(s) matches Err(e) && e == j) && 0 <= j < s.len() && s[j] == ']'
                && count_opens(s, 0, j) == count_closes(s, 0, j) && forall|l: int|
                0 <= l < j && s[l] == ']' ==> count_opens(s, 0, l) > count_closes(s, 0, l),
            None => interp(s) is Ok,
        },
{
    lemma_first_unmatched_close_props(s, 0, 0);
    lemma_interp_err_iff(s, 0, initial_model());
}

/// Interpretation is deterministic: any two results of the same derived
/// string are equal.
pub proof fn lemma_interpret_deterministic(
    r1: Result<Seq<Seq<Seq<int>>>, int>,
    r2: Result<Seq<Seq<Seq<int>>>, int>,
    s: Seq<char>,
)
    requires
        r1 == interp(s),
        r2 == interp(s),
    ensures
        r1 == r2,
{
}

/// An exact copy of a heading list.
pub fn copy_moves(s: &Vec<i128>) -> (r: Vec<i128>)
    ensures
        r@ == s@,
{
    let mut r: Vec<i128> = Vec::new();
    let mut i: usize = 0;
    while i < s.len()
        invariant
            i <= s.len(),
            r@ == s@.take(i as int),
        decreases s.len() - i,
    {
        r.push(s[i]);
        proof {
            assert(s@.take(i + 1) =~= s@.take(i as int).push(s@[i as int]));
        }
        i = i + 1;
    }
    proof {
        assert(s@.take(s@.len() as int) =~= s@);
    }
    r
}

/// Walks the derived string once and returns its polylines, or the index
/// of the first unmatched `]`.
pub fn interpret(s: &Vec<char>) -> (r: Result<Vec<Polyline>, LsError>)
    ensures
        match interp(s@) {
            Ok(paths) => r matches Ok(v) && paths_view(v@) == paths,
            Err(i) => r matches Err(e) && 0 <= i < s@.len() && e == LsError::UnbalancedBracket(
                i as usize,
            ),
        },
{
    let mut heading: i128 = 0;
    let mut position: Vec<i128> = Vec::new();
    let mut stack: Vec<(Vec<i128>, i128)> = Vec::new();
    let mut current: Vec<Point> = Vec::new();
    current.push(Point { moves: Vec::new() });
    let mut finished: Vec<Polyline> = Vec::new();

    proof {
        assert(moves_view(position@) =~= initial_model().position);
        assert(stack_view(stack@) =~= initial_model().stack);
        assert(current@[0]@ =~= Seq::<int>::empty());
        assert(line_view(current@) =~= initial_model().current);
        assert(paths_view(finished@) =~= initial_model().finished);
        assert(TurtleModel {
            heading: heading as int,
            position: moves_view(position@),
            stack: stack_view(stack@),
            current: line_view(current@),
            finished: paths_view(finished@),
        } =~~= initial_model());
    }

    let mut i: usize = 0;
    while i < s.len()
        invariant
            i <= s.len(),
            -(i as int) <= heading as int <= i as int,
            forall|j: int|
                0 <= j < stack@.len() ==> -(i as int) <= (#[trigger] stack@[j]).1 as int
                    <= i as int,
            interp(s@) == interp_from(
                s@,
                i as int,
                TurtleModel {
                    heading: heading as int,
                    position: moves_view(position@),
                    stack: stack_view(stack@),
                    current: line_view(current@),
                    finished: paths_view(finished@),
                },
            ),
        decreases s.len() - i,
    {
        let ghost m0 = TurtleModel {
            heading: heading as int,
            position: moves_view(position@),
            stack: stack_view(stack@),
            current: line_view(current@),
            finished: paths_view(finished@),
        };
        let c = s[i];
        if c == 'F' || c == 'G' || c == 'X' {
            position.push(heading);
            let snapshot = copy_moves(&position);
            current.push(Point { moves: snapshot });
            proof {
                assert(moves_view(position@) =~= m0.position.push(m0.heading));
                assert(line_view(current@) =~= m0.current.push(moves_view(position@)));
            }
        } else if c == '+' {
            heading = heading - 1;
        } else if c == '-' {
            heading = heading + 1;
        } else if c == '[' {
            let snapshot = copy_moves(&position);
            stack.push((snapshot, heading));
            proof {
                assert(stack_view(stack@) =~= m0.stack.push((m0.position, m0.heading)));
            }
        } else if c == ']' {
            if stack.len() == 0 {
                proof {
                    assert(m0.stack.len() == 0);
                }
                return Err(LsError::UnbalancedBracket(i));
            }
            let top = match stack.pop() {
                Some(t) => t,
                None => {
                    return Err(LsError::UnbalancedBracket(i));
                },
            };
            finished.push(Polyline { points: current });
            position = top.0;
            heading = top.1;
            current = Vec::new();
            let snapshot = copy_moves(&position);
            current.push(Point { moves: snapshot });
            proof {
                assert(m0.stack.last() == (moves_view(position@), heading as int));
                assert(stack_view(stack@) =~= m0.stack.drop_last());
                assert(line_view(current@) =~= seq![moves_view(position@)]);
                assert(paths_view(finished@) =~= m0.finished.push(m0.current));
            }
        }
        proof {
            let m1 = TurtleModel {
                heading: heading as int,
                position: moves_view(position@),
                stack: stack_view(stack@),
                current: line_view(current@),
                finished: paths_view(finished@),
            };
            assert(m1 =~~= model_step(m0, c));
        }
        i = i + 1;
    }
    finished.push(Polyline { points: current });
    proof {
        assert(paths_view(finished@) =~= interp(s@)->Ok_0);
    }
    Ok(finished)
}

} // verus!
