//! Reduction: apply the elimination strategies until none changes the grid.
use vstd::prelude::*;
use crate::grid::{Grid, Kind, narrower, differs, solved_spec, has_empty, kind_solved, unit_solved, digit_count,
    same_cells, lemma_same_grid, lemma_narrower_keeps};
use crate::level::Level;
use crate::model::{narrows, total, lemma_total_mono, lemma_narrows_refl, lemma_narrows_trans};
use crate::strategies::{holders, lemma_holders, point_of};
use crate::strategies::naked_single::naked_single_applies;
use crate::strategies::hidden_single::hidden_single_applies;
use crate::strategies::naked_pair::naked_pair_applies;
use crate::strategies::naked_triple::naked_triple_applies;
use crate::strategies::hidden_pair::hidden_pair_applies;
use crate::strategies::hidden_triple::hidden_triple_applies;
use crate::strategies::hidden_quad::hidden_quad_applies;
use crate::strategies::pointing_line::pointing_applies;
use crate::strategies::box_line::{box_line_applies, box_line_result};
use crate::strategies::pass::grid_is;
use crate::strategies::naked_single::naked_single_result;
use crate::strategies::naked_pair::naked_pair_result;
use crate::strategies::naked_triple::naked_triple_result;
use crate::strategies::pointing_line::pointing_result;
use crate::strategies::hidden_single::{hidden_single_result, lemma_hidden_single_determined};
use crate::strategies::hidden_pair::{hidden_pair_result, lemma_hidden_pair_determined};
use crate::strategies::hidden_triple::{hidden_triple_result, lemma_hidden_triple_determined};
use crate::strategies::hidden_quad::{hidden_quad_result, lemma_hidden_quad_determined};

verus! {

/// The elimination strategies used by `reduce`, in alphabetical order of their names.
#[derive(Clone, Copy, Debug, PartialEq, Eq, Structural)]
pub enum Strategy {
    BoxLine,
    HiddenPair,
    HiddenQuad,
    HiddenSingle,
    HiddenTriple,
    NakedPair,
    NakedSingle,
    NakedTriple,
    PointingLine,
}

/// The strategy can remove a candidate from `g`.
pub open spec fn applies(s: Strategy, g: Grid) -> bool {
    match s {
        Strategy::BoxLine => box_line_applies(g),
        Strategy::HiddenPair => hidden_pair_applies(g),
        Strategy::HiddenQuad => hidden_quad_applies(g),
        Strategy::HiddenSingle => hidden_single_applies(g),
        Strategy::HiddenTriple => hidden_triple_applies(g),
        Strategy::NakedPair => naked_pair_applies(g),
        Strategy::NakedSingle => naked_single_applies(g),
        Strategy::NakedTriple => naked_triple_applies(g),
        Strategy::PointingLine => pointing_applies(g),
    }
}

/// The position of a strategy in alphabetical order.
pub open spec fn index_of(s: Strategy) -> int {
    match s {
        Strategy::BoxLine => 0,
        Strategy::HiddenPair => 1,
        Strategy::HiddenQuad => 2,
        Strategy::HiddenSingle => 3,
        Strategy::HiddenTriple => 4,
        Strategy::NakedPair => 5,
        Strategy::NakedSingle => 6,
        Strategy::NakedTriple => 7,
        Strategy::PointingLine => 8,
    }
}

/// The name of the strategy at position `i` in alphabetical order.
pub open spec fn name_at(i: int) -> Seq<char> {
    if i == 0 {
        "box_line"@
    } else if i == 1 {
        "hidden_pair"@
    } else if i == 2 {
        "hidden_quad"@
    } else if i == 3 {
        "hidden_single"@
    } else if i == 4 {
        "hidden_triple"@
    } else if i == 5 {
        "naked_pair"@
    } else if i == 6 {
        "naked_single"@
    } else if i == 7 {
        "naked_triple"@
    } else {
        "pointing_line"@
    }
}

impl Strategy {
    /// Returns the position of the strategy in alphabetical order.
    pub fn index(&self) -> (i: usize)
        ensures
            i == index_of(*self),
            i < 9,
    {
        match self {
            Strategy::BoxLine => 0,
            Strategy::HiddenPair => 1,
            Strategy::HiddenQuad => 2,
            Strategy::HiddenSingle => 3,
            Strategy::HiddenTriple => 4,
            Strategy::NakedPair => 5,
            Strategy::NakedSingle => 6,
            Strategy::NakedTriple => 7,
            Strategy::PointingLine => 8,
        }
    }

    /// Returns the name of the strategy.
    pub fn name(&self) -> (n: &'static str)
        ensures
            n@ == name_at(index_of(*self)),
    {
        match self {
            Strategy::BoxLine => "box_line",
            Strategy::HiddenPair => "hidden_pair",
            Strategy::HiddenQuad => "hidden_quad",
            Strategy::HiddenSingle => "hidden_single",
            Strategy::HiddenTriple => "hidden_triple",
            Strategy::NakedPair => "naked_pair",
            Strategy::NakedSingle => "naked_single",
            Strategy::NakedTriple => "naked_triple",
            Strategy::PointingLine => "pointing_line",
        }
    }
}

/// The set of strategies that changed the grid, by position in alphabetical order.
pub struct StrategySet {
    pub used: [bool; 9],
}

impl StrategySet {
    /// Returns the empty set.
    pub fn new() -> (set: StrategySet)
        ensures
            forall|i: int| 0 <= i < 9 ==> !#[trigger] set.used[i],
    {
        let set = StrategySet { used: [false; 9] };
        proof {
            broadcast use vstd::array::group_array_axioms;
            assert forall|i: int| 0 <= i < 9 implies !#[trigger] set.used[i] by {
                assert(set.used@[i] == false);
            }
        }
        set
    }

    /// Adds a strategy to the set.
    pub fn insert(&mut self, s: Strategy)
        ensures
            forall|i: int| 0 <= i < 9 ==> #[trigger] final(self).used[i] == (old(self).used[i] || i == index_of(s)),
    {
        let i = s.index();
        self.used[i] = true;
    }

    /// Returns whether the strategy is in the set.
    pub fn contains(&self, s: Strategy) -> (r: bool)
        ensures
            r == self.used[index_of(s)],
    {
        self.used[s.index()]
    }
}

/// `after` is `before` with strategy `s` added.
pub open spec fn added(before: [bool; 9], after: [bool; 9], s: Strategy) -> bool {
    forall|i: int| 0 <= i < 9 ==> #[trigger] after[i] == (before[i] || i == index_of(s))
}

/// The names of the used strategies among the first `n`, in alphabetical order.
pub open spec fn used_names(used: [bool; 9], n: int) -> Seq<Seq<char>>
    decreases n,
{
    if n <= 0 {
        Seq::empty()
    } else if used[n - 1] {
        used_names(used, n - 1).push(name_at(n - 1))
    } else {
        used_names(used, n - 1)
    }
}

/// The texts of `names` joined by `", "`.
pub open spec fn join_names(names: Seq<Seq<char>>) -> Seq<char>
    decreases names.len(),
{
    if names.len() == 0 {
        Seq::empty()
    } else if names.len() == 1 {
        names[0]
    } else {
        join_names(names.drop_last()) + ", "@ + names.last()
    }
}

/// Returns the strategy at position `i` in alphabetical order.
pub fn strategy_at(i: usize) -> (s: Strategy)
    requires
        i < 9,
    ensures
        index_of(s) == i,
{
    if i == 0 {
        Strategy::BoxLine
    } else if i == 1 {
        Strategy::HiddenPair
    } else if i == 2 {
        Strategy::HiddenQuad
    } else if i == 3 {
        Strategy::HiddenSingle
    } else if i == 4 {
        Strategy::HiddenTriple
    } else if i == 5 {
        Strategy::NakedPair
    } else if i == 6 {
        Strategy::NakedSingle
    } else if i == 7 {
        Strategy::NakedTriple
    } else {
        Strategy::PointingLine
    }
}

impl StrategySet {
    /// Returns the names of the strategies in the set, sorted.
    pub fn names(&self) -> (names: Vec<&'static str>)
        ensures
            names@.map_values(|n: &'static str| n@) == used_names(self.used, 9),
    {
        let mut names: Vec<&'static str> = Vec::new();
        let mut i: usize = 0;
        while i < 9
            invariant
                i <= 9,
                names@.map_values(|n: &'static str| n@) == used_names(self.used, i as int),
            decreases 9 - i,
        {
            if self.used[i] {
                let n = strategy_at(i).name();
                let ghost prev = names@;
                names.push(n);
                proof {
                    assert(names@.map_values(|n: &'static str| n@) =~= prev.map_values(|n: &'static str| n@).push(n@));
                }
            }
            i += 1;
        }
        names
    }

    /// Returns the names of the strategies in the set, sorted and joined by `", "`.
    pub fn joined(&self) -> (text: String)
        ensures
            text@ == join_names(used_names(self.used, 9)),
    {
        let names = self.names();
        let ghost all = names@.map_values(|n: &'static str| n@);
        let mut text = String::new();
        let mut i: usize = 0;
        while i < names.len()
            invariant
                i <= names.len(),
                all == names@.map_values(|n: &'static str| n@),
                text@ == join_names(all.take(i as int)),
            decreases names.len() - i,
        {
            if i > 0 {
                vstd::string::StringExecFns::append(&mut text, ", ");
            }
            vstd::string::StringExecFns::append(&mut text, names[i]);
            proof {
                reveal_strlit(", ");
                assert(all.take(i + 1).drop_last() =~= all.take(i as int));
                assert(all.take(i + 1).last() == names@[i as int]@);
                if i == 0 {
                    assert(all.take(1) =~= seq![names@[0]@]);
                }
            }
            i += 1;
        }
        proof {
            assert(all.take(names.len() as int) =~= all);
        }
        text
    }
}

impl Grid {
    /// Applies one strategy; returns what the strategy returns.
    pub fn apply(&mut self, s: Strategy) -> (res: bool)
        requires
            old(self).fits(),
        ensures
            narrows(*old(self), *final(self)),
            res == differs(*final(self), *old(self)),
            res == applies(s, *old(self)),
            !res ==> *final(self) == *old(self),
            step_is(s, *old(self), *final(self)),
    {
        let ghost g0 = *self;
        let res = match s {
            Strategy::BoxLine => self.box_line(),
            Strategy::HiddenPair => self.hidden_pair(),
            Strategy::HiddenQuad => self.hidden_quad(),
            Strategy::HiddenSingle => self.hidden_single(),
            Strategy::HiddenTriple => self.hidden_triple(),
            Strategy::NakedPair => self.naked_pair(),
            Strategy::NakedSingle => self.naked_single(),
            Strategy::NakedTriple => self.naked_triple(),
            Strategy::PointingLine => self.pointing_line(),
        };
        proof {
            if !res {
                assert(same_cells(*self, g0));
                lemma_same_grid(*self, g0);
            }
        }
        res
    }

    /// Tries the strategies of `fns` in order until one returns true; then records it in
    /// `strategies`, raises `max_level` to `level` if it is below, and returns true.
    pub fn reduce_level(&mut self, max_level: &mut Level, level: &Level, strategies: &mut StrategySet, fns: &Vec<Strategy>) -> (res: bool)
        requires
            old(self).fits(),
        ensures
            narrows(*old(self), *final(self)),
            final(self).fits(),
            old(self).givens_fixed() ==> final(self).givens_fixed(),
            res == differs(*final(self), *old(self)),
            !res ==> *final(self) == *old(self),
            !res ==> forall|t: int| 0 <= t < fns.len() ==> !applies(#[trigger] fns[t], *old(self)),
            res ==> exists|t: int|
                0 <= t < fns.len() && applies(#[trigger] fns[t], *old(self)) && (forall|u: int| 0 <= u < t ==> !applies(
                    #[trigger] fns[u],
                    *old(self),
                )) && added(old(strategies).used, final(strategies).used, fns[t]) && step_is(fns[t], *old(self), *final(self)),
            *final(max_level) == (if res && old(max_level).rank_of() < level.rank_of() { *level } else { *old(max_level) }),
            !res ==> final(strategies).used == old(strategies).used,
    {
        let ghost g0 = *self;
        proof {
            lemma_narrows_refl(g0);
        }
        let mut t: usize = 0;
        while t < fns.len()
            invariant
                t <= fns.len(),
                g0 == *old(self),
                g0.fits(),
                *self == g0,
                *max_level == *old(max_level),
                strategies.used == old(strategies).used,
                forall|u: int| 0 <= u < t ==> !applies(#[trigger] fns[u], g0),
            decreases fns.len() - t,
        {
            let f = fns[t];
            let r = self.apply(f);
            proof {
                lemma_narrower_keeps(*self, g0);
            }
            if r {
                strategies.insert(f);
                proof {
                    assert(added(old(strategies).used, strategies.used, fns[t as int]));
                    assert(applies(fns[t as int], g0));
                    assert(step_is(fns[t as int], g0, *self));
                }
                if max_level.rank() < level.rank() {
                    *max_level = *level;
                }
                return true;
            }
            t += 1;
        }
        proof {
            lemma_narrows_refl(g0);
        }
        false
    }

    /// reduce removes candidates with the strategies only (no search), until the grid is solved
    /// or no strategy changes it: each time, the strategies of the easy level are tried in the
    /// order of `easy_order()`, and the first one that changes the grid is recorded in
    /// `strategies`. Returns the highest level of strategy used and whether the grid is solved;
    /// a grid with an empty cell is returned unchanged and unsolved.
    pub fn reduce(&mut self, strategies: &mut StrategySet) -> (result: (Level, bool))
        requires
            old(self).fits(),
            old(self).givens_fixed(),
        ensures
            narrows(*old(self), *final(self)),
            final(self).fits(),
            final(self).givens_fixed(),
            result.0 == Level::Easy,
            result.1 == solved_spec(*final(self)),
            has_empty(*old(self)) ==> *final(self) == *old(self) && final(strategies).used == old(strategies).used,
            !has_empty(*old(self)) ==> exists|steps: Seq<Strategy>|
                #[trigger] reduces_to(*old(self), *final(self), steps) && forall|s: Strategy|
                    #[trigger] final(strategies).used[index_of(s)] == (old(strategies).used[index_of(s)] || steps.contains(s)),
            settled(*final(self)),
            settled(*old(self)) ==> *final(self) == *old(self),
            old(self).wf() && result.1 ==> crate::unique::unique_solution(*old(self)),
    {
        let ghost g0 = *self;
        proof {
            lemma_narrows_refl(g0);
        }
        if self.empty_cell() {
            proof {
                lemma_empty_not_solved(*self);
            }
            return (Level::Easy, false);
        }
        let mut max_level = Level::Easy;
        let easy = vec![
            Strategy::NakedSingle,
            Strategy::HiddenSingle,
            Strategy::NakedPair,
            Strategy::NakedTriple,
            Strategy::HiddenPair,
            Strategy::HiddenTriple,
            Strategy::HiddenQuad,
            Strategy::PointingLine,
            Strategy::BoxLine,
        ];
        let none: Vec<Strategy> = Vec::new();
        let ghost mut grids: Seq<Grid> = seq![g0];
        let ghost mut steps: Seq<Strategy> = Seq::empty();
        proof {
            assert(easy@ =~= easy_order());
        }
        loop
            invariant
                g0 == *old(self),
                g0.fits(),
                g0.givens_fixed(),
                narrows(g0, *self),
                self.fits(),
                self.givens_fixed(),
                max_level == Level::Easy,
                none.len() == 0,
                easy@ == easy_order(),
                grids.len() == steps.len() + 1,
                grids[0] == g0,
                grids.last() == *self,
                forall|i: int| 0 <= i < steps.len() ==> #[trigger] reduce_step(grids, steps, i),
                forall|s: Strategy|
                    #[trigger] strategies.used[index_of(s)] == (old(strategies).used[index_of(s)] || steps.contains(s)),
                solved_spec(g0) ==> *self == g0,
                reduced(g0) ==> *self == g0,
                !has_empty(g0),
            ensures
                narrows(g0, *self),
                self.fits(),
                self.givens_fixed(),
                !solved_spec(*self),
                reduced(*self),
                grids.len() == steps.len() + 1,
                grids[0] == g0,
                grids.last() == *self,
                forall|i: int| 0 <= i < steps.len() ==> #[trigger] reduce_step(grids, steps, i),
                forall|s: Strategy|
                    #[trigger] strategies.used[index_of(s)] == (old(strategies).used[index_of(s)] || steps.contains(s)),
                !solved_spec(g0),
                reduced(g0) ==> *self == g0,
            decreases total(*self),
        {
            if self.solved() {
                proof {
                    if g0.wf() {
                        crate::unique::lemma_narrowed_to_solved(g0, *self);
                    }
                    assert(reduce_run(grids, steps));
                    assert(reduces_to(g0, *self, steps));
                }
                return (max_level, true);
            }
            let ghost before = *self;
            let ghost used_before = strategies.used;
            if self.reduce_level(&mut max_level, &Level::Easy, strategies, &easy) {
                proof {
                    lemma_narrows_trans(g0, before, *self);
                    lemma_narrower_keeps(*self, g0);
                    lemma_total_mono(*self, before);
                    let t = choose|t: int|
                        0 <= t < easy.len() && applies(#[trigger] easy[t], before) && (forall|u: int| 0 <= u < t ==> !applies(
                            #[trigger] easy[u],
                            before,
                        )) && added(used_before, strategies.used, easy[t]) && step_is(easy[t], before, *self);
                    assert forall|v: int| 0 <= v < t implies !applies(#[trigger] easy_order()[v], before) by {
                        assert(!applies(easy[v], before));
                    }
                    lemma_first_from(before, 0, t);
                    lemma_first_applicable(before);
                    if reduced(g0) {
                        assert(before == g0);
                        assert(false);
                    }
                    let old_grids = grids;
                    let old_steps = steps;
                    grids = grids.push(*self);
                    steps = steps.push(easy[t]);
                    assert forall|i: int| 0 <= i < steps.len() implies #[trigger] reduce_step(grids, steps, i) by {
                        if i < old_steps.len() {
                            assert(reduce_step(old_grids, old_steps, i));
                        }
                    }
                    assert forall|s: Strategy|
                        #[trigger] strategies.used[index_of(s)] == (old(strategies).used[index_of(s)] || steps.contains(s)) by {
                        assert(used_before[index_of(s)] == (old(strategies).used[index_of(s)] || old_steps.contains(s)));
                        if steps.contains(s) && !old_steps.contains(s) {
                            let u = choose|u: int| 0 <= u < steps.len() && steps[u] == s;
                            assert(u == old_steps.len());
                        }
                        if old_steps.contains(s) {
                            let u = choose|u: int| 0 <= u < old_steps.len() && old_steps[u] == s;
                            assert(steps[u] == s);
                        }
                        if index_of(s) == index_of(easy[t]) {
                            assert(s == easy[t]);
                            assert(steps[old_steps.len() as int] == s);
                        }
                    }
                }
                continue;
            }
            proof {
                lemma_narrows_trans(g0, before, *self);
                lemma_narrower_keeps(*self, g0);
                assert(*self == before);
                {
                    assert(!applies(easy[0], before));
                    assert(!applies(easy[1], before));
                    assert(!applies(easy[2], before));
                    assert(!applies(easy[3], before));
                    assert(!applies(easy[4], before));
                    assert(!applies(easy[5], before));
                    assert(!applies(easy[6], before));
                    assert(!applies(easy[7], before));
                    assert(!applies(easy[8], before));
                }
            }
            let ghost mid = *self;
            if self.reduce_level(&mut max_level, &Level::Standard, strategies, &none) {
                continue;
            }
            if self.reduce_level(&mut max_level, &Level::Hard, strategies, &none) {
                continue;
            }
            if self.reduce_level(&mut max_level, &Level::Expert, strategies, &none) {
                continue;
            }
            if self.reduce_level(&mut max_level, &Level::Extreme, strategies, &none) {
                continue;
            }
            proof {
                assert(*self == mid);
            }
            break;
        }
        proof {
            assert(reduce_run(grids, steps));
            assert(reduces_to(g0, *self, steps));
        }
        (max_level, false)
    }
}

/// What one run of strategy `s` makes of `g`: the grid `h`.
pub open spec fn step_is(s: Strategy, g: Grid, h: Grid) -> bool {
    &&& narrows(g, h)
    &&& match s {
        Strategy::BoxLine => grid_is(h, box_line_result(g)),
        Strategy::HiddenPair => hidden_pair_result(g, h),
        Strategy::HiddenQuad => hidden_quad_result(g, h),
        Strategy::HiddenSingle => hidden_single_result(g, h),
        Strategy::HiddenTriple => hidden_triple_result(g, h),
        Strategy::NakedPair => grid_is(h, naked_pair_result(g)),
        Strategy::NakedSingle => grid_is(h, naked_single_result(g)),
        Strategy::NakedTriple => grid_is(h, naked_triple_result(g)),
        Strategy::PointingLine => grid_is(h, pointing_result(g)),
    }
}

/// Two grids that one function gives every cell of, with the same givens, are the same grid.
proof fn lemma_grid_is_same(h1: Grid, h2: Grid, f: spec_fn(int, int) -> crate::cell::Cell)
    requires
        h1.orig == h2.orig,
        grid_is(h1, f),
        grid_is(h2, f),
    ensures
        h1 == h2,
{
    assert(same_cells(h1, h2));
    lemma_same_grid(h1, h2);
}

/// One run of a strategy gives one grid: what it makes of a grid is determined by the grid.
pub proof fn lemma_step_determined(s: Strategy, g: Grid, h1: Grid, h2: Grid)
    requires
        step_is(s, g, h1),
        step_is(s, g, h2),
    ensures
        h1 == h2,
{
    match s {
        Strategy::BoxLine => lemma_grid_is_same(h1, h2, box_line_result(g)),
        Strategy::HiddenPair => lemma_hidden_pair_determined(g, h1, h2),
        Strategy::HiddenQuad => lemma_hidden_quad_determined(g, h1, h2),
        Strategy::HiddenSingle => lemma_hidden_single_determined(g, h1, h2),
        Strategy::HiddenTriple => lemma_hidden_triple_determined(g, h1, h2),
        Strategy::NakedPair => lemma_grid_is_same(h1, h2, naked_pair_result(g)),
        Strategy::NakedSingle => lemma_grid_is_same(h1, h2, naked_single_result(g)),
        Strategy::NakedTriple => lemma_grid_is_same(h1, h2, naked_triple_result(g)),
        Strategy::PointingLine => lemma_grid_is_same(h1, h2, pointing_result(g)),
    }
}

/// The easy strategies in the order in which `reduce` tries them.
pub open spec fn easy_order() -> Seq<Strategy> {
    seq![
        Strategy::NakedSingle,
        Strategy::HiddenSingle,
        Strategy::NakedPair,
        Strategy::NakedTriple,
        Strategy::HiddenPair,
        Strategy::HiddenTriple,
        Strategy::HiddenQuad,
        Strategy::PointingLine,
        Strategy::BoxLine,
    ]
}

/// The position in `easy_order()`, from `t` on, of the first strategy that can change `g`;
/// 9 if there is none.
pub open spec fn first_from(g: Grid, t: int) -> int
    decreases 9 - t,
{
    if t < 0 || t >= 9 {
        9
    } else if applies(easy_order()[t], g) {
        t
    } else {
        first_from(g, t + 1)
    }
}

/// The position in `easy_order()` of the first strategy that can change `g`; 9 if there is none.
pub open spec fn first_applicable(g: Grid) -> int {
    first_from(g, 0)
}

/// The first strategy that can change `g` is the one at position `t` when it can and none
/// before it can.
proof fn lemma_first_from(g: Grid, u: int, t: int)
    requires
        0 <= u <= t < 9,
        applies(easy_order()[t], g),
        forall|v: int| 0 <= v < t ==> !applies(#[trigger] easy_order()[v], g),
    ensures
        first_from(g, u) == t,
    decreases t - u,
{
    if u < t {
        lemma_first_from(g, u + 1, t);
    }
}

/// The first applicable strategy can change the grid, none before it can, and there is none
/// exactly when no easy strategy changes the grid.
pub proof fn lemma_first_applicable(g: Grid)
    ensures
        0 <= first_applicable(g) <= 9,
        first_applicable(g) < 9 ==> applies(easy_order()[first_applicable(g)], g),
        forall|v: int| 0 <= v < first_applicable(g) ==> !applies(#[trigger] easy_order()[v], g),
        (first_applicable(g) == 9) == reduced(g),
{
    reveal_with_fuel(first_from, 10);
    assert(easy_order()[0] == Strategy::NakedSingle);
    assert(easy_order()[1] == Strategy::HiddenSingle);
    assert(easy_order()[2] == Strategy::NakedPair);
    assert(easy_order()[3] == Strategy::NakedTriple);
    assert(easy_order()[4] == Strategy::HiddenPair);
    assert(easy_order()[5] == Strategy::HiddenTriple);
    assert(easy_order()[6] == Strategy::HiddenQuad);
    assert(easy_order()[7] == Strategy::PointingLine);
    assert(easy_order()[8] == Strategy::BoxLine);
}

/// Step `i` of a record of `reduce`: the grid before it is not solved, and the step is one run
/// of the first strategy that can change that grid.
pub open spec fn reduce_step(grids: Seq<Grid>, steps: Seq<Strategy>, i: int) -> bool {
    &&& !solved_spec(grids[i])
    &&& first_applicable(grids[i]) < 9
    &&& steps[i] == easy_order()[first_applicable(grids[i])]
    &&& step_is(steps[i], grids[i], grids[i + 1])
}

/// `grids` and `steps` record a run of `reduce`: grid `i + 1` is what step `i` makes of grid
/// `i`, and the run stops on a grid that is solved or that no easy strategy changes.
pub open spec fn reduce_run(grids: Seq<Grid>, steps: Seq<Strategy>) -> bool {
    &&& grids.len() == steps.len() + 1
    &&& forall|i: int| 0 <= i < steps.len() ==> #[trigger] reduce_step(grids, steps, i)
    &&& solved_spec(grids.last()) || reduced(grids.last())
}

/// `reduce` takes `g` to `h` through the strategies `steps`, in the order they ran.
pub open spec fn reduces_to(g: Grid, h: Grid, steps: Seq<Strategy>) -> bool {
    exists|grids: Seq<Grid>| #[trigger] reduce_run(grids, steps) && grids[0] == g && grids.last() == h
}

/// The strategies alone solve `g`: `reduce` takes it to a solved grid.
pub open spec fn strategies_solve(g: Grid) -> bool {
    exists|h: Grid, steps: Seq<Strategy>| #[trigger] reduces_to(g, h, steps) && solved_spec(h)
}

/// Two records of `reduce` from one grid are the same record.
proof fn lemma_run_determined(g1: Seq<Grid>, s1: Seq<Strategy>, g2: Seq<Grid>, s2: Seq<Strategy>)
    requires
        reduce_run(g1, s1),
        reduce_run(g2, s2),
        g1[0] == g2[0],
    ensures
        g1 == g2,
        s1 == s2,
    decreases s1.len(),
{
    lemma_first_applicable(g1[0]);
    if s1.len() == 0 || s2.len() == 0 {
        if s1.len() > 0 {
            assert(reduce_step(g1, s1, 0));
        }
        if s2.len() > 0 {
            assert(reduce_step(g2, s2, 0));
        }
        assert(g1 =~= g2);
        assert(s1 =~= s2);
    } else {
        assert(reduce_step(g1, s1, 0));
        assert(reduce_step(g2, s2, 0));
        lemma_step_determined(s1[0], g1[0], g1[1], g2[1]);
        let t1 = g1.drop_first();
        let u1 = s1.drop_first();
        let t2 = g2.drop_first();
        let u2 = s2.drop_first();
        assert forall|i: int| 0 <= i < u1.len() implies #[trigger] reduce_step(t1, u1, i) by {
            assert(reduce_step(g1, s1, i + 1));
        }
        assert forall|i: int| 0 <= i < u2.len() implies #[trigger] reduce_step(t2, u2, i) by {
            assert(reduce_step(g2, s2, i + 1));
        }
        assert(t1.last() == g1.last());
        assert(t2.last() == g2.last());
        lemma_run_determined(t1, u1, t2, u2);
        assert(g1 =~= seq![g1[0]] + t1);
        assert(g2 =~= seq![g2[0]] + t2);
        assert(s1 =~= seq![s1[0]] + u1);
        assert(s2 =~= seq![s2[0]] + u2);
    }
}

/// What `reduce` makes of a grid is determined by the grid: two runs from one grid end on the
/// same grid, through the same strategies in the same order.
pub proof fn lemma_reduce_determined(g: Grid, h1: Grid, s1: Seq<Strategy>, h2: Grid, s2: Seq<Strategy>)
    requires
        reduces_to(g, h1, s1),
        reduces_to(g, h2, s2),
    ensures
        h1 == h2,
        s1 == s2,
{
    let g1 = choose|grids: Seq<Grid>| #[trigger] reduce_run(grids, s1) && grids[0] == g && grids.last() == h1;
    let g2 = choose|grids: Seq<Grid>| #[trigger] reduce_run(grids, s2) && grids[0] == g && grids.last() == h2;
    lemma_run_determined(g1, s1, g2, s2);
}

/// Each grid of a record of `reduce` keeps every completed sudoku of the first and has only
/// candidates of it.
proof fn lemma_run_narrows(grids: Seq<Grid>, steps: Seq<Strategy>, n: int)
    requires
        grids.len() == steps.len() + 1,
        forall|i: int| 0 <= i < steps.len() ==> #[trigger] reduce_step(grids, steps, i),
        0 <= n < grids.len(),
    ensures
        narrows(grids[0], grids[n]),
    decreases n,
{
    if n == 0 {
        lemma_narrows_refl(grids[0]);
    } else {
        lemma_run_narrows(grids, steps, n - 1);
        assert(reduce_step(grids, steps, n - 1));
        lemma_narrows_trans(grids[0], grids[n - 1], grids[n]);
    }
}

/// A run of `reduce` from a grid ends on a grid that keeps every completed sudoku of it and
/// has only candidates of it.
pub proof fn lemma_reduces_narrows(g: Grid, h: Grid, steps: Seq<Strategy>)
    requires
        reduces_to(g, h, steps),
    ensures
        narrows(g, h),
{
    let grids = choose|grids: Seq<Grid>| #[trigger] reduce_run(grids, steps) && grids[0] == g && grids.last() == h;
    lemma_run_narrows(grids, steps, grids.len() - 1);
}

/// A grid with only candidates of a grid with an empty cell has an empty cell.
pub proof fn lemma_empty_stays(g: Grid, h: Grid)
    requires
        narrower(h, g),
        has_empty(g),
    ensures
        has_empty(h),
{
    let (r, c) = choose|r: int, c: int| 0 <= r < 9 && 0 <= c < 9 && (#[trigger] g.at(r, c)).0 == 0;
    assert(h.at(r, c).within(g.at(r, c)));
    assert forall|e: int| 0 <= e < 16 implies #[trigger] crate::bits::has_bit(h.at(r, c).0, e) == crate::bits::has_bit(0u16, e) by {
        crate::bits::lemma_bit_zero(e);
        if crate::bits::has_bit(h.at(r, c).0, e) {
            crate::bits::lemma_subset_bit(h.at(r, c).0, g.at(r, c).0, e);
        }
    }
    crate::bits::lemma_bits_ext(h.at(r, c).0, 0u16);
}

/// The strategies alone solve no grid with an empty cell.
pub proof fn lemma_empty_unsolvable(g: Grid)
    requires
        has_empty(g),
    ensures
        !strategies_solve(g),
{
    if strategies_solve(g) {
        let (h, steps) = choose|h: Grid, steps: Seq<Strategy>| #[trigger] reduces_to(g, h, steps) && solved_spec(h);
        lemma_reduces_narrows(g, h, steps);
        lemma_empty_stays(g, h);
        lemma_empty_not_solved(h);
    }
}

/// The strategies solve `g` exactly when the grid that `reduce` takes it to is solved.
pub proof fn lemma_solve_by_run(g: Grid, h: Grid, steps: Seq<Strategy>)
    requires
        reduces_to(g, h, steps),
    ensures
        strategies_solve(g) == solved_spec(h),
{
    if strategies_solve(g) {
        let (h2, s2) = choose|h2: Grid, s2: Seq<Strategy>| #[trigger] reduces_to(g, h2, s2) && solved_spec(h2);
        lemma_reduce_determined(g, h, steps, h2, s2);
    }
}

/// A grid that `reduce` returns as it is: solved, with an empty cell, or one that no strategy
/// changes. `reduce` always returns such a grid, so a second call changes nothing.
pub open spec fn settled(g: Grid) -> bool {
    reduced(g) || solved_spec(g) || has_empty(g)
}

/// No strategy of the easy level can remove a candidate.
pub open spec fn reduced(g: Grid) -> bool {
    &&& !naked_single_applies(g)
    &&& !hidden_single_applies(g)
    &&& !naked_pair_applies(g)
    &&& !naked_triple_applies(g)
    &&& !hidden_pair_applies(g)
    &&& !hidden_triple_applies(g)
    &&& !hidden_quad_applies(g)
    &&& !pointing_applies(g)
    &&& !box_line_applies(g)
}

/// A grid with an empty cell is not solved.
pub proof fn lemma_empty_not_solved(g: Grid)
    requires
        has_empty(g),
    ensures
        !solved_spec(g),
{
    let (r, c) = choose|r: int, c: int| 0 <= r < 9 && 0 <= c < 9 && (#[trigger] g.at(r, c)).0 == 0;
    let j = r % 3 * 3 + c % 3;
    crate::strategies::box_line::lemma_cell_in_box(r, c);
    let b = crate::grid::box_index(r, c);
    assert(g.unit_cell(Kind::Box, b, j).0 == 0);
    assert(!unit_solved(g, Kind::Box, b));
}

} // verus!
