//! Planning a level: one bounce per note, found by backtracking search.
use std::collections::HashSet;
use vstd::prelude::*;

verus! {

broadcast use vstd::std_specs::hash::group_hash_axioms;

/// Returns `true` with probability `numerator / denominator`, from the
/// thread-local generator of `rand`.
///
/// Trusted: `rand::random_ratio` panics unless `0 < denominator` and
/// `numerator <= denominator`; its documentation promises `false` for a zero
/// numerator and `true` when the numerator equals the denominator. Nothing
/// else is stated of the outcome, which is random.
pub assume_specification[ rand::random_ratio ](numerator: u32, denominator: u32) -> (r: bool)
    requires
        0 < denominator,
        numerator <= denominator,
    ensures
        numerator == 0 ==> !r,
        numerator == denominator ==> r,
;

/// Why no level could be planned.
#[derive(Debug, Clone, Copy, PartialEq, Eq, Structural)]
pub enum PlanError {
    /// Backtracking ran out of choices: every orientation of the first
    /// bounce has been tried.
    Exhausted,
}

/// How much search is left at one note position `p`, given how many
/// bounces are placed and which positions have had their orientation flipped
/// by backtracking: a placed position has less left than an open one, and a
/// flipped position less than one that is not.
pub open spec fn search_digit(p: int, placed: int, flipped: Set<usize>) -> int {
    if p < placed {
        if flipped.contains(p as usize) {
            0
        } else {
            2
        }
    } else {
        if flipped.contains(p as usize) {
            1
        } else {
            3
        }
    }
}

/// The search left at every note position, first position first.
pub open spec fn search_digits(n: int, placed: int, flipped: Set<usize>) -> Seq<int> {
    Seq::new(n as nat, |p: int| search_digit(p, placed, flipped))
}

/// A sequence of base-4 digits read as a number, most significant first.
pub open spec fn base4(ds: Seq<int>) -> int
    decreases ds.len(),
{
    if ds.len() == 0 {
        0
    } else {
        base4(ds.drop_last()) * 4 + ds.last()
    }
}

/// The search left, as one number; it shrinks on every round of the search.
pub open spec fn search_left(n: int, placed: int, flipped: Set<usize>, backtrack: bool) -> int {
    base4(search_digits(n, placed, flipped)) * 2 + if backtrack {
        0int
    } else {
        1int
    }
}

/// Digits are base-4 digits.
pub open spec fn is_base4(ds: Seq<int>) -> bool {
    forall|p: int| 0 <= p < ds.len() ==> 0 <= #[trigger] ds[p] < 4
}

proof fn lemma_base4_nonneg(ds: Seq<int>)
    requires
        is_base4(ds),
    ensures
        base4(ds) >= 0,
    decreases ds.len(),
{
    if ds.len() > 0 {
        lemma_base4_nonneg(ds.drop_last());
    }
}

/// A number in base 4 shrinks when its first differing digit shrinks.
proof fn lemma_base4_lex(ds: Seq<int>, es: Seq<int>, j: int)
    requires
        ds.len() == es.len(),
        is_base4(ds),
        is_base4(es),
        0 <= j < ds.len(),
        forall|p: int| 0 <= p < j ==> ds[p] == es[p],
        es[j] < ds[j],
    ensures
        base4(es) < base4(ds),
    decreases ds.len(),
{
    let dp = ds.drop_last();
    let ep = es.drop_last();
    if j == ds.len() - 1 {
        assert(dp =~= ep);
    } else {
        lemma_base4_lex(dp, ep, j);
        lemma_base4_nonneg(dp);
    }
}

proof fn lemma_search_digits(n: int, placed: int, flipped: Set<usize>)
    requires
        n >= 0,
    ensures
        is_base4(search_digits(n, placed, flipped)),
        base4(search_digits(n, placed, flipped)) >= 0,
{
    lemma_base4_nonneg(search_digits(n, placed, flipped));
}

/// The search shrinks when the digit at `j` shrinks and no digit before it changes.
proof fn lemma_search_shrinks(
    n: int,
    placed0: int,
    flipped0: Set<usize>,
    back0: bool,
    placed1: int,
    flipped1: Set<usize>,
    back1: bool,
    j: int,
)
    requires
        0 <= j < n,
        forall|p: int|
            0 <= p < j ==> search_digit(p, placed0, flipped0) == search_digit(p, placed1, flipped1),
        search_digit(j, placed1, flipped1) < search_digit(j, placed0, flipped0),
    ensures
        0 <= search_left(n, placed1, flipped1, back1) < search_left(n, placed0, flipped0, back0),
{
    lemma_search_digits(n, placed0, flipped0);
    lemma_search_digits(n, placed1, flipped1);
    lemma_base4_lex(search_digits(n, placed0, flipped0), search_digits(n, placed1, flipped1), j);
}

/// The odds of flipping the orientation at a note that backtracking has not
/// flipped: `FLIP_NUMERATOR` in `FLIP_DENOMINATOR`.
pub const FLIP_NUMERATOR: u32 = 3;

/// See [`FLIP_NUMERATOR`].
pub const FLIP_DENOMINATOR: u32 = 10;

/// The state of the level search.
pub struct Search<S, B> {
    /// The standing bounces, one per note so far.
    pub bounces: Vec<B>,
    /// The orientation (vertical wall or not) of each standing bounce.
    pub verticals: Vec<bool>,
    /// The notes whose orientation backtracking has flipped.
    pub flipped: HashSet<usize>,
    /// The orientation for the next note.
    pub vertical: bool,
    /// The last move was refused, so bounces must come down first.
    pub backtrack: bool,
    /// The square the next move starts from.
    pub square: S,
}

/// The highest standing note below `len` that backtracking has not flipped,
/// or -1 when there is none.
pub open spec fn top_unflipped(len: int, flipped: Set<usize>) -> int
    decreases len,
{
    if len <= 0 {
        -1
    } else if !flipped.contains((len - 1) as usize) {
        len - 1
    } else {
        top_unflipped(len - 1, flipped)
    }
}

/// The flipped notes once the notes in `j + 1 .. len` are taken down and `j`
/// is flipped (when `j >= 0`).
pub open spec fn flipped_after_take_down(flipped: Set<usize>, j: int, len: int) -> Set<usize> {
    Set::new(|p: usize| (flipped.contains(p) && !(j < p < len)) || (j >= 0 && p == j))
}

/// What `top_unflipped` finds: an unflipped note with only flipped notes above it.
pub proof fn lemma_top_unflipped(len: int, flipped: Set<usize>)
    requires
        len >= 0,
    ensures
        -1 <= top_unflipped(len, flipped) < len,
        top_unflipped(len, flipped) >= 0 ==> !flipped.contains(top_unflipped(len, flipped) as usize),
        forall|p: usize|
            top_unflipped(len, flipped) < p < len ==> #[trigger] flipped.contains(p),
    decreases len,
{
    if len > 0 && flipped.contains((len - 1) as usize) {
        lemma_top_unflipped(len - 1, flipped);
    }
}

proof fn lemma_top_unflipped_skip(m: int, len: int, flipped: Set<usize>)
    requires
        0 <= m <= len <= usize::MAX,
        forall|p: usize| m <= p < len ==> #[trigger] flipped.contains(p),
    ensures
        top_unflipped(len, flipped) == top_unflipped(m, flipped),
    decreases len,
{
    if len > m {
        assert(flipped.contains((len - 1) as usize));
        lemma_top_unflipped_skip(m, len - 1, flipped);
    }
}

impl<S, B> Search<S, B> {
    /// The search before the first note: nothing standing, nothing flipped,
    /// a horizontal wall next, the square at `start`.
    pub fn new(start: S) -> (search: Self)
        ensures
            search.bounces@ == Seq::<B>::empty(),
            search.verticals@ == Seq::<bool>::empty(),
            search.flipped@ == Set::<usize>::empty(),
            !search.vertical,
            !search.backtrack,
            search.square == start,
    {
        Search {
            bounces: Vec::new(),
            verticals: Vec::new(),
            flipped: HashSet::new(),
            vertical: false,
            backtrack: false,
            square: start,
        }
    }

    /// After a refusal: takes down the bounces on top whose orientation has
    /// already been flipped, then one more, `j`; flips `j`'s orientation,
    /// marks `j` as flipped and restores the square from the bounce taken
    /// down. Fails when no unflipped bounce is left.
    pub fn take_down<R: Fn(B, bool) -> S>(&mut self, restore: &R) -> (r: Result<(), PlanError>)
        requires
            old(self).verticals.len() == old(self).bounces.len(),
            forall|b: B, v: bool| restore.requires((b, v)),
        ensures
            ({
                let j = top_unflipped(old(self).bounces.len() as int, old(self).flipped@);
                &&& final(self).verticals.len() == final(self).bounces.len()
                &&& final(self).flipped@ == flipped_after_take_down(
                    old(self).flipped@,
                    j,
                    old(self).bounces.len() as int,
                )
                &&& j < 0 ==> r == Err::<(), PlanError>(PlanError::Exhausted)
                    && final(self).bounces@ == Seq::<B>::empty()
                &&& j >= 0 ==> {
                    &&& r is Ok
                    &&& final(self).bounces@ == old(self).bounces@.take(j)
                    &&& final(self).verticals@ == old(self).verticals@.take(j)
                    &&& final(self).vertical == !old(self).verticals@[j]
                    &&& restore.ensures(
                        (old(self).bounces@[j], !old(self).verticals@[j]),
                        final(self).square,
                    )
                    &&& !final(self).backtrack
                }
            }),
    {
        let ghost len0: int = self.bounces.len() as int;
        let ghost flipped0 = self.flipped@;
        let ghost bounces0 = self.bounces@;
        let ghost verticals0 = self.verticals@;
        proof {
            assert(self.flipped@ =~= Set::new(
                |p: usize| flipped0.contains(p) && !(self.bounces.len() <= p < len0),
            ));
        }
        while self.bounces.len() > 0 && self.flipped.contains(&(self.bounces.len() - 1))
            invariant
                self.verticals.len() == self.bounces.len(),
                self.bounces.len() <= len0,
                bounces0.len() == len0,
                verticals0.len() == len0,
                self.bounces@ == bounces0.take(self.bounces.len() as int),
                self.verticals@ == verticals0.take(self.bounces.len() as int),
                self.flipped@ == Set::new(
                    |p: usize| flipped0.contains(p) && !(self.bounces.len() <= p < len0),
                ),
                forall|p: usize| self.bounces.len() <= p < len0 ==> #[trigger] flipped0.contains(p),
            decreases self.bounces.len(),
        {
            let top: usize = self.bounces.len() - 1;
            self.flipped.remove(&top);
            self.bounces.pop();
            self.verticals.pop();
            proof {
                assert(self.bounces@ =~= bounces0.take(self.bounces.len() as int));
                assert(self.verticals@ =~= verticals0.take(self.bounces.len() as int));
                assert(self.flipped@ =~= Set::new(
                    |p: usize| flipped0.contains(p) && !(self.bounces.len() <= p < len0),
                ));
            }
        }
        proof {
            lemma_top_unflipped_skip(self.bounces.len() as int, len0, flipped0);
        }
        let last = self.bounces.pop();
        let last_vertical = self.verticals.pop();
        match (last, last_vertical) {
            (Some(b), Some(v)) => {
                let ghost j: int = self.bounces.len() as int;
                proof {
                    assert(!flipped0.contains(j as usize));
                    assert(top_unflipped(j + 1, flipped0) == j);
                    assert(b == bounces0[j]);
                    assert(v == verticals0[j]);
                }
                self.vertical = !v;
                self.square = restore(b, self.vertical);
                self.backtrack = false;
                self.flipped.insert(self.bounces.len());
                proof {
                    assert(self.bounces@ =~= bounces0.take(j));
                    assert(self.verticals@ =~= verticals0.take(j));
                    assert(self.flipped@ =~= flipped_after_take_down(flipped0, j, len0));
                }
                Ok(())
            },
            _ => {
                proof {
                    assert(self.flipped@ =~= flipped_after_take_down(flipped0, -1, len0));
                }
                Err(PlanError::Exhausted)
            },
        }
    }

    /// Whether the orientation for the next note may still be flipped at
    /// random: backtracking has not flipped that note.
    pub fn orientation_open(&self) -> (open: bool)
        ensures
            open == !self.flipped@.contains(self.bounces.len()),
    {
        !self.flipped.contains(&self.bounces.len())
    }

    /// Flips the orientation for the next note when `flip` is set.
    pub fn orient(&mut self, flip: bool)
        ensures
            final(self).vertical == (old(self).vertical != flip),
            final(self).bounces == old(self).bounces,
            final(self).verticals == old(self).verticals,
            final(self).flipped == old(self).flipped,
            final(self).backtrack == old(self).backtrack,
            final(self).square == old(self).square,
    {
        if flip {
            self.vertical = !self.vertical;
        }
    }

    /// Takes `place`'s answer for the next note: a refusal calls for
    /// backtracking; a bounce is stood up with the current orientation and
    /// the square moves on.
    pub fn record(&mut self, answer: Option<(S, B)>)
        ensures
            final(self).vertical == old(self).vertical,
            final(self).flipped == old(self).flipped,
            match answer {
                None => {
                    &&& final(self).backtrack
                    &&& final(self).bounces == old(self).bounces
                    &&& final(self).verticals == old(self).verticals
                    &&& final(self).square == old(self).square
                },
                Some((s, b)) => {
                    &&& final(self).backtrack == old(self).backtrack
                    &&& final(self).bounces@ == old(self).bounces@.push(b)
                    &&& final(self).verticals@ == old(self).verticals@.push(old(self).vertical)
                    &&& final(self).square == s
                },
            },
    {
        match answer {
            None => {
                self.backtrack = true;
            },
            Some((s, b)) => {
                self.square = s;
                self.bounces.push(b);
                self.verticals.push(self.vertical);
            },
        }
    }
}

/// `place`, asked for note `i` from square `from` with orientation `v` and
/// the bounces `prev` standing, may answer bounce `b` and square `to`.
pub open spec fn gives<S, B, P: Fn(&S, usize, bool, &Vec<B>) -> Option<(S, B)>>(
    place: P,
    from: S,
    i: int,
    v: bool,
    prev: Seq<B>,
    to: S,
    b: B,
) -> bool {
    exists|p: Vec<B>| #[trigger] place.ensures((&from, i as usize, v, &p), Some((to, b))) && p@ == prev
}

/// `place`, asked for note `i` from square `from` with orientation `v` and
/// the bounces `prev` standing, may refuse.
pub open spec fn refuses<S, B, P: Fn(&S, usize, bool, &Vec<B>) -> Option<(S, B)>>(
    place: P,
    from: S,
    i: int,
    v: bool,
    prev: Seq<B>,
) -> bool {
    exists|p: Vec<B>|
        #[trigger] place.ensures((&from, i as usize, v, &p), None::<(S, B)>) && p@ == prev
}

/// `place` may give an answer when asked for note `i` from square `from`
/// with orientation `v` and the bounces `prev` standing.
pub open spec fn asked<S, B, P: Fn(&S, usize, bool, &Vec<B>) -> Option<(S, B)>>(
    place: P,
    from: S,
    i: int,
    v: bool,
    prev: Seq<B>,
) -> bool {
    exists|p: Vec<B>, o: Option<(S, B)>|
        #[trigger] place.ensures((&from, i as usize, v, &p), o) && p@ == prev
}

/// The square the move to note `i` starts from when nothing was taken down:
/// `start` for the first note, else the square left with bounce `i - 1`.
pub open spec fn square_before<S>(start: S, tos: Seq<S>, i: int) -> S {
    if i == 0 {
        start
    } else {
        tos[i - 1]
    }
}

/// `from` is the square `restore` gave, for orientation `v`, from a bounce
/// that `place` gave for note `i` from `before` in the other orientation.
pub open spec fn restored_for<
    S,
    B,
    P: Fn(&S, usize, bool, &Vec<B>) -> Option<(S, B)>,
    R: Fn(B, bool) -> S,
>(place: P, restore: R, before: S, i: int, prev: Seq<B>, from: S, v: bool) -> bool {
    exists|ob: B, ov: bool, ot: S|
        #[trigger] gives(place, before, i, ov, prev, ot, ob) && ov == !v && restore.ensures(
            (ob, v),
            from,
        )
}

/// Bounce `i` of a level: `place` gave it, with the square `tos[i]`, for note
/// `i` from the square `froms[i]` in orientation `vs[i]` with exactly the
/// bounces before it standing; and `froms[i]` is the square before note `i`,
/// or the square restored from a bounce that `place` gave earlier for note
/// `i` from that square in the other orientation.
pub open spec fn chained<
    S,
    B,
    P: Fn(&S, usize, bool, &Vec<B>) -> Option<(S, B)>,
    R: Fn(B, bool) -> S,
>(
    place: P,
    restore: R,
    start: S,
    bs: Seq<B>,
    vs: Seq<bool>,
    froms: Seq<S>,
    tos: Seq<S>,
    i: int,
) -> bool {
    &&& gives(place, froms[i], i, vs[i], bs.take(i), tos[i], bs[i])
    &&& (froms[i] == square_before(start, tos, i) || restored_for(
        place,
        restore,
        square_before(start, tos, i),
        i,
        bs.take(i),
        froms[i],
        vs[i],
    ))
}

/// The bounces `bs` form a level, each chained to the ones before it.
pub open spec fn level_trace<
    S,
    B,
    P: Fn(&S, usize, bool, &Vec<B>) -> Option<(S, B)>,
    R: Fn(B, bool) -> S,
>(place: P, restore: R, start: S, bs: Seq<B>, vs: Seq<bool>, froms: Seq<S>, tos: Seq<S>) -> bool {
    &&& vs.len() == bs.len()
    &&& froms.len() == bs.len()
    &&& tos.len() == bs.len()
    &&& forall|i: int| 0 <= i < bs.len() ==> #[trigger] chained(place, restore, start, bs, vs, froms, tos, i)
}

/// Why a search can end without a level: `place` refused the first note
/// from `start`; or it gave a bounce for the first note from `start` and was
/// then asked for the first note again, in the other orientation, from the
/// square `restore` gave for that bounce.
pub open spec fn exhausted_reason<
    S,
    B,
    P: Fn(&S, usize, bool, &Vec<B>) -> Option<(S, B)>,
    R: Fn(B, bool) -> S,
>(place: P, restore: R, start: S) -> bool {
    ||| exists|v: bool| #[trigger] refuses(place, start, 0, v, Seq::<B>::empty())
    ||| exists|v: bool, from: S|
        #[trigger] restored_for(place, restore, start, 0, Seq::<B>::empty(), from, v) && asked(
            place,
            from,
            0,
            v,
            Seq::<B>::empty(),
        )
}

/// `place` gives a bounce whatever it is asked.
pub open spec fn never_refuses<S, B, P: Fn(&S, usize, bool, &Vec<B>) -> Option<(S, B)>>(
    place: P,
) -> bool {
    forall|s: S, i: usize, v: bool, bs: Vec<B>, o: Option<(S, B)>|
        #[trigger] place.ensures((&s, i, v, &bs), o) ==> o is Some
}

/// The search as a value: what `Search` holds, with the flipped notes as a set.
#[verifier::ext_equal]
pub struct SearchView<S, B> {
    pub bounces: Seq<B>,
    pub verticals: Seq<bool>,
    pub flipped: Set<usize>,
    pub vertical: bool,
    pub backtrack: bool,
    pub square: S,
}

impl<S, B> View for Search<S, B> {
    type V = SearchView<S, B>;

    open spec fn view(&self) -> SearchView<S, B> {
        SearchView {
            bounces: self.bounces@,
            verticals: self.verticals@,
            flipped: self.flipped@,
            vertical: self.vertical,
            backtrack: self.backtrack,
            square: self.square,
        }
    }
}

/// The search before the first note, as `Search::new` makes it.
pub open spec fn start_view<S, B>(start: S) -> SearchView<S, B> {
    SearchView {
        bounces: Seq::empty(),
        verticals: Seq::empty(),
        flipped: Set::empty(),
        vertical: false,
        backtrack: false,
        square: start,
    }
}

/// `next` is what a successful `Search::take_down` leaves of `st`: the top
/// unflipped bounce `j` exists; it and everything above it are down, `j` is
/// flipped, its orientation is turned and the square is restored from it.
pub open spec fn taken_down<S, B, R: Fn(B, bool) -> S>(
    restore: R,
    st: SearchView<S, B>,
    next: SearchView<S, B>,
) -> bool {
    let j = top_unflipped(st.bounces.len() as int, st.flipped);
    &&& j >= 0
    &&& next.bounces == st.bounces.take(j)
    &&& next.verticals == st.verticals.take(j)
    &&& next.flipped == flipped_after_take_down(st.flipped, j, st.bounces.len() as int)
    &&& next.vertical == !st.verticals[j]
    &&& restore.ensures((st.bounces[j], !st.verticals[j]), next.square)
    &&& !next.backtrack
}

/// The search once the orientation for the next note has been set: it is
/// flipped when the roll says so and backtracking has not flipped that note.
pub open spec fn oriented<S, B>(st: SearchView<S, B>, roll: bool) -> SearchView<S, B> {
    SearchView {
        bounces: st.bounces,
        verticals: st.verticals,
        flipped: st.flipped,
        vertical: st.vertical != (roll && !st.flipped.contains(st.bounces.len() as usize)),
        backtrack: st.backtrack,
        square: st.square,
    }
}

/// The search once `place`'s answer is recorded, as `Search::record` does it.
pub open spec fn recorded<S, B>(st: SearchView<S, B>, answer: Option<(S, B)>) -> SearchView<S, B> {
    match answer {
        None => SearchView {
            bounces: st.bounces,
            verticals: st.verticals,
            flipped: st.flipped,
            vertical: st.vertical,
            backtrack: true,
            square: st.square,
        },
        Some((s, b)) => SearchView {
            bounces: st.bounces.push(b),
            verticals: st.verticals.push(st.vertical),
            flipped: st.flipped,
            vertical: st.vertical,
            backtrack: st.backtrack,
            square: s,
        },
    }
}

/// `place`, asked for note `i` from square `from` with orientation `v` and
/// the bounces `prev` standing, may answer `answer`.
pub open spec fn answers<S, B, P: Fn(&S, usize, bool, &Vec<B>) -> Option<(S, B)>>(
    place: P,
    from: S,
    i: int,
    v: bool,
    prev: Seq<B>,
    answer: Option<(S, B)>,
) -> bool {
    exists|p: Vec<B>| #[trigger] place.ensures((&from, i as usize, v, &p), answer) && p@ == prev
}

/// One round of the search leads from `st` to `next`: after a refusal the
/// bounces come down (`taken_down`); the orientation is set from a roll,
/// which, when backtracking has not flipped the next note, is what a call
/// `rand::random_ratio(FLIP_NUMERATOR, FLIP_DENOMINATOR)` returned, whatever
/// other notes are flipped; `place` is asked for the next note and its
/// answer recorded.
pub open spec fn search_round<
    S,
    B,
    P: Fn(&S, usize, bool, &Vec<B>) -> Option<(S, B)>,
    R: Fn(B, bool) -> S,
>(place: P, restore: R, st: SearchView<S, B>, next: SearchView<S, B>) -> bool {
    exists|mid: SearchView<S, B>, roll: bool, answer: Option<(S, B)>|
        #![trigger recorded(oriented(mid, roll), answer)]
        {
            &&& if st.backtrack {
                taken_down(restore, st, mid)
            } else {
                mid == st
            }
            &&& !mid.flipped.contains(mid.bounces.len() as usize) ==> call_ensures(
                rand::random_ratio,
                (FLIP_NUMERATOR, FLIP_DENOMINATOR),
                roll,
            )
            &&& answers(
                place,
                oriented(mid, roll).square,
                oriented(mid, roll).bounces.len() as int,
                oriented(mid, roll).vertical,
                oriented(mid, roll).bounces,
                answer,
            )
            &&& next == recorded(oriented(mid, roll), answer)
        }
}

/// `trace` is a run of the search for `n` notes from `start`: it begins with
/// `start_view(start)`, and each state after the first comes from the one
/// before it by a round taken while fewer than `n` bounces stood.
pub open spec fn search_run<
    S,
    B,
    P: Fn(&S, usize, bool, &Vec<B>) -> Option<(S, B)>,
    R: Fn(B, bool) -> S,
>(place: P, restore: R, start: S, n: int, trace: Seq<SearchView<S, B>>) -> bool
    decreases trace.len(),
{
    if trace.len() <= 1 {
        trace.len() == 1 && trace[0] == start_view::<S, B>(start)
    } else {
        let before = trace[trace.len() - 2];
        &&& search_run(place, restore, start, n, trace.drop_last())
        &&& before.bounces.len() < n
        &&& search_round(place, restore, before, trace.last())
    }
}

/// The search is at its end without a level: a refusal is to be answered
/// and every standing bounce has already been flipped.
pub open spec fn search_stuck<S, B>(st: SearchView<S, B>) -> bool {
    st.backtrack && top_unflipped(st.bounces.len() as int, st.flipped) < 0
}

proof fn lemma_trace_take<
    S,
    B,
    P: Fn(&S, usize, bool, &Vec<B>) -> Option<(S, B)>,
    R: Fn(B, bool) -> S,
>(
    place: P,
    restore: R,
    start: S,
    bs: Seq<B>,
    vs: Seq<bool>,
    froms: Seq<S>,
    tos: Seq<S>,
    j: int,
)
    requires
        0 <= j <= bs.len(),
        level_trace(place, restore, start, bs, vs, froms, tos),
    ensures
        level_trace(place, restore, start, bs.take(j), vs.take(j), froms.take(j), tos.take(j)),
{
    assert forall|i: int| 0 <= i < j implies #[trigger] chained(
        place,
        restore,
        start,
        bs.take(j),
        vs.take(j),
        froms.take(j),
        tos.take(j),
        i,
    ) by {
        assert(chained(place, restore, start, bs, vs, froms, tos, i));
        assert(bs.take(j).take(i) =~= bs.take(i));
        assert(square_before(start, tos.take(j), i) == square_before(start, tos, i));
    }
}

proof fn lemma_trace_push<
    S,
    B,
    P: Fn(&S, usize, bool, &Vec<B>) -> Option<(S, B)>,
    R: Fn(B, bool) -> S,
>(
    place: P,
    restore: R,
    start: S,
    bs: Seq<B>,
    vs: Seq<bool>,
    froms: Seq<S>,
    tos: Seq<S>,
    b: B,
    v: bool,
    from: S,
    to: S,
)
    requires
        level_trace(place, restore, start, bs, vs, froms, tos),
        gives(place, from, bs.len() as int, v, bs, to, b),
        from == square_before(start, tos, bs.len() as int) || restored_for(
            place,
            restore,
            square_before(start, tos, bs.len() as int),
            bs.len() as int,
            bs,
            from,
            v,
        ),
    ensures
        level_trace(place, restore, start, bs.push(b), vs.push(v), froms.push(from), tos.push(to)),
{
    let bs2 = bs.push(b);
    let tos2 = tos.push(to);
    assert forall|i: int| 0 <= i < bs2.len() implies #[trigger] chained(
        place,
        restore,
        start,
        bs2,
        vs.push(v),
        froms.push(from),
        tos2,
        i,
    ) by {
        assert(square_before(start, tos2, i) == square_before(start, tos, i));
        if i < bs.len() {
            assert(chained(place, restore, start, bs, vs, froms, tos, i));
            assert(bs2.take(i) =~= bs.take(i));
        } else {
            assert(bs2.take(i) =~= bs);
        }
    }
}

/// Plans the bounces of a level with `n` notes by backtracking search.
///
/// The square starts as `start`. For each note the search flips the
/// orientation (vertical or horizontal wall) at random, `FLIP_NUMERATOR` in
/// `FLIP_DENOMINATOR` times, unless backtracking has already flipped it at
/// that note; then `place` moves the square to the note and gives the new
/// square and bounce, or `None` when the move hits or passes through a
/// standing bounce. On `None` the search backtracks (see
/// [`Search::take_down`]).
///
/// The search always ends, and it goes by rounds of `search_round` from
/// `start_view(start)` (`search_run`): at every note that backtracking has
/// not flipped, whatever other notes are flipped, the orientation is set by
/// what a call of `rand::random_ratio(FLIP_NUMERATOR, FLIP_DENOMINATOR)`
/// returned. A level it finds
/// is what the last round left standing, chained move by move
/// (`level_trace`). It fails only when a refusal comes while every standing
/// bounce has already been flipped (`search_stuck`), which takes a reason
/// of `exhausted_reason`; and never when `place` accepts every move.
pub fn generate_bounces<S, B, R, P>(n: usize, start: S, restore: R, place: P) -> (r: Result<
    Vec<B>,
    PlanError,
>) where R: Fn(B, bool) -> S, P: Fn(&S, usize, bool, &Vec<B>) -> Option<(S, B)>
    requires
        forall|b: B, v: bool| restore.requires((b, v)),
        forall|s: S, i: usize, v: bool, bs: Vec<B>| place.requires((&s, i, v, &bs)),
    ensures
        match r {
            Ok(bounces) => {
                &&& bounces.len() == n
                &&& exists|vs: Seq<bool>, froms: Seq<S>, tos: Seq<S>|
                    #[trigger] level_trace(place, restore, start, bounces@, vs, froms, tos)
                &&& exists|trace: Seq<SearchView<S, B>>|
                    #[trigger] search_run(place, restore, start, n as int, trace)
                        && trace.last().bounces == bounces@
            },
            Err(e) => {
                &&& e == PlanError::Exhausted
                &&& n > 0
                &&& exhausted_reason(place, restore, start)
                &&& exists|trace: Seq<SearchView<S, B>>|
                    #[trigger] search_run(place, restore, start, n as int, trace) && search_stuck(
                        trace.last(),
                    ) && trace.last().bounces.len() < n
            },
        },
        never_refuses(place) ==> r is Ok,
{
    let ghost start_square = start;
    let mut search = Search::new(start);
    let ghost mut trace: Seq<SearchView<S, B>> = seq![search@];
    proof {
        assert(search@ =~= start_view::<S, B>(start_square));
    }
    let ghost mut froms: Seq<S> = Seq::empty();
    let ghost mut tos: Seq<S> = Seq::empty();
    let ghost mut refused_from: S = start_square;
    let ghost mut refused_vertical: bool = false;
    proof {
        lemma_search_digits(n as int, 0, search.flipped@);
    }
    while search.bounces.len() < n
        invariant
            start_square == start,
            search_run(place, restore, start_square, n as int, trace),
            trace.last() == search@,
            search.bounces.len() <= n,
            search.verticals.len() == search.bounces.len(),
            forall|b: B, v: bool| restore.requires((b, v)),
            forall|s: S, i: usize, v: bool, bs: Vec<B>| place.requires((&s, i, v, &bs)),
            never_refuses(place) ==> !search.backtrack,
            level_trace(
                place,
                restore,
                start_square,
                search.bounces@,
                search.verticals@,
                froms,
                tos,
            ),
            forall|i: int|
                0 <= i < search.bounces.len() ==> (#[trigger] froms[i] == square_before(
                    start_square,
                    tos,
                    i,
                ) || search.flipped@.contains(i as usize)),
            search.flipped@.contains(0usize) && search.bounces.len() > 0 ==> restored_for(
                place,
                restore,
                start_square,
                0,
                Seq::<B>::empty(),
                froms[0],
                search.verticals@[0],
            ),
            !search.backtrack ==> {
                ||| search.square == square_before(start_square, tos, search.bounces.len() as int)
                    && (search.bounces.len() == 0 ==> !search.flipped@.contains(0usize))
                ||| search.flipped@.contains(search.bounces.len()) && restored_for(
                    place,
                    restore,
                    square_before(start_square, tos, search.bounces.len() as int),
                    search.bounces.len() as int,
                    search.bounces@,
                    search.square,
                    search.vertical,
                )
            },
            search.backtrack ==> {
                &&& refuses(
                    place,
                    refused_from,
                    search.bounces.len() as int,
                    refused_vertical,
                    search.bounces@,
                )
                &&& (refused_from == square_before(
                    start_square,
                    tos,
                    search.bounces.len() as int,
                ) || restored_for(
                    place,
                    restore,
                    square_before(start_square, tos, search.bounces.len() as int),
                    search.bounces.len() as int,
                    search.bounces@,
                    refused_from,
                    refused_vertical,
                ))
            },
        decreases search_left(
            n as int,
            search.bounces.len() as int,
            search.flipped@,
            search.backtrack,
        ),
    {
        let ghost placed0: int = search.bounces.len() as int;
        let ghost flipped0 = search.flipped@;
        let ghost back0 = search.backtrack;
        let ghost bounces0 = search.bounces@;
        let ghost verticals0 = search.verticals@;
        let ghost st0 = search@;
        if search.backtrack {
            let taken = search.take_down(&restore);
            proof {
                lemma_top_unflipped(placed0, flipped0);
            }
            match taken {
                Err(e) => {
                    proof {
                        if placed0 == 0 {
                            assert(bounces0 =~= Seq::<B>::empty());
                            if refused_from == start_square {
                                assert(refuses(
                                    place,
                                    start_square,
                                    0,
                                    refused_vertical,
                                    Seq::<B>::empty(),
                                ));
                            } else {
                                let p: Vec<B> = choose|p: Vec<B>|
                                    #[trigger] place.ensures(
                                        (&refused_from, 0usize, refused_vertical, &p),
                                        None::<(S, B)>,
                                    ) && p@ == bounces0;
                                assert(asked(
                                    place,
                                    refused_from,
                                    0,
                                    refused_vertical,
                                    Seq::<B>::empty(),
                                ));
                                assert(restored_for(
                                    place,
                                    restore,
                                    start_square,
                                    0,
                                    Seq::<B>::empty(),
                                    refused_from,
                                    refused_vertical,
                                ));
                            }
                        } else {
                            assert(flipped0.contains(0usize));
                            assert(chained(
                                place,
                                restore,
                                start_square,
                                bounces0,
                                verticals0,
                                froms,
                                tos,
                                0,
                            ));
                            assert(bounces0.take(0) =~= Seq::<B>::empty());
                            let p: Vec<B> = choose|p: Vec<B>|
                                #[trigger] place.ensures(
                                    (&froms[0], 0usize, verticals0[0], &p),
                                    Some((tos[0], bounces0[0])),
                                ) && p@ == bounces0.take(0);
                            assert(asked(place, froms[0], 0, verticals0[0], Seq::<B>::empty()));
                            assert(restored_for(
                                place,
                                restore,
                                start_square,
                                0,
                                Seq::<B>::empty(),
                                froms[0],
                                verticals0[0],
                            ));
                        }
                    }
                    assert(exhausted_reason(place, restore, start_square));
                    assert(e == PlanError::Exhausted);
                    assert(n > 0);
                    assert(search_run(place, restore, start_square, n as int, trace) && search_stuck(
                        trace.last(),
                    ) && trace.last().bounces.len() < n);
                    return Err(e);
                },
                Ok(()) => {
                    proof {
                        assert(taken_down(restore, st0, search@));
                        let j: int = top_unflipped(placed0, flipped0);
                        assert(chained(
                            place,
                            restore,
                            start_square,
                            bounces0,
                            verticals0,
                            froms,
                            tos,
                            j,
                        ));
                        assert(froms[j] == square_before(start_square, tos, j)) by {
                            if froms[j] != square_before(start_square, tos, j) {
                                assert(j != 0 || !flipped0.contains(0usize));
                            }
                        }
                        lemma_trace_take(
                            place,
                            restore,
                            start_square,
                            bounces0,
                            verticals0,
                            froms,
                            tos,
                            j,
                        );
                        assert(bounces0.take(j) == search.bounces@);
                        assert(square_before(start_square, tos.take(j), j) == square_before(
                            start_square,
                            tos,
                            j,
                        ));
                        assert(gives(
                            place,
                            square_before(start_square, tos, j),
                            j,
                            !search.vertical,
                            search.bounces@,
                            tos[j],
                            bounces0[j],
                        ));
                        froms = froms.take(j);
                        tos = tos.take(j);
                        assert(restored_for(
                            place,
                            restore,
                            square_before(start_square, tos, j),
                            j,
                            search.bounces@,
                            search.square,
                            search.vertical,
                        ));
                        assert(search.flipped@.contains(j as usize));
                        if j > 0 && search.flipped@.contains(0usize) {
                            assert(flipped0.contains(0usize));
                            assert(froms.take(j)[0] == froms[0]);
                            assert(verticals0.take(j)[0] == verticals0[0]);
                        }
                    }
                },
            }
        }
        let ghost j: int = search.bounces.len() as int;
        let ghost mid = search@;
        let ghost mut roll_g = false;
        let is_open = search.orientation_open();
        if is_open {
            let roll = rand::random_ratio(FLIP_NUMERATOR, FLIP_DENOMINATOR);
            search.orient(roll);
            proof {
                roll_g = roll;
            }
        }
        assert(search@ =~= oriented(mid, roll_g));
        let ghost from = search.square;
        let ghost before: Vec<B> = search.bounces;
        let answer = place(&search.square, search.bounces.len(), search.vertical, &search.bounces);
        let ghost v = search.vertical;
        let ghost ans: Option<(S, B)> = answer;
        assert(answers(place, from, j, v, before@, ans));
        proof {
            match ans {
                None => {
                    assert(refuses(place, from, j, v, before@));
                    refused_from = from;
                    refused_vertical = v;
                },
                Some((s, b)) => {
                    assert(gives(place, from, j, v, before@, s, b));
                    if j == 0 && search.flipped@.contains(0usize) {
                        assert(before@ =~= Seq::<B>::empty());
                        assert(restored_for(
                            place,
                            restore,
                            start_square,
                            0,
                            Seq::<B>::empty(),
                            from,
                            v,
                        ));
                    }
                    lemma_trace_push(
                        place,
                        restore,
                        start_square,
                        before@,
                        search.verticals@,
                        froms,
                        tos,
                        b,
                        v,
                        from,
                        s,
                    );
                    froms = froms.push(from);
                    tos = tos.push(s);
                },
            }
        }
        search.record(answer);
        proof {
            assert(search@ =~= recorded(oriented(mid, roll_g), ans));
            assert(search_round(place, restore, st0, search@));
            let trace0 = trace;
            trace = trace.push(search@);
            assert(trace.drop_last() =~= trace0);
            lemma_search_digits(n as int, placed0, flipped0);
            if back0 {
                lemma_search_shrinks(
                    n as int,
                    placed0,
                    flipped0,
                    back0,
                    search.bounces.len() as int,
                    search.flipped@,
                    search.backtrack,
                    j,
                );
            } else if search.bounces.len() as int == placed0 {
                assert(search.flipped@ =~= flipped0);
            } else {
                lemma_search_shrinks(
                    n as int,
                    placed0,
                    flipped0,
                    back0,
                    search.bounces.len() as int,
                    search.flipped@,
                    search.backtrack,
                    j,
                );
            }
        }
    }
    proof {
        assert(level_trace(place, restore, start, search.bounces@, search.verticals@, froms, tos));
        assert(search.bounces.len() == n);
        assert(exists|vs: Seq<bool>, fs: Seq<S>, ts: Seq<S>|
            #[trigger] level_trace(place, restore, start, search.bounces@, vs, fs, ts));
        assert(search_run(place, restore, start, n as int, trace) && trace.last().bounces
            == search.bounces@);
    }
    let bounces = search.bounces;
    assert(bounces@ == search.bounces@);
    Ok(bounces)
}

} // verus!
