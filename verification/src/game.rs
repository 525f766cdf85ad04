//! The game state machine.
//!
//! A [`GameState`] owns a board and the selection in progress.  `select_card`
//! applies one player tap: it flips a hidden card, and once a full group is
//! selected it either solves the group or reports a mismatch together with
//! the delayed-hide request the host must schedule.  `resolve_timeout`
//! applies such a request when the host's timer fires; it is idempotent and
//! never touches a solved card or a selection begun in the meantime.

use vstd::prelude::*;

use crate::board::{build, built_board, buildable, count_id, Card, GameError, Level, Visibility};
use crate::shuffle::Shuffler;

verus! {

/// How long a mismatched group stays face up before the host should hide it
/// again, in milliseconds.
pub const MISMATCH_DELAY_MS: u64 = 800;

/// A declarative request to the host: after `delay_ms` have elapsed, call
/// `resolve_timeout` with these indices.  The engine keeps no reference to it
/// after emission; staleness is handled by `resolve_timeout` itself.
#[derive(Clone, Debug, PartialEq, Eq)]
pub struct DelayedAction {
    pub indices: Vec<usize>,
    pub delay_ms: u64,
}

/// What one `select_card` call did.
///
/// `Ignored`: the tap hit a card that was not hidden; nothing changed.
/// `Flipped`: the card turned face up, the group is not complete yet.
/// `Matched`: the tap completed a group of equal identities; those cards are
/// now solved.  `Mismatched`: the tap completed a group with differing
/// identities; the cards stay face up and the host must schedule the carried
/// [`DelayedAction`].
#[derive(Clone, Debug, PartialEq, Eq)]
pub enum SelectOutcome {
    Ignored,
    Flipped,
    Matched(Vec<usize>),
    Mismatched(DelayedAction),
}

/// The card `c` with its visibility replaced by `v`.
pub open spec fn with_vis(c: Card, v: Visibility) -> Card {
    Card { visibility: v, ..c }
}

/// Whether the selected positions `sel` of board `b` all carry the same
/// identity.
pub open spec fn all_match(b: Seq<Card>, sel: Seq<usize>) -> bool {
    forall|i: int|
        0 <= i < sel.len() ==> #[trigger] b[sel[i] as int].identity == b[sel[0] as int].identity
}

/// The board `b` with the cards at the positions in `idxs` set to `v` and
/// every other card unchanged.
pub open spec fn set_vis_at(b: Seq<Card>, idxs: Seq<usize>, v: Visibility) -> Seq<Card> {
    Seq::new(
        b.len(),
        |p: int|
            if idxs.contains(p as usize) {
                with_vis(b[p], v)
            } else {
                b[p]
            },
    )
}

/// What resolving a delayed hide does to board `b` while the selection
/// `in_sel` is in progress: every card listed in `idxs` that is still
/// `Selected` — and not part of the selection begun in the meantime — goes
/// back to `Hidden`; every other card, solved or already hidden, is left
/// exactly as it was.
pub open spec fn resolve_model(b: Seq<Card>, in_sel: Seq<usize>, idxs: Seq<usize>) -> Seq<Card> {
    Seq::new(
        b.len(),
        |p: int|
            if idxs.contains(p as usize) && b[p].visibility == Visibility::Selected
                && !in_sel.contains(p as usize) {
                with_vis(b[p], Visibility::Hidden)
            } else {
                b[p]
            },
    )
}

/// The game state machine: the current level, the board, and the indices of
/// the selection in progress.
pub struct GameState {
    pub current_level: Level,
    pub board: Vec<Card>,
    pub selected_indices: Vec<usize>,
}

impl GameState {
    /// The state invariant: a consistent level, a board of the level's size,
    /// and a selection of fewer than `group_size` distinct in-range indices,
    /// each pointing at a card that is face up as `Selected`.
    pub open spec fn wf(self) -> bool {
        &&& self.current_level.consistent()
        &&& self.board@.len() == self.current_level.total_cards
        &&& self.selected_indices@.len() < self.current_level.group_size
        &&& forall|i: int|
            0 <= i < self.selected_indices@.len() ==> (#[trigger] self.selected_indices@[i] as int)
                < self.board@.len()
        &&& forall|i: int|
            0 <= i < self.selected_indices@.len() ==> self.board@[#[trigger] self.selected_indices@[i] as int].visibility
                == Visibility::Selected
        &&& forall|i: int, j: int|
            0 <= i < j < self.selected_indices@.len() ==> #[trigger] self.selected_indices@[i]
                != #[trigger] self.selected_indices@[j]
    }
}

/// Set the visibility of the card at `i` and change nothing else.
fn set_visibility(board: &mut Vec<Card>, i: usize, v: Visibility)
    requires
        i < old(board).len(),
    ensures
        final(board)@ == old(board)@.update(i as int, with_vis(old(board)@[i as int], v)),
{
    let c = &mut board[i];
    c.visibility = v;
}

/// Whether `v` holds the index `x`.
fn contains_idx(v: &Vec<usize>, x: usize) -> (r: bool)
    ensures
        r == v@.contains(x),
{
    let mut k: usize = 0;
    while k < v.len()
        invariant
            k <= v@.len(),
            forall|i: int| 0 <= i < k ==> v@[i] != x,
        decreases v@.len() - k,
    {
        if v[k] == x {
            return true;
        }
        k = k + 1;
    }
    false
}

/// Extending a prefix by one element extends what it holds by exactly that
/// element.
proof fn lemma_take_contains<A>(s: Seq<A>, k: int, x: A)
    requires
        0 <= k < s.len(),
    ensures
        s.take(k + 1).contains(x) <==> (s.take(k).contains(x) || s[k] == x),
{
    if s.take(k).contains(x) {
        let p = choose|p: int| 0 <= p < s.take(k).len() && #[trigger] s.take(k)[p] == x;
        assert(s.take(k + 1)[p] == x);
    }
    if s[k] == x {
        assert(s.take(k + 1)[k] == x);
    }
    if s.take(k + 1).contains(x) {
        let p = choose|p: int| 0 <= p < s.take(k + 1).len() && #[trigger] s.take(k + 1)[p] == x;
        if p < k {
            assert(s.take(k)[p] == x);
        }
    }
}

impl GameState {
    /// Start a game of `level`: build a freshly shuffled board from `catalog`
    /// (see [`build`]) and an empty selection.  Fails with `ConfigError` —
    /// and leaves the shuffler untouched — exactly when the level and the
    /// catalog do not fit together.
    pub fn new(level: Level, catalog: &Vec<String>, shuffle_catalog: bool, sh: &mut Shuffler) -> (r:
        Result<GameState, GameError>)
        ensures
            r is Ok <==> buildable(level, catalog@),
            r is Err ==> r == Err::<GameState, GameError>(GameError::ConfigError) && *final(sh)
                == *old(sh),
            r is Ok ==> ({
                let g = r->Ok_0;
                &&& g.wf()
                &&& g.current_level == level
                &&& g.selected_indices@ == Seq::<usize>::empty()
                &&& g.board@ == built_board(
                    level,
                    catalog@,
                    shuffle_catalog,
                    old(sh).seed(),
                    old(sh).drawn(),
                )
                &&& g.board@.len() == level.total_cards
                &&& forall|p: int|
                    0 <= p < g.board@.len() ==> (#[trigger] g.board@[p]).visibility
                        == Visibility::Hidden
                &&& forall|id: int|
                    #[trigger] count_id(g.board@, id) == if 0 <= id < level.group_count() {
                        level.group_size as int
                    } else {
                        0int
                    }
                &&& final(sh).seed() == old(sh).seed()
                &&& final(sh).drawn() == old(sh).drawn() + (if shuffle_catalog {
                    catalog@.len() as int
                } else {
                    0int
                }) + level.total_cards as int
            }),
    {
        match build(&level, catalog, shuffle_catalog, sh) {
            Ok(b) => Ok(
                GameState { current_level: level, board: b, selected_indices: Vec::new() },
            ),
            Err(e) => Err(e),
        }
    }

    /// A read-only snapshot of the board for the host's view projection.
    pub fn snapshot(&self) -> (r: &Vec<Card>)
        ensures
            r@ == self.board@,
    {
        &self.board
    }

    /// Apply one player tap on the card at `index`.
    ///
    /// Out-of-range indices fail with `IndexError` and change nothing.  A tap
    /// on a card that is not hidden is `Ignored` and changes nothing.
    /// Otherwise the card turns `Selected` and joins the selection; while the
    /// selection is still short of `group_size` the outcome is `Flipped`.
    /// The tap that completes the selection resolves it and clears the
    /// selection: all identities equal means `Matched` and the cards turn
    /// `Solved`; otherwise `Mismatched`, the cards stay face up, and the
    /// outcome carries the delayed hide the host must schedule.
    pub fn select_card(&mut self, index: usize) -> (r: Result<SelectOutcome, GameError>)
        requires
            old(self).wf(),
        ensures
            final(self).wf(),
            final(self).current_level == old(self).current_level,
            r is Err <==> index >= old(self).board@.len(),
            r is Err ==> r == Err::<SelectOutcome, GameError>(GameError::IndexError) && *final(self)
                == *old(self),
            index < old(self).board@.len() && old(self).board@[index as int].visibility
                != Visibility::Hidden ==> r == Ok::<SelectOutcome, GameError>(SelectOutcome::Ignored)
                && *final(self) == *old(self),
            index < old(self).board@.len() && old(self).board@[index as int].visibility
                == Visibility::Hidden ==> ({
                let b1 = old(self).board@.update(
                    index as int,
                    with_vis(old(self).board@[index as int], Visibility::Selected),
                );
                let s1 = old(self).selected_indices@.push(index);
                &&& s1.len() < old(self).current_level.group_size ==> r == Ok::<
                    SelectOutcome,
                    GameError,
                >(SelectOutcome::Flipped) && final(self).board@ == b1
                    && final(self).selected_indices@ == s1
                &&& s1.len() == old(self).current_level.group_size && all_match(b1, s1) ==> ({
                    &&& r matches Ok(SelectOutcome::Matched(m)) && m@ == s1
                    &&& final(self).board@ == set_vis_at(b1, s1, Visibility::Solved)
                    &&& final(self).selected_indices@ == Seq::<usize>::empty()
                })
                &&& s1.len() == old(self).current_level.group_size && !all_match(b1, s1) ==> ({
                    &&& r matches Ok(SelectOutcome::Mismatched(da)) && da.indices@ == s1
                        && da.delay_ms == MISMATCH_DELAY_MS
                    &&& final(self).board@ == b1
                    &&& final(self).selected_indices@ == Seq::<usize>::empty()
                })
            }),
    {
        if index >= self.board.len() {
            return Err(GameError::IndexError);
        }
        if self.board[index].visibility != Visibility::Hidden {
            return Ok(SelectOutcome::Ignored);
        }
        proof {
            assert forall|i: int|
                0 <= i < old(self).selected_indices@.len() implies old(self).selected_indices@[i]
                != index by {
                assert(old(self).board@[old(self).selected_indices@[i] as int].visibility
                    == Visibility::Selected);
            }
        }
        set_visibility(&mut self.board, index, Visibility::Selected);
        self.selected_indices.push(index);
        let ghost b1 = self.board@;
        let ghost s1 = self.selected_indices@;
        let gs = self.current_level.group_size;
        if self.selected_indices.len() < gs {
            return Ok(SelectOutcome::Flipped);
        }

        // The selection is complete: compare all identities with the first.
        let first = self.selected_indices[0];
        let first_id = self.board[first].identity;
        let mut matched = true;
        let mut k: usize = 1;
        while k < self.selected_indices.len()
            invariant
                1 <= k <= s1.len(),
                self.current_level == old(self).current_level,
                b1 == self.board@,
                s1 == self.selected_indices@,
                forall|i: int| 0 <= i < s1.len() ==> (#[trigger] s1[i] as int) < b1.len(),
                first_id == b1[s1[0] as int].identity,
                matched <==> (forall|i: int|
                    0 <= i < k ==> #[trigger] b1[s1[i] as int].identity == b1[s1[0] as int].identity),
            decreases s1.len() - k,
        {
            if self.board[self.selected_indices[k]].identity != first_id {
                matched = false;
            }
            k = k + 1;
        }
        proof {
            assert(matched <==> all_match(b1, s1));
        }

        // The selection tracking resets either way; keep the indices for the
        // outcome.
        let mut taken: Vec<usize> = Vec::new();
        let mut t: usize = 0;
        while t < self.selected_indices.len()
            invariant
                t <= s1.len(),
                s1 == self.selected_indices@,
                taken@ == s1.take(t as int),
            decreases s1.len() - t,
        {
            taken.push(self.selected_indices[t]);
            proof {
                assert(s1.take(t as int).push(s1[t as int]) =~= s1.take(t as int + 1));
            }
            t = t + 1;
        }
        proof {
            assert(s1.take(s1.len() as int) =~= s1);
        }
        self.selected_indices.clear();

        if matched {
            // Solve every card of the completed group.
            let mut k: usize = 0;
            while k < taken.len()
                invariant
                    k <= taken@.len(),
                    taken@ == s1,
                    self.current_level == old(self).current_level,
                    self.selected_indices@ == Seq::<usize>::empty(),
                    b1.len() == self.board@.len(),
                    b1.len() <= usize::MAX,
                    forall|i: int| 0 <= i < s1.len() ==> (#[trigger] s1[i] as int) < b1.len(),
                    forall|i: int, j: int| 0 <= i < j < s1.len() ==> s1[i] != s1[j],
                    self.board@ == set_vis_at(b1, s1.take(k as int), Visibility::Solved),
                decreases taken@.len() - k,
            {
                let idx = taken[k];
                let ghost prev = self.board@;
                set_visibility(&mut self.board, idx, Visibility::Solved);
                proof {
                    assert(idx == s1[k as int]);
                    assert(self.board@ == prev.update(
                        idx as int,
                        with_vis(prev[idx as int], Visibility::Solved),
                    ));
                    assert(!s1.take(k as int).contains(idx)) by {
                        if s1.take(k as int).contains(idx) {
                            let q = choose|q: int|
                                0 <= q < s1.take(k as int).len() && #[trigger] s1.take(
                                    k as int,
                                )[q] == idx;
                            assert(s1[q] == idx);
                            assert(s1[q] != s1[k as int]);
                        }
                    }
                    assert(prev[idx as int] == b1[idx as int]);
                    assert forall|p: int| 0 <= p < b1.len() implies self.board@[p] == set_vis_at(
                        b1,
                        s1.take(k as int + 1),
                        Visibility::Solved,
                    )[p] by {
                        lemma_take_contains(s1, k as int, p as usize);
                        if p == idx as int {
                            assert(s1.take(k as int + 1).contains(idx));
                            assert(self.board@[p] == with_vis(b1[p], Visibility::Solved));
                        } else {
                            assert(self.board@[p] == prev[p]);
                        }
                    }
                    assert(self.board@ =~= set_vis_at(b1, s1.take(k as int + 1), Visibility::Solved));
                }
                k = k + 1;
            }
            proof {
                assert(s1.take(s1.len() as int) =~= s1);
            }
            Ok(SelectOutcome::Matched(taken))
        } else {
            Ok(
                SelectOutcome::Mismatched(
                    DelayedAction { indices: taken, delay_ms: MISMATCH_DELAY_MS },
                ),
            )
        }
    }

    /// Apply a delayed hide whose timer has fired: every index of `indices`
    /// whose card is still `Selected` — and not part of a selection begun in
    /// the meantime — goes back to `Hidden`.  Cards that were solved or
    /// hidden by the time the timer fires are silently skipped, so a stale
    /// action never downgrades them; the level and the selection in progress
    /// are untouched.
    pub fn resolve_timeout(&mut self, indices: &Vec<usize>)
        requires
            old(self).wf(),
        ensures
            final(self).wf(),
            final(self).current_level == old(self).current_level,
            final(self).selected_indices == old(self).selected_indices,
            final(self).board@ == resolve_model(
                old(self).board@,
                old(self).selected_indices@,
                indices@,
            ),
            forall|p: int|
                0 <= p < old(self).board@.len() && (#[trigger] old(self).board@[p]).visibility
                    == Visibility::Solved ==> final(self).board@[p] == old(self).board@[p],
    {
        let ghost b0 = self.board@;
        let ghost in_sel = self.selected_indices@;
        let mut k: usize = 0;
        while k < indices.len()
            invariant
                k <= indices@.len(),
                self.current_level == old(self).current_level,
                self.selected_indices == old(self).selected_indices,
                in_sel == self.selected_indices@,
                b0.len() == self.board@.len(),
                self.board@ == resolve_model(b0, in_sel, indices@.take(k as int)),
            decreases indices@.len() - k,
        {
            let i = indices[k];
            if i < self.board.len() {
                let is_selected = self.board[i].visibility == Visibility::Selected;
                if is_selected && !contains_idx(&self.selected_indices, i) {
                    set_visibility(&mut self.board, i, Visibility::Hidden);
                }
            }
            proof {
                assert forall|p: int| 0 <= p < b0.len() implies self.board@[p] == resolve_model(
                    b0,
                    in_sel,
                    indices@.take(k as int + 1),
                )[p] by {
                    lemma_take_contains(indices@, k as int, p as usize);
                }
                assert(self.board@ =~= resolve_model(b0, in_sel, indices@.take(k as int + 1)));
            }
            k = k + 1;
        }
        proof {
            assert(indices@.take(indices@.len() as int) =~= indices@);
        }
    }
}

/// Resolving a delayed hide is idempotent: applying the same action twice in
/// a row — with the same selection in progress — changes nothing beyond the
/// first application.
pub proof fn lemma_resolve_timeout_idempotent(b: Seq<Card>, in_sel: Seq<usize>, idxs: Seq<usize>)
    ensures
        resolve_model(resolve_model(b, in_sel, idxs), in_sel, idxs) == resolve_model(
            b,
            in_sel,
            idxs,
        ),
{
    let r1 = resolve_model(b, in_sel, idxs);
    assert(resolve_model(r1, in_sel, idxs) =~= r1);
}

/// A delayed hide never resurrects a solved card: whatever indices it names
/// and whatever selection is in progress, a card that is `Solved` when the
/// timer fires stays exactly as it is.
pub proof fn lemma_resolve_timeout_preserves_solved(
    b: Seq<Card>,
    in_sel: Seq<usize>,
    idxs: Seq<usize>,
    p: int,
)
    requires
        0 <= p < b.len(),
        b[p].visibility == Visibility::Solved,
    ensures
        resolve_model(b, in_sel, idxs)[p] == b[p],
{
}

} // verus!
