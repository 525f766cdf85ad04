//! The board and its builder.
//!
//! A board is an ordered sequence of cards.  [`build`] turns a level
//! configuration and a face catalog into a freshly shuffled board: it checks
//! the configuration, optionally shuffles the catalog for face variety, deals
//! `group_size` hidden cards per chosen face, and shuffles the result.

use vstd::assert_multisets_equal;
use vstd::multiset::Multiset;
use vstd::prelude::*;
use vstd::seq_lib::group_to_multiset_ensures;

use crate::shuffle::{fy_shuffled, shuffle, Shuffler};

verus! {

/// What the player sees of one card.
///
/// `Hidden` cards show their back, `Selected` cards are face up as part of a
/// selection in progress or a mismatch awaiting its delayed hide, and
/// `Solved` cards belong to a completed group.  `Solved` is terminal: no
/// operation of this crate ever changes a solved card again.
#[derive(Clone, Copy, Debug, PartialEq, Eq, Structural)]
pub enum Visibility {
    Hidden,
    Selected,
    Solved,
}

/// One card of the board.
///
/// All cards of one matching group share the same `identity`; `face` is the
/// display payload shown when the card is face up.
#[derive(Clone, Debug, PartialEq, Eq)]
pub struct Card {
    pub identity: usize,
    pub face: String,
    pub visibility: Visibility,
}

/// An immutable level configuration.
///
/// A level is consistent when `group_size >= 2` and `total_cards` is a
/// multiple of `group_size`; [`build`] rejects anything else.
#[derive(Clone, Debug)]
pub struct Level {
    pub name: String,
    pub group_size: usize,
    pub total_cards: usize,
}

/// The error taxonomy of the engine.
///
/// `ConfigError` is fatal to a build attempt: the level and the face catalog
/// do not fit together.  `IndexError` marks an out-of-range index handed to
/// `select_card`; a well-typed host never produces it.
#[derive(Clone, Copy, Debug, PartialEq, Eq, Structural)]
pub enum GameError {
    ConfigError,
    IndexError,
}

impl Level {
    /// A consistent level: groups of at least two, and a card count that the
    /// group size divides evenly.
    pub open spec fn consistent(self) -> bool {
        &&& self.group_size >= 2
        &&& self.total_cards as int % self.group_size as int == 0
    }

    /// How many matching groups the level asks for.
    pub open spec fn group_count(self) -> int {
        self.total_cards as int / self.group_size as int
    }
}

/// The cards of the group with identity `id`: `gs` identical hidden cards
/// showing `face`.
pub open spec fn card_group(id: usize, face: String, gs: int) -> Seq<Card> {
    Seq::new(gs as nat, |i: int| Card { identity: id, face: face, visibility: Visibility::Hidden })
}

/// The canonical unshuffled board over `faces`: for each face, in catalog
/// order, one group of `gs` hidden cards, the group's position in `faces`
/// serving as its identity.
pub open spec fn group_cards(faces: Seq<String>, gs: int) -> Seq<Card>
    decreases faces.len(),
{
    if faces.len() == 0 {
        Seq::empty()
    } else {
        group_cards(faces.drop_last(), gs)
            + card_group((faces.len() - 1) as usize, faces.last(), gs)
    }
}

/// How many positions of `s` hold a card with identity `id`.
pub open spec fn count_id(s: Seq<Card>, id: int) -> int
    decreases s.len(),
{
    if s.len() == 0 {
        0
    } else {
        count_id(s.drop_last(), id) + if s.last().identity == id {
            1int
        } else {
            0int
        }
    }
}

/// Whether a board can be built at all: the level is consistent and the
/// catalog offers at least one face per group.
pub open spec fn buildable(level: Level, catalog: Seq<String>) -> bool {
    &&& level.consistent()
    &&& catalog.len() >= level.group_count()
}

/// The faces the builder deals from: the catalog, shuffled first when
/// `shuffle_catalog` is set, cut down to one face per group.
pub open spec fn chosen_faces(
    level: Level,
    catalog: Seq<String>,
    shuffle_catalog: bool,
    seed: Seq<u8>,
    d0: int,
) -> Seq<String> {
    if shuffle_catalog {
        fy_shuffled(catalog, seed, d0).take(level.group_count())
    } else {
        catalog.take(level.group_count())
    }
}

/// The board that [`build`] returns: the canonical grouped sequence over the
/// chosen faces, shuffled.  A pure function of the level, the catalog, the
/// shuffle flag and the shuffler's seed and position — nothing else — so the
/// same inputs always give the bit-identical board order.
pub open spec fn built_board(
    level: Level,
    catalog: Seq<String>,
    shuffle_catalog: bool,
    seed: Seq<u8>,
    d0: int,
) -> Seq<Card> {
    let faces = chosen_faces(level, catalog, shuffle_catalog, seed, d0);
    let d1 = if shuffle_catalog {
        d0 + catalog.len()
    } else {
        d0
    };
    fy_shuffled(group_cards(faces, level.group_size as int), seed, d1)
}

/// Board building is deterministic: what [`build`] returns depends on the
/// shuffler only through its seed and its stream position, so two builds of
/// the same level from the same catalog, with shufflers seeded alike and in
/// the same position, yield the bit-identical board order.
pub proof fn lemma_build_deterministic(
    level: Level,
    catalog: Seq<String>,
    shuffle_catalog: bool,
    a: Shuffler,
    b: Shuffler,
)
    requires
        a.seed() == b.seed(),
        a.drawn() == b.drawn(),
    ensures
        built_board(level, catalog, shuffle_catalog, a.seed(), a.drawn()) == built_board(
            level,
            catalog,
            shuffle_catalog,
            b.seed(),
            b.drawn(),
        ),
{
}

/// The cards of `s` with identity `id`, as a multiset.
pub open spec fn cards_with_id(s: Seq<Card>, id: int) -> Multiset<Card> {
    s.to_multiset().filter(|c: Card| c.identity == id)
}

/// `count_id` counts exactly the cards of the multiset with that identity, so
/// it only depends on the multiset of cards, not on their order.
proof fn lemma_count_id_multiset(s: Seq<Card>, id: int)
    ensures
        count_id(s, id) == cards_with_id(s, id).len(),
    decreases s.len(),
{
    broadcast use group_to_multiset_ensures;
    broadcast use vstd::multiset::group_multiset_axioms;
    broadcast use vstd::multiset::group_multiset_properties;

    if s.len() == 0 {
        assert(s.to_multiset() =~= Multiset::<Card>::empty());
        assert(cards_with_id(s, id) =~= Multiset::<Card>::empty());
    } else {
        let dl = s.drop_last();
        let a = s.last();
        lemma_count_id_multiset(dl, id);
        assert(s =~= dl.push(a));
        assert(s.to_multiset() == dl.to_multiset().insert(a));
        if a.identity == id {
            assert(cards_with_id(s, id) =~= cards_with_id(dl, id).insert(a));
        } else {
            assert(cards_with_id(s, id) =~= cards_with_id(dl, id));
        }
    }
}

/// Two sequences with the same multiset of cards give every identity the same
/// number of positions.
pub proof fn lemma_count_id_permutation(s1: Seq<Card>, s2: Seq<Card>, id: int)
    requires
        s1.to_multiset() == s2.to_multiset(),
    ensures
        count_id(s1, id) == count_id(s2, id),
{
    lemma_count_id_multiset(s1, id);
    lemma_count_id_multiset(s2, id);
}

/// What `card_group` contributes to each identity count: `gs` positions for
/// its own identity, none for any other.
proof fn lemma_card_group_count(id0: usize, face: String, gs: int, id: int)
    requires
        gs >= 0,
    ensures
        card_group(id0, face, gs).len() == gs,
        count_id(card_group(id0, face, gs), id) == if id0 == id {
            gs
        } else {
            0int
        },
    decreases gs,
{
    if gs > 0 {
        lemma_card_group_count(id0, face, gs - 1, id);
        assert(card_group(id0, face, gs).drop_last() =~= card_group(id0, face, gs - 1));
    }
}

/// Identity counts add up over concatenation.
proof fn lemma_count_id_add(x: Seq<Card>, y: Seq<Card>, id: int)
    ensures
        count_id(x + y, id) == count_id(x, id) + count_id(y, id),
    decreases y.len(),
{
    if y.len() == 0 {
        assert(x + y =~= x);
    } else {
        lemma_count_id_add(x, y.drop_last(), id);
        assert((x + y).drop_last() =~= x + y.drop_last());
        assert((x + y).last() == y.last());
    }
}

/// The canonical grouped sequence over `faces` has `faces.len() * gs` cards,
/// gives each of the identities `0 .. faces.len()` exactly `gs` positions and
/// every other identity none, and every card in it is hidden and shows the
/// face of its group.
pub proof fn lemma_group_cards_facts(faces: Seq<String>, gs: int)
    requires
        gs >= 0,
        faces.len() <= usize::MAX,
    ensures
        group_cards(faces, gs).len() == faces.len() * gs,
        forall|id: int|
            #[trigger] count_id(group_cards(faces, gs), id) == if 0 <= id < faces.len() {
                gs
            } else {
                0int
            },
        forall|c: Card| #[trigger]
            group_cards(faces, gs).contains(c) ==> c.visibility == Visibility::Hidden
                && c.identity < faces.len() && c.face == faces[c.identity as int],
    decreases faces.len(),
{
    if faces.len() == 0 {
    } else {
        let dl = faces.drop_last();
        let id0 = (faces.len() - 1) as usize;
        let block = card_group(id0, faces.last(), gs);
        lemma_group_cards_facts(dl, gs);
        assert(group_cards(faces, gs) == group_cards(dl, gs) + block);
        lemma_card_group_count(id0, faces.last(), gs, id0 as int);
        assert((faces.len() - 1) * gs + gs == faces.len() * gs) by (nonlinear_arith);
        assert forall|id: int|
            #[trigger] count_id(group_cards(faces, gs), id) == if 0 <= id < faces.len() {
                gs
            } else {
                0int
            } by {
            lemma_count_id_add(group_cards(dl, gs), block, id);
            lemma_card_group_count(id0, faces.last(), gs, id);
        }
        assert forall|c: Card| #[trigger]
            group_cards(faces, gs).contains(c) implies c.visibility == Visibility::Hidden
            && c.identity < faces.len() && c.face == faces[c.identity as int] by {
            let p = choose|p: int|
                0 <= p < group_cards(faces, gs).len() && group_cards(faces, gs)[p] == c;
            if p < group_cards(dl, gs).len() {
                assert(group_cards(dl, gs).contains(c)) by {
                    assert(group_cards(dl, gs)[p] == c);
                }
                assert(faces[c.identity as int] == dl[c.identity as int]);
            } else {
                assert(block[p - group_cards(dl, gs).len()] == c);
                assert(c.identity == id0);
                assert(faces[id0 as int] == faces.last());
            }
        }
    }
}

/// Build a freshly shuffled board for `level`, dealing faces from `catalog`.
///
/// Exactly when the configuration is inconsistent — groups smaller than two,
/// a card count the group size does not divide, or fewer catalog faces than
/// groups — the build fails with `ConfigError` and the shuffler is untouched.
/// Otherwise the board is the canonical grouped sequence over the chosen
/// faces, shuffled: a permutation of it holding every identity in exactly
/// `group_size` positions, every card hidden and showing its group's face.
/// The board is a pure function of the level, the catalog, the shuffle flag
/// and the shuffler's seed and position, so the same seed, level and catalog
/// always yield the bit-identical board order.
pub fn build(level: &Level, catalog: &Vec<String>, shuffle_catalog: bool, sh: &mut Shuffler) -> (r:
    Result<Vec<Card>, GameError>)
    ensures
        r is Ok <==> buildable(*level, catalog@),
        r is Err ==> r == Err::<Vec<Card>, GameError>(GameError::ConfigError) && *final(sh)
            == *old(sh),
        r is Ok ==> ({
            let b = r->Ok_0;
            let faces = chosen_faces(
                *level,
                catalog@,
                shuffle_catalog,
                old(sh).seed(),
                old(sh).drawn(),
            );
            &&& b@ == built_board(
                *level,
                catalog@,
                shuffle_catalog,
                old(sh).seed(),
                old(sh).drawn(),
            )
            &&& b@.len() == level.total_cards
            &&& b@.to_multiset() == group_cards(faces, level.group_size as int).to_multiset()
            &&& forall|id: int|
                #[trigger] count_id(b@, id) == if 0 <= id < level.group_count() {
                    level.group_size as int
                } else {
                    0int
                }
            &&& forall|p: int|
                0 <= p < b@.len() ==> (#[trigger] b@[p]).visibility == Visibility::Hidden
                    && b@[p].identity < level.group_count() && b@[p].face == faces[b@[
                    p].identity as int]
            &&& final(sh).seed() == old(sh).seed()
            &&& final(sh).drawn() == old(sh).drawn() + (if shuffle_catalog {
                catalog@.len() as int
            } else {
                0int
            }) + level.total_cards as int
        }),
{
    let gs = level.group_size;
    let total = level.total_cards;
    if gs < 2 || total % gs != 0 {
        return Err(GameError::ConfigError);
    }
    let gc = total / gs;
    if catalog.len() < gc {
        return Err(GameError::ConfigError);
    }
    let ghost seed = sh.seed();
    let ghost d0 = sh.drawn();

    // Working copy of the catalog, so the caller keeps the original.
    let mut faces: Vec<String> = Vec::new();
    let mut k: usize = 0;
    while k < catalog.len()
        invariant
            k <= catalog@.len(),
            faces@ == catalog@.take(k as int),
        decreases catalog@.len() - k,
    {
        faces.push(catalog[k].clone());
        proof {
            assert(catalog@.take(k as int).push(catalog@[k as int]) =~= catalog@.take(
                k as int + 1,
            ));
        }
        k = k + 1;
    }
    proof {
        assert(catalog@.take(catalog@.len() as int) =~= catalog@);
    }
    if shuffle_catalog {
        shuffle(&mut faces, sh);
    }
    let ghost sel = faces@.take(gc as int);
    let ghost d1 = sh.drawn();

    // Deal one group of `gs` identical hidden cards per chosen face.
    let mut cards: Vec<Card> = Vec::new();
    let mut g: usize = 0;
    while g < gc
        invariant
            g <= gc,
            gc <= faces@.len(),
            sel == faces@.take(gc as int),
            cards@ == group_cards(sel.take(g as int), gs as int),
        decreases gc - g,
    {
        let face = faces[g].clone();
        let mut c: usize = 0;
        while c < gs
            invariant
                c <= gs,
                g < gc,
                gc <= faces@.len(),
                sel == faces@.take(gc as int),
                face == faces@[g as int],
                cards@ == group_cards(sel.take(g as int), gs as int) + card_group(
                    g,
                    faces@[g as int],
                    gs as int,
                ).take(c as int),
            decreases gs - c,
        {
            cards.push(Card { identity: g, face: face.clone(), visibility: Visibility::Hidden });
            proof {
                let block = card_group(g, faces@[g as int], gs as int);
                assert(block.take(c as int).push(block[c as int]) =~= block.take(c as int + 1));
                assert((group_cards(sel.take(g as int), gs as int) + block.take(c as int)).push(
                    block[c as int],
                ) =~= group_cards(sel.take(g as int), gs as int) + block.take(c as int + 1));
            }
            c = c + 1;
        }
        proof {
            let block = card_group(g, faces@[g as int], gs as int);
            assert(block.take(gs as int) =~= block);
            assert(sel.take(g as int + 1).drop_last() =~= sel.take(g as int));
            assert(sel.take(g as int + 1).last() == faces@[g as int]);
            assert(group_cards(sel.take(g as int + 1), gs as int) == group_cards(
                sel.take(g as int),
                gs as int,
            ) + block);
        }
        g = g + 1;
    }
    proof {
        assert(sel.take(gc as int) =~= sel);
    }

    // Shuffle the dealt cards into their final order.
    shuffle(&mut cards, sh);

    proof {
        broadcast use group_to_multiset_ensures;

        vstd::arithmetic::div_mod::lemma_fundamental_div_mod(total as int, gs as int);
        assert(total as int == gs as int * (total as int / gs as int) + total as int % gs as int);
        assert(level.group_count() == gc as int);
        assert(sel.len() == gc as int);
        let canon = group_cards(sel, gs as int);
        lemma_group_cards_facts(sel, gs as int);
        assert(canon.len() == gc as int * gs as int);
        assert(gc as int * gs as int == gs as int * gc as int) by (nonlinear_arith);
        assert(canon.len() == total as int);
        assert(cards@.to_multiset() == canon.to_multiset());
        assert(sel == chosen_faces(*level, catalog@, shuffle_catalog, seed, d0));
        assert(cards@ == built_board(*level, catalog@, shuffle_catalog, seed, d0));
        assert forall|id: int|
            #[trigger] count_id(cards@, id) == if 0 <= id < level.group_count() {
                level.group_size as int
            } else {
                0int
            } by {
            lemma_count_id_permutation(cards@, canon, id);
        }
        assert forall|p: int| 0 <= p < cards@.len() implies (#[trigger] cards@[p]).visibility
            == Visibility::Hidden && cards@[p].identity < level.group_count() && cards@[p].face
            == sel[cards@[p].identity as int] by {
            assert(cards@.contains(cards@[p]));
            assert(cards@.to_multiset().count(cards@[p]) > 0);
            assert(canon.contains(cards@[p]));
        }
    }
    Ok(cards)
}

} // verus!
