//! The turn resolution and game-state engine.

use vstd::prelude::*;
use vstd::multiset::Multiset;
use crate::card::{lemma_standard_deck_len, next_rand, standard_deck, Card, Deck};

verus! {

/// The rotation direction of play.
#[derive(Clone, Copy, PartialEq, Eq, Structural, Debug)]
pub enum Direction {
    Clockwise,
    CounterClockwise,
}

/// Flip the rotation direction.
pub open spec fn flip(d: Direction) -> Direction {
    match d {
        Direction::Clockwise => Direction::CounterClockwise,
        Direction::CounterClockwise => Direction::Clockwise,
    }
}

/// One rotation step from `cursor` among `n` players: clockwise moves to
/// `(cursor + 1) % n`, counter-clockwise moves to `cursor - 1`, wrapping to
/// `n - 1` at zero.
pub open spec fn next_index(cursor: int, d: Direction, n: int) -> int
    recommends
        1 <= n,
{
    match d {
        Direction::Clockwise => (cursor + 1) % n,
        Direction::CounterClockwise => if cursor == 0 {
            n - 1
        } else {
            cursor - 1
        },
    }
}

/// A stack card: one that carries a draw penalty and may be countered only by
/// an identical stack card.
pub open spec fn is_stack_card(c: Card) -> bool {
    c is DrawTwo || c is DrawFour
}

/// Whether `c` may be selected from a hand when `top` governs play and
/// `pending` cards of penalty are outstanding: under an unresolved penalty
/// with a stack card on top, only a card equal to `top` may be played;
/// otherwise the general compatibility rule applies.
pub open spec fn playable_ok(c: Card, top: Card, pending: int) -> bool {
    if pending > 0 && is_stack_card(top) {
        c == top
    } else {
        c.spec_can_play_on(top)
    }
}

/// The legal subset of a hand, in hand order.
pub open spec fn playable_cards(hand: Seq<Card>, top: Card, pending: int) -> Seq<Card> {
    hand.filter(|c: Card| playable_ok(c, top, pending))
}

/// The engine forces a draw when a penalty is outstanding and the playable
/// subset holds no card equal to the top card.
pub open spec fn must_force_draw(hand: Seq<Card>, top: Card, pending: int) -> bool {
    pending > 0 && !playable_cards(hand, top, pending).contains(top)
}

/// The index of the first occurrence of `c` in `hand` (its length when `c`
/// does not occur).
pub open spec fn first_index(hand: Seq<Card>, c: Card) -> int
    decreases hand.len(),
{
    if hand.len() == 0 {
        0
    } else if hand[0] == c {
        0
    } else {
        1 + first_index(hand.drop_first(), c)
    }
}

/// `hand` with the first occurrence of `c` removed.
pub open spec fn remove_first(hand: Seq<Card>, c: Card) -> Seq<Card>
    recommends
        hand.contains(c),
{
    hand.remove(first_index(hand, c))
}

pub proof fn lemma_first_index(hand: Seq<Card>, c: Card)
    requires
        hand.contains(c),
    ensures
        0 <= first_index(hand, c) < hand.len(),
        hand[first_index(hand, c)] == c,
        forall|j: int| 0 <= j < first_index(hand, c) ==> hand[j] != c,
    decreases hand.len(),
{
    if hand.len() > 0 && hand[0] != c {
        assert(hand.drop_first().contains(c)) by {
            let k = choose|k: int| 0 <= k < hand.len() && hand[k] == c;
            assert(hand.drop_first()[k - 1] == c);
        }
        lemma_first_index(hand.drop_first(), c);
        assert forall|j: int| 0 <= j < first_index(hand, c) implies hand[j] != c by {
            if j > 0 {
                assert(hand.drop_first()[j - 1] == hand[j]);
            }
        }
    }
}

/// `want`, capped at what is available.
pub open spec fn capped(want: int, avail: int) -> int {
    if want <= avail {
        want
    } else {
        avail
    }
}

/// The cards that drawing `k` cards takes off the pile, in draw order: the
/// old top first.
pub open spec fn drawn_cards(deck: Seq<Card>, k: int) -> Seq<Card>
    recommends
        0 <= k <= deck.len(),
{
    deck.subrange(deck.len() - k, deck.len() as int).reverse()
}

/// The mathematical model of a game state: plain sequences and integers.
#[verifier::ext_equal]
pub struct GameView {
    pub deck: Seq<Card>,
    pub discard: Seq<Card>,
    pub hands: Seq<Seq<Card>>,
    pub current: int,
    pub direction: Direction,
    pub pending: int,
}

/// The sum of the hand sizes.
pub open spec fn hands_len_sum(hands: Seq<Seq<Card>>) -> int
    decreases hands.len(),
{
    if hands.len() == 0 {
        0
    } else {
        hands[0].len() + hands_len_sum(hands.drop_first())
    }
}

impl GameView {
    /// Well-formedness: at least one player, the cursor in range, and the
    /// pending penalty within its counter's range.
    pub open spec fn wf(self) -> bool {
        &&& 1 <= self.hands.len()
        &&& 0 <= self.current < self.hands.len()
        &&& 0 <= self.pending <= 255
    }

    /// Every card in existence: the count over the draw pile, the discard
    /// pile and all hands.
    pub open spec fn total(self) -> int {
        self.deck.len() + self.discard.len() + hands_len_sum(self.hands)
    }

    /// The state after the current player plays `c`: the card moves from the
    /// hand to the top of the discard pile, and the card's effect is applied
    /// — Skip advances the cursor one extra step, Reverse flips the
    /// direction, DrawTwo and DrawFour raise the pending penalty.
    pub open spec fn apply_play(self, c: Card) -> GameView
        recommends
            self.wf(),
            self.hands[self.current].contains(c),
    {
        let v1 = GameView {
            discard: self.discard.push(c),
            hands: self.hands.update(self.current, remove_first(self.hands[self.current], c)),
            ..self
        };
        match c {
            Card::Skip { .. } => GameView {
                current: next_index(v1.current, v1.direction, v1.hands.len() as int),
                ..v1
            },
            Card::Reverse { .. } => GameView { direction: flip(v1.direction), ..v1 },
            Card::DrawTwo { .. } => GameView { pending: v1.pending + 2, ..v1 },
            Card::DrawFour => GameView { pending: v1.pending + 4, ..v1 },
            _ => v1,
        }
    }

    /// How many cards a declining player draws: one ordinary card when no
    /// penalty is pending, else the whole penalty — capped by the pile.
    pub open spec fn drew_count(self) -> int {
        capped(if self.pending == 0 { 1 } else { self.pending }, self.deck.len() as int)
    }

    /// The state after the current player declines to play: the drawn cards
    /// move from the pile to the hand and the penalty is discharged.
    pub open spec fn apply_drew(self) -> GameView
        recommends
            self.wf(),
    {
        let k = self.drew_count();
        GameView {
            deck: self.deck.take(self.deck.len() - k),
            hands: self.hands.update(
                self.current,
                self.hands[self.current] + drawn_cards(self.deck, k),
            ),
            pending: 0,
            ..self
        }
    }
}

/// Updating one hand changes the sum of hand sizes by that hand's difference.
pub proof fn lemma_hands_len_sum_update(hands: Seq<Seq<Card>>, i: int, h: Seq<Card>)
    requires
        0 <= i < hands.len(),
    ensures
        hands_len_sum(hands.update(i, h)) == hands_len_sum(hands) - hands[i].len() + h.len(),
    decreases hands.len(),
{
    if i == 0 {
        assert(hands.update(0, h).drop_first() =~= hands.drop_first());
    } else {
        assert(hands.update(i, h).drop_first() =~= hands.drop_first().update(i - 1, h));
        lemma_hands_len_sum_update(hands.drop_first(), i - 1, h);
    }
}

/// What the engine hands a player for a decision: the pending penalty and the
/// filtered playable hand.  The player cannot select a card the engine did
/// not offer here.
pub struct Turn {
    pub to_draw: u8,
    pub hand: Vec<Card>,
}

/// A player's decision for one turn: play one of the offered cards, or
/// decline and draw.
pub enum TurnResult {
    Played(Card),
    Drew,
}

/// How a turn begins: either the player could not counter a pending penalty
/// and the forced draw was already applied (the drawn cards are reported), or
/// the engine awaits the player's decision.
pub enum TurnPhase {
    ForcedDraw { cards: Vec<Card> },
    Decision(Turn),
}

/// What resolving a decision did: which player's turn was consumed by a Skip,
/// which cards a declining player drew, and the winner once the acting
/// player's hand is empty.
pub struct TurnOutcome {
    pub skipped: Option<usize>,
    pub drawn: Vec<Card>,
    pub winner: Option<usize>,
}

/// A fatal configuration failure during setup: the pile cannot supply seven
/// cards per player, or no playable opener could be seeded.
#[derive(Clone, Copy, PartialEq, Eq, Structural, Debug)]
pub enum SetupError {
    NotEnoughCards,
    NoOpener,
}

/// A card that only carries an effect and may not open the discard pile.
pub open spec fn is_wild_like(c: Card) -> bool {
    c is Wild || c is DrawFour
}

/// The degenerate-recycle path: neither the draw pile nor the discard pile
/// can cover the pending penalty, so a supplementary deck must be
/// synthesized.
pub open spec fn degenerate_recycle(pre: GameView) -> bool {
    pre.deck.len() < pre.pending && pre.discard.len() < pre.pending
}

/// The multiset of the draw pile after the Recycler ran on `pre`.
pub open spec fn recycled_deck_multiset(pre: GameView) -> Multiset<Card> {
    if pre.deck.len() >= pre.pending {
        pre.deck.to_multiset()
    } else if pre.discard.len() >= pre.pending {
        pre.deck.to_multiset().add(pre.discard.to_multiset())
    } else {
        pre.deck.to_multiset().add(standard_deck().to_multiset())
    }
}

/// The size of the draw pile after the Recycler ran on `pre`.
pub open spec fn recycled_deck_len(pre: GameView) -> int {
    if pre.deck.len() >= pre.pending {
        pre.deck.len() as int
    } else if pre.discard.len() >= pre.pending {
        pre.deck.len() + pre.discard.len() as int
    } else {
        pre.deck.len() + 108 as int
    }
}

/// The discard pile after the Recycler ran on `pre`: untouched when the draw
/// pile already sufficed, drained otherwise.
pub open spec fn recycled_discard(pre: GameView) -> Seq<Card> {
    if pre.deck.len() >= pre.pending {
        pre.discard
    } else {
        Seq::empty()
    }
}

/// The full contract of `begin_turn`, relating the state before (`pre`) and
/// after (`post`) and the returned phase `r`.
pub open spec fn begin_turn_post(pre: GameView, post: GameView, r: TurnPhase) -> bool {
    let n = pre.hands.len() as int;
    let top = pre.discard.last();
    let mover = next_index(pre.current, pre.direction, n);
    let hand = pre.hands[mover];
    &&& post.current == mover
    &&& post.direction == pre.direction
    &&& post.hands.len() == n
    &&& post.discard == recycled_discard(pre)
    &&& (forall|j: int| 0 <= j < n && j != mover ==> post.hands[j] == pre.hands[j])
    &&& if must_force_draw(hand, top, pre.pending) {
        match r {
            TurnPhase::ForcedDraw { cards } => {
                &&& cards@.len() == capped(pre.pending, recycled_deck_len(pre))
                &&& post.hands[mover] == hand + cards@
                &&& post.deck.to_multiset().add(cards@.to_multiset()) == recycled_deck_multiset(
                    pre,
                )
                &&& post.deck.len() == recycled_deck_len(pre) - cards@.len()
                &&& post.pending == 0
            },
            _ => false,
        }
    } else {
        match r {
            TurnPhase::Decision(turn) => {
                &&& turn.to_draw as int == pre.pending
                &&& turn.hand@ == playable_cards(hand, top, pre.pending)
                &&& post.hands[mover] == hand
                &&& post.deck.to_multiset() == recycled_deck_multiset(pre)
                &&& post.deck.len() == recycled_deck_len(pre)
                &&& post.pending == pre.pending
            },
            _ => false,
        }
    }
}

/// Conservation: playing a card only moves it from the acting hand to the
/// discard pile, so the count over the draw pile, the discard pile and all
/// hands is unchanged.
pub proof fn lemma_play_conserves_cards(v: GameView, c: Card)
    requires
        v.wf(),
        v.hands[v.current].contains(c),
    ensures
        v.apply_play(c).total() == v.total(),
{
    lemma_first_index(v.hands[v.current], c);
    lemma_hands_len_sum_update(v.hands, v.current, remove_first(v.hands[v.current], c));
}

/// Conservation: a declined turn only moves the drawn cards from the draw
/// pile to the acting hand, so the count over the draw pile, the discard
/// pile and all hands is unchanged.
pub proof fn lemma_drew_conserves_cards(v: GameView)
    requires
        v.wf(),
    ensures
        v.apply_drew().total() == v.total(),
{
    lemma_hands_len_sum_update(
        v.hands,
        v.current,
        v.hands[v.current] + drawn_cards(v.deck, v.drew_count()),
    );
}

/// Legality: every card of the filtered hand satisfies the stacking rule
/// where it applies — only a card equal to the top card — and the general
/// compatibility rule otherwise, and comes from the hand itself.
pub proof fn lemma_playable_legality(hand: Seq<Card>, top: Card, pending: int, i: int)
    requires
        0 <= i < playable_cards(hand, top, pending).len(),
    ensures
        playable_ok(playable_cards(hand, top, pending)[i], top, pending),
        pending > 0 && is_stack_card(top) ==> playable_cards(hand, top, pending)[i] == top,
        hand.contains(playable_cards(hand, top, pending)[i]),
{
    let pred = |c: Card| playable_ok(c, top, pending);
    hand.lemma_filter_pred(pred, i);
    assert(hand.filter(pred).contains(hand.filter(pred)[i]));
    hand.lemma_filter_contains_rev(pred, hand.filter(pred)[i]);
}

/// Direction idempotence: a second Reverse effect restores the direction
/// that held before the first one, and with it the next-player computation.
pub proof fn lemma_direction_idempotence(v1: GameView, c1: Card, v2: GameView, c2: Card)
    requires
        v1.wf(),
        v2.wf(),
        c1 is Reverse,
        c2 is Reverse,
        v1.hands[v1.current].contains(c1),
        v2.hands[v2.current].contains(c2),
        v2.direction == v1.apply_play(c1).direction,
    ensures
        v2.apply_play(c2).direction == v1.direction,
        forall|cur: int, n: int|
            next_index(cur, v2.apply_play(c2).direction, n) == #[trigger] next_index(
                cur,
                v1.direction,
                n,
            ),
{
}

/// Skip propagation: relative to the state `v0` that a turn began from,
/// playing Skip leaves the cursor two rotation steps onward in the active
/// direction — one normal advance to the acting player `v1.current`, one
/// skip advance — and the intermediate (skipped) player's hand is untouched.
pub proof fn lemma_skip_propagation(v0: GameView, v1: GameView, c: Card)
    requires
        v0.wf(),
        v1.wf(),
        c is Skip,
        v1.hands == v0.hands,
        v1.direction == v0.direction,
        v1.current == next_index(v0.current, v0.direction, v0.hands.len() as int),
        v1.hands[v1.current].contains(c),
    ensures
        v1.apply_play(c).current == next_index(
            next_index(v0.current, v0.direction, v0.hands.len() as int),
            v0.direction,
            v0.hands.len() as int,
        ),
        v1.apply_play(c).current != v1.current ==> v1.apply_play(c).hands[v1.apply_play(c).current]
            == v0.hands[v1.apply_play(c).current],
{
}

/// Stacking accumulation: playing DrawTwo raises the pending penalty from 0
/// to 2, and a second DrawTwo played while that penalty is still unresolved
/// raises it to 4, before any draw is discharged.
pub proof fn lemma_stacking_accumulation(v0: GameView, c1: Card, v1: GameView, c2: Card)
    requires
        v0.wf(),
        v1.wf(),
        c1 is DrawTwo,
        c2 is DrawTwo,
        v0.pending == 0,
        v0.hands[v0.current].contains(c1),
        v1.hands[v1.current].contains(c2),
        v1.pending == v0.apply_play(c1).pending,
    ensures
        v0.apply_play(c1).pending == 2,
        v1.apply_play(c2).pending == 4,
{
}

/// The authoritative game state: the draw pile, the discard pile (its last
/// element is the top card), one hand per player, the current-player cursor,
/// the rotation direction, and the pending-draw counter.
pub struct GameState {
    pub deck: Deck,
    pub discard: Vec<Card>,
    pub hands: Vec<Vec<Card>>,
    pub current_player: usize,
    pub direction: Direction,
    pub to_draw: u8,
}

impl View for GameState {
    type V = GameView;

    open spec fn view(&self) -> GameView {
        GameView {
            deck: self.deck@,
            discard: self.discard@,
            hands: self.hands@.map_values(|h: Vec<Card>| h@),
            current: self.current_player as int,
            direction: self.direction,
            pending: self.to_draw as int,
        }
    }
}

impl GameState {
    /// The index of the player one rotation step after the cursor.
    pub fn next_player(&self) -> (r: usize)
        requires
            self@.wf(),
        ensures
            r == next_index(self@.current, self@.direction, self@.hands.len() as int),
            r < self@.hands.len(),
    {
        let n = self.hands.len();
        proof {
            assert(self@.hands.len() == self.hands@.len());
        }
        match self.direction {
            Direction::Clockwise => (self.current_player + 1) % n,
            Direction::CounterClockwise => {
                if self.current_player == 0 {
                    n - 1
                } else {
                    self.current_player - 1
                }
            },
        }
    }

    /// The legal subset of `hand` against the top card `card` with `to_draw`
    /// cards of penalty outstanding, in hand order.
    pub fn get_playable_hand(hand: &Vec<Card>, card: &Card, to_draw: u8) -> (r: Vec<Card>)
        ensures
            r@ == playable_cards(hand@, *card, to_draw as int),
            forall|i: int|
                0 <= i < r@.len() ==> playable_ok(r@[i], *card, to_draw as int) && hand@.contains(
                    r@[i],
                ),
    {
        let stacking = to_draw > 0 && matches!(card, Card::DrawTwo { .. } | Card::DrawFour);
        let mut r: Vec<Card> = Vec::new();
        let mut i: usize = 0;
        proof {
            assert(hand@.take(0).filter(|c: Card| playable_ok(c, *card, to_draw as int))
                =~= Seq::<Card>::empty()) by {
                reveal(Seq::filter);
            }
        }
        while i < hand.len()
            invariant
                i <= hand@.len(),
                stacking == (to_draw > 0 && is_stack_card(*card)),
                r@ == playable_cards(hand@.take(i as int), *card, to_draw as int),
                forall|j: int|
                    0 <= j < r@.len() ==> playable_ok(r@[j], *card, to_draw as int)
                        && hand@.contains(r@[j]),
            decreases hand@.len() - i,
        {
            let c = hand[i];
            let keep = if stacking {
                c == *card
            } else {
                c.can_play_on(card)
            };
            if keep {
                r.push(c);
            }
            proof {
                reveal(Seq::filter);
                let pred = |cc: Card| playable_ok(cc, *card, to_draw as int);
                let pre = hand@.take(i as int);
                let post = hand@.take(i + 1);
                assert(post.drop_last() =~= pre);
                assert(post.last() == hand@[i as int]);
                assert(keep == pred(c));
            }
            i = i + 1;
        }
        proof {
            assert(hand@.take(hand@.len() as int) =~= hand@);
        }
        r
    }

    /// A game for `num_players` players: a freshly generated (unshuffled)
    /// deck, an empty discard pile, empty hands, the cursor at player 0,
    /// clockwise rotation and no pending penalty.
    pub fn new(num_players: usize) -> (g: GameState)
        requires
            1 <= num_players,
        ensures
            g@.wf(),
            g@.deck == standard_deck(),
            g@.discard.len() == 0,
            g@.hands.len() == num_players,
            forall|i: int| 0 <= i < num_players ==> g@.hands[i].len() == 0,
            g@.current == 0,
            g@.direction == Direction::Clockwise,
            g@.pending == 0,
    {
        let mut hands: Vec<Vec<Card>> = Vec::new();
        let mut i: usize = 0;
        while i < num_players
            invariant
                i <= num_players,
                hands@.len() == i,
                forall|j: int| 0 <= j < i ==> hands@[j]@.len() == 0,
            decreases num_players - i,
        {
            hands.push(Vec::new());
            i = i + 1;
        }
        let g = GameState {
            deck: Deck::generate(),
            discard: Vec::new(),
            hands,
            current_player: 0,
            direction: Direction::Clockwise,
            to_draw: 0,
        };
        proof {
            assert(forall|j: int|
                0 <= j < num_players ==> g@.hands[j] == g.hands@.map_values(|h: Vec<Card>| h@)[j]);
        }
        g
    }

    /// The Deck Recycler: guarantee, where the sources suffice, that the draw
    /// pile holds at least `to_draw` cards.  If the pile already suffices,
    /// nothing changes.  Otherwise, if the discard pile suffices, its whole
    /// contents (top included) move into the pile, which is then shuffled.
    /// Otherwise — the degenerate case — the discard pile's contents are
    /// dropped and a brand-new standard deck is appended to the pile instead,
    /// which deliberately breaks strict conservation as a recovery path.
    pub fn ensure_drawable_deck(deck: &mut Deck, discard: &mut Vec<Card>, to_draw: u8, seed: u64)
        ensures
            old(deck)@.len() >= to_draw ==> final(deck)@ == old(deck)@ && final(discard)@ == old(
                discard,
            )@,
            old(deck)@.len() < to_draw && old(discard)@.len() >= to_draw ==> {
                &&& final(discard)@.len() == 0
                &&& final(deck)@.to_multiset() == old(deck)@.to_multiset().add(
                    old(discard)@.to_multiset(),
                )
                &&& final(deck)@.len() == old(deck)@.len() + old(discard)@.len()
            },
            old(deck)@.len() < to_draw && old(discard)@.len() < to_draw ==> {
                &&& final(discard)@.len() == 0
                &&& final(deck)@.to_multiset() == old(deck)@.to_multiset().add(
                    standard_deck().to_multiset(),
                )
                &&& final(deck)@.len() == old(deck)@.len() + 108
            },
    {
        if deck.cards.len() >= to_draw as usize {
            return;
        }
        if discard.len() >= to_draw as usize {
            let ghost d0 = deck@;
            let ghost p0 = discard@;
            deck.cards.append(discard);
            proof {
                vstd::seq_lib::lemma_multiset_commutative(d0, p0);
            }
            deck.shuffle(seed);
        } else {
            let ghost d0 = deck@;
            discard.clear();
            let fresh = Deck::generate();
            let mut fresh_cards = fresh.cards;
            deck.cards.append(&mut fresh_cards);
            proof {
                vstd::seq_lib::lemma_multiset_commutative(d0, standard_deck());
                lemma_standard_deck_len();
            }
            deck.shuffle(seed);
        }
    }

    /// Append copies of `cards` to hand `i`, leaving the other hands alone.
    fn hand_extend(hands: &mut Vec<Vec<Card>>, i: usize, cards: &Vec<Card>)
        requires
            i < old(hands)@.len(),
        ensures
            final(hands)@.len() == old(hands)@.len(),
            forall|j: int|
                0 <= j < old(hands)@.len() && j != i ==> final(hands)@[j] == old(hands)@[j],
            final(hands)@[i as int]@ == old(hands)@[i as int]@ + cards@,
    {
        let mut h = hands.remove(i);
        let mut j: usize = 0;
        while j < cards.len()
            invariant
                j <= cards@.len(),
                h@ == old(hands)@[i as int]@ + cards@.take(j as int),
            decreases cards@.len() - j,
        {
            h.push(cards[j]);
            proof {
                assert(h@ =~= old(hands)@[i as int]@ + cards@.take(j + 1));
            }
            j = j + 1;
        }
        proof {
            assert(cards@.take(cards@.len() as int) =~= cards@);
        }
        hands.insert(i, h);
        proof {
            assert(hands@ =~= old(hands)@.update(i as int, h));
        }
    }

    /// Remove the first occurrence of `card` from hand `i`, leaving the other
    /// hands alone.
    fn hand_remove_card(hands: &mut Vec<Vec<Card>>, i: usize, card: &Card)
        requires
            i < old(hands)@.len(),
            old(hands)@[i as int]@.contains(*card),
        ensures
            final(hands)@.len() == old(hands)@.len(),
            forall|j: int|
                0 <= j < old(hands)@.len() && j != i ==> final(hands)@[j] == old(hands)@[j],
            final(hands)@[i as int]@ == remove_first(old(hands)@[i as int]@, *card),
    {
        let mut h = hands.remove(i);
        let ghost fi = first_index(h@, *card);
        proof {
            lemma_first_index(h@, *card);
        }
        let mut j: usize = 0;
        while j < h.len() && !(h[j] == *card)
            invariant
                0 <= j <= fi < h@.len(),
                fi == first_index(h@, *card),
                h@[fi] == *card,
                forall|k: int| 0 <= k < fi ==> h@[k] != *card,
            decreases fi - j,
        {
            j = j + 1;
        }
        proof {
            assert(j == fi);
        }
        h.remove(j);
        hands.insert(i, h);
        proof {
            assert(hands@ =~= old(hands)@.update(i as int, h));
        }
    }

    /// Set up a fresh game: shuffle the deck, deal seven cards to every
    /// player in roster order, then seed the discard pile by drawing until a
    /// card that is not Wild or DrawFour appears, reinserting any wild draw
    /// at a seed-derived position.  Fails with `NotEnoughCards` — leaving the
    /// state untouched — exactly when the pile cannot supply seven cards per
    /// player, and with `NoOpener` when the bounded seeding loop finds no
    /// opener; with at least one non-wild card beyond the dealt ones, success
    /// is guaranteed.
    pub fn setup(&mut self, seed: u64) -> (r: Result<(), SetupError>)
        requires
            old(self)@.wf(),
            old(self)@.discard.len() == 0,
            forall|i: int| 0 <= i < old(self)@.hands.len() ==> old(self)@.hands[i].len() == 0,
        ensures
            final(self)@.wf(),
            final(self)@.hands.len() == old(self)@.hands.len(),
            final(self)@.current == old(self)@.current,
            final(self)@.direction == old(self)@.direction,
            final(self)@.pending == old(self)@.pending,
            (r == Err::<(), SetupError>(SetupError::NotEnoughCards)) <==> old(self)@.deck.len() < 7
                * old(self)@.hands.len(),
            r == Err::<(), SetupError>(SetupError::NotEnoughCards) ==> final(self)@ == old(self)@,
            r != Err::<(), SetupError>(SetupError::NotEnoughCards) ==> (forall|i: int|
                0 <= i < final(self)@.hands.len() ==> final(self)@.hands[i].len() == 7)
                && final(self)@.total() == old(self)@.total(),
            r is Ok ==> final(self)@.discard.len() == 1 && !is_wild_like(
                final(self)@.discard.last(),
            ),
            r == Err::<(), SetupError>(SetupError::NoOpener) ==> final(self)@.discard.len() == 0,
            old(self)@.deck.len() >= 7 * old(self)@.hands.len() + 1 && (forall|q: int|
                0 <= q < old(self)@.deck.len() ==> !is_wild_like(old(self)@.deck[q])) ==> r is Ok,
    {
        let ghost pre = self@;
        let n = self.hands.len();
        proof {
            assert(pre.hands.len() == self.hands@.len());
        }
        if self.deck.size() / 7 < n {
            proof {
                assert(pre.deck.len() < 7 * n) by (nonlinear_arith)
                    requires
                        pre.deck.len() / 7 < n,
                        pre.deck.len() >= 0,
                        n >= 1,
                ;
            }
            return Err(SetupError::NotEnoughCards);
        }
        proof {
            assert(pre.deck.len() >= 7 * n) by (nonlinear_arith)
                requires
                    pre.deck.len() / 7 >= n,
                    pre.deck.len() >= 0,
                    n >= 1,
            ;
        }
        self.deck.shuffle(seed);
        let ghost shuffled = self.deck@;
        proof {
            broadcast use vstd::seq_lib::group_to_multiset_ensures;

        }
        let mut i: usize = 0;
        while i < n
            invariant
                i <= n,
                n == pre.hands.len(),
                pre.wf(),
                pre.discard.len() == 0,
                forall|j: int| 0 <= j < n ==> pre.hands[j].len() == 0,
                self@.hands.len() == n,
                shuffled.len() == pre.deck.len(),
                shuffled.to_multiset() == pre.deck.to_multiset(),
                pre.deck.len() >= 7 * n,
                self.deck@ == shuffled.take(shuffled.len() - 7 * i),
                forall|j: int| 0 <= j < i ==> self@.hands[j].len() == 7,
                forall|j: int| i <= j < n ==> self@.hands[j] == pre.hands[j],
                self.discard@ == pre.discard,
                self.current_player == old(self).current_player,
                self.direction == old(self).direction,
                self.to_draw == old(self).to_draw,
                self@.total() == pre.total(),
            decreases n - i,
        {
            let ghost hands_before = self@.hands;
            proof {
                assert(7 * (i + 1) <= 7 * n) by (nonlinear_arith)
                    requires
                        i + 1 <= n,
                ;
                assert(self.deck@.len() >= 7);
            }
            let cards = self.deck.draw_multiple(7);
            proof {
                assert(cards@.len() == 7);
                assert(hands_before[i as int] == pre.hands[i as int]);
                assert(pre.hands[i as int].len() == 0);
            }
            Self::hand_extend(&mut self.hands, i, &cards);
            proof {
                assert(self.deck@ =~= shuffled.take(shuffled.len() - 7 * (i + 1)));
                assert(self@.hands =~= hands_before.update(
                    i as int,
                    hands_before[i as int] + cards@,
                ));
                lemma_hands_len_sum_update(
                    hands_before,
                    i as int,
                    hands_before[i as int] + cards@,
                );
            }
            i = i + 1;
        }
        let ghost dealt = self.deck@;
        let ghost hands_dealt = self@.hands;
        proof {
            broadcast use vstd::seq_lib::group_to_multiset_ensures;

        }
        let mut attempts: usize = self.deck.size();
        let mut rng: u64 = seed;
        while attempts > 0
            invariant
                pre == old(self)@,
                n == pre.hands.len(),
                pre.wf(),
                pre.deck.len() >= 7 * n,
                dealt.len() <= usize::MAX,
                self@.hands == hands_dealt,
                self@.hands.len() == n,
                forall|j: int| 0 <= j < n ==> self@.hands[j].len() == 7,
                self.discard@ == pre.discard,
                pre.discard.len() == 0,
                self.current_player == old(self).current_player,
                self.direction == old(self).direction,
                self.to_draw == old(self).to_draw,
                self.deck@.len() == dealt.len(),
                self.deck@.to_multiset() == dealt.to_multiset(),
                dealt == shuffled.take(shuffled.len() - 7 * n),
                shuffled.to_multiset() == pre.deck.to_multiset(),
                shuffled.len() == pre.deck.len(),
                self@.total() == pre.total(),
                (forall|q: int| 0 <= q < pre.deck.len() ==> !is_wild_like(pre.deck[q]))
                    ==> self.deck@ == dealt && attempts == dealt.len(),
            decreases attempts,
        {
            let ghost deck_head = self.deck@;
            match self.deck.draw() {
                None => {
                    proof {
                        if forall|q: int|
                            0 <= q < pre.deck.len() ==> !is_wild_like(#[trigger] pre.deck[q]) {
                            assert(deck_head.len() == dealt.len());
                        }
                    }
                    return Err(SetupError::NoOpener);
                },
                Some(c) => {
                    if matches!(c, Card::Wild | Card::DrawFour) {
                        proof {
                            broadcast use vstd::seq_lib::group_to_multiset_ensures;

                            assert(self.deck@ =~= deck_head.remove(deck_head.len() - 1));
                            if forall|q: int|
                                0 <= q < pre.deck.len() ==> !is_wild_like(#[trigger] pre.deck[q]) {
                                assert(deck_head == dealt);
                                assert(dealt.contains(c)) by {
                                    assert(dealt[dealt.len() - 1] == c);
                                }
                                assert(shuffled.contains(c)) by {
                                    let w = choose|w: int|
                                        0 <= w < dealt.len() && dealt[w] == c;
                                    assert(dealt.len() <= shuffled.len());
                                    assert(dealt[w] == shuffled[w]);
                                }
                                assert(pre.deck.contains(c)) by {
                                    assert(shuffled.to_multiset().contains(c));
                                    assert(pre.deck.to_multiset().contains(c));
                                }
                                assert(false);
                            }
                        }
                        self.deck.reinsert_random(c, rng);
                        rng = next_rand(rng);
                        attempts = attempts - 1;
                        proof {
                            broadcast use vstd::seq_lib::group_to_multiset_ensures;

                            assert(self.deck@.to_multiset() =~= dealt.to_multiset());
                        }
                    } else {
                        self.discard.push(c);
                        proof {
                            assert(self.deck@ =~= deck_head.remove(deck_head.len() - 1));
                        }
                        return Ok(());
                    }
                },
            }
        }
        proof {
            if pre.deck.len() >= 7 * n + 1 && (forall|q: int|
                0 <= q < pre.deck.len() ==> !is_wild_like(#[trigger] pre.deck[q])) {
                assert(dealt.len() >= 1);
                assert(false);
            }
        }
        Err(SetupError::NoOpener)
    }

    /// Run the start of a turn: recycle the draw pile for the pending
    /// penalty, advance the cursor one rotation step, and compute the legal
    /// subset of the new current player's hand against the top card.  If a
    /// penalty is pending and the player holds no matching stack card, the
    /// forced draw is applied at once — the penalty is drawn into the hand
    /// and reset — and no decision is offered; otherwise the filtered hand is
    /// returned for the player's decision.
    pub fn begin_turn(&mut self, seed: u64) -> (r: TurnPhase)
        requires
            old(self)@.wf(),
            old(self)@.discard.len() >= 1,
        ensures
            final(self)@.wf(),
            begin_turn_post(old(self)@, final(self)@, r),
            !degenerate_recycle(old(self)@) ==> final(self)@.total() == old(self)@.total(),
            degenerate_recycle(old(self)@) ==> final(self)@.total() == old(self)@.total() - old(
                self,
            )@.discard.len() + 108,
    {
        let ghost pre = self@;
        let top: Card = self.discard[self.discard.len() - 1];
        proof {
            assert(top == pre.discard.last());
        }
        Self::ensure_drawable_deck(&mut self.deck, &mut self.discard, self.to_draw, seed);
        proof {
            if pre.deck.len() < pre.pending {
                assert(self.discard@ =~= Seq::<Card>::empty());
            }
        }
        let mover = self.next_player();
        self.current_player = mover;
        proof {
            assert(self@.hands =~= pre.hands);
            assert(self@.hands[mover as int] == self.hands@[mover as int]@);
        }
        let playable = Self::get_playable_hand(&self.hands[mover], &top, self.to_draw);
        if self.to_draw > 0 && !Self::contains_special_card(&playable, &top) {
            let want = self.to_draw as usize;
            let ghost deck_mid = self.deck@;
            let cards = self.deck.draw_multiple(want);
            Self::hand_extend(&mut self.hands, mover, &cards);
            self.to_draw = 0;
            proof {
                broadcast use vstd::seq_lib::group_to_multiset_ensures;

                assert(must_force_draw(pre.hands[mover as int], top, pre.pending));
                assert(deck_mid.take(deck_mid.len() - cards@.len()) + deck_mid.subrange(
                    deck_mid.len() - cards@.len(),
                    deck_mid.len() as int,
                ) =~= deck_mid);
                vstd::seq_lib::lemma_multiset_commutative(
                    deck_mid.take(deck_mid.len() - cards@.len()),
                    deck_mid.subrange(deck_mid.len() - cards@.len(), deck_mid.len() as int),
                );
                assert(cards@.to_multiset() =~= deck_mid.subrange(
                    deck_mid.len() - cards@.len(),
                    deck_mid.len() as int,
                ).to_multiset()) by {
                    let tail = deck_mid.subrange(
                        deck_mid.len() - cards@.len(),
                        deck_mid.len() as int,
                    );
                    assert(cards@ =~= tail.reverse());
                    tail.lemma_reverse_to_multiset();
                }
                assert(self@.hands =~= pre.hands.update(mover as int, pre.hands[mover as int]
                    + cards@));
                lemma_hands_len_sum_update(
                    pre.hands,
                    mover as int,
                    pre.hands[mover as int] + cards@,
                );
            }
            TurnPhase::ForcedDraw { cards }
        } else {
            proof {
                assert(!must_force_draw(pre.hands[mover as int], top, pre.pending));
                assert(self@.hands =~= pre.hands);
            }
            TurnPhase::Decision(Turn { to_draw: self.to_draw, hand: playable })
        }
    }

    /// Resolve the current player's decision.  A played card — which the
    /// caller must have taken from the offered filtered hand — moves from the
    /// hand to the top of the discard pile and its effect is applied exactly
    /// as `GameView::apply_play` says; a declined turn draws exactly as
    /// `GameView::apply_drew` says.  The acting player wins when their hand
    /// is empty afterwards; the caller must then stop driving the engine.
    pub fn resolve_turn(&mut self, decision: TurnResult) -> (out: TurnOutcome)
        requires
            old(self)@.wf(),
            decision matches TurnResult::Played(c) ==> old(self)@.hands[old(
                self,
            )@.current].contains(c) && (c is DrawTwo ==> old(self)@.pending + 2 <= 255) && (
            c is DrawFour ==> old(self)@.pending + 4 <= 255),
        ensures
            final(self)@.wf(),
            final(self)@.hands.len() == old(self)@.hands.len(),
            decision matches TurnResult::Played(c) ==> final(self)@ == old(self)@.apply_play(c)
                && out.drawn@.len() == 0 && out.skipped == (if c is Skip {
                Some(old(self)@.apply_play(c).current as usize)
            } else {
                None::<usize>
            }),
            decision matches TurnResult::Drew ==> final(self)@ == old(self)@.apply_drew()
                && out.drawn@ == drawn_cards(old(self)@.deck, old(self)@.drew_count())
                && out.skipped is None,
            out.winner == (if final(self)@.hands[old(self)@.current].len() == 0 {
                Some(old(self)@.current as usize)
            } else {
                None::<usize>
            }),
            final(self)@.total() == old(self)@.total(),
    {
        let ghost pre = self@;
        let me = self.current_player;
        let out: TurnOutcome;
        match decision {
            TurnResult::Played(card) => {
                proof {
                    assert(self.hands@[me as int]@ == pre.hands[me as int]);
                }
                Self::hand_remove_card(&mut self.hands, me, &card);
                self.discard.push(card);
                let mut skipped: Option<usize> = None;
                match card {
                    Card::Skip { .. } => {
                        let nxt = self.next_player();
                        self.current_player = nxt;
                        skipped = Some(nxt);
                    },
                    Card::Reverse { .. } => {
                        self.direction = match self.direction {
                            Direction::Clockwise => Direction::CounterClockwise,
                            Direction::CounterClockwise => Direction::Clockwise,
                        };
                    },
                    Card::DrawTwo { .. } => {
                        self.to_draw = self.to_draw + 2;
                    },
                    Card::DrawFour => {
                        self.to_draw = self.to_draw + 4;
                    },
                    _ => {},
                }
                proof {
                    assert(self@.hands =~= pre.apply_play(card).hands);
                    assert(self@ =~~= pre.apply_play(card));
                }
                out = TurnOutcome { skipped, drawn: Vec::new(), winner: None };
            },
            TurnResult::Drew => {
                let want: usize = if self.to_draw == 0 {
                    1
                } else {
                    self.to_draw as usize
                };
                let cards = self.deck.draw_multiple(want);
                proof {
                    assert(cards@ =~= drawn_cards(pre.deck, pre.drew_count()));
                }
                Self::hand_extend(&mut self.hands, me, &cards);
                self.to_draw = 0;
                proof {
                    assert(self@.hands =~= pre.apply_drew().hands);
                    assert(self@ =~~= pre.apply_drew());
                }
                out = TurnOutcome { skipped: None, drawn: cards, winner: None };
            },
        }
        proof {
            assert(self@.hands[me as int] == self.hands@[me as int]@);
            match decision {
                TurnResult::Played(c) => lemma_play_conserves_cards(pre, c),
                TurnResult::Drew => lemma_drew_conserves_cards(pre),
            }
        }
        let won = self.hands[me].len() == 0;
        TurnOutcome { winner: if won { Some(me) } else { None }, ..out }
    }

    /// Whether `hand` holds a card equal to `card`.
    pub fn contains_special_card(hand: &Vec<Card>, card: &Card) -> (r: bool)
        ensures
            r == hand@.contains(*card),
    {
        let mut i: usize = 0;
        while i < hand.len()
            invariant
                i <= hand@.len(),
                forall|j: int| 0 <= j < i ==> hand@[j] != *card,
            decreases hand@.len() - i,
        {
            if hand[i] == *card {
                return true;
            }
            i = i + 1;
        }
        false
    }
}

} // verus!
