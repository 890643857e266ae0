//! The card taxonomy, the legal-play comparison, and the draw pile.

use vstd::prelude::*;

verus! {

/// The four card colors.
#[derive(Clone, Copy, PartialEq, Eq, Structural, Debug)]
pub enum Color {
    Red,
    Yellow,
    Green,
    Blue,
}

/// An immutable card value.  `Number` carries a color and a rank; the three
/// colored action cards carry a color; `Wild` and `DrawFour` carry nothing.
/// Equality is structural: by type, color and rank as applicable.
#[derive(Clone, Copy, PartialEq, Eq, Structural, Debug)]
pub enum Card {
    Number { color: Color, rank: u8 },
    Skip { color: Color },
    Reverse { color: Color },
    DrawTwo { color: Color },
    Wild,
    DrawFour,
}

impl Card {
    /// The color a card carries, if any.
    pub open spec fn spec_color(self) -> Option<Color> {
        match self {
            Card::Number { color, .. } => Some(color),
            Card::Skip { color } => Some(color),
            Card::Reverse { color } => Some(color),
            Card::DrawTwo { color } => Some(color),
            Card::Wild => None,
            Card::DrawFour => None,
        }
    }

    /// Same card type, and for numbers also the same rank, colors aside.
    pub open spec fn spec_same_kind(self, other: Card) -> bool {
        match (self, other) {
            (Card::Number { rank: r1, .. }, Card::Number { rank: r2, .. }) => r1 == r2,
            (Card::Skip { .. }, Card::Skip { .. }) => true,
            (Card::Reverse { .. }, Card::Reverse { .. }) => true,
            (Card::DrawTwo { .. }, Card::DrawTwo { .. }) => true,
            (Card::Wild, Card::Wild) => true,
            (Card::DrawFour, Card::DrawFour) => true,
            _ => false,
        }
    }

    /// The general compatibility rule: a card may be laid on `top` when it is
    /// a wild card, when `top` carries no color constraint, when the colors
    /// agree, or when the types agree (for numbers: the ranks agree).
    pub open spec fn spec_can_play_on(self, top: Card) -> bool {
        ||| self is Wild
        ||| self is DrawFour
        ||| top is Wild
        ||| top is DrawFour
        ||| (self.spec_color() is Some && self.spec_color() == top.spec_color())
        ||| self.spec_same_kind(top)
    }

    fn color(&self) -> (c: Option<Color>)
        ensures
            c == self.spec_color(),
    {
        match self {
            Card::Number { color, .. } => Some(*color),
            Card::Skip { color } => Some(*color),
            Card::Reverse { color } => Some(*color),
            Card::DrawTwo { color } => Some(*color),
            Card::Wild => None,
            Card::DrawFour => None,
        }
    }

    fn same_kind(&self, other: &Card) -> (r: bool)
        ensures
            r == self.spec_same_kind(*other),
    {
        match (self, other) {
            (Card::Number { rank: r1, .. }, Card::Number { rank: r2, .. }) => *r1 == *r2,
            (Card::Skip { .. }, Card::Skip { .. }) => true,
            (Card::Reverse { .. }, Card::Reverse { .. }) => true,
            (Card::DrawTwo { .. }, Card::DrawTwo { .. }) => true,
            (Card::Wild, Card::Wild) => true,
            (Card::DrawFour, Card::DrawFour) => true,
            _ => false,
        }
    }

    /// Whether this card may legally be laid on `top` under the general
    /// (non-stacking) rule.
    pub fn can_play_on(&self, top: &Card) -> (r: bool)
        ensures
            r == self.spec_can_play_on(*top),
    {
        if matches!(self, Card::Wild | Card::DrawFour) {
            return true;
        }
        if matches!(top, Card::Wild | Card::DrawFour) {
            return true;
        }
        let same_color = match (self.color(), top.color()) {
            (Some(c1), Some(c2)) => c1 == c2,
            _ => false,
        };
        same_color || self.same_kind(top)
    }
}

/// The 25 cards of one color in the standard deck: one 0, two each of the
/// ranks 1 through 9, and two each of Skip, Reverse and DrawTwo.
pub open spec fn color_section(c: Color) -> Seq<Card> {
    seq![
        Card::Number { color: c, rank: 0 },
        Card::Number { color: c, rank: 1 },
        Card::Number { color: c, rank: 1 },
        Card::Number { color: c, rank: 2 },
        Card::Number { color: c, rank: 2 },
        Card::Number { color: c, rank: 3 },
        Card::Number { color: c, rank: 3 },
        Card::Number { color: c, rank: 4 },
        Card::Number { color: c, rank: 4 },
        Card::Number { color: c, rank: 5 },
        Card::Number { color: c, rank: 5 },
        Card::Number { color: c, rank: 6 },
        Card::Number { color: c, rank: 6 },
        Card::Number { color: c, rank: 7 },
        Card::Number { color: c, rank: 7 },
        Card::Number { color: c, rank: 8 },
        Card::Number { color: c, rank: 8 },
        Card::Number { color: c, rank: 9 },
        Card::Number { color: c, rank: 9 },
        Card::Skip { color: c },
        Card::Skip { color: c },
        Card::Reverse { color: c },
        Card::Reverse { color: c },
        Card::DrawTwo { color: c },
        Card::DrawTwo { color: c },
    ]
}

/// The standard 108-card deck: the four color sections followed by four Wild
/// and four DrawFour cards.
pub open spec fn standard_deck() -> Seq<Card> {
    color_section(Color::Red) + color_section(Color::Yellow) + color_section(Color::Green)
        + color_section(Color::Blue) + seq![
        Card::Wild,
        Card::Wild,
        Card::Wild,
        Card::Wild,
        Card::DrawFour,
        Card::DrawFour,
        Card::DrawFour,
        Card::DrawFour,
    ]
}

pub proof fn lemma_standard_deck_len()
    ensures
        standard_deck().len() == 108,
{
}

/// A deterministic step of the pseudo-random stream that drives shuffling and
/// random reinsertion.  The result is always below `0x8000_0000`, so scaling
/// arithmetic on it cannot overflow.
pub(crate) fn next_rand(s: u64) -> (r: u64)
    ensures
        r < 0x8000_0000,
{
    ((s % 0x7fff_ffff) * 48271 + 1) % 0x7fff_ffff
}

/// The draw pile: an ordered sequence of cards whose last element is the next
/// card to draw.
pub struct Deck {
    pub cards: Vec<Card>,
}

impl View for Deck {
    type V = Seq<Card>;

    open spec fn view(&self) -> Seq<Card> {
        self.cards@
    }
}

/// Push the 25 cards of `color_section(c)` in order.
fn push_color_section(cards: &mut Vec<Card>, c: Color)
    ensures
        final(cards)@ == old(cards)@ + color_section(c),
{
    cards.push(Card::Number { color: c, rank: 0 });
    let mut rank: u8 = 1;
    while rank <= 9
        invariant
            1 <= rank <= 10,
            cards@ == old(cards)@ + color_section(c).take(1 + 2 * (rank - 1)),
        decreases 10 - rank,
    {
        cards.push(Card::Number { color: c, rank });
        cards.push(Card::Number { color: c, rank });
        proof {
            assert(cards@ =~= old(cards)@ + color_section(c).take(1 + 2 * (rank as int)));
        }
        rank = rank + 1;
    }
    cards.push(Card::Skip { color: c });
    cards.push(Card::Skip { color: c });
    cards.push(Card::Reverse { color: c });
    cards.push(Card::Reverse { color: c });
    cards.push(Card::DrawTwo { color: c });
    cards.push(Card::DrawTwo { color: c });
    proof {
        assert(cards@ =~= old(cards)@ + color_section(c));
    }
}

impl Deck {
    /// A freshly generated, unshuffled standard deck.
    pub fn generate() -> (d: Deck)
        ensures
            d@ == standard_deck(),
    {
        let mut cards: Vec<Card> = Vec::new();
        push_color_section(&mut cards, Color::Red);
        push_color_section(&mut cards, Color::Yellow);
        push_color_section(&mut cards, Color::Green);
        push_color_section(&mut cards, Color::Blue);
        cards.push(Card::Wild);
        cards.push(Card::Wild);
        cards.push(Card::Wild);
        cards.push(Card::Wild);
        cards.push(Card::DrawFour);
        cards.push(Card::DrawFour);
        cards.push(Card::DrawFour);
        cards.push(Card::DrawFour);
        proof {
            assert(cards@ =~= standard_deck());
        }
        Deck { cards }
    }

    /// Whether the pile is empty.
    pub fn is_empty(&self) -> (r: bool)
        ensures
            r == (self@.len() == 0),
    {
        self.cards.len() == 0
    }

    /// The number of cards in the pile.
    pub fn size(&self) -> (r: usize)
        ensures
            r == self@.len(),
    {
        self.cards.len()
    }

    /// Draw the top card, if any.
    pub fn draw(&mut self) -> (r: Option<Card>)
        ensures
            old(self)@.len() == 0 ==> r is None && final(self)@ == old(self)@,
            old(self)@.len() > 0 ==> r == Some(old(self)@.last()) && final(self)@ == old(
                self,
            )@.drop_last(),
    {
        self.cards.pop()
    }

    /// Draw up to `n` cards from the top; fewer only when the pile runs out.
    /// The first drawn card is the old top.
    pub fn draw_multiple(&mut self, n: usize) -> (r: Vec<Card>)
        ensures
            r@.len() == (if n <= old(self)@.len() {
                n as int
            } else {
                old(self)@.len() as int
            }),
            final(self)@ == old(self)@.take(old(self)@.len() - r@.len()),
            forall|j: int|
                0 <= j < r@.len() ==> r@[j] == old(self)@[old(self)@.len() - 1 - j],
    {
        let k = if n <= self.cards.len() {
            n
        } else {
            self.cards.len()
        };
        let mut r: Vec<Card> = Vec::new();
        let mut j: usize = 0;
        while j < k
            invariant
                j <= k <= old(self)@.len(),
                r@.len() == j,
                self.cards@ == old(self)@.take(old(self)@.len() - j),
                forall|i: int|
                    0 <= i < j ==> r@[i] == old(self)@[old(self)@.len() - 1 - i],
            decreases k - j,
        {
            let c = self.cards.pop();
            match c {
                Some(card) => {
                    r.push(card);
                },
                None => {
                    proof {
                        assert(false);
                    }
                },
            }
            proof {
                assert(self.cards@ =~= old(self)@.take(old(self)@.len() - (j + 1)));
            }
            j = j + 1;
        }
        r
    }

    /// Append the given cards to the pile.
    pub fn reinsert(&mut self, cards: Vec<Card>)
        ensures
            final(self)@ == old(self)@ + cards@,
    {
        let mut cs = cards;
        self.cards.append(&mut cs);
    }

    /// Insert one card at a seed-derived position.  The pile afterwards holds
    /// exactly the old cards plus the new one.
    pub fn reinsert_random(&mut self, card: Card, seed: u64)
        requires
            old(self)@.len() < usize::MAX,
        ensures
            final(self)@.to_multiset() == old(self)@.to_multiset().insert(card),
            final(self)@.len() == old(self)@.len() + 1,
    {
        let r = next_rand(seed);
        let i = (r as usize) % (self.cards.len() + 1);
        self.cards.insert(i, card);
        proof {
            lemma_insert_to_multiset(old(self)@, i as int, card);
            broadcast use vstd::seq_lib::group_to_multiset_ensures;

        }
    }

    /// Deterministically permute the pile using the given seed.  The cards
    /// are preserved as a multiset.
    pub fn shuffle(&mut self, seed: u64)
        ensures
            final(self)@.to_multiset() == old(self)@.to_multiset(),
            final(self)@.len() == old(self)@.len(),
    {
        let ghost orig = self.cards@;
        let mut rng: u64 = seed;
        let mut out: Vec<Card> = Vec::new();
        proof {
            broadcast use vstd::seq_lib::group_to_multiset_ensures;

            assert(out@.to_multiset().add(self.cards@.to_multiset()) =~= orig.to_multiset());
        }
        while self.cards.len() > 0
            invariant
                out@.to_multiset().add(self.cards@.to_multiset()) == orig.to_multiset(),
                out@.len() + self.cards@.len() == orig.len(),
            decreases self.cards.len(),
        {
            rng = next_rand(rng);
            let i = (rng as usize) % self.cards.len();
            let ghost before_out = out@;
            let ghost before_cards = self.cards@;
            let c = self.cards.remove(i);
            out.push(c);
            proof {
                broadcast use vstd::seq_lib::group_to_multiset_ensures;

                assert(before_cards.to_multiset().contains(c)) by {
                    assert(before_cards.contains(c));
                }
                assert(out@.to_multiset().add(self.cards@.to_multiset()) =~= orig.to_multiset());
            }
        }
        self.cards = out;
        proof {
            broadcast use vstd::seq_lib::group_to_multiset_ensures;

        }
    }
}

/// Inserting a card anywhere in a sequence adds exactly that card to its
/// multiset.
pub proof fn lemma_insert_to_multiset(s: Seq<Card>, i: int, c: Card)
    requires
        0 <= i <= s.len(),
    ensures
        s.insert(i, c).to_multiset() == s.to_multiset().insert(c),
{
    broadcast use vstd::seq_lib::group_to_multiset_ensures;

    let t = s.insert(i, c);
    assert(t.remove(i) =~= s);
    assert(t[i] == c);
    assert(t.contains(c));
    assert(t.remove(i).to_multiset() == t.to_multiset().remove(c));
    assert(t.to_multiset() =~= s.to_multiset().insert(c));
}

} // verus!
