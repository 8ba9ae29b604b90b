//! The persisted layout of cards, objects and players, as words of 64 bits.
//!
//! A card takes three words: duration, the eight deltas as bytes, market id.
//! An object takes three words: the ring as bytes, the attributes as bytes, and a
//! word that packs state, cursor and tick. A player takes four header words, then
//! its objects, resources and cards, each section behind a word that counts it.

use vstd::prelude::*;
use crate::card::BidInfo;
use crate::card::Card;
use crate::card::MarketCard;
use crate::events::Event;
use crate::events::EventQueue;
use crate::events::QueueView;
use crate::world::AutomataPlayer;
use crate::world::PlayerView;
use crate::world::State;
use crate::world::StateView;
use crate::math::byte_at;
use crate::math::from_le_bytes;
use crate::math::join8;
use crate::math::le_bytes;
use crate::math::lemma_word_of_bytes;
use crate::math::word_of;
use crate::object::Object;
use crate::object::ObjectState;
use crate::player::non_negative;
use crate::player::Attributes;
use crate::player::PlayerData;
use crate::player::PlayerDataView;

verus! {

/// Words that a card or an object takes.
pub const RECORD_WORDS: usize = 3;

/// The byte that stores a signed delta.
pub open spec fn unsigned(x: i8) -> u8 {
    if x >= 0 {
        x as u8
    } else {
        (x + 256) as u8
    }
}

/// The signed delta that a byte stores.
pub open spec fn signed(b: u8) -> i8 {
    if b < 128 {
        b as i8
    } else {
        (b - 256) as i8
    }
}

fn to_unsigned(x: i8) -> (b: u8)
    ensures
        b == unsigned(x),
        signed(b) == x,
{
    if x >= 0 {
        x as u8
    } else {
        (x as i16 + 256) as u8
    }
}

fn to_signed(b: u8) -> (x: i8)
    ensures
        x == signed(b),
        unsigned(x) == b,
{
    if b < 128 {
        b as i8
    } else {
        (b as i16 - 256) as i8
    }
}

/// The word that stores the eight deltas of a card.
pub open spec fn deltas_word(a: [i8; 8]) -> u64 {
    join8(
        unsigned(a[0]),
        unsigned(a[1]),
        unsigned(a[2]),
        unsigned(a[3]),
        unsigned(a[4]),
        unsigned(a[5]),
        unsigned(a[6]),
        unsigned(a[7]),
    )
}

/// The eight deltas that a word stores.
pub open spec fn word_deltas(x: u64) -> [i8; 8] {
    [
        signed(byte_at(x, 0)),
        signed(byte_at(x, 1)),
        signed(byte_at(x, 2)),
        signed(byte_at(x, 3)),
        signed(byte_at(x, 4)),
        signed(byte_at(x, 5)),
        signed(byte_at(x, 6)),
        signed(byte_at(x, 7)),
    ]
}

/// The eight bytes that a word stores.
pub open spec fn word_bytes(x: u64) -> [u8; 8] {
    [
        byte_at(x, 0),
        byte_at(x, 1),
        byte_at(x, 2),
        byte_at(x, 3),
        byte_at(x, 4),
        byte_at(x, 5),
        byte_at(x, 6),
        byte_at(x, 7),
    ]
}

/// The three words of a card.
pub open spec fn card_words(c: Card) -> Seq<u64> {
    seq![c.duration, deltas_word(c.attributes), c.marketid]
}

/// The card that three words at `at` store.
pub open spec fn card_at(data: Seq<u64>, at: int) -> Card {
    Card { duration: data[at], attributes: word_deltas(data[at + 1]), marketid: data[at + 2] }
}

/// Storing a card and reading it back gives the card.
pub proof fn lemma_card_round_trip(c: Card, data: Seq<u64>, at: int)
    requires
        0 <= at,
        at + 3 <= data.len(),
        data.subrange(at, at + 3) == card_words(c),
    ensures
        card_at(data, at) == c,
{
    assert(data[at] == data.subrange(at, at + 3)[0]);
    assert(data[at + 1] == data.subrange(at, at + 3)[1]);
    assert(data[at + 2] == data.subrange(at, at + 3)[2]);
    let a = c.attributes;
    lemma_word_of_bytes(
        unsigned(a[0]),
        unsigned(a[1]),
        unsigned(a[2]),
        unsigned(a[3]),
        unsigned(a[4]),
        unsigned(a[5]),
        unsigned(a[6]),
        unsigned(a[7]),
    );
    assert(word_deltas(deltas_word(a)) =~= a);
}

/// The code that stores a state.
pub open spec fn state_code(s: ObjectState) -> u64 {
    match s {
        ObjectState::Running => 0,
        ObjectState::Halted => 1,
        ObjectState::Restarting => 2,
    }
}

/// The state that a code stores; codes without a meaning stand for `Running`.
pub open spec fn code_state(code: u64) -> ObjectState {
    if code == 1 {
        ObjectState::Halted
    } else if code == 2 {
        ObjectState::Restarting
    } else {
        ObjectState::Running
    }
}

/// Largest tick that the packed word of an object can hold: 48 bits.
pub const MAX_STORED_TICK: u64 = 0xffff_ffff_ffff;

/// The word that packs state, cursor and tick of an object: the state in the top
/// byte, the cursor in the byte below it, the tick in the low 48 bits.
pub open spec fn modifier_info(o: Object) -> u64 {
    (state_code(o.state) * 0x100_0000_0000_0000 + o.modifier_index * 0x1_0000_0000_0000
        + o.counter) as u64
}

/// Whether an object can be stored: its cursor is inside the ring and its tick fits.
pub open spec fn object_storable(o: Object) -> bool {
    o.wf() && o.counter <= MAX_STORED_TICK
}

/// The three words of an object.
pub open spec fn object_words(o: Object) -> Seq<u64> {
    seq![word_of(o.cards@), word_of(o.attributes@), modifier_info(o)]
}

/// Whether a packed word holds a state and a cursor that exist.
pub open spec fn info_valid(info: u64) -> bool {
    info / 0x100_0000_0000_0000 <= 2 && (info / 0x1_0000_0000_0000) % 0x100 < 8
}

/// The object that three words at `at` store.
pub open spec fn object_at(data: Seq<u64>, at: int) -> Object {
    let info = data[at + 2];
    Object {
        cards: word_bytes(data[at]),
        attributes: word_bytes(data[at + 1]),
        state: code_state(info / 0x100_0000_0000_0000),
        modifier_index: ((info / 0x1_0000_0000_0000) % 0x100) as u8,
        counter: info % 0x1_0000_0000_0000,
    }
}

/// Storing an object and reading it back gives the object.
pub proof fn lemma_object_round_trip(o: Object, data: Seq<u64>, at: int)
    requires
        object_storable(o),
        0 <= at,
        at + 3 <= data.len(),
        data.subrange(at, at + 3) == object_words(o),
    ensures
        info_valid(data[at + 2]),
        object_at(data, at) == o,
{
    assert(data[at] == data.subrange(at, at + 3)[0]);
    assert(data[at + 1] == data.subrange(at, at + 3)[1]);
    assert(data[at + 2] == data.subrange(at, at + 3)[2]);
    let c = o.cards;
    lemma_word_of_bytes(c[0], c[1], c[2], c[3], c[4], c[5], c[6], c[7]);
    assert(word_bytes(word_of(c@)) =~= c);
    let a = o.attributes;
    lemma_word_of_bytes(a[0], a[1], a[2], a[3], a[4], a[5], a[6], a[7]);
    assert(word_bytes(word_of(a@)) =~= a);
}

impl Card {
    /// Appends the three words of the card to `data`.
    pub fn to_data(&self, data: &mut Vec<u64>)
        ensures
            final(data)@ == old(data)@ + card_words(*self),
    {
        data.push(self.duration);
        let a = &self.attributes;
        let bytes: [u8; 8] = [
            to_unsigned(a[0]),
            to_unsigned(a[1]),
            to_unsigned(a[2]),
            to_unsigned(a[3]),
            to_unsigned(a[4]),
            to_unsigned(a[5]),
            to_unsigned(a[6]),
            to_unsigned(a[7]),
        ];
        data.push(from_le_bytes(&bytes));
        data.push(self.marketid);
        assert(data@ =~= old(data)@ + card_words(*self));
    }

    /// Reads the card that the three words at `at` store, and says where the next
    /// record starts; `None` where fewer than three words are left.
    pub fn from_data(data: &[u64], at: usize) -> (r: Option<(Self, usize)>)
        ensures
            r is Some <==> at + RECORD_WORDS <= data@.len(),
            r matches Some((c, next)) ==> next == at + RECORD_WORDS && c == card_at(
                data@,
                at as int,
            ),
    {
        if data.len() < RECORD_WORDS || at > data.len() - RECORD_WORDS {
            return None;
        }
        let bytes: [u8; 8] = le_bytes(data[at + 1]);
        let attributes: [i8; 8] = [
            to_signed(bytes[0]),
            to_signed(bytes[1]),
            to_signed(bytes[2]),
            to_signed(bytes[3]),
            to_signed(bytes[4]),
            to_signed(bytes[5]),
            to_signed(bytes[6]),
            to_signed(bytes[7]),
        ];
        assert(attributes =~= word_deltas(data@[at + 1]));
        Some((Card { duration: data[at], attributes, marketid: data[at + 2] }, at + RECORD_WORDS))
    }
}

impl Object {
    /// Appends the three words of the object to `data`.
    pub fn to_data(&self, data: &mut Vec<u64>)
        requires
            object_storable(*self),
        ensures
            final(data)@ == old(data)@ + object_words(*self),
    {
        data.push(from_le_bytes(&self.cards));
        data.push(from_le_bytes(&self.attributes));
        let code: u64 = match self.state {
            ObjectState::Running => 0,
            ObjectState::Halted => 1,
            ObjectState::Restarting => 2,
        };
        data.push(
            code * 0x100_0000_0000_0000 + (self.modifier_index as u64) * 0x1_0000_0000_0000
                + self.counter,
        );
        assert(data@ =~= old(data)@ + object_words(*self));
    }

    /// Reads the object that the three words at `at` store, and says where the next
    /// record starts; `None` where fewer than three words are left or the packed word
    /// holds a state or a cursor that does not exist.
    pub fn from_data(data: &[u64], at: usize) -> (r: Option<(Self, usize)>)
        ensures
            r is Some <==> at + RECORD_WORDS <= data@.len() && info_valid(data@[at + 2]),
            r matches Some((o, next)) ==> next == at + RECORD_WORDS && o == object_at(
                data@,
                at as int,
            ) && object_storable(o),
    {
        if data.len() < RECORD_WORDS || at > data.len() - RECORD_WORDS {
            return None;
        }
        let info: u64 = data[at + 2];
        let code: u64 = info / 0x100_0000_0000_0000;
        let index: u64 = (info / 0x1_0000_0000_0000) % 0x100;
        if code > 2 || index >= 8 {
            return None;
        }
        let state = if code == 1 {
            ObjectState::Halted
        } else if code == 2 {
            ObjectState::Restarting
        } else {
            ObjectState::Running
        };
        let cards: [u8; 8] = le_bytes(data[at]);
        let attributes: [u8; 8] = le_bytes(data[at + 1]);
        assert(cards =~= word_bytes(data@[at as int]));
        assert(attributes =~= word_bytes(data@[at + 1]));
        Some(
            (
                Object {
                    cards,
                    attributes,
                    state,
                    modifier_index: index as u8,
                    counter: info % 0x1_0000_0000_0000,
                },
                at + RECORD_WORDS,
            ),
        )
    }
}

/// Words that the header of a player takes, the count of its objects included.
pub const HEADER_WORDS: usize = 5;

/// The word that packs level, experience and energy checkpoint:
/// `level << 48 | exp << 32 | last_check_point`.
pub open spec fn player_word(d: PlayerDataView) -> u64 {
    (d.level * 0x1_0000_0000_0000 + d.exp * 0x1_0000_0000 + d.last_check_point) as u64
}

/// The word that packs energy, cost round and current cost:
/// `energy << 48 | cost_info << 32 | current_cost`.
pub open spec fn cost_word(d: PlayerDataView) -> u64 {
    (d.energy * 0x1_0000_0000_0000 + d.cost_info * 0x1_0000_0000 + d.current_cost) as u64
}

/// The words of a sequence of objects, three for each.
pub open spec fn objects_words(objects: Seq<Object>) -> Seq<u64> {
    Seq::new(3 * objects.len(), |j: int| object_words(objects[j / 3])[j % 3])
}

/// The words of a sequence of cards, three for each.
pub open spec fn cards_words(cards: Seq<Card>) -> Seq<u64> {
    Seq::new(3 * cards.len(), |j: int| card_words(cards[j / 3])[j % 3])
}

/// The words of the resources, one for each.
pub open spec fn local_words(local: Seq<i64>) -> Seq<u64> {
    Seq::new(local.len(), |j: int| local[j] as u64)
}

/// The words of a player: four header words, then objects, resources and cards, each
/// behind its count.
pub open spec fn player_words(d: PlayerDataView) -> Seq<u64> {
    seq![
        player_word(d),
        cost_word(d),
        word_of(d.redeem_info@),
        d.last_interest_stamp,
        d.objects.len() as u64,
    ] + objects_words(d.objects) + seq![d.local.len() as u64] + local_words(d.local) + seq![
        d.cards.len() as u64,
    ] + cards_words(d.cards)
}

/// Whether a player can be stored: every object can, no resource is negative, and
/// the counts fit a word.
pub open spec fn player_storable(d: PlayerDataView) -> bool {
    &&& forall|k: int| 0 <= k < d.objects.len() ==> object_storable(#[trigger] d.objects[k])
    &&& non_negative(d.local)
    &&& d.objects.len() <= u64::MAX
    &&& d.local.len() <= u64::MAX
    &&& d.cards.len() <= u64::MAX
}

/// Where the resources of the player stored at `at` start: at their count.
pub open spec fn local_start(data: Seq<u64>, at: int) -> int {
    at + HEADER_WORDS + 3 * data[at + 4]
}

/// Where the cards of the player stored at `at` start: at their count.
pub open spec fn cards_start(data: Seq<u64>, at: int) -> int {
    local_start(data, at) + 1 + data[local_start(data, at)]
}

/// Where the player stored at `at` ends.
pub open spec fn player_end(data: Seq<u64>, at: int) -> int {
    cards_start(data, at) + 1 + 3 * data[cards_start(data, at)]
}

/// Whether the words at `at` store a player: every section lies within the data, every
/// object holds a state and a cursor that exist, and no resource is negative.
pub open spec fn player_readable(data: Seq<u64>, at: int) -> bool {
    &&& 0 <= at
    &&& at + HEADER_WORDS <= data.len()
    &&& local_start(data, at) < data.len()
    &&& forall|k: int|
        0 <= k < data[at + 4] ==> info_valid(#[trigger] data[at + HEADER_WORDS + 3 * k + 2])
    &&& cards_start(data, at) < data.len()
    &&& forall|k: int|
        0 <= k < data[local_start(data, at)] ==> #[trigger] data[local_start(data, at) + 1 + k]
            <= i64::MAX
    &&& player_end(data, at) <= data.len()
}

/// The player that the words at `at` store.
pub open spec fn player_at(data: Seq<u64>, at: int) -> PlayerDataView {
    let h = data[at];
    let c = data[at + 1];
    PlayerDataView {
        level: (h / 0x1_0000_0000_0000) as u16,
        exp: ((h / 0x1_0000_0000) % 0x1_0000) as u16,
        last_check_point: (h % 0x1_0000_0000) as u32,
        energy: (c / 0x1_0000_0000_0000) as u16,
        cost_info: ((c / 0x1_0000_0000) % 0x1_0000) as u16,
        current_cost: (c % 0x1_0000_0000) as u32,
        redeem_info: word_bytes(data[at + 2]),
        last_interest_stamp: data[at + 3],
        objects: Seq::new(
            data[at + 4] as nat,
            |k: int| object_at(data, at + HEADER_WORDS + 3 * k),
        ),
        local: Seq::new(
            data[local_start(data, at)] as nat,
            |k: int| data[local_start(data, at) + 1 + k] as i64,
        ),
        cards: Seq::new(
            data[cards_start(data, at)] as nat,
            |k: int| card_at(data, cards_start(data, at) + 1 + 3 * k),
        ),
    }
}

/// Three fields packed into a word come apart again.
pub proof fn lemma_unpack(hi: u16, mid: u16, lo: u32)
    ensures
        (hi * 0x1_0000_0000_0000 + mid * 0x1_0000_0000 + lo) / 0x1_0000_0000_0000 == hi,
        ((hi * 0x1_0000_0000_0000 + mid * 0x1_0000_0000 + lo) / 0x1_0000_0000) % 0x1_0000 == mid,
        (hi * 0x1_0000_0000_0000 + mid * 0x1_0000_0000 + lo) % 0x1_0000_0000 == lo,
        hi * 0x1_0000_0000_0000 + mid * 0x1_0000_0000 + lo <= u64::MAX,
{
}

/// Where each word of a stored player stands.
pub proof fn lemma_player_words(d: PlayerDataView)
    ensures
        player_words(d).len() == 5 + 3 * d.objects.len() + 1 + d.local.len() + 1 + 3
            * d.cards.len(),
        player_words(d)[0] == player_word(d),
        player_words(d)[1] == cost_word(d),
        player_words(d)[2] == word_of(d.redeem_info@),
        player_words(d)[3] == d.last_interest_stamp,
        player_words(d)[4] == d.objects.len() as u64,
        forall|j: int|
            0 <= j < 3 * d.objects.len() ==> #[trigger] player_words(d)[5 + j] == object_words(
                d.objects[j / 3],
            )[j % 3],
        player_words(d)[5 + 3 * (d.objects.len() as int)] == d.local.len() as u64,
        forall|j: int|
            0 <= j < d.local.len() ==> #[trigger] player_words(d)[5 + 3 * d.objects.len() + 1 + j]
                == d.local[j] as u64,
        player_words(d)[5 + 3 * (d.objects.len() as int) + 1 + d.local.len()] == d.cards.len() as u64,
        forall|j: int|
            0 <= j < 3 * d.cards.len() ==> #[trigger] player_words(d)[5 + 3 * d.objects.len() + 1
                + d.local.len() + 1 + j] == card_words(d.cards[j / 3])[j % 3],
{
    let a = seq![
        player_word(d),
        cost_word(d),
        word_of(d.redeem_info@),
        d.last_interest_stamp,
        d.objects.len() as u64,
    ];
    let b = objects_words(d.objects);
    let c = seq![d.local.len() as u64];
    let e = local_words(d.local);
    let f = seq![d.cards.len() as u64];
    let g = cards_words(d.cards);
    let ab = a + b;
    let abc = ab + c;
    let abce = abc + e;
    let abcef = abce + f;
    assert(player_words(d) == abcef + g);
    assert forall|j: int| 0 <= j < 3 * d.objects.len() implies #[trigger] player_words(d)[5 + j]
        == object_words(d.objects[j / 3])[j % 3] by {
        assert(ab[5 + j] == b[j]);
        assert(abc[5 + j] == ab[5 + j]);
        assert(abce[5 + j] == abc[5 + j]);
        assert(abcef[5 + j] == abce[5 + j]);
    }
    assert forall|j: int| 0 <= j < d.local.len() implies #[trigger] player_words(d)[5 + 3
        * d.objects.len() + 1 + j] == d.local[j] as u64 by {
        assert(abce[abc.len() + j] == e[j]);
        assert(abcef[abc.len() + j] == abce[abc.len() + j]);
    }
    assert forall|j: int| 0 <= j < 3 * d.cards.len() implies #[trigger] player_words(d)[5 + 3
        * d.objects.len() + 1 + d.local.len() + 1 + j] == card_words(d.cards[j / 3])[j % 3] by {
        assert((abcef + g)[abcef.len() + j] == g[j]);
    }
    assert(abc[ab.len() as int] == c[0]);
    assert(abce[ab.len() as int] == abc[ab.len() as int]);
    assert(abcef[ab.len() as int] == abce[ab.len() as int]);
    assert(abcef[abce.len() as int] == f[0]);
    assert(ab[0] == a[0] && ab[1] == a[1] && ab[2] == a[2] && ab[3] == a[3] && ab[4] == a[4]);
    assert(abc[0] == ab[0] && abc[1] == ab[1] && abc[2] == ab[2] && abc[3] == ab[3] && abc[4]
        == ab[4]);
    assert(abce[0] == abc[0] && abce[1] == abc[1] && abce[2] == abc[2] && abce[3] == abc[3]
        && abce[4] == abc[4]);
    assert(abcef[0] == abce[0] && abcef[1] == abce[1] && abcef[2] == abce[2] && abcef[3]
        == abce[3] && abcef[4] == abce[4]);
}

/// The words of a player that stand in `data` at `at`, one by one.
pub open spec fn stands_at(d: PlayerDataView, data: Seq<u64>, at: int) -> bool {
    &&& 0 <= at
    &&& at + player_words(d).len() <= data.len()
    &&& forall|j: int| 0 <= j < player_words(d).len() ==> #[trigger] data[at + j] == player_words(d)[j]
}

/// The objects of a stored player read back as they were.
proof fn lemma_objects_back(d: PlayerDataView, data: Seq<u64>, at: int, k: int)
    requires
        player_storable(d),
        stands_at(d, data, at),
        0 <= k < d.objects.len(),
    ensures
        info_valid(data[at + HEADER_WORDS + 3 * k + 2]),
        object_at(data, at + HEADER_WORDS + 3 * k) == d.objects[k],
{
    lemma_player_words(d);
    let words = player_words(d);
    let o = d.objects[k];
    let base = at + 5 + 3 * k;
    assert(object_storable(o));
    assert forall|x: int| 0 <= x < 3 implies data[base + x] == object_words(o)[x] by {
        let j = 3 * k + x;
        assert(j / 3 == k && j % 3 == x);
        assert(words[5 + j] == object_words(d.objects[j / 3])[j % 3]);
        assert(data[at + (5 + j)] == words[5 + j]);
    }
    assert(data.subrange(base, base + 3) =~= object_words(o));
    lemma_object_round_trip(o, data, base);
}

/// The cards of a stored player read back as they were.
proof fn lemma_cards_back(d: PlayerDataView, data: Seq<u64>, at: int, k: int)
    requires
        stands_at(d, data, at),
        0 <= k < d.cards.len(),
    ensures
        card_at(data, at + 5 + 3 * d.objects.len() + 1 + d.local.len() + 1 + 3 * k) == d.cards[k],
{
    lemma_player_words(d);
    let words = player_words(d);
    let c = d.cards[k];
    let off = 5 + 3 * d.objects.len() + 1 + d.local.len() + 1;
    let base = at + off + 3 * k;
    assert forall|x: int| 0 <= x < 3 implies data[base + x] == card_words(c)[x] by {
        let j = 3 * k + x;
        assert(j / 3 == k && j % 3 == x);
        assert(words[off + j] == card_words(d.cards[j / 3])[j % 3]);
        assert(data[at + (off + j)] == words[off + j]);
    }
    assert(data.subrange(base, base + 3) =~= card_words(c));
    lemma_card_round_trip(c, data, base);
}

/// Storing a player and reading it back gives the player: wherever the words of a
/// storable player stand in the data, they are readable there as that player, and the
/// reading ends where they end.
pub proof fn lemma_player_round_trip(d: PlayerDataView, data: Seq<u64>, at: int)
    requires
        player_storable(d),
        0 <= at,
        at + player_words(d).len() <= data.len(),
        data.subrange(at, at + player_words(d).len()) == player_words(d),
    ensures
        player_readable(data, at),
        player_at(data, at) == d,
        player_end(data, at) == at + player_words(d).len(),
{
    let words = player_words(d);
    assert forall|j: int| 0 <= j < words.len() implies #[trigger] data[at + j] == words[j] by {
        assert(data.subrange(at, at + words.len())[j] == data[at + j]);
    }
    assert(stands_at(d, data, at));
    lemma_player_layout(d, data, at);
    let q = player_at(data, at);
    lemma_unpack(d.level, d.exp, d.last_check_point);
    lemma_unpack(d.energy, d.cost_info, d.current_cost);
    let r = d.redeem_info;
    lemma_word_of_bytes(r[0], r[1], r[2], r[3], r[4], r[5], r[6], r[7]);
    assert(word_bytes(word_of(r@)) =~= r);
    assert forall|k: int| 0 <= k < d.objects.len() implies info_valid(
        #[trigger] data[at + HEADER_WORDS + 3 * k + 2],
    ) && q.objects[k] == d.objects[k] by {
        lemma_objects_back(d, data, at, k);
    }
    assert(q.objects =~= d.objects);
    lemma_locals_back(d, data, at);
    assert(q.local =~= d.local);
    assert forall|k: int| 0 <= k < d.cards.len() implies q.cards[k] == d.cards[k] by {
        lemma_cards_back(d, data, at, k);
    }
    assert(q.cards =~= d.cards);
    assert(q =~= d);
}

/// Where the sections of a stored player start and how long they are.
proof fn lemma_player_layout(d: PlayerDataView, data: Seq<u64>, at: int)
    requires
        player_storable(d),
        stands_at(d, data, at),
    ensures
        data[at] == player_word(d),
        data[at + 1] == cost_word(d),
        data[at + 2] == word_of(d.redeem_info@),
        data[at + 3] == d.last_interest_stamp,
        data[at + 4] == d.objects.len(),
        local_start(data, at) == at + 5 + 3 * d.objects.len(),
        data[local_start(data, at)] == d.local.len(),
        cards_start(data, at) == at + 5 + 3 * d.objects.len() + 1 + d.local.len(),
        data[cards_start(data, at)] == d.cards.len(),
        player_end(data, at) == at + player_words(d).len(),
{
    lemma_player_words(d);
    let words = player_words(d);
    assert(data[at + 0] == words[0]);
    assert(data[at + 1] == words[1]);
    assert(data[at + 2] == words[2]);
    assert(data[at + 3] == words[3]);
    assert(data[at + 4] == words[4]);
    let a = 5 + 3 * (d.objects.len() as int);
    assert(data[at + a] == words[a]);
    let b = a + 1 + d.local.len();
    assert(data[at + b] == words[b]);
}

/// The resources of a stored player read back as they were.
proof fn lemma_locals_back(d: PlayerDataView, data: Seq<u64>, at: int)
    requires
        player_storable(d),
        stands_at(d, data, at),
    ensures
        forall|k: int|
            0 <= k < d.local.len() ==> #[trigger] data[local_start(data, at) + 1 + k] <= i64::MAX
                && data[local_start(data, at) + 1 + k] as i64 == d.local[k],
{
    lemma_player_words(d);
    lemma_player_layout(d, data, at);
    let words = player_words(d);
    let off = 5 + 3 * d.objects.len() + 1;
    assert forall|k: int| 0 <= k < d.local.len() implies #[trigger] data[local_start(data, at) + 1
        + k] <= i64::MAX && data[local_start(data, at) + 1 + k] as i64 == d.local[k] by {
        assert(words[off + k] == d.local[k] as u64);
        assert(data[at + (off + k)] == words[off + k]);
        assert(d.local[k] >= 0);
    }
}

impl PlayerData {
    /// Whether the player can be stored.
    pub fn is_storable(&self) -> (b: bool)
        ensures
            b == player_storable(self@),
    {
        let mut k: usize = 0;
        while k < self.objects.len()
            invariant
                k <= self.objects.len(),
                forall|a: int| 0 <= a < k ==> object_storable(#[trigger] self@.objects[a]),
            decreases self.objects.len() - k,
        {
            if self.objects[k].modifier_index >= 8 || self.objects[k].counter > MAX_STORED_TICK {
                assert(!object_storable(self@.objects[k as int]));
                return false;
            }
            k = k + 1;
        }
        let mut j: usize = 0;
        while j < self.local.0.len()
            invariant
                j <= self.local.0.len(),
                forall|a: int| 0 <= a < j ==> self@.local[a] >= 0,
            decreases self.local.0.len() - j,
        {
            if self.local.0[j] < 0 {
                return false;
            }
            j = j + 1;
        }
        let cards: usize = self.cards.len();
        true
    }

    /// Appends the words of the player to `data`.
    pub fn to_data(&self, data: &mut Vec<u64>)
        requires
            player_storable(self@),
        ensures
            final(data)@ == old(data)@ + player_words(self@),
    {
        data.push(
            (self.level as u64) * 0x1_0000_0000_0000 + (self.exp as u64) * 0x1_0000_0000 + (
            self.last_check_point as u64),
        );
        data.push(
            (self.energy as u64) * 0x1_0000_0000_0000 + (self.cost_info as u64) * 0x1_0000_0000 + (
            self.current_cost as u64),
        );
        data.push(from_le_bytes(&self.redeem_info));
        data.push(self.last_interest_stamp);
        data.push(self.objects.len() as u64);
        let ghost head = old(data)@ + seq![
            player_word(self@),
            cost_word(self@),
            word_of(self@.redeem_info@),
            self@.last_interest_stamp,
            self@.objects.len() as u64,
        ];
        assert(data@ =~= head);
        let mut k: usize = 0;
        while k < self.objects.len()
            invariant
                k <= self.objects.len(),
                player_storable(self@),
                data@ == head + objects_words(self@.objects.take(k as int)),
            decreases self.objects.len() - k,
        {
            self.objects[k].to_data(data);
            proof {
                let before = objects_words(self@.objects.take(k as int));
                let after = objects_words(self@.objects.take(k + 1));
                assert(after =~= before + object_words(self@.objects[k as int])) by {
                    assert forall|j: int| 0 <= j < after.len() implies after[j] == (before
                        + object_words(self@.objects[k as int]))[j] by {
                        if j >= 3 * k {
                            assert(j / 3 == k);
                        }
                    }
                }
                assert(data@ =~= head + after);
            }
            k = k + 1;
        }
        assert(self@.objects.take(k as int) =~= self@.objects);
        data.push(self.local.0.len() as u64);
        let ghost mid = head + objects_words(self@.objects) + seq![self@.local.len() as u64];
        assert(data@ =~= mid);
        let mut j: usize = 0;
        while j < self.local.0.len()
            invariant
                j <= self.local.0.len(),
                player_storable(self@),
                data@ == mid + local_words(self@.local.take(j as int)),
            decreases self.local.0.len() - j,
        {
            assert(self@.local[j as int] >= 0);
            data.push(self.local.0[j] as u64);
            assert(data@ =~= mid + local_words(self@.local.take(j + 1)));
            j = j + 1;
        }
        assert(self@.local.take(j as int) =~= self@.local);
        data.push(self.cards.len() as u64);
        let ghost tail = mid + local_words(self@.local) + seq![self@.cards.len() as u64];
        assert(data@ =~= tail);
        let mut c: usize = 0;
        while c < self.cards.len()
            invariant
                c <= self.cards.len(),
                data@ == tail + cards_words(self@.cards.take(c as int)),
            decreases self.cards.len() - c,
        {
            self.cards[c].to_data(data);
            proof {
                let before = cards_words(self@.cards.take(c as int));
                let after = cards_words(self@.cards.take(c + 1));
                assert(after =~= before + card_words(self@.cards[c as int])) by {
                    assert forall|x: int| 0 <= x < after.len() implies after[x] == (before
                        + card_words(self@.cards[c as int]))[x] by {
                        if x >= 3 * c {
                            assert(x / 3 == c);
                        }
                    }
                }
                assert(data@ =~= tail + after);
            }
            c = c + 1;
        }
        assert(self@.cards.take(c as int) =~= self@.cards);
        assert(data@ =~= old(data)@ + player_words(self@));
    }

    /// Reads the player that the words at `at` store, and says where the record ends;
    /// `None` where the words do not store a player.
    pub fn from_data(data: &[u64], at: usize) -> (r: Option<(Self, usize)>)
        ensures
            r is Some <==> player_readable(data@, at as int),
            r matches Some((p, next)) ==> p@ == player_at(data@, at as int) && next == player_end(
                data@,
                at as int,
            ) && player_storable(p@),
    {
        let len: usize = data.len();
        if at > len || len - at < HEADER_WORDS {
            return None;
        }
        let h: u64 = data[at];
        let c: u64 = data[at + 1];
        let redeem_info: [u8; 8] = le_bytes(data[at + 2]);
        assert(redeem_info =~= word_bytes(data@[at + 2]));
        let last_interest_stamp: u64 = data[at + 3];
        let no: u64 = data[at + 4];
        let first: usize = at + HEADER_WORDS;
        if no > ((len - first) / 3) as u64 {
            return None;
        }
        let mut objects: Vec<Object> = Vec::new();
        let mut k: usize = 0;
        while k < no as usize
            invariant
                k <= no,
                len == data@.len(),
                first == at + HEADER_WORDS,
                first + 3 * no <= len,
                no == data@[at + 4],
                objects@.len() == k,
                forall|a: int|
                    0 <= a < k ==> info_valid(#[trigger] data@[at + HEADER_WORDS + 3 * a + 2])
                        && objects@[a] == object_at(data@, at + HEADER_WORDS + 3 * a)
                        && object_storable(objects@[a]),
            decreases no - k,
        {
            match Object::from_data(data, first + 3 * k) {
                Some((o, _)) => {
                    objects.push(o);
                },
                None => {
                    assert(!info_valid(data@[at + HEADER_WORDS + 3 * k + 2]));
                    return None;
                },
            }
            k = k + 1;
        }
        let count_at: usize = first + 3 * (no as usize);
        assert(count_at == local_start(data@, at as int));
        if count_at >= len {
            return None;
        }
        let nl: u64 = data[count_at];
        let second: usize = count_at + 1;
        if nl > (len - second) as u64 {
            return None;
        }
        let mut local: Vec<i64> = Vec::new();
        let mut j: usize = 0;
        while j < nl as usize
            invariant
                j <= nl,
                len == data@.len(),
                second == local_start(data@, at as int) + 1,
                second + nl <= len,
                nl == data@[local_start(data@, at as int)],
                local@.len() == j,
                forall|a: int|
                    0 <= a < j ==> #[trigger] data@[local_start(data@, at as int) + 1 + a]
                        <= i64::MAX && local@[a] == data@[local_start(data@, at as int) + 1 + a]
                        as i64,
            decreases nl - j,
        {
            let word: u64 = data[second + j];
            if word > i64::MAX as u64 {
                assert(!(data@[local_start(data@, at as int) + 1 + j] <= i64::MAX));
                return None;
            }
            local.push(word as i64);
            j = j + 1;
        }
        let cards_at: usize = second + (nl as usize);
        assert(cards_at == cards_start(data@, at as int));
        if cards_at >= len {
            return None;
        }
        let nc: u64 = data[cards_at];
        let third: usize = cards_at + 1;
        if nc > ((len - third) / 3) as u64 {
            return None;
        }
        let mut cards: Vec<Card> = Vec::new();
        let mut x: usize = 0;
        while x < nc as usize
            invariant
                x <= nc,
                len == data@.len(),
                third == cards_start(data@, at as int) + 1,
                third + 3 * nc <= len,
                nc == data@[cards_start(data@, at as int)],
                cards@.len() == x,
                forall|a: int|
                    0 <= a < x ==> #[trigger] cards@[a] == card_at(
                        data@,
                        cards_start(data@, at as int) + 1 + 3 * a,
                    ),
            decreases nc - x,
        {
            match Card::from_data(data, third + 3 * x) {
                Some((card, _)) => {
                    cards.push(card);
                },
                None => {
                    return None;
                },
            }
            x = x + 1;
        }
        let p = PlayerData {
            level: (h / 0x1_0000_0000_0000) as u16,
            exp: ((h / 0x1_0000_0000) % 0x1_0000) as u16,
            last_check_point: (h % 0x1_0000_0000) as u32,
            energy: (c / 0x1_0000_0000_0000) as u16,
            cost_info: ((c / 0x1_0000_0000) % 0x1_0000) as u16,
            current_cost: (c % 0x1_0000_0000) as u32,
            redeem_info,
            last_interest_stamp,
            objects,
            local: Attributes(local),
            cards,
        };
        proof {
            let q = player_at(data@, at as int);
            assert(p@.objects =~= q.objects);
            assert(p@.local =~= q.local);
            assert(p@.cards =~= q.cards);
            assert(p@ =~= q);
            assert forall|a: int| 0 <= a < p@.local.len() implies p@.local[a] >= 0 by {
                assert(data@[local_start(data@, at as int) + 1 + a] <= i64::MAX);
            }
        }
        Some((p, third + 3 * (nc as usize)))
    }
}

/// Words that an event takes.
pub const EVENT_WORDS: usize = 4;

/// Words that a listing takes.
pub const LISTING_WORDS: usize = 12;

/// Words that the ledger takes before its events.
pub const LEDGER_WORDS: usize = 6;

/// The four words of an event: object, the two words of the owner, delay.
pub open spec fn event_words(e: Event) -> Seq<u64> {
    seq![e.object_index as u64, e.owner[0], e.owner[1], e.delta as u64]
}

/// Whether four words at `at` store an event: object and delay fit an index.
pub open spec fn event_readable(data: Seq<u64>, at: int) -> bool {
    &&& 0 <= at
    &&& at + EVENT_WORDS <= data.len()
    &&& data[at] <= usize::MAX
    &&& data[at + 3] <= usize::MAX
}

/// The event that four words at `at` store.
pub open spec fn event_at(data: Seq<u64>, at: int) -> Event {
    Event {
        object_index: data[at] as usize,
        owner: [data[at + 1], data[at + 2]],
        delta: data[at + 3] as usize,
    }
}

/// Storing an event and reading it back gives the event.
pub proof fn lemma_event_round_trip(e: Event, data: Seq<u64>, at: int)
    requires
        0 <= at,
        at + 4 <= data.len(),
        data.subrange(at, at + 4) == event_words(e),
    ensures
        event_readable(data, at),
        event_at(data, at) == e,
{
    assert(data[at] == data.subrange(at, at + 4)[0]);
    assert(data[at + 1] == data.subrange(at, at + 4)[1]);
    assert(data[at + 2] == data.subrange(at, at + 4)[2]);
    assert(data[at + 3] == data.subrange(at, at + 4)[3]);
    assert(event_at(data, at).owner =~= e.owner);
}

impl Event {
    /// Appends the four words of the event to `data`.
    pub fn to_data(&self, data: &mut Vec<u64>)
        ensures
            final(data)@ == old(data)@ + event_words(*self),
    {
        data.push(self.object_index as u64);
        data.push(self.owner[0]);
        data.push(self.owner[1]);
        data.push(self.delta as u64);
        assert(data@ =~= old(data)@ + event_words(*self));
    }

    /// Reads the event that the four words at `at` store, and says where the next
    /// record starts; `None` where the words do not store an event.
    pub fn from_data(data: &[u64], at: usize) -> (r: Option<(Self, usize)>)
        ensures
            r is Some <==> event_readable(data@, at as int),
            r matches Some((e, next)) ==> next == at + EVENT_WORDS && e == event_at(
                data@,
                at as int,
            ),
    {
        if data.len() < EVENT_WORDS || at > data.len() - EVENT_WORDS {
            return None;
        }
        if data[at] > usize::MAX as u64 || data[at + 3] > usize::MAX as u64 {
            return None;
        }
        let owner: [u64; 2] = [data[at + 1], data[at + 2]];
        assert(owner =~= event_at(data@, at as int).owner);
        Some(
            (
                Event { object_index: data[at] as usize, owner, delta: data[at + 3] as usize },
                at + EVENT_WORDS,
            ),
        )
    }
}

/// The twelve words of a listing: id, ask price, settlement progress; whether there is
/// a bid, its price and the two words of its bidder; the three words of the card; the
/// two words of the owner.
pub open spec fn listing_words(l: MarketCard) -> Seq<u64> {
    seq![
        l.marketid,
        l.askprice,
        l.settleinfo,
        if l.bid is Some {
            1u64
        } else {
            0u64
        },
        if l.bid is Some {
            l.bid->0.bidprice
        } else {
            0u64
        },
        if l.bid is Some {
            l.bid->0.bidder[0]
        } else {
            0u64
        },
        if l.bid is Some {
            l.bid->0.bidder[1]
        } else {
            0u64
        },
        l.object.duration,
        deltas_word(l.object.attributes),
        l.object.marketid,
        l.owner[0],
        l.owner[1],
    ]
}

/// Whether twelve words at `at` store a listing: the word that says whether there is
/// a bid is 0 or 1.
pub open spec fn listing_readable(data: Seq<u64>, at: int) -> bool {
    &&& 0 <= at
    &&& at + LISTING_WORDS <= data.len()
    &&& data[at + 3] <= 1
}

/// The listing that twelve words at `at` store.
pub open spec fn listing_at(data: Seq<u64>, at: int) -> MarketCard {
    MarketCard {
        marketid: data[at],
        askprice: data[at + 1],
        settleinfo: data[at + 2],
        bid: if data[at + 3] == 1 {
            Some(BidInfo { bidprice: data[at + 4], bidder: [data[at + 5], data[at + 6]] })
        } else {
            None
        },
        object: card_at(data, at + 7),
        owner: [data[at + 10], data[at + 11]],
    }
}

/// Storing a listing and reading it back gives the listing.
pub proof fn lemma_listing_round_trip(l: MarketCard, data: Seq<u64>, at: int)
    requires
        0 <= at,
        at + 12 <= data.len(),
        data.subrange(at, at + 12) == listing_words(l),
    ensures
        listing_readable(data, at),
        listing_at(data, at) == l,
{
    let words = listing_words(l);
    assert forall|j: int| 0 <= j < 12 implies #[trigger] data[at + j] == words[j] by {
        assert(data.subrange(at, at + 12)[j] == data[at + j]);
    }
    assert(data[at + 0] == words[0]);
    assert(data[at + 1] == words[1]);
    assert(data[at + 2] == words[2]);
    assert(data[at + 3] == words[3]);
    assert(data[at + 4] == words[4]);
    assert(data[at + 5] == words[5]);
    assert(data[at + 6] == words[6]);
    assert(data[at + 7] == words[7]);
    assert(data[at + 8] == words[8]);
    assert(data[at + 9] == words[9]);
    assert(data[at + 10] == words[10]);
    assert(data[at + 11] == words[11]);
    assert(data.subrange(at + 7, at + 10) =~= card_words(l.object));
    lemma_card_round_trip(l.object, data, at + 7);
    let q = listing_at(data, at);
    assert(q.owner =~= l.owner);
    if l.bid is Some {
        assert(q.bid->0.bidder =~= l.bid->0.bidder);
    }
}

impl MarketCard {
    /// Appends the twelve words of the listing to `data`.
    pub fn to_data(&self, data: &mut Vec<u64>)
        ensures
            final(data)@ == old(data)@ + listing_words(*self),
    {
        data.push(self.marketid);
        data.push(self.askprice);
        data.push(self.settleinfo);
        match self.bid {
            Some(b) => {
                data.push(1);
                data.push(b.bidprice);
                data.push(b.bidder[0]);
                data.push(b.bidder[1]);
            },
            None => {
                data.push(0);
                data.push(0);
                data.push(0);
                data.push(0);
            },
        }
        let ghost head = data@;
        self.object.to_data(data);
        data.push(self.owner[0]);
        data.push(self.owner[1]);
        assert(data@ =~= old(data)@ + listing_words(*self));
    }

    /// Reads the listing that the twelve words at `at` store, and says where the next
    /// record starts; `None` where the words do not store a listing.
    pub fn from_data(data: &[u64], at: usize) -> (r: Option<(Self, usize)>)
        ensures
            r is Some <==> listing_readable(data@, at as int),
            r matches Some((l, next)) ==> next == at + LISTING_WORDS && l == listing_at(
                data@,
                at as int,
            ),
    {
        if data.len() < LISTING_WORDS || at > data.len() - LISTING_WORDS {
            return None;
        }
        if data[at + 3] > 1 {
            return None;
        }
        let bid: Option<BidInfo> = if data[at + 3] == 1 {
            let bidder: [u64; 2] = [data[at + 5], data[at + 6]];
            assert(bidder =~= listing_at(data@, at as int).bid->0.bidder);
            Some(BidInfo { bidprice: data[at + 4], bidder })
        } else {
            None
        };
        let object: Card = match Card::from_data(data, at + 7) {
            Some((c, _)) => c,
            None => unreached(),
        };
        let owner: [u64; 2] = [data[at + 10], data[at + 11]];
        assert(owner =~= listing_at(data@, at as int).owner);
        Some(
            (
                MarketCard {
                    marketid: data[at],
                    askprice: data[at + 1],
                    settleinfo: data[at + 2],
                    bid,
                    object,
                    owner,
                },
                at + LISTING_WORDS,
            ),
        )
    }
}

/// The words of a player record: nonce, the two words of the identity, then the
/// player's data.
pub open spec fn record_words(p: PlayerView) -> Seq<u64> {
    seq![p.nonce, p.player_id[0], p.player_id[1]] + player_words(p.data)
}

/// Storing a player record and reading it back gives the record.
pub proof fn lemma_record_round_trip(p: PlayerView, data: Seq<u64>, at: int)
    requires
        player_storable(p.data),
        0 <= at,
        at + record_words(p).len() <= data.len(),
        data.subrange(at, at + record_words(p).len()) == record_words(p),
    ensures
        player_readable(data, at + 3),
        data[at] == p.nonce,
        data[at + 1] == p.player_id[0],
        data[at + 2] == p.player_id[1],
        player_at(data, at + 3) == p.data,
        player_end(data, at + 3) == at + record_words(p).len(),
{
    let words = record_words(p);
    let inner = player_words(p.data);
    assert forall|j: int| 0 <= j < words.len() implies #[trigger] data[at + j] == words[j] by {
        assert(data.subrange(at, at + words.len())[j] == data[at + j]);
    }
    assert(data[at + 0] == words[0]);
    assert(data[at + 1] == words[1]);
    assert(data[at + 2] == words[2]);
    assert forall|j: int| 0 <= j < inner.len() implies data.subrange(
        at + 3,
        at + 3 + inner.len(),
    )[j] == inner[j] by {
        assert(data[at + (3 + j)] == words[3 + j]);
    }
    assert(data.subrange(at + 3, at + 3 + inner.len()) =~= inner);
    lemma_player_round_trip(p.data, data, at + 3);
}

impl AutomataPlayer {
    /// Appends the words of the player record to `data`.
    pub fn to_data(&self, data: &mut Vec<u64>)
        requires
            player_storable(self@.data),
        ensures
            final(data)@ == old(data)@ + record_words(self@),
    {
        data.push(self.nonce);
        data.push(self.player_id[0]);
        data.push(self.player_id[1]);
        let ghost head = data@;
        self.data.to_data(data);
        assert(data@ =~= old(data)@ + record_words(self@));
    }

    /// Reads the player record that the words at `at` store, and says where it ends;
    /// `None` where the words do not store a player record.
    pub fn from_data(data: &[u64], at: usize) -> (r: Option<(Self, usize)>)
        ensures
            r is Some <==> at + 3 <= data@.len() && player_readable(data@, at + 3),
            r matches Some((p, next)) ==> p@ == (PlayerView {
                nonce: data@[at as int],
                player_id: [data@[at + 1], data@[at + 2]],
                data: player_at(data@, at + 3),
            }) && next == player_end(data@, at + 3) && player_storable(p@.data),
    {
        if data.len() < 3 || at > data.len() - 3 {
            return None;
        }
        match PlayerData::from_data(data, at + 3) {
            Some((d, next)) => {
                let player_id: [u64; 2] = [data[at + 1], data[at + 2]];
                let p = AutomataPlayer { player_id, nonce: data[at], data: d };
                assert(p@.player_id =~= [data@[at + 1], data@[at + 2]]);
                Some((p, next))
            },
            None => None,
        }
    }
}

/// The words of the pending events, four for each.
pub open spec fn events_words(list: Seq<Event>) -> Seq<u64> {
    Seq::new(4 * list.len(), |j: int| event_words(list[j / 4])[j % 4])
}

/// The words of the ledger: supplier, bounty pool, next market id, event id, tick,
/// the count of the pending events, and the events.
pub open spec fn ledger_words(s: StateView) -> Seq<u64> {
    seq![
        s.supplier,
        s.bounty_pool,
        s.market_id,
        s.event_id,
        s.queue.counter,
        s.queue.list.len() as u64,
    ] + events_words(s.queue.list)
}

/// Where event `k` of a stored ledger starts.
pub open spec fn event_slot(k: int) -> int {
    LEDGER_WORDS + 4 * k
}

/// Whether the words of `data` store a ledger: the events that the count announces
/// are all there, each readable, and nothing follows them.
pub open spec fn ledger_readable(data: Seq<u64>) -> bool {
    &&& LEDGER_WORDS <= data.len()
    &&& LEDGER_WORDS + 4 * data[5] == data.len()
    &&& forall|k: int| 0 <= k < data[5] ==> event_readable(data, #[trigger] event_slot(k))
}

/// The ledger that the words of `data` store. It starts its time at the stored tick.
pub open spec fn ledger_at(data: Seq<u64>) -> StateView {
    StateView {
        supplier: data[0],
        bounty_pool: data[1],
        start_time_stamp: data[4],
        market_id: data[2],
        event_id: data[3],
        queue: QueueView {
            counter: data[4],
            list: Seq::new(data[5] as nat, |k: int| event_at(data, event_slot(k))),
        },
    }
}

/// Storing a ledger and reading it back gives the ledger, with its start set to the
/// stored tick.
pub proof fn lemma_ledger_round_trip(s: StateView)
    requires
        s.queue.list.len() <= u64::MAX,
    ensures
        ledger_readable(ledger_words(s)),
        ledger_at(ledger_words(s)) == (StateView { start_time_stamp: s.queue.counter, ..s }),
{
    let data = ledger_words(s);
    let n = s.queue.list.len() as int;
    assert(data.len() == 6 + 4 * n);
    assert(data[5] == n);
    let q = ledger_at(data);
    assert forall|k: int| 0 <= k < n implies event_readable(data, #[trigger] event_slot(k))
        && q.queue.list[k] == s.queue.list[k] by {
        let e = s.queue.list[k];
        let base = 6 + 4 * k;
        assert forall|x: int| 0 <= x < 4 implies data[base + x] == event_words(e)[x] by {
            let j = 4 * k + x;
            assert(j / 4 == k && j % 4 == x);
            assert(data[6 + j] == events_words(s.queue.list)[j]);
        }
        assert(data.subrange(base, base + 4) =~= event_words(e));
        lemma_event_round_trip(e, data, base);
    }
    assert(q.queue.list =~= s.queue.list);
    assert(q.queue =~= s.queue);
}

impl State {
    /// The words of the ledger.
    pub fn to_data(&self) -> (data: Vec<u64>)
        ensures
            data@ == ledger_words(self@),
    {
        let mut data: Vec<u64> = Vec::new();
        data.push(self.supplier);
        data.push(self.bounty_pool);
        data.push(self.market_id);
        data.push(self.event_id);
        data.push(self.queue.counter);
        data.push(self.queue.list.len() as u64);
        let ghost head = data@;
        let mut k: usize = 0;
        while k < self.queue.list.len()
            invariant
                k <= self.queue.list.len(),
                data@ == head + events_words(self@.queue.list.take(k as int)),
            decreases self.queue.list.len() - k,
        {
            self.queue.list[k].to_data(&mut data);
            proof {
                let before = events_words(self@.queue.list.take(k as int));
                let after = events_words(self@.queue.list.take(k + 1));
                assert(after =~= before + event_words(self@.queue.list[k as int])) by {
                    assert forall|j: int| 0 <= j < after.len() implies after[j] == (before
                        + event_words(self@.queue.list[k as int]))[j] by {
                        if j >= 4 * k {
                            assert(j / 4 == k);
                        }
                    }
                }
                assert(data@ =~= head + after);
            }
            k = k + 1;
        }
        assert(self@.queue.list.take(k as int) =~= self@.queue.list);
        data
    }

    /// Reads the ledger that `data` stores; `None` where the words do not store one.
    pub fn from_data(data: &[u64]) -> (r: Option<Self>)
        ensures
            r is Some <==> ledger_readable(data@),
            r matches Some(s) ==> s@ == ledger_at(data@),
    {
        let len: usize = data.len();
        if len < LEDGER_WORDS {
            return None;
        }
        let n: u64 = data[5];
        if (len - LEDGER_WORDS) % 4 != 0 || n != ((len - LEDGER_WORDS) / 4) as u64 {
            return None;
        }
        let mut list: Vec<Event> = Vec::new();
        let mut k: usize = 0;
        while k < n as usize
            invariant
                k <= n,
                len == data@.len(),
                LEDGER_WORDS + 4 * n == len,
                n == data@[5],
                list@.len() == k,
                forall|a: int|
                    0 <= a < k ==> event_readable(data@, #[trigger] event_slot(a)) && list@[a]
                        == event_at(data@, event_slot(a)),
            decreases n - k,
        {
            match Event::from_data(data, LEDGER_WORDS + 4 * k) {
                Some((e, _)) => {
                    list.push(e);
                },
                None => {
                    assert(!event_readable(data@, event_slot(k as int)));
                    return None;
                },
            }
            k = k + 1;
        }
        let s = State {
            supplier: data[0],
            bounty_pool: data[1],
            start_time_stamp: data[4],
            market_id: data[2],
            event_id: data[3],
            queue: EventQueue { counter: data[4], list },
        };
        proof {
            assert(s@.queue.list =~= ledger_at(data@).queue.list);
            assert(s@.queue =~= ledger_at(data@).queue);
        }
        Some(s)
    }
}

} // verus!
