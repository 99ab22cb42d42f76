//! The strength of every hand on a board, counted from the hands ranked
//! against each other.
use vstd::prelude::*;

verus! {

/// The largest number of hands that can be ranked together, so that the
/// counts fit the machine word used for strengths.
pub const MAX_HANDS: usize = 32_767;

/// The number of cards in the deck.
pub const CARDS: usize = 52;

/// A hand of two cards `a < b` on some board, with the rank of the hand it
/// makes there and the row under which its strength is kept.
#[derive(Clone, Copy, Debug, PartialEq, Eq, Structural)]
pub struct RankedHand {
    pub rank: u32,
    pub row: u32,
    pub a: u8,
    pub b: u8,
}

/// Whether the hand holds the card `c`.
pub open spec fn holds(f: RankedHand, c: int) -> bool {
    f.a == c || f.b == c
}

/// Whether the two hands have a card in common.
pub open spec fn shares_card(e: RankedHand, f: RankedHand) -> bool {
    holds(f, e.a as int) || holds(f, e.b as int)
}

/// What the hand `f` adds to the strength of `e`: two if `e` beats it, one
/// if they tie, nothing if `f` wins or cannot be held together with `e`.
pub open spec fn score_against(e: RankedHand, f: RankedHand) -> int {
    if shares_card(e, f) {
        0
    } else if f.rank < e.rank {
        2
    } else if f.rank == e.rank {
        1
    } else {
        0
    }
}

/// What those of the first `upto` hands that are members add to the
/// strength of `e`.
pub open spec fn score(hands: Seq<RankedHand>, member: Seq<bool>, e: RankedHand, upto: int) -> int
    decreases upto,
{
    if upto <= 0 {
        0
    } else {
        score(hands, member, e, upto - 1) + if member[upto - 1] {
            score_against(e, hands[upto - 1])
        } else {
            0
        }
    }
}

/// How many of the first `upto` hands are members and share no card with
/// `e`.
pub open spec fn free(hands: Seq<RankedHand>, member: Seq<bool>, e: RankedHand, upto: int) -> int
    decreases upto,
{
    if upto <= 0 {
        0
    } else {
        free(hands, member, e, upto - 1) + if member[upto - 1] && !shares_card(e, hands[upto - 1]) {
            1int
        } else {
            0int
        }
    }
}

/// Every hand a member.
pub open spec fn everyone(n: nat) -> Seq<bool> {
    Seq::new(n, |j: int| true)
}

/// The strength of hand `i`: twice the number of hands it beats plus the
/// number of hands it ties with, among the hands that share no card with it.
pub open spec fn strength_of(hands: Seq<RankedHand>, i: int) -> int {
    score(hands, everyone(hands.len()), hands[i], hands.len() as int)
}

/// The number of members among the hands from `lo` up to `hi`.
pub open spec fn size(member: Seq<bool>, lo: int, hi: int) -> int
    decreases hi - lo,
{
    if hi <= lo {
        0
    } else {
        size(member, lo, hi - 1) + if member[hi - 1] {
            1int
        } else {
            0int
        }
    }
}

/// The number of members among the hands from `lo` up to `hi` that hold
/// the card `c`.
pub open spec fn count(hands: Seq<RankedHand>, member: Seq<bool>, c: int, lo: int, hi: int) -> int
    decreases hi - lo,
{
    if hi <= lo {
        0
    } else {
        count(hands, member, c, lo, hi - 1) + if member[hi - 1] && holds(hands[hi - 1], c) {
            1int
        } else {
            0int
        }
    }
}

/// One for a member, nothing for another hand.
pub open spec fn own(member: Seq<bool>, i: int) -> int {
    if member[i] {
        1
    } else {
        0
    }
}

/// The hands are in the order of their ranks, each is two different cards
/// of the deck, the lower first, and no two are the same two cards.
pub open spec fn ranked(hands: Seq<RankedHand>) -> bool {
    &&& forall|i: int| 0 <= i < hands.len() ==> (#[trigger] hands[i]).a < hands[i].b < CARDS
    &&& forall|i: int, j: int|
        0 <= i < j < hands.len() ==> (#[trigger] hands[i]).rank <= (#[trigger] hands[j]).rank
    &&& forall|i: int, j: int|
        0 <= i < hands.len() && 0 <= j < hands.len() && i != j ==> !((#[trigger] hands[i]).a
            == (#[trigger] hands[j]).a && hands[i].b == hands[j].b)
}

/// Whether the hands from `s` up to `e` are all the hands of one rank.
pub open spec fn is_tie(hands: Seq<RankedHand>, s: int, e: int) -> bool {
    &&& 0 <= s < e <= hands.len()
    &&& forall|j: int| s <= j < e ==> (#[trigger] hands[j]).rank == hands[s].rank
    &&& s > 0 ==> hands[s - 1].rank < hands[s].rank
    &&& e < hands.len() ==> hands[s].rank < hands[e].rank
}

/// No more members hold a card than there are members, and no more are
/// members than there are hands.
pub proof fn lemma_count_bounds(hands: Seq<RankedHand>, member: Seq<bool>, c: int, lo: int, hi: int)
    requires
        lo <= hi,
    ensures
        0 <= count(hands, member, c, lo, hi) <= size(member, lo, hi) <= hi - lo,
    decreases hi - lo,
{
    if lo < hi {
        lemma_count_bounds(hands, member, c, lo, hi - 1);
    }
}

/// A member adds to the count of the cards it holds.
pub proof fn lemma_count_includes(
    hands: Seq<RankedHand>,
    member: Seq<bool>,
    c: int,
    lo: int,
    hi: int,
    i: int,
)
    requires
        lo <= i < hi,
        member[i],
        holds(hands[i], c),
    ensures
        count(hands, member, c, lo, hi) >= 1,
    decreases hi - lo,
{
    if i < hi - 1 {
        lemma_count_includes(hands, member, c, lo, hi - 1, i);
    } else {
        lemma_count_bounds(hands, member, c, lo, hi - 1);
    }
}

/// The counts over a range are the counts over its two parts.
pub proof fn lemma_count_split(
    hands: Seq<RankedHand>,
    member: Seq<bool>,
    c: int,
    lo: int,
    mid: int,
    hi: int,
)
    requires
        lo <= mid <= hi,
    ensures
        count(hands, member, c, lo, hi) == count(hands, member, c, lo, mid) + count(
            hands,
            member,
            c,
            mid,
            hi,
        ),
        size(member, lo, hi) == size(member, lo, mid) + size(member, mid, hi),
    decreases hi - mid,
{
    if mid < hi {
        lemma_count_split(hands, member, c, lo, mid, hi - 1);
    }
}

/// How many of the first `k` hands are members that share no card with
/// hand `i`: all members but those that hold one of its cards, where hand
/// `i` itself, which holds both, is taken off once.
pub proof fn lemma_free(hands: Seq<RankedHand>, member: Seq<bool>, i: int, k: int)
    requires
        ranked(hands),
        0 <= i < hands.len(),
        0 <= k <= hands.len(),
    ensures
        free(hands, member, hands[i], k) == size(member, 0, k) - count(
            hands,
            member,
            hands[i].a as int,
            0,
            k,
        ) - count(hands, member, hands[i].b as int, 0, k) + if i < k {
            own(member, i)
        } else {
            0
        },
    decreases k,
{
    if k > 0 {
        lemma_free(hands, member, i, k - 1);
        let f = hands[k - 1];
        if k - 1 != i {
            assert(!(f.a == hands[i].a && f.b == hands[i].b));
        }
    }
}

/// What the members of lower rank add to the strength of hand `i`, which
/// belongs to the tie from `s` to `e`: two for each that holds neither of
/// its cards.
pub proof fn lemma_score_below(
    hands: Seq<RankedHand>,
    member: Seq<bool>,
    s: int,
    e: int,
    i: int,
    k: int,
)
    requires
        ranked(hands),
        is_tie(hands, s, e),
        s <= i < e,
        0 <= k <= s,
    ensures
        score(hands, member, hands[i], k) == 2 * (size(member, 0, k) - count(
            hands,
            member,
            hands[i].a as int,
            0,
            k,
        ) - count(hands, member, hands[i].b as int, 0, k)),
    decreases k,
{
    if k > 0 {
        lemma_score_below(hands, member, s, e, i, k - 1);
        let f = hands[k - 1];
        assert(f.rank <= hands[s - 1].rank);
        assert(hands[i].rank == hands[s].rank);
        assert(!(f.a == hands[i].a && f.b == hands[i].b));
    }
}

/// What the members of lower rank and of the first hands of its own rank
/// add to the strength of hand `i`: beyond the lower ones, one for each
/// member of its rank that holds neither of its cards.
pub proof fn lemma_score_within(
    hands: Seq<RankedHand>,
    member: Seq<bool>,
    s: int,
    e: int,
    i: int,
    k: int,
)
    requires
        ranked(hands),
        is_tie(hands, s, e),
        s <= i < e,
        s <= k <= e,
    ensures
        score(hands, member, hands[i], k) == score(hands, member, hands[i], s) + size(
            member,
            s,
            k,
        ) - count(hands, member, hands[i].a as int, s, k) - count(
            hands,
            member,
            hands[i].b as int,
            s,
            k,
        ) + if i < k {
            own(member, i)
        } else {
            0
        },
    decreases k - s,
{
    if k > s {
        lemma_score_within(hands, member, s, e, i, k - 1);
        let f = hands[k - 1];
        assert(f.rank == hands[s].rank);
        assert(hands[i].rank == hands[s].rank);
        if k - 1 != i {
            assert(!(f.a == hands[i].a && f.b == hands[i].b));
        }
    }
}

/// The hands of higher rank add nothing to the strength of hand `i`.
pub proof fn lemma_score_above(
    hands: Seq<RankedHand>,
    member: Seq<bool>,
    s: int,
    e: int,
    i: int,
    k: int,
)
    requires
        ranked(hands),
        is_tie(hands, s, e),
        s <= i < e,
        e <= k <= hands.len(),
    ensures
        score(hands, member, hands[i], k) == score(hands, member, hands[i], e),
    decreases k - e,
{
    if k > e {
        lemma_score_above(hands, member, s, e, i, k - 1);
        let f = hands[k - 1];
        assert(hands[e].rank <= f.rank);
        assert(hands[i].rank == hands[s].rank);
    }
}

/// Neither a strength nor a number of hands is negative.
pub proof fn lemma_score_nonnegative(
    hands: Seq<RankedHand>,
    member: Seq<bool>,
    e: RankedHand,
    upto: int,
)
    ensures
        score(hands, member, e, upto) >= 0,
        free(hands, member, e, upto) >= 0,
    decreases upto,
{
    if upto > 0 {
        lemma_score_nonnegative(hands, member, e, upto - 1);
    }
}

/// What the members add to the strength of hand `i`, which belongs to the
/// tie from `s` to `e`, from the counts that the ranking keeps.
pub proof fn lemma_score_from_counts(
    hands: Seq<RankedHand>,
    member: Seq<bool>,
    s: int,
    e: int,
    i: int,
)
    requires
        ranked(hands),
        is_tie(hands, s, e),
        s <= i < e,
    ensures
        score(hands, member, hands[i], hands.len() as int) == (2 * size(member, 0, s) + size(
            member,
            s,
            e,
        )) + own(member, i) - (2 * count(hands, member, hands[i].a as int, 0, s) + count(
            hands,
            member,
            hands[i].a as int,
            s,
            e,
        )) - (2 * count(hands, member, hands[i].b as int, 0, s) + count(
            hands,
            member,
            hands[i].b as int,
            s,
            e,
        )),
{
    lemma_score_below(hands, member, s, e, i, s);
    lemma_score_within(hands, member, s, e, i, e);
    lemma_score_above(hands, member, s, e, i, hands.len() as int);
}

/// What a hand scores against some of the hands, and how many of those it
/// can meet.
#[derive(Clone, Copy, Debug, PartialEq, Eq, Structural)]
pub struct Standing {
    /// Two for each of them that the hand beats and one for each it ties
    /// with, among those that share no card with it.
    pub score: u16,
    /// The number of them that share no card with the hand.
    pub free: u16,
}

/// The standing of every hand against the hands marked in `member`.
pub fn rank_against(hands: &Vec<RankedHand>, member: &Vec<bool>) -> (r: Vec<Standing>)
    requires
        ranked(hands@),
        hands@.len() <= MAX_HANDS,
        member@.len() == hands@.len(),
    ensures
        r@.len() == hands@.len(),
        forall|i: int|
            0 <= i < hands@.len() ==> (#[trigger] r@[i]).score == score(
                hands@,
                member@,
                hands@[i],
                hands@.len() as int,
            ),
        forall|i: int|
            0 <= i < hands@.len() ==> (#[trigger] r@[i]).free == free(
                hands@,
                member@,
                hands@[i],
                hands@.len() as int,
            ),
{
    let n = hands.len();
    let ghost hs = hands@;
    let ghost ms = member@;
    let mut holders: Vec<u16> = Vec::new();
    let mut used: Vec<u16> = Vec::new();
    let mut c: usize = 0;
    while c < CARDS
        invariant
            0 <= c <= CARDS,
            holders@.len() == c,
            used@.len() == c,
            forall|d: int| 0 <= d < c ==> holders@[d] == 0,
            forall|d: int| 0 <= d < c ==> used@[d] == 0,
        decreases CARDS - c,
    {
        holders.push(0);
        used.push(0);
        c = c + 1;
    }
    let mut total: u16 = 0;
    let mut t: usize = 0;
    while t < n
        invariant
            hs == hands@,
            ms == member@,
            n == hs.len(),
            ms.len() == n,
            n <= MAX_HANDS,
            ranked(hs),
            0 <= t <= n,
            holders@.len() == CARDS,
            total == size(ms, 0, t as int),
            forall|d: int| 0 <= d < CARDS ==> #[trigger] holders@[d] == count(hs, ms, d, 0, t as int),
        decreases n - t,
    {
        if member[t] {
            let a = hands[t].a as usize;
            let b = hands[t].b as usize;
            proof {
                assert(hs[t as int].a < hs[t as int].b < CARDS);
                lemma_count_bounds(hs, ms, a as int, 0, t as int);
                lemma_count_bounds(hs, ms, b as int, 0, t as int);
            }
            let ha = holders[a];
            holders.set(a, ha + 1);
            let hb = holders[b];
            holders.set(b, hb + 1);
            total = total + 1;
        }
        t = t + 1;
    }
    let mut out: Vec<Standing> = Vec::new();
    let mut sum: u16 = 0;
    let mut s: usize = 0;
    while s < n
        invariant
            hs == hands@,
            ms == member@,
            n == hs.len(),
            ms.len() == n,
            n <= MAX_HANDS,
            ranked(hs),
            0 <= s <= n,
            s > 0 && s < n ==> hs[s - 1].rank < hs[s as int].rank,
            holders@.len() == CARDS,
            total == size(ms, 0, n as int),
            forall|d: int| 0 <= d < CARDS ==> #[trigger] holders@[d] == count(hs, ms, d, 0, n as int),
            used@.len() == CARDS,
            sum == 2 * size(ms, 0, s as int),
            forall|d: int| 0 <= d < CARDS ==> #[trigger] used@[d] == 2 * count(hs, ms, d, 0, s as int),
            out@.len() == s,
            forall|i: int| 0 <= i < s ==> (#[trigger] out@[i]).score == score(hs, ms, hs[i], n as int),
            forall|i: int| 0 <= i < s ==> (#[trigger] out@[i]).free == free(hs, ms, hs[i], n as int),
        decreases n - s,
    {
        let rank = hands[s].rank;
        let mut e: usize = s;
        while e < n && hands[e].rank == rank
            invariant
                hs == hands@,
                ms == member@,
                n == hs.len(),
                ms.len() == n,
                n <= MAX_HANDS,
                ranked(hs),
                0 <= s < n,
                s <= e <= n,
                rank == hs[s as int].rank,
                forall|j: int| s <= j < e ==> (#[trigger] hs[j]).rank == rank,
                used@.len() == CARDS,
                sum == 2 * size(ms, 0, s as int) + size(ms, s as int, e as int),
                forall|d: int|
                    0 <= d < CARDS ==> #[trigger] used@[d] == 2 * count(hs, ms, d, 0, s as int)
                        + count(hs, ms, d, s as int, e as int),
            decreases n - e,
        {
            if member[e] {
                let a = hands[e].a as usize;
                let b = hands[e].b as usize;
                proof {
                    assert(hs[e as int].a < hs[e as int].b < CARDS);
                    lemma_count_bounds(hs, ms, a as int, 0, s as int);
                    lemma_count_bounds(hs, ms, a as int, s as int, e as int);
                    lemma_count_bounds(hs, ms, b as int, 0, s as int);
                    lemma_count_bounds(hs, ms, b as int, s as int, e as int);
                }
                let ua = used[a];
                used.set(a, ua + 1);
                let ub = used[b];
                used.set(b, ub + 1);
                sum = sum + 1;
            }
            e = e + 1;
        }
        proof {
            assert(e > s);
            assert(is_tie(hs, s as int, e as int)) by {
                if e < n {
                    assert(hs[s as int].rank <= hs[e as int].rank);
                }
            }
        }
        let mut i: usize = s;
        while i < e
            invariant
                hs == hands@,
                ms == member@,
                n == hs.len(),
                ms.len() == n,
                n <= MAX_HANDS,
                ranked(hs),
                is_tie(hs, s as int, e as int),
                s <= i <= e,
                holders@.len() == CARDS,
                total == size(ms, 0, n as int),
                forall|d: int|
                    0 <= d < CARDS ==> #[trigger] holders@[d] == count(hs, ms, d, 0, n as int),
                used@.len() == CARDS,
                sum == 2 * size(ms, 0, s as int) + size(ms, s as int, e as int),
                forall|d: int|
                    0 <= d < CARDS ==> #[trigger] used@[d] == 2 * count(hs, ms, d, 0, s as int)
                        + count(hs, ms, d, s as int, e as int),
                out@.len() == i,
                forall|p: int|
                    0 <= p < i ==> (#[trigger] out@[p]).score == score(hs, ms, hs[p], n as int),
                forall|p: int|
                    0 <= p < i ==> (#[trigger] out@[p]).free == free(hs, ms, hs[p], n as int),
            decreases e - i,
        {
            let a = hands[i].a as usize;
            let b = hands[i].b as usize;
            let own: u16 = if member[i] {
                1
            } else {
                0
            };
            proof {
                assert(hs[i as int].a < hs[i as int].b < CARDS);
                lemma_score_from_counts(hs, ms, s as int, e as int, i as int);
                lemma_free(hs, ms, i as int, n as int);
                lemma_score_nonnegative(hs, ms, hs[i as int], n as int);
                if ms[i as int] {
                    lemma_count_includes(hs, ms, a as int, s as int, e as int, i as int);
                    lemma_count_includes(hs, ms, a as int, 0, n as int, i as int);
                }
                lemma_count_bounds(hs, ms, a as int, 0, s as int);
                lemma_count_bounds(hs, ms, a as int, s as int, e as int);
                lemma_count_bounds(hs, ms, b as int, 0, s as int);
                lemma_count_bounds(hs, ms, b as int, s as int, e as int);
                lemma_count_bounds(hs, ms, a as int, 0, n as int);
                lemma_count_bounds(hs, ms, b as int, 0, n as int);
                lemma_count_split(hs, ms, a as int, 0, s as int, e as int);
                lemma_count_bounds(hs, ms, a as int, 0, e as int);
            }
            let standing = Standing {
                score: sum + own - used[a] - used[b],
                free: total + own - holders[a] - holders[b],
            };
            out.push(standing);
            i = i + 1;
        }
        let mut j: usize = s;
        while j < e
            invariant
                hs == hands@,
                ms == member@,
                n == hs.len(),
                ms.len() == n,
                n <= MAX_HANDS,
                ranked(hs),
                0 <= s <= j <= e <= n,
                used@.len() == CARDS,
                sum == 2 * size(ms, 0, s as int) + size(ms, s as int, e as int) + size(
                    ms,
                    s as int,
                    j as int,
                ),
                forall|d: int|
                    0 <= d < CARDS ==> #[trigger] used@[d] == 2 * count(hs, ms, d, 0, s as int)
                        + count(hs, ms, d, s as int, e as int) + count(
                        hs,
                        ms,
                        d,
                        s as int,
                        j as int,
                    ),
            decreases e - j,
        {
            if member[j] {
                let a = hands[j].a as usize;
                let b = hands[j].b as usize;
                proof {
                    assert(hs[j as int].a < hs[j as int].b < CARDS);
                    lemma_count_bounds(hs, ms, a as int, 0, s as int);
                    lemma_count_bounds(hs, ms, a as int, s as int, e as int);
                    lemma_count_bounds(hs, ms, a as int, s as int, j as int);
                    lemma_count_bounds(hs, ms, b as int, 0, s as int);
                    lemma_count_bounds(hs, ms, b as int, s as int, e as int);
                    lemma_count_bounds(hs, ms, b as int, s as int, j as int);
                }
                let ua = used[a];
                used.set(a, ua + 1);
                let ub = used[b];
                used.set(b, ub + 1);
                sum = sum + 1;
            }
            j = j + 1;
        }
        proof {
            assert forall|d: int| 0 <= d < CARDS implies #[trigger] used@[d] == 2 * count(
                hs,
                ms,
                d,
                0,
                e as int,
            ) by {
                lemma_count_split(hs, ms, d, 0, s as int, e as int);
            }
            lemma_count_split(hs, ms, 0, 0, s as int, e as int);
        }
        s = e;
    }
    out
}

/// Whether none of the hands after `p` and before `upto` has the row of
/// hand `p`.
#[verifier::opaque]
pub open spec fn is_last(hands: Seq<RankedHand>, p: int, upto: int) -> bool {
    forall|j: int| p < j < upto ==> (#[trigger] hands[j]).row != hands[p].row
}

/// Whether none of the hands before `upto` has the row `r`.
#[verifier::opaque]
pub open spec fn untouched(hands: Seq<RankedHand>, r: int, upto: int) -> bool {
    forall|i: int| 0 <= i < upto ==> (#[trigger] hands[i]).row != r
}

/// Whether `strength` holds what ranking the first `upto` hands leaves in
/// it: in the row of each hand that is the last of its row, the strength of
/// that hand, and in the rows of no hand what `rows` holds.
pub open spec fn written(
    hands: Seq<RankedHand>,
    rows: Seq<u16>,
    strength: Seq<u16>,
    upto: int,
) -> bool {
    &&& strength.len() == rows.len()
    &&& forall|p: int|
        0 <= p < upto && #[trigger] is_last(hands, p, upto) ==> strength[hands[p].row as int]
            == strength_of(hands, p)
    &&& forall|r: int|
        0 <= r < rows.len() && #[trigger] untouched(hands, r, upto) ==> strength[r] == rows[r]
}

/// Writes the strength of hand `i` to its row.
fn write_strength(
    hands: &Vec<RankedHand>,
    i: usize,
    value: u16,
    strength: &mut Vec<u16>,
    Ghost(rows): Ghost<Seq<u16>>,
)
    requires
        i < hands@.len(),
        forall|j: int| 0 <= j < hands@.len() ==> (#[trigger] hands@[j]).row < old(strength)@.len(),
        value == strength_of(hands@, i as int),
        written(hands@, rows, old(strength)@, i as int),
    ensures
        written(hands@, rows, final(strength)@, i + 1),
{
    let ghost hs = hands@;
    let ghost before = strength@;
    let row = hands[i].row as usize;
    strength.set(row, value);
    proof {
        assert forall|p: int| 0 <= p < i + 1 && #[trigger] is_last(hs, p, i + 1) implies strength@[hs[p].row as int]
            == strength_of(hs, p) by {
            assert(hs[p].row < before.len());
            assert(hs[i as int].row < before.len());
            if p < i {
                reveal(is_last);
                assert(hs[i as int].row != hs[p].row);
                assert(is_last(hs, p, i as int));
            }
        }
        assert forall|r: int| 0 <= r < rows.len() && #[trigger] untouched(hs, r, i + 1) implies strength@[r]
            == rows[r] by {
            reveal(untouched);
            assert(hs[i as int].row != r);
            assert(untouched(hs, r, i as int));
        }
    }
}

/// Writes the strength of every hand to its row of `strength`. Where
/// several hands have one row, the row holds the strength of the last of
/// them. Rows of no hand are left as they are.
pub fn rank_strengths(hands: &Vec<RankedHand>, strength: &mut Vec<u16>)
    requires
        ranked(hands@),
        hands@.len() <= MAX_HANDS,
        forall|i: int| 0 <= i < hands@.len() ==> (#[trigger] hands@[i]).row < old(strength)@.len(),
    ensures
        final(strength)@.len() == old(strength)@.len(),
        forall|i: int|
            0 <= i < hands@.len() && (forall|j: int|
                i < j < hands@.len() ==> (#[trigger] hands@[j]).row != hands@[i].row)
                ==> final(strength)@[(#[trigger] hands@[i]).row as int] == strength_of(hands@, i),
        forall|r: int|
            0 <= r < old(strength)@.len() && (forall|i: int|
                0 <= i < hands@.len() ==> (#[trigger] hands@[i]).row != r)
                ==> final(strength)@[r] == old(strength)@[r],
{
    let n = hands.len();
    let ghost hs = hands@;
    let ghost rows = strength@;
    let mut member: Vec<bool> = Vec::new();
    let mut t: usize = 0;
    while t < n
        invariant
            0 <= t <= n,
            member@.len() == t,
            forall|j: int| 0 <= j < t ==> member@[j],
        decreases n - t,
    {
        member.push(true);
        t = t + 1;
    }
    assert(member@ =~= everyone(n as nat));
    let standings = rank_against(hands, &member);
    let mut i: usize = 0;
    proof {
        reveal(is_last);
        reveal(untouched);
    }
    while i < n
        invariant
            hs == hands@,
            n == hs.len(),
            standings@.len() == n,
            forall|p: int| 0 <= p < n ==> (#[trigger] standings@[p]).score == strength_of(hs, p),
            forall|j: int| 0 <= j < n ==> (#[trigger] hs[j]).row < strength@.len(),
            written(hs, rows, strength@, i as int),
            0 <= i <= n,
        decreases n - i,
    {
        write_strength(hands, i, standings[i].score, strength, Ghost(rows));
        i = i + 1;
    }
    proof {
        reveal(is_last);
        reveal(untouched);
        assert forall|i: int|
            0 <= i < hs.len() && (forall|j: int|
                i < j < hs.len() ==> (#[trigger] hs[j]).row != hs[i].row) implies strength@[(
        #[trigger] hs[i]).row as int] == strength_of(hs, i) by {
            assert(is_last(hs, i, n as int));
        }
        assert forall|r: int|
            0 <= r < rows.len() && (forall|i: int|
                0 <= i < hs.len() ==> (#[trigger] hs[i]).row != r) implies strength@[r]
            == rows[r] by {
            assert(untouched(hs, r, n as int));
        }
    }
}

} // verus!
