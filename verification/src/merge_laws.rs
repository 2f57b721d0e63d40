//! What holds of every merge: how many levels come out, where they come from,
//! in which order, and which are left out.

use vstd::prelude::*;

use arrayvec::ArrayVec;

use crate::capped;
use crate::merger;
use crate::merger::{BookStore, Poll, Side, TaggedSlice};
use crate::metrics::Metrics;
use crate::types::{Level, OrderBook, RawLevel, Summary, DEPTH};
use crate::MAX_EXCHANGES;

verus! {

/// How many levels the lists hold together.
pub open spec fn total(lists: Seq<Seq<Level>>) -> nat
    decreases lists.len(),
{
    if lists.len() == 0 {
        0
    } else {
        total(lists.drop_last()) + lists.last().len()
    }
}

/// How many levels of each list are among the first `n` of all lists.
pub open spec fn taken(side: Side, lists: Seq<Seq<Level>>, n: nat) -> Seq<nat>
    decreases n,
{
    if n == 0 || !exists|i: int| merger::starts_best(side, lists, i) {
        Seq::new(lists.len(), |i: int| 0nat)
    } else {
        let i = merger::best_list(side, lists);
        let rest = taken(side, merger::without_first(lists, i), (n - 1) as nat);
        rest.update(i, rest[i] + 1)
    }
}

/// Whether every list is sorted.
pub open spec fn all_sorted(side: Side, lists: Seq<Seq<Level>>) -> bool {
    forall|i: int| 0 <= i < lists.len() ==> merger::sorted(side, #[trigger] lists[i])
}

/// Whether the levels of every list carry the list's index as exchange id.
pub open spec fn tagged_by_index(lists: Seq<Seq<Level>>) -> bool {
    forall|i: int, c: int|
        0 <= i < lists.len() && 0 <= c < lists[i].len() ==> (#[trigger] lists[i][c]).exchange_id
            == i
}

/// The levels of one exchange, in the order in which they stand.
pub open spec fn of_exchange(levels: Seq<Level>, id: int) -> Seq<Level> {
    levels.filter(|l: Level| l.exchange_id == id)
}

/// Where any list holds a level, one list starts best.
proof fn lemma_best_exists(side: Side, lists: Seq<Seq<Level>>, k: int)
    requires
        0 <= k < lists.len(),
        lists[k].len() > 0,
    ensures
        exists|i: int| merger::starts_best(side, lists, i),
    decreases lists.len(),
{
    let front = lists.drop_last();
    let last = lists.len() - 1;
    if exists|j: int| 0 <= j < front.len() && (#[trigger] front[j]).len() > 0 {
        let j = choose|j: int| 0 <= j < front.len() && (#[trigger] front[j]).len() > 0;
        lemma_best_exists(side, front, j);
        let b = choose|i: int| merger::starts_best(side, front, i);
        let winner = if lists[last].len() > 0 && merger::ahead(
            side,
            lists[last][0],
            lists[b][0],
        ) {
            last
        } else {
            b
        };
        assert forall|i: int|
            0 <= i < lists.len() && #[trigger] lists[i].len() > 0 && i != winner implies if i
            < winner {
            merger::ahead(side, lists[winner][0], lists[i][0])
        } else {
            !merger::ahead(side, lists[i][0], lists[winner][0])
        } by {
            if i < last {
                assert(front[i] == lists[i]);
            }
        }
        assert(merger::starts_best(side, lists, winner));
    } else {
        assert forall|i: int| 0 <= i < last implies lists[i].len() == 0 by {
            assert(front[i] == lists[i]);
        }
        assert(merger::starts_best(side, lists, last));
    }
}

proof fn lemma_total_zero(lists: Seq<Seq<Level>>)
    ensures
        total(lists) == 0 <==> forall|i: int|
            0 <= i < lists.len() ==> (#[trigger] lists[i]).len() == 0,
    decreases lists.len(),
{
    if lists.len() > 0 {
        let front = lists.drop_last();
        lemma_total_zero(front);
        if total(lists) == 0 {
            assert forall|i: int| 0 <= i < lists.len() implies (#[trigger] lists[i]).len() == 0 by {
                if i < front.len() {
                    assert(front[i] == lists[i]);
                }
            }
        } else if lists.last().len() == 0 {
            let i = choose|i: int| 0 <= i < front.len() && (#[trigger] front[i]).len() != 0;
            assert(lists[i] == front[i]);
        }
    }
}

proof fn lemma_total_without_first(lists: Seq<Seq<Level>>, i: int)
    requires
        0 <= i < lists.len(),
        lists[i].len() > 0,
    ensures
        total(merger::without_first(lists, i)) == total(lists) - 1,
    decreases lists.len(),
{
    let less = merger::without_first(lists, i);
    if i == lists.len() - 1 {
        assert(less.drop_last() =~= lists.drop_last());
    } else {
        lemma_total_without_first(lists.drop_last(), i);
        assert(less.drop_last() =~= merger::without_first(lists.drop_last(), i));
    }
}

/// A merge gives `n` levels, or all there are.
pub proof fn law_merged_length(side: Side, lists: Seq<Seq<Level>>, n: nat)
    ensures
        merger::merged(side, lists, n).len() == if total(lists) < n {
            total(lists)
        } else {
            n
        },
    decreases n,
{
    if n > 0 {
        lemma_total_zero(lists);
        if exists|i: int| merger::starts_best(side, lists, i) {
            let i = merger::best_list(side, lists);
            assert(merger::starts_best(side, lists, i));
            lemma_total_without_first(lists, i);
            law_merged_length(side, merger::without_first(lists, i), (n - 1) as nat);
        } else if total(lists) != 0 {
            let k = choose|k: int| 0 <= k < lists.len() && (#[trigger] lists[k]).len() != 0;
            lemma_best_exists(side, lists, k);
        }
    }
}

proof fn lemma_taken_bounds(side: Side, lists: Seq<Seq<Level>>, n: nat)
    ensures
        taken(side, lists, n).len() == lists.len(),
        forall|i: int|
            0 <= i < lists.len() ==> #[trigger] taken(side, lists, n)[i] <= lists[i].len(),
    decreases n,
{
    if n > 0 && exists|i: int| merger::starts_best(side, lists, i) {
        let b = merger::best_list(side, lists);
        assert(merger::starts_best(side, lists, b));
        lemma_taken_bounds(side, merger::without_first(lists, b), (n - 1) as nat);
    }
}

proof fn lemma_less_tagged(lists: Seq<Seq<Level>>, b: int)
    requires
        tagged_by_index(lists),
        0 <= b < lists.len(),
        lists[b].len() > 0,
    ensures
        tagged_by_index(merger::without_first(lists, b)),
{
    let less = merger::without_first(lists, b);
    assert forall|i: int, c: int| 0 <= i < less.len() && 0 <= c < less[i].len() implies (
    #[trigger] less[i][c]).exchange_id == i by {
        if i == b {
            assert(less[i][c] == lists[i][c + 1]);
        } else {
            assert(less[i][c] == lists[i][c]);
        }
    }
}

/// Every exchange contributes its own first levels, in its own order: none is
/// skipped, repeated or made up.
pub proof fn law_merged_provenance(side: Side, lists: Seq<Seq<Level>>, n: nat, id: int)
    requires
        tagged_by_index(lists),
        0 <= id < lists.len(),
    ensures
        taken(side, lists, n)[id] <= lists[id].len(),
        of_exchange(merger::merged(side, lists, n), id) == lists[id].take(
            taken(side, lists, n)[id] as int,
        ),
    decreases n,
{
    let pred = |l: Level| l.exchange_id == id;
    lemma_taken_bounds(side, lists, n);
    if n == 0 || !exists|i: int| merger::starts_best(side, lists, i) {
        assert(of_exchange(Seq::empty(), id) =~= Seq::empty());
        assert(lists[id].take(0) =~= Seq::empty());
    } else {
        let b = merger::best_list(side, lists);
        assert(merger::starts_best(side, lists, b));
        let less = merger::without_first(lists, b);
        let head = lists[b][0];
        assert(head.exchange_id == b);
        lemma_less_tagged(lists, b);
        law_merged_provenance(side, less, (n - 1) as nat, id);
        lemma_taken_bounds(side, less, (n - 1) as nat);
        let rest = merger::merged(side, less, (n - 1) as nat);
        Seq::filter_distributes_over_add(seq![head], rest, pred);
        reveal_with_fuel(Seq::filter, 2);
        assert(seq![head].drop_last() =~= Seq::empty());
        let count = taken(side, lists, n)[id] as int;
        if b == id {
            assert(of_exchange(seq![head], id) =~= seq![head]);
            assert(lists[id].take(count) =~= seq![head] + less[id].take(count - 1));
        } else {
            assert(of_exchange(seq![head], id) =~= Seq::empty());
            assert(lists[id].take(count) =~= less[id].take(count));
        }
    }
}

/// What comes out of a merge stands in one of the lists.
proof fn lemma_merged_drawn(side: Side, lists: Seq<Seq<Level>>, n: nat, k: int) -> (at: (int, int))
    requires
        0 <= k < merger::merged(side, lists, n).len(),
    ensures
        0 <= at.0 < lists.len(),
        0 <= at.1 < lists[at.0].len(),
        lists[at.0][at.1] == merger::merged(side, lists, n)[k],
    decreases n,
{
    let b = merger::best_list(side, lists);
    assert(merger::starts_best(side, lists, b));
    if k == 0 {
        (b, 0)
    } else {
        let less = merger::without_first(lists, b);
        let at = lemma_merged_drawn(side, less, (n - 1) as nat, k - 1);
        if at.0 == b {
            (b, at.1 + 1)
        } else {
            at
        }
    }
}

/// No level of sorted lists is ahead of the one that starts best.
proof fn lemma_best_is_first(side: Side, lists: Seq<Seq<Level>>, b: int, i: int, c: int)
    requires
        all_sorted(side, lists),
        merger::starts_best(side, lists, b),
        0 <= i < lists.len(),
        0 <= c < lists[i].len(),
    ensures
        !merger::ahead(side, lists[i][c], lists[b][0]),
{
    assert(merger::sorted(side, lists[i]));
    if c > 0 {
        assert(!merger::ahead(side, lists[i][c], lists[i][0]));
    }
    assert(lists[i].len() > 0);
}

proof fn lemma_less_sorted(side: Side, lists: Seq<Seq<Level>>, b: int)
    requires
        all_sorted(side, lists),
        0 <= b < lists.len(),
        lists[b].len() > 0,
    ensures
        all_sorted(side, merger::without_first(lists, b)),
{
    let less = merger::without_first(lists, b);
    assert forall|i: int| 0 <= i < less.len() implies merger::sorted(side, #[trigger] less[i]) by {
        assert(merger::sorted(side, lists[i]));
        if i == b {
            assert forall|x: int, y: int| 0 <= x < y < less[i].len() implies !merger::ahead(
                side,
                less[i][y],
                less[i][x],
            ) by {
                assert(!merger::ahead(side, lists[i][y + 1], lists[i][x + 1]));
            }
        }
    }
}

/// Sorted lists merge into a sorted list.
pub proof fn law_merged_sorted(side: Side, lists: Seq<Seq<Level>>, n: nat)
    requires
        all_sorted(side, lists),
    ensures
        merger::sorted(side, merger::merged(side, lists, n)),
    decreases n,
{
    if n > 0 && exists|i: int| merger::starts_best(side, lists, i) {
        let b = merger::best_list(side, lists);
        assert(merger::starts_best(side, lists, b));
        let less = merger::without_first(lists, b);
        lemma_less_sorted(side, lists, b);
        law_merged_sorted(side, less, (n - 1) as nat);
        let out = merger::merged(side, lists, n);
        let rest = merger::merged(side, less, (n - 1) as nat);
        assert forall|x: int, y: int| 0 <= x < y < out.len() implies !merger::ahead(
            side,
            out[y],
            out[x],
        ) by {
            assert(out[y] == rest[y - 1]);
            if x == 0 {
                let at = lemma_merged_drawn(side, lists, n, y);
                lemma_best_is_first(side, lists, b, at.0, at.1);
            } else {
                assert(out[x] == rest[x - 1]);
            }
        }
    }
}

/// Of two levels with the same price and amount in a merge of sorted lists, the
/// one of the lower exchange id stands first.
pub proof fn law_merged_ties(side: Side, lists: Seq<Seq<Level>>, n: nat, x: int, y: int)
    requires
        all_sorted(side, lists),
        tagged_by_index(lists),
        0 <= x < y < merger::merged(side, lists, n).len(),
        merger::untagged(merger::merged(side, lists, n)[x]) == merger::untagged(
            merger::merged(side, lists, n)[y],
        ),
    ensures
        merger::merged(side, lists, n)[x].exchange_id <= merger::merged(
            side,
            lists,
            n,
        )[y].exchange_id,
    decreases n,
{
    let b = merger::best_list(side, lists);
    assert(merger::starts_best(side, lists, b));
    let out = merger::merged(side, lists, n);
    let less = merger::without_first(lists, b);
    let rest = merger::merged(side, less, (n - 1) as nat);
    assert(out[y] == rest[y - 1]);
    if x == 0 {
        let at = lemma_merged_drawn(side, lists, n, y);
        assert(lists[at.0][at.1].exchange_id == at.0);
        assert(lists[b][0].exchange_id == b);
        assert(merger::sorted(side, lists[at.0]));
        assert(lists[at.0].len() > 0);
        if at.0 < b {
            assert(merger::ahead(side, lists[at.0][at.1], lists[at.0][0]));
        }
    } else {
        assert(out[x] == rest[x - 1]);
        lemma_less_sorted(side, lists, b);
        lemma_less_tagged(lists, b);
        law_merged_ties(side, less, (n - 1) as nat, x - 1, y - 1);
    }
}

/// No level that a merge of sorted lists leaves out is ahead of one that it
/// gives.
pub proof fn law_merged_top(side: Side, lists: Seq<Seq<Level>>, n: nat, k: int, i: int, c: int)
    requires
        all_sorted(side, lists),
        0 <= k < merger::merged(side, lists, n).len(),
        0 <= i < lists.len(),
        taken(side, lists, n)[i] <= c < lists[i].len(),
    ensures
        !merger::ahead(side, lists[i][c], merger::merged(side, lists, n)[k]),
    decreases n,
{
    let b = merger::best_list(side, lists);
    assert(merger::starts_best(side, lists, b));
    if k == 0 {
        lemma_best_is_first(side, lists, b, i, c);
    } else {
        let less = merger::without_first(lists, b);
        lemma_less_sorted(side, lists, b);
        lemma_taken_bounds(side, less, (n - 1) as nat);
        if i == b {
            law_merged_top(side, less, (n - 1) as nat, k - 1, i, c - 1);
            assert(less[i][c - 1] == lists[i][c]);
        } else {
            law_merged_top(side, less, (n - 1) as nat, k - 1, i, c);
        }
    }
}

/// The first `n` levels of every list decide the merge: a level behind them
/// never appears among the first `n` of all.
pub proof fn law_merged_depth(side: Side, a: Seq<Seq<Level>>, b: Seq<Seq<Level>>, n: nat)
    requires
        a.len() == b.len(),
        forall|i: int|
            0 <= i < a.len() ==> first(#[trigger] a[i], n)
                == first(b[i], n),
    ensures
        merger::merged(side, a, n) == merger::merged(side, b, n),
    decreases n,
{
    if n > 0 {
        assert forall|i: int| 0 <= i < a.len() implies (#[trigger] a[i]).len() == 0 <==> b[i].len()
            == 0 by {
            assert(first(a[i], n) == first(b[i], n));
        }
        assert forall|i: int| 0 <= i < a.len() && (#[trigger] a[i]).len() > 0 implies a[i][0]
            == b[i][0] by {
            assert(first(a[i], n)[0] == first(b[i], n)[0]);
        }
        assert forall|i: int|
            merger::starts_best(side, a, i) == merger::starts_best(side, b, i) by {
            if 0 <= i < a.len() {
                assert(a[i].len() == 0 <==> b[i].len() == 0);
                if merger::starts_best(side, a, i) {
                    assert forall|j: int|
                        0 <= j < b.len() && #[trigger] b[j].len() > 0 && j != i implies if j < i {
                        merger::ahead(side, b[i][0], b[j][0])
                    } else {
                        !merger::ahead(side, b[j][0], b[i][0])
                    } by {
                        assert(a[j].len() > 0);
                    }
                }
                if merger::starts_best(side, b, i) {
                    assert forall|j: int|
                        0 <= j < a.len() && #[trigger] a[j].len() > 0 && j != i implies if j < i {
                        merger::ahead(side, a[i][0], a[j][0])
                    } else {
                        !merger::ahead(side, a[j][0], a[i][0])
                    } by {
                        assert(b[j].len() > 0);
                    }
                }
            }
        }
        if exists|i: int| merger::starts_best(side, a, i) {
            let i = merger::best_list(side, a);
            assert(merger::starts_best(side, a, i));
            merger::lemma_best_unique(side, b, i);
            let x = merger::without_first(a, i);
            let y = merger::without_first(b, i);
            let m = (n - 1) as nat;
            assert forall|j: int| 0 <= j < x.len() implies first(#[trigger] x[j], m) == first(
                y[j],
                m,
            ) by {
                assert(first(a[j], n) == first(b[j], n));
                lemma_first_shorter(a[j], b[j], n, j == i);
            }
            law_merged_depth(side, x, y, m);
        }
    }
}

/// The first `n` levels, or all where there are fewer.
pub open spec fn first(levels: Seq<Level>, n: nat) -> Seq<Level> {
    if levels.len() <= n {
        levels
    } else {
        levels.take(n as int)
    }
}

proof fn lemma_first_shorter(a: Seq<Level>, b: Seq<Level>, n: nat, dropped: bool)
    requires
        n > 0,
        first(a, n) == first(b, n),
        dropped ==> a.len() > 0,
    ensures
        dropped ==> first(a.drop_first(), (n - 1) as nat) == first(
            b.drop_first(),
            (n - 1) as nat,
        ),
        !dropped ==> first(a, (n - 1) as nat) == first(b, (n - 1) as nat),
{
    let m = (n - 1) as nat;
    let fa = first(a, n);
    let fb = first(b, n);
    assert(fa.len() == fb.len());
    if dropped {
        assert(first(a.drop_first(), m) =~= fa.drop_first());
        assert(first(b.drop_first(), m) =~= fb.drop_first());
    } else {
        assert(first(a, m) =~= first(fa, m));
        assert(first(b, m) =~= first(fb, m));
    }
}

/// Where only one list holds levels, the merge gives its first levels.
pub proof fn law_merged_single(side: Side, lists: Seq<Seq<Level>>, n: nat, i: int)
    requires
        0 <= i < lists.len(),
        forall|j: int| 0 <= j < lists.len() && j != i ==> (#[trigger] lists[j]).len() == 0,
    ensures
        merger::merged(side, lists, n) == first(lists[i], n),
    decreases n,
{
    if n == 0 {
        assert(first(lists[i], n) =~= Seq::empty());
    } else if lists[i].len() == 0 {
        assert forall|j: int| !merger::starts_best(side, lists, j) by {
            if 0 <= j < lists.len() {
                assert(lists[j].len() == 0);
            }
        }
    } else {
        assert(merger::starts_best(side, lists, i));
        merger::lemma_best_unique(side, lists, i);
        let less = merger::without_first(lists, i);
        law_merged_single(side, less, (n - 1) as nat, i);
        assert(first(lists[i], n) =~= seq![lists[i][0]] + first(less[i], (n - 1) as nat));
    }
}

/// The lists of a store carry their exchange ids.
proof fn lemma_store_tagged(store: BookStore, side: Side)
    requires
        store.wf(),
    ensures
        tagged_by_index(store.lists(side)),
{
    let lists = store.lists(side);
    assert forall|i: int, c: int| 0 <= i < lists.len() && 0 <= c < lists[i].len() implies (
    #[trigger] lists[i][c]).exchange_id == i by {
        assert(store@[i] is Some);
    }
}

/// Both sides of a summary hold the first levels of every exchange's book, in
/// the book's order, [`DEPTH`] in all or as many as there are.
pub proof fn law_summary_provenance(store: BookStore, r: Summary, id: int)
    requires
        store.wf(),
        merger::is_summary(r, store),
        0 <= id < MAX_EXCHANGES,
    ensures
        capped::contents(&r.bids).len() == if total(store.lists(Side::Bids)) < DEPTH {
            total(store.lists(Side::Bids))
        } else {
            DEPTH as nat
        },
        capped::contents(&r.asks).len() == if total(store.lists(Side::Asks)) < DEPTH {
            total(store.lists(Side::Asks))
        } else {
            DEPTH as nat
        },
        exists|c: int|
            #![trigger store.lists(Side::Bids)[id].take(c)]
            0 <= c <= store.lists(Side::Bids)[id].len() && of_exchange(
                capped::contents(&r.bids),
                id,
            ) == store.lists(Side::Bids)[id].take(c),
        exists|c: int|
            #![trigger store.lists(Side::Asks)[id].take(c)]
            0 <= c <= store.lists(Side::Asks)[id].len() && of_exchange(
                capped::contents(&r.asks),
                id,
            ) == store.lists(Side::Asks)[id].take(c),
{
    lemma_store_tagged(store, Side::Bids);
    lemma_store_tagged(store, Side::Asks);
    law_merged_length(Side::Bids, store.lists(Side::Bids), DEPTH as nat);
    law_merged_length(Side::Asks, store.lists(Side::Asks), DEPTH as nat);
    law_merged_provenance(Side::Bids, store.lists(Side::Bids), DEPTH as nat, id);
    law_merged_provenance(Side::Asks, store.lists(Side::Asks), DEPTH as nat, id);
    let b = taken(Side::Bids, store.lists(Side::Bids), DEPTH as nat)[id] as int;
    let a = taken(Side::Asks, store.lists(Side::Asks), DEPTH as nat)[id] as int;
    assert(of_exchange(capped::contents(&r.bids), id) == store.lists(Side::Bids)[id].take(b));
    assert(of_exchange(capped::contents(&r.asks), id) == store.lists(Side::Asks)[id].take(a));
}

/// Books that come sorted give a summary with bids from the highest price down
/// and asks from the lowest price up, whose first bid no bid of any book exceeds
/// and whose first ask no ask of any book undercuts.
pub proof fn law_summary_best(store: BookStore, r: Summary, id: int, c: int)
    requires
        merger::is_summary(r, store),
        all_sorted(Side::Bids, store.lists(Side::Bids)),
        all_sorted(Side::Asks, store.lists(Side::Asks)),
    ensures
        forall|i: int, j: int|
            0 <= i < j < capped::contents(&r.bids).len() ==> capped::contents(&r.bids)[i].price.0
                >= capped::contents(&r.bids)[j].price.0,
        forall|i: int, j: int|
            0 <= i < j < capped::contents(&r.asks).len() ==> capped::contents(&r.asks)[i].price.0
                <= capped::contents(&r.asks)[j].price.0,
        0 <= id < MAX_EXCHANGES && 0 <= c < store.lists(Side::Bids)[id].len()
            ==> capped::contents(&r.bids).len() > 0 && store.lists(Side::Bids)[id][c].price.0
            <= capped::contents(&r.bids)[0].price.0,
        0 <= id < MAX_EXCHANGES && 0 <= c < store.lists(Side::Asks)[id].len()
            ==> capped::contents(&r.asks).len() > 0 && store.lists(Side::Asks)[id][c].price.0
            >= capped::contents(&r.asks)[0].price.0,
{
    let bids = capped::contents(&r.bids);
    let asks = capped::contents(&r.asks);
    law_merged_sorted(Side::Bids, store.lists(Side::Bids), DEPTH as nat);
    law_merged_sorted(Side::Asks, store.lists(Side::Asks), DEPTH as nat);
    assert forall|i: int, j: int| 0 <= i < j < bids.len() implies bids[i].price.0
        >= bids[j].price.0 by {
        assert(!merger::ahead(Side::Bids, bids[j], bids[i]));
    }
    assert forall|i: int, j: int| 0 <= i < j < asks.len() implies asks[i].price.0
        <= asks[j].price.0 by {
        assert(!merger::ahead(Side::Asks, asks[j], asks[i]));
    }
    if 0 <= id < MAX_EXCHANGES && 0 <= c < store.lists(Side::Bids)[id].len() {
        lemma_best_exists(Side::Bids, store.lists(Side::Bids), id);
        let b = merger::best_list(Side::Bids, store.lists(Side::Bids));
        lemma_best_is_first(Side::Bids, store.lists(Side::Bids), b, id, c);
    }
    if 0 <= id < MAX_EXCHANGES && 0 <= c < store.lists(Side::Asks)[id].len() {
        lemma_best_exists(Side::Asks, store.lists(Side::Asks), id);
        let b = merger::best_list(Side::Asks, store.lists(Side::Asks));
        lemma_best_is_first(Side::Asks, store.lists(Side::Asks), b, id, c);
    }
}

/// Books that come sorted give a summary in which, of two levels of a side with
/// the same price and amount, the one of the lower exchange id stands first.
pub proof fn law_summary_ties(store: BookStore, r: Summary, x: int, y: int)
    requires
        store.wf(),
        merger::is_summary(r, store),
        all_sorted(Side::Bids, store.lists(Side::Bids)),
        all_sorted(Side::Asks, store.lists(Side::Asks)),
        0 <= x < y,
    ensures
        ({
            let bids = capped::contents(&r.bids);
            y < bids.len() && merger::untagged(bids[x]) == merger::untagged(bids[y])
                ==> bids[x].exchange_id <= bids[y].exchange_id
        }),
        ({
            let asks = capped::contents(&r.asks);
            y < asks.len() && merger::untagged(asks[x]) == merger::untagged(asks[y])
                ==> asks[x].exchange_id <= asks[y].exchange_id
        }),
{
    let bids = capped::contents(&r.bids);
    let asks = capped::contents(&r.asks);
    lemma_store_tagged(store, Side::Bids);
    lemma_store_tagged(store, Side::Asks);
    if y < bids.len() && merger::untagged(bids[x]) == merger::untagged(bids[y]) {
        law_merged_ties(Side::Bids, store.lists(Side::Bids), DEPTH as nat, x, y);
    }
    if y < asks.len() && merger::untagged(asks[x]) == merger::untagged(asks[y]) {
        law_merged_ties(Side::Asks, store.lists(Side::Asks), DEPTH as nat, x, y);
    }
}

/// The spread is zero where a side is empty. Elsewhere, for prices that fit in
/// 63 bits, it is the best ask minus the best bid, and negative exactly where
/// the books cross.
pub proof fn law_spread(store: BookStore, r: Summary)
    requires
        merger::is_summary(r, store),
    ensures
        capped::contents(&r.bids).len() == 0 || capped::contents(&r.asks).len() == 0
            ==> r.spread_raw == 0,
        ({
            let bids = capped::contents(&r.bids);
            let asks = capped::contents(&r.asks);
            bids.len() > 0 && asks.len() > 0 && bids[0].price.0 <= i64::MAX && asks[0].price.0
                <= i64::MAX ==> {
                &&& r.spread_raw == asks[0].price.0 - bids[0].price.0
                &&& r.spread_raw < 0 <==> asks[0].price.0 < bids[0].price.0
            }
        }),
{
}

/// After stale books are evicted, every level of a summary comes from an
/// exchange whose book was fresh.
pub proof fn law_summary_is_fresh(
    before: BookStore,
    store: BookStore,
    now: u64,
    threshold: u64,
    r: Summary,
    k: int,
)
    requires
        before.wf(),
        store@ == merger::evicted(before@, now, threshold),
        merger::is_summary(r, store),
    ensures
        0 <= k < capped::contents(&r.bids).len() ==> {
            let id = capped::contents(&r.bids)[k].exchange_id as int;
            &&& 0 <= id < MAX_EXCHANGES
            &&& before@[id] is Some
            &&& !merger::is_stale(before@[id]->0, now, threshold)
        },
        0 <= k < capped::contents(&r.asks).len() ==> {
            let id = capped::contents(&r.asks)[k].exchange_id as int;
            &&& 0 <= id < MAX_EXCHANGES
            &&& before@[id] is Some
            &&& !merger::is_stale(before@[id]->0, now, threshold)
        },
{
    if 0 <= k < capped::contents(&r.bids).len() {
        let at = lemma_merged_drawn(Side::Bids, store.lists(Side::Bids), DEPTH as nat, k);
        assert(store@[at.0] is Some);
    }
    if 0 <= k < capped::contents(&r.asks).len() {
        let at = lemma_merged_drawn(Side::Asks, store.lists(Side::Asks), DEPTH as nat, k);
        assert(store@[at.0] is Some);
    }
}

/// Evicting twice at the same time changes nothing the second time, and a book
/// that was just decoded survives.
pub proof fn law_eviction(slots: Seq<Option<OrderBook>>, now: u64, threshold: u64, id: int)
    requires
        0 <= id < slots.len(),
    ensures
        merger::evicted(merger::evicted(slots, now, threshold), now, threshold) == merger::evicted(
            slots,
            now,
            threshold,
        ),
        slots[id] is Some && slots[id]->0.decode_start >= now ==> merger::evicted(
            slots,
            now,
            threshold,
        )[id] == slots[id],
{
    assert(merger::evicted(merger::evicted(slots, now, threshold), now, threshold)
        =~= merger::evicted(slots, now, threshold));
}

/// A second book of an exchange replaces the first; books of different exchanges
/// can come in either order; other exchanges keep theirs.
pub proof fn law_insert(slots: Seq<Option<OrderBook>>, a: OrderBook, b: OrderBook, id: int)
    requires
        0 <= id < slots.len(),
    ensures
        a.exchange_id == b.exchange_id ==> merger::inserted(merger::inserted(slots, a), b)
            == merger::inserted(slots, b),
        a.exchange_id != b.exchange_id ==> merger::inserted(merger::inserted(slots, a), b)
            == merger::inserted(merger::inserted(slots, b), a),
        id != a.exchange_id ==> merger::inserted(slots, a)[id] == slots[id],
        id == a.exchange_id ==> merger::inserted(slots, a)[id] == Some(a),
{
    if a.exchange_id == b.exchange_id {
        assert(merger::inserted(merger::inserted(slots, a), b) =~= merger::inserted(slots, b));
    } else {
        assert(merger::inserted(merger::inserted(slots, a), b) =~= merger::inserted(
            merger::inserted(slots, b),
            a,
        ));
    }
}

/// A book of a known exchange that is not stale when it comes in takes part in
/// the merge.
pub proof fn law_fresh_book_is_merged(
    slots: Seq<Option<OrderBook>>,
    book: OrderBook,
    now: u64,
    threshold: u64,
)
    requires
        slots.len() == MAX_EXCHANGES,
        book.exchange_id < MAX_EXCHANGES,
        !merger::is_stale(book, now, threshold),
    ensures
        merger::evicted(merger::inserted(slots, book), now, threshold)[book.exchange_id as int]
            == Some(book),
{
}

/// The slots of a store after a run of inserts.
pub open spec fn inserted_all(
    slots: Seq<Option<OrderBook>>,
    books: Seq<OrderBook>,
) -> Seq<Option<OrderBook>>
    decreases books.len(),
{
    if books.len() == 0 {
        slots
    } else {
        merger::inserted(inserted_all(slots, books.drop_last()), books.last())
    }
}

/// After any run of inserts, a store holds the latest book of each exchange.
pub proof fn law_latest_insert_per_exchange(
    slots: Seq<Option<OrderBook>>,
    books: Seq<OrderBook>,
    k: int,
)
    requires
        0 <= k < books.len(),
        books[k].exchange_id < slots.len(),
        forall|j: int|
            k < j < books.len() ==> (#[trigger] books[j]).exchange_id != books[k].exchange_id,
    ensures
        inserted_all(slots, books).len() == slots.len(),
        inserted_all(slots, books)[books[k].exchange_id as int] == Some(books[k]),
    decreases books.len(),
{
    let before = books.drop_last();
    lemma_inserted_all_len(slots, before);
    if k < books.len() - 1 {
        assert forall|j: int| k < j < before.len() implies (#[trigger] before[j]).exchange_id
            != before[k].exchange_id by {
            assert(before[j] == books[j]);
        }
        law_latest_insert_per_exchange(slots, before, k);
        assert(books[books.len() - 1].exchange_id != books[k].exchange_id);
    }
}

proof fn lemma_inserted_all_len(slots: Seq<Option<OrderBook>>, books: Seq<OrderBook>)
    ensures
        inserted_all(slots, books).len() == slots.len(),
    decreases books.len(),
{
    if books.len() > 0 {
        lemma_inserted_all_len(slots, books.drop_last());
    }
}

/// A slot at `now`: its book, unless that is stale.
pub open spec fn unless_stale(slot: Option<OrderBook>, now: u64) -> Option<OrderBook> {
    if slot is Some && merger::is_stale(slot->0, now, merger::STALE_THRESHOLD) {
        None
    } else {
        slot
    }
}

/// A book, and when it comes in.
pub ghost struct Arrival {
    pub book: OrderBook,
    pub now: u64,
}

/// Whether no book comes in earlier than one in front of it.
pub open spec fn rising(arrivals: Seq<Arrival>) -> bool {
    forall|i: int, j: int| 0 <= i < j < arrivals.len() ==> arrivals[i].now <= arrivals[j].now
}

/// The slots of a store after a run of books is taken in, one after the other.
pub open spec fn taken_in(
    slots: Seq<Option<OrderBook>>,
    arrivals: Seq<Arrival>,
) -> Seq<Option<OrderBook>>
    decreases arrivals.len(),
{
    if arrivals.len() == 0 {
        slots
    } else {
        let last = arrivals.last();
        merger::evicted(
            merger::inserted(taken_in(slots, arrivals.drop_last()), last.book),
            last.now,
            merger::STALE_THRESHOLD,
        )
    }
}

/// Whether the book that came in at `k` is the latest of an exchange.
pub open spec fn is_latest(arrivals: Seq<Arrival>, id: int, k: int) -> bool {
    &&& arrivals[k].book.exchange_id == id
    &&& forall|j: int|
        k < j < arrivals.len() ==> (#[trigger] arrivals[j]).book.exchange_id != id
}

/// After any run of books with rising times, the place of every exchange holds
/// its latest book, unless that is stale at the time of the last book of all. The
/// place of an exchange without a book in the run holds the book from before,
/// unless that is stale by then.
pub proof fn law_latest_book_per_exchange(
    slots: Seq<Option<OrderBook>>,
    arrivals: Seq<Arrival>,
    id: int,
)
    requires
        arrivals.len() > 0,
        rising(arrivals),
        0 <= id < slots.len(),
    ensures
        taken_in(slots, arrivals).len() == slots.len(),
        forall|k: int|
            0 <= k < arrivals.len() && #[trigger] is_latest(arrivals, id, k) ==> taken_in(
                slots,
                arrivals,
            )[id] == unless_stale(Some(arrivals[k].book), arrivals.last().now),
        (forall|j: int|
            0 <= j < arrivals.len() ==> (#[trigger] arrivals[j]).book.exchange_id != id)
            ==> taken_in(slots, arrivals)[id] == unless_stale(slots[id], arrivals.last().now),
    decreases arrivals.len(),
{
    let before = arrivals.drop_last();
    let n = before.len() as int;
    let last = arrivals.last();
    assert(last == arrivals[n]);
    if n > 0 {
        law_latest_book_per_exchange(slots, before, id);
        assert(before.last() == arrivals[n - 1]);
        assert(arrivals[n - 1].now <= arrivals[n].now);
    }
    assert forall|k: int|
        0 <= k < arrivals.len() && #[trigger] is_latest(arrivals, id, k) implies taken_in(
        slots,
        arrivals,
    )[id] == unless_stale(Some(arrivals[k].book), last.now) by {
        if k < n {
            assert(arrivals[n].book.exchange_id != id);
            assert forall|j: int| k < j < n implies (#[trigger] before[j]).book.exchange_id
                != id by {
                assert(before[j] == arrivals[j]);
            }
            assert(is_latest(before, id, k));
        }
    }
    if forall|j: int|
        0 <= j < arrivals.len() ==> (#[trigger] arrivals[j]).book.exchange_id != id {
        assert forall|j: int| 0 <= j < n implies (#[trigger] before[j]).book.exchange_id != id by {
            assert(before[j] == arrivals[j]);
        }
        assert(arrivals[n].book.exchange_id != id);
    }
}

/// How many of the first `k` levels come from an exchange.
pub open spec fn count_from(levels: Seq<Level>, id: int, k: int) -> int
    decreases k,
{
    if k <= 0 {
        0
    } else {
        count_from(levels, id, k - 1) + if levels[k - 1].exchange_id == id {
            1int
        } else {
            0int
        }
    }
}

/// Whether the levels of list `i` carry the exchange id `ids[i]`, and no two lists
/// share one.
pub open spec fn tagged_by(lists: Seq<Seq<Level>>, ids: Seq<int>) -> bool {
    &&& ids.len() == lists.len()
    &&& forall|i: int, j: int| 0 <= i < j < ids.len() ==> ids[i] != ids[j]
    &&& forall|i: int, c: int|
        0 <= i < lists.len() && 0 <= c < lists[i].len() ==> (#[trigger] lists[i][c]).exchange_id
            == ids[i]
}

proof fn lemma_count_bounds(levels: Seq<Level>, id: int, j: int, k: int)
    requires
        0 <= j <= k,
    ensures
        0 <= count_from(levels, id, j) <= count_from(levels, id, k) <= k,
        count_from(levels, id, k) <= count_from(levels, id, j) + (k - j),
    decreases k,
{
    if j < k {
        lemma_count_bounds(levels, id, j, k - 1);
    } else if k > 0 {
        lemma_count_bounds(levels, id, k - 1, k - 1);
    }
}

/// Counting behind a first level.
proof fn lemma_count_behind(head: Level, rest: Seq<Level>, id: int, k: int)
    requires
        0 <= k <= rest.len(),
    ensures
        count_from(seq![head] + rest, id, k + 1) == count_from(rest, id, k) + if head.exchange_id
            == id {
            1int
        } else {
            0int
        },
    decreases k,
{
    let all = seq![head] + rest;
    assert(all[0] == head);
    if k > 0 {
        lemma_count_behind(head, rest, id, k - 1);
        assert(all[k] == rest[k - 1]);
    } else {
        assert(count_from(all, id, 0) == 0);
    }
}

/// The `k`-th level of a merge is the next one of its list, and goes before the next
/// one of every other list: by price, then by the larger amount, then by the place
/// of the list.
proof fn lemma_merged_steps(
    side: Side,
    lists: Seq<Seq<Level>>,
    ids: Seq<int>,
    n: nat,
    k: int,
) -> (from: int)
    requires
        tagged_by(lists, ids),
        0 <= k < merger::merged(side, lists, n).len(),
    ensures
        0 <= from < lists.len(),
        ({
            let out = merger::merged(side, lists, n);
            &&& out[k].exchange_id == ids[from]
            &&& count_from(out, ids[from], k) < lists[from].len()
            &&& out[k] == lists[from][count_from(out, ids[from], k)]
            &&& forall|o: int|
                #![trigger lists[o]]
                0 <= o < lists.len() && o != from && count_from(out, ids[o], k) < lists[o].len()
                    ==> {
                    let other = lists[o][count_from(out, ids[o], k)];
                    ||| match side {
                        Side::Bids => out[k].price.0 > other.price.0,
                        Side::Asks => out[k].price.0 < other.price.0,
                    }
                    ||| out[k].price.0 == other.price.0 && out[k].amount.0 > other.amount.0
                    ||| out[k].price.0 == other.price.0 && out[k].amount.0 == other.amount.0
                        && from < o
                }
        }),
    decreases n,
{
    let out = merger::merged(side, lists, n);
    let b = merger::best_list(side, lists);
    assert(merger::starts_best(side, lists, b));
    let head = lists[b][0];
    assert(head.exchange_id == ids[b]);
    let less = merger::without_first(lists, b);
    let rest = merger::merged(side, less, (n - 1) as nat);
    assert(out == seq![head] + rest);
    if k == 0 {
        assert forall|o: int|
            #![trigger lists[o]]
            0 <= o < lists.len() && o != b && 0 < lists[o].len() implies {
            let other = lists[o][0];
            ||| match side {
                Side::Bids => head.price.0 > other.price.0,
                Side::Asks => head.price.0 < other.price.0,
            }
            ||| head.price.0 == other.price.0 && head.amount.0 > other.amount.0
            ||| head.price.0 == other.price.0 && head.amount.0 == other.amount.0 && b < o
        } by {
            assert(lists[o].len() > 0);
        }
        b
    } else {
        assert forall|i: int, c: int| 0 <= i < less.len() && 0 <= c < less[i].len() implies (
        #[trigger] less[i][c]).exchange_id == ids[i] by {
            if i == b {
                assert(less[i][c] == lists[i][c + 1]);
            } else {
                assert(less[i][c] == lists[i][c]);
            }
        }
        let from = lemma_merged_steps(side, less, ids, (n - 1) as nat, k - 1);
        assert(out[k] == rest[k - 1]);
        lemma_count_behind(head, rest, ids[from], k - 1);
        lemma_count_bounds(rest, ids[from], 0, k - 1);
        if from == b {
            assert(ids[b] == ids[from]);
            assert(less[from][count_from(rest, ids[from], k - 1)]
                == lists[from][count_from(rest, ids[from], k - 1) + 1]);
        } else {
            assert(ids[b] != ids[from]);
        }
        assert forall|o: int|
            #![trigger lists[o]]
            0 <= o < lists.len() && o != from && count_from(out, ids[o], k)
                < lists[o].len() implies {
            let other = lists[o][count_from(out, ids[o], k)];
            ||| match side {
                Side::Bids => out[k].price.0 > other.price.0,
                Side::Asks => out[k].price.0 < other.price.0,
            }
            ||| out[k].price.0 == other.price.0 && out[k].amount.0 > other.amount.0
            ||| out[k].price.0 == other.price.0 && out[k].amount.0 == other.amount.0 && from
                < o
        } by {
            let c = count_from(rest, ids[o], k - 1);
            lemma_count_behind(head, rest, ids[o], k - 1);
            lemma_count_bounds(rest, ids[o], 0, k - 1);
            assert(less[o] == less[o]);
            if o == b {
                assert(less[o][c] == lists[o][c + 1]);
            } else {
                assert(ids[o] != ids[b]);
                assert(less[o] == lists[o]);
            }
        }
        from
    }
}

/// Whether levels are the top ten of the books of two exchanges, `a` with id zero
/// and `b` with id one: each level is the next one of its exchange's book, and goes
/// before the next one of the other book by its price, at the same price by its
/// larger amount, and at the same amount where it is the first exchange's.
pub open spec fn is_top_ten(
    side: Side,
    levels: Seq<Level>,
    a: Seq<RawLevel>,
    b: Seq<RawLevel>,
) -> bool {
    &&& levels.len() == if a.len() + b.len() < 10 {
        a.len() + b.len()
    } else {
        10
    }
    &&& forall|k: int|
        0 <= k < levels.len() ==> {
            let l = #[trigger] levels[k];
            let x = count_from(levels, 0, k);
            let y = count_from(levels, 1, k);
            ||| {
                &&& l.exchange_id == 0
                &&& 0 <= x < a.len()
                &&& 0 <= y
                &&& l.price == a[x].price
                &&& l.amount == a[x].amount
                &&& y < b.len() ==> {
                    ||| side is Bids && l.price.0 > b[y].price.0
                    ||| side is Asks && l.price.0 < b[y].price.0
                    ||| l.price.0 == b[y].price.0 && l.amount.0 >= b[y].amount.0
                }
            }
            ||| {
                &&& l.exchange_id == 1
                &&& 0 <= y < b.len()
                &&& 0 <= x
                &&& l.price == b[y].price
                &&& l.amount == b[y].amount
                &&& x < a.len() ==> {
                    ||| side is Bids && l.price.0 > a[x].price.0
                    ||| side is Asks && l.price.0 < a[x].price.0
                    ||| l.price.0 == a[x].price.0 && l.amount.0 > a[x].amount.0
                }
            }
        }
}

/// The bids of an exchange's book; none where there is no book.
pub open spec fn bids_of(slot: Option<OrderBook>) -> Seq<RawLevel> {
    match slot {
        Some(book) => capped::contents(&book.bids),
        None => Seq::empty(),
    }
}

/// The asks of an exchange's book; none where there is no book.
pub open spec fn asks_of(slot: Option<OrderBook>) -> Seq<RawLevel> {
    match slot {
        Some(book) => capped::contents(&book.asks),
        None => Seq::empty(),
    }
}

/// Two lists that carry the ids zero and one merge into their top ten.
proof fn lemma_merged_top_ten(
    side: Side,
    lists: Seq<Seq<Level>>,
    a: Seq<RawLevel>,
    b: Seq<RawLevel>,
)
    requires
        lists.len() == 2,
        lists[0] == merger::tagged(0, a),
        lists[1] == merger::tagged(1, b),
    ensures
        is_top_ten(side, merger::merged(side, lists, 10), a, b),
{
    let out = merger::merged(side, lists, 10);
    let ids = seq![0int, 1int];
    law_merged_length(side, lists, 10);
    reveal_with_fuel(total, 3);
    assert(lists.drop_last().drop_last() =~= Seq::empty());
    assert(total(lists) == a.len() + b.len());
    assert(tagged_by(lists, ids));
    assert forall|k: int| 0 <= k < out.len() implies {
        let l = #[trigger] out[k];
        let x = count_from(out, 0, k);
        let y = count_from(out, 1, k);
        ||| {
            &&& l.exchange_id == 0
            &&& 0 <= x < a.len()
            &&& 0 <= y
            &&& l.price == a[x].price
            &&& l.amount == a[x].amount
            &&& y < b.len() ==> {
                ||| side is Bids && l.price.0 > b[y].price.0
                ||| side is Asks && l.price.0 < b[y].price.0
                ||| l.price.0 == b[y].price.0 && l.amount.0 >= b[y].amount.0
            }
        }
        ||| {
            &&& l.exchange_id == 1
            &&& 0 <= y < b.len()
            &&& 0 <= x
            &&& l.price == b[y].price
            &&& l.amount == b[y].amount
            &&& x < a.len() ==> {
                ||| side is Bids && l.price.0 > a[x].price.0
                ||| side is Asks && l.price.0 < a[x].price.0
                ||| l.price.0 == a[x].price.0 && l.amount.0 > a[x].amount.0
            }
        }
    } by {
        let from = lemma_merged_steps(side, lists, ids, 10, k);
        let x = count_from(out, 0, k);
        let y = count_from(out, 1, k);
        lemma_count_bounds(out, 0, 0, k);
        lemma_count_bounds(out, 1, 0, k);
        assert(lists[0].len() == a.len() && lists[1].len() == b.len());
        if x < a.len() {
            let l = Level { price: a[x].price, amount: a[x].amount, exchange_id: 0 };
            assert(lists[0][x] == l);
        }
        if y < b.len() {
            let l = Level { price: b[y].price, amount: b[y].amount, exchange_id: 1 };
            assert(lists[1][y] == l);
        }
    }
}

/// The lists of a store are the levels of its books.
proof fn lemma_store_lists(store: BookStore, side: Side)
    requires
        forall|i: int|
            0 <= i < 2 && #[trigger] store.books@[i] is Some ==> store.books@[i]->0.exchange_id
                == i,
    ensures
        store.lists(side).len() == 2,
        store.lists(side)[0] == merger::tagged(
            0,
            if side is Bids {
                bids_of(store.books@[0])
            } else {
                asks_of(store.books@[0])
            },
        ),
        store.lists(side)[1] == merger::tagged(
            1,
            if side is Bids {
                bids_of(store.books@[1])
            } else {
                asks_of(store.books@[1])
            },
        ),
{
    assert(store.books@[0] == store@[0]);
    assert(store.books@[1] == store@[1]);
    assert(merger::tagged(0, Seq::empty()) =~= Seq::<Level>::empty());
    assert(merger::tagged(1, Seq::empty()) =~= Seq::<Level>::empty());
}

/// Where a summary is that of a store, its sides are the top ten of the store's
/// books and its spread is that of the first levels.
proof fn lemma_summary_of_books(store: BookStore, r: Summary)
    requires
        merger::is_summary(r, store),
        forall|i: int|
            0 <= i < 2 && #[trigger] store.books@[i] is Some ==> store.books@[i]->0.exchange_id
                == i,
    ensures
        is_top_ten(
            Side::Bids,
            capped::contents(&r.bids),
            bids_of(store.books@[0]),
            bids_of(store.books@[1]),
        ),
        is_top_ten(
            Side::Asks,
            capped::contents(&r.asks),
            asks_of(store.books@[0]),
            asks_of(store.books@[1]),
        ),
        is_spread(r),
{
    lemma_store_lists(store, Side::Bids);
    lemma_store_lists(store, Side::Asks);
    lemma_merged_top_ten(
        Side::Bids,
        store.lists(Side::Bids),
        bids_of(store.books@[0]),
        bids_of(store.books@[1]),
    );
    lemma_merged_top_ten(
        Side::Asks,
        store.lists(Side::Asks),
        asks_of(store.books@[0]),
        asks_of(store.books@[1]),
    );
}

/// Whether the spread is the first ask's price minus the first bid's, up to a
/// multiple of `2^64`, and zero where a side is empty.
pub open spec fn is_spread(r: Summary) -> bool {
    let bids = capped::contents(&r.bids);
    let asks = capped::contents(&r.asks);
    if bids.len() == 0 || asks.len() == 0 {
        r.spread_raw == 0
    } else {
        let d = asks[0].price.0 - bids[0].price.0;
        &&& -0x8000_0000_0000_0000 <= d <= 0x7fff_ffff_ffff_ffff ==> r.spread_raw == d
        &&& (d - r.spread_raw) % 0x1_0000_0000_0000_0000 == 0
    }
}

/// A merge gives, on each side, the top ten levels of the books in the store, and
/// the spread between the first of them.
pub proof fn law_merge_gives_top_ten(store: &BookStore, r: Summary)
    requires
        call_ensures(merger::merge, (store,), r),
        forall|i: int|
            0 <= i < 2 && #[trigger] store.books@[i] is Some ==> store.books@[i]->0.exchange_id
                == i,
    ensures
        is_top_ten(
            Side::Bids,
            capped::contents(&r.bids),
            bids_of(store.books@[0]),
            bids_of(store.books@[1]),
        ),
        is_top_ten(
            Side::Asks,
            capped::contents(&r.asks),
            asks_of(store.books@[0]),
            asks_of(store.books@[1]),
        ),
        is_spread(r),
{
    lemma_summary_of_books(*store, r);
}

/// Whether levels stand by price, at the same price by falling amount.
pub open spec fn by_price_and_amount(side: Side, levels: Seq<RawLevel>) -> bool {
    forall|i: int, j: int|
        0 <= i < j < levels.len() ==> {
            ||| side is Bids && levels[i].price.0 > levels[j].price.0
            ||| side is Asks && levels[i].price.0 < levels[j].price.0
            ||| levels[i].price.0 == levels[j].price.0 && levels[i].amount.0
                >= levels[j].amount.0
        }
}

/// In the top ten of books that come in order, a level is in order with everything
/// that its turn leaves for later, in either book.
proof fn lemma_top_ten_before(
    side: Side,
    levels: Seq<Level>,
    a: Seq<RawLevel>,
    b: Seq<RawLevel>,
    k: int,
    id: int,
    c: int,
)
    requires
        is_top_ten(side, levels, a, b),
        by_price_and_amount(side, a),
        by_price_and_amount(side, b),
        0 <= k < levels.len(),
        id == 0 || id == 1,
        count_from(levels, id, k) <= c < (if id == 0 {
            a.len()
        } else {
            b.len()
        }),
        levels[k].exchange_id == id ==> count_from(levels, id, k) < c,
    ensures
        ({
            let l = levels[k];
            let other = if id == 0 {
                a[c]
            } else {
                b[c]
            };
            ||| side is Bids && l.price.0 > other.price.0
            ||| side is Asks && l.price.0 < other.price.0
            ||| l.price.0 == other.price.0 && l.amount.0 > other.amount.0
            ||| l.price.0 == other.price.0 && l.amount.0 == other.amount.0 && l.exchange_id
                <= id
        }),
{
    let l = levels[k];
    let x = count_from(levels, 0, k);
    let y = count_from(levels, 1, k);
}

/// Of books whose levels stand by price and, at the same price, by falling amount,
/// a merge gives sides that do too; levels equal in both stand by exchange id.
pub proof fn law_merge_keeps_order(store: &BookStore, r: Summary, i: int, j: int)
    requires
        call_ensures(merger::merge, (store,), r),
        forall|i: int|
            0 <= i < 2 && #[trigger] store.books@[i] is Some ==> store.books@[i]->0.exchange_id
                == i,
        forall|i: int|
            0 <= i < 2 && #[trigger] store.books@[i] is Some ==> by_price_and_amount(
                Side::Bids,
                capped::contents(&store.books@[i]->0.bids),
            ) && by_price_and_amount(Side::Asks, capped::contents(&store.books@[i]->0.asks)),
        0 <= i < j,
    ensures
        j < capped::contents(&r.bids).len() ==> {
            let x = capped::contents(&r.bids)[i];
            let y = capped::contents(&r.bids)[j];
            ||| x.price.0 > y.price.0
            ||| x.price.0 == y.price.0 && x.amount.0 > y.amount.0
            ||| x.price.0 == y.price.0 && x.amount.0 == y.amount.0 && x.exchange_id
                <= y.exchange_id
        },
        j < capped::contents(&r.asks).len() ==> {
            let x = capped::contents(&r.asks)[i];
            let y = capped::contents(&r.asks)[j];
            ||| x.price.0 < y.price.0
            ||| x.price.0 == y.price.0 && x.amount.0 > y.amount.0
            ||| x.price.0 == y.price.0 && x.amount.0 == y.amount.0 && x.exchange_id
                <= y.exchange_id
        },
{
    lemma_summary_of_books(*store, r);
    assert(store.books@[0] is Some || store.books@[0] is None);
    assert(store.books@[1] is Some || store.books@[1] is None);
    lemma_top_ten_ordered(
        Side::Bids,
        capped::contents(&r.bids),
        bids_of(store.books@[0]),
        bids_of(store.books@[1]),
        i,
        j,
    );
    lemma_top_ten_ordered(
        Side::Asks,
        capped::contents(&r.asks),
        asks_of(store.books@[0]),
        asks_of(store.books@[1]),
        i,
        j,
    );
}

proof fn lemma_top_ten_ordered(
    side: Side,
    levels: Seq<Level>,
    a: Seq<RawLevel>,
    b: Seq<RawLevel>,
    i: int,
    j: int,
)
    requires
        is_top_ten(side, levels, a, b),
        by_price_and_amount(side, a),
        by_price_and_amount(side, b),
        0 <= i < j,
    ensures
        j < levels.len() ==> {
            let x = levels[i];
            let y = levels[j];
            ||| side is Bids && x.price.0 > y.price.0
            ||| side is Asks && x.price.0 < y.price.0
            ||| x.price.0 == y.price.0 && x.amount.0 > y.amount.0
            ||| x.price.0 == y.price.0 && x.amount.0 == y.amount.0 && x.exchange_id
                <= y.exchange_id
        },
{
    if j < levels.len() {
        let id = levels[j].exchange_id as int;
        let c = count_from(levels, id, j);
        assert(id == 0 || id == 1);
        lemma_count_bounds(levels, id, i, j);
        if levels[i].exchange_id == id {
            lemma_count_bounds(levels, id, i + 1, j);
        }
        lemma_top_ten_before(side, levels, a, b, i, id, c);
    }
}

/// No level that a merge leaves out comes before one that it gives: of books whose
/// levels stand in order, a level beyond those taken from its book is, by price,
/// amount and exchange id, behind every level of that side of the summary.
pub proof fn law_merge_leaves_out_the_worst(
    store: &BookStore,
    r: Summary,
    k: int,
    id: int,
    c: int,
)
    requires
        call_ensures(merger::merge, (store,), r),
        forall|i: int|
            0 <= i < 2 && #[trigger] store.books@[i] is Some ==> store.books@[i]->0.exchange_id
                == i,
        forall|i: int|
            0 <= i < 2 && #[trigger] store.books@[i] is Some ==> by_price_and_amount(
                Side::Bids,
                capped::contents(&store.books@[i]->0.bids),
            ) && by_price_and_amount(Side::Asks, capped::contents(&store.books@[i]->0.asks)),
        0 <= id < 2,
        0 <= k,
    ensures
        ({
            let bids = capped::contents(&r.bids);
            let book = bids_of(store.books@[id]);
            k < bids.len() && count_from(bids, id, bids.len() as int) <= c < book.len() ==> {
                ||| bids[k].price.0 > book[c].price.0
                ||| bids[k].price.0 == book[c].price.0 && bids[k].amount.0 > book[c].amount.0
                ||| bids[k].price.0 == book[c].price.0 && bids[k].amount.0 == book[c].amount.0
                    && bids[k].exchange_id <= id
            }
        }),
        ({
            let asks = capped::contents(&r.asks);
            let book = asks_of(store.books@[id]);
            k < asks.len() && count_from(asks, id, asks.len() as int) <= c < book.len() ==> {
                ||| asks[k].price.0 < book[c].price.0
                ||| asks[k].price.0 == book[c].price.0 && asks[k].amount.0 > book[c].amount.0
                ||| asks[k].price.0 == book[c].price.0 && asks[k].amount.0 == book[c].amount.0
                    && asks[k].exchange_id <= id
            }
        }),
{
    lemma_summary_of_books(*store, r);
    assert(store.books@[0] is Some || store.books@[0] is None);
    assert(store.books@[1] is Some || store.books@[1] is None);
    let bids = capped::contents(&r.bids);
    let asks = capped::contents(&r.asks);
    if k < bids.len() && count_from(bids, id, bids.len() as int) <= c < bids_of(
        store.books@[id],
    ).len() {
        lemma_count_bounds(bids, id, k, bids.len() as int);
        lemma_count_bounds(bids, id, k + 1, bids.len() as int);
        lemma_top_ten_before(
            Side::Bids,
            bids,
            bids_of(store.books@[0]),
            bids_of(store.books@[1]),
            k,
            id,
            c,
        );
    }
    if k < asks.len() && count_from(asks, id, asks.len() as int) <= c < asks_of(
        store.books@[id],
    ).len() {
        lemma_count_bounds(asks, id, k, asks.len() as int);
        lemma_count_bounds(asks, id, k + 1, asks.len() as int);
        lemma_top_ten_before(
            Side::Asks,
            asks,
            asks_of(store.books@[0]),
            asks_of(store.books@[1]),
            k,
            id,
            c,
        );
    }
}

/// A merge of any slices, each with an exchange id of its own, gives `n` levels, ten
/// at most, or all there are. The `k`-th is the next one of its slice, and goes
/// before the next one of every other slice: by its price, at the same price by its
/// larger amount, and at the same amount where its slice stands first.
pub proof fn law_merge_top_n(
    slices: &[TaggedSlice<'_>],
    side: Side,
    n: usize,
    r: ArrayVec<Level, DEPTH>,
    k: int,
)
    requires
        slices@.len() <= 2,
        call_ensures(merger::merge_top_n, (slices, side, n), r),
        forall|i: int, j: int|
            0 <= i < j < slices@.len() ==> slices@[i].exchange_id != slices@[j].exchange_id,
    ensures
        ({
            let out = capped::contents(&r);
            let most: nat = if n < 10 {
                n as nat
            } else {
                10
            };
            let all: nat = if slices@.len() == 0 {
                0
            } else if slices@.len() == 1 {
                slices@[0].levels@.len()
            } else {
                slices@[0].levels@.len() + slices@[1].levels@.len()
            };
            out.len() == if all < most {
                all
            } else {
                most
            }
        }),
        0 <= k < capped::contents(&r).len() ==> exists|from: int|
            #![trigger slices@[from]]
            {
                let out = capped::contents(&r);
                let l = out[k];
                let own = slices@[from];
                let c = count_from(out, own.exchange_id as int, k);
                &&& 0 <= from < slices@.len()
                &&& l.exchange_id == own.exchange_id
                &&& 0 <= c < own.levels@.len()
                &&& l.price == own.levels@[c].price
                &&& l.amount == own.levels@[c].amount
                &&& forall|o: int|
                    #![trigger slices@[o]]
                    0 <= o < slices@.len() && o != from && count_from(
                        out,
                        slices@[o].exchange_id as int,
                        k,
                    ) < slices@[o].levels@.len() ==> {
                        let other = slices@[o].levels@[count_from(
                            out,
                            slices@[o].exchange_id as int,
                            k,
                        )];
                        ||| side is Bids && l.price.0 > other.price.0
                        ||| side is Asks && l.price.0 < other.price.0
                        ||| l.price.0 == other.price.0 && l.amount.0 > other.amount.0
                        ||| l.price.0 == other.price.0 && l.amount.0 == other.amount.0 && from
                            < o
                    }
            },
{
    let out = capped::contents(&r);
    let lists = merger::lists_of(slices@);
    let m: nat = if n < 10 {
        n as nat
    } else {
        10
    };
    let ids = Seq::new(slices@.len(), |i: int| slices@[i].exchange_id as int);
    law_merged_length(side, lists, m);
    reveal_with_fuel(total, 3);
    if slices@.len() == 2 {
        assert(lists.drop_last().drop_last() =~= Seq::empty());
    } else if slices@.len() == 1 {
        assert(lists.drop_last() =~= Seq::empty());
    }
    if 0 <= k < out.len() {
        assert(tagged_by(lists, ids));
        let from = lemma_merged_steps(side, lists, ids, m, k);
        let own = slices@[from];
        let c = count_from(out, own.exchange_id as int, k);
        lemma_count_bounds(out, own.exchange_id as int, 0, k);
        assert(lists[from] == own.list());
        assert forall|o: int|
            #![trigger slices@[o]]
            0 <= o < slices@.len() && o != from && count_from(
                out,
                slices@[o].exchange_id as int,
                k,
            ) < slices@[o].levels@.len() implies {
            let l = out[k];
            let other = slices@[o].levels@[count_from(out, slices@[o].exchange_id as int, k)];
            ||| side is Bids && l.price.0 > other.price.0
            ||| side is Asks && l.price.0 < other.price.0
            ||| l.price.0 == other.price.0 && l.amount.0 > other.amount.0
            ||| l.price.0 == other.price.0 && l.amount.0 == other.amount.0 && from < o
        } by {
            lemma_count_bounds(out, slices@[o].exchange_id as int, 0, k);
            assert(lists[o] == slices@[o].list());
        }
    }
}

/// A book takes the place of its exchange and leaves the other places alone; one of
/// an exchange that is not known changes nothing.
pub proof fn law_insert_replaces(store: &mut BookStore, book: OrderBook, i: int)
    requires
        old(store).wf(),
        call_ensures(BookStore::insert, (store, book), ()),
        0 <= i < 2,
    ensures
        final(store).books@[i] == if book.exchange_id == i {
            Some(book)
        } else {
            old(store).books@[i]
        },
{
    assert(old(store)@[i] == old(store).books@[i]);
    assert(final(store)@[i] == final(store).books@[i]);
}

/// Eviction at `now` keeps, in the place of every exchange, exactly the books that
/// are at most `threshold` nanoseconds old or from later than `now`.
pub proof fn law_eviction_keeps_the_fresh(
    store: &mut BookStore,
    now: u64,
    threshold: u64,
    i: int,
)
    requires
        old(store).wf(),
        call_ensures(BookStore::evict_stale, (store, now, threshold), ()),
        0 <= i < 2,
    ensures
        final(store).books@[i] is Some <==> {
            &&& old(store).books@[i] is Some
            &&& now - old(store).books@[i]->0.decode_start <= threshold
        },
        final(store).books@[i] is Some ==> final(store).books@[i] == old(store).books@[i],
{
    assert(old(store)@[i] == old(store).books@[i]);
    assert(final(store)@[i] == final(store).books@[i]);
    assert(threshold >= 0);
}

/// After a book is taken in, the place of its exchange holds it and the other place
/// what it held, each unless it is more than five seconds old by then; and the
/// summary is the top ten of just these books.
pub proof fn law_on_book(books: &mut BookStore, book: OrderBook, now: u64, r: Summary, i: int)
    requires
        old(books).wf(),
        call_ensures(merger::on_book, (books, book, now), r),
        0 <= i < 2,
    ensures
        ({
            let slot = if book.exchange_id == i {
                Some(book)
            } else {
                old(books).books@[i]
            };
            final(books).books@[i] == if slot is Some && now - slot->0.decode_start
                <= 5_000_000_000 {
                slot
            } else {
                None
            }
        }),
        is_top_ten(
            Side::Bids,
            capped::contents(&r.bids),
            bids_of(final(books).books@[0]),
            bids_of(final(books).books@[1]),
        ),
        is_top_ten(
            Side::Asks,
            capped::contents(&r.asks),
            asks_of(final(books).books@[0]),
            asks_of(final(books).books@[1]),
        ),
        is_spread(r),
{
    assert(old(books)@[i] == old(books).books@[i]);
    assert(final(books)@[i] == final(books).books@[i]);
    let after = *final(books);
    assert forall|i: int| 0 <= i < 2 && #[trigger] after.books@[i] is Some implies
        after.books@[i]->0.exchange_id == i by {
        assert(after@[i] is Some);
    }
    lemma_summary_of_books(*final(books), r);
}

/// The merger goes on exactly while shutdown was not requested and some producer is
/// left.
pub proof fn law_poll(cancelled: bool, abandoned: &[bool], r: Poll)
    requires
        call_ensures(merger::next_poll, (cancelled, abandoned), r),
    ensures
        r is Look <==> !cancelled && exists|i: int|
            0 <= i < abandoned@.len() && !#[trigger] abandoned@[i],
        r is Cancelled <==> cancelled,
{
    if !cancelled && r is Look {
        let i = choose|i: int| 0 <= i < abandoned@.len() && !#[trigger] abandoned@[i];
        assert(!abandoned@[i]);
    }
}

/// A published summary counts as one merge, and its latency runs from the start of
/// decoding; nothing else is counted.
pub proof fn law_merge_is_counted(registry: &mut Metrics, decode_start: u64, now: u64)
    requires
        call_ensures(merger::count_merge, (registry, decode_start, now), ()),
    ensures
        final(registry).merges == (old(registry).merges + 1) % 0x1_0000_0000_0000_0000,
        final(registry).e2e_latency.count == (old(registry).e2e_latency.count + 1)
            % 0x1_0000_0000_0000_0000,
        final(registry).e2e_latency.sum_ns == (old(registry).e2e_latency.sum_ns + if now
            > decode_start {
            now - decode_start
        } else {
            0
        }) % 0x1_0000_0000_0000_0000,
        final(registry).merge_latency == old(registry).merge_latency,
        final(registry).exchanges == old(registry).exchanges,
        final(registry).start_time == old(registry).start_time,
{
}

/// The core for the merger is the last one online, where there is any.
pub proof fn law_last_core(cpus: i64, r: Option<u64>)
    requires
        call_ensures(merger::last_core, (cpus,), r),
    ensures
        r is Some <==> cpus >= 1,
        r is Some ==> r->0 + 1 == cpus,
{
}

/// A new store holds no book.
pub proof fn law_new_store(r: BookStore, d: BookStore, i: int)
    requires
        call_ensures(BookStore::new, (), r),
        call_ensures(BookStore::default, (), d),
        0 <= i < 2,
    ensures
        r.books@[i] is None,
        d.books@[i] is None,
{
    assert(r@[i] == r.books@[i]);
    assert(d@[i] == d.books@[i]);
}

} // verus!
