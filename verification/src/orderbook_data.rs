//! The merging engine: keeps the most recent depth snapshot per
//! exchange and computes the published top-N summary on every change.
use vstd::prelude::*;

use vstd::multiset::Multiset;

use crate::orderbook::ExchangeId;
use crate::orderbook::Level;
use crate::orderbook::OrderBookUpdate;
use crate::orderbook::Summary;
use crate::orderbook::TOP_N;
use crate::orderbook::sorted_asc;
use crate::orderbook::sorted_desc;
use crate::orderbook::spread_of;

verus! {

/// Ranking used on one side of the book: asks ascend, bids descend.
pub open spec fn ranked(a: Level, b: Level, asc: bool) -> bool {
    if asc {
        a.price <= b.price
    } else {
        a.price >= b.price
    }
}

pub open spec fn sorted_dir(s: Seq<Level>, asc: bool) -> bool {
    forall|i: int, j: int| 0 <= i <= j < s.len() ==> ranked(#[trigger] s[i], #[trigger] s[j], asc)
}

/// Where a level lands in a ranked sequence: after every element
/// already ranked at or before it, so equal prices keep their order.
pub open spec fn insert_pos(t: Seq<Level>, x: Level, asc: bool) -> int
    decreases t.len(),
{
    if t.len() == 0 {
        0
    } else if ranked(t.last(), x, asc) {
        t.len() as int
    } else {
        insert_pos(t.drop_last(), x, asc)
    }
}

pub open spec fn insert_sorted(t: Seq<Level>, x: Level, asc: bool) -> Seq<Level> {
    let p = insert_pos(t, x, asc);
    t.take(p) + seq![x] + t.skip(p)
}

/// Insertion sort, the deterministic ranking the summary publishes.
pub open spec fn spec_sort(s: Seq<Level>, asc: bool) -> Seq<Level>
    decreases s.len(),
{
    if s.len() == 0 {
        Seq::<Level>::empty()
    } else {
        insert_sorted(spec_sort(s.drop_last(), asc), s.last(), asc)
    }
}

proof fn lemma_insert_pos_bounds(t: Seq<Level>, x: Level, asc: bool)
    requires
        sorted_dir(t, asc),
    ensures
        0 <= insert_pos(t, x, asc) <= t.len(),
        forall|q: int| 0 <= q < insert_pos(t, x, asc) ==> ranked(#[trigger] t[q], x, asc),
        forall|q: int| insert_pos(t, x, asc) <= q < t.len() ==> !ranked(#[trigger] t[q], x, asc),
    decreases t.len(),
{
    if t.len() > 0 && !ranked(t.last(), x, asc) {
        assert(sorted_dir(t.drop_last(), asc));
        lemma_insert_pos_bounds(t.drop_last(), x, asc);
        assert(forall|q: int|
            0 <= q < t.len() - 1 ==> #[trigger] t[q] == t.drop_last()[q]);
    } else if t.len() > 0 {
        // The last element is ranked before `x` and, being sorted,
        // everything before it is too.
        assert forall|q: int| 0 <= q < t.len() implies ranked(#[trigger] t[q], x, asc) by {
            assert(ranked(t[q], t.last(), asc));
        }
    }
}

/// In a sorted sequence the insertion point splits ranked from
/// unranked, so inserting keeps it sorted.
proof fn lemma_insert_sorted(t: Seq<Level>, x: Level, asc: bool)
    requires
        sorted_dir(t, asc),
    ensures
        sorted_dir(insert_sorted(t, x, asc), asc),
        insert_sorted(t, x, asc).len() == t.len() + 1,
        insert_sorted(t, x, asc).to_multiset() == t.to_multiset().insert(x),
{
    lemma_insert_pos_bounds(t, x, asc);
    let p = insert_pos(t, x, asc);
    let r = insert_sorted(t, x, asc);
    assert forall|i: int, j: int| 0 <= i <= j < r.len() implies ranked(
        #[trigger] r[i],
        #[trigger] r[j],
        asc,
    ) by {
        if i < p {
            assert(r[i] == t[i]);
        }
        if j < p {
            assert(r[j] == t[j]);
        }
        if i > p {
            assert(r[i] == t[i - 1]);
        }
        if j > p {
            assert(r[j] == t[j - 1]);
            assert(!ranked(t[j - 1], x, asc));
        }
        if i == p {
            assert(r[i] == x);
        }
        if j == p {
            assert(r[j] == x);
        }
        // A later element not ranked before `x` is ranked after it:
        // prices are totally ordered.
    }
    assert(r.to_multiset() == t.to_multiset().insert(x)) by {
        broadcast use vstd::seq_lib::group_to_multiset_ensures;

        vstd::seq_lib::lemma_multiset_commutative(t.take(p) + seq![x], t.skip(p));
        vstd::seq_lib::lemma_multiset_commutative(t.take(p), seq![x]);
        vstd::seq_lib::lemma_multiset_commutative(t.take(p), t.skip(p));
        assert(t.take(p) + t.skip(p) =~= t);
        assert(seq![x] =~= Seq::<Level>::empty().push(x));
        assert(Seq::<Level>::empty().to_multiset().len() == 0);
        vstd::multiset::lemma_multiset_empty_len(Seq::<Level>::empty().to_multiset());
        assert(seq![x].to_multiset() =~= Multiset::<Level>::empty().insert(x));
        assert((t.take(p) + seq![x] + t.skip(p)).to_multiset() =~= t.to_multiset().insert(x));
    }
}

/// What the published ranking guarantees: same levels, ranked
/// best-first.
pub proof fn lemma_spec_sort(s: Seq<Level>, asc: bool)
    ensures
        sorted_dir(spec_sort(s, asc), asc),
        spec_sort(s, asc).len() == s.len(),
        spec_sort(s, asc).to_multiset() == s.to_multiset(),
    decreases s.len(),
{
    broadcast use vstd::seq_lib::group_to_multiset_ensures;

    if s.len() > 0 {
        lemma_spec_sort(s.drop_last(), asc);
        lemma_insert_sorted(spec_sort(s.drop_last(), asc), s.last(), asc);
        assert(s =~= s.drop_last().push(s.last()));
    }
}

/// A ranking check the sorter uses.
fn ranked_at(a: &Level, b: &Level, asc: bool) -> (r: bool)
    ensures
        r == ranked(*a, *b, asc),
{
    if asc {
        a.price <= b.price
    } else {
        a.price >= b.price
    }
}

/// Sorts levels in place into the published ranking: insertion sort,
/// exactly the ranking `spec_sort` defines.
#[verifier::loop_isolation(false)]
#[verifier::rlimit(50)]
fn sort_levels(v: &mut Vec<Level>, asc: bool)
    ensures
        final(v)@ == spec_sort(old(v)@, asc),
{
    let ghost orig = v@;
    if v.len() <= 1 {
        proof {
            if orig.len() == 1 {
                assert(orig.drop_last() =~= Seq::<Level>::empty());
                let t = spec_sort(orig.drop_last(), asc);
                assert(t.take(0) =~= Seq::<Level>::empty());
                assert(t.skip(0) =~= Seq::<Level>::empty());
                assert(spec_sort(orig, asc) =~= orig);
            } else {
                assert(orig =~= Seq::<Level>::empty());
            }
        }
        return ;
    }
    let mut i: usize = 1;
    proof {
        assert(orig.take(1).drop_last() =~= Seq::<Level>::empty());
        let t = spec_sort(Seq::<Level>::empty(), asc);
        assert(t.take(0) =~= Seq::<Level>::empty());
        assert(t.skip(0) =~= Seq::<Level>::empty());
        assert(spec_sort(orig.take(1), asc) =~= orig.take(1));
        assert(v@ =~= spec_sort(orig.take(1), asc) + orig.skip(1));
    }
    while i < v.len()
        invariant
            1 <= i <= orig.len(),
            v@.len() == orig.len(),
            v@ == spec_sort(orig.take(i as int), asc) + orig.skip(i as int),
        decreases orig.len() - i,
    {
        let ghost t = spec_sort(orig.take(i as int), asc);
        proof {
            lemma_spec_sort(orig.take(i as int), asc);
            assert(v@[i as int] == orig.skip(i as int)[0]);
        }
        let x = v[i];
        proof {
            assert(t.take(i as int) =~= t);
        }
        let mut p: usize = i;
        while p > 0 && !ranked_at(&v[p - 1], &x, asc)
            invariant
                0 <= p <= i,
                insert_pos(t, x, asc) == insert_pos(t.take(p as int), x, asc),
            decreases p,
        {
            proof {
                assert(t.take(p as int).drop_last() =~= t.take(p - 1));
                assert(t.take(p as int).last() == v@[p - 1]);
            }
            p = p - 1;
        }
        proof {
            if p > 0 {
                assert(t.take(p as int).last() == v@[p - 1]);
                assert(insert_pos(t.take(p as int), x, asc) == p);
            } else {
                assert(t.take(0) =~= Seq::<Level>::empty());
            }
            assert(insert_pos(t, x, asc) == p);
        }
        let y = v.remove(i);
        v.insert(p, y);
        proof {
            let next = orig.take(i + 1);
            assert(next.drop_last() =~= orig.take(i as int));
            assert(next.last() == orig[i as int]);
            assert(y == orig[i as int]);
            assert(v@ =~= insert_sorted(t, y, asc) + orig.skip(i + 1));
        }
        i = i + 1;
    }
    proof {
        assert(orig.take(orig.len() as int) =~= orig);
        assert(orig.skip(orig.len() as int) =~= Seq::<Level>::empty());
        assert(v@ =~= spec_sort(orig, asc));
    }
}

/// All bid levels currently contributed, in storage order.
pub open spec fn all_bids(s: Seq<OrderBookUpdate>) -> Seq<Level>
    decreases s.len(),
{
    if s.len() == 0 {
        Seq::<Level>::empty()
    } else {
        s.first().bids@ + all_bids(s.drop_first())
    }
}

/// All ask levels currently contributed, in storage order.
pub open spec fn all_asks(s: Seq<OrderBookUpdate>) -> Seq<Level>
    decreases s.len(),
{
    if s.len() == 0 {
        Seq::<Level>::empty()
    } else {
        s.first().asks@ + all_asks(s.drop_first())
    }
}

/// Appending one exchange's snapshot appends its levels.
proof fn lemma_all_sides_push(s: Seq<OrderBookUpdate>, u: OrderBookUpdate)
    ensures
        all_bids(s.push(u)) == all_bids(s) + u.bids@,
        all_asks(s.push(u)) == all_asks(s) + u.asks@,
    decreases s.len(),
{
    if s.len() == 0 {
        assert(s.push(u).drop_first() =~= Seq::<OrderBookUpdate>::empty());
        assert(s.push(u).first() == u);
        assert(all_bids(s.push(u)) == u.bids@ + all_bids(s.push(u).drop_first()));
        assert(all_asks(s.push(u)) == u.asks@ + all_asks(s.push(u).drop_first()));
        assert(all_bids(s.push(u)) =~= all_bids(s) + u.bids@);
        assert(all_asks(s.push(u)) =~= all_asks(s) + u.asks@);
    } else {
        lemma_all_sides_push(s.drop_first(), u);
        assert(s.push(u).drop_first() =~= s.drop_first().push(u));
        assert(s.push(u).first() == s.first());
        assert(all_bids(s.push(u)) == s.first().bids@ + all_bids(s.drop_first().push(u)));
        assert(all_bids(s.push(u)) == s.first().bids@ + (all_bids(s.drop_first()) + u.bids@));
        assert(all_bids(s) == s.first().bids@ + all_bids(s.drop_first()));
        assert(all_bids(s.push(u)) =~= all_bids(s) + u.bids@);
        assert(all_asks(s.push(u)) == s.first().asks@ + all_asks(s.drop_first().push(u)));
        assert(all_asks(s.push(u)) == s.first().asks@ + (all_asks(s.drop_first()) + u.asks@));
        assert(all_asks(s) == s.first().asks@ + all_asks(s.drop_first()));
        assert(all_asks(s.push(u)) =~= all_asks(s) + u.asks@);
    }
}

/// Entries are individually well formed and name distinct exchanges.
pub open spec fn entries_wf(s: Seq<OrderBookUpdate>) -> bool {
    &&& forall|i: int| 0 <= i < s.len() ==> (#[trigger] s[i]).wf()
    &&& forall|i: int, j: int| 0 <= i < j < s.len() ==> s[i].exchange != s[j].exchange
}

/// First entry for an exchange, or -1 where there is none.
pub open spec fn find_index(s: Seq<OrderBookUpdate>, ex: ExchangeId) -> int
    decreases s.len(),
{
    if s.len() == 0 {
        -1
    } else if s.first().exchange == ex {
        0
    } else {
        let r = find_index(s.drop_first(), ex);
        if r == -1 {
            -1
        } else {
            r + 1
        }
    }
}

/// What receiving one update does to the stored state: replace the
/// exchange's entry, or add one.
pub open spec fn spec_upsert(s: Seq<OrderBookUpdate>, u: OrderBookUpdate) -> Seq<OrderBookUpdate> {
    let i = find_index(s, u.exchange);
    if i == -1 {
        s.push(u)
    } else {
        s.update(i, u)
    }
}

proof fn lemma_find_index_props(s: Seq<OrderBookUpdate>, ex: ExchangeId)
    ensures
        -1 <= find_index(s, ex) < s.len(),
        find_index(s, ex) >= 0 ==> s[find_index(s, ex)].exchange == ex,
        find_index(s, ex) == -1 ==> forall|j: int|
            0 <= j < s.len() ==> (#[trigger] s[j]).exchange != ex,
        forall|j: int| 0 <= j < find_index(s, ex) ==> (#[trigger] s[j]).exchange != ex,
    decreases s.len(),
{
    if s.len() > 0 && s.first().exchange != ex {
        lemma_find_index_props(s.drop_first(), ex);
        let r = find_index(s.drop_first(), ex);
        if r == -1 {
            assert forall|j: int| 0 <= j < s.len() implies (#[trigger] s[j]).exchange != ex by {
                if j >= 1 {
                    assert(s[j] == s.drop_first()[j - 1]);
                }
            }
        } else {
            assert(s[r + 1] == s.drop_first()[r]);
            assert forall|j: int| 0 <= j < find_index(s, ex) implies (#[trigger] s[j]).exchange
                != ex by {
                if j >= 1 {
                    assert(s[j] == s.drop_first()[j - 1]);
                }
            }
        }
    }
}

/// Pins `find_index` from a scan that matched at `i` (or ran out).
proof fn lemma_find_index_from(s: Seq<OrderBookUpdate>, ex: ExchangeId, i: int)
    requires
        0 <= i <= s.len(),
        forall|j: int| 0 <= j < i ==> (#[trigger] s[j]).exchange != ex,
        i < s.len() ==> s[i].exchange == ex,
    ensures
        find_index(s, ex) == if i < s.len() {
            i
        } else {
            -1
        },
    decreases i,
{
    if i == 0 {
    } else {
        assert(s.first().exchange != ex);
        assert(forall|j: int| 1 <= j < s.len() ==> s[j] == (#[trigger] s.drop_first()[j - 1]));
        lemma_find_index_from(s.drop_first(), ex, i - 1);
    }
}

/// The merged artifact's bid side: everything contributed, ranked
/// best-first, cut to the top `TOP_N`.
pub open spec fn top_n(s: Seq<Level>) -> Seq<Level> {
    if s.len() <= TOP_N {
        s
    } else {
        s.take(TOP_N as int)
    }
}

pub open spec fn spec_summary_bids(s: Seq<OrderBookUpdate>) -> Seq<Level> {
    top_n(spec_sort(all_bids(s), false))
}

pub open spec fn spec_summary_asks(s: Seq<OrderBookUpdate>) -> Seq<Level> {
    top_n(spec_sort(all_asks(s), true))
}

pub open spec fn spec_summary_spread(s: Seq<OrderBookUpdate>) -> int {
    spread_of(spec_summary_bids(s), spec_summary_asks(s))
}

/// Every level contributed by a well-formed state is well formed.
proof fn lemma_all_sides_wf(s: Seq<OrderBookUpdate>)
    requires
        entries_wf(s),
    ensures
        forall|i: int| 0 <= i < all_bids(s).len() ==> (#[trigger] all_bids(s)[i]).wf(),
        forall|i: int| 0 <= i < all_asks(s).len() ==> (#[trigger] all_asks(s)[i]).wf(),
    decreases s.len(),
{
    if s.len() > 0 {
        assert(s.first().wf());
        assert(entries_wf(s.drop_first())) by {
            assert(forall|j: int|
                0 <= j < s.len() - 1 ==> (#[trigger] s.drop_first()[j]) == s[j + 1]);
        }
        lemma_all_sides_wf(s.drop_first());
        assert forall|i: int| 0 <= i < all_bids(s).len() implies (#[trigger] all_bids(
            s,
        )[i]).wf() by {
            if i < s.first().bids@.len() {
                assert(all_bids(s)[i] == s.first().bids@[i]);
                assert(s[0].wf());
            } else {
                assert(all_bids(s)[i] == all_bids(s.drop_first())[i - s.first().bids@.len()]);
            }
        }
        assert forall|i: int| 0 <= i < all_asks(s).len() implies (#[trigger] all_asks(
            s,
        )[i]).wf() by {
            if i < s.first().asks@.len() {
                assert(all_asks(s)[i] == s.first().asks@[i]);
                assert(s[0].wf());
            } else {
                assert(all_asks(s)[i] == all_asks(s.drop_first())[i - s.first().asks@.len()]);
            }
        }
    }
}

/// Maintains the last order-book snapshot for any number of exchanges,
/// so that a summary with the top levels across all of them can be
/// produced at any time.
pub struct OrderBookData {
    exchange_data: Vec<OrderBookUpdate>,
}

impl View for OrderBookData {
    type V = Seq<OrderBookUpdate>;

    closed spec fn view(&self) -> Seq<OrderBookUpdate> {
        self.exchange_data@
    }
}

impl Default for OrderBookData {
    /// A state in which no exchange has reported yet.
    fn default() -> (r: OrderBookData)
        ensures
            r@ == Seq::<OrderBookUpdate>::empty(),
            r.wf(),
    {
        OrderBookData { exchange_data: Vec::new() }
    }
}

impl OrderBookData {
    pub open spec fn wf(self) -> bool {
        entries_wf(self@)
    }

    /// Replaces the stored data for the update's exchange (adding the
    /// exchange on first sight).  An empty update therefore clears the
    /// exchange's contribution.
    #[verifier::loop_isolation(false)]
    pub fn update_exchange_data(&mut self, update: OrderBookUpdate)
        requires
            old(self).wf(),
            update.wf(),
        ensures
            final(self).wf(),
            final(self)@ == spec_upsert(old(self)@, update),
    {
        let ghost s = self@;
        let mut i: usize = 0;
        while i < self.exchange_data.len()
            invariant
                0 <= i <= s.len(),
                self@ == s,
                s.len() == self.exchange_data@.len(),
                entries_wf(s),
                update.wf(),
                forall|j: int| 0 <= j < i ==> (#[trigger] s[j]).exchange != update.exchange,
            decreases s.len() - i,
        {
            if self.exchange_data[i].exchange == update.exchange {
                proof {
                    lemma_find_index_from(s, update.exchange, i as int);
                }
                let _ = self.exchange_data.remove(i);
                self.exchange_data.insert(i, update);
                proof {
                    assert(self@ =~= s.update(i as int, update));
                    assert forall|a: int, b: int|
                        0 <= a < b < self@.len() implies self@[a].exchange
                        != self@[b].exchange by {
                        if a != i && b != i {
                            assert(self@[a] == s[a] && self@[b] == s[b]);
                        } else if a == i {
                            assert(self@[b] == s[b] && s[a].exchange == update.exchange);
                        } else {
                            assert(self@[a] == s[a] && s[b].exchange == update.exchange);
                        }
                    }
                }
                return ;
            }
            i = i + 1;
        }
        proof {
            lemma_find_index_from(s, update.exchange, s.len() as int);
        }
        self.exchange_data.push(update);
        proof {
            assert forall|a: int, b: int|
                0 <= a < b < self@.len() implies self@[a].exchange != self@[b].exchange by {
                if b < s.len() {
                    assert(self@[a] == s[a] && self@[b] == s[b]);
                } else {
                    assert(self@[a] == s[a] && self@[b] == update);
                }
            }
        }
    }

    /// The published view: the best `TOP_N` bids and asks across every
    /// exchange currently contributing, and the spread between the two
    /// tops.  The result is exactly what the `spec_summary` functions
    /// denote on the current state.
    #[verifier::loop_isolation(false)]
    #[verifier::rlimit(50)]
    pub fn summary(&self) -> (r: Summary)
        requires
            self.wf(),
        ensures
            r.bids@ == spec_summary_bids(self@),
            r.asks@ == spec_summary_asks(self@),
            r.spread == spec_summary_spread(self@),
            r.wf(),
    {
        let mut bids: Vec<Level> = Vec::new();
        let mut asks: Vec<Level> = Vec::new();
        let mut i: usize = 0;
        proof {
            assert(self@.take(0) =~= Seq::<OrderBookUpdate>::empty());
        }
        while i < self.exchange_data.len()
            invariant
                0 <= i <= self@.len(),
                bids@ == all_bids(self@.take(i as int)),
                asks@ == all_asks(self@.take(i as int)),
            decreases self@.len() - i,
        {
            let entry = &self.exchange_data[i];
            let ghost prev_b = bids@;
            let ghost prev_a = asks@;
            let mut j: usize = 0;
            proof {
                assert(entry.bids@.take(0) =~= Seq::<Level>::empty());
                assert(bids@ =~= prev_b + entry.bids@.take(0));
            }
            while j < entry.bids.len()
                invariant
                    0 <= j <= entry.bids@.len(),
                    bids@ == prev_b + entry.bids@.take(j as int),
                decreases entry.bids@.len() - j,
            {
                bids.push(entry.bids[j]);
                proof {
                    assert(entry.bids@.take(j + 1) =~= entry.bids@.take(j as int).push(
                        entry.bids@[j as int],
                    ));
                    assert(bids@ =~= prev_b + entry.bids@.take(j + 1));
                }
                j = j + 1;
            }
            let mut j2: usize = 0;
            proof {
                assert(entry.asks@.take(0) =~= Seq::<Level>::empty());
                assert(asks@ =~= prev_a + entry.asks@.take(0));
            }
            while j2 < entry.asks.len()
                invariant
                    0 <= j2 <= entry.asks@.len(),
                    asks@ == prev_a + entry.asks@.take(j2 as int),
                decreases entry.asks@.len() - j2,
            {
                asks.push(entry.asks[j2]);
                proof {
                    assert(entry.asks@.take(j2 + 1) =~= entry.asks@.take(j2 as int).push(
                        entry.asks@[j2 as int],
                    ));
                    assert(asks@ =~= prev_a + entry.asks@.take(j2 + 1));
                }
                j2 = j2 + 1;
            }
            proof {
                lemma_all_sides_push(self@.take(i as int), self@[i as int]);
                assert(self@.take(i + 1) =~= self@.take(i as int).push(self@[i as int]));
                assert(entry.bids@.take(entry.bids@.len() as int) =~= entry.bids@);
                assert(entry.asks@.take(entry.asks@.len() as int) =~= entry.asks@);
                assert(bids@ =~= all_bids(self@.take(i + 1)));
                assert(asks@ =~= all_asks(self@.take(i + 1)));
            }
            i = i + 1;
        }
        proof {
            assert(self@.take(self@.len() as int) =~= self@);
        }
        let ghost ab = all_bids(self@);
        let ghost aa = all_asks(self@);
        sort_levels(&mut bids, false);
        sort_levels(&mut asks, true);
        proof {
            lemma_spec_sort(ab, false);
            lemma_spec_sort(aa, true);
            lemma_all_sides_wf(self@);
            lemma_sorted_levels_wf(ab, bids@);
            lemma_sorted_levels_wf(aa, asks@);
        }
        if bids.len() > TOP_N {
            bids.truncate(TOP_N);
        }
        if asks.len() > TOP_N {
            asks.truncate(TOP_N);
        }
        proof {
            assert(bids@ == top_n(spec_sort(ab, false)));
            assert(asks@ == top_n(spec_sort(aa, true)));
            lemma_sorted_dir_restrict(spec_sort(ab, false), bids@, false);
            lemma_sorted_dir_restrict(spec_sort(aa, true), asks@, true);
        }
        let spread: i64 = if bids.len() > 0 && asks.len() > 0 {
            (asks[0].price as i64) - (bids[0].price as i64)
        } else {
            0
        };
        Summary { spread, bids, asks }
    }
}

/// A prefix of a ranked sequence is ranked, descending prefixes stay
/// descending and ascending ones ascending.
proof fn lemma_sorted_dir_restrict(s: Seq<Level>, p: Seq<Level>, asc: bool)
    requires
        sorted_dir(s, asc),
        p == top_n(s),
    ensures
        asc ==> sorted_asc(p),
        !asc ==> sorted_desc(p),
{
    assert forall|i: int, j: int| 0 <= i <= j < p.len() implies ranked(
        #[trigger] p[i],
        #[trigger] p[j],
        asc,
    ) by {
        assert(p[i] == s[i] && p[j] == s[j]);
    }
}

/// Levels of a sorted copy are levels of the original, so they inherit
/// its well-formedness.
proof fn lemma_sorted_levels_wf(orig: Seq<Level>, sorted: Seq<Level>)
    requires
        sorted.to_multiset() == orig.to_multiset(),
        forall|i: int| 0 <= i < orig.len() ==> (#[trigger] orig[i]).wf(),
    ensures
        forall|i: int| 0 <= i < sorted.len() ==> (#[trigger] sorted[i]).wf(),
{
    broadcast use vstd::seq_lib::group_to_multiset_ensures;

    assert forall|i: int| 0 <= i < sorted.len() implies (#[trigger] sorted[i]).wf() by {
        assert(sorted.contains(sorted[i]));
        assert(orig.to_multiset().count(sorted[i]) > 0);
        assert(orig.contains(sorted[i]));
        let k = choose|k: int| 0 <= k < orig.len() && orig[k] == sorted[i];
        assert(orig[k].wf());
    }
}

/// Storing a well-formed update keeps the state well formed.
pub proof fn lemma_upsert_wf(s: Seq<OrderBookUpdate>, u: OrderBookUpdate)
    requires
        entries_wf(s),
        u.wf(),
    ensures
        entries_wf(spec_upsert(s, u)),
{
    lemma_find_index_props(s, u.exchange);
    let idx = find_index(s, u.exchange);
    let s2 = spec_upsert(s, u);
    if idx == -1 {
        assert forall|a: int, b: int| 0 <= a < b < s2.len() implies s2[a].exchange
            != s2[b].exchange by {
            if b < s.len() {
                assert(s2[a] == s[a] && s2[b] == s[b]);
            } else {
                assert(s2[a] == s[a] && s2[b] == u);
            }
        }
    } else {
        assert forall|a: int, b: int| 0 <= a < b < s2.len() implies s2[a].exchange
            != s2[b].exchange by {
            if a != idx && b != idx {
                assert(s2[a] == s[a] && s2[b] == s[b]);
            } else if a == idx {
                assert(s2[b] == s[b] && s[a].exchange == u.exchange);
            } else {
                assert(s2[a] == s[a] && s[b].exchange == u.exchange);
            }
        }
    }
}

/// Feeding the same update twice in succession leaves the state where
/// the first feeding put it, so the two publications built from these
/// states carry identical content.
pub proof fn lemma_duplicate_update_idempotent(s: Seq<OrderBookUpdate>, u: OrderBookUpdate)
    requires
        entries_wf(s),
        u.wf(),
    ensures
        spec_upsert(spec_upsert(s, u), u) == spec_upsert(s, u),
{
    lemma_find_index_props(s, u.exchange);
    let idx = find_index(s, u.exchange);
    let s2 = spec_upsert(s, u);
    if idx == -1 {
        lemma_find_index_from(s2, u.exchange, s.len() as int);
        assert(spec_upsert(s2, u) =~= s2);
    } else {
        assert forall|j: int| 0 <= j < idx implies (#[trigger] s2[j]).exchange != u.exchange by {
            assert(s2[j] == s[j]);
        }
        lemma_find_index_from(s2, u.exchange, idx);
        assert(spec_upsert(s2, u) =~= s2);
    }
}

/// A level of the published top is a level of the merged input.
proof fn lemma_top_elem_in_all(a: Seq<Level>, asc: bool)
    ensures
        forall|i: int|
            0 <= i < top_n(spec_sort(a, asc)).len() ==> a.contains(
                #[trigger] top_n(spec_sort(a, asc))[i],
            ),
{
    broadcast use vstd::seq_lib::group_to_multiset_ensures;

    let t = spec_sort(a, asc);
    lemma_spec_sort(a, asc);
    assert forall|i: int| 0 <= i < top_n(t).len() implies a.contains(#[trigger] top_n(t)[i]) by {
        assert(top_n(t)[i] == t[i]);
        assert(t.contains(t[i]));
        assert(a.to_multiset().count(t[i]) > 0);
    }
}

/// Whether some stored snapshot for the level's own exchange carries
/// this level on its bid side.
pub open spec fn level_originates_bid(s: Seq<OrderBookUpdate>, l: Level) -> bool {
    exists|j: int| 0 <= j < s.len() && (#[trigger] s[j]).exchange == l.exchange
        && s[j].bids@.contains(l)
}

/// The ask-side counterpart of `level_originates_bid`.
pub open spec fn level_originates_ask(s: Seq<OrderBookUpdate>, l: Level) -> bool {
    exists|j: int| 0 <= j < s.len() && (#[trigger] s[j]).exchange == l.exchange
        && s[j].asks@.contains(l)
}

proof fn lemma_all_sides_origin(s: Seq<OrderBookUpdate>)
    requires
        entries_wf(s),
    ensures
        forall|i: int|
            0 <= i < all_bids(s).len() ==> level_originates_bid(s, #[trigger] all_bids(s)[i]),
        forall|i: int|
            0 <= i < all_asks(s).len() ==> level_originates_ask(s, #[trigger] all_asks(s)[i]),
    decreases s.len(),
{
    if s.len() > 0 {
        assert(entries_wf(s.drop_first())) by {
            assert(forall|j: int|
                0 <= j < s.len() - 1 ==> (#[trigger] s.drop_first()[j]) == s[j + 1]);
        }
        lemma_all_sides_origin(s.drop_first());
        assert forall|i: int| 0 <= i < all_bids(s).len() implies level_originates_bid(
            s,
            #[trigger] all_bids(s)[i],
        ) by {
            let l = all_bids(s)[i];
            if i < s.first().bids@.len() {
                assert(l == s.first().bids@[i]);
                assert(s[0].wf());
                assert(s[0].bids@.contains(l));
                assert(s[0].exchange == l.exchange);
            } else {
                let i2 = i - s.first().bids@.len();
                assert(l == all_bids(s.drop_first())[i2]);
                assert(level_originates_bid(s.drop_first(), l));
                let j = choose|j: int|
                    0 <= j < s.drop_first().len() && (#[trigger] s.drop_first()[j]).exchange
                        == l.exchange && s.drop_first()[j].bids@.contains(l);
                assert(s[j + 1] == s.drop_first()[j]);
            }
        }
        assert forall|i: int| 0 <= i < all_asks(s).len() implies level_originates_ask(
            s,
            #[trigger] all_asks(s)[i],
        ) by {
            let l = all_asks(s)[i];
            if i < s.first().asks@.len() {
                assert(l == s.first().asks@[i]);
                assert(s[0].wf());
                assert(s[0].asks@.contains(l));
                assert(s[0].exchange == l.exchange);
            } else {
                let i2 = i - s.first().asks@.len();
                assert(l == all_asks(s.drop_first())[i2]);
                assert(level_originates_ask(s.drop_first(), l));
                let j = choose|j: int|
                    0 <= j < s.drop_first().len() && (#[trigger] s.drop_first()[j]).exchange
                        == l.exchange && s.drop_first()[j].asks@.contains(l);
                assert(s[j + 1] == s.drop_first()[j]);
            }
        }
    }
}

/// Every level a summary publishes originated from a stored update of
/// the very exchange the level names: provenance survives the merge.
pub proof fn lemma_summary_levels_originate(s: Seq<OrderBookUpdate>)
    requires
        entries_wf(s),
    ensures
        forall|i: int|
            0 <= i < spec_summary_bids(s).len() ==> level_originates_bid(
                s,
                #[trigger] spec_summary_bids(s)[i],
            ),
        forall|i: int|
            0 <= i < spec_summary_asks(s).len() ==> level_originates_ask(
                s,
                #[trigger] spec_summary_asks(s)[i],
            ),
{
    lemma_all_sides_origin(s);
    lemma_top_elem_in_all(all_bids(s), false);
    lemma_top_elem_in_all(all_asks(s), true);
    assert forall|i: int| 0 <= i < spec_summary_bids(s).len() implies level_originates_bid(
        s,
        #[trigger] spec_summary_bids(s)[i],
    ) by {
        let l = spec_summary_bids(s)[i];
        assert(all_bids(s).contains(l));
        let k = choose|k: int| 0 <= k < all_bids(s).len() && all_bids(s)[k] == l;
        assert(level_originates_bid(s, all_bids(s)[k]));
    }
    assert forall|i: int| 0 <= i < spec_summary_asks(s).len() implies level_originates_ask(
        s,
        #[trigger] spec_summary_asks(s)[i],
    ) by {
        let l = spec_summary_asks(s)[i];
        assert(all_asks(s).contains(l));
        let k = choose|k: int| 0 <= k < all_asks(s).len() && all_asks(s)[k] == l;
        assert(level_originates_ask(s, all_asks(s)[k]));
    }
}

/// After an exchange is cleared by its empty sentinel, no published
/// level names that exchange until it reports depth again.
pub proof fn lemma_clear_removes_exchange(s: Seq<OrderBookUpdate>, u: OrderBookUpdate)
    requires
        entries_wf(s),
        u.wf(),
        u.is_empty_update(),
    ensures
        forall|i: int|
            0 <= i < spec_summary_bids(spec_upsert(s, u)).len() ==> (
            #[trigger] spec_summary_bids(spec_upsert(s, u))[i]).exchange != u.exchange,
        forall|i: int|
            0 <= i < spec_summary_asks(spec_upsert(s, u)).len() ==> (
            #[trigger] spec_summary_asks(spec_upsert(s, u))[i]).exchange != u.exchange,
{
    lemma_find_index_props(s, u.exchange);
    lemma_upsert_wf(s, u);
    let s2 = spec_upsert(s, u);
    let idx = find_index(s, u.exchange);
    assert forall|j: int| 0 <= j < s2.len() && (#[trigger] s2[j]).exchange == u.exchange implies
        s2[j].bids@.len() == 0 && s2[j].asks@.len() == 0 by {
        if idx == -1 {
            if j < s.len() {
                assert(s2[j] == s[j]);
            } else {
                assert(s2[j] == u);
            }
        } else {
            if j != idx {
                assert(s2[j] == s[j]);
                assert(s[idx].exchange == u.exchange);
            } else {
                assert(s2[j] == u);
            }
        }
    }
    lemma_summary_levels_originate(s2);
    assert forall|i: int| 0 <= i < spec_summary_bids(s2).len() implies (
    #[trigger] spec_summary_bids(s2)[i]).exchange != u.exchange by {
        let l = spec_summary_bids(s2)[i];
        assert(level_originates_bid(s2, l));
        let j = choose|j: int|
            0 <= j < s2.len() && (#[trigger] s2[j]).exchange == l.exchange
                && s2[j].bids@.contains(l);
        if l.exchange == u.exchange {
            assert(s2[j].bids@.len() == 0);
        }
    }
    assert forall|i: int| 0 <= i < spec_summary_asks(s2).len() implies (
    #[trigger] spec_summary_asks(s2)[i]).exchange != u.exchange by {
        let l = spec_summary_asks(s2)[i];
        assert(level_originates_ask(s2, l));
        let j = choose|j: int|
            0 <= j < s2.len() && (#[trigger] s2[j]).exchange == l.exchange
                && s2[j].asks@.contains(l);
        if l.exchange == u.exchange {
            assert(s2[j].asks@.len() == 0);
        }
    }
}

/// What one published side guarantees relative to the pool it was cut
/// from: a ranked selection, never larger than `TOP_N`, whole when the
/// pool is small, and cut exactly at the ranked boundary: nothing left
/// out ranks before anything kept.
proof fn lemma_top_cut(a: Seq<Level>, asc: bool)
    ensures
        top_n(spec_sort(a, asc)).len() == if a.len() <= TOP_N {
            a.len() as int
        } else {
            TOP_N as int
        },
        top_n(spec_sort(a, asc)).to_multiset().subset_of(a.to_multiset()),
        a.len() <= TOP_N ==> top_n(spec_sort(a, asc)).to_multiset() == a.to_multiset(),
        forall|l: Level|
            a.to_multiset().count(l) > top_n(spec_sort(a, asc)).to_multiset().count(l)
                ==> forall|i: int|
                0 <= i < top_n(spec_sort(a, asc)).len() ==> ranked(
                    #[trigger] top_n(spec_sort(a, asc))[i],
                    l,
                    asc,
                ),
{
    broadcast use vstd::seq_lib::group_to_multiset_ensures;

    let t = spec_sort(a, asc);
    let p = top_n(t);
    lemma_spec_sort(a, asc);
    if t.len() <= TOP_N {
        assert(p == t);
        assert forall|m: Multiset<Level>| m == a.to_multiset() implies m.subset_of(
            a.to_multiset(),
        ) by {}
        assert(p.to_multiset().subset_of(a.to_multiset()));
        assert forall|l: Level|
            a.to_multiset().count(l) > p.to_multiset().count(l) implies false by {}
    } else {
        assert(p == t.take(TOP_N as int));
        let rest = t.skip(TOP_N as int);
        vstd::seq_lib::lemma_multiset_commutative(p, rest);
        assert(p + rest =~= t);
        assert(t.to_multiset() == p.to_multiset().add(rest.to_multiset()));
        assert(p.to_multiset().subset_of(a.to_multiset()));
        assert forall|l: Level|
            a.to_multiset().count(l) > p.to_multiset().count(l) implies forall|i: int|
            0 <= i < p.len() ==> ranked(#[trigger] p[i], l, asc) by {
            assert(rest.to_multiset().count(l) > 0);
            assert(rest.contains(l));
            let m = choose|m: int| 0 <= m < rest.len() && rest[m] == l;
            assert(t[TOP_N + m] == l);
            assert forall|i: int| 0 <= i < p.len() implies ranked(#[trigger] p[i], l, asc) by {
                assert(p[i] == t[i]);
                assert(ranked(t[i], t[TOP_N + m], asc));
            }
        }
    }
}

/// The published bounds a summary owes: at most `TOP_N` a side, all of
/// the pool when the pool fits, and the best-ranked part of it when it
/// does not.
pub proof fn lemma_summary_properties(s: Seq<OrderBookUpdate>)
    requires
        entries_wf(s),
    ensures
        spec_summary_bids(s).len() <= TOP_N,
        spec_summary_asks(s).len() <= TOP_N,
        all_bids(s).len() <= TOP_N ==> spec_summary_bids(s).to_multiset() == all_bids(
            s,
        ).to_multiset(),
        all_asks(s).len() <= TOP_N ==> spec_summary_asks(s).to_multiset() == all_asks(
            s,
        ).to_multiset(),
        all_bids(s).len() > TOP_N ==> spec_summary_bids(s).len() == TOP_N,
        all_asks(s).len() > TOP_N ==> spec_summary_asks(s).len() == TOP_N,
        spec_summary_bids(s).to_multiset().subset_of(all_bids(s).to_multiset()),
        spec_summary_asks(s).to_multiset().subset_of(all_asks(s).to_multiset()),
        sorted_desc(spec_summary_bids(s)),
        sorted_asc(spec_summary_asks(s)),
        forall|l: Level|
            all_bids(s).to_multiset().count(l) > spec_summary_bids(s).to_multiset().count(l)
                ==> forall|i: int|
                0 <= i < spec_summary_bids(s).len() ==> (#[trigger] spec_summary_bids(
                    s,
                )[i]).price >= l.price,
        forall|l: Level|
            all_asks(s).to_multiset().count(l) > spec_summary_asks(s).to_multiset().count(l)
                ==> forall|i: int|
                0 <= i < spec_summary_asks(s).len() ==> (#[trigger] spec_summary_asks(
                    s,
                )[i]).price <= l.price,
{
    lemma_top_cut(all_bids(s), false);
    lemma_top_cut(all_asks(s), true);
    lemma_spec_sort(all_bids(s), false);
    lemma_spec_sort(all_asks(s), true);
    lemma_sorted_dir_restrict(spec_sort(all_bids(s), false), spec_summary_bids(s), false);
    lemma_sorted_dir_restrict(spec_sort(all_asks(s), true), spec_summary_asks(s), true);
}

} // verus!
