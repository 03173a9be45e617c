//! One side's limit levels: a vector kept best price first, searched by
//! binary search with the side's comparator.
use vstd::prelude::*;
use crate::order::MakerOrder;
use crate::order_price::OrderPrice;
use crate::price_level::PriceLevel;
use crate::queue::{has_id, ids_unique, lemma_without_present, order_with_id, without_id};
use crate::side::Side;

verus! {

/// Whether price `a` is more competitive than price `b` on `side`: a higher
/// bid, a lower ask. The one comparator every search and insertion uses.
pub open spec fn better(side: Side, a: i64, b: i64) -> bool {
    match side {
        Side::Buy => a > b,
        Side::Sell => a < b,
    }
}

pub fn is_better(side: Side, a: i64, b: i64) -> (r: bool)
    ensures
        r == better(side, a, b),
{
    match side {
        Side::Buy => a > b,
        Side::Sell => a < b,
    }
}

/// The limit price of a level (levels on a side's price list are all limit
/// levels).
pub open spec fn limit_of(l: PriceLevel) -> i64 {
    match l.level_price() {
        OrderPrice::Limit(p) => p,
        OrderPrice::Market => 0,
    }
}

/// A side's price list: every level well formed, at a limit price and holding
/// an order, and the levels strictly best price first, so no price twice.
pub open spec fn levels_ok(side: Side, ls: Seq<PriceLevel>) -> bool {
    &&& forall|i: int|
        0 <= i < ls.len() ==> (#[trigger] ls[i]).wf() && ls[i].level_price() is Limit && ls[i].orders().len()
            > 0
    &&& forall|i: int, j: int|
        0 <= i < j < ls.len() ==> better(side, limit_of(#[trigger] ls[i]), limit_of(#[trigger] ls[j]))
}

pub open spec fn has_level(ls: Seq<PriceLevel>, p: i64) -> bool {
    exists|i: int| 0 <= i < ls.len() && (#[trigger] ls[i]).level_price() == OrderPrice::Limit(p)
}

/// The queue of each price that has a level in `ls`.
pub open spec fn levels_map(ls: Seq<PriceLevel>) -> Map<i64, Seq<MakerOrder>> {
    Map::new(
        |p: i64| has_level(ls, p),
        |p: i64| ls[choose|i: int| 0 <= i < ls.len() && ls[i].level_price() == OrderPrice::Limit(p)].orders(),
    )
}

/// The queue at price `p` in `ls`, empty where `p` has no level.
pub open spec fn queue_at(ls: Seq<PriceLevel>, p: i64) -> Seq<MakerOrder> {
    if levels_map(ls).contains_key(p) {
        levels_map(ls)[p]
    } else {
        Seq::empty()
    }
}

/// `m` with the queue at `p` set to `q`, or the level at `p` gone if `q` is empty.
pub open spec fn with_limit(m: Map<i64, Seq<MakerOrder>>, p: i64, q: Seq<MakerOrder>) -> Map<
    i64,
    Seq<MakerOrder>,
> {
    if q.len() == 0 {
        m.remove(p)
    } else {
        m.insert(p, q)
    }
}

pub proof fn lemma_level_at(side: Side, ls: Seq<PriceLevel>, i: int)
    requires
        levels_ok(side, ls),
        0 <= i < ls.len(),
    ensures
        ls[i].level_price() == OrderPrice::Limit(limit_of(ls[i])),
        levels_map(ls).contains_key(limit_of(ls[i])),
        levels_map(ls)[limit_of(ls[i])] == ls[i].orders(),
        queue_at(ls, limit_of(ls[i])) == ls[i].orders(),
{
    let p = limit_of(ls[i]);
    assert(ls[i].level_price() is Limit);
    assert(has_level(ls, p));
    let j = choose|j: int| 0 <= j < ls.len() && ls[j].level_price() == OrderPrice::Limit(p);
    if j < i {
        assert(better(side, limit_of(ls[j]), limit_of(ls[i])));
    } else if i < j {
        assert(better(side, limit_of(ls[i]), limit_of(ls[j])));
    }
}

pub proof fn lemma_no_level(ls: Seq<PriceLevel>, p: i64)
    requires
        forall|j: int| 0 <= j < ls.len() ==> limit_of(#[trigger] ls[j]) != p,
    ensures
        !levels_map(ls).contains_key(p),
        queue_at(ls, p) == Seq::<MakerOrder>::empty(),
{
    if has_level(ls, p) {
        let j = choose|j: int| 0 <= j < ls.len() && ls[j].level_price() == OrderPrice::Limit(p);
        assert(limit_of(ls[j]) == p);
    }
}

pub proof fn lemma_map_update(side: Side, ls: Seq<PriceLevel>, i: int, l: PriceLevel)
    requires
        levels_ok(side, ls),
        0 <= i < ls.len(),
        l.wf(),
        l.level_price() == ls[i].level_price(),
        l.orders().len() > 0,
    ensures
        levels_ok(side, ls.update(i, l)),
        levels_map(ls.update(i, l)) == levels_map(ls).insert(limit_of(ls[i]), l.orders()),
{
    let n = ls.update(i, l);
    let p = limit_of(ls[i]);
    assert(limit_of(n[i]) == p);
    assert forall|a: int, b: int| 0 <= a < b < n.len() implies better(
        side,
        limit_of(#[trigger] n[a]),
        limit_of(#[trigger] n[b]),
    ) by {
        assert(limit_of(n[a]) == limit_of(ls[a]));
        assert(limit_of(n[b]) == limit_of(ls[b]));
    }
    assert(levels_ok(side, n));
    lemma_level_at(side, ls, i);
    assert forall|q: i64| #[trigger] levels_map(n).contains_key(q) <==> levels_map(ls).insert(
        p,
        l.orders(),
    ).contains_key(q) by {
        if has_level(n, q) {
            let j = choose|j: int| 0 <= j < n.len() && n[j].level_price() == OrderPrice::Limit(q);
            if j != i {
                assert(ls[j] == n[j]);
            }
        }
        if has_level(ls, q) {
            let j = choose|j: int| 0 <= j < ls.len() && ls[j].level_price() == OrderPrice::Limit(q);
            if j != i {
                assert(ls[j] == n[j]);
            }
            assert(n[j].level_price() == OrderPrice::Limit(q));
        }
        if q == p {
            assert(n[i].level_price() == OrderPrice::Limit(q));
        }
    }
    assert forall|q: i64| #[trigger] levels_map(n).contains_key(q) implies levels_map(n)[q] == levels_map(
        ls,
    ).insert(p, l.orders())[q] by {
        let j = choose|j: int| 0 <= j < n.len() && n[j].level_price() == OrderPrice::Limit(q);
        lemma_level_at(side, n, j);
        if j != i {
            assert(ls[j] == n[j]);
            lemma_level_at(side, ls, j);
        }
    }
    assert(levels_map(n) =~= levels_map(ls).insert(p, l.orders()));
}

pub proof fn lemma_map_insert(side: Side, ls: Seq<PriceLevel>, i: int, l: PriceLevel, p: i64)
    requires
        levels_ok(side, ls),
        0 <= i <= ls.len(),
        l.wf(),
        l.level_price() == OrderPrice::Limit(p),
        l.orders().len() > 0,
        forall|j: int| 0 <= j < i ==> better(side, limit_of(#[trigger] ls[j]), p),
        forall|j: int| i <= j < ls.len() ==> better(side, p, limit_of(#[trigger] ls[j])),
    ensures
        levels_ok(side, ls.insert(i, l)),
        levels_map(ls.insert(i, l)) == levels_map(ls).insert(p, l.orders()),
{
    let n = ls.insert(i, l);
    assert forall|a: int| 0 <= a < n.len() implies (#[trigger] n[a]).wf() && n[a].level_price() is Limit
        && n[a].orders().len() > 0 by {
        if a < i {
            assert(n[a] == ls[a]);
        } else if a > i {
            assert(n[a] == ls[a - 1]);
        }
    }
    assert forall|a: int, b: int| 0 <= a < b < n.len() implies better(
        side,
        limit_of(#[trigger] n[a]),
        limit_of(#[trigger] n[b]),
    ) by {
        if b < i {
            assert(n[a] == ls[a] && n[b] == ls[b]);
        } else if b == i {
            assert(n[a] == ls[a]);
        } else if a < i {
            assert(n[a] == ls[a] && n[b] == ls[b - 1]);
        } else if a == i {
            assert(n[b] == ls[b - 1]);
        } else {
            assert(n[a] == ls[a - 1] && n[b] == ls[b - 1]);
        }
    }
    assert(levels_ok(side, n));
    assert(limit_of(n[i]) == p);
    assert forall|q: i64| #[trigger] levels_map(n).contains_key(q) <==> levels_map(ls).insert(
        p,
        l.orders(),
    ).contains_key(q) by {
        if has_level(n, q) {
            let j = choose|j: int| 0 <= j < n.len() && n[j].level_price() == OrderPrice::Limit(q);
            if j < i {
                assert(ls[j] == n[j]);
            } else if j > i {
                assert(ls[j - 1] == n[j]);
            }
        }
        if has_level(ls, q) {
            let j = choose|j: int| 0 <= j < ls.len() && ls[j].level_price() == OrderPrice::Limit(q);
            if j < i {
                assert(n[j] == ls[j]);
                assert(n[j].level_price() == OrderPrice::Limit(q));
            } else {
                assert(n[j + 1] == ls[j]);
                assert(n[j + 1].level_price() == OrderPrice::Limit(q));
            }
        }
        if q == p {
            assert(n[i].level_price() == OrderPrice::Limit(q));
        }
    }
    assert forall|q: i64| #[trigger] levels_map(n).contains_key(q) implies levels_map(n)[q] == levels_map(
        ls,
    ).insert(p, l.orders())[q] by {
        let j = choose|j: int| 0 <= j < n.len() && n[j].level_price() == OrderPrice::Limit(q);
        lemma_level_at(side, n, j);
        if j < i {
            assert(ls[j] == n[j]);
            lemma_level_at(side, ls, j);
        } else if j > i {
            assert(ls[j - 1] == n[j]);
            lemma_level_at(side, ls, j - 1);
        }
    }
    assert(levels_map(n) =~= levels_map(ls).insert(p, l.orders()));
}

pub proof fn lemma_map_remove(side: Side, ls: Seq<PriceLevel>, i: int)
    requires
        levels_ok(side, ls),
        0 <= i < ls.len(),
    ensures
        levels_ok(side, ls.remove(i)),
        levels_map(ls.remove(i)) == levels_map(ls).remove(limit_of(ls[i])),
{
    let n = ls.remove(i);
    let p = limit_of(ls[i]);
    assert forall|a: int| 0 <= a < n.len() implies (#[trigger] n[a]).wf() && n[a].level_price() is Limit
        && n[a].orders().len() > 0 by {
        if a < i {
            assert(n[a] == ls[a]);
        } else {
            assert(n[a] == ls[a + 1]);
        }
    }
    assert forall|a: int, b: int| 0 <= a < b < n.len() implies better(
        side,
        limit_of(#[trigger] n[a]),
        limit_of(#[trigger] n[b]),
    ) by {
        let a0 = if a < i { a } else { a + 1 };
        let b0 = if b < i { b } else { b + 1 };
        assert(n[a] == ls[a0] && n[b] == ls[b0]);
    }
    assert(levels_ok(side, n));
    lemma_level_at(side, ls, i);
    assert forall|q: i64| #[trigger] levels_map(n).contains_key(q) <==> levels_map(ls).remove(p).contains_key(
        q,
    ) by {
        if has_level(n, q) {
            let j = choose|j: int| 0 <= j < n.len() && n[j].level_price() == OrderPrice::Limit(q);
            let j0 = if j < i { j } else { j + 1 };
            assert(ls[j0] == n[j]);
            assert(ls[j0].level_price() == OrderPrice::Limit(q));
            if q == p {
                lemma_level_at(side, ls, j0);
                assert(j0 != i);
                if j0 < i {
                    assert(better(side, limit_of(ls[j0]), limit_of(ls[i])));
                } else {
                    assert(better(side, limit_of(ls[i]), limit_of(ls[j0])));
                }
            }
        }
        if has_level(ls, q) && q != p {
            let j = choose|j: int| 0 <= j < ls.len() && ls[j].level_price() == OrderPrice::Limit(q);
            assert(j != i);
            if j < i {
                assert(n[j] == ls[j]);
                assert(n[j].level_price() == OrderPrice::Limit(q));
            } else {
                assert(n[j - 1] == ls[j]);
                assert(n[j - 1].level_price() == OrderPrice::Limit(q));
            }
        }
    }
    assert forall|q: i64| #[trigger] levels_map(n).contains_key(q) implies levels_map(n)[q] == levels_map(
        ls,
    ).remove(p)[q] by {
        let j = choose|j: int| 0 <= j < n.len() && n[j].level_price() == OrderPrice::Limit(q);
        lemma_level_at(side, n, j);
        let j0 = if j < i { j } else { j + 1 };
        assert(ls[j0] == n[j]);
        lemma_level_at(side, ls, j0);
    }
    assert(levels_map(n) =~= levels_map(ls).remove(p));
}

/// Binary search of a side's price list for the level at `p`: `Ok` with its
/// index, or `Err` with the index where a level at `p` belongs.
pub fn find_level(ls: &Vec<PriceLevel>, side: Side, p: i64) -> (r: Result<usize, usize>)
    requires
        levels_ok(side, ls@),
    ensures
        match r {
            Ok(i) => i < ls@.len() && limit_of(ls@[i as int]) == p,
            Err(i) => i <= ls@.len() && (forall|j: int| 0 <= j < i ==> better(side, limit_of(#[trigger] ls@[j]), p))
                && (forall|j: int| i <= j < ls@.len() ==> better(side, p, limit_of(#[trigger] ls@[j]))),
        },
{
    let mut lo: usize = 0;
    let mut hi: usize = ls.len();
    while lo < hi
        invariant
            lo <= hi <= ls@.len(),
            levels_ok(side, ls@),
            forall|j: int| 0 <= j < lo ==> better(side, limit_of(#[trigger] ls@[j]), p),
            forall|j: int| hi <= j < ls@.len() ==> better(side, p, limit_of(#[trigger] ls@[j])),
        decreases hi - lo,
    {
        let mid = lo + (hi - lo) / 2;
        let q = ls[mid].price_min_if_market();
        proof {
            assert(ls@[mid as int].level_price() is Limit);
        }
        if q == p {
            return Ok(mid);
        }
        if is_better(side, q, p) {
            proof {
                assert forall|j: int| 0 <= j < mid + 1 implies better(side, limit_of(#[trigger] ls@[j]), p) by {
                    if j < mid {
                        assert(better(side, limit_of(ls@[j]), limit_of(ls@[mid as int])));
                    }
                }
            }
            lo = mid + 1;
        } else {
            proof {
                assert forall|j: int| mid <= j < ls@.len() implies better(side, p, limit_of(#[trigger] ls@[j])) by {
                    if j > mid {
                        assert(better(side, limit_of(ls@[mid as int]), limit_of(ls@[j])));
                    }
                }
            }
            hi = mid;
        }
    }
    Err(lo)
}

/// Appends `o`, whose price is `Limit(p)`, to the level at `p`, creating the
/// level at its sorted place if there is none.
pub fn add_to_levels(ls: &mut Vec<PriceLevel>, side: Side, o: MakerOrder, p: i64)
    requires
        levels_ok(side, old(ls)@),
        o.price == OrderPrice::Limit(p),
        !has_id(queue_at(old(ls)@, p), o.id),
    ensures
        levels_ok(side, final(ls)@),
        levels_map(final(ls)@) == levels_map(old(ls)@).insert(p, queue_at(old(ls)@, p).push(o)),
{
    match find_level(ls, side, p) {
        Ok(i) => {
            proof {
                lemma_level_at(side, ls@, i as int);
            }
            let ghost before = ls@;
            let _ = ls[i].add(o);
            proof {
                lemma_map_update(side, before, i as int, ls@[i as int]);
                assert(ls@ == before.update(i as int, ls@[i as int]));
            }
        },
        Err(i) => {
            proof {
                lemma_no_level(ls@, p);
            }
            let l = PriceLevel::new_with_order(o);
            let ghost before = ls@;
            ls.insert(i, l);
            proof {
                lemma_map_insert(side, before, i as int, l, p);
                assert(Seq::<MakerOrder>::empty().push(o) =~= seq![o]);
            }
        },
    }
}

/// Takes the order with id `id` out of the level at `p`, dropping the level
/// if it becomes empty.
pub fn remove_from_levels(ls: &mut Vec<PriceLevel>, side: Side, p: i64, id: u64) -> (r: Option<
    MakerOrder,
>)
    requires
        levels_ok(side, old(ls)@),
        has_id(queue_at(old(ls)@, p), id),
    ensures
        levels_ok(side, final(ls)@),
        r == Some(order_with_id(queue_at(old(ls)@, p), id)),
        levels_map(final(ls)@) == with_limit(
            levels_map(old(ls)@),
            p,
            without_id(queue_at(old(ls)@, p), id),
        ),
{
    match find_level(ls, side, p) {
        Ok(i) => {
            proof {
                lemma_level_at(side, ls@, i as int);
            }
            let ghost before = ls@;
            let r = ls[i].remove(id).ok();
            if ls[i].is_empty() {
                let ghost mid = ls@;
                ls.remove(i);
                proof {
                    assert(limit_of(mid[i as int]) == p);
                    assert(levels_ok(side, mid.update(i as int, before[i as int])));
                    assert(mid.update(i as int, before[i as int]) =~= before);
                    assert(mid.remove(i as int) =~= before.remove(i as int));
                    lemma_map_remove(side, before, i as int);
                }
            } else {
                proof {
                    lemma_map_update(side, before, i as int, ls@[i as int]);
                    assert(ls@ == before.update(i as int, ls@[i as int]));
                }
            }
            r
        },
        Err(i) => {
            proof {
                lemma_no_level(ls@, p);
            }
            None
        },
    }
}

/// Moves the order with id `id` at `p` to the back of its level with the
/// quantity `qty`.
pub fn requeue_in_levels(ls: &mut Vec<PriceLevel>, side: Side, p: i64, id: u64, qty: i64)
    requires
        levels_ok(side, old(ls)@),
        has_id(queue_at(old(ls)@, p), id),
        ids_unique(queue_at(old(ls)@, p)),
    ensures
        levels_ok(side, final(ls)@),
        levels_map(final(ls)@) == levels_map(old(ls)@).insert(
            p,
            without_id(queue_at(old(ls)@, p), id).push(
                MakerOrder { qty, ..order_with_id(queue_at(old(ls)@, p), id) },
            ),
        ),
{
    match find_level(ls, side, p) {
        Ok(i) => {
            proof {
                lemma_level_at(side, ls@, i as int);
                lemma_without_present(queue_at(ls@, p), id);
            }
            let ghost before = ls@;
            let r = ls[i].remove(id);
            match r {
                Ok(o) => {
                    let _ = ls[i].add(MakerOrder { qty, ..o });
                },
                Err(_) => {},
            }
            proof {
                lemma_map_update(side, before, i as int, ls@[i as int]);
                assert(ls@ == before.update(i as int, ls@[i as int]));
            }
        },
        Err(i) => {
            proof {
                lemma_no_level(ls@, p);
            }
        },
    }
}

} // verus!
