use vstd::prelude::*;
use crate::model::{
    coin_leg, coin_legs, denoms_distinct, grouped, has_pair, held, legs, of_pair, sum_if, any_leg, of_denom, total, Balance, Coin, Leg, Selector,
};

verus! {

pub open spec fn term(l: Leg, keep: Selector) -> int {
    if keep(l.0, l.1) {
        l.2
    } else {
        0
    }
}

pub proof fn lemma_sum_push(ls: Seq<Leg>, l: Leg, keep: Selector)
    ensures
        sum_if(ls.push(l), keep) == sum_if(ls, keep) + term(l, keep),
{
    assert(ls.push(l).drop_last() =~= ls);
}

pub proof fn lemma_sum_prefix(ls: Seq<Leg>, i: int, keep: Selector)
    requires
        0 <= i < ls.len(),
    ensures
        sum_if(ls.take(i + 1), keep) == sum_if(ls.take(i), keep) + term(ls[i], keep),
{
    assert(ls.take(i + 1).drop_last() =~= ls.take(i));
}

pub proof fn lemma_sum_concat(x: Seq<Leg>, y: Seq<Leg>, keep: Selector)
    ensures
        sum_if(x + y, keep) == sum_if(x, keep) + sum_if(y, keep),
    decreases y.len(),
{
    if y.len() == 0 {
        assert(x + y =~= x);
    } else {
        lemma_sum_concat(x, y.drop_last(), keep);
        assert((x + y).drop_last() =~= x + y.drop_last());
    }
}

pub proof fn lemma_sum_single(l: Leg, keep: Selector)
    ensures
        sum_if(seq![l], keep) == term(l, keep),
{
    assert(seq![l].drop_last() =~= Seq::<Leg>::empty());
    assert(sum_if(Seq::<Leg>::empty(), keep) == 0);
    assert(seq![l].last() == l);
}

/// Legs that `keep` does not select add nothing.
pub proof fn lemma_sum_none(ls: Seq<Leg>, keep: Selector)
    requires
        forall|i: int| 0 <= i < ls.len() ==> !keep(#[trigger] ls[i].0, ls[i].1),
    ensures
        sum_if(ls, keep) == 0,
    decreases ls.len(),
{
    if ls.len() > 0 {
        lemma_sum_none(ls.drop_last(), keep);
    }
}

/// On non-negative amounts a wider selection sums to at least as much.
pub proof fn lemma_sum_mono(ls: Seq<Leg>, narrow: Selector, wide: Selector)
    requires
        forall|a: Seq<char>, e: Seq<char>| #[trigger] narrow(a, e) ==> wide(a, e),
        forall|i: int| 0 <= i < ls.len() ==> 0 <= #[trigger] ls[i].2,
    ensures
        0 <= sum_if(ls, narrow) <= sum_if(ls, wide),
    decreases ls.len(),
{
    if ls.len() > 0 {
        lemma_sum_mono(ls.drop_last(), narrow, wide);
    }
}

pub proof fn lemma_sum_update(ls: Seq<Leg>, m: int, l: Leg, keep: Selector)
    requires
        0 <= m < ls.len(),
    ensures
        sum_if(ls.update(m, l), keep) == sum_if(ls, keep) - term(ls[m], keep) + term(l, keep),
{
    let a = ls.take(m);
    let b = ls.skip(m + 1);
    assert(ls =~= a + seq![ls[m]] + b);
    assert(ls.update(m, l) =~= a + seq![l] + b);
    lemma_sum_concat(a + seq![ls[m]], b, keep);
    lemma_sum_concat(a, seq![ls[m]], keep);
    lemma_sum_concat(a + seq![l], b, keep);
    lemma_sum_concat(a, seq![l], keep);
    lemma_sum_single(ls[m], keep);
    lemma_sum_single(l, keep);
}

pub proof fn lemma_legs_concat(x: Seq<Balance>, y: Seq<Balance>)
    ensures
        legs(x + y) == legs(x) + legs(y),
    decreases y.len(),
{
    if y.len() == 0 {
        assert(x + y =~= x);
        assert(legs(x) + legs(y) =~= legs(x));
    } else {
        lemma_legs_concat(x, y.drop_last());
        assert((x + y).drop_last() =~= x + y.drop_last());
        assert(legs(x + y) =~= legs(x) + legs(y));
    }
}

pub proof fn lemma_legs_single(b: Balance)
    ensures
        legs(seq![b]) == coin_legs(b.address@, b.coins@),
{
    assert(seq![b].drop_last() =~= Seq::<Balance>::empty());
    assert(legs(Seq::<Balance>::empty()) == Seq::<Leg>::empty());
    assert(seq![b].last() == b);
    assert(legs(seq![b]) =~= coin_legs(b.address@, b.coins@));
}

pub proof fn lemma_legs_push(bs: Seq<Balance>, b: Balance)
    ensures
        legs(bs.push(b)) == legs(bs) + coin_legs(b.address@, b.coins@),
{
    assert(bs.push(b).drop_last() =~= bs);
}

/// Replacing one balance changes a sum by what the two balances' coins differ by.
pub proof fn lemma_legs_update(bs: Seq<Balance>, k: int, b: Balance, keep: Selector)
    requires
        0 <= k < bs.len(),
    ensures
        sum_if(legs(bs.update(k, b)), keep) == sum_if(legs(bs), keep) - sum_if(
            coin_legs(bs[k].address@, bs[k].coins@),
            keep,
        ) + sum_if(coin_legs(b.address@, b.coins@), keep),
{
    let x = bs.take(k);
    let y = bs.skip(k + 1);
    assert(bs =~= x + seq![bs[k]] + y);
    assert(bs.update(k, b) =~= x + seq![b] + y);
    lemma_legs_concat(x + seq![bs[k]], y);
    lemma_legs_concat(x, seq![bs[k]]);
    lemma_legs_concat(x + seq![b], y);
    lemma_legs_concat(x, seq![b]);
    lemma_legs_single(bs[k]);
    lemma_legs_single(b);
    lemma_sum_concat(legs(x) + coin_legs(bs[k].address@, bs[k].coins@), legs(y), keep);
    lemma_sum_concat(legs(x), coin_legs(bs[k].address@, bs[k].coins@), keep);
    lemma_sum_concat(legs(x) + coin_legs(b.address@, b.coins@), legs(y), keep);
    lemma_sum_concat(legs(x), coin_legs(b.address@, b.coins@), keep);
}

/// Each leg comes from one coin of one balance.
pub proof fn lemma_legs_index(bs: Seq<Balance>, i: int) -> (km: (int, int))
    requires
        0 <= i < legs(bs).len(),
    ensures
        0 <= km.0 < bs.len(),
        0 <= km.1 < bs[km.0].coins@.len(),
        legs(bs)[i] == coin_leg(bs[km.0].address@, bs[km.0].coins@[km.1]),
    decreases bs.len(),
{
    let p = bs.drop_last();
    if i < legs(p).len() {
        let km = lemma_legs_index(p, i);
        km
    } else {
        (bs.len() - 1, i - legs(p).len())
    }
}

/// Without a coin of denomination `d` at address `a`, nothing is held there.
pub proof fn lemma_held_absent(bs: Seq<Balance>, a: Seq<char>, d: Seq<char>)
    requires
        forall|k: int, m: int|
            0 <= k < bs.len() && 0 <= m < bs[k].coins@.len() ==> !(bs[k].address@ == a
                && #[trigger] bs[k].coins@[m].denom@ == d),
    ensures
        held(legs(bs), a, d) == 0,
        !has_pair(legs(bs), a, d),
{
    assert forall|i: int| 0 <= i < legs(bs).len() implies !(#[trigger] of_pair(a, d)(
        legs(bs)[i].0,
        legs(bs)[i].1,
    )) by {
        let km = lemma_legs_index(bs, i);
        assert(bs[km.0].coins@[km.1].denom@ == legs(bs)[i].1);
    }
    lemma_sum_none(legs(bs), of_pair(a, d));
    if has_pair(legs(bs), a, d) {
        let i = choose|i: int| 0 <= i < legs(bs).len() && #[trigger] legs(bs)[i].0 == a && legs(bs)[i].1 == d;
        assert(!of_pair(a, d)(legs(bs)[i].0, legs(bs)[i].1));
    }
}

/// In a grouped sequence, what is held is the amount of the one matching coin.
pub proof fn lemma_held_lookup(bs: Seq<Balance>, k: int, m: int)
    requires
        grouped(bs),
        0 <= k < bs.len(),
        0 <= m < bs[k].coins@.len(),
    ensures
        held(legs(bs), bs[k].address@, bs[k].coins@[m].denom@) == bs[k].coins@[m].amount,
        has_pair(legs(bs), bs[k].address@, bs[k].coins@[m].denom@),
{
    let a = bs[k].address@;
    let c = bs[k].coins@[m];
    let d = c.denom@;
    let x = bs.take(k);
    let y = bs.skip(k + 1);
    assert(bs =~= x + seq![bs[k]] + y);
    lemma_legs_concat(x + seq![bs[k]], y);
    lemma_legs_concat(x, seq![bs[k]]);
    lemma_legs_single(bs[k]);
    let cl = coin_legs(a, bs[k].coins@);
    lemma_sum_concat(legs(x) + cl, legs(y), of_pair(a, d));
    lemma_sum_concat(legs(x), cl, of_pair(a, d));
    assert forall|i: int, n: int| 0 <= i < x.len() && 0 <= n < x[i].coins@.len() implies !(
    x[i].address@ == a && #[trigger] x[i].coins@[n].denom@ == d) by {
        assert(x[i] == bs[i]);
    }
    lemma_held_absent(x, a, d);
    assert forall|i: int, n: int| 0 <= i < y.len() && 0 <= n < y[i].coins@.len() implies !(
    y[i].address@ == a && #[trigger] y[i].coins@[n].denom@ == d) by {
        assert(y[i] == bs[k + 1 + i]);
    }
    lemma_held_absent(y, a, d);
    let cs = bs[k].coins@;
    assert(denoms_distinct(cs));
    let u = cl.take(m);
    let v = cl.skip(m + 1);
    assert(cl =~= u + seq![cl[m]] + v);
    lemma_sum_concat(u + seq![cl[m]], v, of_pair(a, d));
    lemma_sum_concat(u, seq![cl[m]], of_pair(a, d));
    lemma_sum_single(cl[m], of_pair(a, d));
    assert forall|i: int| 0 <= i < u.len() implies !(#[trigger] of_pair(a, d)(u[i].0, u[i].1)) by {
        assert(u[i] == coin_leg(a, cs[i]));
    }
    lemma_sum_none(u, of_pair(a, d));
    assert forall|i: int| 0 <= i < v.len() implies !(#[trigger] of_pair(a, d)(v[i].0, v[i].1)) by {
        assert(v[i] == coin_leg(a, cs[m + 1 + i]));
    }
    lemma_sum_none(v, of_pair(a, d));
    let j = legs(x).len() + m;
    assert(legs(bs)[j] == cl[m]);
}


/// On non-negative amounts every prefix sum lies between zero and the grand total.
pub proof fn lemma_prefix_bound(ls: Seq<Leg>, i: int, keep: Selector)
    requires
        0 <= i <= ls.len(),
        forall|j: int| 0 <= j < ls.len() ==> 0 <= #[trigger] ls[j].2,
    ensures
        0 <= sum_if(ls.take(i), keep) <= sum_if(ls, any_leg()),
{
    let x = ls.take(i);
    let y = ls.skip(i);
    assert(ls =~= x + y);
    lemma_sum_concat(x, y, any_leg());
    assert forall|j: int| 0 <= j < x.len() implies 0 <= #[trigger] x[j].2 by {
        assert(x[j] == ls[j]);
    }
    assert forall|j: int| 0 <= j < y.len() implies 0 <= #[trigger] y[j].2 by {
        assert(y[j] == ls[i + j]);
    }
    lemma_sum_mono(x, keep, any_leg());
    lemma_sum_mono(y, any_leg(), any_leg());
}


/// A selection that is the disjoint union of two others sums to their sum.
pub proof fn lemma_sum_union(ls: Seq<Leg>, f: Selector, g: Selector, h: Selector)
    requires
        forall|a: Seq<char>, e: Seq<char>| #[trigger] h(a, e) == (f(a, e) || g(a, e)),
        forall|a: Seq<char>, e: Seq<char>| !(#[trigger] f(a, e) && g(a, e)),
    ensures
        sum_if(ls, h) == sum_if(ls, f) + sum_if(ls, g),
    decreases ls.len(),
{
    if ls.len() > 0 {
        lemma_sum_union(ls.drop_last(), f, g, h);
        let l = ls.last();
        assert(h(l.0, l.1) == (f(l.0, l.1) || g(l.0, l.1)));
        assert(!(f(l.0, l.1) && g(l.0, l.1)));
    }
}

/// Selections that agree everywhere sum alike.
pub proof fn lemma_sum_same(ls: Seq<Leg>, f: Selector, g: Selector)
    requires
        forall|a: Seq<char>, e: Seq<char>| #[trigger] f(a, e) == g(a, e),
    ensures
        sum_if(ls, f) == sum_if(ls, g),
    decreases ls.len(),
{
    if ls.len() > 0 {
        lemma_sum_same(ls.drop_last(), f, g);
        assert(f(ls.last().0, ls.last().1) == g(ls.last().0, ls.last().1));
    }
}


/// With distinct denominations, a denomination's total over the coins is its coin's amount.
pub proof fn lemma_coin_lookup(a: Seq<char>, cs: Seq<Coin>, m: int)
    requires
        denoms_distinct(cs),
        0 <= m < cs.len(),
    ensures
        total(coin_legs(a, cs), cs[m].denom@) == cs[m].amount,
{
    let d = cs[m].denom@;
    let cl = coin_legs(a, cs);
    let u = cl.take(m);
    let v = cl.skip(m + 1);
    assert(cl =~= u + seq![cl[m]] + v);
    lemma_sum_concat(u + seq![cl[m]], v, of_denom(d));
    lemma_sum_concat(u, seq![cl[m]], of_denom(d));
    lemma_sum_single(cl[m], of_denom(d));
    assert forall|i: int| 0 <= i < u.len() implies !(#[trigger] of_denom(d)(u[i].0, u[i].1)) by {
        assert(u[i] == coin_leg(a, cs[i]));
    }
    lemma_sum_none(u, of_denom(d));
    assert forall|i: int| 0 <= i < v.len() implies !(#[trigger] of_denom(d)(v[i].0, v[i].1)) by {
        assert(v[i] == coin_leg(a, cs[m + 1 + i]));
    }
    lemma_sum_none(v, of_denom(d));
}


/// Selections that agree on every leg sum alike.
pub proof fn lemma_sum_same_on(ls: Seq<Leg>, f: Selector, g: Selector)
    requires
        forall|i: int| 0 <= i < ls.len() ==> #[trigger] f(ls[i].0, ls[i].1) == g(ls[i].0, ls[i].1),
    ensures
        sum_if(ls, f) == sum_if(ls, g),
    decreases ls.len(),
{
    if ls.len() > 0 {
        let p = ls.drop_last();
        assert forall|i: int| 0 <= i < p.len() implies #[trigger] f(p[i].0, p[i].1) == g(
            p[i].0,
            p[i].1,
        ) by {
            assert(p[i] == ls[i]);
        }
        lemma_sum_same_on(p, f, g);
        assert(f(ls[ls.len() - 1].0, ls[ls.len() - 1].1) == g(ls[ls.len() - 1].0, ls[ls.len() - 1].1));
    }
}

} // verus!
