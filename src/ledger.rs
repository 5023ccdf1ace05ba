use vstd::prelude::*;
use crate::model::{
    amounts_in_range, any_leg, coin_leg, coin_legs, denoms_distinct, grouped, has_coin, has_denom,
    held,
    legs, non_issuer_total, of_denom, of_denom_not_from, of_pair, sum_if, total, views, Balance,
    pruned, Coin, Leg, Selector, Transfer,
};
use crate::sums::{
    lemma_legs_push, lemma_legs_update, lemma_prefix_bound, lemma_sum_prefix, lemma_sum_push,
    lemma_sum_update, term,
};

verus! {

/// Every coin of `bs` with the address of its balance, in order.
pub fn flatten(bs: &Vec<Balance>) -> (r: Vec<Transfer>)
    ensures
        views(r@) == legs(bs@),
{
    let mut r: Vec<Transfer> = Vec::new();
    let mut i: usize = 0;
    while i < bs.len()
        invariant
            0 <= i <= bs.len(),
            views(r@) == legs(bs@.take(i as int)),
        decreases bs.len() - i,
    {
        let b = &bs[i];
        let mut j: usize = 0;
        while j < b.coins.len()
            invariant
                0 <= j <= b.coins.len(),
                i < bs.len(),
                *b == bs@[i as int],
                views(r@) == legs(bs@.take(i as int)) + coin_legs(
                    b.address@,
                    b.coins@.take(j as int),
                ),
            decreases b.coins.len() - j,
        {
            let c = &b.coins[j];
            let ghost prev = r@;
            let t = Transfer { address: b.address.clone(), denom: c.denom.clone(), amount: c.amount };
            r.push(t);
            assert(views(r@) =~= views(prev).push(t@));
            assert(b.coins@.take(j + 1) =~= b.coins@.take(j as int).push(*c));
            assert(coin_legs(b.address@, b.coins@.take(j + 1)) =~= coin_legs(
                b.address@,
                b.coins@.take(j as int),
            ).push(coin_leg(b.address@, *c)));
            assert(views(r@) =~= legs(bs@.take(i as int)) + coin_legs(
                b.address@,
                b.coins@.take(j + 1),
            ));
            j += 1;
        }
        assert(bs@.take(i + 1).drop_last() =~= bs@.take(i as int));
        assert(b.coins@.take(j as int) =~= b.coins@);
        i += 1;
    }
    assert(bs@.take(i as int) =~= bs@);
    r
}

/// The index of the first balance at address `a`, or the length when there is none.
pub fn position_of_address(bs: &Vec<Balance>, a: &String) -> (k: usize)
    ensures
        k <= bs.len(),
        k < bs.len() ==> bs@[k as int].address@ == a@,
        forall|i: int| 0 <= i < k ==> #[trigger] bs@[i].address@ != a@,
{
    let mut k: usize = 0;
    while k < bs.len()
        invariant
            k <= bs.len(),
            forall|i: int| 0 <= i < k ==> #[trigger] bs@[i].address@ != a@,
        decreases bs.len() - k,
    {
        if bs[k].address == *a {
            return k;
        }
        k += 1;
    }
    k
}

/// The index of the first coin of denomination `d`, or the length when there is none.
pub fn position_of_denom(cs: &Vec<Coin>, d: &String) -> (m: usize)
    ensures
        m <= cs.len(),
        m < cs.len() ==> cs@[m as int].denom@ == d@,
        forall|i: int| 0 <= i < m ==> #[trigger] cs@[i].denom@ != d@,
{
    let mut m: usize = 0;
    while m < cs.len()
        invariant
            m <= cs.len(),
            forall|i: int| 0 <= i < m ==> #[trigger] cs@[i].denom@ != d@,
        decreases cs.len() - m,
    {
        if cs[m].denom == *d {
            return m;
        }
        m += 1;
    }
    m
}

/// Adds `x` to the coin of denomination `d`, which is created when missing.
pub fn add_to_coins(cs: &mut Vec<Coin>, d: &String, x: i128)
    requires
        denoms_distinct(old(cs)@),
        forall|m: int|
            0 <= m < old(cs)@.len() && #[trigger] old(cs)@[m].denom@ == d@ ==> i128::MIN
                <= old(cs)@[m].amount + x <= i128::MAX,
    ensures
        denoms_distinct(final(cs)@),
        forall|a: Seq<char>, keep: Selector|
            #[trigger] sum_if(coin_legs(a, final(cs)@), keep) == sum_if(coin_legs(a, old(cs)@), keep)
                + term((a, d@, x as int), keep),
        forall|e: Seq<char>| #[trigger]
            has_denom(final(cs)@, e) == (has_denom(old(cs)@, e) || e == d@),
{
    let ghost before = cs@;
    let m = position_of_denom(cs, d);
    if m < cs.len() {
        let mut c = cs.remove(m);
        c.amount = c.amount + x;
        cs.insert(m, c);
        assert(c.denom@ == d@);
        assert(cs@ =~= before.update(m as int, c));
        assert forall|a: Seq<char>, keep: Selector| #[trigger]
            sum_if(coin_legs(a, cs@), keep) == sum_if(coin_legs(a, before), keep) + term(
                (a, d@, x as int),
                keep,
            ) by {
            assert(coin_legs(a, cs@) =~= coin_legs(a, before).update(m as int, coin_leg(a, c)));
            lemma_sum_update(coin_legs(a, before), m as int, coin_leg(a, c), keep);
        }
        assert forall|e: Seq<char>| #[trigger]
            has_denom(cs@, e) == (has_denom(before, e) || e == d@) by {
            if has_denom(before, e) {
                let n = choose|n: int| 0 <= n < before.len() && #[trigger] before[n].denom@ == e;
                assert(cs@[n].denom@ == e);
            }
            if has_denom(cs@, e) {
                let n = choose|n: int| 0 <= n < cs@.len() && #[trigger] cs@[n].denom@ == e;
                assert(before[n].denom@ == e);
            }
        }
    } else {
        let c = Coin { denom: d.clone(), amount: x };
        cs.push(c);
        assert(cs@ =~= before.push(c));
        assert forall|a: Seq<char>, keep: Selector| #[trigger]
            sum_if(coin_legs(a, cs@), keep) == sum_if(coin_legs(a, before), keep) + term(
                (a, d@, x as int),
                keep,
            ) by {
            assert(coin_legs(a, cs@) =~= coin_legs(a, before).push(coin_leg(a, c)));
            lemma_sum_push(coin_legs(a, before), coin_leg(a, c), keep);
        }
        assert forall|e: Seq<char>| #[trigger]
            has_denom(cs@, e) == (has_denom(before, e) || e == d@) by {
            if has_denom(before, e) {
                let n = choose|n: int| 0 <= n < before.len() && #[trigger] before[n].denom@ == e;
                assert(cs@[n].denom@ == e);
            }
            if e == d@ {
                assert(cs@[before.len() as int].denom@ == e);
            }
            if has_denom(cs@, e) {
                let n = choose|n: int| 0 <= n < cs@.len() && #[trigger] cs@[n].denom@ == e;
                if n < before.len() {
                    assert(before[n].denom@ == e);
                }
            }
        }
    }
}

/// Adds `x` to what address `a` holds of denomination `d`.
pub fn post(bs: &mut Vec<Balance>, a: &String, d: &String, x: i128)
    requires
        grouped(old(bs)@),
        forall|k: int, m: int|
            0 <= k < old(bs)@.len() && 0 <= m < old(bs)@[k].coins@.len() && old(bs)@[k].address@
                == a@ && #[trigger] old(bs)@[k].coins@[m].denom@ == d@ ==> i128::MIN
                <= old(bs)@[k].coins@[m].amount + x <= i128::MAX,
    ensures
        grouped(final(bs)@),
        forall|keep: Selector| #[trigger]
            sum_if(legs(final(bs)@), keep) == sum_if(legs(old(bs)@), keep) + term(
                (a@, d@, x as int),
                keep,
            ),
        forall|a2: Seq<char>, d2: Seq<char>| #[trigger]
            has_coin(final(bs)@, a2, d2) == (has_coin(old(bs)@, a2, d2) || (a2 == a@ && d2 == d@)),
        (forall|k: int| 0 <= k < old(bs)@.len() ==> #[trigger] old(bs)@[k].coins@.len() > 0)
            ==> (forall|k: int| 0 <= k < final(bs)@.len() ==> #[trigger] final(bs)@[k].coins@.len() > 0),
{
    let ghost before = bs@;
    let k = position_of_address(bs, a);
    if k < bs.len() {
        let mut b = bs.remove(k);
        let ghost ob = b;
        assert(denoms_distinct(ob.coins@));
        add_to_coins(&mut b.coins, d, x);
        assert(has_denom(b.coins@, d@));
        bs.insert(k, b);
        assert(bs@ =~= before.update(k as int, b));
        assert forall|keep: Selector| #[trigger]
            sum_if(legs(bs@), keep) == sum_if(legs(before), keep) + term((a@, d@, x as int), keep) by {
            lemma_legs_update(before, k as int, b, keep);
        }
        assert forall|a2: Seq<char>, d2: Seq<char>| #[trigger]
            has_coin(bs@, a2, d2) == (has_coin(before, a2, d2) || (a2 == a@ && d2 == d@)) by {
            if has_coin(before, a2, d2) {
                let g = choose|g: int|
                    0 <= g < before.len() && #[trigger] before[g].address@ == a2 && has_denom(
                        before[g].coins@,
                        d2,
                    );
                assert(bs@[g].address@ == a2);
            }
            if a2 == a@ && d2 == d@ {
                assert(bs@[k as int].address@ == a2);
            }
            if has_coin(bs@, a2, d2) {
                let g = choose|g: int|
                    0 <= g < bs@.len() && #[trigger] bs@[g].address@ == a2 && has_denom(
                        bs@[g].coins@,
                        d2,
                    );
                assert(before[g].address@ == a2);
            }
        }
    } else {
        let mut coins: Vec<Coin> = Vec::new();
        coins.push(Coin { denom: d.clone(), amount: x });
        let b = Balance { address: a.clone(), coins };
        bs.push(b);
        assert(bs@ =~= before.push(b));
        assert forall|keep: Selector| #[trigger]
            sum_if(legs(bs@), keep) == sum_if(legs(before), keep) + term((a@, d@, x as int), keep) by {
            lemma_legs_push(before, b);
            lemma_sum_push(legs(before), (a@, d@, x as int), keep);
            assert(coin_legs(b.address@, b.coins@) =~= seq![(a@, d@, x as int)]);
            assert(legs(before).push((a@, d@, x as int)) =~= legs(before) + seq![
                (a@, d@, x as int),
            ]);
        }
        assert forall|a2: Seq<char>, d2: Seq<char>| #[trigger]
            has_coin(bs@, a2, d2) == (has_coin(before, a2, d2) || (a2 == a@ && d2 == d@)) by {
            let last = before.len() as int;
            if has_coin(before, a2, d2) {
                let g = choose|g: int|
                    0 <= g < before.len() && #[trigger] before[g].address@ == a2 && has_denom(
                        before[g].coins@,
                        d2,
                    );
                assert(bs@[g].address@ == a2);
            }
            if a2 == a@ && d2 == d@ {
                assert(bs@[last].address@ == a2);
                assert(bs@[last].coins@[0].denom@ == d2);
            }
            if has_coin(bs@, a2, d2) {
                let g = choose|g: int|
                    0 <= g < bs@.len() && #[trigger] bs@[g].address@ == a2 && has_denom(
                        bs@[g].coins@,
                        d2,
                    );
                if g < last {
                    assert(before[g].address@ == a2);
                } else {
                    let n = choose|n: int|
                        0 <= n < bs@[g].coins@.len() && #[trigger] bs@[g].coins@[n].denom@ == d2;
                    assert(n == 0);
                }
            }
        }
    }
}

/// The total of denomination `d` over `ts`.
pub fn total_of(ts: &Vec<Transfer>, d: &String) -> (r: i128)
    requires
        amounts_in_range(views(ts@)),
    ensures
        r == total(views(ts@), d@),
        0 <= r <= sum_if(views(ts@), any_leg()),
{
    let ghost ls = views(ts@);
    let mut acc: i128 = 0;
    let mut i: usize = 0;
    while i < ts.len()
        invariant
            i <= ts.len(),
            ls == views(ts@),
            amounts_in_range(ls),
            acc == sum_if(ls.take(i as int), of_denom(d@)),
        decreases ts.len() - i,
    {
        proof {
            lemma_sum_prefix(ls, i as int, of_denom(d@));
            lemma_prefix_bound(ls, i + 1, of_denom(d@));
        }
        if ts[i].denom == *d {
            acc = acc + ts[i].amount;
        }
        i += 1;
    }
    proof {
        assert(ls.take(i as int) =~= ls);
        lemma_prefix_bound(ls, i as int, of_denom(d@));
    }
    acc
}

/// What address `a` sends or receives of denomination `d` over `ts`.
pub fn held_of(ts: &Vec<Transfer>, a: &String, d: &String) -> (r: i128)
    requires
        amounts_in_range(views(ts@)),
    ensures
        r == held(views(ts@), a@, d@),
        0 <= r <= sum_if(views(ts@), any_leg()),
{
    let ghost ls = views(ts@);
    let mut acc: i128 = 0;
    let mut i: usize = 0;
    while i < ts.len()
        invariant
            i <= ts.len(),
            ls == views(ts@),
            amounts_in_range(ls),
            acc == sum_if(ls.take(i as int), of_pair(a@, d@)),
        decreases ts.len() - i,
    {
        proof {
            lemma_sum_prefix(ls, i as int, of_pair(a@, d@));
            lemma_prefix_bound(ls, i + 1, of_pair(a@, d@));
        }
        if ts[i].address == *a && ts[i].denom == *d {
            acc = acc + ts[i].amount;
        }
        i += 1;
    }
    proof {
        assert(ls.take(i as int) =~= ls);
        lemma_prefix_bound(ls, i as int, of_pair(a@, d@));
    }
    acc
}

/// The total of denomination `d` over `ts` at addresses other than `issuer`.
pub fn non_issuer_total_of(ts: &Vec<Transfer>, d: &String, issuer: &String) -> (r: i128)
    requires
        amounts_in_range(views(ts@)),
    ensures
        r == non_issuer_total(views(ts@), d@, issuer@),
        0 <= r <= sum_if(views(ts@), any_leg()),
{
    let ghost ls = views(ts@);
    let mut acc: i128 = 0;
    let mut i: usize = 0;
    while i < ts.len()
        invariant
            i <= ts.len(),
            ls == views(ts@),
            amounts_in_range(ls),
            acc == sum_if(ls.take(i as int), of_denom_not_from(d@, issuer@)),
        decreases ts.len() - i,
    {
        proof {
            lemma_sum_prefix(ls, i as int, of_denom_not_from(d@, issuer@));
            lemma_prefix_bound(ls, i + 1, of_denom_not_from(d@, issuer@));
        }
        if ts[i].denom == *d && ts[i].address != *issuer {
            acc = acc + ts[i].amount;
        }
        i += 1;
    }
    proof {
        assert(ls.take(i as int) =~= ls);
        lemma_prefix_bound(ls, i as int, of_denom_not_from(d@, issuer@));
    }
    acc
}

/// The coins of `cs` whose amount is not zero, in order.
fn nonzero_coins(cs: &Vec<Coin>) -> (r: Vec<Coin>)
    requires
        denoms_distinct(cs@),
    ensures
        denoms_distinct(r@),
        forall|m: int| 0 <= m < r@.len() ==> #[trigger] r@[m].amount != 0,
        forall|m: int| 0 <= m < r@.len() ==> has_denom(cs@, #[trigger] r@[m].denom@),
        forall|a: Seq<char>, keep: Selector| #[trigger]
            sum_if(coin_legs(a, r@), keep) == sum_if(coin_legs(a, cs@), keep),
{
    let mut r: Vec<Coin> = Vec::new();
    let mut j: usize = 0;
    while j < cs.len()
        invariant
            j <= cs.len(),
            denoms_distinct(cs@),
            denoms_distinct(r@),
            forall|m: int| 0 <= m < r@.len() ==> #[trigger] r@[m].amount != 0,
            forall|m: int|
                0 <= m < r@.len() ==> has_denom(cs@.take(j as int), #[trigger] r@[m].denom@),
            forall|a: Seq<char>, keep: Selector| #[trigger]
                sum_if(coin_legs(a, r@), keep) == sum_if(coin_legs(a, cs@.take(j as int)), keep),
        decreases cs.len() - j,
    {
        let ghost prev = r@;
        let c = &cs[j];
        assert(cs@.take(j + 1) =~= cs@.take(j as int).push(*c));
        assert forall|a: Seq<char>| #[trigger] coin_legs(a, cs@.take(j + 1)) =~= coin_legs(
            a,
            cs@.take(j as int),
        ).push(coin_leg(a, *c)) by {}
        assert forall|e: Seq<char>| has_denom(cs@.take(j as int), e) implies #[trigger] has_denom(
            cs@.take(j + 1),
            e,
        ) by {
            let n = choose|n: int| 0 <= n < j && #[trigger] cs@.take(j as int)[n].denom@ == e;
            assert(cs@.take(j + 1)[n].denom@ == e);
        }
        if c.amount != 0 {
            let nc = Coin { denom: c.denom.clone(), amount: c.amount };
            r.push(nc);
            assert(r@ =~= prev.push(nc));
            assert forall|a: Seq<char>, keep: Selector| #[trigger]
                sum_if(coin_legs(a, r@), keep) == sum_if(coin_legs(a, cs@.take(j + 1)), keep) by {
                assert(coin_legs(a, r@) =~= coin_legs(a, prev).push(coin_leg(a, nc)));
                lemma_sum_push(coin_legs(a, prev), coin_leg(a, nc), keep);
                lemma_sum_push(coin_legs(a, cs@.take(j as int)), coin_leg(a, *c), keep);
            }
            assert forall|m: int, n: int| 0 <= m < n < r@.len() implies #[trigger] r@[m].denom@
                != #[trigger] r@[n].denom@ by {
                if n == r@.len() - 1 {
                    let g = choose|g: int|
                        0 <= g < j && #[trigger] cs@.take(j as int)[g].denom@ == r@[m].denom@;
                    assert(cs@[g].denom@ != cs@[j as int].denom@);
                }
            }
            assert(has_denom(cs@.take(j + 1), nc.denom@)) by {
                assert(cs@.take(j + 1)[j as int].denom@ == nc.denom@);
            }
        } else {
            assert forall|a: Seq<char>, keep: Selector| #[trigger]
                sum_if(coin_legs(a, r@), keep) == sum_if(coin_legs(a, cs@.take(j + 1)), keep) by {
                lemma_sum_push(coin_legs(a, cs@.take(j as int)), coin_leg(a, *c), keep);
            }
        }
        j += 1;
    }
    assert(cs@.take(j as int) =~= cs@);
    r
}

/// The same changes without zero amounts and without empty balances.
pub fn prune(bs: &Vec<Balance>) -> (r: Vec<Balance>)
    requires
        grouped(bs@),
    ensures
        pruned(r@),
        forall|keep: Selector| #[trigger] sum_if(legs(r@), keep) == sum_if(legs(bs@), keep),
{
    let mut r: Vec<Balance> = Vec::new();
    let mut i: usize = 0;
    while i < bs.len()
        invariant
            i <= bs.len(),
            grouped(bs@),
            pruned(r@),
            forall|k: int|
                0 <= k < r@.len() ==> exists|g: int|
                    0 <= g < i && #[trigger] bs@[g].address@ == (#[trigger] r@[k]).address@,
            forall|keep: Selector| #[trigger]
                sum_if(legs(r@), keep) == sum_if(legs(bs@.take(i as int)), keep),
        decreases bs.len() - i,
    {
        let ghost prev = r@;
        let b = &bs[i];
        assert(denoms_distinct(bs@[i as int].coins@));
        let coins = nonzero_coins(&b.coins);
        assert(bs@.take(i + 1).drop_last() =~= bs@.take(i as int));
        proof {
            lemma_legs_push(bs@.take(i as int), *b);
            assert(bs@.take(i as int).push(*b) =~= bs@.take(i + 1));
        }
        if coins.len() > 0 {
            let nb = Balance { address: b.address.clone(), coins };
            r.push(nb);
            assert(r@ =~= prev.push(nb));
            assert forall|keep: Selector| #[trigger]
                sum_if(legs(r@), keep) == sum_if(legs(bs@.take(i + 1)), keep) by {
                lemma_legs_push(prev, nb);
                crate::sums::lemma_sum_concat(legs(prev), coin_legs(nb.address@, nb.coins@), keep);
                crate::sums::lemma_sum_concat(
                    legs(bs@.take(i as int)),
                    coin_legs(b.address@, b.coins@),
                    keep,
                );
            }
            assert forall|k: int, l: int| 0 <= k < l < r@.len() implies #[trigger] r@[k].address@
                != #[trigger] r@[l].address@ by {
                if l == r@.len() - 1 {
                    let g = choose|g: int|
                        0 <= g < i && #[trigger] bs@[g].address@ == (#[trigger] prev[k]).address@;
                    assert(bs@[g].address@ != bs@[i as int].address@);
                }
            }
            assert forall|k: int|
                0 <= k < r@.len() implies exists|g: int|
                    0 <= g < i + 1 && #[trigger] bs@[g].address@ == (#[trigger] r@[k]).address@ by {
                if k < prev.len() {
                    let g = choose|g: int|
                        0 <= g < i && #[trigger] bs@[g].address@ == (#[trigger] prev[k]).address@;
                    assert(bs@[g].address@ == r@[k].address@);
                } else {
                    assert(bs@[i as int].address@ == r@[k].address@);
                }
            }
        } else {
            assert forall|keep: Selector| #[trigger]
                sum_if(legs(r@), keep) == sum_if(legs(bs@.take(i + 1)), keep) by {
                crate::sums::lemma_sum_concat(
                    legs(bs@.take(i as int)),
                    coin_legs(b.address@, b.coins@),
                    keep,
                );
                assert(coin_legs(b.address@, coins@) =~= Seq::<Leg>::empty());
                assert(sum_if(coin_legs(b.address@, coins@), keep) == sum_if(
                    coin_legs(b.address@, b.coins@),
                    keep,
                ));
                assert(sum_if(Seq::<Leg>::empty(), keep) == 0);
                assert(legs(bs@.take(i as int)) + coin_legs(b.address@, b.coins@) == legs(
                    bs@.take(i + 1),
                ));
            }
            assert forall|k: int|
                0 <= k < r@.len() implies exists|g: int|
                    0 <= g < i + 1 && #[trigger] bs@[g].address@ == (#[trigger] r@[k]).address@ by {
                let g = choose|g: int|
                    0 <= g < i && #[trigger] bs@[g].address@ == (#[trigger] prev[k]).address@;
                assert(bs@[g].address@ == r@[k].address@);
            }
        }
        i += 1;
    }
    assert(bs@.take(i as int) =~= bs@);
    r
}

} // verus!
