use vstd::prelude::*;
use crate::ledger::{add_to_coins, flatten, post};
use crate::model::{
    amounts_in_range, coin_legs, denoms_distinct, grouped, has_coin, has_denom, has_pair, held,
    legs, of_denom,
    of_pair, sum_if, total, views, Balance, Coin, Leg, MultiSend, Selector,
};
use crate::sums::{lemma_coin_lookup, lemma_held_lookup, lemma_prefix_bound, lemma_sum_prefix};

verus! {

/// Some leg is of denomination `d`.
pub open spec fn has_leg_of(ls: Seq<Leg>, d: Seq<char>) -> bool {
    exists|i: int| 0 <= i < ls.len() && #[trigger] ls[i].1 == d
}

impl MultiSend {
    /// The total of each denomination over `balances`: one coin per
    /// denomination that occurs, holding that denomination's total.
    pub fn sum_amounts(balances: &Vec<Balance>) -> (r: Vec<Coin>)
        requires
            amounts_in_range(legs(balances@)),
        ensures
            denoms_distinct(r@),
            forall|m: int|
                0 <= m < r@.len() ==> (#[trigger] r@[m]).amount == total(
                    legs(balances@),
                    r@[m].denom@,
                ),
            forall|d: Seq<char>| #[trigger] has_denom(r@, d) == has_leg_of(legs(balances@), d),
    {
        let ts = flatten(balances);
        let ghost ls = views(ts@);
        let ghost nowhere = Seq::<char>::empty();
        let mut r: Vec<Coin> = Vec::new();
        let mut i: usize = 0;
        while i < ts.len()
            invariant
                i <= ts.len(),
                ls == views(ts@),
                amounts_in_range(ls),
                denoms_distinct(r@),
                forall|d: Seq<char>| #[trigger]
                    total(coin_legs(nowhere, r@), d) == total(ls.take(i as int), d),
                forall|d: Seq<char>| #[trigger]
                    has_denom(r@, d) == has_leg_of(ls.take(i as int), d),
            decreases ts.len() - i,
        {
            let t = &ts[i];
            proof {
                assert(ls[i as int] == t@);
                lemma_prefix_bound(ls, i as int, of_denom(t.denom@));
                lemma_prefix_bound(ls, i + 1, of_denom(t.denom@));
                lemma_sum_prefix(ls, i as int, of_denom(t.denom@));
                assert forall|m: int|
                    0 <= m < r@.len() && #[trigger] r@[m].denom@ == t.denom@ implies i128::MIN
                        <= r@[m].amount + t.amount <= i128::MAX by {
                    lemma_coin_lookup(nowhere, r@, m);
                }
            }
            let ghost before = r@;
            add_to_coins(&mut r, &t.denom, t.amount);
            proof {
                assert forall|d: Seq<char>| #[trigger]
                    total(coin_legs(nowhere, r@), d) == total(ls.take(i + 1), d) by {
                    lemma_sum_prefix(ls, i as int, of_denom(d));
                    assert(sum_if(coin_legs(nowhere, r@), of_denom(d)) == sum_if(
                        coin_legs(nowhere, before),
                        of_denom(d),
                    ) + crate::sums::term((nowhere, t.denom@, t.amount as int), of_denom(d)));
                    assert(total(coin_legs(nowhere, before), d) == total(ls.take(i as int), d));
                }
                assert forall|d: Seq<char>| #[trigger]
                    has_denom(r@, d) == has_leg_of(ls.take(i + 1), d) by {
                    assert(has_denom(before, d) == has_leg_of(ls.take(i as int), d));
                    if has_leg_of(ls.take(i as int), d) {
                        let g = choose|g: int| 0 <= g < i && #[trigger] ls.take(i as int)[g].1 == d;
                        assert(ls.take(i + 1)[g].1 == d);
                    }
                    if d == t.denom@ {
                        assert(ls.take(i + 1)[i as int].1 == d);
                    }
                    if has_leg_of(ls.take(i + 1), d) {
                        let g = choose|g: int|
                            0 <= g < i + 1 && #[trigger] ls.take(i + 1)[g].1 == d;
                        if g < i {
                            assert(ls.take(i as int)[g].1 == d);
                        }
                    }
                }
            }
            i += 1;
        }
        proof {
            assert(ls.take(i as int) =~= ls);
            assert forall|m: int| 0 <= m < r@.len() implies (#[trigger] r@[m]).amount == total(
                legs(balances@),
                r@[m].denom@,
            ) by {
                lemma_coin_lookup(nowhere, r@, m);
            }
        }
        r
    }

    /// The totals of each denomination over the inputs.
    pub fn get_inputs_amounts_per_token(&self) -> (r: Vec<Coin>)
        requires
            amounts_in_range(legs(self.inputs@)),
        ensures
            denoms_distinct(r@),
            forall|m: int|
                0 <= m < r@.len() ==> (#[trigger] r@[m]).amount == total(
                    legs(self.inputs@),
                    r@[m].denom@,
                ),
            forall|d: Seq<char>| #[trigger] has_denom(r@, d) == has_leg_of(legs(self.inputs@), d),
    {
        MultiSend::sum_amounts(&self.inputs)
    }

    /// The totals of each denomination over the outputs.
    pub fn get_output_amounts_per_token(&self) -> (r: Vec<Coin>)
        requires
            amounts_in_range(legs(self.outputs@)),
        ensures
            denoms_distinct(r@),
            forall|m: int|
                0 <= m < r@.len() ==> (#[trigger] r@[m]).amount == total(
                    legs(self.outputs@),
                    r@[m].denom@,
                ),
            forall|d: Seq<char>| #[trigger] has_denom(r@, d) == has_leg_of(legs(self.outputs@), d),
    {
        MultiSend::sum_amounts(&self.outputs)
    }

    /// What each address sends or receives of each denomination over
    /// `balances`, one balance per address and one coin per denomination.
    pub fn get_amounts_per_address(&self, balances: &Vec<Balance>) -> (r: Vec<Balance>)
        requires
            amounts_in_range(legs(balances@)),
        ensures
            grouped(r@),
            forall|a: Seq<char>, d: Seq<char>| #[trigger]
                held(legs(r@), a, d) == held(legs(balances@), a, d),
            forall|a: Seq<char>, d: Seq<char>| #[trigger]
                has_coin(r@, a, d) == has_pair(legs(balances@), a, d),
            forall|k: int| 0 <= k < r@.len() ==> #[trigger] r@[k].coins@.len() > 0,
    {
        let ts = flatten(balances);
        let ghost ls = views(ts@);
        let mut r: Vec<Balance> = Vec::new();
        let mut i: usize = 0;
        proof {
            assert(legs(r@) =~= Seq::<Leg>::empty());
            assert(ls.take(0) =~= Seq::<Leg>::empty());
        }
        while i < ts.len()
            invariant
                i <= ts.len(),
                ls == views(ts@),
                amounts_in_range(ls),
                grouped(r@),
                forall|keep: Selector| #[trigger]
                    sum_if(legs(r@), keep) == sum_if(ls.take(i as int), keep),
                forall|a: Seq<char>, d: Seq<char>| #[trigger]
                    has_coin(r@, a, d) == has_pair(ls.take(i as int), a, d),
                forall|k: int| 0 <= k < r@.len() ==> #[trigger] r@[k].coins@.len() > 0,
            decreases ts.len() - i,
        {
            let t = &ts[i];
            proof {
                assert(ls[i as int] == t@);
                lemma_prefix_bound(ls, i as int, of_pair(t.address@, t.denom@));
                lemma_prefix_bound(ls, i + 1, of_pair(t.address@, t.denom@));
                lemma_sum_prefix(ls, i as int, of_pair(t.address@, t.denom@));
                assert(sum_if(legs(r@), of_pair(t.address@, t.denom@)) == sum_if(
                    ls.take(i as int),
                    of_pair(t.address@, t.denom@),
                ));
                assert forall|k: int, m: int|
                    0 <= k < r@.len() && 0 <= m < r@[k].coins@.len() && r@[k].address@
                        == t.address@ && #[trigger] r@[k].coins@[m].denom@ == t.denom@ implies i128::MIN
                        <= r@[k].coins@[m].amount + t.amount <= i128::MAX by {
                    lemma_held_lookup(r@, k, m);
                }
            }
            let ghost before = r@;
            post(&mut r, &t.address, &t.denom, t.amount);
            assert forall|keep: Selector| #[trigger]
                sum_if(legs(r@), keep) == sum_if(ls.take(i + 1), keep) by {
                lemma_sum_prefix(ls, i as int, keep);
                assert(sum_if(legs(r@), keep) == sum_if(legs(before), keep) + crate::sums::term(
                    (t.address@, t.denom@, t.amount as int),
                    keep,
                ));
            }
            assert forall|a: Seq<char>, d: Seq<char>| #[trigger]
                has_coin(r@, a, d) == has_pair(ls.take(i + 1), a, d) by {
                crate::accounting::lemma_pair_step(ls, i as int, a, d);
                assert(has_coin(before, a, d) == has_pair(ls.take(i as int), a, d));
            }
            i += 1;
        }
        proof {
            assert(ls.take(i as int) =~= ls);
            assert forall|a: Seq<char>, d: Seq<char>| #[trigger]
                held(legs(r@), a, d) == held(legs(balances@), a, d) by {
                assert(sum_if(legs(r@), of_pair(a, d)) == sum_if(ls.take(i as int), of_pair(a, d)));
            }
        }
        r
    }

    /// What each address sends of each denomination.
    pub fn get_inputs_amounts_per_address(&self) -> (r: Vec<Balance>)
        requires
            amounts_in_range(legs(self.inputs@)),
        ensures
            grouped(r@),
            forall|a: Seq<char>, d: Seq<char>| #[trigger]
                held(legs(r@), a, d) == held(legs(self.inputs@), a, d),
            forall|a: Seq<char>, d: Seq<char>| #[trigger]
                has_coin(r@, a, d) == has_pair(legs(self.inputs@), a, d),
            forall|k: int| 0 <= k < r@.len() ==> #[trigger] r@[k].coins@.len() > 0,
    {
        self.get_amounts_per_address(&self.inputs)
    }

    /// What each address receives of each denomination.
    pub fn get_outputs_amounts_per_address(&self) -> (r: Vec<Balance>)
        requires
            amounts_in_range(legs(self.outputs@)),
        ensures
            grouped(r@),
            forall|a: Seq<char>, d: Seq<char>| #[trigger]
                held(legs(r@), a, d) == held(legs(self.outputs@), a, d),
            forall|a: Seq<char>, d: Seq<char>| #[trigger]
                has_coin(r@, a, d) == has_pair(legs(self.outputs@), a, d),
            forall|k: int| 0 <= k < r@.len() ==> #[trigger] r@[k].coins@.len() > 0,
    {
        self.get_amounts_per_address(&self.outputs)
    }
}

} // verus!
