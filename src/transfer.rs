use vstd::prelude::*;
use crate::accounting::{
    lemma_absent_held, lemma_all_known, lemma_fee_share_bounds, lemma_pair_step,
    lemma_shares_bounds, lemma_sides_agree,
};
use crate::fees::proportional_share;
use crate::ledger::{flatten, held_of, non_issuer_total_of, post, prune};
use crate::model::{
    amounts_in_range, any_leg, grouped, has_pair, held, legs, of_denom, of_denom_not_from, of_pair,
    pruned, sum_if, total, views, Balance, DenomDefinition, Error, FeeShare, Leg, MultiSend, Selector,
    Transfer, MAX_TOTAL,
};
use crate::rules::{
    are_fees_of, burned, commissioned, delta, fee_share, first_at, first_mismatch,
    first_unknown, firsts_upto, is_fee_of, is_issuer, rates_wf, rejection, shares_upto,
};
use crate::sums::{lemma_held_lookup, lemma_prefix_bound, lemma_sum_mono, lemma_sum_prefix, term};
use crate::validation::{find_definition, validate};

verus! {

/// What each pair holds once the inputs and the fees are posted.
pub open spec fn after_fees(
    ins: Seq<Leg>,
    outs: Seq<Leg>,
    defs: Seq<DenomDefinition>,
    a: Seq<char>,
    d: Seq<char>,
) -> int {
    -held(ins, a, d) - (if has_pair(ins, a, d) {
        fee_share(ins, outs, defs, a, d, true) + fee_share(ins, outs, defs, a, d, false)
    } else {
        0
    }) + if is_issuer(defs, a, d) {
        commissioned(ins, outs, defs, d)
    } else {
        0
    }
}

/// In grouped changes each coin holds what is held of its pair.
proof fn lemma_coins_are_held(bs: Seq<Balance>, a: Seq<char>, d: Seq<char>)
    requires
        grouped(bs),
    ensures
        forall|k: int, m: int|
            0 <= k < bs.len() && 0 <= m < bs[k].coins@.len() && bs[k].address@ == a
                && #[trigger] bs[k].coins@[m].denom@ == d ==> bs[k].coins@[m].amount == held(
                legs(bs),
                a,
                d,
            ),
{
    assert forall|k: int, m: int|
        0 <= k < bs.len() && 0 <= m < bs[k].coins@.len() && bs[k].address@ == a
            && #[trigger] bs[k].coins@[m].denom@ == d implies bs[k].coins@[m].amount == held(
        legs(bs),
        a,
        d,
    ) by {
        lemma_held_lookup(bs, k, m);
    }
}

/// Whether the leg at `j` repeats the address and denomination of an earlier one.
fn seen_earlier(ts: &Vec<Transfer>, j: usize) -> (r: bool)
    requires
        j < ts.len(),
    ensures
        r == has_pair(views(ts@).take(j as int), ts@[j as int].address@, ts@[j as int].denom@),
{
    let ghost ls = views(ts@);
    let mut i: usize = 0;
    while i < j
        invariant
            i <= j < ts.len(),
            ls == views(ts@),
            forall|g: int|
                0 <= g < i ==> !(#[trigger] ls[g].0 == ts@[j as int].address@ && ls[g].1
                    == ts@[j as int].denom@),
        decreases j - i,
    {
        if ts[i].address == ts[j].address && ts[i].denom == ts[j].denom {
            assert(ls.take(j as int)[i as int] == ls[i as int]);
            assert(ls[i as int] == ts@[i as int]@);
            assert(ls.take(j as int)[i as int].0 == ts@[j as int].address@);
            return true;
        }
        i += 1;
    }
    proof {
        if has_pair(ls.take(j as int), ts@[j as int].address@, ts@[j as int].denom@) {
            let g = choose|g: int|
                0 <= g < j && #[trigger] ls.take(j as int)[g].0 == ts@[j as int].address@
                    && ls.take(j as int)[g].1 == ts@[j as int].denom@;
            assert(ls[g] == ls.take(j as int)[g]);
        }
    }
    false
}

/// The burn and commission shares that `a` pays on `d`.
fn shares_for(
    ins: &Vec<Transfer>,
    outs: &Vec<Transfer>,
    definitions: &Vec<DenomDefinition>,
    a: &String,
    d: &String,
) -> (r: (i128, i128))
    requires
        amounts_in_range(views(ins@)),
        amounts_in_range(views(outs@)),
        rates_wf(definitions@),
    ensures
        r.0 == fee_share(views(ins@), views(outs@), definitions@, a@, d@, true),
        r.1 == fee_share(views(ins@), views(outs@), definitions@, a@, d@, false),
{
    let ghost li = views(ins@);
    match find_definition(definitions, d) {
        None => (0, 0),
        Some(k) => {
            let def = &definitions[k];
            let ghost issuer = def.issuer@;
            assert(def.burn_rate.wf() && def.commission_rate.wf());
            if *a == def.issuer {
                return (0, 0);
            }
            let nin = non_issuer_total_of(ins, d, &def.issuer);
            let nout = non_issuer_total_of(outs, d, &def.issuer);
            let base = if nin <= nout {
                nin
            } else {
                nout
            };
            let h = held_of(ins, a, d);
            proof {
                lemma_sum_mono(li, of_pair(a@, d@), of_denom_not_from(d@, issuer));
            }
            (
                proportional_share(base, h, nin, def.burn_rate),
                proportional_share(base, h, nin, def.commission_rate),
            )
        },
    }
}

/// The fee shares of `tx`: for every sender and denomination of its inputs,
/// once each and in the order in which they first occur, the burn and the
/// commission it pays. For each denomination the fee base is the lesser of
/// what senders and what recipients other than the issuer move; each sender
/// other than the issuer pays `ceil(base * rate * sent / nin)`, where `nin` is
/// what all senders other than the issuer send, and nothing when `nin` is zero.
pub fn compute_fees(tx: &MultiSend, definitions: &Vec<DenomDefinition>) -> (r: Vec<FeeShare>)
    requires
        amounts_in_range(legs(tx.inputs@)),
        amounts_in_range(legs(tx.outputs@)),
        rates_wf(definitions@),
    ensures
        are_fees_of(r@, legs(tx.inputs@), legs(tx.outputs@), definitions@),
{
    let ins = flatten(&tx.inputs);
    let outs = flatten(&tx.outputs);
    let ghost li = views(ins@);
    let ghost lo = views(outs@);
    let ghost defs = definitions@;
    let mut fees: Vec<FeeShare> = Vec::new();
    let mut j: usize = 0;
    while j < ins.len()
        invariant
            j <= ins.len(),
            li == views(ins@),
            lo == views(outs@),
            defs == definitions@,
            amounts_in_range(li),
            amounts_in_range(lo),
            rates_wf(defs),
            fees@.len() == firsts_upto(li, j as int).len(),
            forall|i: int|
                0 <= i < fees@.len() ==> is_fee_of(
                    #[trigger] fees@[i],
                    firsts_upto(li, j as int)[i],
                    li,
                    lo,
                    defs,
                ),
        decreases ins.len() - j,
    {
        let t = &ins[j];
        assert(li[j as int] == t@);
        if !seen_earlier(&ins, j) {
            let (burn, commission) = shares_for(&ins, &outs, definitions, &t.address, &t.denom);
            let fee = FeeShare {
                address: t.address.clone(),
                denom: t.denom.clone(),
                burn,
                commission,
            };
            let ghost prev = fees@;
            fees.push(fee);
            assert forall|i: int| 0 <= i < fees@.len() implies is_fee_of(
                #[trigger] fees@[i],
                firsts_upto(li, j + 1)[i],
                li,
                lo,
                defs,
            ) by {
                if i < prev.len() {
                    assert(fees@[i] == prev[i]);
                }
            }
        }
        j += 1;
    }
    fees
}

/// The balance changes of `tx`, whose sides agree and whose denominations
/// are all defined, given its fee shares: every input is debited in full with
/// its sender's shares, every issuer is credited with the commission on its
/// denomination, every output is credited in full, and the pairs that net to
/// zero are left out. For each denomination the changes sum to minus what is
/// burnt.
pub fn project(tx: &MultiSend, definitions: &Vec<DenomDefinition>, fees: &Vec<FeeShare>) -> (r:
    Vec<Balance>)
    requires
        amounts_in_range(legs(tx.inputs@)),
        amounts_in_range(legs(tx.outputs@)),
        rates_wf(definitions@),
        first_mismatch(legs(tx.inputs@), legs(tx.inputs@), legs(tx.outputs@)) is None,
        first_mismatch(legs(tx.outputs@), legs(tx.inputs@), legs(tx.outputs@)) is None,
        first_unknown(legs(tx.inputs@), definitions@) is None,
        are_fees_of(fees@, legs(tx.inputs@), legs(tx.outputs@), definitions@),
    ensures
        pruned(r@),
        forall|a: Seq<char>, d: Seq<char>| #[trigger]
            held(legs(r@), a, d) == delta(
                legs(tx.inputs@),
                legs(tx.outputs@),
                definitions@,
                a,
                d,
            ),
        forall|d: Seq<char>| #[trigger]
            total(legs(r@), d) == -burned(legs(tx.inputs@), legs(tx.outputs@), definitions@, d),
{
    let ins = flatten(&tx.inputs);
    let outs = flatten(&tx.outputs);
    let ghost li = views(ins@);
    let ghost lo = views(outs@);
    let ghost defs = definitions@;
    let mut changes: Vec<Balance> = Vec::new();

    // Every input is debited.
    let mut j: usize = 0;
    proof {
        assert(li.take(0) =~= Seq::<Leg>::empty());
        assert(legs(changes@) =~= Seq::<Leg>::empty());
    }
    while j < ins.len()
        invariant
            j <= ins.len(),
            li == views(ins@),
            amounts_in_range(li),
            grouped(changes@),
            forall|keep: Selector| #[trigger]
                sum_if(legs(changes@), keep) == -sum_if(li.take(j as int), keep),
        decreases ins.len() - j,
    {
        let t = &ins[j];
        proof {
            lemma_coins_are_held(changes@, t.address@, t.denom@);
            lemma_prefix_bound(li, j as int, of_pair(t.address@, t.denom@));
            assert(li[j as int] == t@);
            assert(sum_if(legs(changes@), of_pair(t.address@, t.denom@)) == -sum_if(
                li.take(j as int),
                of_pair(t.address@, t.denom@),
            ));
            assert(0 <= t.amount <= MAX_TOTAL) by {
                lemma_prefix_bound(li, j + 1, of_pair(t.address@, t.denom@));
                lemma_sum_prefix(li, j as int, of_pair(t.address@, t.denom@));
            }
        }
        let ghost before = changes@;
        post(&mut changes, &t.address, &t.denom, -t.amount);
        assert forall|keep: Selector| #[trigger]
            sum_if(legs(changes@), keep) == -sum_if(li.take(j + 1), keep) by {
            lemma_sum_prefix(li, j as int, keep);
            assert(sum_if(legs(changes@), keep) == sum_if(legs(before), keep) + term(
                (t.address@, t.denom@, -t.amount as int),
                keep,
            ));
        }
        j += 1;
    }
    assert(li.take(j as int) =~= li);

    // Every sender pays its fee shares, once per denomination; the issuer
    // receives the commission.
    let mut j: usize = 0;
    let mut f: usize = 0;
    proof {
        assert forall|a: Seq<char>, d: Seq<char>| !has_pair(#[trigger] li.take(0), a, d) by {}
    }
    while j < ins.len()
        invariant
            j <= ins.len(),
            li == views(ins@),
            lo == views(outs@),
            defs == definitions@,
            amounts_in_range(li),
            amounts_in_range(lo),
            rates_wf(defs),
            first_unknown(li, defs) is None,
            are_fees_of(fees@, li, lo, defs),
            f == firsts_upto(li, j as int).len(),
            grouped(changes@),
            forall|a: Seq<char>, d: Seq<char>| #[trigger]
                held(legs(changes@), a, d) == -held(li, a, d) - (if has_pair(
                    li.take(j as int),
                    a,
                    d,
                ) {
                    fee_share(li, lo, defs, a, d, true) + fee_share(li, lo, defs, a, d, false)
                } else {
                    0
                }) + if is_issuer(defs, a, d) {
                    shares_upto(li, lo, defs, d, j as int, false)
                } else {
                    0
                },
            forall|d: Seq<char>| #[trigger]
                total(legs(changes@), d) == -total(li, d) - shares_upto(
                    li,
                    lo,
                    defs,
                    d,
                    j as int,
                    true,
                ),
        decreases ins.len() - j,
    {
        let t = &ins[j];
        let ghost (ta, td) = (t.address@, t.denom@);
        proof {
            assert(li[j as int] == t@);
            assert forall|a: Seq<char>, d: Seq<char>| #[trigger]
                has_pair(li.take(j + 1), a, d) == (has_pair(li.take(j as int), a, d) || (a == ta
                    && d == td)) by {
                lemma_pair_step(li, j as int, a, d);
            }
        }
        if !seen_earlier(&ins, j) {
            proof {
                lemma_all_known(li, defs, j as int);
                crate::rules::lemma_firsts_prefix(li, j + 1, li.len() as int);
                assert(first_at(li, j as int));
                assert(firsts_upto(li, j + 1).len() == f + 1);
                assert(f < fees@.len());
                assert(f < fees.len());
            }
            if let Some(k) = find_definition(&definitions, &t.denom) {
                let def = &definitions[k];
                let ghost issuer = def.issuer@;
                assert(def.burn_rate.wf() && def.commission_rate.wf());
                assert(firsts_upto(li, j + 1)[f as int] == li[j as int]);
                let burn = fees[f].burn;
                let commission = fees[f].commission;
                proof {
                    lemma_fee_share_bounds(li, lo, defs, ta, td, true);
                    lemma_fee_share_bounds(li, lo, defs, ta, td, false);
                    lemma_shares_bounds(li, lo, defs, td, j as int, false);
                    lemma_shares_bounds(li, lo, defs, td, j as int, true);
                    lemma_sum_mono(li, of_pair(issuer, td), any_leg());
                    lemma_coins_are_held(changes@, ta, td);
                    assert(held(legs(changes@), ta, td) == -held(li, ta, td) + if is_issuer(
                        defs,
                        ta,
                        td,
                    ) {
                        shares_upto(li, lo, defs, td, j as int, false)
                    } else {
                        0
                    });
                }
                let ghost c0 = changes@;
                post(&mut changes, &t.address, &t.denom, -(burn + commission));
                let ghost c1 = changes@;
                proof {
                    lemma_coins_are_held(c1, issuer, td);
                    assert(sum_if(legs(c1), of_pair(issuer, td)) == sum_if(
                        legs(c0),
                        of_pair(issuer, td),
                    ) + term((ta, td, -(burn + commission) as int), of_pair(issuer, td)));
                    assert(held(legs(c0), issuer, td) == -held(li, issuer, td) + shares_upto(
                        li,
                        lo,
                        defs,
                        td,
                        j as int,
                        false,
                    ));
                }
                post(&mut changes, &def.issuer, &t.denom, commission);
                proof {
                    assert forall|a: Seq<char>, d: Seq<char>| #[trigger]
                        held(legs(changes@), a, d) == -held(li, a, d) - (if has_pair(
                            li.take(j + 1),
                            a,
                            d,
                        ) {
                            fee_share(li, lo, defs, a, d, true) + fee_share(
                                li,
                                lo,
                                defs,
                                a,
                                d,
                                false,
                            )
                        } else {
                            0
                        }) + if is_issuer(defs, a, d) {
                            shares_upto(li, lo, defs, d, j + 1, false)
                        } else {
                            0
                        } by {
                        assert(sum_if(legs(c1), of_pair(a, d)) == sum_if(legs(c0), of_pair(a, d))
                            + term((ta, td, -(burn + commission) as int), of_pair(a, d)));
                        assert(sum_if(legs(changes@), of_pair(a, d)) == sum_if(
                            legs(c1),
                            of_pair(a, d),
                        ) + term((issuer, td, commission as int), of_pair(a, d)));
                        assert(held(legs(c0), a, d) == sum_if(legs(c0), of_pair(a, d)));
                    }
                    assert forall|d: Seq<char>| #[trigger]
                        total(legs(changes@), d) == -total(li, d) - shares_upto(
                            li,
                            lo,
                            defs,
                            d,
                            j + 1,
                            true,
                        ) by {
                        assert(sum_if(legs(c1), of_denom(d)) == sum_if(legs(c0), of_denom(d))
                            + term((ta, td, -(burn + commission) as int), of_denom(d)));
                        assert(sum_if(legs(changes@), of_denom(d)) == sum_if(
                            legs(c1),
                            of_denom(d),
                        ) + term((issuer, td, commission as int), of_denom(d)));
                        assert(total(legs(c0), d) == sum_if(legs(c0), of_denom(d)));
                    }
                }
            }
            f += 1;
        } else {
            proof {
                assert forall|a: Seq<char>, d: Seq<char>| #[trigger]
                    has_pair(li.take(j + 1), a, d) == has_pair(li.take(j as int), a, d) by {}
                assert(!first_at(li, j as int));
                assert forall|d: Seq<char>, burn: bool| #[trigger]
                    shares_upto(li, lo, defs, d, j + 1, burn) == shares_upto(
                        li,
                        lo,
                        defs,
                        d,
                        j as int,
                        burn,
                    ) by {}
            }
        }
        j += 1;
    }

    // Every output is credited in full.
    let mut i: usize = 0;
    proof {
        assert(lo.take(0) =~= Seq::<Leg>::empty());
        assert forall|a: Seq<char>, d: Seq<char>| #[trigger]
            held(legs(changes@), a, d) == after_fees(li, lo, defs, a, d) + held(lo.take(0), a, d) by {
            assert(li.take(j as int) =~= li);
        }
        assert forall|d: Seq<char>| #[trigger]
            total(legs(changes@), d) == -total(li, d) - burned(li, lo, defs, d) + total(
                lo.take(0),
                d,
            ) by {
            assert(li.take(j as int) =~= li);
        }
    }
    while i < outs.len()
        invariant
            i <= outs.len(),
            li == views(ins@),
            lo == views(outs@),
            defs == definitions@,
            amounts_in_range(li),
            amounts_in_range(lo),
            rates_wf(defs),
            grouped(changes@),
            forall|a: Seq<char>, d: Seq<char>| #[trigger]
                held(legs(changes@), a, d) == after_fees(li, lo, defs, a, d) + held(
                    lo.take(i as int),
                    a,
                    d,
                ),
            forall|d: Seq<char>| #[trigger]
                total(legs(changes@), d) == -total(li, d) - burned(li, lo, defs, d) + total(
                    lo.take(i as int),
                    d,
                ),
        decreases outs.len() - i,
    {
        let t = &outs[i];
        let ghost (ta, td) = (t.address@, t.denom@);
        proof {
            assert(lo[i as int] == t@);
            lemma_coins_are_held(changes@, ta, td);
            lemma_prefix_bound(lo, i as int, of_pair(ta, td));
            lemma_fee_share_bounds(li, lo, defs, ta, td, true);
            lemma_fee_share_bounds(li, lo, defs, ta, td, false);
            lemma_shares_bounds(li, lo, defs, td, li.len() as int, false);
            lemma_sum_mono(lo, any_leg(), any_leg());
            assert(0 <= t.amount <= MAX_TOTAL) by {
                lemma_prefix_bound(lo, i + 1, of_pair(ta, td));
                lemma_sum_prefix(lo, i as int, of_pair(ta, td));
            }
        }
        let ghost before = changes@;
        post(&mut changes, &t.address, &t.denom, t.amount);
        proof {
            assert forall|a: Seq<char>, d: Seq<char>| #[trigger]
                held(legs(changes@), a, d) == after_fees(li, lo, defs, a, d) + held(
                    lo.take(i + 1),
                    a,
                    d,
                ) by {
                lemma_sum_prefix(lo, i as int, of_pair(a, d));
                assert(held(legs(before), a, d) == after_fees(li, lo, defs, a, d) + held(
                    lo.take(i as int),
                    a,
                    d,
                ));
                assert(sum_if(legs(changes@), of_pair(a, d)) == sum_if(legs(before), of_pair(a, d))
                    + term((ta, td, t.amount as int), of_pair(a, d)));
            }
            assert forall|d: Seq<char>| #[trigger]
                total(legs(changes@), d) == -total(li, d) - burned(li, lo, defs, d) + total(
                    lo.take(i + 1),
                    d,
                ) by {
                lemma_sum_prefix(lo, i as int, of_denom(d));
                assert(total(legs(before), d) == -total(li, d) - burned(li, lo, defs, d) + total(
                    lo.take(i as int),
                    d,
                ));
                assert(sum_if(legs(changes@), of_denom(d)) == sum_if(legs(before), of_denom(d))
                    + term((ta, td, t.amount as int), of_denom(d)));
            }
        }
        i += 1;
    }
    let result = prune(&changes);
    proof {
        assert(lo.take(i as int) =~= lo);
        assert forall|a: Seq<char>, d: Seq<char>| #[trigger]
            held(legs(result@), a, d) == delta(li, lo, defs, a, d) by {
            assert(sum_if(legs(result@), of_pair(a, d)) == sum_if(legs(changes@), of_pair(a, d)));
            assert(held(legs(changes@), a, d) == after_fees(li, lo, defs, a, d) + held(
                lo.take(i as int),
                a,
                d,
            ));
            if !has_pair(li, a, d) {
                lemma_absent_held(li, a, d);
                lemma_fee_share_bounds(li, lo, defs, a, d, true);
                lemma_fee_share_bounds(li, lo, defs, a, d, false);
            }
        }
        assert forall|d: Seq<char>| #[trigger]
            total(legs(result@), d) == -burned(li, lo, defs, d) by {
            assert(sum_if(legs(result@), of_denom(d)) == sum_if(legs(changes@), of_denom(d)));
            assert(total(legs(changes@), d) == -total(li, d) - burned(li, lo, defs, d) + total(
                lo.take(i as int),
                d,
            ));
            lemma_sides_agree(li, lo, d);
        }
    }
    result
}

/// Computes the balance changes of `multi_send_tx`: it is first checked
/// against `original_balances` and `definitions`, and rejected with the first
/// violation found; otherwise its fee shares are computed and its changes
/// projected from them.
pub fn calculate_balance_changes(
    original_balances: Vec<Balance>,
    definitions: Vec<DenomDefinition>,
    multi_send_tx: MultiSend,
) -> (r: Result<Vec<Balance>, Error>)
    requires
        amounts_in_range(legs(multi_send_tx.inputs@)),
        amounts_in_range(legs(multi_send_tx.outputs@)),
        rates_wf(definitions@),
    ensures
        match r {
            Ok(changes) => {
                &&& rejection(
                    original_balances@,
                    definitions@,
                    legs(multi_send_tx.inputs@),
                    legs(multi_send_tx.outputs@),
                ) is None
                &&& pruned(changes@)
                &&& forall|a: Seq<char>, d: Seq<char>| #[trigger]
                    held(legs(changes@), a, d) == delta(
                        legs(multi_send_tx.inputs@),
                        legs(multi_send_tx.outputs@),
                        definitions@,
                        a,
                        d,
                    )
                &&& forall|d: Seq<char>| #[trigger]
                    total(legs(changes@), d) == -burned(
                        legs(multi_send_tx.inputs@),
                        legs(multi_send_tx.outputs@),
                        definitions@,
                        d,
                    )
            },
            Err(e) => rejection(
                original_balances@,
                definitions@,
                legs(multi_send_tx.inputs@),
                legs(multi_send_tx.outputs@),
            ) == Some(e@),
        },
{
    validate(&multi_send_tx, &original_balances, &definitions)?;
    let fees = compute_fees(&multi_send_tx, &definitions);
    Ok(project(&multi_send_tx, &definitions, &fees))
}

} // verus!
