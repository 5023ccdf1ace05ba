use vstd::prelude::*;
use crate::fees::fee_on_amount;
use crate::ledger::{flatten, held_of, total_of};
use crate::model::{
    amounts_in_range, legs, views, Balance, Coin, DenomDefinition, Error, MultiSend, Transfer,
};
use crate::rules::{
    amount_of, definition_of, first_mismatch, first_shortfall, first_unknown, outcome, rates_wf,
    record_of, rejection, required,
};

verus! {

/// The index of the first definition of `d`.
pub fn find_definition(defs: &Vec<DenomDefinition>, d: &String) -> (r: Option<usize>)
    ensures
        match r {
            Some(k) => k < defs.len() && definition_of(defs@, d@) == Some(defs@[k as int]),
            None => definition_of(defs@, d@) is None,
        },
{
    let mut k: usize = 0;
    assert(defs@.skip(0) =~= defs@);
    while k < defs.len()
        invariant
            k <= defs.len(),
            definition_of(defs@, d@) == definition_of(defs@.skip(k as int), d@),
        decreases defs.len() - k,
    {
        assert(defs@.skip(k as int).drop_first() =~= defs@.skip(k + 1));
        if defs[k].denom == *d {
            return Some(k);
        }
        k += 1;
    }
    None
}

/// The index of the first balance record of `a`.
pub fn find_record(bals: &Vec<Balance>, a: &String) -> (r: Option<usize>)
    ensures
        match r {
            Some(k) => k < bals.len() && record_of(bals@, a@) == Some(bals@[k as int]),
            None => record_of(bals@, a@) is None,
        },
{
    let mut k: usize = 0;
    assert(bals@.skip(0) =~= bals@);
    while k < bals.len()
        invariant
            k <= bals.len(),
            record_of(bals@, a@) == record_of(bals@.skip(k as int), a@),
        decreases bals.len() - k,
    {
        assert(bals@.skip(k as int).drop_first() =~= bals@.skip(k + 1));
        if bals[k].address == *a {
            return Some(k);
        }
        k += 1;
    }
    None
}

/// The amount of the first coin of `d`, or zero.
pub fn find_amount(cs: &Vec<Coin>, d: &String) -> (r: i128)
    ensures
        r == amount_of(cs@, d@),
{
    let mut k: usize = 0;
    assert(cs@.skip(0) =~= cs@);
    while k < cs.len()
        invariant
            k <= cs.len(),
            amount_of(cs@, d@) == amount_of(cs@.skip(k as int), d@),
        decreases cs.len() - k,
    {
        assert(cs@.skip(k as int).drop_first() =~= cs@.skip(k + 1));
        if cs[k].denom == *d {
            return cs[k].amount;
        }
        k += 1;
    }
    0
}

/// Rejects the first candidate whose denomination the sides total differently.
fn check_sides(cands: &Vec<Transfer>, ins: &Vec<Transfer>, outs: &Vec<Transfer>) -> (r: Result<
    (),
    Error,
>)
    requires
        amounts_in_range(views(ins@)),
        amounts_in_range(views(outs@)),
    ensures
        outcome(r) == first_mismatch(views(cands@), views(ins@), views(outs@)),
{
    let ghost cs = views(cands@);
    let mut i: usize = 0;
    assert(cs.skip(0) =~= cs);
    while i < cands.len()
        invariant
            i <= cands.len(),
            cs == views(cands@),
            amounts_in_range(views(ins@)),
            amounts_in_range(views(outs@)),
            first_mismatch(cs, views(ins@), views(outs@)) == first_mismatch(
                cs.skip(i as int),
                views(ins@),
                views(outs@),
            ),
        decreases cands.len() - i,
    {
        assert(cs.skip(i as int).drop_first() =~= cs.skip(i + 1));
        let d = &cands[i].denom;
        if total_of(ins, d) != total_of(outs, d) {
            return Err(Error::AmountMismatch(d.clone()));
        }
        i += 1;
    }
    Ok(())
}

/// Rejects the first candidate whose denomination has no definition.
fn check_known(cands: &Vec<Transfer>, defs: &Vec<DenomDefinition>) -> (r: Result<(), Error>)
    ensures
        outcome(r) == first_unknown(views(cands@), defs@),
{
    let ghost cs = views(cands@);
    let mut i: usize = 0;
    assert(cs.skip(0) =~= cs);
    while i < cands.len()
        invariant
            i <= cands.len(),
            cs == views(cands@),
            first_unknown(cs, defs@) == first_unknown(cs.skip(i as int), defs@),
        decreases cands.len() - i,
    {
        assert(cs.skip(i as int).drop_first() =~= cs.skip(i + 1));
        let d = &cands[i].denom;
        if find_definition(defs, d).is_none() {
            return Err(Error::UnknownDenom(d.clone()));
        }
        i += 1;
    }
    Ok(())
}

/// Rejects the first sender without a record, sending in a denomination
/// without definition, or holding less than the amount it sends and the fees
/// on that amount taken on its own.
fn check_solvency(ins: &Vec<Transfer>, bals: &Vec<Balance>, defs: &Vec<DenomDefinition>) -> (r:
    Result<(), Error>)
    requires
        amounts_in_range(views(ins@)),
        rates_wf(defs@),
    ensures
        outcome(r) == first_shortfall(views(ins@), views(ins@), bals@, defs@),
{
    let ghost ls = views(ins@);
    let mut i: usize = 0;
    assert(ls.skip(0) =~= ls);
    while i < ins.len()
        invariant
            i <= ins.len(),
            ls == views(ins@),
            amounts_in_range(ls),
            rates_wf(defs@),
            first_shortfall(ls, ls, bals@, defs@) == first_shortfall(
                ls.skip(i as int),
                ls,
                bals@,
                defs@,
            ),
        decreases ins.len() - i,
    {
        assert(ls.skip(i as int).drop_first() =~= ls.skip(i + 1));
        let a = &ins[i].address;
        let d = &ins[i].denom;
        match find_record(bals, a) {
            None => {
                return Err(Error::AddressNotFound(a.clone()));
            },
            Some(k) => {
                match find_definition(defs, d) {
                    None => {
                        return Err(Error::UnknownDenom(d.clone()));
                    },
                    Some(j) => {
                        let def = &defs[j];
                        assert(rates_wf(defs@) ==> def.burn_rate.wf());
                        let v = held_of(ins, a, d);
                        let need = if def.issuer == *a {
                            v
                        } else {
                            v + fee_on_amount(v, def.burn_rate) + fee_on_amount(
                                v,
                                def.commission_rate,
                            )
                        };
                        assert(need == required(ls, a@, d@, *def));
                        if find_amount(&bals[k].coins, d) < need {
                            return Err(Error::InsufficientBalance(a.clone(), d.clone()));
                        }
                    },
                }
            },
        }
        i += 1;
    }
    Ok(())
}

/// Checks a transaction, given as its input and output legs, against the
/// balances before it and the definitions of its denominations.
pub fn check(
    ins: &Vec<Transfer>,
    outs: &Vec<Transfer>,
    bals: &Vec<Balance>,
    defs: &Vec<DenomDefinition>,
) -> (r: Result<(), Error>)
    requires
        amounts_in_range(views(ins@)),
        amounts_in_range(views(outs@)),
        rates_wf(defs@),
    ensures
        outcome(r) == rejection(bals@, defs@, views(ins@), views(outs@)),
{
    check_sides(ins, ins, outs)?;
    check_sides(outs, ins, outs)?;
    check_known(ins, defs)?;
    check_known(outs, defs)?;
    check_solvency(ins, bals, defs)
}

/// Checks `tx` against the balances before it and the definitions of its
/// denominations, and names the first violation. The outcome is fixed by the
/// arguments alone, so checking the same arguments again gives the same
/// outcome.
pub fn validate(tx: &MultiSend, balances: &Vec<Balance>, definitions: &Vec<DenomDefinition>) -> (r:
    Result<(), Error>)
    requires
        amounts_in_range(legs(tx.inputs@)),
        amounts_in_range(legs(tx.outputs@)),
        rates_wf(definitions@),
    ensures
        outcome(r) == rejection(balances@, definitions@, legs(tx.inputs@), legs(tx.outputs@)),
{
    let ins = flatten(&tx.inputs);
    let outs = flatten(&tx.outputs);
    check(&ins, &outs, balances, definitions)
}

impl MultiSend {
    /// Rejects the transaction when, for some denomination, its inputs and
    /// outputs total differently; a side without that denomination totals
    /// zero. The first such denomination is named, inputs scanned before
    /// outputs.
    pub fn assert_input_output_amounts_should_same(&self) -> (r: Result<(), Error>)
        requires
            amounts_in_range(legs(self.inputs@)),
            amounts_in_range(legs(self.outputs@)),
        ensures
            outcome(r) == if first_mismatch(
                legs(self.inputs@),
                legs(self.inputs@),
                legs(self.outputs@),
            ) is Some {
                first_mismatch(legs(self.inputs@), legs(self.inputs@), legs(self.outputs@))
            } else {
                first_mismatch(legs(self.outputs@), legs(self.inputs@), legs(self.outputs@))
            },
    {
        let ins = flatten(&self.inputs);
        let outs = flatten(&self.outputs);
        check_sides(&ins, &ins, &outs)?;
        check_sides(&outs, &ins, &outs)
    }

    /// Rejects the transaction when, for the first input leg in order that
    /// fails, its sender has no balance record, its denomination has no
    /// definition, or its sender holds less of the leg's
    /// denomination than all it sends of it plus, unless it is the issuer,
    /// the burn and the commission on that sum taken on its own.
    pub fn assert_balances_should_bigger_than_input(
        &self,
        balances: &Vec<Balance>,
        definitions: &Vec<DenomDefinition>,
    ) -> (r: Result<(), Error>)
        requires
            amounts_in_range(legs(self.inputs@)),
            rates_wf(definitions@),
        ensures
            outcome(r) == first_shortfall(
                legs(self.inputs@),
                legs(self.inputs@),
                balances@,
                definitions@,
            ),
    {
        let ins = flatten(&self.inputs);
        check_solvency(&ins, balances, definitions)
    }
}

} // verus!
