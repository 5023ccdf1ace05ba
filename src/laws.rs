use vstd::prelude::*;
use crate::accounting::{
    lemma_fee_share_bounds, lemma_shares_cover, lemma_shares_within_senders, lemma_sides_agree,
    senders_upto,
};
use crate::fees::{lemma_ceil_div_is_ceiling, share};
use crate::model::{
    amounts_in_range, held, legs, non_issuer_total, total, Balance, DenomDefinition, Leg,
    MultiSend, Rejection,
};
use crate::rules::{
    burned, commissioned, definition_of, delta, fee_base, fee_share, first_at, first_mismatch,
    is_issuer, rates_wf, rejection, required, shares_upto,
};

verus! {

proof fn lemma_mismatch_kind(cands: Seq<Leg>, ins: Seq<Leg>, outs: Seq<Leg>)
    requires
        first_mismatch(cands, ins, outs) is Some,
    ensures
        first_mismatch(cands, ins, outs).unwrap() is AmountMismatch,
    decreases cands.len(),
{
    if total(ins, cands[0].1) == total(outs, cands[0].1) {
        lemma_mismatch_kind(cands.drop_first(), ins, outs);
    }
}

/// A transaction whose inputs and outputs total differently in some
/// denomination is rejected for an amount mismatch, whatever the balances.
pub proof fn law_mismatch_is_rejected(
    balances: Seq<Balance>,
    definitions: Seq<DenomDefinition>,
    tx: MultiSend,
    d: Seq<char>,
)
    requires
        total(legs(tx.inputs@), d) != total(legs(tx.outputs@), d),
    ensures
        rejection(balances, definitions, legs(tx.inputs@), legs(tx.outputs@)) matches Some(
            Rejection::AmountMismatch(_),
        ),
{
    let ins = legs(tx.inputs@);
    let outs = legs(tx.outputs@);
    if first_mismatch(ins, ins, outs) is Some {
        lemma_mismatch_kind(ins, ins, outs);
    } else if first_mismatch(outs, ins, outs) is Some {
        lemma_mismatch_kind(outs, ins, outs);
    } else {
        lemma_sides_agree(ins, outs, d);
    }
}

/// The issuer of a denomination pays neither burn nor commission on it, and
/// needs to hold only what it sends.
pub proof fn law_issuer_is_exempt(
    definitions: Seq<DenomDefinition>,
    tx: MultiSend,
    d: Seq<char>,
    def: DenomDefinition,
)
    requires
        definition_of(definitions, d) == Some(def),
    ensures
        fee_share(legs(tx.inputs@), legs(tx.outputs@), definitions, def.issuer@, d, true) == 0,
        fee_share(legs(tx.inputs@), legs(tx.outputs@), definitions, def.issuer@, d, false) == 0,
        required(legs(tx.inputs@), def.issuer@, d, def) == held(legs(tx.inputs@), def.issuer@, d),
{
}

/// Each sender's share is the ceiling of its exact part `base * rate * h / nin`:
/// scaled by `den * nin`, it is at least the exact part and less than one
/// unit above it.
pub proof fn law_share_is_ceiling(
    definitions: Seq<DenomDefinition>,
    tx: MultiSend,
    a: Seq<char>,
    d: Seq<char>,
    def: DenomDefinition,
    burn: bool,
)
    requires
        amounts_in_range(legs(tx.inputs@)),
        amounts_in_range(legs(tx.outputs@)),
        rates_wf(definitions),
        definition_of(definitions, d) == Some(def),
        a != def.issuer@,
        non_issuer_total(legs(tx.inputs@), d, def.issuer@) > 0,
    ensures
        ({
            let ins = legs(tx.inputs@);
            let outs = legs(tx.outputs@);
            let rate = if burn {
                def.burn_rate
            } else {
                def.commission_rate
            };
            let scale = rate.denominator * non_issuer_total(ins, d, def.issuer@);
            let exact = fee_base(ins, outs, d, def.issuer@) * rate.numerator * held(ins, a, d);
            let s = fee_share(ins, outs, definitions, a, d, burn);
            &&& s * scale >= exact
            &&& (s - 1) * scale < exact
        }),
{
    let ins = legs(tx.inputs@);
    let outs = legs(tx.outputs@);
    let rate = if burn {
        def.burn_rate
    } else {
        def.commission_rate
    };
    let nin = non_issuer_total(ins, d, def.issuer@);
    let base = fee_base(ins, outs, d, def.issuer@);
    let h = held(ins, a, d);
    lemma_fee_share_bounds(ins, outs, definitions, a, d, burn);
    crate::sums::lemma_sum_mono(
        outs,
        crate::model::of_denom_not_from(d, def.issuer@),
        crate::model::of_denom_not_from(d, def.issuer@),
    );
    crate::sums::lemma_sum_mono(
        ins,
        crate::model::of_pair(a, d),
        crate::model::of_pair(a, d),
    );
    let k = crate::accounting::lemma_definition_in(definitions, d);
    assert(definitions[k].burn_rate.wf() && definitions[k].commission_rate.wf());
    assert(0 <= base * rate.numerator * h) by (nonlinear_arith)
        requires
            0 <= base,
            0 <= rate.numerator,
            0 <= h,
    ;
    assert(0 < rate.denominator * nin) by (nonlinear_arith)
        requires
            0 < rate.denominator,
            0 < nin,
    ;
    lemma_ceil_div_is_ceiling(base * rate.numerator * h, rate.denominator * nin);
}

/// Summed over senders, the shares cover the exact fee `base * rate`: scaled
/// by the rate's denominator, they are at least `base * num`.
pub proof fn law_shares_cover_fee(
    definitions: Seq<DenomDefinition>,
    tx: MultiSend,
    d: Seq<char>,
    def: DenomDefinition,
)
    requires
        amounts_in_range(legs(tx.inputs@)),
        amounts_in_range(legs(tx.outputs@)),
        rates_wf(definitions),
        definition_of(definitions, d) == Some(def),
    ensures
        burned(legs(tx.inputs@), legs(tx.outputs@), definitions, d) * def.burn_rate.denominator
            >= fee_base(legs(tx.inputs@), legs(tx.outputs@), d, def.issuer@)
            * def.burn_rate.numerator,
        commissioned(legs(tx.inputs@), legs(tx.outputs@), definitions, d)
            * def.commission_rate.denominator >= fee_base(
            legs(tx.inputs@),
            legs(tx.outputs@),
            d,
            def.issuer@,
        ) * def.commission_rate.numerator,
{
    let ins = legs(tx.inputs@);
    let outs = legs(tx.outputs@);
    let nin = non_issuer_total(ins, d, def.issuer@);
    let base = fee_base(ins, outs, d, def.issuer@);
    crate::sums::lemma_sum_mono(
        ins,
        crate::model::of_denom_not_from(d, def.issuer@),
        crate::model::of_denom_not_from(d, def.issuer@),
    );
    crate::accounting::lemma_shares_bounds(ins, outs, definitions, d, ins.len() as int, true);
    crate::accounting::lemma_shares_bounds(ins, outs, definitions, d, ins.len() as int, false);
    if nin == 0 {
        assert(base <= 0);
        let k = crate::accounting::lemma_definition_in(definitions, d);
        assert(definitions[k].burn_rate.wf() && definitions[k].commission_rate.wf());
        let b = burned(ins, outs, definitions, d);
        let c = commissioned(ins, outs, definitions, d);
        assert(b * def.burn_rate.denominator >= base * def.burn_rate.numerator) by (nonlinear_arith)
            requires
                0 <= b,
                0 <= def.burn_rate.denominator,
                base <= 0,
                0 <= def.burn_rate.numerator,
        ;
        assert(c * def.commission_rate.denominator >= base * def.commission_rate.numerator)
            by (nonlinear_arith)
            requires
                0 <= c,
                0 <= def.commission_rate.denominator,
                base <= 0,
                0 <= def.commission_rate.numerator,
        ;
    } else {
        lemma_shares_cover(ins, outs, definitions, d, def, true);
        lemma_shares_cover(ins, outs, definitions, d, def, false);
        let b = burned(ins, outs, definitions, d);
        let c = commissioned(ins, outs, definitions, d);
        let (bn, bd) = (def.burn_rate.numerator as int, def.burn_rate.denominator as int);
        let (cn, cd) = (def.commission_rate.numerator as int, def.commission_rate.denominator as int);
        assert(b * bd >= base * bn) by (nonlinear_arith)
            requires
                b * (bd * nin) >= base * bn * nin,
                nin > 0,
        ;
        assert(c * cd >= base * cn) by (nonlinear_arith)
            requires
                c * (cd * nin) >= base * cn * nin,
                nin > 0,
        ;
    }
}

/// A pair that sends nothing, receives nothing and is not the issuer nets to
/// zero, so it has no entry among the changes.
pub proof fn law_idle_pair_nets_to_zero(
    definitions: Seq<DenomDefinition>,
    tx: MultiSend,
    a: Seq<char>,
    d: Seq<char>,
)
    requires
        amounts_in_range(legs(tx.inputs@)),
        amounts_in_range(legs(tx.outputs@)),
        rates_wf(definitions),
        held(legs(tx.inputs@), a, d) == 0,
        held(legs(tx.outputs@), a, d) == 0,
        !is_issuer(definitions, a, d),
    ensures
        delta(legs(tx.inputs@), legs(tx.outputs@), definitions, a, d) == 0,
{
    lemma_fee_share_bounds(legs(tx.inputs@), legs(tx.outputs@), definitions, a, d, true);
    lemma_fee_share_bounds(legs(tx.inputs@), legs(tx.outputs@), definitions, a, d, false);
}

proof fn lemma_no_shares(
    ins: Seq<Leg>,
    outs: Seq<Leg>,
    defs: Seq<DenomDefinition>,
    d: Seq<char>,
    k: int,
    burn: bool,
)
    requires
        forall|a: Seq<char>| #[trigger] fee_share(ins, outs, defs, a, d, burn) == 0,
    ensures
        shares_upto(ins, outs, defs, d, k, burn) == 0,
    decreases k,
{
    if k > 0 {
        lemma_no_shares(ins, outs, defs, d, k - 1, burn);
        if ins[k - 1].1 == d && first_at(ins, k - 1) {
            assert(fee_share(ins, outs, defs, ins[k - 1].0, d, burn) == 0);
        }
    }
}

/// Where only the issuer sends a denomination, nobody pays a fee on it,
/// whatever its rates.
pub proof fn law_no_fee_without_outside_senders(
    definitions: Seq<DenomDefinition>,
    tx: MultiSend,
    d: Seq<char>,
    def: DenomDefinition,
)
    requires
        definition_of(definitions, d) == Some(def),
        non_issuer_total(legs(tx.inputs@), d, def.issuer@) == 0,
    ensures
        forall|a: Seq<char>, burn: bool| #[trigger]
            fee_share(legs(tx.inputs@), legs(tx.outputs@), definitions, a, d, burn) == 0,
        burned(legs(tx.inputs@), legs(tx.outputs@), definitions, d) == 0,
        commissioned(legs(tx.inputs@), legs(tx.outputs@), definitions, d) == 0,
{
    let ins = legs(tx.inputs@);
    let outs = legs(tx.outputs@);
    assert forall|a: Seq<char>, burn: bool| #[trigger]
        fee_share(ins, outs, definitions, a, d, burn) == 0 by {
        let rate = if burn {
            def.burn_rate
        } else {
            def.commission_rate
        };
        assert(share(fee_base(ins, outs, d, def.issuer@), held(ins, a, d), 0, rate) == 0);
    }
    lemma_no_shares(ins, outs, definitions, d, ins.len() as int, true);
    lemma_no_shares(ins, outs, definitions, d, ins.len() as int, false);
}

/// Summed over senders, the shares exceed the exact fee `base * rate` by less
/// than one unit per sender of a positive amount other than the issuer:
/// scaled by `den * nin`, they are below `base * num * nin` plus `n` scale
/// units, where `n`, at least one, counts those senders.
pub proof fn law_shares_within_one_per_sender(
    definitions: Seq<DenomDefinition>,
    tx: MultiSend,
    d: Seq<char>,
    def: DenomDefinition,
)
    requires
        amounts_in_range(legs(tx.inputs@)),
        amounts_in_range(legs(tx.outputs@)),
        rates_wf(definitions),
        definition_of(definitions, d) == Some(def),
        non_issuer_total(legs(tx.inputs@), d, def.issuer@) > 0,
    ensures
        ({
            let ins = legs(tx.inputs@);
            let outs = legs(tx.outputs@);
            let nin = non_issuer_total(ins, d, def.issuer@);
            let base = fee_base(ins, outs, d, def.issuer@);
            let n = senders_upto(ins, d, def.issuer@, ins.len() as int);
            let (bn, bd) = (def.burn_rate.numerator as int, def.burn_rate.denominator as int);
            let (cn, cd) = (
                def.commission_rate.numerator as int,
                def.commission_rate.denominator as int,
            );
            &&& 1 <= n
            &&& burned(ins, outs, definitions, d) * (bd * nin) < base * bn * nin + n * (bd * nin)
            &&& commissioned(ins, outs, definitions, d) * (cd * nin) < base * cn * nin + n * (cd
                * nin)
        }),
{
    let ins = legs(tx.inputs@);
    let outs = legs(tx.outputs@);
    lemma_shares_within_senders(ins, outs, definitions, d, def, true);
    lemma_shares_within_senders(ins, outs, definitions, d, def, false);
}

/// Where every input line of a denomination is its issuer's, nothing flows
/// between other parties: the fee base is zero and nobody pays a fee on it.
pub proof fn law_issuer_only_inputs_pay_no_fee(
    definitions: Seq<DenomDefinition>,
    tx: MultiSend,
    d: Seq<char>,
    def: DenomDefinition,
)
    requires
        amounts_in_range(legs(tx.outputs@)),
        definition_of(definitions, d) == Some(def),
        forall|i: int|
            0 <= i < legs(tx.inputs@).len() && (#[trigger] legs(tx.inputs@)[i]).1 == d
                ==> legs(tx.inputs@)[i].0 == def.issuer@,
    ensures
        non_issuer_total(legs(tx.inputs@), d, def.issuer@) == 0,
        fee_base(legs(tx.inputs@), legs(tx.outputs@), d, def.issuer@) == 0,
        forall|a: Seq<char>, burn: bool| #[trigger]
            fee_share(legs(tx.inputs@), legs(tx.outputs@), definitions, a, d, burn) == 0,
        burned(legs(tx.inputs@), legs(tx.outputs@), definitions, d) == 0,
        commissioned(legs(tx.inputs@), legs(tx.outputs@), definitions, d) == 0,
{
    let ins = legs(tx.inputs@);
    let outs = legs(tx.outputs@);
    let f = crate::model::of_denom_not_from(d, def.issuer@);
    assert forall|i: int| 0 <= i < ins.len() implies !(#[trigger] f(ins[i].0, ins[i].1)) by {
        if ins[i].1 == d {
            assert(ins[i].0 == def.issuer@);
        }
    }
    crate::sums::lemma_sum_none(ins, f);
    crate::sums::lemma_sum_mono(outs, f, f);
    law_no_fee_without_outside_senders(definitions, tx, d, def);
}

} // verus!
