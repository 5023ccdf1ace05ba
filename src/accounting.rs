use vstd::prelude::*;
use crate::fees::{lemma_ceil_div_at_most, lemma_ceil_div_is_ceiling, share};
use crate::model::{
    amounts_in_range, any_leg, has_pair, held, non_issuer_total, of_denom, of_denom_not_from,
    of_pair, sum_if, total, DenomDefinition, Leg, Selector, MAX_TOTAL,
};
use crate::rules::{
    definition_of, fee_base, fee_share, first_at, first_mismatch, first_unknown, rates_wf,
    shares_upto,
};
use crate::sums::{lemma_sum_mono, lemma_sum_none, lemma_sum_same, lemma_sum_union};

verus! {

/// The definition found for `d` is one of `defs`, and it is for `d`.
pub proof fn lemma_definition_in(defs: Seq<DenomDefinition>, d: Seq<char>) -> (k: int)
    requires
        definition_of(defs, d) is Some,
    ensures
        0 <= k < defs.len(),
        definition_of(defs, d) == Some(defs[k]),
        defs[k].denom@ == d,
    decreases defs.len(),
{
    if defs[0].denom@ == d {
        0
    } else {
        let k = lemma_definition_in(defs.drop_first(), d);
        k + 1
    }
}

pub proof fn lemma_pair_step(ls: Seq<Leg>, j: int, a: Seq<char>, d: Seq<char>)
    requires
        0 <= j < ls.len(),
    ensures
        has_pair(ls.take(j + 1), a, d) == (has_pair(ls.take(j), a, d) || (a == ls[j].0 && d
            == ls[j].1)),
{
    if has_pair(ls.take(j), a, d) {
        let i = choose|i: int| 0 <= i < j && #[trigger] ls.take(j)[i].0 == a && ls.take(j)[i].1 == d;
        assert(ls.take(j + 1)[i].0 == a);
    }
    if a == ls[j].0 && d == ls[j].1 {
        assert(ls.take(j + 1)[j].0 == a);
    }
    if has_pair(ls.take(j + 1), a, d) {
        let i = choose|i: int|
            0 <= i < j + 1 && #[trigger] ls.take(j + 1)[i].0 == a && ls.take(j + 1)[i].1 == d;
        if i < j {
            assert(ls.take(j)[i].0 == a);
        }
    }
}

/// Nothing is held of a pair that no leg has.
pub proof fn lemma_absent_held(ls: Seq<Leg>, a: Seq<char>, d: Seq<char>)
    requires
        !has_pair(ls, a, d),
    ensures
        held(ls, a, d) == 0,
{
    assert forall|i: int| 0 <= i < ls.len() implies !(#[trigger] of_pair(a, d)(ls[i].0, ls[i].1)) by {
        if of_pair(a, d)(ls[i].0, ls[i].1) {
            assert(ls[i].0 == a && ls[i].1 == d);
        }
    }
    lemma_sum_none(ls, of_pair(a, d));
}

/// A fee share is between zero and what its sender sends.
pub proof fn lemma_fee_share_bounds(
    ins: Seq<Leg>,
    outs: Seq<Leg>,
    defs: Seq<DenomDefinition>,
    a: Seq<char>,
    d: Seq<char>,
    burn: bool,
)
    requires
        amounts_in_range(ins),
        amounts_in_range(outs),
        rates_wf(defs),
    ensures
        0 <= fee_share(ins, outs, defs, a, d, burn) <= held(ins, a, d) <= MAX_TOTAL,
        held(ins, a, d) == 0 ==> fee_share(ins, outs, defs, a, d, burn) == 0,
{
    lemma_sum_mono(ins, of_pair(a, d), any_leg());
    if definition_of(defs, d) is Some {
        let k = lemma_definition_in(defs, d);
        let def = defs[k];
        assert(def.burn_rate.wf() && def.commission_rate.wf());
        let rate = if burn {
            def.burn_rate
        } else {
            def.commission_rate
        };
        if a != def.issuer@ {
            let i = def.issuer@;
            let nin = non_issuer_total(ins, d, i);
            let base = fee_base(ins, outs, d, i);
            let h = held(ins, a, d);
            lemma_sum_mono(ins, of_pair(a, d), of_denom_not_from(d, i));
            lemma_sum_mono(outs, of_denom_not_from(d, i), of_denom_not_from(d, i));
            if nin != 0 {
                let num = rate.numerator as int;
                let den = rate.denominator as int;
                assert(0 <= base * num * h <= h * (den * nin)) by (nonlinear_arith)
                    requires
                        0 <= base <= nin,
                        0 <= num <= den,
                        0 <= h,
                ;
                assert(0 < den * nin) by (nonlinear_arith)
                    requires
                        0 < den,
                        0 < nin,
                ;
                lemma_ceil_div_at_most(base * num * h, den * nin, h);
                assert(share(base, h, nin, rate) <= h);
            }
        }
    }
}

/// The pairs of denomination `d`, other than the issuer's, that occur among
/// the first `k` legs.
pub open spec fn seen_before(ins: Seq<Leg>, k: int, d: Seq<char>, issuer: Seq<char>) -> Selector {
    |a: Seq<char>, e: Seq<char>| e == d && a != issuer && has_pair(ins.take(k), a, e)
}

proof fn lemma_shares_below_seen(
    ins: Seq<Leg>,
    outs: Seq<Leg>,
    defs: Seq<DenomDefinition>,
    d: Seq<char>,
    issuer: Seq<char>,
    k: int,
    burn: bool,
)
    requires
        amounts_in_range(ins),
        amounts_in_range(outs),
        rates_wf(defs),
        definition_of(defs, d) is Some,
        definition_of(defs, d).unwrap().issuer@ == issuer,
        0 <= k <= ins.len(),
    ensures
        0 <= shares_upto(ins, outs, defs, d, k, burn) <= sum_if(ins, seen_before(ins, k, d, issuer)),
    decreases k,
{
    let s = seen_before(ins, k, d, issuer);
    if k == 0 {
        assert forall|a: Seq<char>, e: Seq<char>| #[trigger] s(a, e) == false by {
            assert(ins.take(0).len() == 0);
        }
        lemma_sum_same(ins, s, |a: Seq<char>, e: Seq<char>| false);
        lemma_sum_none(ins, |a: Seq<char>, e: Seq<char>| false);
    } else {
        lemma_shares_below_seen(ins, outs, defs, d, issuer, k - 1, burn);
        let p = seen_before(ins, k - 1, d, issuer);
        let l = ins[k - 1];
        assert forall|a: Seq<char>, e: Seq<char>| #[trigger] has_pair(ins.take(k), a, e) == (
        has_pair(ins.take(k - 1), a, e) || (a == l.0 && e == l.1)) by {
            lemma_pair_step(ins, k - 1, a, e);
        }
        lemma_fee_share_bounds(ins, outs, defs, l.0, d, burn);
        if l.1 == d && first_at(ins, k - 1) && l.0 != issuer {
            lemma_sum_union(ins, p, of_pair(l.0, d), s);
        } else {
            assert forall|a: Seq<char>, e: Seq<char>| #[trigger] s(a, e) == p(a, e) by {
                if a == l.0 && e == l.1 && e == d && a != issuer {
                    assert(!first_at(ins, k - 1));
                }
            }
            lemma_sum_same(ins, s, p);
        }
    }
}

/// What a denomination's senders pay at one rate, summed over senders, lies
/// between zero and [`MAX_TOTAL`].
pub proof fn lemma_shares_bounds(
    ins: Seq<Leg>,
    outs: Seq<Leg>,
    defs: Seq<DenomDefinition>,
    d: Seq<char>,
    k: int,
    burn: bool,
)
    requires
        amounts_in_range(ins),
        amounts_in_range(outs),
        rates_wf(defs),
        0 <= k <= ins.len(),
    ensures
        0 <= shares_upto(ins, outs, defs, d, k, burn) <= MAX_TOTAL,
    decreases k,
{
    if definition_of(defs, d) is Some {
        let i = definition_of(defs, d).unwrap().issuer@;
        lemma_shares_below_seen(ins, outs, defs, d, i, k, burn);
        lemma_sum_mono(ins, seen_before(ins, k, d, i), any_leg());
    } else if k > 0 {
        lemma_shares_bounds(ins, outs, defs, d, k - 1, burn);
    }
}

/// Where no candidate names an unknown denomination, each has a definition.
pub proof fn lemma_all_known(cands: Seq<Leg>, defs: Seq<DenomDefinition>, i: int)
    requires
        first_unknown(cands, defs) is None,
        0 <= i < cands.len(),
    ensures
        definition_of(defs, cands[i].1) is Some,
    decreases cands.len(),
{
    if i > 0 {
        lemma_all_known(cands.drop_first(), defs, i - 1);
    }
}

proof fn lemma_no_mismatch_at(cands: Seq<Leg>, ins: Seq<Leg>, outs: Seq<Leg>, i: int)
    requires
        first_mismatch(cands, ins, outs) is None,
        0 <= i < cands.len(),
    ensures
        total(ins, cands[i].1) == total(outs, cands[i].1),
    decreases cands.len(),
{
    if i > 0 {
        lemma_no_mismatch_at(cands.drop_first(), ins, outs, i - 1);
    }
}

/// Where neither side names a mismatched denomination, every denomination
/// totals the same on both sides.
pub proof fn lemma_sides_agree(ins: Seq<Leg>, outs: Seq<Leg>, d: Seq<char>)
    requires
        first_mismatch(ins, ins, outs) is None,
        first_mismatch(outs, ins, outs) is None,
    ensures
        total(ins, d) == total(outs, d),
{
    if exists|i: int| 0 <= i < ins.len() && #[trigger] ins[i].1 == d {
        let i = choose|i: int| 0 <= i < ins.len() && #[trigger] ins[i].1 == d;
        lemma_no_mismatch_at(ins, ins, outs, i);
    } else if exists|i: int| 0 <= i < outs.len() && #[trigger] outs[i].1 == d {
        let i = choose|i: int| 0 <= i < outs.len() && #[trigger] outs[i].1 == d;
        lemma_no_mismatch_at(outs, ins, outs, i);
    } else {
        assert forall|i: int| 0 <= i < ins.len() implies !(#[trigger] of_denom(d)(
            ins[i].0,
            ins[i].1,
        )) by {
            assert(ins[i].1 != d);
        }
        assert forall|i: int| 0 <= i < outs.len() implies !(#[trigger] of_denom(d)(
            outs[i].0,
            outs[i].1,
        )) by {
            assert(outs[i].1 != d);
        }
        lemma_sum_none(ins, of_denom(d));
        lemma_sum_none(outs, of_denom(d));
    }
}


/// Scaled by `den * nin`, the shares of the senders among the first `k` legs
/// cover `base * num` times what those senders send.
proof fn lemma_shares_cover_seen(
    ins: Seq<Leg>,
    outs: Seq<Leg>,
    defs: Seq<DenomDefinition>,
    d: Seq<char>,
    def: DenomDefinition,
    k: int,
    burn: bool,
)
    requires
        amounts_in_range(ins),
        amounts_in_range(outs),
        rates_wf(defs),
        definition_of(defs, d) == Some(def),
        non_issuer_total(ins, d, def.issuer@) > 0,
        0 <= k <= ins.len(),
    ensures
        ({
            let rate = if burn {
                def.burn_rate
            } else {
                def.commission_rate
            };
            shares_upto(ins, outs, defs, d, k, burn) * (rate.denominator * non_issuer_total(
                ins,
                d,
                def.issuer@,
            )) >= fee_base(ins, outs, d, def.issuer@) * rate.numerator * sum_if(
                ins,
                seen_before(ins, k, d, def.issuer@),
            )
        }),
    decreases k,
{
    let issuer = def.issuer@;
    let rate = if burn {
        def.burn_rate
    } else {
        def.commission_rate
    };
    let m = rate.denominator * non_issuer_total(ins, d, issuer);
    let c = fee_base(ins, outs, d, issuer) * rate.numerator;
    let s = seen_before(ins, k, d, issuer);
    let kk = lemma_definition_in(defs, d);
    assert(defs[kk].burn_rate.wf() && defs[kk].commission_rate.wf());
    lemma_sum_mono(outs, of_denom_not_from(d, issuer), of_denom_not_from(d, issuer));
    assert(0 <= c) by (nonlinear_arith)
        requires
            c == fee_base(ins, outs, d, issuer) * rate.numerator,
            0 <= fee_base(ins, outs, d, issuer),
            0 <= rate.numerator,
    ;
    if k == 0 {
        assert forall|a: Seq<char>, e: Seq<char>| #[trigger] s(a, e) == false by {
            assert(ins.take(0).len() == 0);
        }
        lemma_sum_same(ins, s, |a: Seq<char>, e: Seq<char>| false);
        lemma_sum_none(ins, |a: Seq<char>, e: Seq<char>| false);
        assert(c * sum_if(ins, s) == 0) by (nonlinear_arith)
            requires
                sum_if(ins, s) == 0,
        ;
    } else {
        lemma_shares_cover_seen(ins, outs, defs, d, def, k - 1, burn);
        let p = seen_before(ins, k - 1, d, issuer);
        let l = ins[k - 1];
        let prev = shares_upto(ins, outs, defs, d, k - 1, burn);
        assert forall|a: Seq<char>, e: Seq<char>| #[trigger] has_pair(ins.take(k), a, e) == (
        has_pair(ins.take(k - 1), a, e) || (a == l.0 && e == l.1)) by {
            lemma_pair_step(ins, k - 1, a, e);
        }
        if l.1 == d && first_at(ins, k - 1) && l.0 != issuer {
            lemma_sum_union(ins, p, of_pair(l.0, d), s);
            let h = held(ins, l.0, d);
            let sh = fee_share(ins, outs, defs, l.0, d, burn);
            lemma_sum_mono(ins, of_pair(l.0, d), any_leg());
            assert(c * h == fee_base(ins, outs, d, issuer) * rate.numerator * h) by (nonlinear_arith)
                requires
                    c == fee_base(ins, outs, d, issuer) * rate.numerator,
            ;
            assert(0 < m) by (nonlinear_arith)
                requires
                    m == rate.denominator * non_issuer_total(ins, d, issuer),
                    0 < rate.denominator,
                    0 < non_issuer_total(ins, d, issuer),
            ;
            assert(0 <= c * h) by (nonlinear_arith)
                requires
                    0 <= c,
                    0 <= h,
            ;
            lemma_ceil_div_is_ceiling(c * h, m);
            assert(sh * m >= c * h);
            assert((prev + sh) * m >= c * (sum_if(ins, p) + h)) by (nonlinear_arith)
                requires
                    prev * m >= c * sum_if(ins, p),
                    sh * m >= c * h,
            ;
        } else {
            assert forall|a: Seq<char>, e: Seq<char>| #[trigger] s(a, e) == p(a, e) by {
                if a == l.0 && e == l.1 && e == d && a != issuer {
                    assert(!first_at(ins, k - 1));
                }
            }
            lemma_sum_same(ins, s, p);
            if l.1 == d && first_at(ins, k - 1) {
                assert(fee_share(ins, outs, defs, l.0, d, burn) == 0);
            }
        }
    }
}

/// Every sender of `d` other than its issuer is among the senders seen over all legs.
pub proof fn lemma_all_seen(ins: Seq<Leg>, d: Seq<char>, issuer: Seq<char>)
    ensures
        sum_if(ins, seen_before(ins, ins.len() as int, d, issuer)) == non_issuer_total(
            ins,
            d,
            issuer,
        ),
{
    assert(ins.take(ins.len() as int) =~= ins);
    assert forall|i: int| 0 <= i < ins.len() implies #[trigger] seen_before(
        ins,
        ins.len() as int,
        d,
        issuer,
    )(ins[i].0, ins[i].1) == of_denom_not_from(d, issuer)(ins[i].0, ins[i].1) by {
        assert(ins.take(ins.len() as int)[i].0 == ins[i].0);
    }
    crate::sums::lemma_sum_same_on(
        ins,
        seen_before(ins, ins.len() as int, d, issuer),
        of_denom_not_from(d, issuer),
    );
}

/// Scaled by `den * nin`, all the shares at one rate cover `base * num * nin`.
pub proof fn lemma_shares_cover(
    ins: Seq<Leg>,
    outs: Seq<Leg>,
    defs: Seq<DenomDefinition>,
    d: Seq<char>,
    def: DenomDefinition,
    burn: bool,
)
    requires
        amounts_in_range(ins),
        amounts_in_range(outs),
        rates_wf(defs),
        definition_of(defs, d) == Some(def),
        non_issuer_total(ins, d, def.issuer@) > 0,
    ensures
        ({
            let rate = if burn {
                def.burn_rate
            } else {
                def.commission_rate
            };
            let nin = non_issuer_total(ins, d, def.issuer@);
            shares_upto(ins, outs, defs, d, ins.len() as int, burn) * (rate.denominator * nin)
                >= fee_base(ins, outs, d, def.issuer@) * rate.numerator * nin
        }),
{
    lemma_shares_cover_seen(ins, outs, defs, d, def, ins.len() as int, burn);
    lemma_all_seen(ins, d, def.issuer@);
}


/// How many senders of `d` other than `issuer`, among the first `k` legs,
/// send a positive amount of it, each counted once.
pub open spec fn senders_upto(ins: Seq<Leg>, d: Seq<char>, issuer: Seq<char>, k: int) -> int
    decreases k,
{
    if k <= 0 {
        0
    } else {
        senders_upto(ins, d, issuer, k - 1) + if ins[k - 1].1 == d && first_at(ins, k - 1)
            && ins[k - 1].0 != issuer && held(ins, ins[k - 1].0, d) > 0 {
            1int
        } else {
            0
        }
    }
}

/// Scaled by `den * nin`, the shares of the senders among the first `k` legs
/// exceed `base * num` times what they send by less than one scale unit per
/// sender of a positive amount.
proof fn lemma_shares_below_seen_plus(
    ins: Seq<Leg>,
    outs: Seq<Leg>,
    defs: Seq<DenomDefinition>,
    d: Seq<char>,
    def: DenomDefinition,
    k: int,
    burn: bool,
)
    requires
        amounts_in_range(ins),
        amounts_in_range(outs),
        rates_wf(defs),
        definition_of(defs, d) == Some(def),
        non_issuer_total(ins, d, def.issuer@) > 0,
        0 <= k <= ins.len(),
    ensures
        ({
            let rate = if burn {
                def.burn_rate
            } else {
                def.commission_rate
            };
            let m = rate.denominator * non_issuer_total(ins, d, def.issuer@);
            let c = fee_base(ins, outs, d, def.issuer@) * rate.numerator;
            let n = senders_upto(ins, d, def.issuer@, k);
            let g = sum_if(ins, seen_before(ins, k, d, def.issuer@));
            &&& 0 <= n
            &&& n == 0 ==> g == 0
            &&& shares_upto(ins, outs, defs, d, k, burn) * m + n <= c * g + n * m
        }),
    decreases k,
{
    let issuer = def.issuer@;
    let rate = if burn {
        def.burn_rate
    } else {
        def.commission_rate
    };
    let m = rate.denominator * non_issuer_total(ins, d, issuer);
    let c = fee_base(ins, outs, d, issuer) * rate.numerator;
    let s = seen_before(ins, k, d, issuer);
    let kk = lemma_definition_in(defs, d);
    assert(defs[kk].burn_rate.wf() && defs[kk].commission_rate.wf());
    lemma_sum_mono(outs, of_denom_not_from(d, issuer), of_denom_not_from(d, issuer));
    assert(0 <= c) by (nonlinear_arith)
        requires
            c == fee_base(ins, outs, d, issuer) * rate.numerator,
            0 <= fee_base(ins, outs, d, issuer),
            0 <= rate.numerator,
    ;
    assert(0 < m) by (nonlinear_arith)
        requires
            m == rate.denominator * non_issuer_total(ins, d, issuer),
            0 < rate.denominator,
            0 < non_issuer_total(ins, d, issuer),
    ;
    if k == 0 {
        assert forall|a: Seq<char>, e: Seq<char>| #[trigger] s(a, e) == false by {
            assert(ins.take(0).len() == 0);
        }
        lemma_sum_same(ins, s, |a: Seq<char>, e: Seq<char>| false);
        lemma_sum_none(ins, |a: Seq<char>, e: Seq<char>| false);
        assert(c * sum_if(ins, s) == 0) by (nonlinear_arith)
            requires
                sum_if(ins, s) == 0,
        ;
    } else {
        lemma_shares_below_seen_plus(ins, outs, defs, d, def, k - 1, burn);
        let p = seen_before(ins, k - 1, d, issuer);
        let l = ins[k - 1];
        let prev = shares_upto(ins, outs, defs, d, k - 1, burn);
        let n0 = senders_upto(ins, d, issuer, k - 1);
        let g0 = sum_if(ins, p);
        assert forall|a: Seq<char>, e: Seq<char>| #[trigger] has_pair(ins.take(k), a, e) == (
        has_pair(ins.take(k - 1), a, e) || (a == l.0 && e == l.1)) by {
            lemma_pair_step(ins, k - 1, a, e);
        }
        lemma_sum_mono(ins, p, any_leg());
        if l.1 == d && first_at(ins, k - 1) && l.0 != issuer {
            lemma_sum_union(ins, p, of_pair(l.0, d), s);
            let h = held(ins, l.0, d);
            let sh = fee_share(ins, outs, defs, l.0, d, burn);
            lemma_fee_share_bounds(ins, outs, defs, l.0, d, burn);
            if h > 0 {
                assert(c * h == fee_base(ins, outs, d, issuer) * rate.numerator * h)
                    by (nonlinear_arith)
                    requires
                        c == fee_base(ins, outs, d, issuer) * rate.numerator,
                ;
                assert(0 <= c * h) by (nonlinear_arith)
                    requires
                        0 <= c,
                        0 <= h,
                ;
                lemma_ceil_div_is_ceiling(c * h, m);
                assert((sh - 1) * m < c * h);
                assert((prev + sh) * m + (n0 + 1) <= c * (g0 + h) + (n0 + 1) * m)
                    by (nonlinear_arith)
                    requires
                        prev * m + n0 <= c * g0 + n0 * m,
                        (sh - 1) * m < c * h,
                ;
            } else {
                assert(sh == 0);
                assert(c * (g0 + h) == c * g0) by (nonlinear_arith)
                    requires
                        h == 0,
                ;
            }
        } else {
            assert forall|a: Seq<char>, e: Seq<char>| #[trigger] s(a, e) == p(a, e) by {
                if a == l.0 && e == l.1 && e == d && a != issuer {
                    assert(!first_at(ins, k - 1));
                }
            }
            lemma_sum_same(ins, s, p);
            if l.1 == d && first_at(ins, k - 1) {
                assert(fee_share(ins, outs, defs, l.0, d, burn) == 0);
            }
        }
    }
}

/// Scaled by `den * nin`, all the shares at one rate are less than
/// `base * num * nin` plus one scale unit per sender of a positive amount.
pub proof fn lemma_shares_within_senders(
    ins: Seq<Leg>,
    outs: Seq<Leg>,
    defs: Seq<DenomDefinition>,
    d: Seq<char>,
    def: DenomDefinition,
    burn: bool,
)
    requires
        amounts_in_range(ins),
        amounts_in_range(outs),
        rates_wf(defs),
        definition_of(defs, d) == Some(def),
        non_issuer_total(ins, d, def.issuer@) > 0,
    ensures
        ({
            let rate = if burn {
                def.burn_rate
            } else {
                def.commission_rate
            };
            let nin = non_issuer_total(ins, d, def.issuer@);
            let n = senders_upto(ins, d, def.issuer@, ins.len() as int);
            &&& 1 <= n
            &&& shares_upto(ins, outs, defs, d, ins.len() as int, burn) * (rate.denominator * nin)
                < fee_base(ins, outs, d, def.issuer@) * rate.numerator * nin + n * (
            rate.denominator * nin)
        }),
{
    lemma_shares_below_seen_plus(ins, outs, defs, d, def, ins.len() as int, burn);
    lemma_all_seen(ins, d, def.issuer@);
}

} // verus!
