use vstd::prelude::*;
use crate::fees::{fee_on, share};
use crate::model::{
    has_pair, held, non_issuer_total, total, Balance, Coin, DenomDefinition, Error, FeeShare, Leg, Rate,
    Rejection,
};

verus! {

/// The first definition of denomination `d`.
pub open spec fn definition_of(defs: Seq<DenomDefinition>, d: Seq<char>) -> Option<
    DenomDefinition,
>
    decreases defs.len(),
{
    if defs.len() == 0 {
        None
    } else if defs[0].denom@ == d {
        Some(defs[0])
    } else {
        definition_of(defs.drop_first(), d)
    }
}

/// The first balance record of address `a`.
pub open spec fn record_of(bals: Seq<Balance>, a: Seq<char>) -> Option<Balance>
    decreases bals.len(),
{
    if bals.len() == 0 {
        None
    } else if bals[0].address@ == a {
        Some(bals[0])
    } else {
        record_of(bals.drop_first(), a)
    }
}

/// The amount of the first coin of denomination `d`, and zero when there is none.
pub open spec fn amount_of(cs: Seq<Coin>, d: Seq<char>) -> int
    decreases cs.len(),
{
    if cs.len() == 0 {
        0
    } else if cs[0].denom@ == d {
        cs[0].amount as int
    } else {
        amount_of(cs.drop_first(), d)
    }
}

pub open spec fn rates_wf(defs: Seq<DenomDefinition>) -> bool {
    forall|i: int|
        0 <= i < defs.len() ==> (#[trigger] defs[i]).burn_rate.wf()
            && defs[i].commission_rate.wf()
}

pub open spec fn is_issuer(defs: Seq<DenomDefinition>, a: Seq<char>, d: Seq<char>) -> bool {
    match definition_of(defs, d) {
        Some(def) => def.issuer@ == a,
        None => false,
    }
}

/// What `a` must hold of `d` to send what the inputs ask of it: the amount,
/// and, unless `a` is the issuer, the burn and the commission on that amount
/// taken on its own.
pub open spec fn required(ins: Seq<Leg>, a: Seq<char>, d: Seq<char>, def: DenomDefinition) -> int {
    let v = held(ins, a, d);
    if a == def.issuer@ {
        v
    } else {
        v + fee_on(v, def.burn_rate) + fee_on(v, def.commission_rate)
    }
}

/// The first candidate whose denomination the two sides total differently.
pub open spec fn first_mismatch(cands: Seq<Leg>, ins: Seq<Leg>, outs: Seq<Leg>) -> Option<
    Rejection,
>
    decreases cands.len(),
{
    if cands.len() == 0 {
        None
    } else if total(ins, cands[0].1) != total(outs, cands[0].1) {
        Some(Rejection::AmountMismatch(cands[0].1))
    } else {
        first_mismatch(cands.drop_first(), ins, outs)
    }
}

/// The first candidate whose denomination has no definition.
pub open spec fn first_unknown(cands: Seq<Leg>, defs: Seq<DenomDefinition>) -> Option<Rejection>
    decreases cands.len(),
{
    if cands.len() == 0 {
        None
    } else if definition_of(defs, cands[0].1) is None {
        Some(Rejection::UnknownDenom(cands[0].1))
    } else {
        first_unknown(cands.drop_first(), defs)
    }
}

/// The first candidate whose sender has no record, whose denomination has no
/// definition, or whose sender holds too little.
pub open spec fn first_shortfall(
    cands: Seq<Leg>,
    ins: Seq<Leg>,
    bals: Seq<Balance>,
    defs: Seq<DenomDefinition>,
) -> Option<Rejection>
    decreases cands.len(),
{
    if cands.len() == 0 {
        None
    } else {
        let (a, d) = (cands[0].0, cands[0].1);
        match record_of(bals, a) {
            None => Some(Rejection::AddressNotFound(a)),
            Some(b) => {
                match definition_of(defs, d) {
                    Some(def) => if amount_of(b.coins@, d) < required(ins, a, d, def) {
                        Some(Rejection::InsufficientBalance(a, d))
                    } else {
                        first_shortfall(cands.drop_first(), ins, bals, defs)
                    },
                    None => Some(Rejection::UnknownDenom(d)),
                }
            },
        }
    }
}

/// Why the transaction with input legs `ins` and output legs `outs` is
/// rejected, if it is: first a denomination whose sides differ (inputs
/// scanned before outputs), then a denomination without definition, then a
/// sender without record or without enough, each the first in order.
pub open spec fn rejection(
    bals: Seq<Balance>,
    defs: Seq<DenomDefinition>,
    ins: Seq<Leg>,
    outs: Seq<Leg>,
) -> Option<Rejection> {
    if first_mismatch(ins, ins, outs) is Some {
        first_mismatch(ins, ins, outs)
    } else if first_mismatch(outs, ins, outs) is Some {
        first_mismatch(outs, ins, outs)
    } else if first_unknown(ins, defs) is Some {
        first_unknown(ins, defs)
    } else if first_unknown(outs, defs) is Some {
        first_unknown(outs, defs)
    } else {
        first_shortfall(ins, ins, bals, defs)
    }
}

pub open spec fn outcome(r: Result<(), Error>) -> Option<Rejection> {
    match r {
        Ok(_) => None,
        Err(e) => Some(e@),
    }
}

/// The fee base of a denomination: what flows between parties other than
/// its issuer.
pub open spec fn fee_base(ins: Seq<Leg>, outs: Seq<Leg>, d: Seq<char>, issuer: Seq<char>) -> int {
    let nin = non_issuer_total(ins, d, issuer);
    let nout = non_issuer_total(outs, d, issuer);
    if nin <= nout {
        nin
    } else {
        nout
    }
}

/// The part of the fee at `rate` on `d` that sender `a` pays.
pub open spec fn rate_share(
    ins: Seq<Leg>,
    outs: Seq<Leg>,
    def: DenomDefinition,
    a: Seq<char>,
    d: Seq<char>,
    rate: Rate,
) -> int {
    if a == def.issuer@ {
        0
    } else {
        share(
            fee_base(ins, outs, d, def.issuer@),
            held(ins, a, d),
            non_issuer_total(ins, d, def.issuer@),
            rate,
        )
    }
}

/// The burn share (`burn`) or the commission share of sender `a` on `d`.
pub open spec fn fee_share(
    ins: Seq<Leg>,
    outs: Seq<Leg>,
    defs: Seq<DenomDefinition>,
    a: Seq<char>,
    d: Seq<char>,
    burn: bool,
) -> int {
    match definition_of(defs, d) {
        Some(def) => rate_share(
            ins,
            outs,
            def,
            a,
            d,
            if burn {
                def.burn_rate
            } else {
                def.commission_rate
            },
        ),
        None => 0,
    }
}

/// The leg at `j` is the first with its address and denomination.
pub open spec fn first_at(ls: Seq<Leg>, j: int) -> bool {
    !has_pair(ls.take(j), ls[j].0, ls[j].1)
}

/// Among the first `k` input legs, those that are the first of their address
/// and denomination, in order.
pub open spec fn firsts_upto(ins: Seq<Leg>, k: int) -> Seq<Leg>
    decreases k,
{
    if k <= 0 {
        Seq::empty()
    } else if first_at(ins, k - 1) {
        firsts_upto(ins, k - 1).push(ins[k - 1])
    } else {
        firsts_upto(ins, k - 1)
    }
}

/// `f` holds the shares of the sender and denomination of `leg`.
pub open spec fn is_fee_of(
    f: FeeShare,
    leg: Leg,
    ins: Seq<Leg>,
    outs: Seq<Leg>,
    defs: Seq<DenomDefinition>,
) -> bool {
    &&& f.address@ == leg.0
    &&& f.denom@ == leg.1
    &&& f.burn == fee_share(ins, outs, defs, leg.0, leg.1, true)
    &&& f.commission == fee_share(ins, outs, defs, leg.0, leg.1, false)
}

/// `fs` holds the shares of every sender and denomination of the inputs,
/// once each, in the order in which they first occur.
pub open spec fn are_fees_of(
    fs: Seq<FeeShare>,
    ins: Seq<Leg>,
    outs: Seq<Leg>,
    defs: Seq<DenomDefinition>,
) -> bool {
    let firsts = firsts_upto(ins, ins.len() as int);
    &&& fs.len() == firsts.len()
    &&& forall|i: int| 0 <= i < fs.len() ==> is_fee_of(#[trigger] fs[i], firsts[i], ins, outs, defs)
}

/// The shares on `d` of the senders among the first `k` input legs.
pub open spec fn shares_upto(
    ins: Seq<Leg>,
    outs: Seq<Leg>,
    defs: Seq<DenomDefinition>,
    d: Seq<char>,
    k: int,
    burn: bool,
) -> int
    decreases k,
{
    if k <= 0 {
        0
    } else {
        shares_upto(ins, outs, defs, d, k - 1, burn) + if ins[k - 1].1 == d && first_at(
            ins,
            k - 1,
        ) {
            fee_share(ins, outs, defs, ins[k - 1].0, d, burn)
        } else {
            0
        }
    }
}

/// All that is burnt of `d`.
pub open spec fn burned(
    ins: Seq<Leg>,
    outs: Seq<Leg>,
    defs: Seq<DenomDefinition>,
    d: Seq<char>,
) -> int {
    shares_upto(ins, outs, defs, d, ins.len() as int, true)
}

/// All the commission on `d`, credited to its issuer.
pub open spec fn commissioned(
    ins: Seq<Leg>,
    outs: Seq<Leg>,
    defs: Seq<DenomDefinition>,
    d: Seq<char>,
) -> int {
    shares_upto(ins, outs, defs, d, ins.len() as int, false)
}

/// The net change of what `a` holds of `d`: what it receives, less what it
/// sends and its fee shares, plus, for the issuer, all the commission.
pub open spec fn delta(
    ins: Seq<Leg>,
    outs: Seq<Leg>,
    defs: Seq<DenomDefinition>,
    a: Seq<char>,
    d: Seq<char>,
) -> int {
    held(outs, a, d) - held(ins, a, d) - fee_share(ins, outs, defs, a, d, true) - fee_share(
        ins,
        outs,
        defs,
        a,
        d,
        false,
    ) + if is_issuer(defs, a, d) {
        commissioned(ins, outs, defs, d)
    } else {
        0
    }
}

/// The first legs among the first `j` lead the first legs among the first `n`.
pub proof fn lemma_firsts_prefix(ins: Seq<Leg>, j: int, n: int)
    requires
        0 <= j <= n,
    ensures
        firsts_upto(ins, j).len() <= firsts_upto(ins, n).len(),
        forall|i: int|
            0 <= i < firsts_upto(ins, j).len() ==> #[trigger] firsts_upto(ins, n)[i]
                == firsts_upto(ins, j)[i],
    decreases n,
{
    if n > j {
        lemma_firsts_prefix(ins, j, n - 1);
    }
}

} // verus!
