//! The fixed English reply templates of the bot, as byte strings. A
//! gas price or threshold in wei is shown in whole gwei: division by
//! `WEI_PER_GWEI`, truncating.

use crate::digits::push_digits;
use crate::digits::spec_digits;
use crate::WEI_PER_GWEI;
use vstd::prelude::*;

verus! {

/// Template text `"Current gas price: "`.
pub open spec fn check_gas_prefix() -> Seq<u8> {
    seq![67u8, 117, 114, 114, 101, 110, 116, 32, 103, 97, 115, 32, 112, 114, 105, 99, 101, 58, 32]
}

/// Template text `" gwei"`.
pub open spec fn gwei_suffix() -> Seq<u8> {
    seq![32u8, 103, 119, 101, 105]
}

/// Template text `"Gas alert threshold set to "`.
pub open spec fn alert_set_prefix() -> Seq<u8> {
    seq![71u8, 97, 115, 32, 97, 108, 101, 114, 116, 32, 116, 104, 114, 101, 115, 104, 111, 108, 100, 32, 115, 101, 116, 32, 116, 111, 32]
}

/// Template text `"Gas price is below "`.
pub open spec fn below_prefix() -> Seq<u8> {
    seq![71u8, 97, 115, 32, 112, 114, 105, 99, 101, 32, 105, 115, 32, 98, 101, 108, 111, 119, 32]
}

/// Template text `" gwei!"`.
pub open spec fn gwei_bang_suffix() -> Seq<u8> {
    seq![32u8, 103, 119, 101, 105, 33]
}

/// The reply to a gas-price check: the current price in whole gwei.
pub open spec fn spec_check_gas_message(gas_price_wei: u128) -> Seq<u8> {
    check_gas_prefix() + spec_digits((gas_price_wei / WEI_PER_GWEI) as nat) + gwei_suffix()
}

/// The acknowledgement after a threshold is stored, echoing the gwei
/// value the user gave.
pub open spec fn spec_alert_set_message(threshold_gwei: u64) -> Seq<u8> {
    alert_set_prefix() + spec_digits(threshold_gwei as nat) + gwei_suffix()
}

/// The alert text for a stored wei threshold, shown in whole gwei.
pub open spec fn spec_gas_alert_message(threshold_wei: u128) -> Seq<u8> {
    below_prefix() + spec_digits((threshold_wei / WEI_PER_GWEI) as nat) + gwei_bang_suffix()
}

/// Formats the reply to a gas-price check.
pub fn check_gas_message(gas_price_wei: u128) -> (r: Vec<u8>)
    ensures
        r@ == spec_check_gas_message(gas_price_wei),
{
    let mut r: Vec<u8> = Vec::new();

    r.push(67);
    r.push(117);
    r.push(114);
    r.push(114);
    r.push(101);
    r.push(110);
    r.push(116);
    r.push(32);
    r.push(103);
    r.push(97);
    r.push(115);
    r.push(32);
    r.push(112);
    r.push(114);
    r.push(105);
    r.push(99);
    r.push(101);
    r.push(58);
    r.push(32);
    assert(r@ =~= check_gas_prefix());
    push_digits(&mut r, gas_price_wei / WEI_PER_GWEI);

    r.push(32);
    r.push(103);
    r.push(119);
    r.push(101);
    r.push(105);
    assert(r@ =~= spec_check_gas_message(gas_price_wei));
    r
}

/// Formats the acknowledgement for a newly stored threshold.
pub fn alert_set_message(threshold_gwei: u64) -> (r: Vec<u8>)
    ensures
        r@ == spec_alert_set_message(threshold_gwei),
{
    let mut r: Vec<u8> = Vec::new();

    r.push(71);
    r.push(97);
    r.push(115);
    r.push(32);
    r.push(97);
    r.push(108);
    r.push(101);
    r.push(114);
    r.push(116);
    r.push(32);
    r.push(116);
    r.push(104);
    r.push(114);
    r.push(101);
    r.push(115);
    r.push(104);
    r.push(111);
    r.push(108);
    r.push(100);
    r.push(32);
    r.push(115);
    r.push(101);
    r.push(116);
    r.push(32);
    r.push(116);
    r.push(111);
    r.push(32);
    assert(r@ =~= alert_set_prefix());
    push_digits(&mut r, threshold_gwei as u128);

    r.push(32);
    r.push(103);
    r.push(119);
    r.push(101);
    r.push(105);
    assert(r@ =~= spec_alert_set_message(threshold_gwei));
    r
}

/// Formats the alert text for a stored threshold.
pub fn gas_alert_message(threshold_wei: u128) -> (r: Vec<u8>)
    ensures
        r@ == spec_gas_alert_message(threshold_wei),
{
    let mut r: Vec<u8> = Vec::new();

    r.push(71);
    r.push(97);
    r.push(115);
    r.push(32);
    r.push(112);
    r.push(114);
    r.push(105);
    r.push(99);
    r.push(101);
    r.push(32);
    r.push(105);
    r.push(115);
    r.push(32);
    r.push(98);
    r.push(101);
    r.push(108);
    r.push(111);
    r.push(119);
    r.push(32);
    assert(r@ =~= below_prefix());
    push_digits(&mut r, threshold_wei / WEI_PER_GWEI);

    r.push(32);
    r.push(103);
    r.push(119);
    r.push(101);
    r.push(105);
    r.push(33);
    assert(r@ =~= spec_gas_alert_message(threshold_wei));
    r
}

} // verus!
