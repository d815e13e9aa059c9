//! The threshold store's rules, as pure functions over the bytes of
//! the threshold file. The caller does the file I/O and hands the
//! contents in (`None` when the file could not be read); these
//! functions decide what the thresholds are, what must be written
//! back, and what to tell the user.

use crate::codec::encode_thresholds;
use crate::codec::lemma_parse_of_encoding;
use crate::codec::parse_thresholds;
use crate::codec::spec_encode_list;
use crate::codec::spec_parse_list;
use crate::gwei_to_wei;
use crate::messages::alert_set_message;
use crate::messages::spec_alert_set_message;
use crate::WEI_PER_GWEI;
use vstd::prelude::*;

verus! {

/// The threshold seeded at startup when none are stored, in wei.
pub const DEFAULT_THRESHOLD_WEI: u128 = 100_000_000;

/// The list of thresholds a threshold file holds: empty when there is
/// no file or the bytes are not a threshold encoding. A read failure
/// is deliberately swallowed and treated as "no data", never as an
/// error.
pub open spec fn thresholds_of(contents: Option<Seq<u8>>) -> Seq<u128> {
    match contents {
        None => Seq::empty(),
        Some(s) => match spec_parse_list(s) {
            Some(l) => l,
            None => Seq::empty(),
        },
    }
}

/// The byte sequences of optional file contents.
pub open spec fn contents_view(contents: Option<Vec<u8>>) -> Option<Seq<u8>> {
    match contents {
        None => None,
        Some(v) => Some(v@),
    }
}

/// Reads the threshold list out of optional file bytes. Total: a
/// missing, unreadable or corrupt file always yields the empty list.
pub fn read_thresholds(contents: Option<Vec<u8>>) -> (r: Vec<u128>)
    ensures
        r@ == thresholds_of(contents_view(contents)),
{
    match contents {
        None => Vec::new(),
        Some(v) => match parse_thresholds(&v) {
            Some(l) => l,
            None => Vec::new(),
        },
    }
}

/// What startup decides: the thresholds to run with, and the file
/// bytes to persist when seeding was needed.
pub struct StartupOutcome {
    pub thresholds: Vec<u128>,
    pub file_update: Option<Vec<u8>>,
}

/// Applies the startup rule: load the persisted thresholds; when none
/// are found, run with the single default threshold and report the
/// file bytes to write — exactly one default threshold, and a write
/// happens in no other case.
pub fn startup_thresholds(contents: Option<Vec<u8>>) -> (r: StartupOutcome)
    ensures
        r.thresholds@.len() >= 1,
        thresholds_of(contents_view(contents)).len() == 0 ==> {
            &&& r.thresholds@ == seq![DEFAULT_THRESHOLD_WEI]
            &&& r.file_update matches Some(f) && f@ == spec_encode_list(
                seq![DEFAULT_THRESHOLD_WEI],
            )
        },
        thresholds_of(contents_view(contents)).len() > 0 ==> {
            &&& r.thresholds@ == thresholds_of(contents_view(contents))
            &&& r.file_update is None
        },
{
    let mut thresholds = read_thresholds(contents);
    if thresholds.len() == 0 {
        thresholds.push(DEFAULT_THRESHOLD_WEI);
        assert(thresholds@ =~= seq![DEFAULT_THRESHOLD_WEI]);
        let f = encode_thresholds(&thresholds);
        StartupOutcome { thresholds, file_update: Some(f) }
    } else {
        StartupOutcome { thresholds, file_update: None }
    }
}

/// What handling `/setgasalert` decides: the file bytes to persist
/// and the acknowledgement to send.
pub struct SetAlertOutcome {
    pub new_contents: Vec<u8>,
    pub reply: Vec<u8>,
}

/// Handles `/setgasalert`: converts the gwei threshold to wei,
/// appends it to whatever the file held (order preserved, duplicates
/// kept), and returns the bytes to persist together with the
/// acknowledgement echoing the gwei value.
pub fn handle_set_alert(contents: Option<Vec<u8>>, threshold_gwei: u64) -> (r: SetAlertOutcome)
    ensures
        r.new_contents@ == spec_encode_list(
            thresholds_of(contents_view(contents)).push(
                (threshold_gwei * WEI_PER_GWEI) as u128,
            ),
        ),
        r.reply@ == spec_alert_set_message(threshold_gwei),
{
    let mut thresholds = read_thresholds(contents);
    let ghost pre = thresholds@;
    let wei = gwei_to_wei(threshold_gwei);
    thresholds.push(wei);
    assert(thresholds@ =~= pre.push((threshold_gwei * WEI_PER_GWEI) as u128));
    let new_contents = encode_thresholds(&thresholds);
    let reply = alert_set_message(threshold_gwei);
    SetAlertOutcome { new_contents, reply }
}

/// Round trip: the file written for a threshold list reads back as
/// exactly that list — same values, same order.
pub proof fn lemma_write_read_round_trip(l: Seq<u128>)
    ensures
        thresholds_of(Some(spec_encode_list(l))) == l,
{
    lemma_parse_of_encoding(l);
}

} // verus!
