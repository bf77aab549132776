//! The per-exchange configuration the library consumes.  Reading the
//! configuration file is the surrounding runtime's business; it hands
//! the library these plain values, one per enabled exchange.
use vstd::prelude::*;

use crate::orderbook::ExchangeId;

verus! {

/// Immutable connection settings for one exchange.  `id` distinguishes
/// exchanges in the merge; the template carries a `{{pair}}` slot the
/// codec substitutes the case-adjusted pair into.
#[derive(Debug, Clone, PartialEq)]
pub struct ExchangeConfig {
    pub id: ExchangeId,
    pub endpoint: String,
    pub subscription_message_template: Vec<u8>,
    pub spot_pair: Vec<u8>,
}

} // verus!
