//! A fraud request as the scanner reads it, and the response to it.
//!
//! Numbers that need floating point stay in the text that wrote them.

use vstd::prelude::*;

verus! {

/// A request to score a transaction.
#[derive(Clone, Copy)]
pub struct FraudRequest<'a> {
    pub transaction: Transaction<'a>,
    pub customer: Customer<'a>,
    pub merchant: Merchant<'a>,
    pub terminal: Terminal<'a>,
    pub last_transaction: Option<LastTransaction<'a>>,
}

/// The transaction to score.
#[derive(Clone, Copy)]
pub struct Transaction<'a> {
    /// Text of the amount.
    pub amount: &'a [u8],
    pub installments: u32,
    /// Timestamp, `YYYY-MM-DDTHH:MM:SSZ`.
    pub requested_at: &'a [u8],
}

/// The customer who pays.
#[derive(Clone, Copy)]
pub struct Customer<'a> {
    /// Text of the average amount.
    pub avg_amount: &'a [u8],
    pub tx_count_24h: u32,
    /// Text of the list of merchant names, without the brackets.
    pub known_merchants: &'a [u8],
}

/// The merchant who is paid.
#[derive(Clone, Copy)]
pub struct Merchant<'a> {
    pub id: &'a [u8],
    pub mcc: &'a [u8],
    /// Text of the average amount.
    pub avg_amount: &'a [u8],
}

/// The terminal in use.
#[derive(Clone, Copy)]
pub struct Terminal<'a> {
    pub is_online: bool,
    pub card_present: bool,
    /// Text of the distance.
    pub km_from_home: &'a [u8],
}

/// The customer's transaction before this one.
#[derive(Clone, Copy)]
pub struct LastTransaction<'a> {
    /// Timestamp, `YYYY-MM-DDTHH:MM:SSZ`.
    pub timestamp: &'a [u8],
    /// Text of the distance.
    pub km_from_current: &'a [u8],
}

/// What a [`FraudRequest`] says.
pub struct RequestView {
    pub amount: Seq<u8>,
    pub installments: u32,
    pub requested_at: Seq<u8>,
    pub customer_avg_amount: Seq<u8>,
    pub tx_count_24h: u32,
    pub known_merchants: Seq<u8>,
    pub merchant_id: Seq<u8>,
    pub mcc: Seq<u8>,
    pub merchant_avg_amount: Seq<u8>,
    pub is_online: bool,
    pub card_present: bool,
    pub km_from_home: Seq<u8>,
    pub last_transaction: Option<LastView>,
}

/// What a [`LastTransaction`] says.
pub struct LastView {
    pub timestamp: Seq<u8>,
    pub km_from_current: Seq<u8>,
}

impl<'a> View for FraudRequest<'a> {
    type V = RequestView;

    open spec fn view(&self) -> RequestView {
        RequestView {
            amount: self.transaction.amount@,
            installments: self.transaction.installments,
            requested_at: self.transaction.requested_at@,
            customer_avg_amount: self.customer.avg_amount@,
            tx_count_24h: self.customer.tx_count_24h,
            known_merchants: self.customer.known_merchants@,
            merchant_id: self.merchant.id@,
            mcc: self.merchant.mcc@,
            merchant_avg_amount: self.merchant.avg_amount@,
            is_online: self.terminal.is_online,
            card_present: self.terminal.card_present,
            km_from_home: self.terminal.km_from_home@,
            last_transaction: match self.last_transaction {
                Some(last) => Some(
                    LastView {
                        timestamp: last.timestamp@,
                        km_from_current: last.km_from_current@,
                    },
                ),
                None => None,
            },
        }
    }
}

/// The answer to a fraud request.
#[derive(Clone, Copy, PartialEq, Eq, Structural, Debug)]
pub struct FraudResponse {
    pub approved: bool,
    /// The fraud score in fifths, 0 to 5.
    pub fraud_fifths: u32,
}

/// Body of the response with so many frauds among the five neighbours.
pub open spec fn body_of(frauds: int) -> Seq<char> {
    if frauds == 0 {
        "{\"approved\":true,\"fraud_score\":0.0}"@
    } else if frauds == 1 {
        "{\"approved\":true,\"fraud_score\":0.2}"@
    } else if frauds == 2 {
        "{\"approved\":true,\"fraud_score\":0.4}"@
    } else if frauds == 3 {
        "{\"approved\":false,\"fraud_score\":0.6}"@
    } else if frauds == 4 {
        "{\"approved\":false,\"fraud_score\":0.8}"@
    } else {
        "{\"approved\":false,\"fraud_score\":1.0}"@
    }
}

impl FraudResponse {
    /// A score of so many fifths approves the transaction below three.
    pub fn new(frauds: u32) -> (r: FraudResponse)
        requires
            frauds <= 5,
        ensures
            r == (FraudResponse { approved: frauds < 3, fraud_fifths: frauds }),
    {
        FraudResponse { approved: frauds < 3, fraud_fifths: frauds }
    }

    /// The response as JSON.
    pub fn body(&self) -> (r: &'static str)
        requires
            self.fraud_fifths <= 5,
        ensures
            r@ == body_of(self.fraud_fifths as int),
    {
        match self.fraud_fifths {
            0 => "{\"approved\":true,\"fraud_score\":0.0}",
            1 => "{\"approved\":true,\"fraud_score\":0.2}",
            2 => "{\"approved\":true,\"fraud_score\":0.4}",
            3 => "{\"approved\":false,\"fraud_score\":0.6}",
            4 => "{\"approved\":false,\"fraud_score\":0.8}",
            _ => "{\"approved\":false,\"fraud_score\":1.0}",
        }
    }
}

/// Every body is `{"approved":` followed by whether fewer than three neighbours are
/// frauds, then `,"fraud_score":`, the score with one decimal, and `}`.
pub proof fn law_body(frauds: int)
    requires
        0 <= frauds <= 5,
    ensures
        body_of(frauds) == "{\"approved\":"@ + (if frauds < 3 {
            "true"@
        } else {
            "false"@
        }) + ",\"fraud_score\":"@ + seq![
            if frauds == 5 {
                '1'
            } else {
                '0'
            },
            '.',
            if frauds == 0 || frauds == 5 {
                '0'
            } else if frauds == 1 {
                '2'
            } else if frauds == 2 {
                '4'
            } else if frauds == 3 {
                '6'
            } else {
                '8'
            },
            '}',
        ],
{
    reveal_strlit("{\"approved\":");
    reveal_strlit("true");
    reveal_strlit("false");
    reveal_strlit(",\"fraud_score\":");
    reveal_strlit("{\"approved\":true,\"fraud_score\":0.0}");
    reveal_strlit("{\"approved\":true,\"fraud_score\":0.2}");
    reveal_strlit("{\"approved\":true,\"fraud_score\":0.4}");
    reveal_strlit("{\"approved\":false,\"fraud_score\":0.6}");
    reveal_strlit("{\"approved\":false,\"fraud_score\":0.8}");
    reveal_strlit("{\"approved\":false,\"fraud_score\":1.0}");
}

} // verus!
