//! The fraud-scoring service: the k-d tree of reference vectors and the
//! fixed parameters by which a request's features are normalised.
//!
//! The parameters are whole numbers; risk scores of merchant category codes
//! are given in ten-thousandths.
use vstd::prelude::*;
use vstd::string::StringExecFns;
use crate::kdtree::KdTree;

verus! {

/// The risk that a merchant category code missing from the table carries,
/// in ten-thousandths.
pub const DEFAULT_MCC_RISK: u32 = 5000;

/// A merchant category code and its risk, in ten-thousandths.
pub struct MccRisk {
    pub mcc: String,
    pub risk: u32,
}

/// The risk table of merchant category codes, in ten-thousandths.
pub open spec fn mcc_risk_table() -> Seq<(Seq<char>, u32)> {
    seq![
        (seq!['5', '4', '1', '1'], 1500u32),
        (seq!['5', '8', '1', '2'], 3000u32),
        (seq!['5', '9', '1', '2'], 2000u32),
        (seq!['5', '9', '4', '4'], 4500u32),
        (seq!['7', '8', '0', '1'], 8000u32),
        (seq!['7', '8', '0', '2'], 7500u32),
        (seq!['7', '9', '9', '5'], 8500u32),
        (seq!['4', '5', '1', '1'], 3500u32),
        (seq!['5', '3', '1', '1'], 2500u32),
        (seq!['5', '9', '9', '9'], 5000u32),
    ]
}

/// The risk of `mcc` in `table`: that of its first entry, or the default.
pub open spec fn lookup_risk(table: Seq<(Seq<char>, u32)>, mcc: Seq<char>) -> u32
    decreases table.len(),
{
    if table.len() == 0 {
        DEFAULT_MCC_RISK
    } else if table[0].0 == mcc {
        table[0].1
    } else {
        lookup_risk(table.drop_first(), mcc)
    }
}

/// No code occurs twice in `table`: it maps each of its codes to one risk.
pub open spec fn keys_distinct(table: Seq<(Seq<char>, u32)>) -> bool {
    forall|i: int, j: int| 0 <= i < j < table.len() ==> #[trigger] table[i].0 != #[trigger] table[j].0
}

/// A looked-up risk is the risk of the first entry of the table whose code
/// is `mcc`, and the default risk when no entry has that code.
pub proof fn lemma_lookup_risk_is_first_match(table: Seq<(Seq<char>, u32)>, mcc: Seq<char>)
    ensures
        (forall|i: int| 0 <= i < table.len() ==> #[trigger] table[i].0 != mcc) ==> lookup_risk(table, mcc)
            == DEFAULT_MCC_RISK,
        forall|i: int|
            0 <= i < table.len() && #[trigger] table[i].0 == mcc && (forall|j: int|
                0 <= j < i ==> table[j].0 != mcc) ==> lookup_risk(table, mcc) == table[i].1,
    decreases table.len(),
{
    if table.len() > 0 {
        let rest = table.drop_first();
        lemma_lookup_risk_is_first_match(rest, mcc);
        if forall|i: int| 0 <= i < table.len() ==> #[trigger] table[i].0 != mcc {
            assert(table[0].0 != mcc);
            assert forall|i: int| 0 <= i < rest.len() implies #[trigger] rest[i].0 != mcc by {
                assert(rest[i] == table[i + 1]);
            }
        }
        assert forall|i: int|
            0 <= i < table.len() && #[trigger] table[i].0 == mcc && (forall|j: int| 0 <= j < i ==> table[j].0 != mcc)
            implies lookup_risk(table, mcc) == table[i].1 by {
            if i > 0 {
                assert(table[0].0 != mcc);
                assert(rest[i - 1] == table[i]);
                assert forall|j: int| 0 <= j < i - 1 implies rest[j].0 != mcc by {
                    assert(rest[j] == table[j + 1]);
                }
            }
        }
    }
}

/// In a table where no code occurs twice, the risk looked up for a code of
/// the table is the risk of its entry.
pub proof fn lemma_lookup_entry(table: Seq<(Seq<char>, u32)>, i: int)
    requires
        keys_distinct(table),
        0 <= i < table.len(),
    ensures
        lookup_risk(table, table[i].0) == table[i].1,
    decreases i,
{
    if i > 0 {
        let rest = table.drop_first();
        assert forall|a: int, b: int| 0 <= a < b < rest.len() implies #[trigger] rest[a].0 != #[trigger] rest[b].0 by {
            assert(table[a + 1].0 != table[b + 1].0);
        }
        assert(table[0].0 != table[i].0);
        lemma_lookup_entry(rest, i - 1);
        assert(rest[i - 1] == table[i]);
    }
}

/// The entries of a risk table as plain values.
pub open spec fn table_view(t: Seq<MccRisk>) -> Seq<(Seq<char>, u32)> {
    t.map_values(|e: MccRisk| (e.mcc@, e.risk))
}

/// The fraud-scoring service.
pub struct FraudService {
    pub kdtree: KdTree,
    pub mcc_risk: Vec<MccRisk>,
    pub max_amount: u32,
    pub max_installments: u32,
    pub amount_vs_avg_ratio: u32,
    pub max_minutes: u32,
    pub max_km: u32,
    pub max_tx_count_24h: u32,
    pub max_merchant_avg_amount: u32,
}

fn risk_entry(mcc: &str, risk: u32) -> (e: MccRisk)
    ensures
        e.mcc@ == mcc@,
        e.risk == risk,
{
    MccRisk { mcc: String::from_str(mcc), risk }
}

impl FraudService {
    /// The service over a k-d tree, with the risk table of merchant
    /// category codes and the normalisation bounds: amounts up to 10 000,
    /// up to 12 installments, an amount up to 10 times the customer's
    /// average, up to 1 440 minutes since the last transaction, up to
    /// 1 000 km, up to 20 transactions in 24 hours and merchant averages up
    /// to 10 000.
    pub fn new(kdtree: KdTree) -> (service: Self)
        ensures
            service.kdtree == kdtree,
            table_view(service.mcc_risk@) == mcc_risk_table(),
            keys_distinct(table_view(service.mcc_risk@)),
            service.max_amount == 10000,
            service.max_installments == 12,
            service.amount_vs_avg_ratio == 10,
            service.max_minutes == 1440,
            service.max_km == 1000,
            service.max_tx_count_24h == 20,
            service.max_merchant_avg_amount == 10000,
    {
        proof {
            reveal_strlit("5411");
            reveal_strlit("5812");
            reveal_strlit("5912");
            reveal_strlit("5944");
            reveal_strlit("7801");
            reveal_strlit("7802");
            reveal_strlit("7995");
            reveal_strlit("4511");
            reveal_strlit("5311");
            reveal_strlit("5999");
        }
        let mut mcc_risk: Vec<MccRisk> = Vec::new();
        mcc_risk.push(risk_entry("5411", 1500));
        mcc_risk.push(risk_entry("5812", 3000));
        mcc_risk.push(risk_entry("5912", 2000));
        mcc_risk.push(risk_entry("5944", 4500));
        mcc_risk.push(risk_entry("7801", 8000));
        mcc_risk.push(risk_entry("7802", 7500));
        mcc_risk.push(risk_entry("7995", 8500));
        mcc_risk.push(risk_entry("4511", 3500));
        mcc_risk.push(risk_entry("5311", 2500));
        mcc_risk.push(risk_entry("5999", 5000));
        assert(mcc_risk@[0].mcc@ =~= seq!['5', '4', '1', '1']);
        assert(mcc_risk@[1].mcc@ =~= seq!['5', '8', '1', '2']);
        assert(mcc_risk@[2].mcc@ =~= seq!['5', '9', '1', '2']);
        assert(mcc_risk@[3].mcc@ =~= seq!['5', '9', '4', '4']);
        assert(mcc_risk@[4].mcc@ =~= seq!['7', '8', '0', '1']);
        assert(mcc_risk@[5].mcc@ =~= seq!['7', '8', '0', '2']);
        assert(mcc_risk@[6].mcc@ =~= seq!['7', '9', '9', '5']);
        assert(mcc_risk@[7].mcc@ =~= seq!['4', '5', '1', '1']);
        assert(mcc_risk@[8].mcc@ =~= seq!['5', '3', '1', '1']);
        assert(mcc_risk@[9].mcc@ =~= seq!['5', '9', '9', '9']);
        assert(table_view(mcc_risk@) =~= mcc_risk_table());
        proof {
            let t = mcc_risk_table();
            assert forall|i: int, j: int| 0 <= i < j < t.len() implies #[trigger] t[i].0 != #[trigger] t[j].0 by {
                assert(t[i].0[1] != t[j].0[1] || t[i].0[2] != t[j].0[2] || t[i].0[3] != t[j].0[3] || t[i].0[0]
                    != t[j].0[0]);
            }
        }
        FraudService {
            kdtree,
            mcc_risk,
            max_amount: 10000,
            max_installments: 12,
            amount_vs_avg_ratio: 10,
            max_minutes: 1440,
            max_km: 1000,
            max_tx_count_24h: 20,
            max_merchant_avg_amount: 10000,
        }
    }

    /// The risk of a merchant category code, in ten-thousandths: that of the
    /// code in the table, or `DEFAULT_MCC_RISK` for a code not in it.
    pub fn mcc_risk_of(&self, mcc: &String) -> (risk: u32)
        ensures
            risk == lookup_risk(table_view(self.mcc_risk@), mcc@),
    {
        let ghost table = table_view(self.mcc_risk@);
        let mut i: usize = 0;
        assert(table.skip(0) =~= table);
        while i < self.mcc_risk.len()
            invariant
                i <= self.mcc_risk@.len(),
                table == table_view(self.mcc_risk@),
                lookup_risk(table, mcc@) == lookup_risk(table.skip(i as int), mcc@),
            decreases self.mcc_risk@.len() - i,
        {
            let ghost rest = table.skip(i as int);
            assert(rest[0] == (self.mcc_risk@[i as int].mcc@, self.mcc_risk@[i as int].risk));
            if self.mcc_risk[i].mcc == *mcc {
                return self.mcc_risk[i].risk;
            }
            assert(rest.drop_first() =~= table.skip(i + 1));
            i = i + 1;
        }
        assert(table.skip(i as int) =~= Seq::<(Seq<char>, u32)>::empty());
        DEFAULT_MCC_RISK
    }
}

/// Whether the merchant is not among the customer's known merchants.
pub fn is_unknown_merchant(merchant_id: &String, known_merchants: &[String]) -> (unknown: bool)
    ensures
        unknown == !known_merchants@.map_values(|m: String| m@).contains(merchant_id@),
{
    let ghost known = known_merchants@.map_values(|m: String| m@);
    let mut i: usize = 0;
    while i < known_merchants.len()
        invariant
            i <= known_merchants@.len(),
            known == known_merchants@.map_values(|m: String| m@),
            forall|j: int| 0 <= j < i ==> known[j] != merchant_id@,
        decreases known_merchants@.len() - i,
    {
        if known_merchants[i] == *merchant_id {
            assert(known[i as int] == merchant_id@);
            return false;
        }
        i = i + 1;
    }
    true
}

} // verus!
