use vstd::prelude::*;
use vstd::string::*;
use vstd::utf8::is_ascii_chars;
use crate::ranking::{rank, ranked, rank_spec, is_ranking, is_priority_sorted, zero_fees_last};
use crate::text::{trim, split, parse_u64_spec, trim_ascii, split_ascii, parse_u64, lemma_split_ascii};

verus! {

/// The mathematical value of a transaction record.
pub ghost struct TxView {
    pub id: Seq<char>,
    pub fee: nat,
    pub weight: nat,
    pub parents: Seq<Seq<char>>,
}

/// One pending transaction of the pool.
pub struct TransactionData {
    /// The identifier.
    pub txid: String,
    /// The fee offered.
    pub fee: u64,
    /// The weight, counted against the capacity of a block.
    pub weight: u64,
    /// The identifiers of the transactions that must precede this one.
    pub parent_ids: Vec<String>,
}

impl View for TransactionData {
    type V = TxView;

    open spec fn view(&self) -> TxView {
        TxView {
            id: self.txid@,
            fee: self.fee as nat,
            weight: self.weight as nat,
            parents: self.parent_ids.deep_view(),
        }
    }
}

/// The views of a sequence of records.
pub open spec fn records_view(v: Seq<TransactionData>) -> Seq<TxView> {
    v.map_values(|t: TransactionData| t@)
}

impl TransactionData {
    /// A record from its fields.
    pub fn new(txid: String, fee: u64, weight: u64, parent_ids: Vec<String>) -> (r: Self)
        ensures
            r@ == (TxView {
                id: txid@,
                fee: fee as nat,
                weight: weight as nat,
                parents: parent_ids.deep_view(),
            }),
    {
        TransactionData { txid, fee, weight, parent_ids }
    }

    /// A record equal to this one.
    pub fn duplicate(&self) -> (r: Self)
        ensures
            r@ == self@,
    {
        TransactionData {
            txid: self.txid.clone(),
            fee: self.fee,
            weight: self.weight,
            parent_ids: copy_strings(&self.parent_ids),
        }
    }
}

/// Why a record of the pool could not be read.
#[derive(Debug, Clone, Copy, PartialEq, Eq, Structural)]
pub enum RecordError {
    /// The text is not ASCII, has fewer than three fields, an identifier
    /// field of fewer than two characters, or a fee or weight that is not a
    /// decimal `u64`.
    MalformedRecord,
}

/// The ancestor identifiers of the fields `f` of a record: the fourth
/// field without its last character, split at `;`.
pub open spec fn parents_field(f: Seq<Seq<char>>) -> Seq<Seq<char>> {
    if f.len() >= 4 && f[3].len() >= 2 {
        split(f[3].drop_last(), ';')
    } else {
        Seq::empty()
    }
}

/// The record that the line `line` writes: comma-separated fields, an
/// identifier behind a one-character prefix, the fee, the weight, and
/// optionally the ancestor list; white space at either end is ignored.
pub open spec fn parse_record_spec(line: Seq<char>) -> Option<TxView> {
    let f = split(trim(line), ',');
    if is_ascii_chars(line) && f.len() >= 3 && f[0].len() >= 2 && parse_u64_spec(f[1]) is Some
        && parse_u64_spec(f[2]) is Some {
        Some(
            TxView {
                id: f[0].drop_first(),
                fee: parse_u64_spec(f[1]).unwrap() as nat,
                weight: parse_u64_spec(f[2]).unwrap() as nat,
                parents: parents_field(f),
            },
        )
    } else {
        None
    }
}

/// The records that the lines `lines` write, blank lines skipped, or
/// `None` where one of them is malformed.
pub open spec fn parse_lines(lines: Seq<Seq<char>>) -> Option<Seq<TxView>>
    decreases lines.len(),
{
    if lines.len() == 0 {
        Some(Seq::empty())
    } else {
        match parse_lines(lines.drop_last()) {
            None => None,
            Some(v) => if trim(lines.last()).len() == 0 {
                Some(v)
            } else {
                match parse_record_spec(lines.last()) {
                    Some(t) => Some(v.push(t)),
                    None => None,
                }
            },
        }
    }
}

/// Once a line is malformed, no longer run of lines can be read.
pub proof fn lemma_parse_lines_none(lines: Seq<Seq<char>>, i: int, m: int)
    requires
        0 <= i <= m <= lines.len(),
        parse_lines(lines.subrange(0, i)) is None,
    ensures
        parse_lines(lines.subrange(0, m)) is None,
    decreases m - i,
{
    if i < m {
        lemma_parse_lines_none(lines, i, m - 1);
        assert(lines.subrange(0, m).drop_last() =~= lines.subrange(0, m - 1));
    }
}

/// The records of the pool text `content`, one per line.
pub open spec fn extract_spec(content: Seq<char>) -> Option<Seq<TxView>> {
    if is_ascii_chars(content) {
        parse_lines(split(content, '\n'))
    } else {
        None
    }
}

/// Reads one record of the pool from its line.
pub fn parse_record(line: &str) -> (r: Result<TransactionData, RecordError>)
    ensures
        match parse_record_spec(line@) {
            Some(t) => r matches Ok(x) && x@ == t,
            None => r == Err::<TransactionData, RecordError>(RecordError::MalformedRecord),
        },
{
    if !line.is_ascii() {
        return Err(RecordError::MalformedRecord);
    }
    let t = trim_ascii(line);
    let f = split_ascii(t, ',');
    proof {
        lemma_split_ascii(t@, ',');
    }
    if f.len() < 3 {
        return Err(RecordError::MalformedRecord);
    }
    assert(f.deep_view()[0] == f@[0]@ && f.deep_view()[1] == f@[1]@ && f.deep_view()[2] == f@[2]@);
    let id_field = f[0].as_str();
    let id_len = id_field.unicode_len();
    if id_len < 2 {
        return Err(RecordError::MalformedRecord);
    }
    let fee = match parse_u64(f[1].as_str()) {
        Some(v) => v,
        None => {
            return Err(RecordError::MalformedRecord);
        },
    };
    let weight = match parse_u64(f[2].as_str()) {
        Some(v) => v,
        None => {
            return Err(RecordError::MalformedRecord);
        },
    };
    let txid = id_field.substring_ascii(1, id_len).to_owned();
    assert(txid@ =~= f@[0]@.drop_first());
    let mut parent_ids: Vec<String> = Vec::new();
    if f.len() >= 4 {
        assert(f.deep_view()[3] == f@[3]@);
        let list = f[3].as_str();
        let list_len = list.unicode_len();
        if list_len >= 2 {
            let body = list.substring_ascii(0, list_len - 1);
            assert(body@ =~= f@[3]@.drop_last());
            parent_ids = split_ascii(body, ';');
        }
    }
    proof {
        if !(f@.len() >= 4 && f@[3]@.len() >= 2) {
            assert(parent_ids.deep_view() =~= Seq::<Seq<char>>::empty());
        }
    }
    Ok(TransactionData { txid, fee, weight, parent_ids })
}

/// Reads the records of the pool text `content`, one per line, in line
/// order; blank lines are skipped.
pub fn parse_pool(content: &str) -> (r: Result<Vec<TransactionData>, RecordError>)
    ensures
        match extract_spec(content@) {
            Some(v) => r matches Ok(x) && records_view(x@) == v,
            None => r == Err::<Vec<TransactionData>, RecordError>(RecordError::MalformedRecord),
        },
{
    if !content.is_ascii() {
        return Err(RecordError::MalformedRecord);
    }
    let lines = split_ascii(content, '\n');
    let ghost lv = lines.deep_view();
    proof {
        lemma_split_ascii(content@, '\n');
    }
    let mut all_transactions: Vec<TransactionData> = Vec::new();
    let mut i: usize = 0;
    assert(lv.subrange(0, 0) =~= Seq::<Seq<char>>::empty());
    assert(records_view(all_transactions@) =~= Seq::<TxView>::empty());
    while i < lines.len()
        invariant
            i <= lines@.len(),
            lv == lines.deep_view(),
            lv == split(content@, '\n'),
            forall|k: int| 0 <= k < lv.len() ==> is_ascii_chars(#[trigger] lv[k]),
            parse_lines(lv.subrange(0, i as int)) == Some(records_view(all_transactions@)),
        decreases lines@.len() - i,
    {
        let line = lines[i].as_str();
        assert(line@ == lv[i as int]);
        assert(lv.subrange(0, i as int + 1).drop_last() =~= lv.subrange(0, i as int));
        let t = trim_ascii(line);
        if t.unicode_len() != 0 {
            match parse_record(line) {
                Ok(tx) => {
                    let ghost before = records_view(all_transactions@);
                    all_transactions.push(tx);
                    assert(records_view(all_transactions@) =~= before.push(tx@));
                },
                Err(e) => {
                    proof {
                        lemma_parse_lines_none(lv, i as int + 1, lv.len() as int);
                        assert(lv.subrange(0, lv.len() as int) =~= lv);
                    }
                    return Err(e);
                },
            }
        }
        i += 1;
    }
    assert(lv.subrange(0, lv.len() as int) =~= lv);
    Ok(all_transactions)
}

/// Reads the records of the pool text `content` and ranks them: ascending
/// weight per unit of fee, zero-fee records after every paying one, equal
/// priorities in line order.
pub fn extract_fields(content: &str) -> (r: Result<Vec<TransactionData>, RecordError>)
    ensures
        match extract_spec(content@) {
            Some(v) => r matches Ok(x) && {
                &&& records_view(x@) == ranked(v)
                &&& is_priority_sorted(records_view(x@))
                &&& zero_fees_last(records_view(x@))
                &&& is_ranking(v, rank_spec(v, v.len() as int), v.len() as int)
            },
            None => r == Err::<Vec<TransactionData>, RecordError>(RecordError::MalformedRecord),
        },
{
    match parse_pool(content) {
        Ok(all_transactions) => Ok(rank(&all_transactions)),
        Err(e) => Err(e),
    }
}

/// A copy of `v`, string by string.
pub fn copy_strings(v: &Vec<String>) -> (r: Vec<String>)
    ensures
        r.deep_view() == v.deep_view(),
{
    let mut r: Vec<String> = Vec::new();
    let mut i: usize = 0;
    while i < v.len()
        invariant
            i <= v@.len(),
            r@.len() == i,
            forall|k: int| 0 <= k < i ==> #[trigger] r@[k]@ == v@[k]@,
        decreases v@.len() - i,
    {
        r.push(v[i].clone());
        i += 1;
    }
    assert(r.deep_view() =~= v.deep_view());
    r
}

} // verus!
