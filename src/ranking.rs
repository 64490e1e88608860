use vstd::prelude::*;
use crate::record::{TxView, TransactionData, records_view};

verus! {

/// `a` ranks no later than `b`: weight per unit of fee ascending, with a
/// zero fee standing for an infinite ratio.
pub open spec fn priority_le(a: TxView, b: TxView) -> bool {
    if b.fee == 0 {
        true
    } else if a.fee == 0 {
        false
    } else {
        a.weight * b.fee <= b.weight * a.fee
    }
}

/// Pool entry `i` comes strictly before entry `j` in the ranking: a better
/// priority, or an equal one and an earlier place in the pool.
pub open spec fn ranks_before(pool: Seq<TxView>, i: int, j: int) -> bool {
    &&& priority_le(pool[i], pool[j])
    &&& (priority_le(pool[j], pool[i]) ==> i < j)
}

/// The first position from `pos` on in `order` whose entry ranks after `pool[k]`.
pub open spec fn insert_pos(pool: Seq<TxView>, order: Seq<usize>, k: int, pos: int) -> int
    decreases order.len() - pos,
{
    if pos < 0 || pos >= order.len() {
        order.len() as int
    } else if !priority_le(pool[order[pos] as int], pool[k]) {
        pos
    } else {
        insert_pos(pool, order, k, pos + 1)
    }
}

/// The ranking of `pool[0..k]`, as positions in the pool: each entry in
/// turn is placed after every earlier one of equal or better priority.
pub open spec fn rank_spec(pool: Seq<TxView>, k: int) -> Seq<usize>
    decreases k,
{
    if k <= 0 {
        Seq::empty()
    } else {
        let o = rank_spec(pool, k - 1);
        o.insert(insert_pos(pool, o, k - 1, 0), (k - 1) as usize)
    }
}

/// The pool in ranked order.
pub open spec fn ranked(pool: Seq<TxView>) -> Seq<TxView> {
    let o = rank_spec(pool, pool.len() as int);
    Seq::new(o.len(), |i: int| pool[o[i] as int])
}

/// `s` is ordered by priority: no record ranks strictly after a later one.
pub open spec fn is_priority_sorted(s: Seq<TxView>) -> bool {
    forall|i: int, j: int| 0 <= i < j < s.len() ==> priority_le(#[trigger] s[i], #[trigger] s[j])
}

/// In `s` every record of zero fee comes after every record that pays a fee.
pub open spec fn zero_fees_last(s: Seq<TxView>) -> bool {
    forall|i: int, j: int| 0 <= i < j < s.len() && #[trigger] s[i].fee == 0 ==> #[trigger] s[j].fee == 0
}

/// `order` lists the positions `0..n` of `pool`, each once, in ranked order.
pub open spec fn is_ranking(pool: Seq<TxView>, order: Seq<usize>, n: int) -> bool {
    &&& order.len() == n
    &&& forall|i: int| 0 <= i < order.len() ==> #[trigger] order[i] < n
    &&& forall|i: int, l: int|
        #![trigger order[i], order[l]]
        0 <= i < l < order.len() ==> ranks_before(pool, order[i] as int, order[l] as int)
}

/// Of two records, one ranks no later than the other.
pub proof fn lemma_priority_total(a: TxView, b: TxView)
    ensures
        priority_le(a, b) || priority_le(b, a),
{
}

/// Ranking no later is transitive.
pub proof fn lemma_priority_transitive(a: TxView, b: TxView, c: TxView)
    requires
        priority_le(a, b),
        priority_le(b, c),
    ensures
        priority_le(a, c),
{
    if c.fee != 0 && b.fee != 0 && a.fee != 0 {
        let (aw, af, bw, bf, cw, cf) = (a.weight as int, a.fee as int, b.weight as int, b.fee as int, c.weight as int, c.fee as int);
        assert(aw * cf <= cw * af) by (nonlinear_arith)
            requires
                aw * bf <= bw * af,
                bw * cf <= cw * bf,
                af > 0,
                bf > 0,
                cf > 0,
                aw >= 0,
                bw >= 0,
                cw >= 0,
        {
            assert(aw * bf * cf <= bw * af * cf);
            assert(bw * cf * af <= cw * bf * af);
            assert(bf * (aw * cf) <= bf * (cw * af));
        }
    }
}

/// Where `insert_pos` lands: every entry before it ranks no later than
/// `pool[k]`, and the entry at it, if any, ranks strictly later.
proof fn lemma_insert_pos(pool: Seq<TxView>, order: Seq<usize>, k: int, pos: int)
    requires
        0 <= pos <= order.len(),
        0 <= k < pool.len(),
        forall|i: int| 0 <= i < order.len() ==> #[trigger] order[i] < pool.len(),
        forall|i: int| 0 <= i < pos ==> priority_le(pool[#[trigger] order[i] as int], pool[k]),
    ensures
        pos <= insert_pos(pool, order, k, pos) <= order.len(),
        forall|i: int|
            0 <= i < insert_pos(pool, order, k, pos) ==> priority_le(pool[#[trigger] order[i] as int], pool[k]),
        insert_pos(pool, order, k, pos) < order.len() ==> !priority_le(
            pool[order[insert_pos(pool, order, k, pos)] as int],
            pool[k],
        ),
    decreases order.len() - pos,
{
    if pos < order.len() && priority_le(pool[order[pos] as int], pool[k]) {
        lemma_insert_pos(pool, order, k, pos + 1);
    }
}

/// The ranking lists every position of the pool once, in ranked order.
pub proof fn lemma_rank_spec_is_ranking(pool: Seq<TxView>, k: int)
    requires
        0 <= k <= pool.len(),
        k <= usize::MAX,
    ensures
        is_ranking(pool, rank_spec(pool, k), k),
    decreases k,
{
    if k > 0 {
        let o = rank_spec(pool, k - 1);
        lemma_rank_spec_is_ranking(pool, k - 1);
        lemma_insert_pos(pool, o, k - 1, 0);
        let pos = insert_pos(pool, o, k - 1, 0);
        let r = o.insert(pos, (k - 1) as usize);
        assert(r == rank_spec(pool, k));
        assert forall|i: int| 0 <= i < r.len() implies #[trigger] r[i] < k by {
            if i < pos {
                assert(r[i] == o[i]);
            } else if i > pos {
                assert(r[i] == o[i - 1]);
            }
        }
        assert forall|i: int, l: int| #![trigger r[i], r[l]] 0 <= i < l < r.len() implies ranks_before(
            pool,
            r[i] as int,
            r[l] as int,
        ) by {
            let x = k - 1;
            if i < pos && l < pos {
                assert(r[i] == o[i] && r[l] == o[l]);
            } else if i < pos && l == pos {
                assert(r[i] == o[i]);
                assert(r[l] as int == x);
                assert(priority_le(pool[o[i] as int], pool[x]));
            } else if i < pos && l > pos {
                assert(r[i] == o[i] && r[l] == o[l - 1]);
            } else if i == pos {
                assert(r[i] as int == x);
                assert(r[l] == o[l - 1]);
                let y = o[l - 1] as int;
                let z = o[pos] as int;
                assert(!priority_le(pool[z], pool[x]));
                lemma_priority_total(pool[z], pool[x]);
                if l - 1 > pos {
                    assert(ranks_before(pool, o[pos] as int, o[l - 1] as int));
                    lemma_priority_transitive(pool[x], pool[z], pool[y]);
                    if priority_le(pool[y], pool[x]) {
                        lemma_priority_transitive(pool[z], pool[y], pool[x]);
                    }
                }
            } else {
                assert(r[i] == o[i - 1] && r[l] == o[l - 1]);
            }
        }
    }
}

/// Whether `a` ranks no later than `b`.
pub fn priority_not_after(a: &TransactionData, b: &TransactionData) -> (r: bool)
    ensures
        r == priority_le(a@, b@),
{
    if b.fee == 0 {
        true
    } else if a.fee == 0 {
        false
    } else {
        let (aw, af, bw, bf) = (a.weight as u128, a.fee as u128, b.weight as u128, b.fee as u128);
        assert(aw * bf <= u64::MAX * u64::MAX) by (nonlinear_arith)
            requires
                aw <= u64::MAX,
                bf <= u64::MAX,
        ;
        assert(bw * af <= u64::MAX * u64::MAX) by (nonlinear_arith)
            requires
                bw <= u64::MAX,
                af <= u64::MAX,
        ;
        aw * bf <= bw * af
    }
}

/// The positions of `pool` in ranked order: ascending weight per unit of
/// fee, a zero fee last, equal priorities in pool order.
pub fn rank_order(pool: &Vec<TransactionData>) -> (order: Vec<usize>)
    ensures
        order@ == rank_spec(records_view(pool@), pool@.len() as int),
        is_ranking(records_view(pool@), order@, pool@.len() as int),
{
    let ghost pv = records_view(pool@);
    let mut order: Vec<usize> = Vec::new();
    let mut k: usize = 0;
    while k < pool.len()
        invariant
            k <= pool@.len(),
            pv == records_view(pool@),
            order@ == rank_spec(pv, k as int),
        decreases pool@.len() - k,
    {
        proof {
            lemma_rank_spec_is_ranking(pv, k as int);
        }
        let mut pos: usize = 0;
        while pos < order.len() && priority_not_after(&pool[order[pos]], &pool[k])
            invariant
                k < pool@.len(),
                pos <= order@.len(),
                pv == records_view(pool@),
                order@ == rank_spec(pv, k as int),
                is_ranking(pv, order@, k as int),
                insert_pos(pv, order@, k as int, 0) == insert_pos(pv, order@, k as int, pos as int),
            decreases order@.len() - pos,
        {
            pos += 1;
        }
        order.insert(pos, k);
        k += 1;
    }
    let n = pool.len();
    proof {
        lemma_rank_spec_is_ranking(pv, n as int);
    }
    order
}

/// The ranked pool is ordered by priority, with every zero-fee record
/// after every paying one, and lists the pool entries in the order of a
/// ranking: each entry once, equal priorities in pool order.
pub proof fn lemma_ranked_properties(pool: Seq<TxView>)
    requires
        pool.len() <= usize::MAX,
    ensures
        is_ranking(pool, rank_spec(pool, pool.len() as int), pool.len() as int),
        ranked(pool).len() == pool.len(),
        forall|i: int| 0 <= i < pool.len() ==>
            #[trigger] ranked(pool)[i] == pool[rank_spec(pool, pool.len() as int)[i] as int],
        is_priority_sorted(ranked(pool)),
        zero_fees_last(ranked(pool)),
{
    let o = rank_spec(pool, pool.len() as int);
    let r = ranked(pool);
    lemma_rank_spec_is_ranking(pool, pool.len() as int);
    assert forall|i: int, j: int| 0 <= i < j < r.len() implies priority_le(#[trigger] r[i], #[trigger] r[j]) by {
        assert(ranks_before(pool, o[i] as int, o[j] as int));
    }
    assert forall|i: int, j: int| 0 <= i < j < r.len() && #[trigger] r[i].fee == 0 implies #[trigger] r[j].fee == 0 by {
        assert(priority_le(r[i], r[j]));
    }
}

/// The pool in ranked order: ascending weight per unit of fee, a zero fee
/// last, equal priorities in pool order.
pub fn rank(pool: &Vec<TransactionData>) -> (r: Vec<TransactionData>)
    ensures
        records_view(r@) == ranked(records_view(pool@)),
        r@.len() == pool@.len(),
        is_priority_sorted(records_view(r@)),
        zero_fees_last(records_view(r@)),
        is_ranking(records_view(pool@), rank_spec(records_view(pool@), pool@.len() as int), pool@.len() as int),
{
    let order = rank_order(pool);
    let ghost pv = records_view(pool@);
    let mut r: Vec<TransactionData> = Vec::new();
    let mut i: usize = 0;
    while i < order.len()
        invariant
            i <= order@.len(),
            pv == records_view(pool@),
            is_ranking(pv, order@, pool@.len() as int),
            r@.len() == i,
            forall|l: int| 0 <= l < i ==> #[trigger] r@[l]@ == pv[order@[l] as int],
        decreases order@.len() - i,
    {
        r.push(pool[order[i]].duplicate());
        i += 1;
    }
    assert(records_view(r@) =~= ranked(pv));
    let n = pool.len();
    proof {
        lemma_ranked_properties(pv);
    }
    r
}

} // verus!
