use vstd::prelude::*;
use crate::record::{TxView, TransactionData, records_view, copy_strings};
use crate::ranking::{rank, ranked, rank_spec, lemma_rank_spec_is_ranking};

verus! {

/// Whether some record of `txs` carries the identifier `id`.
pub open spec fn has_id(txs: Seq<TxView>, id: Seq<char>) -> bool {
    exists|i: int| 0 <= i < txs.len() && txs[i].id == id
}

/// The total weight of `txs`.
pub open spec fn sum_weight(txs: Seq<TxView>) -> nat
    decreases txs.len(),
{
    if txs.len() == 0 {
        0
    } else {
        sum_weight(txs.drop_last()) + txs.last().weight
    }
}

/// The total fee of `txs`.
pub open spec fn sum_fee(txs: Seq<TxView>) -> nat
    decreases txs.len(),
{
    if txs.len() == 0 {
        0
    } else {
        sum_fee(txs.drop_last()) + txs.last().fee
    }
}

/// The admission rule: `t` is not in the block yet, and each of its parents is.
pub open spec fn valid_addition(included: Seq<TxView>, t: TxView) -> bool {
    &&& !has_id(included, t.id)
    &&& forall|p: int| 0 <= p < t.parents.len() ==> has_id(included, #[trigger] t.parents[p])
}

/// The block after an attempt to admit `t` under capacity `cap`.
pub open spec fn after_admission(included: Seq<TxView>, t: TxView, cap: nat) -> Seq<TxView> {
    if sum_weight(included) + t.weight <= cap && valid_addition(included, t) {
        included.push(t)
    } else {
        included
    }
}

/// How many records of `ranked[0..n]` have an identifier outside `stack`.
pub open spec fn unresolved(ranked: Seq<TxView>, stack: Seq<Seq<char>>, n: int) -> nat
    decreases n,
{
    if n <= 0 {
        0
    } else {
        unresolved(ranked, stack, n - 1) + if stack.contains(ranked[n - 1].id) {
            0nat
        } else {
            1nat
        }
    }
}

/// Pushing the identifier of a pool entry onto `stack` leaves fewer
/// entries unresolved.
pub proof fn lemma_unresolved_push(
    ranked: Seq<TxView>,
    stack: Seq<Seq<char>>,
    j: int,
    n: int,
)
    requires
        0 <= n <= ranked.len(),
        0 <= j < ranked.len(),
        !stack.contains(ranked[j].id),
    ensures
        unresolved(ranked, stack.push(ranked[j].id), n) <= unresolved(ranked, stack, n),
        j < n ==> unresolved(ranked, stack.push(ranked[j].id), n) < unresolved(ranked, stack, n),
    decreases n,
{
    let s2 = stack.push(ranked[j].id);
    if n > 0 {
        lemma_unresolved_push(ranked, stack, j, n - 1);
        let id = ranked[n - 1].id;
        if stack.contains(id) {
            let k = choose|k: int| 0 <= k < stack.len() && stack[k] == id;
            assert(s2[k] == id);
        }
        if n - 1 == j {
            assert(s2[stack.len() as int] == id);
        }
    }
}

/// Visits the pool entry `ranked[j]` met as an ancestor: it is skipped when
/// its identifier is in the block already, reported as a cycle when it is
/// being resolved, and otherwise admitted after its own ancestors.
pub open spec fn visit_spec(
    ranked: Seq<TxView>,
    cap: nat,
    included: Seq<TxView>,
    j: int,
    stack: Seq<Seq<char>>,
) -> Result<Seq<TxView>, Seq<char>>
    decreases unresolved(ranked, stack, ranked.len() as int), 0nat, 0nat,
{
    if !(0 <= j < ranked.len()) {
        Ok(included)
    } else if has_id(included, ranked[j].id) {
        Ok(included)
    } else if stack.contains(ranked[j].id) {
        Err(ranked[j].id)
    } else {
        proof {
            lemma_unresolved_push(ranked, stack, j, ranked.len() as int);
        }
        match resolve_spec(ranked, cap, included, ranked[j].parents, 0, stack.push(ranked[j].id)) {
            Ok(b) => Ok(after_admission(b, ranked[j], cap)),
            Err(e) => Err(e),
        }
    }
}

/// Visits, in ranked order from position `j`, every pool entry whose
/// identifier is `id`.
pub open spec fn lookup_spec(
    ranked: Seq<TxView>,
    cap: nat,
    included: Seq<TxView>,
    id: Seq<char>,
    j: int,
    stack: Seq<Seq<char>>,
) -> Result<Seq<TxView>, Seq<char>>
    decreases unresolved(ranked, stack, ranked.len() as int), 1nat, ranked.len() - j,
{
    if j < 0 || j >= ranked.len() {
        Ok(included)
    } else if ranked[j].id == id {
        match visit_spec(ranked, cap, included, j, stack) {
            Ok(b) => lookup_spec(ranked, cap, b, id, j + 1, stack),
            Err(e) => Err(e),
        }
    } else {
        lookup_spec(ranked, cap, included, id, j + 1, stack)
    }
}

/// Resolves the ancestors `parents[p..]`, in their listed order.
pub open spec fn resolve_spec(
    ranked: Seq<TxView>,
    cap: nat,
    included: Seq<TxView>,
    parents: Seq<Seq<char>>,
    p: int,
    stack: Seq<Seq<char>>,
) -> Result<Seq<TxView>, Seq<char>>
    decreases unresolved(ranked, stack, ranked.len() as int), 2nat, parents.len() - p,
{
    if p < 0 || p >= parents.len() {
        Ok(included)
    } else {
        match lookup_spec(ranked, cap, included, parents[p], 0, stack) {
            Ok(b) => resolve_spec(ranked, cap, b, parents, p + 1, stack),
            Err(e) => Err(e),
        }
    }
}

/// The block after the candidate `ranked[k]` of the scan is considered.
pub open spec fn consider_spec(
    ranked: Seq<TxView>,
    cap: nat,
    included: Seq<TxView>,
    k: int,
) -> Result<Seq<TxView>, Seq<char>> {
    let t = ranked[k];
    if sum_weight(included) + t.weight > cap {
        Ok(included)
    } else {
        match resolve_spec(ranked, cap, included, t.parents, 0, seq![t.id]) {
            Ok(b) => Ok(after_admission(b, t, cap)),
            Err(e) => Err(e),
        }
    }
}

/// The block after the candidates `ranked[0..k]` are considered in turn;
/// an error names an identifier met again while its own ancestors were
/// being resolved.
pub open spec fn scan_spec(ranked: Seq<TxView>, cap: nat, k: int) -> Result<Seq<TxView>, Seq<char>>
    decreases k,
{
    if k <= 0 {
        Ok(Seq::empty())
    } else {
        match scan_spec(ranked, cap, k - 1) {
            Ok(b) => consider_spec(ranked, cap, b, k - 1),
            Err(e) => Err(e),
        }
    }
}

/// Once the scan has failed, it stays failed with the same identifier.
pub proof fn lemma_scan_err(ranked: Seq<TxView>, cap: nat, k: int, m: int)
    requires
        0 < k <= m,
        scan_spec(ranked, cap, k) is Err,
    ensures
        scan_spec(ranked, cap, m) == scan_spec(ranked, cap, k),
    decreases m - k,
{
    if m > k {
        lemma_scan_err(ranked, cap, k, m - 1);
    }
}

/// No identifier appears twice in `txs`.
pub open spec fn no_duplicate_ids(txs: Seq<TxView>) -> bool {
    forall|i: int, k: int| 0 <= i < k < txs.len() ==> #[trigger] txs[i].id != #[trigger] txs[k].id
}

/// Each parent of each record of `txs` is the identifier of an earlier record.
pub open spec fn parents_precede(txs: Seq<TxView>) -> bool {
    forall|i: int, p: int|
        0 <= i < txs.len() && 0 <= p < txs[i].parents.len() ==> has_id(
            #[trigger] txs.subrange(0, i),
            #[trigger] txs[i].parents[p],
        )
}

/// What holds of every block that assembly produces under capacity `cap`.
pub open spec fn block_invariant(txs: Seq<TxView>, cap: nat) -> bool {
    &&& sum_weight(txs) <= cap
    &&& no_duplicate_ids(txs)
    &&& parents_precede(txs)
}

/// An admission attempt keeps the block invariant.
pub proof fn lemma_admission_keeps_invariant(included: Seq<TxView>, t: TxView, cap: nat)
    requires
        block_invariant(included, cap),
    ensures
        block_invariant(after_admission(included, t, cap), cap),
{
    if sum_weight(included) + t.weight <= cap && valid_addition(included, t) {
        let b = included.push(t);
        assert(b.drop_last() =~= included);
        assert forall|i: int, k: int| 0 <= i < k < b.len() implies #[trigger] b[i].id != #[trigger] b[k].id by {
            if k == included.len() {
                assert(included[i].id == b[i].id);
            }
        }
        assert forall|i: int, p: int| 0 <= i < b.len() && 0 <= p < b[i].parents.len() implies has_id(
            #[trigger] b.subrange(0, i),
            #[trigger] b[i].parents[p],
        ) by {
            if i == included.len() {
                assert(b.subrange(0, i) =~= included);
                assert(has_id(included, t.parents[p]));
            } else {
                assert(b.subrange(0, i) =~= included.subrange(0, i));
                assert(b[i] == included[i]);
            }
        }
    }
}

/// Visiting an ancestor keeps the block invariant.
pub proof fn lemma_visit_keeps_invariant(
    ranked: Seq<TxView>,
    cap: nat,
    included: Seq<TxView>,
    j: int,
    stack: Seq<Seq<char>>,
)
    requires
        block_invariant(included, cap),
    ensures
        visit_spec(ranked, cap, included, j, stack) matches Ok(b) ==> block_invariant(b, cap),
    decreases unresolved(ranked, stack, ranked.len() as int), 0nat, 0nat,
{
    if 0 <= j < ranked.len() && !has_id(included, ranked[j].id) && !stack.contains(ranked[j].id) {
        lemma_unresolved_push(ranked, stack, j, ranked.len() as int);
        let inner = stack.push(ranked[j].id);
        lemma_resolve_keeps_invariant(ranked, cap, included, ranked[j].parents, 0, inner);
        if let Ok(b) = resolve_spec(ranked, cap, included, ranked[j].parents, 0, inner) {
            lemma_admission_keeps_invariant(b, ranked[j], cap);
        }
    }
}

/// Looking up an ancestor keeps the block invariant.
pub proof fn lemma_lookup_keeps_invariant(
    ranked: Seq<TxView>,
    cap: nat,
    included: Seq<TxView>,
    id: Seq<char>,
    j: int,
    stack: Seq<Seq<char>>,
)
    requires
        block_invariant(included, cap),
    ensures
        lookup_spec(ranked, cap, included, id, j, stack) matches Ok(b) ==> block_invariant(b, cap),
    decreases unresolved(ranked, stack, ranked.len() as int), 1nat, ranked.len() - j,
{
    if 0 <= j < ranked.len() {
        if ranked[j].id == id {
            lemma_visit_keeps_invariant(ranked, cap, included, j, stack);
            if let Ok(b) = visit_spec(ranked, cap, included, j, stack) {
                lemma_lookup_keeps_invariant(ranked, cap, b, id, j + 1, stack);
            }
        } else {
            lemma_lookup_keeps_invariant(ranked, cap, included, id, j + 1, stack);
        }
    }
}

/// Resolving a list of ancestors keeps the block invariant.
pub proof fn lemma_resolve_keeps_invariant(
    ranked: Seq<TxView>,
    cap: nat,
    included: Seq<TxView>,
    parents: Seq<Seq<char>>,
    p: int,
    stack: Seq<Seq<char>>,
)
    requires
        block_invariant(included, cap),
    ensures
        resolve_spec(ranked, cap, included, parents, p, stack) matches Ok(b) ==> block_invariant(b, cap),
    decreases unresolved(ranked, stack, ranked.len() as int), 2nat, parents.len() - p,
{
    if 0 <= p < parents.len() {
        lemma_lookup_keeps_invariant(ranked, cap, included, parents[p], 0, stack);
        if let Ok(b) = lookup_spec(ranked, cap, included, parents[p], 0, stack) {
            lemma_resolve_keeps_invariant(ranked, cap, b, parents, p + 1, stack);
        }
    }
}

/// Every block that the scan produces keeps within the capacity, holds no
/// identifier twice, and places each parent of a record before it.
pub proof fn lemma_scan_invariant(ranked: Seq<TxView>, cap: nat, k: int)
    ensures
        scan_spec(ranked, cap, k) matches Ok(b) ==> block_invariant(b, cap),
    decreases k,
{
    if k <= 0 {
        let e = Seq::<TxView>::empty();
        assert(sum_weight(e) == 0);
    } else {
        lemma_scan_invariant(ranked, cap, k - 1);
        if let Ok(b) = scan_spec(ranked, cap, k - 1) {
            let t = ranked[k - 1];
            if sum_weight(b) + t.weight <= cap {
                lemma_resolve_keeps_invariant(ranked, cap, b, t.parents, 0, seq![t.id]);
                if let Ok(b2) = resolve_spec(ranked, cap, b, t.parents, 0, seq![t.id]) {
                    lemma_admission_keeps_invariant(b2, t, cap);
                }
            }
        }
    }
}


/// The outcome of assembling a block from `pool` under capacity `cap`:
/// the pool is ranked, then scanned in that order.
pub open spec fn assemble_spec(pool: Seq<TxView>, cap: nat) -> Result<Seq<TxView>, Seq<char>> {
    scan_spec(ranked(pool), cap, ranked(pool).len() as int)
}

/// Assembly is deterministic: the same pool and capacity give the same
/// block, in the same order, or the same failure.
pub proof fn lemma_assembly_deterministic(pool1: Seq<TxView>, pool2: Seq<TxView>, cap: nat)
    requires
        pool1 == pool2,
    ensures
        assemble_spec(pool1, cap) == assemble_spec(pool2, cap),
{
}

/// Under capacity zero a pool of records of positive weight gives the
/// empty block.
pub proof fn lemma_zero_capacity_gives_empty_block(pool: Seq<TxView>)
    requires
        pool.len() <= usize::MAX,
        forall|i: int| 0 <= i < pool.len() ==> #[trigger] pool[i].weight > 0,
    ensures
        assemble_spec(pool, 0) == Ok::<Seq<TxView>, Seq<char>>(Seq::empty()),
{
    lemma_rank_spec_is_ranking(pool, pool.len() as int);
    let r = ranked(pool);
    let o = rank_spec(pool, pool.len() as int);
    assert forall|i: int| 0 <= i < r.len() implies #[trigger] r[i].weight > 0 by {
        assert(o[i] < pool.len());
        assert(r[i] == pool[o[i] as int]);
    }
    lemma_zero_capacity_scan(r, r.len() as int);
}

proof fn lemma_zero_capacity_scan(ranked: Seq<TxView>, k: int)
    requires
        0 <= k <= ranked.len(),
        forall|i: int| 0 <= i < ranked.len() ==> #[trigger] ranked[i].weight > 0,
    ensures
        scan_spec(ranked, 0, k) == Ok::<Seq<TxView>, Seq<char>>(Seq::empty()),
    decreases k,
{
    if k > 0 {
        lemma_zero_capacity_scan(ranked, k - 1);
        assert(sum_weight(Seq::<TxView>::empty()) == 0);
        assert(ranked[k - 1].weight > 0);
    }
}

/// The value of a block: what it holds, in order of admission, and its totals.
pub ghost struct BlockView {
    pub included: Seq<TxView>,
    pub total_weight: nat,
    pub total_fee: nat,
}

/// A block under assembly, or assembled.
pub struct Block {
    included: Vec<TransactionData>,
    total_weight: u64,
    total_fee: u128,
}

impl View for Block {
    type V = BlockView;

    closed spec fn view(&self) -> BlockView {
        BlockView {
            included: records_view(self.included@),
            total_weight: self.total_weight as nat,
            total_fee: self.total_fee as nat,
        }
    }
}

/// Why an assembly failed.
pub enum AssemblyError {
    /// The identifier was met again while its own ancestors were being resolved.
    CyclicDependency(String),
}

/// The outcome of a step of assembly, as the spec functions state it.
pub open spec fn outcome(r: Result<(), String>, included: Seq<TxView>) -> Result<Seq<TxView>, Seq<char>> {
    match r {
        Ok(_) => Ok(included),
        Err(e) => Err(e@),
    }
}

/// The outcome of a whole assembly, as the spec functions state it.
pub open spec fn assembly_outcome(r: Result<Block, AssemblyError>) -> Result<Seq<TxView>, Seq<char>> {
    match r {
        Ok(b) => Ok(b@.included),
        Err(AssemblyError::CyclicDependency(id)) => Err(id@),
    }
}

/// Fees that each fit in a `u64` sum to at most their count times `u64::MAX`.
pub proof fn lemma_sum_fee_bound(txs: Seq<TxView>)
    requires
        forall|i: int| 0 <= i < txs.len() ==> #[trigger] txs[i].fee <= u64::MAX,
    ensures
        sum_fee(txs) <= txs.len() * u64::MAX,
    decreases txs.len(),
{
    if txs.len() > 0 {
        let d = txs.drop_last();
        assert forall|i: int| 0 <= i < d.len() implies #[trigger] d[i].fee <= u64::MAX by {
            assert(d[i] == txs[i]);
        }
        lemma_sum_fee_bound(d);
        assert(txs.last().fee <= u64::MAX);
        assert((d.len() + 1) * u64::MAX == d.len() * u64::MAX + u64::MAX) by (nonlinear_arith);
    }
}

impl Block {
    /// The totals of the block are those of what it holds.
    pub open spec fn wf(&self) -> bool {
        &&& self@.total_weight == sum_weight(self@.included)
        &&& self@.total_fee == sum_fee(self@.included)
    }

    /// An empty block.
    pub fn new() -> (r: Block)
        ensures
            r.wf(),
            r@.included == Seq::<TxView>::empty(),
            r@.total_weight == 0,
            r@.total_fee == 0,
    {
        let r = Block { included: Vec::new(), total_weight: 0, total_fee: 0 };
        assert(r@.included =~= Seq::<TxView>::empty());
        r
    }

    /// The records of the block, in order of admission.
    pub fn included(&self) -> (r: &Vec<TransactionData>)
        ensures
            records_view(r@) == self@.included,
    {
        &self.included
    }

    /// The number of records in the block.
    pub fn len(&self) -> (r: usize)
        ensures
            r == self@.included.len(),
    {
        self.included.len()
    }

    /// The total weight of the block.
    pub fn total_weight(&self) -> (r: u64)
        ensures
            r == self@.total_weight,
    {
        self.total_weight
    }

    /// The total fee of the block.
    pub fn total_fee(&self) -> (r: u128)
        ensures
            r == self@.total_fee,
    {
        self.total_fee
    }

    /// The identifiers of the block, in order of admission.
    pub fn ids(&self) -> (r: Vec<String>)
        ensures
            r@.len() == self@.included.len(),
            forall|i: int| 0 <= i < r@.len() ==> #[trigger] r@[i]@ == self@.included[i].id,
    {
        let mut r: Vec<String> = Vec::new();
        let mut i: usize = 0;
        while i < self.included.len()
            invariant
                i <= self.included@.len(),
                r@.len() == i,
                forall|k: int| 0 <= k < i ==> #[trigger] r@[k]@ == self@.included[k].id,
            decreases self.included@.len() - i,
        {
            r.push(self.included[i].txid.clone());
            i += 1;
        }
        r
    }
}

/// Whether a record of `txs` carries the identifier `id`.
fn contains_id(txs: &Vec<TransactionData>, id: &String) -> (r: bool)
    ensures
        r == has_id(records_view(txs@), id@),
{
    let mut i: usize = 0;
    while i < txs.len()
        invariant
            i <= txs@.len(),
            forall|k: int| 0 <= k < i ==> #[trigger] txs@[k].txid@ != id@,
        decreases txs@.len() - i,
    {
        if txs[i].txid == *id {
            assert(records_view(txs@)[i as int].id == id@);
            return true;
        }
        i += 1;
    }
    assert(!has_id(records_view(txs@), id@)) by {
        if has_id(records_view(txs@), id@) {
            let k = choose|k: int| 0 <= k < txs@.len() && records_view(txs@)[k].id == id@;
            assert(txs@[k].txid@ == id@);
        }
    }
    false
}

/// Whether `id` is among the identifiers of `stack`.
fn stack_contains(stack: &Vec<String>, id: &String) -> (r: bool)
    ensures
        r == stack.deep_view().contains(id@),
{
    let mut i: usize = 0;
    while i < stack.len()
        invariant
            i <= stack@.len(),
            forall|k: int| 0 <= k < i ==> #[trigger] stack@[k]@ != id@,
        decreases stack@.len() - i,
    {
        if stack[i] == *id {
            assert(stack.deep_view()[i as int] == id@);
            return true;
        }
        i += 1;
    }
    assert(!stack.deep_view().contains(id@)) by {
        if stack.deep_view().contains(id@) {
            let k = choose|k: int| 0 <= k < stack.deep_view().len() && stack.deep_view()[k] == id@;
            assert(stack@[k]@ == id@);
        }
    }
    false
}

/// The admission rule: `t` is not in `block` yet, and each of its parents is.
pub fn is_valid_addition(block: &Block, t: &TransactionData) -> (r: bool)
    ensures
        r == valid_addition(block@.included, t@),
{
    if contains_id(&block.included, &t.txid) {
        return false;
    }
    let mut p: usize = 0;
    while p < t.parent_ids.len()
        invariant
            p <= t.parent_ids@.len(),
            forall|q: int| 0 <= q < p ==> has_id(block@.included, #[trigger] t@.parents[q]),
        decreases t.parent_ids@.len() - p,
    {
        if !contains_id(&block.included, &t.parent_ids[p]) {
            assert(!has_id(block@.included, t@.parents[p as int]));
            return false;
        }
        p += 1;
    }
    true
}

/// Admits `t` into `block` where it fits under `cap` and the admission rule holds.
fn populate_new_block(block: &mut Block, t: &TransactionData, cap: u64)
    requires
        old(block).wf(),
    ensures
        final(block).wf(),
        final(block)@.included == after_admission(old(block)@.included, t@, cap as nat),
        block_invariant(old(block)@.included, cap as nat) ==> block_invariant(final(block)@.included, cap as nat),
{
    proof {
        if block_invariant(block@.included, cap as nat) {
            lemma_admission_keeps_invariant(block@.included, t@, cap as nat);
        }
    }
    if (block.total_weight as u128) + (t.weight as u128) <= cap as u128 && is_valid_addition(block, t) {
        let ghost before = block@.included;
        let n = block.included.len();
        proof {
            assert forall|i: int| 0 <= i < before.len() implies #[trigger] before[i].fee <= u64::MAX by {
                assert(before[i].fee == block.included@[i].fee);
            }
            lemma_sum_fee_bound(before);
            let m = n as int;
            assert(m <= 0xffff_ffff_ffff_ffff);
            assert(sum_fee(before) + t.fee <= (m + 1) * 0xffff_ffff_ffff_ffffint) by (nonlinear_arith)
                requires
                    sum_fee(before) <= m * 0xffff_ffff_ffff_ffffint,
                    t.fee <= 0xffff_ffff_ffff_ffffint,
            ;
            assert((m + 1) * 0xffff_ffff_ffff_ffffint <= 0x1_0000_0000_0000_0000int * 0xffff_ffff_ffff_ffffint) by (nonlinear_arith)
                requires
                    m <= 0xffff_ffff_ffff_ffff,
            ;
        }
        block.included.push(t.duplicate());
        block.total_weight = block.total_weight + t.weight;
        block.total_fee = block.total_fee + t.fee as u128;
        proof {
            assert(block@.included =~= before.push(t@));
            assert(before.push(t@).drop_last() =~= before);
        }
    }
}

/// Visits the pool entry `ranked[j]` met as an ancestor.
fn visit(
    ranked: &Vec<TransactionData>,
    cap: u64,
    block: &mut Block,
    j: usize,
    stack: &Vec<String>,
) -> (r: Result<(), String>)
    requires
        j < ranked@.len(),
        old(block).wf(),
    ensures
        final(block).wf(),
        outcome(r, final(block)@.included) == visit_spec(
            records_view(ranked@),
            cap as nat,
            old(block)@.included,
            j as int,
            stack.deep_view(),
        ),
        r is Ok && block_invariant(old(block)@.included, cap as nat) ==> block_invariant(
            final(block)@.included,
            cap as nat,
        ),
    decreases unresolved(records_view(ranked@), stack.deep_view(), ranked@.len() as int), 0nat, 0nat,
{
    proof {
        if block_invariant(block@.included, cap as nat) {
            lemma_visit_keeps_invariant(records_view(ranked@), cap as nat, block@.included, j as int, stack.deep_view());
        }
    }
    let t = &ranked[j];
    if contains_id(&block.included, &t.txid) {
        return Ok(());
    }
    if stack_contains(stack, &t.txid) {
        return Err(t.txid.clone());
    }
    let mut inner = copy_strings(stack);
    inner.push(t.txid.clone());
    proof {
        assert(inner.deep_view() =~= stack.deep_view().push(t@.id));
        assert(records_view(ranked@)[j as int] == t@);
        lemma_unresolved_push(records_view(ranked@), stack.deep_view(), j as int, ranked@.len() as int);
    }
    match resolve(ranked, cap, block, &t.parent_ids, &inner) {
        Ok(()) => {
            populate_new_block(block, t, cap);
            Ok(())
        },
        Err(e) => Err(e),
    }
}

/// Visits, in ranked order, every pool entry whose identifier is `id`.
fn lookup(
    ranked: &Vec<TransactionData>,
    cap: u64,
    block: &mut Block,
    id: &String,
    stack: &Vec<String>,
) -> (r: Result<(), String>)
    requires
        old(block).wf(),
    ensures
        final(block).wf(),
        outcome(r, final(block)@.included) == lookup_spec(
            records_view(ranked@),
            cap as nat,
            old(block)@.included,
            id@,
            0,
            stack.deep_view(),
        ),
        r is Ok && block_invariant(old(block)@.included, cap as nat) ==> block_invariant(
            final(block)@.included,
            cap as nat,
        ),
    decreases unresolved(records_view(ranked@), stack.deep_view(), ranked@.len() as int), 1nat, ranked@.len(),
{
    proof {
        if block_invariant(block@.included, cap as nat) {
            lemma_lookup_keeps_invariant(records_view(ranked@), cap as nat, block@.included, id@, 0, stack.deep_view());
        }
    }
    let ghost rv = records_view(ranked@);
    let ghost goal = lookup_spec(rv, cap as nat, block@.included, id@, 0, stack.deep_view());
    let mut j: usize = 0;
    while j < ranked.len()
        invariant
            j <= ranked@.len(),
            rv == records_view(ranked@),
            block.wf(),
            goal == lookup_spec(rv, cap as nat, old(block)@.included, id@, 0, stack.deep_view()),
            goal == lookup_spec(rv, cap as nat, block@.included, id@, j as int, stack.deep_view()),
        decreases ranked@.len() - j,
    {
        if ranked[j].txid == *id {
            assert(rv[j as int].id == id@);
            let ghost before = block@.included;
            match visit(ranked, cap, block, j, stack) {
                Ok(()) => {},
                Err(e) => {
                    assert(visit_spec(rv, cap as nat, before, j as int, stack.deep_view()) == Err::<Seq<TxView>, Seq<char>>(e@));
                    assert(goal == Err::<Seq<TxView>, Seq<char>>(e@));
                    return Err(e);
                },
            }
        } else {
            assert(rv[j as int].id != id@);
        }
        j += 1;
    }
    Ok(())
}

/// Resolves the ancestors `parents`, in their listed order.
fn resolve(
    ranked: &Vec<TransactionData>,
    cap: u64,
    block: &mut Block,
    parents: &Vec<String>,
    stack: &Vec<String>,
) -> (r: Result<(), String>)
    requires
        old(block).wf(),
    ensures
        final(block).wf(),
        outcome(r, final(block)@.included) == resolve_spec(
            records_view(ranked@),
            cap as nat,
            old(block)@.included,
            parents.deep_view(),
            0,
            stack.deep_view(),
        ),
        r is Ok && block_invariant(old(block)@.included, cap as nat) ==> block_invariant(
            final(block)@.included,
            cap as nat,
        ),
    decreases unresolved(records_view(ranked@), stack.deep_view(), ranked@.len() as int), 2nat, parents@.len(),
{
    proof {
        if block_invariant(block@.included, cap as nat) {
            lemma_resolve_keeps_invariant(records_view(ranked@), cap as nat, block@.included, parents.deep_view(), 0, stack.deep_view());
        }
    }
    let ghost rv = records_view(ranked@);
    let ghost goal = resolve_spec(rv, cap as nat, block@.included, parents.deep_view(), 0, stack.deep_view());
    let mut p: usize = 0;
    while p < parents.len()
        invariant
            p <= parents@.len(),
            rv == records_view(ranked@),
            block.wf(),
            goal == resolve_spec(rv, cap as nat, old(block)@.included, parents.deep_view(), 0, stack.deep_view()),
            goal == resolve_spec(rv, cap as nat, block@.included, parents.deep_view(), p as int, stack.deep_view()),
        decreases parents@.len() - p,
    {
        let ghost before = block@.included;
        assert(parents.deep_view()[p as int] == parents@[p as int]@);
        match lookup(ranked, cap, block, &parents[p], stack) {
            Ok(()) => {},
            Err(e) => {
                assert(lookup_spec(rv, cap as nat, before, parents.deep_view()[p as int], 0, stack.deep_view())
                    == Err::<Seq<TxView>, Seq<char>>(e@));
                assert(goal == Err::<Seq<TxView>, Seq<char>>(e@));
                return Err(e);
            },
        }
        p += 1;
    }
    Ok(())
}

/// Assembles a block from the pool `ranked`, taken in its order, under
/// capacity `capacity`: each candidate that fits is admitted after its
/// ancestors, and an ancestor met again during its own resolution fails
/// the assembly with `CyclicDependency`.
pub fn select_priority(ranked: &Vec<TransactionData>, capacity: u64) -> (r: Result<Block, AssemblyError>)
    ensures
        assembly_outcome(r) == scan_spec(records_view(ranked@), capacity as nat, ranked@.len() as int),
        r matches Ok(b) ==> {
            &&& b.wf()
            &&& block_invariant(b@.included, capacity as nat)
        },
{
    let ghost rv = records_view(ranked@);
    let mut block = Block::new();
    let mut k: usize = 0;
    while k < ranked.len()
        invariant
            k <= ranked@.len(),
            rv == records_view(ranked@),
            block.wf(),
            scan_spec(rv, capacity as nat, k as int) == Ok::<Seq<TxView>, Seq<char>>(block@.included),
        decreases ranked@.len() - k,
    {
        let t = &ranked[k];
        assert(rv[k as int] == t@);
        if (block.total_weight as u128) + (t.weight as u128) <= capacity as u128 {
            let stack = vec![t.txid.clone()];
            assert(stack.deep_view() =~= seq![t@.id]);
            match resolve(ranked, capacity, &mut block, &t.parent_ids, &stack) {
                Ok(()) => populate_new_block(&mut block, t, capacity),
                Err(e) => {
                    proof {
                        lemma_scan_err(rv, capacity as nat, k as int + 1, ranked@.len() as int);
                    }
                    return Err(AssemblyError::CyclicDependency(e));
                },
            }
        }
        k += 1;
    }
    proof {
        lemma_scan_invariant(rv, capacity as nat, ranked@.len() as int);
    }
    Ok(block)
}

/// Ranks `pool` and assembles a block from it under capacity `capacity`.
pub fn build_block(pool: &Vec<TransactionData>, capacity: u64) -> (r: Result<Block, AssemblyError>)
    ensures
        assembly_outcome(r) == assemble_spec(records_view(pool@), capacity as nat),
        r matches Ok(b) ==> {
            &&& b.wf()
            &&& block_invariant(b@.included, capacity as nat)
        },
{
    let ranked_pool = rank(pool);
    select_priority(&ranked_pool, capacity)
}

} // verus!
