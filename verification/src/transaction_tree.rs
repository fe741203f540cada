//! The category aggregation tree: spending accumulated at every level of the
//! tag hierarchy, keyed by tag path in ascending order.
use crate::date::Date;
use crate::money::{spec_checked_div, spec_left_to_date, Money};
use crate::order::{is_prefix_of, is_strict_prefix_of, path_lt, Cmp};
use crate::tag::{Tag, TagSlice};
use crate::transaction::{txs_sorted, Transaction};
use vstd::prelude::*;

verus! {

/// A node of the category tree.  A `Leaf` stands at the exact tag path of at
/// least one transaction and holds the indices of those transactions; a
/// `NonLeaf` stands at a strict ancestor of transaction or limit paths and
/// only aggregates.
pub enum Category {
    Leaf { limit: Option<Money>, spent: Money, transactions: Vec<usize> },
    NonLeaf { limit: Option<Money>, spent: Money },
}

/// Mathematical value of a node.
pub struct CategoryV {
    pub is_leaf: bool,
    pub limit: Option<int>,
    pub spent: int,
    pub transactions: Seq<int>,
}

impl View for Category {
    type V = CategoryV;

    closed spec fn view(&self) -> CategoryV {
        match self {
            Category::Leaf { limit, spent, transactions } => CategoryV {
                is_leaf: true,
                limit: match limit {
                    Option::Some(m) => Option::Some(m@),
                    Option::None => Option::None,
                },
                spent: spent@,
                transactions: transactions@.map_values(|u: usize| u as int),
            },
            Category::NonLeaf { limit, spent } => CategoryV {
                is_leaf: false,
                limit: match limit {
                    Option::Some(m) => Option::Some(m@),
                    Option::None => Option::None,
                },
                spent: spent@,
                transactions: Seq::<int>::empty(),
            },
        }
    }
}

/// The role conflict: a tag path required to act as a `Leaf` and as a
/// `NonLeaf` at once.
#[derive(Debug)]
pub enum TreeError {
    RoleConflict { path: TagSlice },
}

/// Sum of the amounts of the entries whose tag is exactly `p`.
pub open spec fn exact_sum(txs: Seq<Transaction>, p: Seq<Seq<char>>) -> int
    decreases txs.len(),
{
    if txs.len() == 0 {
        0
    } else {
        exact_sum(txs.drop_last(), p) + if txs.last().tag@ == p {
            txs.last().amount@
        } else {
            0int
        }
    }
}

/// Sum of the amounts of the entries whose tag strictly extends `p`.
pub open spec fn strict_sum(txs: Seq<Transaction>, p: Seq<Seq<char>>) -> int
    decreases txs.len(),
{
    if txs.len() == 0 {
        0
    } else {
        strict_sum(txs.drop_last(), p) + if is_strict_prefix_of(p, txs.last().tag@) {
            txs.last().amount@
        } else {
            0int
        }
    }
}

/// Sum of the amounts of the entries whose tag is `p` or extends it.
pub open spec fn subtree_sum(txs: Seq<Transaction>, p: Seq<Seq<char>>) -> int
    decreases txs.len(),
{
    if txs.len() == 0 {
        0
    } else {
        subtree_sum(txs.drop_last(), p) + if is_prefix_of(p, txs.last().tag@) {
            txs.last().amount@
        } else {
            0int
        }
    }
}

/// Indices, in ascending order, of the entries whose tag is exactly `p`.
pub open spec fn exact_indices(txs: Seq<Transaction>, p: Seq<Seq<char>>) -> Seq<int>
    decreases txs.len(),
{
    if txs.len() == 0 {
        Seq::<int>::empty()
    } else {
        exact_indices(txs.drop_last(), p) + if txs.last().tag@ == p {
            seq![txs.len() - 1]
        } else {
            Seq::<int>::empty()
        }
    }
}

/// Sum of the magnitudes of all amounts; what bounds every partial sum.
pub open spec fn abs_amount_sum(txs: Seq<Transaction>) -> int
    decreases txs.len(),
{
    if txs.len() == 0 {
        0
    } else {
        abs_amount_sum(txs.drop_last()) + if txs.last().amount@ >= 0 {
            txs.last().amount@
        } else {
            -txs.last().amount@
        }
    }
}

/// Two transactions whose tags strictly extend one another.
pub open spec fn txs_conflict(txs: Seq<Transaction>) -> bool {
    exists|i: int, j: int|
        0 <= i < txs.len() && 0 <= j < txs.len() && is_strict_prefix_of(
            #[trigger] txs[i].tag@,
            #[trigger] txs[j].tag@,
        )
}

/// A transaction whose exact tag is a strict ancestor of a limit's path.
pub open spec fn limit_conflict(txs: Seq<Transaction>, limits: Seq<(Tag, Money)>) -> bool {
    exists|i: int, j: int|
        0 <= i < txs.len() && 0 <= j < limits.len() && is_strict_prefix_of(
            #[trigger] txs[i].tag@,
            #[trigger] limits[j].0@,
        )
}

pub open spec fn has_conflict(txs: Seq<Transaction>, limits: Seq<(Tag, Money)>) -> bool {
    txs_conflict(txs) || limit_conflict(txs, limits)
}

/// The limit set for `p`: the last entry for that tag wins.
pub open spec fn limit_of(limits: Seq<(Tag, Money)>, p: Seq<Seq<char>>) -> Option<int>
    decreases limits.len(),
{
    if limits.len() == 0 {
        Option::None
    } else if limits.last().0@ == p {
        Option::Some(limits.last().1@)
    } else {
        limit_of(limits.drop_last(), p)
    }
}

/// The paths the tree holds a node for: every transaction or limit path and
/// every ancestor of one.
pub open spec fn in_domain(
    p: Seq<Seq<char>>,
    txs: Seq<Transaction>,
    limits: Seq<(Tag, Money)>,
) -> bool {
    (exists|i: int| 0 <= i < txs.len() && is_prefix_of(p, #[trigger] txs[i].tag@)) || (exists|
        j: int,
    | 0 <= j < limits.len() && is_prefix_of(p, #[trigger] limits[j].0@))
}

/// What a finished node states, `p` its path: a `Leaf` exactly where some
/// transaction has tag `p`; the limit mapping's entry for `p`; a `Leaf`'s
/// spending and transaction list drawn from the exact matches, a `NonLeaf`'s
/// spending from the strict extensions.
pub open spec fn node_ok(
    p: Seq<Seq<char>>,
    c: CategoryV,
    txs: Seq<Transaction>,
    limits: Seq<(Tag, Money)>,
) -> bool {
    &&& (c.is_leaf <==> exists|i: int| 0 <= i < txs.len() && #[trigger] txs[i].tag@ == p)
    &&& c.limit == limit_of(limits, p)
    &&& (c.is_leaf ==> c.spent == exact_sum(txs, p) && c.transactions == exact_indices(txs, p))
    &&& (!c.is_leaf ==> c.spent == strict_sum(txs, p))
}

/// `q` is an ancestor-or-self of some of the first transactions' tags.
pub open spec fn tx_prefix_domain(q: Seq<Seq<char>>, txs: Seq<Transaction>) -> bool {
    exists|i: int| 0 <= i < txs.len() && is_prefix_of(q, #[trigger] txs[i].tag@)
}

/// What a node states once the first transactions are in and no limit has
/// been applied yet.
pub open spec fn phase1_node_ok(p: Seq<Seq<char>>, c: CategoryV, pre: Seq<Transaction>) -> bool {
    &&& (c.is_leaf <==> exists|i: int| 0 <= i < pre.len() && #[trigger] pre[i].tag@ == p)
    &&& c.limit is None
    &&& (c.is_leaf ==> c.spent == exact_sum(pre, p) && c.transactions == exact_indices(pre, p))
    &&& (!c.is_leaf ==> c.spent == strict_sum(pre, p))
}

/// One more transaction that touches nothing under `q` changes nothing
/// about `q`'s node.
pub proof fn lemma_phase1_node_unaffected(
    q: Seq<Seq<char>>,
    c: CategoryV,
    txs: Seq<Transaction>,
    k: int,
)
    requires
        0 <= k < txs.len(),
        !is_prefix_of(q, txs[k].tag@),
        phase1_node_ok(q, c, txs.take(k)),
    ensures
        phase1_node_ok(q, c, txs.take(k + 1)),
{
    lemma_sums_take_step(txs, q, k);
    if txs[k].tag@ == q {
        crate::order::lemma_prefix_refl(q);
    }
    let pre = txs.take(k);
    let cur = txs.take(k + 1);
    assert forall|i: int| 0 <= i < cur.len() && #[trigger] cur[i].tag@ == q implies exists|m: int|
        0 <= m < pre.len() && #[trigger] pre[m].tag@ == q by {
        assert(cur[i] == txs[i]);
        assert(i != k);
        assert(pre[i] == txs[i]);
    }
    if exists|m: int| 0 <= m < pre.len() && #[trigger] pre[m].tag@ == q {
        let m = choose|m: int| 0 <= m < pre.len() && #[trigger] pre[m].tag@ == q;
        assert(cur[m].tag@ == q);
    }
}

/// The domain after one more transaction: the old domain plus the new tag's
/// ancestors-or-self.
pub proof fn lemma_tx_domain_step(q: Seq<Seq<char>>, txs: Seq<Transaction>, k: int)
    requires
        0 <= k < txs.len(),
    ensures
        tx_prefix_domain(q, txs.take(k + 1)) == (tx_prefix_domain(q, txs.take(k)) || is_prefix_of(
            q,
            txs[k].tag@,
        )),
{
    let pre = txs.take(k);
    let cur = txs.take(k + 1);
    if tx_prefix_domain(q, cur) {
        let i = choose|i: int| 0 <= i < cur.len() && is_prefix_of(q, #[trigger] cur[i].tag@);
        assert(cur[i] == txs[i]);
        if i < k {
            assert(pre[i] == txs[i]);
            assert(tx_prefix_domain(q, pre));
        }
    }
    if tx_prefix_domain(q, pre) {
        let i = choose|i: int| 0 <= i < pre.len() && is_prefix_of(q, #[trigger] pre[i].tag@);
        assert(cur[i] == txs[i] && pre[i] == txs[i]);
        assert(tx_prefix_domain(q, cur));
    }
    if is_prefix_of(q, txs[k].tag@) {
        assert(cur[k] == txs[k]);
        assert(tx_prefix_domain(q, cur));
    }
}

/// A `Some` in the limit mapping names one of its tags.
pub proof fn lemma_limit_of_some(limits: Seq<(Tag, Money)>, q: Seq<Seq<char>>)
    ensures
        limit_of(limits, q) is Some ==> exists|m: int|
            0 <= m < limits.len() && #[trigger] limits[m].0@ == q,
    decreases limits.len(),
{
    if limits.len() > 0 && limits.last().0@ != q {
        lemma_limit_of_some(limits.drop_last(), q);
        if limit_of(limits, q) is Some {
            let m = choose|m: int|
                0 <= m < limits.len() - 1 && #[trigger] limits.drop_last()[m].0@ == q;
            assert(limits[m].0@ == q);
        }
    }
}

/// Every index a leaf lists points into the ledger.
proof fn lemma_exact_indices_bounds(txs: Seq<Transaction>, p: Seq<Seq<char>>)
    ensures
        forall|k: int|
            0 <= k < exact_indices(txs, p).len() ==> 0 <= #[trigger] exact_indices(txs, p)[k]
                < txs.len(),
    decreases txs.len(),
{
    if txs.len() > 0 {
        lemma_exact_indices_bounds(txs.drop_last(), p);
        assert forall|k: int| 0 <= k < exact_indices(txs, p).len() implies 0
            <= #[trigger] exact_indices(txs, p)[k] < txs.len() by {
            let pre = exact_indices(txs.drop_last(), p);
            if k < pre.len() {
                assert(exact_indices(txs, p)[k] == pre[k]);
            }
        }
    }
}

/// Stepping a sum from the first `k` transactions to the first `k + 1`.
pub proof fn lemma_sums_take_step(txs: Seq<Transaction>, p: Seq<Seq<char>>, k: int)
    requires
        0 <= k < txs.len(),
    ensures
        exact_sum(txs.take(k + 1), p) == exact_sum(txs.take(k), p) + if txs[k].tag@ == p {
            txs[k].amount@
        } else {
            0int
        },
        strict_sum(txs.take(k + 1), p) == strict_sum(txs.take(k), p) + if is_strict_prefix_of(
            p,
            txs[k].tag@,
        ) {
            txs[k].amount@
        } else {
            0int
        },
        subtree_sum(txs.take(k + 1), p) == subtree_sum(txs.take(k), p) + if is_prefix_of(
            p,
            txs[k].tag@,
        ) {
            txs[k].amount@
        } else {
            0int
        },
        exact_indices(txs.take(k + 1), p) == exact_indices(txs.take(k), p) + if txs[k].tag@
            == p {
            seq![k]
        } else {
            Seq::<int>::empty()
        },
        abs_amount_sum(txs.take(k + 1)) == abs_amount_sum(txs.take(k)) + if txs[k].amount@
            >= 0 {
            txs[k].amount@
        } else {
            -txs[k].amount@
        },
{
    assert(txs.take(k + 1).drop_last() =~= txs.take(k));
    assert(txs.take(k + 1).last() == txs[k]);
    assert(txs.take(k + 1).len() == k + 1);
}

/// Every partial, filtered sum is bounded by the sum of the magnitudes.
pub proof fn lemma_sum_bounds(txs: Seq<Transaction>, p: Seq<Seq<char>>)
    ensures
        abs_amount_sum(txs) >= 0,
        -abs_amount_sum(txs) <= exact_sum(txs, p) <= abs_amount_sum(txs),
        -abs_amount_sum(txs) <= strict_sum(txs, p) <= abs_amount_sum(txs),
        -abs_amount_sum(txs) <= subtree_sum(txs, p) <= abs_amount_sum(txs),
    decreases txs.len(),
{
    if txs.len() > 0 {
        lemma_sum_bounds(txs.drop_last(), p);
    }
}

/// The magnitude sum of a front part never exceeds the whole.
pub proof fn lemma_abs_sum_take_le(txs: Seq<Transaction>, k: int)
    requires
        0 <= k <= txs.len(),
    ensures
        abs_amount_sum(txs.take(k)) <= abs_amount_sum(txs),
    decreases txs.len(),
{
    if k == txs.len() {
        assert(txs.take(k) =~= txs);
    } else {
        assert(txs.take(k) =~= txs.drop_last().take(k));
        lemma_abs_sum_take_le(txs.drop_last(), k);
        lemma_sum_bounds(txs, Seq::<Seq<char>>::empty());
        lemma_sum_bounds(txs.drop_last(), Seq::<Seq<char>>::empty());
    }
}

/// Where no transaction matches, the sums are zero and the list empty.
pub proof fn lemma_sums_no_match(txs: Seq<Transaction>, p: Seq<Seq<char>>)
    ensures
        (forall|i: int| 0 <= i < txs.len() ==> #[trigger] txs[i].tag@ != p) ==> exact_sum(txs, p)
            == 0 && exact_indices(txs, p) == Seq::<int>::empty(),
        (forall|i: int|
            0 <= i < txs.len() ==> !is_strict_prefix_of(p, #[trigger] txs[i].tag@)) ==> strict_sum(
            txs,
            p,
        ) == 0,
        (forall|i: int| 0 <= i < txs.len() ==> !is_prefix_of(p, #[trigger] txs[i].tag@))
            ==> subtree_sum(txs, p) == 0,
    decreases txs.len(),
{
    if txs.len() > 0 {
        assert(txs.drop_last() =~= txs.take(txs.len() - 1));
        assert(forall|i: int|
            0 <= i < txs.len() - 1 ==> #[trigger] txs.drop_last()[i] == txs[i]);
        lemma_sums_no_match(txs.drop_last(), p);
        if (forall|i: int| 0 <= i < txs.len() ==> #[trigger] txs[i].tag@ != p) {
            assert(exact_indices(txs, p) =~= Seq::<int>::empty());
        }
    }
}

/// A subtree's sum splits into the exact matches and the strict extensions.
pub proof fn lemma_subtree_split(txs: Seq<Transaction>, p: Seq<Seq<char>>)
    ensures
        subtree_sum(txs, p) == exact_sum(txs, p) + strict_sum(txs, p),
    decreases txs.len(),
{
    if txs.len() > 0 {
        lemma_subtree_split(txs.drop_last(), p);
        let t = txs.last().tag@;
        if is_prefix_of(p, t) && p.len() == t.len() {
            assert(p =~= t);
        }
        if p == t {
            assert(is_prefix_of(p, t)) by {
                assert(t.take(p.len() as int) =~= t);
            }
        }
    }
}

/// A limit mapping's front part: the entry for `p` among the first `j + 1`
/// entries, stepped one entry at a time.
pub proof fn lemma_limit_of_take_step(limits: Seq<(Tag, Money)>, p: Seq<Seq<char>>, j: int)
    requires
        0 <= j < limits.len(),
    ensures
        limit_of(limits.take(j + 1), p) == if limits[j].0@ == p {
            Option::Some(limits[j].1@)
        } else {
            limit_of(limits.take(j), p)
        },
{
    assert(limits.take(j + 1).drop_last() =~= limits.take(j));
    assert(limits.take(j + 1).last() == limits[j]);
}

impl Category {
    /// A fresh aggregating node.
    pub fn new_non_leaf() -> (c: Category)
        ensures
            c@ == (CategoryV {
                is_leaf: false,
                limit: Option::None,
                spent: 0,
                transactions: Seq::<int>::empty(),
            }),
    {
        Category::NonLeaf { limit: None, spent: Money::from_cents(0) }
    }

    /// A fresh transaction-holding node.
    pub fn new_leaf() -> (c: Category)
        ensures
            c@ == (CategoryV {
                is_leaf: true,
                limit: Option::None,
                spent: 0,
                transactions: Seq::<int>::empty(),
            }),
    {
        let c = Category::Leaf { limit: None, spent: Money::from_cents(0), transactions: Vec::new() };
        proof {
            assert(c@.transactions =~= Seq::<int>::empty());
        }
        c
    }

    /// Whether the node holds direct transactions.
    pub fn is_leaf(&self) -> (r: bool)
        ensures
            r == self@.is_leaf,
    {
        match self {
            Category::Leaf { .. } => true,
            Category::NonLeaf { .. } => false,
        }
    }

    /// The monthly limit set on this node, if any.
    pub fn limit(&self) -> (r: Option<Money>)
        ensures
            match r {
                Some(m) => self@.limit == Option::Some(m@),
                None => self@.limit is None,
            },
    {
        match self {
            Category::Leaf { limit, .. } => *limit,
            Category::NonLeaf { limit, .. } => *limit,
        }
    }

    /// What was spent under this node.
    pub fn spent(&self) -> (r: Money)
        ensures
            r@ == self@.spent,
    {
        match self {
            Category::Leaf { spent, .. } => *spent,
            Category::NonLeaf { spent, .. } => *spent,
        }
    }

    /// Indices into the ledger of this node's direct transactions; empty for
    /// an aggregating node.
    pub fn transaction_indices(&self) -> (r: Vec<usize>)
        ensures
            r@.map_values(|u: usize| u as int) == self@.transactions,
    {
        let mut out: Vec<usize> = Vec::new();
        match self {
            Category::NonLeaf { .. } => {
                proof {
                    assert(out@.map_values(|u: usize| u as int) =~= self@.transactions);
                }
                out
            },
            Category::Leaf { transactions, .. } => {
                let mut i: usize = 0;
                while i < transactions.len()
                    invariant
                        i <= transactions.len(),
                        out@.len() == i,
                        forall|k: int| 0 <= k < i ==> out@[k] == transactions@[k],
                    decreases transactions.len() - i,
                {
                    out.push(transactions[i]);
                    i = i + 1;
                }
                proof {
                    assert(out@ =~= transactions@);
                    assert(out@.map_values(|u: usize| u as int) =~= self@.transactions);
                }
                out
            },
        }
    }

    /// `spent / limit` in whole minor units — the truncated ratio, not
    /// scaled by 100; `None` without a limit or on a zero limit.
    pub fn percent_for_month(&self) -> (r: Option<i64>)
        ensures
            r == spec_percent_for_month(self@),
    {
        match self.limit() {
            None => None,
            Some(l) => self.spent().checked_div(l),
        }
    }

    /// The prorated budget left at `today`; `None` without a limit or when
    /// the arithmetic degrades.
    pub fn left_to_date(&self, today: Date) -> (r: Option<Money>)
        requires
            1 <= today@.month <= 12,
        ensures
            match r {
                Some(m) => spec_left_to_date_of(self@, today@) == Option::Some(m@),
                None => spec_left_to_date_of(self@, today@) is None,
            },
    {
        match self.limit() {
            None => None,
            Some(l) => Money::left_to_date_in_month(today, l, self.spent()),
        }
    }
}

/// `spent / limit`, truncated, in the checked-division sense.
pub open spec fn spec_percent_for_month(c: CategoryV) -> Option<i64> {
    match c.limit {
        Option::None => Option::None,
        Option::Some(l) => spec_checked_div(c.spent, l),
    }
}

/// The node's prorated remaining budget at `today`.
pub open spec fn spec_left_to_date_of(c: CategoryV, today: crate::date::DateV) -> Option<int> {
    match c.limit {
        Option::None => Option::None,
        Option::Some(l) => spec_left_to_date(today, l, c.spent),
    }
}

/// Find `key` among sorted entries: its position when present, else the
/// position where it belongs, with everything before strictly smaller and
/// everything after strictly larger.
fn locate(entries: &Vec<(TagSlice, Category)>, key: &TagSlice) -> (r: (usize, bool))
    requires
        entries_sorted(entries@),
    ensures
        r.0 <= entries@.len(),
        r.1 ==> r.0 < entries@.len() && entries@[r.0 as int].0@ == key@,
        !r.1 ==> !has_path(entries@, key@) && (forall|k: int|
            0 <= k < r.0 ==> path_lt(#[trigger] entries@[k].0@, key@)) && (forall|k: int|
            r.0 <= k < entries@.len() ==> path_lt(key@, #[trigger] entries@[k].0@)),
{
    let mut i: usize = 0;
    while i < entries.len()
        invariant
            entries_sorted(entries@),
            i <= entries@.len(),
            forall|k: int| 0 <= k < i ==> path_lt(#[trigger] entries@[k].0@, key@),
        decreases entries@.len() - i,
    {
        match entries[i].0.cmp_to(key) {
            Cmp::Lt => {
                i = i + 1;
            },
            Cmp::Eq => {
                return (i, true);
            },
            Cmp::Gt => {
                proof {
                    assert forall|k: int| i <= k < entries@.len() implies path_lt(
                        key@,
                        #[trigger] entries@[k].0@,
                    ) by {
                        if k > i {
                            crate::order::lemma_path_lt_trans(
                                key@,
                                entries@[i as int].0@,
                                entries@[k].0@,
                            );
                        }
                    }
                    assert forall|n: int| 0 <= n < entries@.len() implies #[trigger] entries@[n].0@
                        != key@ by {
                        crate::order::lemma_path_lt_total(entries@[n].0@, key@);
                    }
                }
                return (i, false);
            },
        }
    }
    proof {
        assert forall|n: int| 0 <= n < entries@.len() implies #[trigger] entries@[n].0@
            != key@ by {
            crate::order::lemma_path_lt_total(entries@[n].0@, key@);
        }
    }
    (i, false)
}

/// Insert a fresh node at its position, leaving every other entry as it was.
fn insert_at(entries: &mut Vec<(TagSlice, Category)>, pos: usize, key: TagSlice, cat: Category)
    requires
        entries_sorted(old(entries)@),
        pos <= old(entries)@.len(),
        forall|k: int| 0 <= k < pos ==> path_lt(#[trigger] old(entries)@[k].0@, key@),
        forall|k: int|
            pos <= k < old(entries)@.len() ==> path_lt(key@, #[trigger] old(entries)@[k].0@),
    ensures
        final (entries)@ == old(entries)@.insert(pos as int, (key, cat)),
        entries_sorted(final (entries)@),
{
    let ghost s = entries@;
    let ghost kv = key@;
    entries.insert(pos, (key, cat));
    proof {
        let ns = entries@;
        assert(ns[pos as int].0@ == kv);
        assert forall|p: int, q: int| 0 <= p < q < ns.len() implies path_lt(
            #[trigger] ns[p].0@,
            #[trigger] ns[q].0@,
        ) by {
            if p == pos {
                assert(ns[q] == s[q - 1]);
            } else if q == pos {
                assert(ns[p] == s[p]);
            } else {
                let sp = if p < pos {
                    p
                } else {
                    p - 1
                };
                let sq = if q < pos {
                    q
                } else {
                    q - 1
                };
                assert(ns[p] == s[sp]);
                assert(ns[q] == s[sq]);
                assert(sp < sq);
            }
        }
    }
}

/// The category tree: nodes keyed by tag path, in strictly ascending path
/// order, so a parent always precedes its descendants.
pub struct TransactionTree {
    entries: Vec<(TagSlice, Category)>,
}

/// Keys ascend strictly.
pub open spec fn entries_sorted(es: Seq<(TagSlice, Category)>) -> bool {
    forall|i: int, j: int|
        0 <= i < j < es.len() ==> path_lt(#[trigger] es[i].0@, #[trigger] es[j].0@)
}

/// Some entry carries path `p`.
pub open spec fn has_path(es: Seq<(TagSlice, Category)>, p: Seq<Seq<char>>) -> bool {
    exists|n: int| 0 <= n < es.len() && #[trigger] es[n].0@ == p
}

impl TransactionTree {
    /// The entry sequence.
    pub closed spec fn entries_seq(self) -> Seq<(TagSlice, Category)> {
        self.entries@
    }

    /// Keys ascend strictly; parents precede descendants.
    pub open spec fn sorted(self) -> bool {
        entries_sorted(self.entries_seq())
    }

    /// The tree holds a node at `p`.
    pub open spec fn contains_path(self, p: Seq<Seq<char>>) -> bool {
        has_path(self.entries_seq(), p)
    }

    /// How many nodes the tree holds.
    pub fn len(&self) -> (n: usize)
        ensures
            n == self.entries_seq().len(),
    {
        self.entries.len()
    }

    /// The path of the `i`-th node in ascending order.
    pub fn path_at(&self, i: usize) -> (p: &TagSlice)
        requires
            i < self.entries_seq().len(),
        ensures
            p == &self.entries_seq()[i as int].0,
    {
        &self.entries[i].0
    }

    /// The `i`-th node in ascending path order.
    pub fn category_at(&self, i: usize) -> (c: &Category)
        requires
            i < self.entries_seq().len(),
        ensures
            c == &self.entries_seq()[i as int].1,
    {
        &self.entries[i].1
    }

    /// Build the category tree from the ledger and the limit mapping.
    ///
    /// A `Leaf` arises at every transaction's exact tag path, a `NonLeaf`
    /// at every strict ancestor of a transaction or limit path; each amount
    /// is accumulated at its own path and at every ancestor, and the limits
    /// are applied afterwards.  A path required to act in both roles is the
    /// structural conflict, reported as a `RoleConflict`; it arises exactly
    /// when one transaction's tag strictly extends another's, or a limit's
    /// path strictly extends a transaction's tag.
    pub fn from_transactions_and_limits(
        transactions: &Vec<Transaction>,
        limits: &Vec<(Tag, Money)>,
    ) -> (r: Result<TransactionTree, TreeError>)
        requires
            txs_sorted(transactions@),
            abs_amount_sum(transactions@) <= i64::MAX,
        ensures
            (r is Err) == has_conflict(transactions@, limits@),
            r matches Ok(tree) ==> {
                &&& tree.sorted()
                &&& forall|p: Seq<Seq<char>>| #[trigger]
                    tree.contains_path(p) == in_domain(p, transactions@, limits@)
                &&& forall|n: int|
                    0 <= n < tree.entries_seq().len() ==> node_ok(
                        (#[trigger] tree.entries_seq()[n]).0@,
                        tree.entries_seq()[n].1@,
                        transactions@,
                        limits@,
                    )
                &&& forall|n: int|
                    0 <= n < tree.entries_seq().len() && !(#[trigger] tree.entries_seq()[n]).1@
                        .is_leaf ==> tree.entries_seq()[n].1@.spent == subtree_sum(
                        transactions@,
                        tree.entries_seq()[n].0@,
                    )
                &&& forall|n: int, m: int|
                    0 <= n < tree.entries_seq().len() && 0 <= m
                        < tree.entries_seq()[n].1@.transactions.len()
                        ==> 0 <= #[trigger] tree.entries_seq()[n].1@.transactions[m]
                        < transactions@.len()
            },
    {
        let ghost txs = transactions@;
        let ghost lims = limits@;
        let mut tree: Vec<(TagSlice, Category)> = Vec::new();
        proof {
            assert(txs.take(0) =~= Seq::<Transaction>::empty());
        }
        let mut k: usize = 0;
        while k < transactions.len()
            invariant
                txs == transactions@,
                lims == limits@,
                txs_sorted(txs),
                abs_amount_sum(txs) <= i64::MAX,
                k <= txs.len(),
                entries_sorted(tree@),
                forall|n: int|
                    0 <= n < tree@.len() ==> phase1_node_ok(
                        (#[trigger] tree@[n]).0@,
                        tree@[n].1@,
                        txs.take(k as int),
                    ),
                forall|q: Seq<Seq<char>>| #[trigger]
                    has_path(tree@, q) == tx_prefix_domain(q, txs.take(k as int)),
                !txs_conflict(txs.take(k as int)),
            decreases txs.len() - k,
        {
            let ghost pre = txs.take(k as int);
            let ghost cur = txs.take(k as int + 1);
            let tx = &transactions[k];
            let key = tx.tag();
            let d = key.depth();
            let mut it = key.parents();
            let ghost p = key@;
            proof {
                assert(p == txs[k as int].tag@);
                lemma_sums_take_step(txs, p, k as int);
                lemma_sum_bounds(cur, p);
                lemma_sum_bounds(pre, p);
                lemma_abs_sum_take_le(txs, k as int + 1);
                crate::order::lemma_prefix_refl(p);
            }
            let ghost tree0 = tree@;
            let (pos, found) = locate(&tree, &key);
            if found {
                if !tree[pos].1.is_leaf() {
                    // the path already aggregates descendants: some earlier
                    // tag strictly extends it
                    proof {
                        assert(has_path(tree@, p));
                        let i = choose|i: int|
                            0 <= i < pre.len() && is_prefix_of(p, #[trigger] pre[i].tag@);
                        assert(pre[i] == txs[i]);
                        assert(!(exists|m: int|
                            0 <= m < pre.len() && #[trigger] pre[m].tag@ == p));
                        if p.len() == txs[i].tag@.len() {
                            assert(p =~= txs[i].tag@);
                        }
                        assert(is_strict_prefix_of(txs[k as int].tag@, txs[i].tag@));
                        assert(txs_conflict(txs));
                    }
                    return Err(TreeError::RoleConflict { path: key });
                }
                match &mut tree[pos].1 {
                    Category::Leaf { spent, transactions: idxs, .. } => {
                        proof {
                            assert(phase1_node_ok(tree0[pos as int].0@, tree0[pos as int].1@, pre));
                        }
                        spent.accumulate(tx.amount);
                        idxs.push(k);
                    },
                    Category::NonLeaf { .. } => {
                        proof {
                            assert(false);
                        }
                    },
                }
                proof {
                    let ns = tree@;
                    assert(ns[pos as int].0@ == p);
                    assert(ns[pos as int].1@.is_leaf);
                    assert(ns[pos as int].1@.transactions =~= exact_indices(cur, p));
                    assert(phase1_node_ok(p, ns[pos as int].1@, cur));
                    assert forall|n: int| 0 <= n < ns.len() implies (#[trigger] ns[n]).0@
                        == tree0[n].0@ by {}
                    assert forall|p2: int, q2: int| 0 <= p2 < q2 < ns.len() implies path_lt(
                        #[trigger] ns[p2].0@,
                        #[trigger] ns[q2].0@,
                    ) by {
                        assert(tree0[p2].0@ == ns[p2].0@ && tree0[q2].0@ == ns[q2].0@);
                    }
                    assert forall|q: Seq<Seq<char>>| #[trigger]
                        has_path(ns, q) == has_path(tree0, q) by {
                        if has_path(ns, q) {
                            let n = choose|n: int| 0 <= n < ns.len() && (#[trigger] ns[n]).0@ == q;
                            assert(tree0[n].0@ == q);
                        }
                        if has_path(tree0, q) {
                            let n = choose|n: int|
                                0 <= n < tree0.len() && (#[trigger] tree0[n]).0@ == q;
                            assert(ns[n].0@ == q);
                        }
                    }
                }
            } else {
                proof {
                    assert(!tx_prefix_domain(p, pre));
                    assert forall|i: int| 0 <= i < pre.len() implies #[trigger] pre[i].tag@
                        != p by {
                        if pre[i].tag@ == p {
                            crate::order::lemma_prefix_refl(p);
                        }
                    }
                    lemma_sums_no_match(pre, p);
                }
                let mut idxs: Vec<usize> = Vec::new();
                idxs.push(k);
                let cat = Category::Leaf { limit: None, spent: tx.amount, transactions: idxs };
                proof {
                    assert(cat@.transactions =~= seq![k as int]);
                    assert(exact_indices(cur, p) =~= seq![k as int]);
                    assert(phase1_node_ok(p, cat@, cur));
                }
                let ghost catv = cat@;
                insert_at(&mut tree, pos, key, cat);
                proof {
                    let ns = tree@;
                    assert forall|q: Seq<Seq<char>>| #[trigger]
                        has_path(ns, q) == (has_path(tree0, q) || q == p) by {
                        lemma_has_path_insert(tree0, pos as int, ns, q, p);
                    }
                    assert forall|n: int| 0 <= n < ns.len() && (#[trigger] ns[n]).0@ != p implies (
                    exists|m: int| 0 <= m < tree0.len() && tree0[m] == ns[n]) by {
                        if n < pos {
                            assert(tree0[n] == ns[n]);
                        } else {
                            assert(tree0[n - 1] == ns[n]);
                        }
                    }
                }
            }
            // walk the ancestors, accumulating into every one
            proof {
                let ns = tree@;
                assert(p.take(p.len() as int) =~= p);
                assert forall|q: Seq<Seq<char>>|
                    #[trigger] is_prefix_of(q, p) && q.len() >= d as int implies q == p by {
                    assert(q == p.take(q.len() as int));
                }
                assert(ns[pos as int].0@ == p);
                assert(phase1_node_ok(p, ns[pos as int].1@, cur));
                assert forall|n: int| 0 <= n < ns.len() && n != pos implies phase1_node_ok(
                    (#[trigger] ns[n]).0@,
                    ns[n].1@,
                    pre,
                ) && ns[n].0@ != p by {
                    if found {
                        assert(ns[n] == tree0[n]);
                    } else {
                        if n < pos {
                            assert(ns[n] == tree0[n]);
                        } else {
                            assert(ns[n] == tree0[n - 1]);
                        }
                    }
                    if n < pos {
                        assert(path_lt(ns[n].0@, ns[pos as int].0@));
                    } else {
                        assert(path_lt(ns[pos as int].0@, ns[n].0@));
                    }
                    crate::order::lemma_path_lt_total(ns[n].0@, p);
                }
                assert forall|q: Seq<Seq<char>>| #[trigger] has_path(ns, q) == (tx_prefix_domain(
                    q,
                    pre,
                ) || (is_prefix_of(q, p) && q.len() >= d as int)) by {
                    if found {
                        assert(has_path(ns, q) == has_path(tree0, q));
                        if is_prefix_of(q, p) && q.len() >= d as int {
                            assert(q == p);
                            assert(has_path(tree0, p));
                        }
                    } else {
                        assert(has_path(ns, q) == (has_path(tree0, q) || q == p));
                        if is_prefix_of(q, p) && q.len() >= d as int {
                            assert(q == p);
                        }
                        if q == p {
                            crate::order::lemma_prefix_refl(p);
                        }
                    }
                }
                assert forall|jj: int| 0 <= jj < k implies !is_strict_prefix_of(
                    txs[k as int].tag@,
                    (#[trigger] txs[jj]).tag@,
                ) by {
                    if is_strict_prefix_of(p, txs[jj].tag@) {
                        assert(pre[jj as int] == txs[jj]);
                        assert(is_prefix_of(p, pre[jj as int].tag@));
                        assert(tx_prefix_domain(p, pre));
                        assert(has_path(tree0, p));
                        assert(found);
                        let m = choose|m: int| 0 <= m < pre.len() && #[trigger] pre[m].tag@ == p;
                        assert(is_strict_prefix_of(pre[m].tag@, pre[jj as int].tag@));
                        assert(txs_conflict(pre));
                    }
                }
            }
            let mut dr = d;
            while dr > 0
                invariant
                    txs == transactions@,
                    txs_sorted(txs),
                    abs_amount_sum(txs) <= i64::MAX,
                    k < txs.len(),
                    p == txs[k as int].tag@,
                    *tx == txs[k as int],
                    d == p.len(),
                    dr <= d,
                    it@ == Some(p.take(dr as int)),
                    entries_sorted(tree@),
                    forall|n: int|
                        0 <= n < tree@.len() && (is_prefix_of((#[trigger] tree@[n]).0@, p)
                            && tree@[n].0@.len() >= dr) ==> phase1_node_ok(
                            tree@[n].0@,
                            tree@[n].1@,
                            txs.take(k as int + 1),
                        ),
                    forall|n: int|
                        0 <= n < tree@.len() && !(is_prefix_of((#[trigger] tree@[n]).0@, p)
                            && tree@[n].0@.len() >= dr) ==> phase1_node_ok(
                            tree@[n].0@,
                            tree@[n].1@,
                            txs.take(k as int),
                        ),
                    forall|q: Seq<Seq<char>>| #[trigger]
                        has_path(tree@, q) == (tx_prefix_domain(q, txs.take(k as int)) || (
                        is_prefix_of(q, p) && q.len() >= dr)),
                    !txs_conflict(txs.take(k as int)),
                    forall|jj: int|
                        0 <= jj < k ==> !is_strict_prefix_of(
                            txs[k as int].tag@,
                            (#[trigger] txs[jj]).tag@,
                        ),
                    forall|jj: int|
                        0 <= jj < k && is_strict_prefix_of((#[trigger] txs[jj]).tag@, p)
                            ==> txs[jj].tag@.len() < dr,
                decreases dr,
            {
                let ghost anc_path = p.take(dr - 1);
                proof {
                    assert(anc_path.len() == dr - 1);
                    assert(is_strict_prefix_of(anc_path, p)) by {
                        assert(anc_path == p.take(anc_path.len() as int));
                    }
                    lemma_sums_take_step(txs, anc_path, k as int);
                    lemma_sum_bounds(txs.take(k as int + 1), anc_path);
                    lemma_sum_bounds(txs.take(k as int), anc_path);
                    lemma_abs_sum_take_le(txs, k as int + 1);
                }
                let anc = it.next().unwrap();
                proof {
                    assert(p.take(dr as int).take(dr as int - 1) =~= p.take(dr as int - 1));
                    assert(anc@ == anc_path);
                }
                let ghost tree2 = tree@;
                let (apos, afound) = locate(&tree, &anc);
                if afound {
                    if tree[apos].1.is_leaf() {
                        // a leaf at a strict ancestor: some earlier entry's
                        // tag is exactly this path
                        proof {
                            assert(phase1_node_ok(
                                anc_path,
                                tree@[apos as int].1@,
                                txs.take(k as int),
                            ));
                            let i = choose|i: int|
                                0 <= i < txs.take(k as int).len() && #[trigger] txs.take(
                                    k as int,
                                )[i].tag@ == anc_path;
                            assert(txs.take(k as int)[i] == txs[i]);
                            assert(is_strict_prefix_of(txs[i].tag@, txs[k as int].tag@));
                            assert(txs_conflict(txs));
                        }
                        return Err(TreeError::RoleConflict { path: anc });
                    }
                    match &mut tree[apos].1 {
                        Category::NonLeaf { spent, .. } => {
                            proof {
                                assert(phase1_node_ok(
                                    anc_path,
                                    tree2[apos as int].1@,
                                    txs.take(k as int),
                                ));
                                assert(!tree2[apos as int].1@.is_leaf);
                                assert(spent@ == tree2[apos as int].1@.spent);
                                assert(spent@ == strict_sum(txs.take(k as int), anc_path));
                                assert(tx.amount@ == txs[k as int].amount@);
                                assert(strict_sum(txs.take(k as int + 1), anc_path) == spent@
                                    + tx.amount@);
                                assert(abs_amount_sum(txs.take(k as int + 1)) <= i64::MAX);
                            }
                            spent.accumulate(tx.amount);
                        },
                        Category::Leaf { .. } => {
                            proof {
                                assert(false);
                            }
                        },
                    }
                    proof {
                        let ns = tree@;
                        assert(ns[apos as int].0@ == anc_path);
                        assert(!(exists|i: int|
                            0 <= i < txs.take(k as int).len() && #[trigger] txs.take(
                                k as int,
                            )[i].tag@ == anc_path));
                        assert forall|i: int| 0 <= i < txs.take(k as int + 1).len()
                            implies #[trigger] txs.take(k as int + 1)[i].tag@ != anc_path by {
                            assert(txs.take(k as int + 1)[i] == txs[i]);
                            if i < k {
                                assert(txs.take(k as int)[i] == txs[i]);
                            } else {
                                assert(txs[i].tag@ == p);
                            }
                        }
                        assert(phase1_node_ok(anc_path, ns[apos as int].1@, txs.take(
                            k as int + 1,
                        )));
                        assert(forall|n: int|
                            0 <= n < ns.len() && n != apos ==> #[trigger] ns[n] == tree2[n]);
                        assert forall|p2: int, q2: int| 0 <= p2 < q2 < ns.len() implies path_lt(
                            #[trigger] ns[p2].0@,
                            #[trigger] ns[q2].0@,
                        ) by {
                            assert(tree2[p2].0@ == ns[p2].0@ && tree2[q2].0@ == ns[q2].0@);
                        }
                        assert forall|q: Seq<Seq<char>>| #[trigger]
                            has_path(ns, q) == has_path(tree2, q) by {
                            if has_path(ns, q) {
                                let n = choose|n: int|
                                    0 <= n < ns.len() && (#[trigger] ns[n]).0@ == q;
                                assert(tree2[n].0@ == q);
                            }
                            if has_path(tree2, q) {
                                let n = choose|n: int|
                                    0 <= n < tree2.len() && (#[trigger] tree2[n]).0@ == q;
                                assert(ns[n].0@ == q);
                            }
                        }
                    }
                } else {
                    proof {
                        assert(!tx_prefix_domain(anc_path, txs.take(k as int)));
                        assert forall|i: int| 0 <= i < txs.take(k as int).len() implies !(
                        is_strict_prefix_of(anc_path, #[trigger] txs.take(k as int)[i].tag@)
                            || txs.take(k as int)[i].tag@ == anc_path) by {
                            if txs.take(k as int)[i].tag@ == anc_path {
                                crate::order::lemma_prefix_refl(anc_path);
                            }
                        }
                        lemma_sums_no_match(txs.take(k as int), anc_path);
                    }
                    let cat = Category::NonLeaf { limit: None, spent: tx.amount };
                    proof {
                        assert forall|i: int| 0 <= i < txs.take(k as int + 1).len()
                            implies #[trigger] txs.take(k as int + 1)[i].tag@ != anc_path by {
                            assert(txs.take(k as int + 1)[i] == txs[i]);
                            if i < k {
                                assert(txs.take(k as int)[i] == txs[i]);
                            } else {
                                assert(txs[i].tag@ == p);
                            }
                        }
                        assert(phase1_node_ok(anc_path, cat@, txs.take(k as int + 1)));
                    }
                    insert_at(&mut tree, apos, anc, cat);
                    proof {
                        let ns = tree@;
                        assert forall|q: Seq<Seq<char>>| #[trigger]
                            has_path(ns, q) == (has_path(tree2, q) || q == anc_path) by {
                            lemma_has_path_insert(tree2, apos as int, ns, q, anc_path);
                        }
                        assert forall|n: int|
                            0 <= n < ns.len() && (#[trigger] ns[n]).0@ != anc_path implies (exists|
                            m: int,
                        | 0 <= m < tree2.len() && tree2[m] == ns[n]) by {
                            if n < apos {
                                assert(tree2[n] == ns[n]);
                            } else {
                                assert(tree2[n - 1] == ns[n]);
                            }
                        }
                    }
                }
                proof {
                    assert forall|q: Seq<Seq<char>>|
                        #[trigger] is_prefix_of(q, p) && q.len() == dr - 1 implies q
                        == anc_path by {
                        assert(q == p.take(q.len() as int));
                    }
                    let ns = tree@;
                    assert forall|n: int|
                        0 <= n < ns.len() && (#[trigger] ns[n]).0@ == anc_path implies n == apos
                        && phase1_node_ok(ns[n].0@, ns[n].1@, txs.take(k as int + 1)) by {
                        crate::order::lemma_path_lt_irrefl(anc_path);
                        if n < apos {
                            assert(path_lt(ns[n].0@, ns[apos as int].0@));
                        }
                        if n > apos {
                            assert(path_lt(ns[apos as int].0@, ns[n].0@));
                        }
                    }
                    assert forall|jj: int|
                        0 <= jj < k && is_strict_prefix_of((#[trigger] txs[jj]).tag@, p)
                        implies txs[jj].tag@.len() < dr - 1 by {
                        if txs[jj].tag@.len() == dr - 1 {
                            assert(txs[jj].tag@ == p.take(txs[jj].tag@.len() as int));
                            assert(txs.take(k as int)[jj] == txs[jj]);
                        }
                    }
                }
                dr = dr - 1;
            }
            // the whole ancestor chain of this tag is now up to date
            proof {
                let ns = tree@;
                assert forall|n: int| 0 <= n < ns.len() implies phase1_node_ok(
                    (#[trigger] ns[n]).0@,
                    ns[n].1@,
                    cur,
                ) by {
                    if !(is_prefix_of(ns[n].0@, p) && ns[n].0@.len() >= 0) {
                        lemma_phase1_node_unaffected(ns[n].0@, ns[n].1@, txs, k as int);
                    }
                }
                assert forall|q: Seq<Seq<char>>| #[trigger]
                    has_path(ns, q) == tx_prefix_domain(q, cur) by {
                    lemma_tx_domain_step(q, txs, k as int);
                }
                assert(!txs_conflict(cur)) by {
                    if txs_conflict(cur) {
                        let (i, j) = choose|i: int, j: int|
                            0 <= i < cur.len() && 0 <= j < cur.len() && is_strict_prefix_of(
                                #[trigger] cur[i].tag@,
                                #[trigger] cur[j].tag@,
                            );
                        assert(cur[i] == txs[i] && cur[j] == txs[j]);
                        if i < k && j < k {
                            assert(pre[i] == txs[i] && pre[j] == txs[j]);
                            assert(txs_conflict(pre));
                        } else if i == k {
                            assert(j < k);
                            assert(!is_strict_prefix_of(txs[k as int].tag@, txs[j].tag@));
                        } else {
                            assert(j == k && i < k);
                            assert(txs[i].tag@.len() < 0);
                        }
                    }
                }
            }
            k = k + 1;
        }
        // apply the limits
        proof {
            assert(txs.take(txs.len() as int) =~= txs);
            assert(lims.take(0) =~= Seq::<(Tag, Money)>::empty());
            assert forall|n: int| 0 <= n < tree@.len() implies node_ok(
                (#[trigger] tree@[n]).0@,
                tree@[n].1@,
                txs,
                lims.take(0),
            ) by {
                assert(phase1_node_ok(tree@[n].0@, tree@[n].1@, txs.take(txs.len() as int)));
            }
            assert forall|q: Seq<Seq<char>>| #[trigger]
                has_path(tree@, q) == in_domain(q, txs, lims.take(0)) by {
                assert(tx_prefix_domain(q, txs.take(txs.len() as int)) == tx_prefix_domain(
                    q,
                    txs,
                ));
            }
        }
        let mut j: usize = 0;
        while j < limits.len()
            invariant
                txs == transactions@,
                lims == limits@,
                j <= lims.len(),
                entries_sorted(tree@),
                forall|n: int|
                    0 <= n < tree@.len() ==> node_ok(
                        (#[trigger] tree@[n]).0@,
                        tree@[n].1@,
                        txs,
                        lims.take(j as int),
                    ),
                forall|q: Seq<Seq<char>>| #[trigger]
                    has_path(tree@, q) == in_domain(q, txs, lims.take(j as int)),
                !txs_conflict(txs),
                !limit_conflict(txs, lims.take(j as int)),
            decreases lims.len() - j,
        {
            let ghost prelim = lims.take(j as int);
            let ghost curlim = lims.take(j as int + 1);
            let lkey = limits[j].0.as_slice();
            let entry_amount = limits[j].1;
            let ld = lkey.depth();
            let mut lit = lkey.parents();
            let ghost lp = lkey@;
            proof {
                assert(lp == lims[j as int].0@);
                crate::order::lemma_prefix_refl(lp);
            }
            let ghost tree0 = tree@;
            let (pos, found) = locate(&tree, &lkey);
            if found {
                match &mut tree[pos].1 {
                    Category::Leaf { limit, .. } => {
                        *limit = Some(entry_amount);
                    },
                    Category::NonLeaf { limit, .. } => {
                        *limit = Some(entry_amount);
                    },
                }
                proof {
                    let ns = tree@;
                    assert(forall|n: int|
                        0 <= n < ns.len() && n != pos ==> #[trigger] ns[n] == tree0[n]);
                    assert forall|n: int| 0 <= n < ns.len() implies node_ok(
                        (#[trigger] ns[n]).0@,
                        ns[n].1@,
                        txs,
                        curlim,
                    ) by {
                        lemma_limit_of_take_step(lims, ns[n].0@, j as int);
                        if n != pos {
                            assert(ns[n] == tree0[n]);
                            assert(node_ok(ns[n].0@, ns[n].1@, txs, prelim));
                            if ns[n].0@ == lp {
                                assert(path_lt(ns[n].0@, ns[pos as int].0@) || path_lt(
                                    ns[pos as int].0@,
                                    ns[n].0@,
                                ));
                                crate::order::lemma_path_lt_total(ns[n].0@, ns[pos as int].0@);
                            }
                        } else {
                            assert(node_ok(tree0[n].0@, tree0[n].1@, txs, prelim));
                        }
                    }
                    assert forall|p2: int, q2: int| 0 <= p2 < q2 < ns.len() implies path_lt(
                        #[trigger] ns[p2].0@,
                        #[trigger] ns[q2].0@,
                    ) by {
                        assert(tree0[p2].0@ == ns[p2].0@ && tree0[q2].0@ == ns[q2].0@);
                    }
                    assert forall|q: Seq<Seq<char>>| #[trigger]
                        has_path(ns, q) == has_path(tree0, q) by {
                        if has_path(ns, q) {
                            let n = choose|n: int| 0 <= n < ns.len() && (#[trigger] ns[n]).0@ == q;
                            assert(tree0[n].0@ == q);
                        }
                        if has_path(tree0, q) {
                            let n = choose|n: int|
                                0 <= n < tree0.len() && (#[trigger] tree0[n]).0@ == q;
                            assert(ns[n].0@ == q);
                        }
                    }
                }
            } else {
                proof {
                    assert(!in_domain(lp, txs, prelim));
                    assert forall|i: int| 0 <= i < txs.len() implies !(is_strict_prefix_of(
                        lp,
                        #[trigger] txs[i].tag@,
                    ) || txs[i].tag@ == lp) by {
                        if txs[i].tag@ == lp {
                            crate::order::lemma_prefix_refl(lp);
                        }
                    }
                    lemma_sums_no_match(txs, lp);
                    lemma_limit_of_take_step(lims, lp, j as int);
                }
                let cat = Category::NonLeaf { limit: Some(entry_amount), spent: Money::from_cents(
                    0,
                ) };
                proof {
                    assert(node_ok(lp, cat@, txs, curlim));
                }
                insert_at(&mut tree, pos, lkey, cat);
                proof {
                    let ns = tree@;
                    assert forall|q: Seq<Seq<char>>| #[trigger]
                        has_path(ns, q) == (has_path(tree0, q) || q == lp) by {
                        lemma_has_path_insert(tree0, pos as int, ns, q, lp);
                    }
                    assert forall|n: int| 0 <= n < ns.len() implies node_ok(
                        (#[trigger] ns[n]).0@,
                        ns[n].1@,
                        txs,
                        curlim,
                    ) by {
                        lemma_limit_of_take_step(lims, ns[n].0@, j as int);
                        if ns[n].0@ != lp {
                            if n < pos {
                                assert(tree0[n] == ns[n]);
                            } else {
                                assert(tree0[n - 1] == ns[n]);
                            }
                            lemma_limit_of_some(prelim, ns[n].0@);
                        } else {
                            assert(path_lt(ns[n].0@, lp) || path_lt(lp, ns[n].0@) || n
                                == pos) by {
                                if n < pos {
                                    assert(tree0[n] == ns[n]);
                                } else if n > pos {
                                    assert(tree0[n - 1] == ns[n]);
                                }
                            }
                            crate::order::lemma_path_lt_irrefl(lp);
                            assert(n == pos);
                            assert(ns[n].1@ == cat@);
                        }
                    }
                }
            }
            // every strict ancestor of the limit's path must aggregate
            proof {
                let ns = tree@;
                assert(ns[pos as int].0@ == lp);
                assert forall|q: Seq<Seq<char>>| #[trigger] has_path(ns, q) == (in_domain(
                    q,
                    txs,
                    prelim,
                ) || q == lp || (is_strict_prefix_of(q, lp) && q.len() >= ld as int)) by {
                    if found {
                        assert(has_path(ns, q) == has_path(tree0, q));
                        if q == lp {
                            assert(has_path(tree0, lp));
                        }
                    } else {
                        assert(has_path(ns, q) == (has_path(tree0, q) || q == lp));
                    }
                }
            }
            let mut dr = ld;
            while dr > 0
                invariant
                    txs == transactions@,
                    lims == limits@,
                    j < lims.len(),
                    lp == lims[j as int].0@,
                    ld == lp.len(),
                    dr <= ld,
                    lit@ == Some(lp.take(dr as int)),
                    entries_sorted(tree@),
                    forall|n: int|
                        0 <= n < tree@.len() ==> node_ok(
                            (#[trigger] tree@[n]).0@,
                            tree@[n].1@,
                            txs,
                            lims.take(j as int + 1),
                        ),
                    forall|q: Seq<Seq<char>>| #[trigger]
                        has_path(tree@, q) == (in_domain(q, txs, lims.take(j as int)) || q == lp
                            || (is_strict_prefix_of(q, lp) && q.len() >= dr)),
                    !txs_conflict(txs),
                    !limit_conflict(txs, lims.take(j as int)),
                    forall|m: int|
                        0 <= m < txs.len() && is_strict_prefix_of((#[trigger] txs[m]).tag@, lp)
                            ==> txs[m].tag@.len() < dr,
                decreases dr,
            {
                let ghost anc_path = lp.take(dr - 1);
                proof {
                    assert(anc_path.len() == dr - 1);
                    assert(is_strict_prefix_of(anc_path, lp)) by {
                        assert(anc_path == lp.take(anc_path.len() as int));
                    }
                }
                let anc = lit.next().unwrap();
                proof {
                    assert(lp.take(dr as int).take(dr as int - 1) =~= lp.take(dr as int - 1));
                    assert(anc@ == anc_path);
                }
                let ghost tree2 = tree@;
                let (apos, afound) = locate(&tree, &anc);
                if afound {
                    if tree[apos].1.is_leaf() {
                        // a leaf at a strict ancestor of the limit's path
                        proof {
                            assert(node_ok(anc_path, tree@[apos as int].1@, txs, lims.take(
                                j as int + 1,
                            )));
                            let i = choose|i: int|
                                0 <= i < txs.len() && #[trigger] txs[i].tag@ == anc_path;
                            assert(is_strict_prefix_of(txs[i].tag@, lims[j as int].0@));
                            assert(limit_conflict(txs, lims));
                        }
                        return Err(TreeError::RoleConflict { path: anc });
                    }
                    proof {
                        assert(node_ok(anc_path, tree@[apos as int].1@, txs, lims.take(
                            j as int + 1,
                        )));
                        assert(!(exists|i: int|
                            0 <= i < txs.len() && #[trigger] txs[i].tag@ == anc_path));
                    }
                } else {
                    proof {
                        assert(!has_path(tree@, anc_path));
                        assert(!in_domain(anc_path, txs, lims.take(j as int)));
                        assert forall|i: int| 0 <= i < txs.len() implies !(is_strict_prefix_of(
                            anc_path,
                            #[trigger] txs[i].tag@,
                        ) || txs[i].tag@ == anc_path) by {
                            if txs[i].tag@ == anc_path {
                                crate::order::lemma_prefix_refl(anc_path);
                            }
                        }
                        lemma_sums_no_match(txs, anc_path);
                    }
                    let cat = Category::NonLeaf { limit: None, spent: Money::from_cents(0) };
                    proof {
                        assert(limit_of(lims.take(j as int + 1), anc_path) is None) by {
                            lemma_limit_of_some(lims.take(j as int + 1), anc_path);
                            if limit_of(lims.take(j as int + 1), anc_path) is Some {
                                let m = choose|m: int|
                                    0 <= m < lims.take(j as int + 1).len() && #[trigger] lims.take(
                                        j as int + 1,
                                    )[m].0@ == anc_path;
                                assert(lims.take(j as int + 1)[m] == lims[m]);
                                if m < j {
                                    assert(lims.take(j as int)[m] == lims[m]);
                                    crate::order::lemma_prefix_refl(anc_path);
                                    assert(in_domain(anc_path, txs, lims.take(j as int)));
                                }
                            }
                        }
                        assert(node_ok(anc_path, cat@, txs, lims.take(j as int + 1)));
                    }
                    insert_at(&mut tree, apos, anc, cat);
                    proof {
                        let ns = tree@;
                        assert forall|q: Seq<Seq<char>>| #[trigger]
                            has_path(ns, q) == (has_path(tree2, q) || q == anc_path) by {
                            lemma_has_path_insert(tree2, apos as int, ns, q, anc_path);
                        }
                        assert forall|n: int| 0 <= n < ns.len() implies node_ok(
                            (#[trigger] ns[n]).0@,
                            ns[n].1@,
                            txs,
                            lims.take(j as int + 1),
                        ) by {
                            if ns[n].0@ != anc_path {
                                if n < apos {
                                    assert(tree2[n] == ns[n]);
                                } else {
                                    assert(tree2[n - 1] == ns[n]);
                                }
                            } else {
                                crate::order::lemma_path_lt_irrefl(anc_path);
                                assert(n == apos) by {
                                    if n < apos {
                                        assert(tree2[n] == ns[n]);
                                    } else if n > apos {
                                        assert(tree2[n - 1] == ns[n]);
                                    }
                                }
                            }
                        }
                    }
                }
                proof {
                    assert forall|q: Seq<Seq<char>>|
                        #[trigger] is_prefix_of(q, lp) && q.len() == dr - 1 implies q
                        == anc_path by {
                        assert(q == lp.take(q.len() as int));
                    }
                    assert forall|m: int|
                        0 <= m < txs.len() && is_strict_prefix_of((#[trigger] txs[m]).tag@, lp)
                        implies txs[m].tag@.len() < dr - 1 by {
                        if txs[m].tag@.len() == dr - 1 {
                            assert(txs[m].tag@ == lp.take(txs[m].tag@.len() as int));
                        }
                    }
                }
                dr = dr - 1;
            }
            proof {
                assert forall|q: Seq<Seq<char>>| #[trigger]
                    has_path(tree@, q) == in_domain(q, txs, curlim) by {
                    if in_domain(q, txs, curlim) && !in_domain(q, txs, prelim) {
                        let m = choose|m: int|
                            0 <= m < curlim.len() && is_prefix_of(q, #[trigger] curlim[m].0@);
                        assert(curlim[m] == lims[m]);
                        if m < j {
                            assert(prelim[m] == lims[m]);
                        } else {
                            assert(is_prefix_of(q, lp));
                            if q.len() == lp.len() {
                                assert(q =~= lp);
                            }
                        }
                    }
                    if has_path(tree@, q) {
                        if q == lp || (is_strict_prefix_of(q, lp) && q.len() >= 0) {
                            assert(curlim[j as int] == lims[j as int]);
                            assert(is_prefix_of(q, curlim[j as int].0@));
                            assert(in_domain(q, txs, curlim));
                        } else {
                            if in_domain(q, txs, prelim) {
                                if tx_prefix_domain(q, txs) {
                                } else {
                                    let m = choose|m: int|
                                        0 <= m < prelim.len() && is_prefix_of(
                                            q,
                                            #[trigger] prelim[m].0@,
                                        );
                                    assert(prelim[m] == lims[m]);
                                    assert(curlim[m] == lims[m]);
                                    assert(in_domain(q, txs, curlim));
                                }
                            }
                        }
                    }
                }
                assert(!limit_conflict(txs, curlim)) by {
                    if limit_conflict(txs, curlim) {
                        let (i, m) = choose|i: int, m: int|
                            0 <= i < txs.len() && 0 <= m < curlim.len() && is_strict_prefix_of(
                                #[trigger] txs[i].tag@,
                                #[trigger] curlim[m].0@,
                            );
                        assert(curlim[m] == lims[m]);
                        if m < j {
                            assert(prelim[m] == lims[m]);
                            assert(limit_conflict(txs, prelim));
                        } else {
                            assert(txs[i].tag@.len() < 0);
                        }
                    }
                }
            }
            j = j + 1;
        }
        proof {
            assert(lims.take(lims.len() as int) =~= lims);
        }
        let result = TransactionTree { entries: tree };
        proof {
            assert forall|n: int, m: int|
                0 <= n < result.entries_seq().len() && 0 <= m
                    < result.entries_seq()[n].1@.transactions.len() implies 0 <= #[trigger] result
                .entries_seq()[n].1@.transactions[m] < txs.len() by {
                let c = result.entries_seq()[n].1@;
                let q = result.entries_seq()[n].0@;
                assert(node_ok(q, c, txs, lims));
                if c.is_leaf {
                    lemma_exact_indices_bounds(txs, q);
                }
            }
            assert forall|n: int|
                0 <= n < result.entries_seq().len() && !(#[trigger] result.entries_seq()[n]).1@
                    .is_leaf implies result.entries_seq()[n].1@.spent == subtree_sum(
                txs,
                result.entries_seq()[n].0@,
            ) by {
                let q = result.entries_seq()[n].0@;
                assert(node_ok(q, result.entries_seq()[n].1@, txs, lims));
                assert forall|i: int| 0 <= i < txs.len() implies #[trigger] txs[i].tag@ != q by {}
                lemma_sums_no_match(txs, q);
                lemma_subtree_split(txs, q);
            }
        }
        Ok(result)
    }
}

/// The bullet line's text for one ledger entry: comment, amount, date.
pub open spec fn transaction_display(t: Transaction) -> Seq<char> {
    t.comment@ + " ("@ + crate::money::money_display(t.amount@) + " on "@
        + crate::date::date_display(t.date@) + ")"@
}

/// The statistics appended to a node's line when it has a limit and both
/// figures come out: the prorated remainder and the truncated spent/limit
/// ratio.  When either degrades, nothing is appended.
pub open spec fn stats_suffix(c: CategoryV, today: crate::date::DateV) -> Seq<char> {
    match (spec_left_to_date_of(c, today), spec_percent_for_month(c), c.limit) {
        (Option::Some(left), Option::Some(percent), Option::Some(limit)) => ": "@
            + crate::money::money_display(left) + " left to date, "@ + crate::text::dec_str_i64(
            percent as int,
        ) + "% of "@ + crate::money::money_display(limit) + " used for the month"@,
        _ => Seq::<char>::empty(),
    }
}

/// At most the first three of a leaf's transactions are shown.
pub open spec fn shown_indices(l: Seq<int>) -> Seq<int> {
    if l.len() <= 3 {
        l
    } else {
        l.take(3)
    }
}

/// The bullet sub-lines for the shown transactions of a leaf.
pub open spec fn bullets(idxs: Seq<int>, txs: Seq<Transaction>, indent: int) -> Seq<char>
    decreases idxs.len(),
{
    if idxs.len() == 0 {
        Seq::<char>::empty()
    } else {
        crate::text::spaces(indent + 2) + "\u{2022} "@ + transaction_display(txs[idxs[0]])
            + "\n"@ + bullets(idxs.skip(1), txs, indent)
    }
}

/// One node's text: an indented label, the statistics when available, and a
/// leaf's first transactions as bullet sub-lines.
pub open spec fn node_text(
    p: Seq<Seq<char>>,
    c: CategoryV,
    txs: Seq<Transaction>,
    today: crate::date::DateV,
) -> Seq<char> {
    crate::text::spaces(2 * p.len() as int) + crate::tag::tag_label(p) + stats_suffix(c, today) + "\n"@
        + if c.is_leaf {
        bullets(shown_indices(c.transactions), txs, 2 * p.len() as int)
    } else {
        Seq::<char>::empty()
    }
}

/// The whole report: one node after another in ascending path order.
pub open spec fn render_text(
    es: Seq<(TagSlice, Category)>,
    txs: Seq<Transaction>,
    today: crate::date::DateV,
) -> Seq<char>
    decreases es.len(),
{
    if es.len() == 0 {
        Seq::<char>::empty()
    } else {
        render_text(es.drop_last(), txs, today) + node_text(
            es.last().0@,
            es.last().1@,
            txs,
            today,
        )
    }
}

/// Bullet text splits around any seam in the index list.
proof fn lemma_bullets_concat(a: Seq<int>, b: Seq<int>, txs: Seq<Transaction>, indent: int)
    ensures
        bullets(a + b, txs, indent) == bullets(a, txs, indent) + bullets(b, txs, indent),
    decreases a.len(),
{
    if a.len() == 0 {
        assert(a + b =~= b);
        assert(bullets(a, txs, indent) + bullets(b, txs, indent) =~= bullets(b, txs, indent));
    } else {
        assert((a + b)[0] == a[0]);
        assert((a + b).skip(1) =~= a.skip(1) + b);
        lemma_bullets_concat(a.skip(1), b, txs, indent);
        assert(bullets(a + b, txs, indent) =~= bullets(a, txs, indent) + bullets(
            b,
            txs,
            indent,
        ));
    }
}

/// One bullet sub-line.
fn push_bullet(out: &mut String, t: &Transaction, indent: usize)
    requires
        1 <= t.date@.month <= 12,
        t.date.valid(),
        indent + 2 <= usize::MAX,
    ensures
        final (out)@ == old(out)@ + crate::text::spaces(indent + 2) + "\u{2022} "@
            + transaction_display(*t) + "\n"@,
{
    crate::text::push_spaces(out, indent + 2);
    out.append("\u{2022} ");
    out.append(t.comment.as_str());
    out.append(" (");
    let m = t.amount.to_display_string();
    out.append(m.as_str());
    out.append(" on ");
    let d = t.date.to_display_string();
    out.append(d.as_str());
    out.append(")");
    out.append("\n");
    proof {
        assert(final (out)@ =~= old(out)@ + crate::text::spaces(indent + 2) + "\u{2022} "@
            + transaction_display(*t) + "\n"@);
    }
}

impl TransactionTree {
    /// The tree's leaf indices all point into the given ledger, whose dates
    /// are well-formed, and no indent overflows the machine.
    pub open spec fn renderable_for(self, txs: Seq<Transaction>) -> bool {
        &&& forall|n: int, m: int|
            0 <= n < self.entries_seq().len() && 0 <= m
                < self.entries_seq()[n].1@.transactions.len() ==> 0 <= #[trigger] self.entries_seq(
            )[n].1@.transactions[m] < txs.len()
        &&& forall|i: int| 0 <= i < txs.len() ==> (#[trigger] txs[i]).date.valid()
        &&& forall|n: int|
            0 <= n < self.entries_seq().len() ==> 2 * (#[trigger] self.entries_seq()[n]).0@.len()
                + 2 <= usize::MAX
    }

    /// Render the report: one line per node in ascending path order, with
    /// the prorated statistics where a limit allows them, and a leaf's first
    /// three transactions as bullet sub-lines.
    pub fn render(&self, transactions: &Vec<Transaction>, today: Date) -> (s: String)
        requires
            self.renderable_for(transactions@),
            1 <= today@.month <= 12,
        ensures
            s@ == render_text(self.entries_seq(), transactions@, today@),
    {
        let mut out = String::new();
        let ghost es = self.entries_seq();
        proof {
            assert(out@ =~= render_text(es.take(0), transactions@, today@));
        }
        let mut n: usize = 0;
        while n < self.entries.len()
            invariant
                es == self.entries_seq(),
                self.renderable_for(transactions@),
                1 <= today@.month <= 12,
                n <= es.len(),
                out@ == render_text(es.take(n as int), transactions@, today@),
            decreases es.len() - n,
        {
            push_node(&mut out, &self.entries[n].0, &self.entries[n].1, transactions, today);
            proof {
                assert(es.take(n as int + 1).drop_last() =~= es.take(n as int));
                assert(es.take(n as int + 1).last() == es[n as int]);
            }
            n = n + 1;
        }
        proof {
            assert(es.take(es.len() as int) =~= es);
        }
        out
    }
}

/// Append the statistics of a node whose limit allows both figures.
#[verifier::spinoff_prover]
fn push_stats(out: &mut String, cat: &Category, today: Date)
    requires
        1 <= today@.month <= 12,
    ensures
        final (out)@ == old(out)@ + stats_suffix(cat@, today@),
{
    let left_to_date = cat.left_to_date(today);
    let percent_for_month = cat.percent_for_month();
    let limit = cat.limit();
    match (left_to_date, percent_for_month, limit) {
        (Some(left), Some(percent), Some(limit_val)) => {
            out.append(": ");
            let lm = left.to_display_string();
            out.append(lm.as_str());
            out.append(" left to date, ");
            crate::text::push_i64_dec(out, percent);
            out.append("% of ");
            let lv = limit_val.to_display_string();
            out.append(lv.as_str());
            out.append(" used for the month");
            proof {
                assert(out@ =~= old(out)@ + stats_suffix(cat@, today@));
            }
        },
        _ => {
            proof {
                assert(out@ =~= old(out)@ + stats_suffix(cat@, today@));
            }
        },
    }
}

/// Append one node's text: the indented label, the statistics where a limit
/// allows them, and a leaf's first three transactions as bullet sub-lines.
#[verifier::rlimit(60)]
#[verifier::spinoff_prover]
fn push_node(
    out: &mut String,
    path: &TagSlice,
    cat: &Category,
    transactions: &Vec<Transaction>,
    today: Date,
)
    requires
        1 <= today@.month <= 12,
        forall|m: int|
            0 <= m < cat@.transactions.len() ==> 0 <= #[trigger] cat@.transactions[m]
                < transactions@.len(),
        forall|i: int| 0 <= i < transactions@.len() ==> (#[trigger] transactions@[i]).date.valid(),
        2 * path@.len() + 2 <= usize::MAX,
    ensures
        final (out)@ == old(out)@ + node_text(path@, cat@, transactions@, today@),
{
    let ghost before = old(out)@;
    let depth = path.depth();
    let indent = 2 * depth;
    crate::text::push_spaces(out, indent);
    let label = path.to_display_string();
    out.append(label.as_str());
    push_stats(out, cat, today);
    out.append("\n");
    if cat.is_leaf() {
        let idxs = cat.transaction_indices();
        let shown = if idxs.len() > 3 {
            3
        } else {
            idxs.len()
        };
        let ghost sl = shown_indices(cat@.transactions);
        proof {
            if cat@.transactions.len() > 3 {
                assert(sl =~= cat@.transactions.take(3));
            }
            assert(sl.len() == shown);
            assert(bullets(sl.skip(0), transactions@, indent as int) == bullets(
                sl,
                transactions@,
                indent as int,
            )) by {
                assert(sl.skip(0) =~= sl);
            }
        }
        let ghost bullet_base = out@;
        proof {
            assert(sl.take(0) =~= Seq::<int>::empty());
            assert(out@ =~= bullet_base + bullets(sl.take(0), transactions@, indent as int));
        }
        let mut m: usize = 0;
        while m < shown
            invariant
                m <= shown,
                sl == shown_indices(cat@.transactions),
                sl.len() == shown,
                shown <= idxs@.len(),
                forall|b: int| 0 <= b < sl.len() ==> sl[b] == #[trigger] idxs@[b] as int,
                forall|b: int| 0 <= b < sl.len() ==> 0 <= #[trigger] sl[b]
                    < transactions@.len(),
                forall|i: int|
                    0 <= i < transactions@.len() ==> (#[trigger] transactions@[i]).date.valid(),
                indent + 2 <= usize::MAX,
                out@ == bullet_base + bullets(sl.take(m as int), transactions@, indent as int),
            decreases shown - m,
        {
            let t = &transactions[idxs[m]];
            push_bullet(out, t, indent);
            proof {
                assert(sl.take(m as int + 1) =~= sl.take(m as int) + seq![sl[m as int]]);
                lemma_bullets_concat(
                    sl.take(m as int),
                    seq![sl[m as int]],
                    transactions@,
                    indent as int,
                );
                assert(seq![sl[m as int]].skip(1) =~= Seq::<int>::empty());
                assert(seq![sl[m as int]][0] == sl[m as int]);
                assert(bullets(Seq::<int>::empty(), transactions@, indent as int)
                    == Seq::<char>::empty());
                assert(bullets(seq![sl[m as int]], transactions@, indent as int)
                    =~= crate::text::spaces(indent + 2) + "\u{2022} "@
                    + transaction_display(transactions@[sl[m as int]]) + "\n"@);
                assert(out@ =~= bullet_base + bullets(
                    sl.take(m as int + 1),
                    transactions@,
                    indent as int,
                ));
            }
            m = m + 1;
        }
        proof {
            assert(sl.take(sl.len() as int) =~= sl);
            assert(out@ =~= before + node_text(path@, cat@, transactions@, today@));
        }
    } else {
        proof {
            assert(out@ =~= before + node_text(path@, cat@, transactions@, today@));
        }
    }
}

/// Inserting an entry adds exactly its path to the tree's key set.
proof fn lemma_has_path_insert(
    s: Seq<(TagSlice, Category)>,
    pos: int,
    ns: Seq<(TagSlice, Category)>,
    q: Seq<Seq<char>>,
    added: Seq<Seq<char>>,
)
    requires
        0 <= pos <= s.len(),
        ns.len() == s.len() + 1,
        ns[pos].0@ == added,
        forall|n: int| 0 <= n < pos ==> ns[n] == s[n],
        forall|n: int| pos < n < ns.len() ==> ns[n] == s[n - 1],
    ensures
        has_path(ns, q) == (has_path(s, q) || q == added),
{
    if has_path(ns, q) {
        let n = choose|n: int| 0 <= n < ns.len() && (#[trigger] ns[n]).0@ == q;
        if n < pos {
            assert(s[n].0@ == q);
        } else if n > pos {
            assert(s[n - 1].0@ == q);
        }
    }
    if has_path(s, q) {
        let n = choose|n: int| 0 <= n < s.len() && (#[trigger] s[n]).0@ == q;
        if n < pos {
            assert(ns[n].0@ == q);
        } else {
            assert(ns[n + 1].0@ == q);
        }
    }
    if q == added {
        assert(ns[pos].0@ == q);
    }
}

} // verus!
