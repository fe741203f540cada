//! Ledger entries and the ordered ledger that holds them.
use crate::date::{Date, DateV};
use crate::money::Money;
use crate::order::{path_lt, str_lt, Cmp};
use crate::tag::{Tag, TagSlice};
use vstd::prelude::*;

verus! {

/// One ledger entry: a dated, tagged amount with a free-text comment.
#[derive(Debug, PartialEq, Eq, PartialOrd, Ord)]
pub struct Transaction {
    pub date: Date,
    pub amount: Money,
    pub tag: Tag,
    pub comment: String,
}

/// Order of dates: by year, then month, then day.
pub open spec fn date_lt(a: DateV, b: DateV) -> bool {
    a.year < b.year || (a.year == b.year && (a.month < b.month || (a.month == b.month && a.day
        < b.day)))
}

/// Two entries carry the same date, amount, tag and comment.
pub open spec fn tx_eq_key(a: Transaction, b: Transaction) -> bool {
    a.date@ == b.date@ && a.amount@ == b.amount@ && a.tag@ == b.tag@ && a.comment@ == b.comment@
}

/// The canonical ledger order: by date, then amount, then tag, then comment.
pub open spec fn tx_lt(a: Transaction, b: Transaction) -> bool {
    date_lt(a.date@, b.date@) || (a.date@ == b.date@ && (a.amount@ < b.amount@ || (a.amount@
        == b.amount@ && (path_lt(a.tag@, b.tag@) || (a.tag@ == b.tag@ && str_lt(
        a.comment@,
        b.comment@,
    ))))))
}

pub open spec fn tx_le(a: Transaction, b: Transaction) -> bool {
    tx_lt(a, b) || tx_eq_key(a, b)
}

/// The ledger invariant: entries ascend in the canonical order.
pub open spec fn txs_sorted(s: Seq<Transaction>) -> bool {
    forall|i: int, j: int| 0 <= i < j < s.len() ==> tx_le(#[trigger] s[i], #[trigger] s[j])
}

pub proof fn lemma_tx_trichotomy(a: Transaction, b: Transaction)
    ensures
        tx_lt(a, b) || tx_lt(b, a) || tx_eq_key(a, b),
        !(tx_lt(a, b) && tx_lt(b, a)),
        tx_lt(a, b) ==> !tx_eq_key(a, b),
{
    crate::order::lemma_path_lt_total(a.tag@, b.tag@);
    crate::order::lemma_str_lt_total(a.comment@, b.comment@);
}

pub proof fn lemma_tx_lt_le_trans(a: Transaction, b: Transaction, c: Transaction)
    ensures
        tx_lt(a, b) && tx_le(b, c) ==> tx_lt(a, c),
        tx_le(a, b) && tx_lt(b, c) ==> tx_lt(a, c),
        tx_le(a, b) && tx_le(b, c) ==> tx_le(a, c),
{
    if path_lt(a.tag@, b.tag@) && path_lt(b.tag@, c.tag@) {
        crate::order::lemma_path_lt_trans(a.tag@, b.tag@, c.tag@);
    }
    if path_lt(c.tag@, b.tag@) && path_lt(b.tag@, a.tag@) {
        crate::order::lemma_path_lt_trans(c.tag@, b.tag@, a.tag@);
    }
    if str_lt(a.comment@, b.comment@) && str_lt(b.comment@, c.comment@) {
        crate::order::lemma_str_lt_trans(a.comment@, b.comment@, c.comment@);
    }
    if str_lt(c.comment@, b.comment@) && str_lt(b.comment@, a.comment@) {
        crate::order::lemma_str_lt_trans(c.comment@, b.comment@, a.comment@);
    }
    crate::order::lemma_path_lt_total(a.tag@, b.tag@);
    crate::order::lemma_path_lt_total(b.tag@, c.tag@);
    crate::order::lemma_path_lt_total(a.tag@, c.tag@);
    crate::order::lemma_str_lt_total(a.comment@, b.comment@);
    crate::order::lemma_str_lt_total(b.comment@, c.comment@);
    crate::order::lemma_str_lt_total(a.comment@, c.comment@);
}

/// Where `add` puts a new entry: after every entry it does not sort strictly
/// before, as a stable sort of a ledger with the entry appended would.
pub open spec fn insert_pos(s: Seq<Transaction>, t: Transaction) -> int
    decreases s.len(),
{
    if s.len() == 0 {
        0
    } else if tx_lt(t, s[0]) {
        0
    } else {
        1 + insert_pos(s.skip(1), t)
    }
}

pub proof fn lemma_insert_pos_is(s: Seq<Transaction>, t: Transaction, i: int)
    requires
        0 <= i <= s.len(),
        forall|k: int| 0 <= k < i ==> !tx_lt(t, #[trigger] s[k]),
        i < s.len() ==> tx_lt(t, s[i]),
    ensures
        insert_pos(s, t) == i,
    decreases i,
{
    if s.len() == 0 {
    } else if i == 0 {
    } else {
        assert(!tx_lt(t, s[0]));
        assert forall|k: int| 0 <= k < i - 1 implies !tx_lt(t, #[trigger] s.skip(1)[k]) by {
            assert(s.skip(1)[k] == s[k + 1]);
        }
        if i < s.len() {
            assert(s.skip(1)[i - 1] == s[i]);
        }
        lemma_insert_pos_is(s.skip(1), t, i - 1);
    }
}

impl Transaction {
    /// The full-depth view of this entry's tag.
    pub fn tag(&self) -> (r: TagSlice)
        ensures
            r@ == self.tag@,
    {
        self.tag.as_slice()
    }
}

/// Three-way comparison of dates.
fn cmp_date(a: &Date, b: &Date) -> (c: Cmp)
    ensures
        (c == Cmp::Lt) == date_lt(a@, b@),
        (c == Cmp::Gt) == date_lt(b@, a@),
        (c == Cmp::Eq) == (a@ == b@),
{
    let (ya, yb) = (a.year(), b.year());
    if ya < yb {
        return Cmp::Lt;
    }
    if ya > yb {
        return Cmp::Gt;
    }
    let (ma, mb) = (a.month(), b.month());
    if ma < mb {
        return Cmp::Lt;
    }
    if ma > mb {
        return Cmp::Gt;
    }
    let (da, db) = (a.day(), b.day());
    if da < db {
        return Cmp::Lt;
    }
    if da > db {
        return Cmp::Gt;
    }
    Cmp::Eq
}

/// Three-way comparison of ledger entries in the canonical order.
pub fn cmp_tx(a: &Transaction, b: &Transaction) -> (c: Cmp)
    ensures
        (c == Cmp::Lt) == tx_lt(*a, *b),
        (c == Cmp::Gt) == tx_lt(*b, *a),
        (c == Cmp::Eq) == tx_eq_key(*a, *b),
{
    match cmp_date(&a.date, &b.date) {
        Cmp::Lt => Cmp::Lt,
        Cmp::Gt => Cmp::Gt,
        Cmp::Eq => {
            let ca = a.amount.cents();
            let cb = b.amount.cents();
            if ca < cb {
                Cmp::Lt
            } else if ca > cb {
                Cmp::Gt
            } else {
                match a.tag.cmp_to(&b.tag) {
                    Cmp::Lt => Cmp::Lt,
                    Cmp::Gt => Cmp::Gt,
                    Cmp::Eq => crate::order::cmp_str(a.comment.as_str(), b.comment.as_str()),
                }
            }
        },
    }
}

/// The mathematical value of an optional date.
pub open spec fn opt_date_view(d: Option<Date>) -> Option<DateV> {
    match d {
        Option::Some(x) => Option::Some(x@),
        Option::None => Option::None,
    }
}

/// The mathematical value of an optional comment.
pub open spec fn opt_comment_view(c: Option<String>) -> Option<Seq<char>> {
    match c {
        Option::Some(x) => Option::Some(x@),
        Option::None => Option::None,
    }
}

/// The entries `remove_matching` deletes: same tag and amount, and the same
/// date or comment wherever one was given to narrow the match.
pub open spec fn removed_by(
    t: Transaction,
    tag: Seq<Seq<char>>,
    amount: int,
    date: Option<DateV>,
    comment: Option<Seq<char>>,
) -> bool {
    &&& t.tag@ == tag
    &&& t.amount@ == amount
    &&& match date {
        Option::Some(d) => t.date@ == d,
        Option::None => true,
    }
    &&& match comment {
        Option::Some(c) => t.comment@ == c,
        Option::None => true,
    }
}

/// What a ledger keeps once the matching entries are removed.
pub open spec fn kept_txs(
    s: Seq<Transaction>,
    tag: Seq<Seq<char>>,
    amount: int,
    date: Option<DateV>,
    comment: Option<Seq<char>>,
) -> Seq<Transaction>
    decreases s.len(),
{
    if s.len() == 0 {
        Seq::<Transaction>::empty()
    } else {
        kept_txs(s.drop_last(), tag, amount, date, comment) + if removed_by(
            s.last(),
            tag,
            amount,
            date,
            comment,
        ) {
            Seq::<Transaction>::empty()
        } else {
            seq![s.last()]
        }
    }
}

/// Removing entries keeps the ledger sorted and invents nothing.
pub proof fn lemma_kept_sorted(
    s: Seq<Transaction>,
    tag: Seq<Seq<char>>,
    amount: int,
    date: Option<DateV>,
    comment: Option<Seq<char>>,
)
    requires
        txs_sorted(s),
    ensures
        txs_sorted(kept_txs(s, tag, amount, date, comment)),
        forall|x: Transaction|
            kept_txs(s, tag, amount, date, comment).contains(x) ==> s.contains(x),
        kept_txs(s, tag, amount, date, comment).len() <= s.len(),
    decreases s.len(),
{
    if s.len() > 0 {
        let dl = s.drop_last();
        assert(forall|i: int| 0 <= i < dl.len() ==> #[trigger] dl[i] == s[i]);
        assert(txs_sorted(dl));
        lemma_kept_sorted(dl, tag, amount, date, comment);
        let kd = kept_txs(dl, tag, amount, date, comment);
        let kp = kept_txs(s, tag, amount, date, comment);
        assert forall|x: Transaction| kp.contains(x) implies s.contains(x) by {
            let i = choose|i: int| 0 <= i < kp.len() && kp[i] == x;
            if i < kd.len() {
                assert(kp[i] == kd[i]);
                assert(kd.contains(x));
                assert(kd[i] == x);
                assert(dl.contains(x));
                let j = choose|j: int| 0 <= j < dl.len() && dl[j] == x;
                assert(s[j] == x);
                assert(s.contains(x));
            } else {
                assert(kp[i] == s.last());
                assert(s[s.len() - 1] == x);
                assert(s.contains(x));
            }
        }
        if !removed_by(s.last(), tag, amount, date, comment) {
            assert forall|p: int, q: int| 0 <= p < q < kp.len() implies tx_le(
                #[trigger] kp[p],
                #[trigger] kp[q],
            ) by {
                if q == kp.len() - 1 {
                    assert(kp[q] == s.last());
                    assert(kp[p] == kd[p]);
                    assert(kd.contains(kp[p]));
                    assert(dl.contains(kp[p]));
                    let j = choose|j: int| 0 <= j < dl.len() && dl[j] == kp[p];
                    assert(s[j] == kp[p]);
                    assert(tx_le(s[j], s[s.len() - 1]));
                } else {
                    assert(kp[p] == kd[p] && kp[q] == kd[q]);
                }
            }
        } else {
            assert(kp =~= kd);
        }
    }
}

/// First position whose entry sorts strictly after `t`.
fn find_insert_pos(v: &Vec<Transaction>, t: &Transaction) -> (i: usize)
    ensures
        i <= v.len(),
        forall|k: int| 0 <= k < i ==> !tx_lt(*t, #[trigger] v@[k]),
        i < v.len() ==> tx_lt(*t, v@[i as int]),
{
    let mut i: usize = 0;
    while i < v.len()
        invariant
            i <= v.len(),
            forall|k: int| 0 <= k < i ==> !tx_lt(*t, #[trigger] v@[k]),
        decreases v.len() - i,
    {
        match cmp_tx(t, &v[i]) {
            Cmp::Lt => {
                return i;
            },
            _ => {
                proof {
                    lemma_tx_trichotomy(*t, v@[i as int]);
                }
                i = i + 1;
            },
        }
    }
    i
}

/// The ledger: every entry it holds, kept in the canonical order.
#[derive(Debug)]
pub struct Transactions {
    pub transactions: Vec<Transaction>,
}

impl Transactions {
    /// The ledger invariant.
    pub open spec fn wf(self) -> bool {
        txs_sorted(self.transactions@)
    }

    /// A ledger with no entries.
    pub fn empty() -> (r: Transactions)
        ensures
            r.transactions@.len() == 0,
            r.wf(),
    {
        Transactions { transactions: Vec::new() }
    }

    /// Delete every entry with this tag and amount, narrowed further by a
    /// date or comment where one is given; yields how many were removed.
    pub fn remove_matching(
        &mut self,
        tag: &Tag,
        amount: Money,
        date: Option<Date>,
        comment: &Option<String>,
    ) -> (removed: usize)
        requires
            old(self).wf(),
        ensures
            final (self).wf(),
            final (self).transactions@ == kept_txs(
                old(self).transactions@,
                tag@,
                amount@,
                opt_date_view(date),
                opt_comment_view(*comment),
            ),
            removed == old(self).transactions@.len() - final (self).transactions@.len(),
    {
        let ghost s0 = self.transactions@;
        let ghost dv = opt_date_view(date);
        let ghost cv = opt_comment_view(*comment);
        let mut pending: Vec<Transaction> = Vec::new();
        core::mem::swap(&mut pending, &mut self.transactions);
        let total = pending.len();
        let ghost n = s0.len();
        let mut removed: usize = 0;
        let mut i: usize = 0;
        proof {
            assert(s0.skip(0) =~= s0);
            assert(s0.take(0) =~= Seq::<Transaction>::empty());
        }
        while pending.len() > 0
            invariant
                n == s0.len(),
                total == n,
                i <= total,
                dv == opt_date_view(date),
                cv == opt_comment_view(*comment),
                pending@ == s0.skip(i as int),
                self.transactions@ == kept_txs(s0.take(i as int), tag@, amount@, dv, cv),
                removed == i - self.transactions@.len(),
                removed <= i,
            decreases pending@.len(),
        {
            let t = pending.remove(0);
            proof {
                assert(t == s0[i as int]);
                assert(s0.skip(i as int).remove(0) =~= s0.skip(i as int + 1));
                assert(s0.take(i as int + 1).drop_last() =~= s0.take(i as int));
                assert(s0.take(i as int + 1).last() == s0[i as int]);
            }
            let tag_matches = match tag.cmp_to(&t.tag) {
                Cmp::Eq => true,
                _ => false,
            };
            let amount_matches = amount.cents() == t.amount.cents();
            let date_matches = match &date {
                Some(d) => match cmp_date(d, &t.date) {
                    Cmp::Eq => true,
                    _ => false,
                },
                None => true,
            };
            let comment_matches = match comment {
                Some(c) => match crate::order::cmp_str(c.as_str(), t.comment.as_str()) {
                    Cmp::Eq => true,
                    _ => false,
                },
                None => true,
            };
            if tag_matches && amount_matches && date_matches && comment_matches {
                proof {
                    assert(removed_by(t, tag@, amount@, dv, cv));
                }
                removed = removed + 1;
            } else {
                proof {
                    assert(!removed_by(t, tag@, amount@, dv, cv));
                }
                self.transactions.push(t);
            }
            i = i + 1;
        }
        proof {
            assert(s0.skip(i as int).len() == 0);
            assert(i == n);
            assert(s0.take(i as int) =~= s0);
            lemma_kept_sorted(s0, tag@, amount@, dv, cv);
        }
        removed
    }

    /// Insert an entry at its place in the canonical order, after any entries
    /// it compares equal to.
    pub fn add(&mut self, t: Transaction)
        requires
            old(self).wf(),
        ensures
            final(self).wf(),
            final(self).transactions@ == old(self).transactions@.insert(
                insert_pos(old(self).transactions@, t),
                t,
            ),
    {
        let ghost s = self.transactions@;
        let i = find_insert_pos(&self.transactions, &t);
        proof {
            lemma_insert_pos_is(s, t, i as int);
        }
        self.transactions.insert(i, t);
        proof {
            let ns = self.transactions@;
            assert forall|p: int, q: int| 0 <= p < q < ns.len() implies tx_le(
                #[trigger] ns[p],
                #[trigger] ns[q],
            ) by {
                lemma_tx_trichotomy(t, ns[p]);
                lemma_tx_trichotomy(t, ns[q]);
                if p < i && q == i {
                    assert(ns[p] == s[p]);
                } else if p == i && q > i {
                    assert(ns[q] == s[q - 1]);
                    assert(tx_lt(t, s[i as int]));
                    assert(tx_le(s[i as int], s[q - 1]));
                    lemma_tx_lt_le_trans(t, s[i as int], s[q - 1]);
                } else if p != i && q != i {
                    let sp = if p < i {
                        p
                    } else {
                        p - 1
                    };
                    let sq = if q < i {
                        q
                    } else {
                        q - 1
                    };
                    assert(ns[p] == s[sp]);
                    assert(ns[q] == s[sq]);
                    assert(sp < sq);
                }
            }
        }
    }
}

} // verus!
