//! The spending ledger built from receipts, names for consumer identifiers, and the
//! settlement between two people who share costs.
use vstd::prelude::*;
use vstd::string::*;
use crate::receipt::{
    Receipt, ReceiptView, ItemView, consumers_of, item_total, items_total, item_views,
    lemma_items_total_prefix,
};
use crate::text::{has_prefix, push_new, starts_with, views};

verus! {

pub open spec fn receipt_views(rs: Seq<Receipt>) -> Seq<ReceiptView> {
    rs.map_values(|r: Receipt| r@)
}

pub open spec fn purchasers_of(rs: Seq<ReceiptView>) -> Seq<Seq<char>> {
    rs.map_values(|r: ReceiptView| r.purchaser)
}

/// What the items spent on consumer `c`.
pub open spec fn items_on(items: Seq<ItemView>, c: Seq<char>) -> int
    decreases items.len(),
{
    if items.len() == 0 {
        0
    } else {
        items_on(items.drop_last(), c) + if items.last().consumer == c {
            item_total(items.last())
        } else {
            0
        }
    }
}

/// What purchaser `p` spent on consumer `c`, over all the receipts.
pub open spec fn spent_on(rs: Seq<ReceiptView>, p: Seq<char>, c: Seq<char>) -> int
    decreases rs.len(),
{
    if rs.len() == 0 {
        0
    } else {
        spent_on(rs.drop_last(), p, c) + if rs.last().purchaser == p {
            items_on(rs.last().items, c)
        } else {
            0
        }
    }
}

/// Everyone for whom purchaser `p` bought something.
pub open spec fn bought_for(rs: Seq<ReceiptView>, p: Seq<char>) -> Set<Seq<char>>
    decreases rs.len(),
{
    if rs.len() == 0 {
        Set::empty()
    } else if rs.last().purchaser == p {
        bought_for(rs.drop_last(), p).union(consumers_of(rs.last().items).to_set())
    } else {
        bought_for(rs.drop_last(), p)
    }
}

/// The sum of all items of all receipts.
pub open spec fn total_all(rs: Seq<ReceiptView>) -> int
    decreases rs.len(),
{
    if rs.len() == 0 {
        0
    } else {
        total_all(rs.drop_last()) + items_total(rs.last().items)
    }
}

proof fn lemma_items_on_bounds(items: Seq<ItemView>, c: Seq<char>, j: int)
    requires
        0 <= j <= items.len(),
    ensures
        0 <= items_on(items.take(j), c) <= items_on(items, c) <= items_total(items),
    decreases items.len(),
{
    if items.len() > 0 {
        let l = items.last();
        assert(item_total(l) >= 0) by (nonlinear_arith)
            requires
                item_total(l) == l.single_price * l.count,
                l.single_price >= 0,
                l.count >= 0,
        ;
        if j == items.len() {
            assert(items.take(j) =~= items);
            lemma_items_on_bounds(items.drop_last(), c, j - 1);
        } else {
            assert(items.drop_last().take(j) =~= items.take(j));
            lemma_items_on_bounds(items.drop_last(), c, j);
        }
    } else {
        assert(items.take(j) =~= items);
    }
}

proof fn lemma_spent_bounds(rs: Seq<ReceiptView>, p: Seq<char>, c: Seq<char>)
    ensures
        0 <= spent_on(rs, p, c) <= total_all(rs),
    decreases rs.len(),
{
    if rs.len() > 0 {
        lemma_spent_bounds(rs.drop_last(), p, c);
        lemma_items_on_bounds(rs.last().items, c, 0);
    }
}

proof fn lemma_total_prefix(rs: Seq<ReceiptView>, k: int)
    requires
        0 <= k <= rs.len(),
    ensures
        0 <= total_all(rs.take(k)) <= total_all(rs),
    decreases rs.len(),
{
    if rs.len() > 0 {
        lemma_items_total_prefix(rs.last().items, 0);
        if k == rs.len() {
            assert(rs.take(k) =~= rs);
            lemma_total_prefix(rs.drop_last(), k - 1);
            assert(rs.drop_last().take(k - 1) =~= rs.drop_last());
        } else {
            assert(rs.drop_last().take(k) =~= rs.take(k));
            lemma_total_prefix(rs.drop_last(), k);
        }
    } else {
        assert(rs.take(k) =~= rs);
    }
}

proof fn lemma_items_on_absent(items: Seq<ItemView>, c: Seq<char>)
    requires
        !consumers_of(items).contains(c),
    ensures
        items_on(items, c) == 0,
    decreases items.len(),
{
    if items.len() > 0 {
        let rest = items.drop_last();
        assert(consumers_of(items)[items.len() - 1] == items.last().consumer);
        assert forall|k: int| 0 <= k < rest.len() implies consumers_of(rest)[k] != c by {
            assert(consumers_of(items)[k] == consumers_of(rest)[k]);
        }
        lemma_items_on_absent(rest, c);
    }
}

proof fn lemma_not_bought(rs: Seq<ReceiptView>, p: Seq<char>, c: Seq<char>)
    requires
        !bought_for(rs, p).contains(c),
    ensures
        spent_on(rs, p, c) == 0,
    decreases rs.len(),
{
    if rs.len() > 0 {
        lemma_not_bought(rs.drop_last(), p, c);
        if rs.last().purchaser == p {
            lemma_items_on_absent(rs.last().items, c);
        }
    }
}

proof fn lemma_bought_by_purchaser(rs: Seq<ReceiptView>, p: Seq<char>, c: Seq<char>)
    requires
        bought_for(rs, p).contains(c),
    ensures
        purchasers_of(rs).contains(p),
    decreases rs.len(),
{
    if rs.len() > 0 {
        if rs.last().purchaser == p {
            assert(purchasers_of(rs)[rs.len() - 1] == p);
        } else {
            lemma_bought_by_purchaser(rs.drop_last(), p, c);
            let k = choose|k: int|
                0 <= k < purchasers_of(rs.drop_last()).len() && purchasers_of(rs.drop_last())[k]
                    == p;
            assert(purchasers_of(rs)[k] == p);
        }
    }
}

proof fn lemma_spent_on_sum(rs1: Seq<ReceiptView>, rs2: Seq<ReceiptView>, p: Seq<char>, c: Seq<char>)
    ensures
        spent_on(rs1 + rs2, p, c) == spent_on(rs1, p, c) + spent_on(rs2, p, c),
    decreases rs2.len(),
{
    if rs2.len() == 0 {
        assert(rs1 + rs2 =~= rs1);
    } else {
        assert((rs1 + rs2).drop_last() =~= rs1 + rs2.drop_last());
        assert((rs1 + rs2).last() == rs2.last());
        lemma_spent_on_sum(rs1, rs2.drop_last(), p, c);
    }
}

/// What a purchaser spent on a consumer over two lists of receipts is the sum of what
/// they spent over each, so the order in which the lists are taken does not matter.
pub proof fn lemma_spent_on_concat(
    rs1: Seq<ReceiptView>,
    rs2: Seq<ReceiptView>,
    p: Seq<char>,
    c: Seq<char>,
)
    ensures
        spent_on(rs1 + rs2, p, c) == spent_on(rs1, p, c) + spent_on(rs2, p, c),
        spent_on(rs1 + rs2, p, c) == spent_on(rs2 + rs1, p, c),
{
    lemma_spent_on_sum(rs1, rs2, p, c);
    lemma_spent_on_sum(rs2, rs1, p, c);
}

/// The sum of all items of all receipts, where it fits in a `u64`.
pub fn grand_total(receipts: &Vec<Receipt>) -> (r: Option<u64>)
    ensures
        r is Some <==> total_all(receipt_views(receipts@)) <= u64::MAX,
        r is Some ==> r->0 == total_all(receipt_views(receipts@)),
{
    let ghost rs = receipt_views(receipts@);
    let mut acc: u64 = 0;
    let mut k: usize = 0;
    while k < receipts.len()
        invariant
            k <= receipts@.len(),
            rs == receipt_views(receipts@),
            acc == total_all(rs.take(k as int)),
        decreases receipts@.len() - k,
    {
        let ghost items = rs[k as int].items;
        assert(rs.take(k + 1).drop_last() =~= rs.take(k as int));
        assert(rs.take(k + 1).last() == rs[k as int]);
        assert(total_all(rs.take(k + 1)) == total_all(rs.take(k as int)) + items_total(items));
        let mut j: usize = 0;
        assert(items.take(0) =~= Seq::<ItemView>::empty());
        while j < receipts[k].items.len()
            invariant
                k < receipts@.len(),
                j <= receipts@[k as int].items@.len(),
                rs == receipt_views(receipts@),
                items == rs[k as int].items,
                items == item_views(receipts@[k as int].items@),
                acc == total_all(rs.take(k as int)) + items_total(items.take(j as int)),
            decreases receipts@[k as int].items@.len() - j,
        {
            let t = receipts[k].items[j].total_price();
            assert(items.take(j + 1).drop_last() =~= items.take(j as int));
            assert(items.take(j + 1).last() == receipts@[k as int].items@[j as int]@);
            if acc > u64::MAX - t {
                proof {
                    lemma_items_total_prefix(items, j + 1);
                    lemma_total_prefix(rs, k + 1);
                    assert(rs.take(k + 1).drop_last() =~= rs.take(k as int));
                    assert(rs.take(k + 1).last() == rs[k as int]);
                    assert(total_all(rs.take(k + 1)) == total_all(rs.take(k as int))
                        + items_total(items));
                }
                return None;
            }
            acc = acc + t;
            j = j + 1;
        }
        assert(items.take(j as int) =~= items);
        k = k + 1;
    }
    assert(rs.take(k as int) =~= rs);
    Some(acc)
}

/// What purchaser `p` spent on consumer `c` over all receipts.
fn spent_on_exec(receipts: &Vec<Receipt>, p: &String, c: &String) -> (r: u64)
    requires
        total_all(receipt_views(receipts@)) <= u64::MAX,
    ensures
        r == spent_on(receipt_views(receipts@), p@, c@),
{
    let ghost rs = receipt_views(receipts@);
    let mut acc: u64 = 0;
    let mut k: usize = 0;
    while k < receipts.len()
        invariant
            k <= receipts@.len(),
            rs == receipt_views(receipts@),
            total_all(rs) <= u64::MAX,
            acc == spent_on(rs.take(k as int), p@, c@),
        decreases receipts@.len() - k,
    {
        let ghost items = rs[k as int].items;
        assert(rs.take(k + 1).drop_last() =~= rs.take(k as int));
        assert(rs.take(k + 1).last() == rs[k as int]);
        if receipts[k].purchaser == *p {
            let mut j: usize = 0;
            assert(items.take(0) =~= Seq::<ItemView>::empty());
            while j < receipts[k].items.len()
                invariant
                    k < receipts@.len(),
                    j <= receipts@[k as int].items@.len(),
                    rs == receipt_views(receipts@),
                    total_all(rs) <= u64::MAX,
                    items == rs[k as int].items,
                    items == item_views(receipts@[k as int].items@),
                    acc == spent_on(rs.take(k as int), p@, c@) + items_on(items.take(j as int), c@),
                decreases receipts@[k as int].items@.len() - j,
            {
                let item = &receipts[k].items[j];
                assert(items.take(j + 1).drop_last() =~= items.take(j as int));
                assert(items.take(j + 1).last() == item@);
                if item.consumer == *c {
                    let t = item.total_price();
                    proof {
                        lemma_items_on_bounds(items, c@, j + 1);
                        lemma_spent_bounds(rs.take(k as int), p@, c@);
                        lemma_total_prefix(rs, k + 1);
                        assert(rs.take(k + 1).drop_last() =~= rs.take(k as int));
                        assert(rs.take(k + 1).last() == rs[k as int]);
                        assert(total_all(rs.take(k + 1)) == total_all(rs.take(k as int))
                            + items_total(items));
                        assert(items_on(items.take(j + 1), c@) == items_on(items.take(j as int), c@)
                            + t);
                    }
                    acc = acc + t;
                }
                j = j + 1;
            }
            assert(items.take(j as int) =~= items);
        }
        k = k + 1;
    }
    assert(rs.take(k as int) =~= rs);
    acc
}

/// Everyone who made a purchase, each once, in order of first receipt.
pub fn participants(receipts: &Vec<Receipt>) -> (r: Vec<String>)
    ensures
        views(r@).no_duplicates(),
        views(r@).to_set() == purchasers_of(receipt_views(receipts@)).to_set(),
{
    let ghost rs = receipt_views(receipts@);
    let mut r: Vec<String> = Vec::new();
    let mut k: usize = 0;
    assert(views(r@).to_set() =~= purchasers_of(rs.take(0)).to_set());
    while k < receipts.len()
        invariant
            k <= receipts@.len(),
            rs == receipt_views(receipts@),
            views(r@).no_duplicates(),
            views(r@).to_set() == purchasers_of(rs.take(k as int)).to_set(),
        decreases receipts@.len() - k,
    {
        let p = &receipts[k].purchaser;
        assert(purchasers_of(rs.take(k + 1)) =~= purchasers_of(rs.take(k as int)).push(p@));
        proof {
            purchasers_of(rs.take(k as int)).lemma_push_to_set_commute(p@);
        }
        push_new(&mut r, p);
        k = k + 1;
    }
    assert(rs.take(k as int) =~= rs);
    r
}

/// Everyone for whom purchaser `p` bought something, each once.
fn consumers_for(receipts: &Vec<Receipt>, p: &String) -> (r: Vec<String>)
    ensures
        views(r@).no_duplicates(),
        views(r@).to_set() == bought_for(receipt_views(receipts@), p@),
{
    let ghost rs = receipt_views(receipts@);
    let mut r: Vec<String> = Vec::new();
    let mut k: usize = 0;
    assert(views(r@).to_set() =~= bought_for(rs.take(0), p@));
    while k < receipts.len()
        invariant
            k <= receipts@.len(),
            rs == receipt_views(receipts@),
            views(r@).no_duplicates(),
            views(r@).to_set() == bought_for(rs.take(k as int), p@),
        decreases receipts@.len() - k,
    {
        assert(rs.take(k + 1).drop_last() =~= rs.take(k as int));
        assert(rs.take(k + 1).last() == rs[k as int]);
        if receipts[k].purchaser == *p {
            let got = receipts[k].recipients();
            let ghost start = views(r@).to_set();
            let mut m: usize = 0;
            assert(views(got@).take(0).to_set() =~= Set::<Seq<char>>::empty());
            assert(start.union(Set::<Seq<char>>::empty()) =~= start);
            while m < got.len()
                invariant
                    m <= got@.len(),
                    views(r@).no_duplicates(),
                    views(r@).to_set() == start.union(views(got@).take(m as int).to_set()),
                decreases got@.len() - m,
            {
                push_new(&mut r, &got[m]);
                proof {
                    assert(views(got@).take(m + 1) =~= views(got@).take(m as int).push(got@[m as int]@));
                    views(got@).take(m as int).lemma_push_to_set_commute(got@[m as int]@);
                    assert(start.union(views(got@).take(m + 1).to_set()) =~= start.union(
                        views(got@).take(m as int).to_set(),
                    ).insert(got@[m as int]@));
                }
                m = m + 1;
            }
            assert(views(got@).take(m as int) =~= views(got@));
            assert(views(r@).to_set() =~= bought_for(rs.take(k + 1), p@));
        }
        k = k + 1;
    }
    assert(rs.take(k as int) =~= rs);
    r
}

/// What one purchaser spent on one consumer.
pub struct Spend {
    pub consumer: String,
    pub total: u64,
}

/// One purchaser's spending, by consumer.
pub struct LedgerEntry {
    pub purchaser: String,
    pub spending: Vec<Spend>,
}

/// For each purchaser, the total spent on each consumer identifier.
pub struct Ledger {
    pub entries: Vec<LedgerEntry>,
}

pub open spec fn spend_consumers(s: Seq<Spend>) -> Seq<Seq<char>> {
    s.map_values(|x: Spend| x.consumer@)
}

/// `e` holds, each once, everyone its purchaser bought for, with what was spent on them.
pub open spec fn entry_ok(e: LedgerEntry, rs: Seq<ReceiptView>) -> bool {
    &&& spend_consumers(e.spending@).no_duplicates()
    &&& spend_consumers(e.spending@).to_set() == bought_for(rs, e.purchaser@)
    &&& forall|j: int|
        0 <= j < e.spending@.len() ==> (#[trigger] e.spending@[j]).total == spent_on(
            rs,
            e.purchaser@,
            e.spending@[j].consumer@,
        )
}

impl Ledger {
    /// Purchasers are listed once, and each purchaser's consumers once.
    pub open spec fn wf(&self) -> bool {
        &&& forall|a: int, b: int|
            0 <= a < self.entries@.len() && 0 <= b < self.entries@.len() && a != b
                ==> (#[trigger] self.entries@[a]).purchaser@ != (#[trigger] self.entries@[b]).purchaser@
        &&& forall|i: int|
            0 <= i < self.entries@.len() ==> spend_consumers(
                (#[trigger] self.entries@[i]).spending@,
            ).no_duplicates()
    }

    pub open spec fn has_purchaser(&self, p: Seq<char>) -> bool {
        exists|i: int| 0 <= i < self.entries@.len() && (#[trigger] self.entries@[i]).purchaser@ == p
    }

    pub open spec fn spend_at(&self, i: int, j: int, p: Seq<char>, c: Seq<char>) -> bool {
        &&& 0 <= i < self.entries@.len()
        &&& 0 <= j < self.entries@[i].spending@.len()
        &&& self.entries@[i].purchaser@ == p
        &&& self.entries@[i].spending@[j].consumer@ == c
    }

    pub open spec fn has_spend(&self, p: Seq<char>, c: Seq<char>) -> bool {
        exists|i: int, j: int| self.spend_at(i, j, p, c)
    }

    /// What `p` spent on `c`; nothing where the ledger has no such pair.
    pub open spec fn amount_of(&self, p: Seq<char>, c: Seq<char>) -> int {
        if self.has_spend(p, c) {
            let (i, j) = choose|i: int, j: int| self.spend_at(i, j, p, c);
            self.entries@[i].spending@[j].total as int
        } else {
            0
        }
    }

    /// What purchaser `p` spent on consumer `c`, zero where nothing was.
    pub fn amount(&self, p: &str, c: &str) -> (r: u64)
        requires
            self.wf(),
        ensures
            r == self.amount_of(p@, c@),
    {
        let ps = String::from_str(p);
        let cs = String::from_str(c);
        let mut i: usize = 0;
        while i < self.entries.len()
            invariant
                i <= self.entries@.len(),
                self.wf(),
                ps@ == p@,
                cs@ == c@,
                forall|k: int| 0 <= k < i ==> (#[trigger] self.entries@[k]).purchaser@ != p@,
            decreases self.entries@.len() - i,
        {
            let e = &self.entries[i];
            if e.purchaser == ps {
                let mut j: usize = 0;
                while j < e.spending.len()
                    invariant
                        j <= e.spending@.len(),
                        i < self.entries@.len(),
                        self.wf(),
                        ps@ == p@,
                        cs@ == c@,
                        *e == self.entries@[i as int],
                        e.purchaser@ == p@,
                        forall|m: int| 0 <= m < j ==> (#[trigger] e.spending@[m]).consumer@ != c@,
                    decreases e.spending@.len() - j,
                {
                    if e.spending[j].consumer == cs {
                        proof {
                            assert(self.spend_at(i as int, j as int, p@, c@));
                            let (a, b) = choose|a: int, b: int| self.spend_at(a, b, p@, c@);
                            assert(a == i);
                            assert(spend_consumers(e.spending@)[b] == spend_consumers(
                                e.spending@,
                            )[j as int]);
                            assert(b == j);
                            assert(self.has_spend(p@, c@));
                        }
                        return e.spending[j].total;
                    }
                    j = j + 1;
                }
                proof {
                    assert forall|a: int, b: int| !self.spend_at(a, b, p@, c@) by {
                        if self.spend_at(a, b, p@, c@) {
                            assert(a == i);
                        }
                    }
                    assert(!self.has_spend(p@, c@));
                }
                return 0;
            }
            i = i + 1;
        }
        proof {
            assert forall|a: int, b: int| !self.spend_at(a, b, p@, c@) by {
                if self.spend_at(a, b, p@, c@) {
                    assert(self.entries@[a].purchaser@ != p@);
                }
            }
            assert(!self.has_spend(p@, c@));
        }
        0
    }
}

/// Builds the ledger: for every purchaser of a receipt, what they spent on each
/// consumer over all receipts.
pub fn aggregate(receipts: &Vec<Receipt>) -> (r: Ledger)
    requires
        total_all(receipt_views(receipts@)) <= u64::MAX,
    ensures
        r.wf(),
        forall|p: Seq<char>| #[trigger]
            r.has_purchaser(p) <==> purchasers_of(receipt_views(receipts@)).contains(p),
        forall|p: Seq<char>, c: Seq<char>| #[trigger]
            r.has_spend(p, c) <==> bought_for(receipt_views(receipts@), p).contains(c),
        forall|p: Seq<char>, c: Seq<char>| #[trigger]
            r.amount_of(p, c) == spent_on(receipt_views(receipts@), p, c),
{
    let ghost rs = receipt_views(receipts@);
    let names = participants(receipts);
    let mut entries: Vec<LedgerEntry> = Vec::new();
    let mut i: usize = 0;
    while i < names.len()
        invariant
            i <= names@.len(),
            entries@.len() == i,
            rs == receipt_views(receipts@),
            total_all(rs) <= u64::MAX,
            forall|k: int|
                0 <= k < i ==> (#[trigger] entries@[k]).purchaser@ == names@[k]@ && entry_ok(
                    entries@[k],
                    rs,
                ),
        decreases names@.len() - i,
    {
        let p = &names[i];
        let cs = consumers_for(receipts, p);
        let mut spending: Vec<Spend> = Vec::new();
        let mut j: usize = 0;
        while j < cs.len()
            invariant
                j <= cs@.len(),
                spending@.len() == j,
                rs == receipt_views(receipts@),
                total_all(rs) <= u64::MAX,
                forall|m: int|
                    0 <= m < j ==> (#[trigger] spending@[m]).consumer@ == cs@[m]@
                        && spending@[m].total == spent_on(rs, p@, cs@[m]@),
            decreases cs@.len() - j,
        {
            let total = spent_on_exec(receipts, p, &cs[j]);
            spending.push(Spend { consumer: cs[j].clone(), total });
            j = j + 1;
        }
        assert(spend_consumers(spending@) =~= views(cs@));
        let entry = LedgerEntry { purchaser: p.clone(), spending };
        assert(entry_ok(entry, rs));
        entries.push(entry);
        i = i + 1;
    }
    let r = Ledger { entries };
    proof {
        assert forall|a: int, b: int|
            0 <= a < r.entries@.len() && 0 <= b < r.entries@.len() && a != b
                implies (#[trigger] r.entries@[a]).purchaser@ != (#[trigger] r.entries@[b]).purchaser@ by {
            assert(views(names@)[a] == names@[a]@);
            assert(views(names@)[b] == names@[b]@);
        }
        assert forall|p: Seq<char>| #[trigger]
            r.has_purchaser(p) <==> purchasers_of(rs).contains(p) by {
            if r.has_purchaser(p) {
                let k = choose|k: int| 0 <= k < r.entries@.len() && (#[trigger] r.entries@[k]).purchaser@ == p;
                assert(views(names@)[k] == p);
                assert(views(names@).to_set().contains(p));
            }
            if purchasers_of(rs).contains(p) {
                assert(purchasers_of(rs).to_set().contains(p));
                assert(views(names@).contains(p));
                let k = choose|k: int| 0 <= k < views(names@).len() && views(names@)[k] == p;
                assert(r.entries@[k].purchaser@ == p);
            }
        }
        assert forall|p: Seq<char>, c: Seq<char>| #[trigger]
            r.has_spend(p, c) <==> bought_for(rs, p).contains(c) by {
            if r.has_spend(p, c) {
                let (a, b) = choose|a: int, b: int| r.spend_at(a, b, p, c);
                assert(entry_ok(r.entries@[a], rs));
                assert(spend_consumers(r.entries@[a].spending@)[b] == c);
                assert(spend_consumers(r.entries@[a].spending@).to_set().contains(c));
            }
            if bought_for(rs, p).contains(c) {
                lemma_bought_by_purchaser(rs, p, c);
                assert(purchasers_of(rs).to_set().contains(p));
                assert(views(names@).contains(p));
                let a = choose|a: int| 0 <= a < views(names@).len() && views(names@)[a] == p;
                assert(r.entries@[a].purchaser@ == p);
                assert(entry_ok(r.entries@[a], rs));
                assert(spend_consumers(r.entries@[a].spending@).contains(c));
                let b = choose|b: int|
                    0 <= b < spend_consumers(r.entries@[a].spending@).len() && spend_consumers(
                        r.entries@[a].spending@,
                    )[b] == c;
                assert(r.spend_at(a, b, p, c));
            }
        }
        assert forall|p: Seq<char>, c: Seq<char>| #[trigger]
            r.amount_of(p, c) == spent_on(rs, p, c) by {
            if r.has_spend(p, c) {
                let (a, b) = choose|a: int, b: int| r.spend_at(a, b, p, c);
                assert(entry_ok(r.entries@[a], rs));
                assert(r.entries@[a].spending@[b].total == spent_on(rs, p, c));
            } else {
                assert(!bought_for(rs, p).contains(c));
                lemma_not_bought(rs, p, c);
            }
        }
        assert forall|k: int| 0 <= k < r.entries@.len() implies spend_consumers(
            (#[trigger] r.entries@[k]).spending@,
        ).no_duplicates() by {
            assert(entry_ok(r.entries@[k], rs));
        }
    }
    r
}

/// A fixed display name for a consumer identifier that names no purchaser.
pub struct Alias {
    pub prefix: String,
    pub name: String,
}

pub open spec fn alias_views(a: Seq<Alias>) -> Seq<(Seq<char>, Seq<char>)> {
    a.map_values(|x: Alias| (x.prefix@, x.name@))
}

/// The first of `names` that begins with `prefix`.
pub open spec fn first_with_prefix(names: Seq<Seq<char>>, prefix: Seq<char>) -> Option<Seq<char>>
    decreases names.len(),
{
    if names.len() == 0 {
        None
    } else if has_prefix(names[0], prefix) {
        Some(names[0])
    } else {
        first_with_prefix(names.skip(1), prefix)
    }
}

/// The name of the first alias for exactly `id`.
pub open spec fn alias_for(aliases: Seq<(Seq<char>, Seq<char>)>, id: Seq<char>) -> Option<Seq<char>>
    decreases aliases.len(),
{
    if aliases.len() == 0 {
        None
    } else if aliases[0].0 == id {
        Some(aliases[0].1)
    } else {
        alias_for(aliases.skip(1), id)
    }
}

/// The display name of a consumer identifier: the first participant whose name begins
/// with it, else its alias, else `Person <id>`.
pub open spec fn resolved_name(
    names: Seq<Seq<char>>,
    aliases: Seq<(Seq<char>, Seq<char>)>,
    id: Seq<char>,
) -> Seq<char> {
    match first_with_prefix(names, id) {
        Some(n) => n,
        None => match alias_for(aliases, id) {
            Some(n) => n,
            None => "Person "@ + id,
        },
    }
}

/// The aliases in use: `a` is everyone (`all`), `p` is `paulis`.
pub fn default_aliases() -> (r: Vec<Alias>)
    ensures
        alias_views(r@) == seq![("a"@, "all"@), ("p"@, "paulis"@)],
{
    let mut r: Vec<Alias> = Vec::new();
    r.push(Alias { prefix: String::from_str("a"), name: String::from_str("all") });
    r.push(Alias { prefix: String::from_str("p"), name: String::from_str("paulis") });
    assert(alias_views(r@) =~= seq![("a"@, "all"@), ("p"@, "paulis"@)]);
    r
}

/// Resolves a consumer identifier to a display name. Participants are searched in the
/// order given, so where two names share the prefix the earlier one wins.
pub fn resolve_person(participants: &Vec<String>, aliases: &Vec<Alias>, prefix: &str) -> (r: String)
    ensures
        r@ == resolved_name(views(participants@), alias_views(aliases@), prefix@),
{
    let ghost names = views(participants@);
    let mut i: usize = 0;
    assert(names.skip(0) =~= names);
    while i < participants.len()
        invariant
            i <= participants@.len(),
            names == views(participants@),
            first_with_prefix(names, prefix@) == first_with_prefix(names.skip(i as int), prefix@),
        decreases participants@.len() - i,
    {
        assert(names.skip(i as int)[0] == participants@[i as int]@);
        assert(names.skip(i as int).skip(1) =~= names.skip(i + 1));
        if starts_with(participants[i].as_str(), prefix) {
            return participants[i].clone();
        }
        i = i + 1;
    }
    assert(names.skip(i as int).len() == 0);
    assert(first_with_prefix(names, prefix@) is None);
    let ghost al = alias_views(aliases@);
    let mut k: usize = 0;
    assert(al.skip(0) =~= al);
    while k < aliases.len()
        invariant
            k <= aliases@.len(),
            names == views(participants@),
            first_with_prefix(names, prefix@) is None,
            al == alias_views(aliases@),
            alias_for(al, prefix@) == alias_for(al.skip(k as int), prefix@),
        decreases aliases@.len() - k,
    {
        assert(al.skip(k as int)[0] == (aliases@[k as int].prefix@, aliases@[k as int].name@));
        assert(al.skip(k as int).skip(1) =~= al.skip(k + 1));
        if aliases[k].prefix.as_str().unicode_len() == prefix.unicode_len()
            && starts_with(aliases[k].prefix.as_str(), prefix) {
            assert(aliases@[k as int].prefix@ =~= prefix@);
            return aliases[k].name.clone();
        }
        assert(aliases@[k as int].prefix@ != prefix@) by {
            if aliases@[k as int].prefix@ == prefix@ {
                assert(aliases@[k as int].prefix@.take(prefix@.len() as int) =~= prefix@);
            }
        }
        k = k + 1;
    }
    assert(al.skip(k as int).len() == 0);
    let mut r = String::from_str("Person ");
    r.append(prefix);
    r
}

/// One side of a settlement: a purchaser's name and the identifier that stands for them.
pub struct Party {
    pub name: String,
    pub id: String,
}

/// The mutual debts of two parties and what remains when they are netted.
pub struct Settlement {
    /// What the first party owes the second.
    pub first_debt: u128,
    /// What the second party owes the first.
    pub second_debt: u128,
    /// Whether, netted, the first party owes the second (else the second owes the first).
    pub first_owes: bool,
    /// The netted amount.
    pub net: u128,
}

/// What `debtor` owes `creditor`: what the creditor spent on the debtor, and half of
/// what the creditor spent on everyone.
pub open spec fn debt_between(l: Ledger, debtor_id: Seq<char>, creditor: Seq<char>, shared_id: Seq<
    char,
>) -> int {
    l.amount_of(creditor, debtor_id) + l.amount_of(creditor, shared_id) / 2
}

/// Settles two parties' costs from the ledger, where purchases for `shared_id` are split
/// equally between them.
pub fn settle(ledger: &Ledger, first: &Party, second: &Party, shared_id: &str) -> (r: Settlement)
    requires
        ledger.wf(),
    ensures
        r.first_debt == debt_between(*ledger, first.id@, second.name@, shared_id@),
        r.second_debt == debt_between(*ledger, second.id@, first.name@, shared_id@),
        r.first_owes == (r.first_debt > r.second_debt),
        r.net == if r.first_owes {
            r.first_debt - r.second_debt
        } else {
            r.second_debt - r.first_debt
        },
{
    let first_debt = ledger.amount(second.name.as_str(), first.id.as_str()) as u128
        + (ledger.amount(second.name.as_str(), shared_id) / 2) as u128;
    let second_debt = ledger.amount(first.name.as_str(), second.id.as_str()) as u128
        + (ledger.amount(first.name.as_str(), shared_id) / 2) as u128;
    if first_debt > second_debt {
        Settlement { first_debt, second_debt, first_owes: true, net: first_debt - second_debt }
    } else {
        Settlement { first_debt, second_debt, first_owes: false, net: second_debt - first_debt }
    }
}

} // verus!
