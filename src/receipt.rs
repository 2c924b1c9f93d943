//! Receipts: a header naming who paid, then one item per line, with `#` comments.
use vstd::prelude::*;
use vstd::string::*;
use crate::price::{all_digits, digits_value, parse_digits, parse_price, price_cents};
use crate::text::{
    has_prefix, push_new, join_range, join_spaces, split_on_spaces, split_spaces, trim_text,
    trimmed, views,
};

verus! {

/// One purchased line: what it was, who it was for, its unit price in minor units and
/// how many were bought.
#[derive(Debug)]
pub struct Item {
    pub name: String,
    pub consumer: String,
    pub single_price: u32,
    pub count: u32,
}

pub struct ItemView {
    pub name: Seq<char>,
    pub consumer: Seq<char>,
    pub single_price: u32,
    pub count: u32,
}

impl View for Item {
    type V = ItemView;

    open spec fn view(&self) -> ItemView {
        ItemView {
            name: self.name@,
            consumer: self.consumer@,
            single_price: self.single_price,
            count: self.count,
        }
    }
}

/// What is wrong with a malformed receipt text.
#[derive(Debug, Clone)]
pub enum FormatProblem {
    /// The first line is not `<person> pirka`.
    Header,
    /// An item line has too few pieces; holds the line.
    ItemLine(String),
    /// An item's price does not read; holds the price text.
    ItemPrice(String),
    /// An item's consumer is not one character; holds it.
    ItemConsumer(String),
    /// An item's `x<count>` marker does not read; holds the marker.
    ItemCount(String),
}

pub enum FormatProblemView {
    Header,
    ItemLine(Seq<char>),
    ItemPrice(Seq<char>),
    ItemConsumer(Seq<char>),
    ItemCount(Seq<char>),
}

impl View for FormatProblem {
    type V = FormatProblemView;

    open spec fn view(&self) -> FormatProblemView {
        match self {
            FormatProblem::Header => FormatProblemView::Header,
            FormatProblem::ItemLine(s) => FormatProblemView::ItemLine(s@),
            FormatProblem::ItemPrice(s) => FormatProblemView::ItemPrice(s@),
            FormatProblem::ItemConsumer(s) => FormatProblemView::ItemConsumer(s@),
            FormatProblem::ItemCount(s) => FormatProblemView::ItemCount(s@),
        }
    }
}

/// Why a receipt file gave no receipt.
#[derive(Debug, Clone)]
pub enum ReceiptParseError {
    FileReadError { path: String, underlying_error: String },
    FileEmpty { path: String },
    FormatError { path: String, problem: FormatProblem },
}

pub enum ParseErrorView {
    FileReadError { path: Seq<char>, underlying_error: Seq<char> },
    FileEmpty { path: Seq<char> },
    FormatError { path: Seq<char>, problem: FormatProblemView },
}

impl View for ReceiptParseError {
    type V = ParseErrorView;

    open spec fn view(&self) -> ParseErrorView {
        match self {
            ReceiptParseError::FileReadError { path, underlying_error } =>
                ParseErrorView::FileReadError {
                    path: path@,
                    underlying_error: underlying_error@,
                },
            ReceiptParseError::FileEmpty { path } => ParseErrorView::FileEmpty { path: path@ },
            ReceiptParseError::FormatError { path, problem } => ParseErrorView::FormatError {
                path: path@,
                problem: problem@,
            },
        }
    }
}

/// A format problem found in the file at `path`.
pub open spec fn with_path<T>(path: Seq<char>, r: Result<T, FormatProblemView>) -> Result<
    T,
    ParseErrorView,
> {
    match r {
        Ok(v) => Ok(v),
        Err(p) => Err(ParseErrorView::FormatError { path, problem: p }),
    }
}

pub open spec fn item_result_view(r: Result<Item, ReceiptParseError>) -> Result<
    ItemView,
    ParseErrorView,
> {
    match r {
        Ok(i) => Ok(i@),
        Err(e) => Err(e@),
    }
}

/// The count that an `x<count>` marker holds, where its digits read as a `u32`.
pub open spec fn count_of(marker: Seq<char>) -> Option<u32> {
    let digits = marker.skip(1);
    if digits.len() > 0 && all_digits(digits) && digits_value(digits) <= u32::MAX {
        Some(digits_value(digits) as u32)
    } else {
        None
    }
}

/// The item that the space-separated pieces `toks` of an item line describe: price,
/// an optional `x<count>`, the name's words, the consumer. `line` is the whole line.
pub open spec fn item_spec(line: Seq<char>, toks: Seq<Seq<char>>) -> Result<
    ItemView,
    FormatProblemView,
> {
    if toks.len() < 3 {
        Err(FormatProblemView::ItemLine(line))
    } else if price_cents(toks[0]) is None {
        Err(FormatProblemView::ItemPrice(toks[0]))
    } else if toks.last().len() != 1 {
        Err(FormatProblemView::ItemConsumer(toks.last()))
    } else if has_prefix(toks[1], seq!['x']) {
        if count_of(toks[1]) is None {
            Err(FormatProblemView::ItemCount(toks[1]))
        } else if toks.len() < 4 {
            Err(FormatProblemView::ItemLine(line))
        } else {
            Ok(
                ItemView {
                    name: join_spaces(toks.subrange(2, toks.len() - 1)),
                    consumer: toks.last(),
                    single_price: price_cents(toks[0])->0,
                    count: count_of(toks[1])->0,
                },
            )
        }
    } else {
        Ok(
            ItemView {
                name: join_spaces(toks.subrange(1, toks.len() - 1)),
                consumer: toks.last(),
                single_price: price_cents(toks[0])->0,
                count: 1,
            },
        )
    }
}

/// The item that a whole line of a receipt file describes.
pub open spec fn item_line_spec(line: Seq<char>) -> Result<ItemView, FormatProblemView> {
    item_spec(line, split_spaces(trimmed(line)))
}

pub open spec fn item_total(i: ItemView) -> int {
    i.single_price * i.count
}

/// The sum of the items' totals.
pub open spec fn items_total(items: Seq<ItemView>) -> int
    decreases items.len(),
{
    if items.len() == 0 {
        0
    } else {
        items_total(items.drop_last()) + item_total(items.last())
    }
}

pub open spec fn consumers_of(items: Seq<ItemView>) -> Seq<Seq<char>> {
    items.map_values(|i: ItemView| i.consumer)
}

pub open spec fn item_views(items: Seq<Item>) -> Seq<ItemView> {
    items.map_values(|i: Item| i@)
}

fn format_error(path: &String, problem: FormatProblem) -> (r: ReceiptParseError)
    ensures
        r@ == (ParseErrorView::FormatError { path: path@, problem: problem@ }),
{
    ReceiptParseError::FormatError { path: path.clone(), problem }
}

impl Item {
    /// The price of all the units bought.
    pub fn total_price(&self) -> (r: u64)
        ensures
            r == item_total(self@),
    {
        proof {
            vstd::arithmetic::mul::lemma_mul_upper_bound(
                self.single_price as int,
                u32::MAX as int,
                self.count as int,
                u32::MAX as int,
            );
        }
        self.single_price as u64 * self.count as u64
    }

    /// Reads an item from a line whose surrounding whitespace is already gone: `text` is
    /// what is left of `line`. Problems are reported against `file_path`.
    pub fn parse_fields(file_path: &String, line: &str, text: &str) -> (r: Result<
        Item,
        ReceiptParseError,
    >)
        ensures
            item_result_view(r) == with_path(file_path@, item_spec(line@, split_spaces(text@))),
    {
        let toks = split_on_spaces(text);
        let ghost t = split_spaces(text@);
        assert(views(toks@).len() == toks@.len());
        let n = toks.len();
        if n < 3 {
            return Err(format_error(file_path, FormatProblem::ItemLine(String::from_str(line))));
        }
        assert(t[0] == toks@[0]@);
        let single_price = match Receipt::parse_price(toks[0].as_str()) {
            Some(p) => p,
            None => {
                return Err(format_error(file_path, FormatProblem::ItemPrice(toks[0].clone())));
            },
        };
        assert(t.last() == toks@[n - 1]@);
        let consumer = toks[n - 1].clone();
        if consumer.as_str().unicode_len() != 1 {
            return Err(format_error(file_path, FormatProblem::ItemConsumer(consumer)));
        }
        assert(t[1] == toks@[1]@);
        let marker = toks[1].as_str();
        let m = marker.unicode_len();
        if m > 0 && marker.get_char(0) == 'x' {
            assert(has_prefix(t[1], seq!['x'])) by {
                assert(t[1].take(1) =~= seq!['x']);
            }
            let count = if m > 1 {
                parse_digits(marker, 1, m)
            } else {
                None
            };
            assert(marker@.subrange(1, m as int) =~= t[1].skip(1));
            let count = match count {
                Some(c) => c as u32,
                None => {
                    return Err(format_error(file_path, FormatProblem::ItemCount(toks[1].clone())));
                },
            };
            if n < 4 {
                return Err(
                    format_error(file_path, FormatProblem::ItemLine(String::from_str(line))),
                );
            }
            let name = join_range(&toks, 2, n - 1);
            Ok(Item { name, consumer, single_price, count })
        } else {
            assert(!has_prefix(t[1], seq!['x'])) by {
                if m > 0 {
                    assert(t[1].take(1)[0] == t[1][0]);
                }
            }
            let name = join_range(&toks, 1, n - 1);
            Ok(Item { name, consumer, single_price, count: 1 })
        }
    }

    /// Reads an item line `<price> [x<count>] <name words...> <consumer>`, after taking
    /// the whitespace around it away. Problems are reported against `file_path`.
    pub fn parse(file_path: &String, line: &str) -> (r: Result<Item, ReceiptParseError>)
        ensures
            item_result_view(r) == with_path(file_path@, item_line_spec(line@)),
    {
        let text = trim_text(line);
        Item::parse_fields(file_path, line, text)
    }
}

/// One receipt file: its path, who paid, and its items in file order.
#[derive(Debug)]
pub struct Receipt {
    pub file_path: String,
    pub purchaser: String,
    pub items: Vec<Item>,
}

pub struct ReceiptView {
    pub file_path: Seq<char>,
    pub purchaser: Seq<char>,
    pub items: Seq<ItemView>,
}

impl View for Receipt {
    type V = ReceiptView;

    open spec fn view(&self) -> ReceiptView {
        ReceiptView {
            file_path: self.file_path@,
            purchaser: self.purchaser@,
            items: item_views(self.items@),
        }
    }
}

pub open spec fn receipt_result_view(r: Result<Receipt, ReceiptParseError>) -> Result<
    ReceiptView,
    ParseErrorView,
> {
    match r {
        Ok(v) => Ok(v@),
        Err(e) => Err(e@),
    }
}

pub open spec fn is_comment(line: Seq<char>) -> bool {
    line.len() > 0 && line[0] == '#'
}

/// The items of the lines after the header, comments skipped; the first line that is
/// not an item decides the problem.
pub open spec fn body_spec(lines: Seq<Seq<char>>) -> Result<Seq<ItemView>, FormatProblemView>
    decreases lines.len(),
{
    if lines.len() == 0 {
        Ok(Seq::<ItemView>::empty())
    } else {
        match body_spec(lines.drop_last()) {
            Err(p) => Err(p),
            Ok(items) => if is_comment(lines.last()) {
                Ok(items)
            } else {
                match item_line_spec(lines.last()) {
                    Ok(i) => Ok(items.push(i)),
                    Err(p) => Err(p),
                }
            },
        }
    }
}

/// The pieces of a header line `<person> pirka`, where it is one.
pub open spec fn header_ok(h: Seq<Seq<char>>) -> bool {
    h.len() == 2 && h[1] == "pirka"@ && h[0].len() > 0
}

/// The receipt that the lines of the file at `path` describe.
pub open spec fn receipt_spec(path: Seq<char>, lines: Seq<Seq<char>>) -> Result<
    ReceiptView,
    ParseErrorView,
> {
    if lines.len() == 0 {
        Err(ParseErrorView::FileEmpty { path })
    } else if !header_ok(split_spaces(lines[0])) {
        Err(ParseErrorView::FormatError { path, problem: FormatProblemView::Header })
    } else {
        match body_spec(lines.skip(1)) {
            Ok(items) => Ok(
                ReceiptView { file_path: path, purchaser: split_spaces(lines[0])[0], items },
            ),
            Err(p) => Err(ParseErrorView::FormatError { path, problem: p }),
        }
    }
}

proof fn lemma_body_error_stays(lines: Seq<Seq<char>>, j: int)
    requires
        0 <= j <= lines.len(),
        body_spec(lines.take(j)) is Err,
    ensures
        body_spec(lines) == body_spec(lines.take(j)),
    decreases lines.len(),
{
    if j == lines.len() {
        assert(lines.take(j) =~= lines);
    } else {
        assert(lines.drop_last().take(j) =~= lines.take(j));
        lemma_body_error_stays(lines.drop_last(), j);
    }
}

pub(crate) proof fn lemma_items_total_prefix(items: Seq<ItemView>, j: int)
    requires
        0 <= j <= items.len(),
    ensures
        0 <= items_total(items.take(j)) <= items_total(items),
    decreases items.len(),
{
    if j == items.len() {
        assert(items.take(j) =~= items);
        if items.len() > 0 {
            lemma_items_total_prefix(items.drop_last(), j - 1);
            assert(items.drop_last().take(j - 1) =~= items.drop_last());
        }
    } else {
        assert(items.drop_last().take(j) =~= items.take(j));
        lemma_items_total_prefix(items.drop_last(), j);
    }
    if items.len() > 0 {
        let l = items.last();
        assert(item_total(l) >= 0) by (nonlinear_arith)
            requires
                item_total(l) == l.single_price * l.count,
                l.single_price >= 0,
                l.count >= 0,
        ;
    }
}

impl Receipt {
    /// Reads a price written as `<major>.<minor>` and returns the amount in minor units;
    /// see [`crate::price::parse_price`].
    pub fn parse_price(text: &str) -> (r: Option<u32>)
        ensures
            r == price_cents(text@),
    {
        parse_price(text)
    }

    /// Reads a receipt from the lines of the file at `file_path`: a header
    /// `<person> pirka`, then item lines and `#` comments. The first problem found ends
    /// the reading.
    pub fn parse(file_path: String, lines: &Vec<String>) -> (r: Result<Receipt, ReceiptParseError>)
        ensures
            receipt_result_view(r) == receipt_spec(file_path@, views(lines@)),
    {
        let ghost ls = views(lines@);
        let n = lines.len();
        if n == 0 {
            return Err(ReceiptParseError::FileEmpty { path: file_path });
        }
        assert(ls[0] == lines@[0]@);
        let header = split_on_spaces(lines[0].as_str());
        assert(views(header@).len() == header@.len());
        let marker = String::from_str("pirka");
        if header.len() != 2 || header[1] != marker || header[0].as_str().unicode_len() == 0 {
            proof {
                if header@.len() == 2 {
                    assert(views(header@)[1] == header@[1]@);
                    assert(views(header@)[0] == header@[0]@);
                }
            }
            return Err(
                ReceiptParseError::FormatError { path: file_path, problem: FormatProblem::Header },
            );
        }
        assert(views(header@)[1] == header@[1]@);
        assert(views(header@)[0] == header@[0]@);
        let purchaser = header[0].clone();
        assert(header_ok(split_spaces(ls[0])));
        let ghost body = ls.skip(1);
        let mut items: Vec<Item> = Vec::new();
        let mut i: usize = 1;
        assert(body.take(0) =~= Seq::<Seq<char>>::empty());
        assert(item_views(items@) =~= Seq::<ItemView>::empty());
        while i < n
            invariant
                1 <= i <= n == lines@.len(),
                ls == views(lines@),
                body == ls.skip(1),
                header_ok(split_spaces(ls[0])),
                purchaser@ == split_spaces(ls[0])[0],
                body_spec(body.take(i - 1)) == Ok::<Seq<ItemView>, FormatProblemView>(
                    item_views(items@),
                ),
            decreases n - i,
        {
            let ghost done = item_views(items@);
            assert(body.take(i as int).drop_last() =~= body.take(i - 1));
            assert(body.take(i as int).last() == lines@[i as int]@);
            let line = lines[i].as_str();
            if line.unicode_len() > 0 && line.get_char(0) == '#' {
            } else {
                match Item::parse(&file_path, line) {
                    Ok(item) => {
                        items.push(item);
                        assert(item_views(items@) =~= done.push(item@));
                    },
                    Err(e) => {
                        proof {
                            assert(!is_comment(body.take(i as int).last()));
                            assert(item_line_spec(body.take(i as int).last()) is Err);
                            assert(body_spec(body.take(i as int)) == Err::<Seq<ItemView>, FormatProblemView>(
                                item_line_spec(body.take(i as int).last())->Err_0,
                            ));
                            lemma_body_error_stays(body, i as int);
                        }
                        return Err(e);
                    },
                }
            }
            i = i + 1;
        }
        assert(body.take(n - 1) =~= body);
        Ok(Receipt { file_path, purchaser, items })
    }

    /// The sum of the items' totals.
    pub fn total_spent(&self) -> (r: u64)
        requires
            items_total(self@.items) <= u64::MAX,
        ensures
            r == items_total(self@.items),
    {
        let ghost all = self@.items;
        let mut total: u64 = 0;
        let mut i: usize = 0;
        while i < self.items.len()
            invariant
                i <= self.items@.len(),
                all == item_views(self.items@),
                items_total(all) <= u64::MAX,
                total == items_total(all.take(i as int)),
            decreases self.items@.len() - i,
        {
            assert(all.take(i + 1).drop_last() =~= all.take(i as int));
            assert(all.take(i + 1).last() == self.items@[i as int]@);
            proof {
                lemma_items_total_prefix(all, i + 1);
            }
            total = total + self.items[i].total_price();
            i = i + 1;
        }
        assert(all.take(i as int) =~= all);
        total
    }

    /// Everyone who received items of this purchase, each once, in order of first mention.
    pub fn recipients(&self) -> (r: Vec<String>)
        ensures
            views(r@).no_duplicates(),
            views(r@).to_set() == consumers_of(self@.items).to_set(),
    {
        let ghost all = self@.items;
        let mut r: Vec<String> = Vec::new();
        let mut i: usize = 0;
        assert(views(r@).to_set() =~= consumers_of(all.take(0)).to_set());
        while i < self.items.len()
            invariant
                i <= self.items@.len(),
                all == item_views(self.items@),
                views(r@).no_duplicates(),
                views(r@).to_set() == consumers_of(all.take(i as int)).to_set(),
            decreases self.items@.len() - i,
        {
            let consumer = &self.items[i].consumer;
            assert(consumers_of(all.take(i + 1)) =~= consumers_of(all.take(i as int)).push(
                consumer@,
            ));
            proof {
                consumers_of(all.take(i as int)).lemma_push_to_set_commute(consumer@);
            }
            push_new(&mut r, consumer);
            i = i + 1;
        }
        assert(all.take(i as int) =~= all);
        r
    }
}

} // verus!
