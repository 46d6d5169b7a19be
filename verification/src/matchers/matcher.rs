//! What the matchers share: the scoreboard of executed quantities, the
//! interface of a matcher, and the choice between the two.

use crate::matchers::fifo_matcher::{fifo_book, fifo_fills, FIFOMatcher};
use crate::matchers::prorata_matcher::{prorata_book, prorata_fills, ProrataMatcher};
use crate::matchers::reports::{in_pairs, sides_are_right, statuses_are_right};
use crate::model::book::{queue_view, BookView, OrderBook};
use crate::model::domain::{
    executions, ids_generated, Fill, FillView, OrderSingle, OrderView,
};
use std::collections::VecDeque;
use vstd::prelude::*;

verus! {

/// The map that `entries` stand for: a later entry for an identifier replaces
/// an earlier one.
pub open spec fn entries_map(entries: Seq<(Seq<char>, nat)>) -> Map<Seq<char>, nat>
    decreases entries.len(),
{
    if entries.len() == 0 {
        Map::empty()
    } else {
        entries_map(entries.drop_last()).insert(entries.last().0, entries.last().1)
    }
}

/// The scoreboard of a queue before anything is executed: zero for the
/// identifier of each of its orders.
pub open spec fn zero_scoreboard(orders: Seq<OrderView>) -> Map<Seq<char>, nat> {
    Map::new(
        |id: Seq<char>|
            exists|i: int| 0 <= i < orders.len() && (#[trigger] orders[i]).cl_ord_id == id,
        |id: Seq<char>| 0nat,
    )
}

/// Whether `i` is the place of the last entry of `entries` for `id`.
pub open spec fn is_last_entry(entries: Seq<(Seq<char>, nat)>, id: Seq<char>, i: int) -> bool {
    &&& 0 <= i < entries.len()
    &&& entries[i].0 == id
    &&& forall|j: int| i < j < entries.len() ==> (#[trigger] entries[j]).0 != id
}

/// The map of a list of entries has an identifier exactly when the list has
/// an entry for it, and gives it the quantity of the last such entry.
pub proof fn lemma_entries_map(entries: Seq<(Seq<char>, nat)>, id: Seq<char>)
    ensures
        entries_map(entries).contains_key(id) <==> exists|j: int|
            0 <= j < entries.len() && (#[trigger] entries[j]).0 == id,
        forall|i: int|
            is_last_entry(entries, id, i) ==> entries_map(entries)[id] == (#[trigger] entries[i]).1,
    decreases entries.len(),
{
    if entries.len() > 0 {
        let before = entries.drop_last();
        let last = entries.last();
        lemma_entries_map(before, id);
        if entries_map(entries).contains_key(id) {
            if last.0 == id {
                assert(entries[entries.len() - 1].0 == id);
            } else {
                let j = choose|j: int| 0 <= j < before.len() && (#[trigger] before[j]).0 == id;
                assert(entries[j].0 == id);
            }
        }
        if exists|j: int| 0 <= j < entries.len() && (#[trigger] entries[j]).0 == id {
            let j = choose|j: int| 0 <= j < entries.len() && (#[trigger] entries[j]).0 == id;
            if j < before.len() {
                assert(before[j].0 == id);
            }
        }
        assert forall|i: int| is_last_entry(entries, id, i) implies entries_map(entries)[id] == (
        #[trigger] entries[i]).1 by {
            if i < before.len() {
                assert(last.0 != id);
                assert(is_last_entry(before, id, i)) by {
                    assert forall|j: int| i < j < before.len() implies (#[trigger] before[j]).0
                        != id by {
                        assert(entries[j].0 != id);
                    }
                }
                assert(before[i] == entries[i]);
            }
        }
    }
}

/// Writing a new quantity into the last entry for an identifier sets the
/// quantity of the identifier in the map.
pub proof fn lemma_entries_map_update(entries: Seq<(Seq<char>, nat)>, i: int, qty: nat)
    requires
        is_last_entry(entries, entries[i].0, i),
    ensures
        entries_map(entries.update(i, (entries[i].0, qty))) == entries_map(entries).insert(
            entries[i].0,
            qty,
        ),
    decreases entries.len(),
{
    let id = entries[i].0;
    let after = entries.update(i, (id, qty));
    let before = entries.drop_last();
    if i == entries.len() - 1 {
        assert(after.drop_last() =~= before);
        assert(entries_map(after) =~= entries_map(entries).insert(id, qty));
    } else {
        assert(after.drop_last() =~= before.update(i, (id, qty)));
        assert(before[i] == entries[i]);
        assert(is_last_entry(before, id, i)) by {
            assert forall|j: int| i < j < before.len() implies (#[trigger] before[j]).0 != id by {
                assert(entries[j].0 != id);
            }
        }
        lemma_entries_map_update(before, i, qty);
        assert(entries.last().0 != id);
        assert(entries_map(after) =~= entries_map(entries).insert(id, qty));
    }
}

/// One entry of a scoreboard.
#[derive(Debug)]
struct Entry {
    id: String,
    qty: u32,
}

/// A scoreboard: for the identifier of an order, the quantity executed of it
/// so far in one match cycle.
#[derive(Debug)]
pub struct CumQtyMap {
    entries: Vec<Entry>,
}

impl CumQtyMap {
    /// The entries of the scoreboard, as contracts see them.
    closed spec fn pairs(&self) -> Seq<(Seq<char>, nat)> {
        self.entries@.map_values(|entry: Entry| (entry.id@, entry.qty as nat))
    }
}

impl View for CumQtyMap {
    type V = Map<Seq<char>, nat>;

    closed spec fn view(&self) -> Map<Seq<char>, nat> {
        entries_map(self.pairs())
    }
}

impl CumQtyMap {
    /// An empty scoreboard.
    pub fn new() -> (map: Self)
        ensures
            map@ == Map::<Seq<char>, nat>::empty(),
    {
        CumQtyMap { entries: Vec::new() }
    }

    /// The place of the last entry for `id`.
    fn find(&self, id: &String) -> (found: Option<usize>)
        ensures
            found is Some ==> is_last_entry(self.pairs(), id@, found->0 as int),
            found is None ==> forall|j: int|
                0 <= j < self.pairs().len() ==> (#[trigger] self.pairs()[j]).0 != id@,
    {
        let mut i: usize = self.entries.len();
        while i > 0
            invariant
                i <= self.entries.len(),
                forall|j: int|
                    i <= j < self.pairs().len() ==> (#[trigger] self.pairs()[j]).0 != id@,
            decreases i,
        {
            i -= 1;
            if self.entries[i].id == *id {
                assert(self.pairs()[i as int].0 == id@);
                return Some(i);
            }
        }
        None
    }

    /// Sets the quantity executed of the order `id`.
    pub fn insert(&mut self, id: String, qty: u32)
        ensures
            final(self)@ == old(self)@.insert(id@, qty as nat),
    {
        match self.find(&id) {
            Some(i) => {
                proof {
                    lemma_entries_map_update(self.pairs(), i as int, qty as nat);
                }
                self.entries[i].qty = qty;
                assert(self.pairs() =~= old(self).pairs().update(i as int, (id@, qty as nat)));
            },
            None => {
                self.entries.push(Entry { id, qty });
                assert(self.pairs().drop_last() =~= old(self).pairs());
            },
        }
    }

    /// The quantity executed of the order `id`, where the scoreboard has it.
    pub fn get(&self, id: &String) -> (found: Option<u32>)
        ensures
            found is Some <==> self@.contains_key(id@),
            found is Some ==> self@[id@] == found->0 as nat,
    {
        proof {
            lemma_entries_map(self.pairs(), id@);
        }
        match self.find(id) {
            Some(i) => Some(self.entries[i].qty),
            None => None,
        }
    }

    pub fn contains_key(&self, id: &String) -> (found: bool)
        ensures
            found == self@.contains_key(id@),
    {
        self.get(id).is_some()
    }
}

/// Returns the scoreboard with which a match of `orders` starts. When
/// traversing several orders to generate a fill, this map keeps track of the
/// quantity filled until now.
pub fn create_cum_qty_map(orders: &VecDeque<OrderSingle>) -> (map: CumQtyMap)
    ensures
        map@ == zero_scoreboard(queue_view(orders@)),
{
    let mut map = CumQtyMap::new();
    let mut i: usize = 0;
    assert(map@ =~= zero_scoreboard(queue_view(orders@).take(0)));
    while i < orders.len()
        invariant
            i <= orders.len(),
            map@ == zero_scoreboard(queue_view(orders@).take(i as int)),
        decreases orders.len() - i,
    {
        let ghost before = queue_view(orders@).take(i as int);
        let ghost after = queue_view(orders@).take(i + 1);
        map.insert(orders[i].cl_ord_id().clone(), 0);
        proof {
            assert forall|id: Seq<char>| #[trigger]
                map@.contains_key(id) <==> zero_scoreboard(after).contains_key(id) by {
                if zero_scoreboard(before).contains_key(id) {
                    let k = choose|k: int|
                        0 <= k < before.len() && (#[trigger] before[k]).cl_ord_id == id;
                    assert(after[k].cl_ord_id == id);
                }
                if zero_scoreboard(after).contains_key(id) {
                    let k = choose|k: int|
                        0 <= k < after.len() && (#[trigger] after[k]).cl_ord_id == id;
                    if k < i {
                        assert(before[k].cl_ord_id == id);
                    }
                }
                if id == orders@[i as int]@.cl_ord_id {
                    assert(after[i as int].cl_ord_id == id);
                }
            }
            assert(map@ =~= zero_scoreboard(after));
        }
        i += 1;
    }
    assert(queue_view(orders@).take(i as int) =~= queue_view(orders@));
    map
}

/// A matcher turns the crossing orders of a book into fills. It keeps no
/// state from one match to the next.
pub trait Matcher {
    /// The reports of a match of `book`, without their generated identifiers.
    spec fn fills_of(&self, book: BookView) -> Seq<FillView>;

    /// The book that a match of `book` leaves.
    spec fn book_after(&self, book: BookView) -> BookView;

    /// Matches the given order book and returns the list of fills: a client
    /// fill and, after it, the exchange fill of the same execution, each under
    /// two generated identifiers. The book keeps what was not executed.
    fn match_order_book(&mut self, order_book: &mut OrderBook) -> (fills: Vec<Fill>)
        requires
            old(order_book).wf(),
        ensures
            executions(fills@) == old(self).fills_of(old(order_book)@),
            final(order_book)@ == old(self).book_after(old(order_book)@),
            final(order_book).wf(),
            in_pairs(executions(fills@)),
            statuses_are_right(executions(fills@)),
            sides_are_right(executions(fills@)),
            ids_generated(fills@),
    ;

    /// When traversing multiple orders to generate a fill, this map helps
    /// keep track of the quantity filled until now.
    fn create_cum_qty_map(&self, orders: &VecDeque<OrderSingle>) -> (map: CumQtyMap)
        ensures
            map@ == zero_scoreboard(queue_view(orders@)),
    {
        create_cum_qty_map(orders)
    }
}

/// One of the two matchers.
#[derive(Debug)]
pub enum AnyMatcher {
    Fifo(FIFOMatcher),
    ProRata(ProrataMatcher),
}

impl AnyMatcher {
    /// The reports of a match of `book` by this matcher, without their
    /// generated identifiers.
    pub open spec fn fills_of(&self, book: BookView) -> Seq<FillView> {
        match self {
            AnyMatcher::Fifo(_) => fifo_fills(book.buy, book.sell),
            AnyMatcher::ProRata(_) => prorata_fills(book.buy, book.sell),
        }
    }

    /// The book that a match of `book` by this matcher leaves.
    pub open spec fn book_after(&self, book: BookView) -> BookView {
        match self {
            AnyMatcher::Fifo(_) => fifo_book(book),
            AnyMatcher::ProRata(_) => prorata_book(book),
        }
    }

    /// Matches the given order book with the matcher that was chosen.
    pub fn match_order_book(&mut self, order_book: &mut OrderBook) -> (fills: Vec<Fill>)
        requires
            old(order_book).wf(),
        ensures
            executions(fills@) == old(self).fills_of(old(order_book)@),
            final(order_book)@ == old(self).book_after(old(order_book)@),
            final(order_book).wf(),
            in_pairs(executions(fills@)),
            statuses_are_right(executions(fills@)),
            sides_are_right(executions(fills@)),
            ids_generated(fills@),
    {
        match self {
            AnyMatcher::Fifo(matcher) => matcher.match_order_book(order_book),
            AnyMatcher::ProRata(matcher) => matcher.match_order_book(order_book),
        }
    }
}

/// Whether `algo` is the tag of the pro-rata matcher.
pub open spec fn is_prorata_tag(algo: Seq<char>) -> bool {
    algo == "PRO"@
}

/// Returns the matcher that the tag `algo` names: the pro-rata matcher for
/// `PRO`, the first-in-first-out matcher for `FIFO` and for any other tag.
pub fn get_matcher(algo: &String) -> (matcher: AnyMatcher)
    ensures
        is_prorata_tag(algo@) ==> matcher is ProRata,
        !is_prorata_tag(algo@) ==> matcher is Fifo,
{
    let pro = "PRO".to_owned();
    if *algo == pro {
        AnyMatcher::ProRata(ProrataMatcher::new())
    } else {
        AnyMatcher::Fifo(FIFOMatcher::new())
    }
}

} // verus!
