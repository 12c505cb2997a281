use vstd::prelude::*;
use vstd::string::StringExecFns;

use crate::dynamic_array::DynamicArray;
use crate::order::Order;
use crate::order::order_text;
use crate::text::decimal;
use crate::text::decimal_string;

verus! {

/// Whether some order in `s` carries the id.
pub open spec fn has_order(s: Seq<Order>, id: nat) -> bool {
    exists|k: int| 0 <= k < s.len() && s[k].spec_id() == id
}

/// Whether the ids never decrease from left to right.
pub open spec fn sorted_by_id(s: Seq<Order>) -> bool {
    forall|i: int, j: int| 0 <= i < j < s.len() ==> s[i].spec_id() <= s[j].spec_id()
}

/// Appending an order whose id is at least every id already present -
/// as happens when ids come from one generator, which only counts up -
/// keeps the store sorted.
pub proof fn lemma_sorted_push(s: Seq<Order>, o: Order)
    requires
        sorted_by_id(s),
        forall|k: int| 0 <= k < s.len() ==> s[k].spec_id() <= o.spec_id(),
    ensures
        sorted_by_id(s.push(o)),
{
}

/// Removing any order keeps a sorted store sorted.
pub proof fn lemma_sorted_remove(s: Seq<Order>, i: int)
    requires
        sorted_by_id(s),
        0 <= i < s.len(),
    ensures
        sorted_by_id(s.remove(i)),
{
    assert forall|a: int, b: int|
        0 <= a < b < s.remove(i).len() implies s.remove(i)[a].spec_id()
        <= s.remove(i)[b].spec_id() by {
        if a < i && b < i {
            assert(s.remove(i)[a] == s[a] && s.remove(i)[b] == s[b]);
        } else if a < i {
            assert(s.remove(i)[a] == s[a] && s.remove(i)[b] == s[b + 1]);
        } else {
            assert(s.remove(i)[a] == s[a + 1] && s.remove(i)[b] == s[b + 1]);
        }
    }
}

/// With all ids distinct - the invariant one id generator guarantees -
/// a sorted rearrangement of a store is unique.  `sort_orders` promises
/// a sorted rearrangement, so under distinct ids its result is fully
/// determined and questions of stability do not arise.
pub proof fn lemma_sorted_rearrangement_unique(s1: Seq<Order>, s2: Seq<Order>)
    requires
        s1.to_multiset() == s2.to_multiset(),
        sorted_by_id(s1),
        sorted_by_id(s2),
        forall|a: int, b: int| 0 <= a < b < s1.len() ==> s1[a].spec_id() != s1[b].spec_id(),
    ensures
        s1 == s2,
    decreases s1.len(),
{
    broadcast use vstd::seq_lib::group_to_multiset_ensures;

    s1.to_multiset_ensures();
    s2.to_multiset_ensures();
    assert(s1.len() == s2.len());
    if s1.len() == 0 {
        assert(s1 =~= s2);
    } else {
        let x = s1.last();
        let y = s2.last();
        assert(s2.contains(y)) by {
            assert(s2[s2.len() - 1] == y);
        }
        assert(s1.to_multiset().count(y) > 0);
        assert(s1.contains(y));
        let k = choose|k: int| 0 <= k < s1.len() && s1[k] == y;
        assert(s1.contains(x)) by {
            assert(s1[s1.len() - 1] == x);
        }
        assert(s2.to_multiset().count(x) > 0);
        assert(s2.contains(x));
        let j = choose|j: int| 0 <= j < s2.len() && s2[j] == x;
        assert(y.spec_id() <= x.spec_id()) by {
            if k < s1.len() - 1 {
                assert(s1[k].spec_id() <= s1[s1.len() - 1].spec_id());
            }
        }
        assert(x.spec_id() <= y.spec_id()) by {
            if j < s2.len() - 1 {
                assert(s2[j].spec_id() <= s2[s2.len() - 1].spec_id());
            }
        }
        assert(k == s1.len() - 1);
        assert(y == x);
        let p1 = s1.drop_last();
        let p2 = s2.drop_last();
        assert(s1.remove(s1.len() - 1) =~= p1);
        assert(s2.remove(s2.len() - 1) =~= p2);
        assert(s1.remove(s1.len() - 1).to_multiset() == s1.to_multiset().remove(x));
        assert(s2.remove(s2.len() - 1).to_multiset() == s2.to_multiset().remove(y));
        assert(p1.to_multiset() == p2.to_multiset());
        assert(forall|i: int| 0 <= i < p1.len() ==> p1[i] == s1[i]);
        assert(forall|i: int| 0 <= i < p2.len() ==> p2[i] == s2[i]);
        assert(sorted_by_id(p1));
        assert(sorted_by_id(p2));
        lemma_sorted_rearrangement_unique(p1, p2);
        assert(s1 =~= s2);
    }
}

/// The id lines of the ready orders of `s`, in sequence order: each id
/// rendered in decimal on its own line.
pub open spec fn ready_lines(s: Seq<Order>) -> Seq<char>
    decreases s.len(),
{
    if s.len() == 0 {
        Seq::empty()
    } else {
        ready_lines(s.drop_last()) + (if s.last().spec_ready() {
            decimal(s.last().spec_id()) + "\n"@
        } else {
            Seq::empty()
        })
    }
}

/// The id lines of the not-yet-ready orders of `s`, in sequence order.
pub open spec fn pending_lines(s: Seq<Order>) -> Seq<char>
    decreases s.len(),
{
    if s.len() == 0 {
        Seq::empty()
    } else {
        pending_lines(s.drop_last()) + (if !s.last().spec_ready() {
            decimal(s.last().spec_id()) + "\n"@
        } else {
            Seq::empty()
        })
    }
}

/// The two-section rendering of a store: the READY header with the
/// ready ids, then the PENDING header with the pending ids.
pub open spec fn sections_text(s: Seq<Order>) -> Seq<char> {
    "READY\n"@ + ready_lines(s) + "PENDING\n"@ + pending_lines(s)
}

/// The ids of the ready orders of `s`, in sequence order.
pub open spec fn ready_ids(s: Seq<Order>) -> Seq<nat>
    decreases s.len(),
{
    if s.len() == 0 {
        Seq::empty()
    } else {
        ready_ids(s.drop_last()) + (if s.last().spec_ready() {
            seq![s.last().spec_id()]
        } else {
            Seq::empty()
        })
    }
}

/// The ids of the not-yet-ready orders of `s`, in sequence order.
pub open spec fn pending_ids(s: Seq<Order>) -> Seq<nat>
    decreases s.len(),
{
    if s.len() == 0 {
        Seq::empty()
    } else {
        pending_ids(s.drop_last()) + (if !s.last().spec_ready() {
            seq![s.last().spec_id()]
        } else {
            Seq::empty()
        })
    }
}

/// One id per line, each rendered in decimal.
pub open spec fn id_lines(ids: Seq<nat>) -> Seq<char>
    decreases ids.len(),
{
    if ids.len() == 0 {
        Seq::empty()
    } else {
        id_lines(ids.drop_last()) + decimal(ids.last()) + "\n"@
    }
}

/// Whether the ids never decrease from left to right.
pub open spec fn ascending(ids: Seq<nat>) -> bool {
    forall|i: int, j: int| 0 <= i < j < ids.len() ==> ids[i] <= ids[j]
}

/// Every id a section of `s` lists is at most `bound` when every order
/// of `s` has an id of at most `bound`.
proof fn lemma_section_ids_le(s: Seq<Order>, bound: nat)
    requires
        forall|i: int| 0 <= i < s.len() ==> s[i].spec_id() <= bound,
    ensures
        forall|k: int| 0 <= k < ready_ids(s).len() ==> ready_ids(s)[k] <= bound,
        forall|k: int| 0 <= k < pending_ids(s).len() ==> pending_ids(s)[k] <= bound,
    decreases s.len(),
{
    if s.len() > 0 {
        let p = s.drop_last();
        assert(forall|i: int| 0 <= i < p.len() ==> p[i] == s[i]);
        lemma_section_ids_le(p, bound);
        assert forall|k: int| 0 <= k < ready_ids(s).len() implies ready_ids(s)[k] <= bound by {
            if k >= ready_ids(p).len() {
                assert(ready_ids(s)[k] == s.last().spec_id());
            }
        }
        assert forall|k: int| 0 <= k < pending_ids(s).len() implies pending_ids(s)[k] <= bound by {
            if k >= pending_ids(p).len() {
                assert(pending_ids(s)[k] == s.last().spec_id());
            }
        }
    }
}

/// In a store sorted ascending by id, the ids of the ready orders,
/// taken in sequence order - exactly as the READY section lists them -
/// are themselves ascending, and likewise the ids of the pending
/// orders.
pub proof fn lemma_sections_ascending(s: Seq<Order>)
    requires
        sorted_by_id(s),
    ensures
        ascending(ready_ids(s)),
        ascending(pending_ids(s)),
    decreases s.len(),
{
    if s.len() > 0 {
        let p = s.drop_last();
        assert(forall|i: int| 0 <= i < p.len() ==> p[i] == s[i]);
        assert(sorted_by_id(p));
        lemma_sections_ascending(p);
        lemma_section_ids_le(p, s.last().spec_id());
    }
}

/// The lines of each section are exactly the decimal renderings, one
/// per line, of that section's ids.
pub proof fn lemma_section_lines(s: Seq<Order>)
    ensures
        ready_lines(s) == id_lines(ready_ids(s)),
        pending_lines(s) == id_lines(pending_ids(s)),
    decreases s.len(),
{
    if s.len() > 0 {
        let p = s.drop_last();
        lemma_section_lines(p);
        if s.last().spec_ready() {
            assert((ready_ids(p) + seq![s.last().spec_id()]).drop_last() =~= ready_ids(p));
            assert(ready_lines(s) =~= id_lines(ready_ids(s)));
            assert(pending_ids(p) + Seq::<nat>::empty() =~= pending_ids(p));
            assert(pending_lines(s) =~= id_lines(pending_ids(s)));
        } else {
            assert((pending_ids(p) + seq![s.last().spec_id()]).drop_last() =~= pending_ids(p));
            assert(pending_lines(s) =~= id_lines(pending_ids(s)));
            assert(ready_ids(p) + Seq::<nat>::empty() =~= ready_ids(p));
            assert(ready_lines(s) =~= id_lines(ready_ids(s)));
        }
    }
}

/// The set of currently active orders.  Orders sit in creation order
/// until sorted; id-keyed operations find an order by linear scan.
pub struct OrderList {
    orders: DynamicArray<Order>,
}

impl View for OrderList {
    type V = Seq<Order>;

    closed spec fn view(&self) -> Seq<Order> {
        self.orders@
    }
}

impl OrderList {
    /// The backing array never holds more orders than its capacity.
    pub closed spec fn wf(&self) -> bool {
        self.orders.wf()
    }

    /// An empty store; nothing is allocated yet.
    pub fn new() -> (r: OrderList)
        ensures
            r@ == Seq::<Order>::empty(),
            r.wf(),
    {
        OrderList { orders: DynamicArray::new() }
    }

    /// The number of orders currently in the store.
    pub fn len(&self) -> (n: usize)
        ensures
            n == self@.len(),
    {
        self.orders.len()
    }

    /// Appends `order` to the store, growing the backing array as the
    /// growth policy dictates.
    pub fn add_order(&mut self, order: Order)
        requires
            old(self).wf(),
            old(self)@.len() <= usize::MAX / 2,
        ensures
            final(self).wf(),
            final(self)@ == old(self)@.push(order),
    {
        self.orders.append(order);
    }

    /// Bounds-checked read access to the order at `index`.
    pub fn get(&self, index: usize) -> (r: Option<&Order>)
        ensures
            index < self@.len() ==> (r matches Some(o) && *o == self@[index as int]),
            index >= self@.len() ==> r is None,
    {
        self.orders.get(index)
    }

    /// Bounds-checked write access to the order at `index`.
    pub fn get_mut(&mut self, index: usize) -> (r: Option<&mut Order>)
        requires
            old(self).wf(),
        ensures
            final(self).wf(),
            index >= old(self)@.len() ==> r is None && final(self)@ == old(self)@,
            index < old(self)@.len() ==> (r matches Some(o) && *o == old(self)@[index as int]
                && final(self)@ == old(self)@.update(index as int, *final(o))),
    {
        self.orders.get_mut(index)
    }

    /// The index of the first order with the id, or nothing when no
    /// order carries it.
    pub fn get_index_from_order_id(&self, id: usize) -> (r: Option<usize>)
        ensures
            r is Some <==> has_order(self@, id as nat),
            r matches Some(i) ==> i < self@.len() && self@[i as int].spec_id() == id as nat && (
            forall|k: int| 0 <= k < i ==> self@[k].spec_id() != id as nat),
    {
        let n: usize = self.orders.len();
        let mut i: usize = 0;
        while i < n
            invariant
                n == self@.len(),
                i <= n,
                forall|k: int| 0 <= k < i ==> self@[k].spec_id() != id as nat,
            decreases n - i,
        {
            let order: &Order = self.orders.get(i).unwrap();
            if order.get_id() == id {
                return Some(i);
            }
            i = i + 1;
        }
        None
    }

    /// Removes the first order with the id and hands it to the caller,
    /// shifting the orders behind it down by one; when no order carries
    /// the id, nothing is returned and the store is untouched.
    pub fn remove_order(&mut self, order_id: usize) -> (removed: Option<Order>)
        requires
            old(self).wf(),
        ensures
            final(self).wf(),
            !has_order(old(self)@, order_id as nat) ==> removed is None && final(self)@ == old(
                self,
            )@,
            has_order(old(self)@, order_id as nat) ==> (exists|i: int|
                0 <= i < old(self)@.len() && old(self)@[i].spec_id() == order_id as nat && (
                forall|k: int| 0 <= k < i ==> old(self)@[k].spec_id() != order_id as nat)
                    && removed == Some(old(self)@[i]) && final(self)@ == old(self)@.remove(i)),
    {
        let index: usize = match self.get_index_from_order_id(order_id) {
            Some(i) => i,
            None => {
                return None;
            },
        };
        self.orders.remove_at(index)
    }

    /// Marks the first order with the id ready, whatever its prior
    /// state, and reports whether one was found; when no order carries
    /// the id, nothing is changed.
    pub fn ready_order(&mut self, order_id: usize) -> (found: bool)
        requires
            old(self).wf(),
        ensures
            final(self).wf(),
            found == has_order(old(self)@, order_id as nat),
            !found ==> final(self)@ == old(self)@,
            found ==> (exists|i: int|
                0 <= i < old(self)@.len()
                && old(self)@[i].spec_id() == order_id as nat
                && (forall|k: int| 0 <= k < i ==> old(self)@[k].spec_id() != order_id as nat)
                && final(self)@.len() == old(self)@.len()
                && final(self)@[i].spec_id() == old(self)@[i].spec_id()
                && final(self)@[i].spec_ready()
                && final(self)@[i].items_view() == old(self)@[i].items_view()
                && (forall|k: int|
                    0 <= k < old(self)@.len() && k != i ==> final(self)@[k] == old(self)@[k])),
    {
        let index: usize = match self.get_index_from_order_id(order_id) {
            Some(i) => i,
            None => {
                return false;
            },
        };
        match self.orders.get_mut(index) {
            Some(order) => {
                order.set_ready();
                true
            },
            None => false,
        }
    }

    /// Renders the first order with the id, or nothing when no order
    /// carries it.  Read-only.
    pub fn print_order(&self, order_id: usize) -> (r: Option<String>)
        ensures
            r is Some <==> has_order(self@, order_id as nat),
            r matches Some(text) ==> (exists|i: int|
                0 <= i < self@.len() && self@[i].spec_id() == order_id as nat && (forall|k: int|
                    0 <= k < i ==> self@[k].spec_id() != order_id as nat) && text@ == order_text(
                    self@[i].spec_id(),
                    self@[i].spec_ready(),
                    self@[i].items_view(),
                )),
    {
        let index: usize = match self.get_index_from_order_id(order_id) {
            Some(i) => i,
            None => {
                return None;
            },
        };
        match self.orders.get(index) {
            Some(order) => Some(order.to_string()),
            None => None,
        }
    }

    /// Sorts the store ascending by id, in place, by repeated passes of
    /// adjacent compare-and-swap; the orders afterward are exactly the
    /// orders before, rearranged.
    pub fn sort_orders(&mut self)
        requires
            old(self).wf(),
        ensures
            final(self).wf(),
            final(self)@.len() == old(self)@.len(),
            final(self)@.to_multiset() == old(self)@.to_multiset(),
            sorted_by_id(final(self)@),
            sorted_by_id(old(self)@) ==> final(self)@ == old(self)@,
    {
        let n: usize = self.orders.len();
        if n == 0 {
            return ;
        }
        let ghost orig = self.orders@;
        let mut pass: usize = 0;
        while pass < n
            invariant
                self.wf(),
                n == self@.len(),
                1 <= n,
                pass <= n,
                self@.to_multiset() == orig.to_multiset(),
                sorted_by_id(orig) ==> self@ == orig,
                forall|a: int, b: int|
                    0 <= a < b < n && n - pass <= b ==> self@[a].spec_id() <= self@[b].spec_id(),
            decreases n - pass,
        {
            let mut j: usize = 0;
            while j < n - 1 - pass
                invariant
                    self.wf(),
                    n == self@.len(),
                    1 <= n,
                    pass < n,
                    j <= n - 1 - pass,
                    self@.to_multiset() == orig.to_multiset(),
                    sorted_by_id(orig) ==> self@ == orig,
                    forall|a: int, b: int|
                        0 <= a < b < n && n - pass <= b ==> self@[a].spec_id()
                            <= self@[b].spec_id(),
                    forall|a: int| 0 <= a < j ==> self@[a].spec_id() <= self@[j as int].spec_id(),
                decreases n - 1 - pass - j,
            {
                let id_here: usize = self.orders.get(j).unwrap().get_id();
                let id_next: usize = self.orders.get(j + 1).unwrap().get_id();
                if id_here > id_next {
                    let ghost before = self.orders@;
                    self.orders.swap(j, j + 1);
                    proof {
                        broadcast use vstd::seq_lib::to_multiset_update;
                        broadcast use vstd::seq_lib::group_to_multiset_ensures;

                        let u1 = before.update(j as int, before[j as int + 1]);
                        let u2 = u1.update(j as int + 1, before[j as int]);
                        assert(self.orders@ == u2);
                        assert(u1.to_multiset() == before.to_multiset().insert(
                            before[j as int + 1],
                        ).remove(before[j as int]));
                        assert(u2.to_multiset() == u1.to_multiset().insert(before[j as int]).remove(
                            u1[j as int + 1],
                        ));
                        assert(before.to_multiset().count(before[j as int]) > 0);
                        assert(self.orders@.to_multiset() =~= before.to_multiset());
                    }
                }
                j = j + 1;
            }
            pass = pass + 1;
        }
    }

    /// Sorts the store ascending by id, then renders the READY section
    /// with the ids of the ready orders and the PENDING section with the
    /// ids of the rest, each id on its own line, both sections ascending
    /// by id.
    pub fn print_orders(&mut self) -> (r: String)
        requires
            old(self).wf(),
        ensures
            final(self).wf(),
            final(self)@.len() == old(self)@.len(),
            final(self)@.to_multiset() == old(self)@.to_multiset(),
            sorted_by_id(final(self)@),
            sorted_by_id(old(self)@) ==> final(self)@ == old(self)@,
            r@ == sections_text(final(self)@),
    {
        self.sort_orders();
        let ghost snap = self@;
        let mut ready: String = String::from_str("READY\n");
        let mut pending: String = String::from_str("PENDING\n");
        let n: usize = self.orders.len();
        let mut i: usize = 0;
        while i < n
            invariant
                self@ == snap,
                n == self@.len(),
                i <= n,
                ready@ == "READY\n"@ + ready_lines(snap.take(i as int)),
                pending@ == "PENDING\n"@ + pending_lines(snap.take(i as int)),
            decreases n - i,
        {
            let order: &Order = self.orders.get(i).unwrap();
            let id_str: String = decimal_string(order.get_id());
            if order.is_ready() {
                ready.append(id_str.as_str());
                ready.append("\n");
            } else {
                pending.append(id_str.as_str());
                pending.append("\n");
            }
            proof {
                assert(snap.take(i as int + 1).drop_last() =~= snap.take(i as int));
                assert(snap.take(i as int + 1).last() == snap[i as int]);
                assert(ready@ =~= "READY\n"@ + ready_lines(snap.take(i as int + 1)));
                assert(pending@ =~= "PENDING\n"@ + pending_lines(snap.take(i as int + 1)));
            }
            i = i + 1;
        }
        proof {
            assert(snap.take(n as int) =~= snap);
        }
        let r: String = ready.concat(pending.as_str());
        proof {
            assert(r@ =~= sections_text(snap));
        }
        r
    }
}

} // verus!
