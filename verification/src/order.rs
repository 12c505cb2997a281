use vstd::prelude::*;
use vstd::string::StringExecFns;

use crate::dynamic_array::DynamicArray;
use crate::text::decimal;
use crate::text::decimal_string;

verus! {

/// Hands out process-unique order ids: the counter starts at 1 and only
/// ever increments, so an id is never reused, even after the order it
/// named is removed.
pub struct IdGen {
    next: usize,
}

impl IdGen {
    /// The id the next call of `fresh` will hand out.
    pub closed spec fn spec_next(&self) -> nat {
        self.next as nat
    }

    /// A fresh generator; the first id handed out is 1.
    pub fn new() -> (g: IdGen)
        ensures
            g.spec_next() == 1,
    {
        IdGen { next: 1 }
    }

    /// The id the next call of `fresh` will hand out, without advancing
    /// the counter.
    pub fn next_id(&self) -> (id: usize)
        ensures
            id as nat == self.spec_next(),
    {
        self.next
    }

    /// Returns the current counter value as a fresh id and advances the
    /// counter past it.
    pub fn fresh(&mut self) -> (id: usize)
        requires
            old(self).spec_next() < usize::MAX,
        ensures
            id as nat == old(self).spec_next(),
            final(self).spec_next() == old(self).spec_next() + 1,
    {
        let id: usize = self.next;
        self.next = self.next + 1;
        id
    }
}

/// Ids handed out by one generator are strictly increasing and never
/// repeat.  `fresh` returns the counter and advances past it, and no
/// operation ever lowers the counter, so an id returned by an earlier
/// call is strictly smaller than one returned by any later call;
/// removing orders in between changes nothing about this.
pub proof fn lemma_ids_strictly_increasing(
    earlier_id: nat,
    counter_after_earlier: nat,
    counter_at_later: nat,
    later_id: nat,
)
    requires
        earlier_id < counter_after_earlier,
        counter_after_earlier <= counter_at_later,
        later_id >= counter_at_later,
    ensures
        earlier_id < later_id,
        earlier_id != later_id,
{
}

/// The character sequences behind a sequence of strings.
pub open spec fn strings_view(items: Seq<String>) -> Seq<Seq<char>> {
    items.map_values(|s: String| s@)
}

/// How many times the item name `x` occurs in `items`.
pub open spec fn count_of(items: Seq<Seq<char>>, x: Seq<char>) -> nat
    decreases items.len(),
{
    if items.len() == 0 {
        0
    } else {
        count_of(items.drop_last(), x) + (if items.last() == x {
            1nat
        } else {
            0nat
        })
    }
}

/// The distinct item names of `items`, in order of first occurrence.
pub open spec fn distinct_items(items: Seq<Seq<char>>) -> Seq<Seq<char>>
    decreases items.len(),
{
    if items.len() == 0 {
        Seq::empty()
    } else {
        let rest = distinct_items(items.drop_last());
        if rest.contains(items.last()) {
            rest
        } else {
            rest.push(items.last())
        }
    }
}

/// Each name of `distinct`, paired with its occurrence count in `items`.
pub open spec fn paired_counts(distinct: Seq<Seq<char>>, items: Seq<Seq<char>>) -> Seq<
    (Seq<char>, nat),
> {
    distinct.map_values(|k: Seq<char>| (k, count_of(items, k)))
}

/// The tally of `items`: each distinct name, in order of first
/// occurrence, with the number of times it occurs.
pub open spec fn item_counts(items: Seq<Seq<char>>) -> Seq<(Seq<char>, nat)> {
    paired_counts(distinct_items(items), items)
}

/// The names and counts behind a vector of tally entries.
pub open spec fn counts_view(counts: Seq<(String, usize)>) -> Seq<(Seq<char>, nat)> {
    counts.map_values(|p: (String, usize)| (p.0@, p.1 as nat))
}

/// Appending one more name raises exactly its own count by one.
pub proof fn lemma_count_of_push(items: Seq<Seq<char>>, x: Seq<char>, k: Seq<char>)
    ensures
        count_of(items.push(x), k) == count_of(items, k) + (if x == k {
            1nat
        } else {
            0nat
        }),
{
    assert(items.push(x).drop_last() =~= items);
}

/// Appending one more name extends the distinct-name sequence exactly
/// when the name is new.
pub proof fn lemma_distinct_push(items: Seq<Seq<char>>, x: Seq<char>)
    ensures
        distinct_items(items.push(x)) == (if distinct_items(items).contains(x) {
            distinct_items(items)
        } else {
            distinct_items(items).push(x)
        }),
{
    assert(items.push(x).drop_last() =~= items);
}

/// Membership in a sequence extended by one element.
proof fn lemma_push_contains(s: Seq<Seq<char>>, x: Seq<char>, y: Seq<char>)
    ensures
        s.push(x).contains(y) <==> (s.contains(y) || x == y),
{
    if s.contains(y) {
        let i = choose|i: int| 0 <= i < s.len() && s[i] == y;
        assert(s.push(x)[i] == y);
    }
    if x == y {
        assert(s.push(x)[s.len() as int] == y);
    }
    if s.push(x).contains(y) {
        let i = choose|i: int| 0 <= i < s.push(x).len() && s.push(x)[i] == y;
        if i < s.len() {
            assert(s[i] == y);
        }
    }
}

/// The distinct-name sequence holds exactly the names that occur.
pub proof fn lemma_distinct_contains(items: Seq<Seq<char>>, x: Seq<char>)
    ensures
        distinct_items(items).contains(x) <==> items.contains(x),
    decreases items.len(),
{
    if items.len() > 0 {
        let prefix = items.drop_last();
        let last = items.last();
        lemma_distinct_contains(prefix, x);
        assert(items =~= prefix.push(last));
        lemma_push_contains(prefix, last, x);
        let rest = distinct_items(prefix);
        if !rest.contains(last) {
            assert(distinct_items(items) == rest.push(last));
            lemma_push_contains(rest, last, x);
        }
    }
}

/// Length of the name-and-count pairing.
pub proof fn lemma_paired_counts_len(distinct: Seq<Seq<char>>, items: Seq<Seq<char>>)
    ensures
        paired_counts(distinct, items).len() == distinct.len(),
{
}

/// Indexing into the name-and-count pairing.
pub proof fn lemma_paired_counts_index(distinct: Seq<Seq<char>>, items: Seq<Seq<char>>, k: int)
    requires
        0 <= k < distinct.len(),
    ensures
        paired_counts(distinct, items)[k] == (distinct[k], count_of(items, distinct[k])),
{
}

/// Length of the view of a tally vector.
pub proof fn lemma_counts_view_len(counts: Seq<(String, usize)>)
    ensures
        counts_view(counts).len() == counts.len(),
{
}

/// Indexing into the view of a tally vector.
pub proof fn lemma_counts_view_index(counts: Seq<(String, usize)>, k: int)
    requires
        0 <= k < counts.len(),
    ensures
        counts_view(counts)[k] == (counts[k].0@, counts[k].1 as nat),
{
}

/// One customer order: a process-unique id, a readiness flag, and the
/// list of item names it was created with, held in a `DynamicArray`
/// whose capacity is sized exactly to the number of items.
pub struct Order {
    id: usize,
    ready: bool,
    items: DynamicArray<String>,
}

impl Order {
    /// The order's immutable id.
    pub closed spec fn spec_id(&self) -> nat {
        self.id as nat
    }

    /// Whether the order has been marked ready.
    pub closed spec fn spec_ready(&self) -> bool {
        self.ready
    }

    /// The item names, as character sequences, in creation order.
    pub closed spec fn items_view(&self) -> Seq<Seq<char>> {
        strings_view(self.items@)
    }

    /// The item array never holds more elements than its capacity.
    pub closed spec fn wf(&self) -> bool {
        self.items.wf()
    }

    /// Creates an order with the next id from `gen`, not ready, holding a
    /// copy of each name in `items`.
    pub fn new(items: &[String], gen: &mut IdGen) -> (r: Order)
        requires
            old(gen).spec_next() < usize::MAX,
        ensures
            r.spec_id() == old(gen).spec_next(),
            final(gen).spec_next() == old(gen).spec_next() + 1,
            !r.spec_ready(),
            r.items_view() == strings_view(items@),
            r.wf(),
    {
        let id: usize = gen.fresh();
        let n: usize = items.len();
        let mut copied: Vec<String> = Vec::new();
        for i in 0..n
            invariant
                n == items@.len(),
                copied@ =~= items@.subrange(0, i as int),
        {
            copied.push(items[i].clone());
        }
        proof {
            assert(copied@ =~= items@);
        }
        Order { id, ready: false, items: DynamicArray::from_vec(copied) }
    }

    /// The immutable id.
    pub fn get_id(&self) -> (id: usize)
        ensures
            id as nat == self.spec_id(),
    {
        self.id
    }

    /// Whether the order has been marked ready.
    pub fn is_ready(&self) -> (b: bool)
        ensures
            b == self.spec_ready(),
    {
        self.ready
    }

    /// Marks the order ready; everything else is untouched.
    pub fn set_ready(&mut self)
        ensures
            final(self).spec_ready(),
            final(self).spec_id() == old(self).spec_id(),
            final(self).items_view() == old(self).items_view(),
            final(self).wf() == old(self).wf(),
    {
        self.ready = true;
    }

    /// The item names, for reading and in-place mutation.
    pub fn items_mut(&mut self) -> (r: &mut DynamicArray<String>)
        ensures
            strings_view((*r)@) == old(self).items_view(),
            r.wf() == old(self).wf(),
            final(self).items_view() == strings_view((*final(r))@),
            final(self).wf() == final(r).wf(),
            final(self).spec_id() == old(self).spec_id(),
            final(self).spec_ready() == old(self).spec_ready(),
    {
        &mut self.items
    }

    /// The item names, for reading.
    pub fn items(&self) -> (r: &DynamicArray<String>)
        ensures
            strings_view(r@) == self.items_view(),
            r.wf() == self.wf(),
    {
        &self.items
    }

    /// Tallies the item names: each distinct name, in order of first
    /// occurrence, with the number of times it occurs in this order.
    pub fn count_items(&self) -> (counts: Vec<(String, usize)>)
        ensures
            counts_view(counts@) == item_counts(self.items_view()),
    {
        let ghost iv = self.items_view();
        let n: usize = self.items.len();
        let mut counts: Vec<(String, usize)> = Vec::new();
        for i in 0..n
            invariant
                iv == self.items_view(),
                n == iv.len(),
                counts_view(counts@) == paired_counts(distinct_items(iv.take(i as int)), iv),
        {
            let item: &String = self.items.get(i).unwrap();
            proof {
                assert(item@ == iv[i as int]);
            }
            let mut seen: bool = false;
            let mut j: usize = 0;
            while j < counts.len()
                invariant
                    j <= counts@.len(),
                    seen <==> exists|k: int| 0 <= k < j && counts@[k].0@ == item@,
                decreases counts@.len() - j,
            {
                if counts[j].0.eq(item) {
                    seen = true;
                }
                j = j + 1;
            }
            let ghost d = distinct_items(iv.take(i as int));
            proof {
                lemma_counts_view_len(counts@);
                lemma_paired_counts_len(d, iv);
                assert(d.len() == counts@.len());
                assert forall|k: int| 0 <= k < counts@.len() implies counts@[k].0@ == d[k] by {
                    lemma_counts_view_index(counts@, k);
                    lemma_paired_counts_index(d, iv, k);
                }
                if seen {
                    let k = choose|k: int| 0 <= k < counts@.len() && counts@[k].0@ == item@;
                    assert(d[k] == item@);
                    assert(d.contains(item@));
                } else {
                    if d.contains(item@) {
                        let k = choose|k: int| 0 <= k < d.len() && d[k] == item@;
                        assert(counts@[k].0@ == item@);
                    }
                }
                assert(seen <==> d.contains(item@));
                assert(iv.take(i as int + 1) =~= iv.take(i as int).push(iv[i as int]));
                lemma_distinct_push(iv.take(i as int), iv[i as int]);
            }
            if !seen {
                let mut c: usize = 0;
                let mut j2: usize = 0;
                while j2 < n
                    invariant
                        iv == self.items_view(),
                        n == iv.len(),
                        j2 <= n,
                        c <= j2,
                        c as nat == count_of(iv.take(j2 as int), item@),
                        item@ == iv[i as int],
                        i < n,
                    decreases n - j2,
                {
                    let other: &String = self.items.get(j2).unwrap();
                    proof {
                        assert(other@ == iv[j2 as int]);
                        assert(iv.take(j2 as int + 1) =~= iv.take(j2 as int).push(iv[j2 as int]));
                        lemma_count_of_push(iv.take(j2 as int), iv[j2 as int], item@);
                    }
                    if other.eq(item) {
                        c = c + 1;
                    }
                    j2 = j2 + 1;
                }
                proof {
                    assert(iv.take(n as int) =~= iv);
                    assert(c as nat == count_of(iv, item@));
                }
                let ghost prev = counts@;
                let entry: (String, usize) = (item.clone(), c);
                let ghost v = entry;
                counts.push(entry);
                proof {
                    let dd = d.push(item@);
                    assert(counts@ == prev.push(v));
                    assert(v.0@ == item@);
                    lemma_counts_view_len(counts@);
                    lemma_paired_counts_len(dd, iv);
                    assert forall|k2: int|
                        0 <= k2 < counts@.len() implies counts_view(counts@)[k2] == paired_counts(
                        dd,
                        iv,
                    )[k2] by {
                        lemma_counts_view_index(counts@, k2);
                        lemma_paired_counts_index(dd, iv, k2);
                        if k2 < prev.len() {
                            lemma_counts_view_index(prev, k2);
                            lemma_paired_counts_index(d, iv, k2);
                            assert(counts_view(prev)[k2] == paired_counts(d, iv)[k2]);
                        } else {
                            assert(counts@[k2] == v);
                            assert(dd[k2] == item@);
                        }
                    }
                    assert(counts_view(counts@) =~= paired_counts(dd, iv));
                }
            }
        }
        proof {
            assert(iv.take(n as int) =~= iv);
        }
        counts
    }

    /// The rendered display text of the order.
    pub fn to_string(&self) -> (r: String)
        ensures
            r@ == order_text(self.spec_id(), self.spec_ready(), self.items_view()),
    {
        let mut s: String = String::from_str("Order number: ");
        let id_str: String = decimal_string(self.id);
        s.append(id_str.as_str());
        s.append("\n");
        if self.ready {
            s.append("Ready");
        } else {
            s.append("Not Ready");
        }
        s.append("\n");
        let ghost prefix = s@;
        proof {
            assert(prefix =~= "Order number: "@ + decimal(self.spec_id()) + "\n"@ + (if self.ready {
                "Ready"@
            } else {
                "Not Ready"@
            }) + "\n"@);
        }
        let counts: Vec<(String, usize)> = self.count_items();
        let ghost cv = item_counts(self.items_view());
        let m: usize = counts.len();
        for k in 0..m
            invariant
                m == counts@.len(),
                cv == counts_view(counts@),
                s@ == prefix + counts_text(cv.take(k as int)),
        {
            let count_str: String = decimal_string(counts[k].1);
            s.append(count_str.as_str());
            s.append(" ");
            s.append(counts[k].0.as_str());
            s.append("\n");
            proof {
                assert(cv.take(k as int + 1).drop_last() =~= cv.take(k as int));
                assert(cv.take(k as int + 1).last() == cv[k as int]);
                assert(cv[k as int] == (counts@[k as int].0@, counts@[k as int].1 as nat));
                assert(s@ =~= prefix + counts_text(cv.take(k as int + 1)));
            }
        }
        proof {
            assert(cv.take(m as int) =~= cv);
            assert(s@ =~= order_text(self.spec_id(), self.spec_ready(), self.items_view()));
        }
        s
    }
}

/// The rendered line for one tallied item: the count, a space, the
/// name, and a newline.
pub open spec fn count_line(name: Seq<char>, count: nat) -> Seq<char> {
    decimal(count) + " "@ + name + "\n"@
}

/// The rendered tally, one line per entry, in entry order.
pub open spec fn counts_text(pairs: Seq<(Seq<char>, nat)>) -> Seq<char>
    decreases pairs.len(),
{
    if pairs.len() == 0 {
        Seq::empty()
    } else {
        counts_text(pairs.drop_last()) + count_line(pairs.last().0, pairs.last().1)
    }
}

/// The full rendering of one order: a header line with the id, the
/// readiness line, then one line per distinct item with its count.
pub open spec fn order_text(id: nat, ready: bool, items: Seq<Seq<char>>) -> Seq<char> {
    "Order number: "@ + decimal(id) + "\n"@ + (if ready {
        "Ready"@
    } else {
        "Not Ready"@
    }) + "\n"@ + counts_text(item_counts(items))
}

} // verus!
