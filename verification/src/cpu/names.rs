//! The table of function names: each name once, at the place that stands
//! for it, and found again by bisection over the names in the order of
//! their text.

use vstd::prelude::*;
use crate::cpu::parse::{identifiers, interned, interned_path, texts};

verus! {

/// Whether text `a` stands before text `b`, from index `i` on: byte by
/// byte, a text before those that it begins.
pub open spec fn text_lt_from(a: Seq<u8>, b: Seq<u8>, i: int) -> bool
    decreases b.len() - i,
{
    if i >= b.len() {
        false
    } else if i >= a.len() {
        true
    } else if a[i] == b[i] {
        text_lt_from(a, b, i + 1)
    } else {
        a[i] < b[i]
    }
}

/// Whether text `a` stands before text `b`.
pub open spec fn text_lt(a: Seq<u8>, b: Seq<u8>) -> bool {
    text_lt_from(a, b, 0)
}

proof fn lemma_text_lt_apart(a: Seq<u8>, i: int)
    requires
        0 <= i,
    ensures
        !text_lt_from(a, a, i),
    decreases a.len() - i,
{
    if i < a.len() {
        lemma_text_lt_apart(a, i + 1);
    }
}

proof fn lemma_text_lt_chain(a: Seq<u8>, b: Seq<u8>, c: Seq<u8>, i: int)
    requires
        0 <= i,
        text_lt_from(a, b, i),
        text_lt_from(b, c, i),
    ensures
        text_lt_from(a, c, i),
    decreases c.len() - i,
{
    if i < a.len() && a[i] == b[i] && b[i] == c[i] {
        lemma_text_lt_chain(a, b, c, i + 1);
    }
}

/// How one text stands to another.
#[derive(Clone, Copy, Debug, PartialEq, Eq)]
pub enum Order {
    Before,
    Same,
    After,
}

/// How text `a` stands to text `b`.
pub fn text_order(a: &[u8], b: &[u8]) -> (r: Order)
    ensures
        r is Before <==> text_lt(a@, b@),
        r is Same <==> a@ == b@,
        r is After <==> text_lt(b@, a@),
{
    let mut i: usize = 0;
    while i < a.len() && i < b.len()
        invariant
            i <= a.len(),
            i <= b.len(),
            forall|k: int| 0 <= k < i ==> a@[k] == b@[k],
            text_lt(a@, b@) == text_lt_from(a@, b@, i as int),
            text_lt(b@, a@) == text_lt_from(b@, a@, i as int),
        decreases a.len() - i,
    {
        if a[i] < b[i] {
            return Order::Before;
        }
        if a[i] > b[i] {
            return Order::After;
        }
        i += 1;
    }
    if i < b.len() {
        Order::Before
    } else if i < a.len() {
        Order::After
    } else {
        assert(a@ =~= b@);
        Order::Same
    }
}

/// The table of function names.
#[derive(Clone, Debug, PartialEq, Eq)]
pub struct NameTable {
    /// The names, each at the place that stands for it.
    pub names: Vec<Vec<u8>>,
    /// The places of the names, in the order of the names' text.
    pub by_text: Vec<usize>,
}

impl View for NameTable {
    type V = Seq<Seq<u8>>;

    open spec fn view(&self) -> Seq<Seq<u8>> {
        texts(self.names@)
    }
}

impl NameTable {
    /// Whether `by_text` holds every place once, in the order of the names'
    /// text.
    pub open spec fn well_formed(&self) -> bool {
        &&& self.by_text.len() == self.names.len()
        &&& forall|a: int| 0 <= a < self.by_text.len() ==> (#[trigger] self.by_text[a]) < self.names.len()
        &&& forall|a: int, b: int|
            0 <= a < b < self.by_text.len() ==> text_lt(
                self@[(#[trigger] self.by_text[a]) as int],
                self@[(#[trigger] self.by_text[b]) as int],
            )
        &&& forall|i: usize| i < self.names.len() ==> #[trigger] self.by_text@.contains(i)
    }

    /// No name stands twice in a well-formed table.
    pub proof fn lemma_no_duplicates(&self)
        requires
            self.well_formed(),
        ensures
            self@.no_duplicates(),
    {
        assert forall|i: int, j: int| 0 <= i < self@.len() && 0 <= j < self@.len() && i != j implies self@[i]
            != self@[j] by {
            assert(self.by_text@.contains(i as usize));
            assert(self.by_text@.contains(j as usize));
            let a = choose|a: int| 0 <= a < self.by_text.len() && self.by_text[a] == i as usize;
            let b = choose|b: int| 0 <= b < self.by_text.len() && self.by_text[b] == j as usize;
            if a < b {
                assert(text_lt(self@[self.by_text[a] as int], self@[self.by_text[b] as int]));
            } else {
                assert(text_lt(self@[self.by_text[b] as int], self@[self.by_text[a] as int]));
            }
            lemma_text_lt_apart(self@[i], 0);
        }
    }

    /// The table without names.
    pub fn new() -> (table: NameTable)
        ensures
            table.well_formed(),
            table@ == Seq::<Seq<u8>>::empty(),
    {
        let table = NameTable { names: Vec::new(), by_text: Vec::new() };
        assert(table@ =~= Seq::<Seq<u8>>::empty());
        table
    }

    /// Finds `name` in the table, or adds it at the end, and returns its
    /// place.
    pub fn intern(&mut self, name: Vec<u8>) -> (id: usize)
        requires
            old(self).well_formed(),
        ensures
            final(self).well_formed(),
            final(self)@ == interned(old(self)@, name@),
            id < final(self)@.len(),
            final(self)@[id as int] == name@,
            final(self)@.len() >= old(self)@.len(),
            forall|k: int| 0 <= k < old(self)@.len() ==> final(self)@[k] == old(self)@[k],
    {
        let ghost before = self@;
        let ghost places = self.by_text@;
        let mut lo: usize = 0;
        let mut hi: usize = self.by_text.len();
        while lo < hi
            invariant
                lo <= hi <= self.by_text.len(),
                *self == *old(self),
                self.well_formed(),
                before == self@,
                forall|a: int|
                    0 <= a < lo ==> text_lt(before[(#[trigger] self.by_text[a]) as int], name@),
                forall|b: int|
                    hi <= b < self.by_text.len() ==> text_lt(
                        name@,
                        before[(#[trigger] self.by_text[b]) as int],
                    ),
            decreases hi - lo,
        {
            let mid = lo + (hi - lo) / 2;
            let id = self.by_text[mid];
            assert(before[id as int] == self.names[id as int]@);
            match text_order(self.names[id].as_slice(), name.as_slice()) {
                Order::Same => {
                    return id;
                },
                Order::Before => {
                    proof {
                        assert forall|a: int| 0 <= a < mid + 1 implies text_lt(
                            before[(#[trigger] self.by_text[a]) as int],
                            name@,
                        ) by {
                            if a < mid {
                                assert(text_lt(
                                    before[self.by_text[a] as int],
                                    before[self.by_text[mid as int] as int],
                                ));
                                lemma_text_lt_chain(
                                    before[self.by_text[a] as int],
                                    before[id as int],
                                    name@,
                                    0,
                                );
                            }
                        }
                    }
                    lo = mid + 1;
                },
                Order::After => {
                    proof {
                        assert forall|b: int| mid <= b < self.by_text.len() implies text_lt(
                            name@,
                            before[(#[trigger] self.by_text[b]) as int],
                        ) by {
                            if mid < b {
                                assert(text_lt(
                                    before[self.by_text[mid as int] as int],
                                    before[self.by_text[b] as int],
                                ));
                                lemma_text_lt_chain(
                                    name@,
                                    before[id as int],
                                    before[self.by_text[b] as int],
                                    0,
                                );
                            }
                        }
                    }
                    hi = mid;
                },
            }
        }
        proof {
            lemma_text_lt_apart(name@, 0);
            assert forall|i: int| 0 <= i < before.len() implies before[i] != name@ by {
                assert(places.contains(i as usize));
                let a = choose|a: int| 0 <= a < places.len() && places[a] == i as usize;
                if a < lo {
                    assert(text_lt(before[self.by_text[a] as int], name@));
                } else {
                    assert(text_lt(name@, before[self.by_text[a] as int]));
                }
            }
            assert(!before.contains(name@));
        }
        let id = self.names.len();
        self.names.push(name);
        self.by_text.insert(lo, id);
        proof {
            let after = self@;
            assert(after =~= before.push(name@));
            assert forall|a: int, b: int| 0 <= a < b < self.by_text.len() implies text_lt(
                after[(#[trigger] self.by_text[a]) as int],
                after[(#[trigger] self.by_text[b]) as int],
            ) by {
                if b < lo {
                    assert(self.by_text[a] == places[a] && self.by_text[b] == places[b]);
                } else if b == lo {
                    assert(self.by_text[a] == places[a]);
                } else if a < lo {
                    assert(self.by_text[a] == places[a] && self.by_text[b] == places[b - 1]);
                } else if a == lo {
                    assert(self.by_text[b] == places[b - 1]);
                } else {
                    assert(self.by_text[a] == places[a - 1] && self.by_text[b] == places[b - 1]);
                }
            }
            assert forall|i: usize| i < self.names.len() implies #[trigger] self.by_text@.contains(
                i,
            ) by {
                if i < id {
                    assert(places.contains(i));
                    let a = choose|a: int| 0 <= a < places.len() && places[a] == i;
                    if a < lo {
                        assert(self.by_text[a] == i);
                    } else {
                        assert(self.by_text[a + 1] == i);
                    }
                } else {
                    assert(self.by_text[lo as int] == i);
                }
            }
            assert forall|a: int| 0 <= a < self.by_text.len() implies (#[trigger] self.by_text[a])
                < self.names.len() by {
                if a < lo {
                    assert(self.by_text[a] == places[a]);
                } else if a > lo {
                    assert(self.by_text[a] == places[a - 1]);
                }
            }
        }
        id
    }

    /// Interns the names of a path, root first, and returns their places.
    pub fn intern_path(&mut self, path: Vec<Vec<u8>>) -> (ids: Vec<usize>)
        requires
            old(self).well_formed(),
        ensures
            final(self).well_formed(),
            final(self)@ == interned_path(old(self)@, texts(path@)),
            ids@ == identifiers(final(self)@, texts(path@)),
            forall|k: int| 0 <= k < ids.len() ==> (#[trigger] ids[k]) < final(self)@.len(),
            final(self)@.len() >= old(self)@.len(),
            forall|k: int| 0 <= k < old(self)@.len() ==> final(self)@[k] == old(self)@[k],
    {
        let mut ids: Vec<usize> = Vec::new();
        let ghost all = texts(path@);
        assert(all.take(0) =~= Seq::<Seq<u8>>::empty());
        for name in it: path
            invariant
                it.seq() == path@,
                all == texts(path@),
                self.well_formed(),
                self@ == interned_path(old(self)@, all.take(it.index() as int)),
                ids.len() == it.index(),
                self@.len() >= old(self)@.len(),
                forall|k: int| 0 <= k < old(self)@.len() ==> self@[k] == old(self)@[k],
                forall|k: int|
                    0 <= k < ids.len() ==> (#[trigger] ids[k]) < self@.len() && self@[ids[k] as int]
                        == all[k],
        {
            proof {
                assert(all.take(it.index() + 1).drop_last() =~= all.take(it.index() as int));
                assert(all.take(it.index() + 1).last() == name@);
            }
            let id = self.intern(name);
            ids.push(id);
        }
        proof {
            assert(all.take(path.len() as int) =~= all);
            self.lemma_no_duplicates();
            let table = self@;
            assert forall|k: int| 0 <= k < ids.len() implies ids[k] == identifiers(table, all)[k] by {
                lemma_index_of_name(table, all[k], ids[k] as int);
            }
            assert(ids@ =~= identifiers(table, all));
        }
        ids
    }
}

/// Where `name` stands in a table without duplicates, given one place where
/// it does.
pub proof fn lemma_index_of_name(names: Seq<Seq<u8>>, name: Seq<u8>, at: int)
    requires
        names.no_duplicates(),
        0 <= at < names.len(),
        names[at] == name,
    ensures
        names.index_of(name) == at,
{
    let found = names.index_of(name);
    assert(0 <= found < names.len() && names[found] == name);
}

} // verus!
