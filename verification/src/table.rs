use vstd::prelude::*;

use crate::text::{
    Standing, before, lemma_before_irreflexive, lemma_before_transitive, standing,
};

verus! {

/// A map from texts, kept in the order of its keys.
#[derive(Debug)]
pub struct Table<V> {
    pub entries: Vec<(String, V)>,
}

/// The keys are in order, and so none occurs twice.
pub open spec fn in_order<V>(entries: Seq<(String, V)>) -> bool {
    forall|i: int, j: int|
        0 <= i < j < entries.len() ==> before(#[trigger] entries[i].0@, #[trigger] entries[j].0@)
}

/// `key` stands at position `i`.
pub open spec fn holds_at<V>(entries: Seq<(String, V)>, key: Seq<char>, i: int) -> bool {
    0 <= i < entries.len() && entries[i].0@ == key
}

pub open spec fn as_map<V>(entries: Seq<(String, V)>) -> Map<Seq<char>, V> {
    Map::new(
        |key: Seq<char>| exists|i: int| holds_at(entries, key, i),
        |key: Seq<char>| entries[choose|i: int| holds_at(entries, key, i)].1,
    )
}

impl<V> View for Table<V> {
    type V = Map<Seq<char>, V>;

    open spec fn view(&self) -> Map<Seq<char>, V> {
        as_map(self.entries@)
    }
}

/// Each key of a table stands for the value beside it.
pub proof fn lemma_entry<V>(entries: Seq<(String, V)>, i: int)
    requires
        in_order(entries),
        0 <= i < entries.len(),
    ensures
        as_map(entries).contains_key(entries[i].0@),
        as_map(entries)[entries[i].0@] == entries[i].1,
{
    let key = entries[i].0@;
    assert(holds_at(entries, key, i));
    let j = choose|j: int| holds_at(entries, key, j);
    if i < j {
        lemma_before_irreflexive(key);
    } else if j < i {
        lemma_before_irreflexive(key);
    }
}

/// Texts in order, and so none occurs twice.
pub open spec fn ordered(keys: Seq<Seq<char>>) -> bool {
    forall|i: int, j: int|
        0 <= i < j < keys.len() ==> before(#[trigger] keys[i], #[trigger] keys[j])
}

/// The texts of a set, in order.
pub open spec fn in_key_order(keys: Set<Seq<char>>) -> Seq<Seq<char>> {
    choose|s: Seq<Seq<char>>| #[trigger] ordered(s) && s.to_set() == keys
}

/// The keys of some entries.
pub open spec fn keys_of<V>(entries: Seq<(String, V)>) -> Seq<Seq<char>> {
    entries.map_values(|e: (String, V)| e.0@)
}

/// There is only one order.
pub proof fn lemma_order_unique(a: Seq<Seq<char>>, b: Seq<Seq<char>>)
    requires
        ordered(a),
        ordered(b),
        a.to_set() == b.to_set(),
    ensures
        a == b,
    decreases a.len(),
{
    if a.len() == 0 {
        if b.len() > 0 {
            assert(b.to_set().contains(b[0]));
            assert(a.to_set().contains(b[0]));
        }
        assert(a =~= b);
    } else {
        assert(a.to_set().contains(a.last()));
        assert(b.to_set().contains(a.last()));
        let i = choose|i: int| 0 <= i < b.len() && b[i] == a.last();
        assert(b.to_set().contains(b.last()));
        assert(a.to_set().contains(b.last()));
        let j = choose|j: int| 0 <= j < a.len() && a[j] == b.last();
        if a.last() != b.last() {
            assert(before(b[i], b[b.len() - 1]));
            assert(before(a[j], a[a.len() - 1]));
            lemma_before_transitive(a.last(), b.last(), a.last());
            lemma_before_irreflexive(a.last());
        }
        let (c, d) = (a.drop_last(), b.drop_last());
        assert forall|k: Seq<char>| #[trigger] c.to_set().contains(k) implies d.to_set().contains(
            k,
        ) by {
            lemma_drop_last_keys(a, b, k);
        }
        assert forall|k: Seq<char>| #[trigger] d.to_set().contains(k) implies c.to_set().contains(
            k,
        ) by {
            lemma_drop_last_keys(b, a, k);
        }
        assert(c.to_set() =~= d.to_set());
        lemma_order_unique(c, d);
        assert(a =~= c.push(a.last()));
        assert(b =~= d.push(b.last()));
    }
}

proof fn lemma_drop_last_keys(a: Seq<Seq<char>>, b: Seq<Seq<char>>, k: Seq<char>)
    requires
        ordered(a),
        a.to_set() == b.to_set(),
        a.len() > 0,
        b.len() > 0,
        a.last() == b.last(),
        a.drop_last().to_set().contains(k),
    ensures
        b.drop_last().to_set().contains(k),
{
    let i = choose|i: int| 0 <= i < a.drop_last().len() && a.drop_last()[i] == k;
    assert(before(a[i], a[a.len() - 1]));
    lemma_before_irreflexive(k);
    assert(a.to_set().contains(a[i]));
    assert(b.to_set().contains(k));
    let j = choose|j: int| 0 <= j < b.len() && b[j] == k;
    assert(b.drop_last()[j] == k);
}

/// The entries of a table stand in the order of its keys.
pub proof fn lemma_entries_in_key_order<V>(entries: Seq<(String, V)>)
    requires
        in_order(entries),
    ensures
        in_key_order(as_map(entries).dom()) == keys_of(entries),
{
    let keys = keys_of(entries);
    assert(ordered(keys)) by {
        assert forall|i: int, j: int| 0 <= i < j < keys.len() implies before(
            #[trigger] keys[i],
            #[trigger] keys[j],
        ) by {
            assert(before(entries[i].0@, entries[j].0@));
        }
    }
    let dom = as_map(entries).dom();
    assert forall|k: Seq<char>| #[trigger] dom.contains(k) implies keys.to_set().contains(k) by {
        let i = choose|i: int| holds_at(entries, k, i);
        assert(keys[i] == k);
    }
    assert forall|k: Seq<char>| #[trigger] keys.to_set().contains(k) implies dom.contains(k) by {
        let i = choose|i: int| 0 <= i < keys.len() && keys[i] == k;
        lemma_entry(entries, i);
    }
    assert(keys.to_set() =~= dom);
    lemma_order_unique(in_key_order(dom), keys);
}

impl<V> Table<V> {
    pub open spec fn wf(self) -> bool {
        in_order(self.entries@)
    }

    /// A table without entries.
    pub fn new() -> (r: Table<V>)
        ensures
            r.wf(),
            r@ == Map::<Seq<char>, V>::empty(),
            r.entries@.len() == 0,
    {
        let r = Table { entries: Vec::new() };
        proof {
            assert(r@ =~= Map::<Seq<char>, V>::empty());
        }
        r
    }

    /// Position of a key, or where it would have to stand.
    pub fn find(&self, key: &str) -> (r: (bool, usize))
        requires
            self.wf(),
        ensures
            r.1 <= self.entries@.len(),
            r.0 == self@.contains_key(key@),
            r.0 ==> r.1 < self.entries@.len() && self.entries@[r.1 as int].0@ == key@,
            r.0 ==> self@[key@] == self.entries@[r.1 as int].1,
            forall|i: int| 0 <= i < r.1 ==> before(#[trigger] self.entries@[i].0@, key@),
            forall|i: int|
                r.1 <= i < self.entries@.len() && (i > r.1 || !r.0) ==> before(
                    key@,
                    #[trigger] self.entries@[i].0@,
                ),
    {
        let n = self.entries.len();
        let mut i: usize = 0;
        while i < n
            invariant
                self.wf(),
                i <= n == self.entries@.len(),
                forall|j: int| 0 <= j < i ==> before(#[trigger] self.entries@[j].0@, key@),
            decreases n - i,
        {
            let order = standing(self.entries[i].0.as_str(), key);
            match order {
                Standing::Before => {
                    i = i + 1;
                },
                Standing::Same => {
                    proof {
                        lemma_entry(self.entries@, i as int);
                    }
                    return (true, i);
                },
                Standing::After => {
                    proof {
                        let s = self.entries@;
                        assert forall|j: int| i <= j < s.len() implies before(
                            key@,
                            #[trigger] s[j].0@,
                        ) by {
                            if j > i {
                                assert(before(s[i as int].0@, s[j].0@));
                                lemma_before_transitive(key@, s[i as int].0@, s[j].0@);
                            }
                        }
                        lemma_absent(s, key@, i as int);
                    }
                    return (false, i);
                },
            }
        }
        proof {
            lemma_absent(self.entries@, key@, n as int);
        }
        (false, n)
    }

    /// The value of a key.
    pub fn get(&self, key: &str) -> (r: Option<&V>)
        requires
            self.wf(),
        ensures
            r is Some <==> self@.contains_key(key@),
            r matches Some(v) ==> *v == self@[key@],
    {
        let (found, i) = self.find(key);
        if found {
            Some(&self.entries[i].1)
        } else {
            None
        }
    }

    /// Takes a key out of the table, and gives its value.
    pub fn remove(&mut self, key: &str) -> (r: Option<V>)
        requires
            old(self).wf(),
        ensures
            final(self).wf(),
            final(self)@ == old(self)@.remove(key@),
            r is Some <==> old(self)@.contains_key(key@),
            r matches Some(v) ==> v == old(self)@[key@],
    {
        let (found, i) = self.find(key);
        let ghost was = self.entries@;
        if !found {
            proof {
                assert(as_map(was).remove(key@) =~= as_map(was));
            }
            return None;
        }
        let (_, value) = self.entries.remove(i);
        proof {
            let now = self.entries@;
            assert forall|a: int, b: int| 0 <= a < b < now.len() implies before(
                #[trigger] now[a].0@,
                #[trigger] now[b].0@,
            ) by {
                assert(now[a] == was[if a < i { a } else { a + 1 }]);
                assert(now[b] == was[if b < i { b } else { b + 1 }]);
            }
            lemma_removed(was, now, i as int);
        }
        Some(value)
    }

    /// Sets the value of a key.
    pub fn insert(&mut self, key: String, value: V)
        requires
            old(self).wf(),
        ensures
            final(self).wf(),
            final(self)@ == old(self)@.insert(key@, value),
    {
        let (found, i) = self.find(key.as_str());
        let ghost was = self.entries@;
        let ghost name = key@;
        if found {
            let _ = self.entries.remove(i);
        }
        self.entries.insert(i, (key, value));
        proof {
            let now = self.entries@;
            assert forall|a: int, b: int| 0 <= a < b < now.len() implies before(
                #[trigger] now[a].0@,
                #[trigger] now[b].0@,
            ) by {
                if found {
                    assert(a != i ==> now[a] == was[a]);
                    assert(b != i ==> now[b] == was[b]);
                } else {
                    assert(a < i ==> now[a] == was[a]);
                    assert(a > i ==> now[a] == was[a - 1]);
                    assert(b < i ==> now[b] == was[b]);
                    assert(b > i ==> now[b] == was[b - 1]);
                }
            }
            lemma_inserted(was, now, name, i as int, found);
        }
    }
}

/// A key that is passed over in the order is not there.
proof fn lemma_absent<V>(entries: Seq<(String, V)>, key: Seq<char>, at: int)
    requires
        0 <= at <= entries.len(),
        forall|i: int| 0 <= i < at ==> before(#[trigger] entries[i].0@, key),
        forall|i: int| at <= i < entries.len() ==> before(key, #[trigger] entries[i].0@),
    ensures
        !as_map(entries).contains_key(key),
{
    if as_map(entries).contains_key(key) {
        let i = choose|i: int| holds_at(entries, key, i);
        lemma_before_irreflexive(key);
        assert(entries[i].0@ == key);
    }
}

/// An entry taken out is a removal.
proof fn lemma_removed<V>(was: Seq<(String, V)>, now: Seq<(String, V)>, at: int)
    requires
        in_order(was),
        in_order(now),
        0 <= at < was.len(),
        now == was.remove(at),
    ensures
        as_map(now) == as_map(was).remove(was[at].0@),
{
    let key = was[at].0@;
    let a = as_map(now);
    let b = as_map(was).remove(key);
    assert forall|k: Seq<char>| #[trigger] a.dom().contains(k) implies b.dom().contains(k) && a[k]
        == b[k] by {
        let i = choose|i: int| holds_at(now, k, i);
        lemma_entry(now, i);
        let j = if i < at { i } else { i + 1 };
        assert(now[i] == was[j]);
        lemma_entry(was, j);
        lemma_before_irreflexive(key);
        assert(was[j].0@ != was[at].0@);
    }
    assert forall|k: Seq<char>| #[trigger] b.dom().contains(k) implies a.dom().contains(k) by {
        let j = choose|j: int| holds_at(was, k, j);
        let i = if j < at { j } else { j - 1 };
        assert(now[i] == was[j]);
        lemma_entry(now, i);
    }
    assert(a.dom() =~= b.dom());
    assert(a =~= b);
}

/// An entry put in its place, over the old one where there is one, is an insertion.
proof fn lemma_inserted<V>(
    was: Seq<(String, V)>,
    now: Seq<(String, V)>,
    key: Seq<char>,
    at: int,
    over: bool,
)
    requires
        in_order(was),
        in_order(now),
        0 <= at <= was.len(),
        at < now.len(),
        now[at].0@ == key,
        over ==> at < was.len() && was[at].0@ == key && now.len() == was.len(),
        !over ==> now.len() == was.len() + 1 && !as_map(was).contains_key(key),
        forall|i: int| 0 <= i < at ==> #[trigger] now[i] == was[i],
        over ==> forall|i: int| at < i < now.len() ==> #[trigger] now[i] == was[i],
        !over ==> forall|i: int| at < i < now.len() ==> #[trigger] now[i] == was[i - 1],
    ensures
        as_map(now) == as_map(was).insert(key, now[at].1),
{
    let a = as_map(now);
    let b = as_map(was).insert(key, now[at].1);
    assert forall|k: Seq<char>| #[trigger] a.dom().contains(k) implies b.dom().contains(k) && a[k]
        == b[k] by {
        let i = choose|i: int| holds_at(now, k, i);
        lemma_entry(now, i);
        if i != at {
            let j = if over || i < at { i } else { i - 1 };
            assert(now[i] == was[j]);
            lemma_entry(was, j);
            if k == key {
                lemma_entry(now, at);
                lemma_before_irreflexive(key);
                assert(now[i].0@ == now[at].0@);
            }
        }
    }
    assert forall|k: Seq<char>| #[trigger] b.dom().contains(k) implies a.dom().contains(k) by {
        if k == key {
            lemma_entry(now, at);
        } else {
            let j = choose|j: int| holds_at(was, k, j);
            let i = if over || j < at { j } else { j + 1 };
            assert(now[i] == was[j]);
            lemma_entry(now, i);
        }
    }
    assert(a.dom() =~= b.dom());
    assert(a =~= b);
}

} // verus!
