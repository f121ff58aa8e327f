//! Variable tables: mappings from identifiers to values.
use vstd::prelude::*;
use crate::value::Value;

verus! {

/// Equality of two identifiers, character by character.
pub fn same_name(a: &[char], b: &[char]) -> (r: bool)
    ensures
        r == (a@ == b@),
{
    if a.len() != b.len() {
        return false;
    }
    let mut i: usize = 0;
    while i < a.len()
        invariant
            a@.len() == b@.len(),
            i <= a@.len(),
            a@.subrange(0, i as int) == b@.subrange(0, i as int),
        decreases a@.len() - i,
    {
        if a[i] != b[i] {
            assert(a@[i as int] != b@[i as int]);
            return false;
        }
        assert(a@.subrange(0, i + 1) == a@.subrange(0, i as int).push(a@[i as int]));
        assert(b@.subrange(0, i + 1) == b@.subrange(0, i as int).push(b@[i as int]));
        i = i + 1;
    }
    assert(a@ == a@.subrange(0, i as int));
    assert(b@ == b@.subrange(0, i as int));
    true
}

/// The characters of `s`, in order.
pub(crate) fn chars_of(s: &str) -> (r: Vec<char>)
    ensures
        r@ == s@,
{
    let mut r: Vec<char> = Vec::new();
    for c in it: s.chars()
        invariant
            r@ == it.seq().take(it.index() as int),
    {
        r.push(c);
    }
    r
}

struct Entry {
    key: Vec<char>,
    val: Value,
}

/// A mapping from identifiers to values, keys unique.
///
/// Absence of a key is distinct from a key bound to `Nil`.
pub struct Table {
    entries: Vec<Entry>,
}

impl View for Table {
    type V = Map<Seq<char>, Value>;

    closed spec fn view(&self) -> Map<Seq<char>, Value> {
        Map::new(
            |k: Seq<char>| self.has_at(k),
            |k: Seq<char>| self.entries@[self.slot(k)].val,
        )
    }
}

impl Table {
    closed spec fn has_at(&self, k: Seq<char>) -> bool {
        exists|i: int| 0 <= i < self.entries@.len() && #[trigger] self.entries@[i].key@ == k
    }

    closed spec fn slot(&self, k: Seq<char>) -> int {
        choose|i: int| 0 <= i < self.entries@.len() && #[trigger] self.entries@[i].key@ == k
    }

    /// Keys are unique.
    pub closed spec fn wf(&self) -> bool {
        forall|i: int, j: int|
            0 <= i < self.entries@.len() && 0 <= j < self.entries@.len() && i != j
                ==> #[trigger] self.entries@[i].key@ != #[trigger] self.entries@[j].key@
    }

    proof fn lemma_slot(&self, i: int)
        requires
            self.wf(),
            0 <= i < self.entries@.len(),
        ensures
            self@.contains_key(self.entries@[i].key@),
            self@[self.entries@[i].key@] == self.entries@[i].val,
    {
        let k = self.entries@[i].key@;
        assert(self.has_at(k));
        let j = self.slot(k);
        assert(self.entries@[j].key@ == k);
    }

    /// An empty table.
    pub fn new() -> (r: Table)
        ensures
            r.wf(),
            r@ == Map::<Seq<char>, Value>::empty(),
    {
        let r = Table { entries: Vec::new() };
        assert(r@ =~= Map::<Seq<char>, Value>::empty());
        r
    }

    fn find(&self, key: &[char]) -> (r: Option<usize>)
        requires
            self.wf(),
        ensures
            r matches Some(i) ==> i < self.entries@.len() && self.entries@[i as int].key@ == key@,
            r is None ==> !self@.contains_key(key@),
    {
        let mut i: usize = 0;
        while i < self.entries.len()
            invariant
                i <= self.entries@.len(),
                forall|j: int| 0 <= j < i ==> #[trigger] self.entries@[j].key@ != key@,
            decreases self.entries@.len() - i,
        {
            if same_name(self.entries[i].key.as_slice(), key) {
                return Some(i);
            }
            i = i + 1;
        }
        None
    }

    /// Whether `key` is bound, to `Nil` or to any other value.
    pub fn contains_key(&self, key: &[char]) -> (r: bool)
        requires
            self.wf(),
        ensures
            r == self@.contains_key(key@),
    {
        match self.find(key) {
            Some(i) => {
                proof { self.lemma_slot(i as int); }
                true
            },
            None => false,
        }
    }

    /// The value bound to `key`, if any.
    pub fn get_key(&self, key: &[char]) -> (r: Option<&Value>)
        requires
            self.wf(),
        ensures
            r is Some <==> self@.contains_key(key@),
            r matches Some(v) ==> *v == self@[key@],
    {
        match self.find(key) {
            Some(i) => {
                proof { self.lemma_slot(i as int); }
                Some(&self.entries[i].val)
            },
            None => None,
        }
    }

    /// Binds `key` to `val`, inserting the key or overwriting its value.
    pub fn set_key(&mut self, key: &[char], val: Value)
        requires
            old(self).wf(),
        ensures
            final(self).wf(),
            final(self)@ == old(self)@.insert(key@, val),
    {
        match self.find(key) {
            Some(i) => {
                let ghost pre = *self;
                let k = vstd::slice::slice_to_vec(key);
                self.entries.set(i, Entry { key: k, val });
                proof {
                    assert forall|k2: Seq<char>| #![auto] self@.contains_key(k2) == pre@.insert(key@, val).contains_key(k2) by {
                        if pre.has_at(k2) {
                            let j = pre.slot(k2);
                            assert(self.entries@[j].key@ == k2);
                        }
                        if self.has_at(k2) {
                            let j = self.slot(k2);
                            if j != i {
                                assert(pre.entries@[j].key@ == k2);
                            }
                        }
                    }
                    assert forall|k2: Seq<char>| #![auto] self@.contains_key(k2) ==> self@[k2] == pre@.insert(key@, val)[k2] by {
                        if self@.contains_key(k2) {
                            let j = self.slot(k2);
                            self.lemma_slot(j);
                            if j != i {
                                pre.lemma_slot(j);
                            } else {
                                self.lemma_slot(i as int);
                            }
                        }
                    }
                    assert(self@ =~= pre@.insert(key@, val));
                }
            },
            None => {
                let ghost pre = *self;
                let k = vstd::slice::slice_to_vec(key);
                self.entries.push(Entry { key: k, val });
                proof {
                    let n = pre.entries@.len() as int;
                    assert forall|k2: Seq<char>| #![auto] self@.contains_key(k2) == pre@.insert(key@, val).contains_key(k2) by {
                        if pre.has_at(k2) {
                            let j = pre.slot(k2);
                            assert(self.entries@[j].key@ == k2);
                        }
                        if self.has_at(k2) {
                            let j = self.slot(k2);
                            if j != n {
                                assert(pre.entries@[j].key@ == k2);
                            }
                        }
                        if k2 == key@ {
                            assert(self.entries@[n].key@ == k2);
                        }
                    }
                    assert forall|k2: Seq<char>| #![auto] self@.contains_key(k2) ==> self@[k2] == pre@.insert(key@, val)[k2] by {
                        if self@.contains_key(k2) {
                            let j = self.slot(k2);
                            self.lemma_slot(j);
                            if j != n {
                                pre.lemma_slot(j);
                            }
                        }
                    }
                    assert(self@ =~= pre@.insert(key@, val));
                }
            },
        }
    }

    /// Binds the variable `var` to `val`, inserting or overwriting.
    pub fn set(&mut self, var: &str, val: Value)
        requires
            old(self).wf(),
        ensures
            final(self).wf(),
            final(self)@ == old(self)@.insert(var@, val),
    {
        let key = chars_of(var);
        self.set_key(key.as_slice(), val)
    }

    /// The value bound to the variable `var`, if any.
    pub fn get(&self, var: &str) -> (r: Option<&Value>)
        requires
            self.wf(),
        ensures
            r is Some <==> self@.contains_key(var@),
            r matches Some(v) ==> *v == self@[var@],
    {
        let key = chars_of(var);
        self.get_key(key.as_slice())
    }
}

} // verus!
