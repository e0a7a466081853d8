//! Names and maps keyed by names.
use vstd::prelude::*;
use vstd::string::*;

verus! {

/// Whether two strings hold the same characters.
pub fn same_text(a: &str, b: &str) -> (r: bool)
    ensures
        r == (a@ == b@),
{
    let x: &[u8] = a.as_bytes();
    let y: &[u8] = b.as_bytes();
    proof {
        vstd::utf8::encode_utf8_decode_utf8(a@);
        vstd::utf8::encode_utf8_decode_utf8(b@);
    }
    if x.len() != y.len() {
        return false;
    }
    let mut i: usize = 0;
    while i < x.len()
        invariant
            i <= x@.len(),
            x@.len() == y@.len(),
            x@ == a.spec_bytes(),
            y@ == b.spec_bytes(),
            forall|j: int| 0 <= j < i ==> x@[j] == y@[j],
        decreases x@.len() - i,
    {
        if x[i] != y[i] {
            return false;
        }
        i += 1;
    }
    assert(x@ =~= y@);
    true
}

/// A map keyed by names.  No name occurs twice, and a name keeps the place
/// at which it first came in.
#[derive(Clone, Debug)]
pub struct NameMap<T> {
    pub entries: Vec<(String, T)>,
}

/// Whether the entries from `0` to `n` hold `name`.
pub open spec fn holds<T>(entries: Seq<(String, T)>, n: int, name: Seq<char>) -> bool {
    exists|i: int| 0 <= i < n && (#[trigger] entries[i]).0@ == name
}

impl<T> View for NameMap<T> {
    type V = Map<Seq<char>, T>;

    open spec fn view(&self) -> Map<Seq<char>, T> {
        Map::new(
            |name: Seq<char>| holds(self.entries@, self.entries@.len() as int, name),
            |name: Seq<char>|
                {
                    let i = choose|i: int|
                        0 <= i < self.entries@.len() && (#[trigger] self.entries@[i]).0@ == name;
                    self.entries@[i].1
                },
        )
    }
}

impl<T> NameMap<T> {
    /// No name occurs twice.
    pub open spec fn wf(&self) -> bool {
        forall|i: int, j: int|
            0 <= i < j < self.entries@.len() ==> (#[trigger] self.entries@[i]).0@ != (
            #[trigger] self.entries@[j]).0@
    }

    /// The entry at `i` is what the map holds under its name.
    pub proof fn lemma_entry(&self, i: int)
        requires
            self.wf(),
            0 <= i < self.entries@.len(),
        ensures
            self@.contains_key(self.entries@[i].0@),
            self@[self.entries@[i].0@] == self.entries@[i].1,
    {
        let name = self.entries@[i].0@;
        assert(holds(self.entries@, self.entries@.len() as int, name));
        let j = choose|j: int|
            0 <= j < self.entries@.len() && (#[trigger] self.entries@[j]).0@ == name;
        if i < j {
        } else if j < i {
        }
    }

    pub fn new() -> (r: NameMap<T>)
        ensures
            r.wf(),
            r@ == Map::<Seq<char>, T>::empty(),
            r.entries@.len() == 0,
    {
        let r = NameMap { entries: Vec::new() };
        assert(r@ =~= Map::<Seq<char>, T>::empty());
        r
    }

    pub fn len(&self) -> (r: usize)
        ensures
            r == self.entries@.len(),
    {
        self.entries.len()
    }

    pub fn is_empty(&self) -> (r: bool)
        ensures
            r == (self.entries@.len() == 0),
            r == (self@ == Map::<Seq<char>, T>::empty()),
    {
        proof {
            if self.entries@.len() == 0 {
                assert(self@ =~= Map::<Seq<char>, T>::empty());
            } else {
                assert(self.entries@[0].0@ == self.entries@[0].0@);
                assert(holds(self.entries@, self.entries@.len() as int, self.entries@[0].0@));
                assert(self@.contains_key(self.entries@[0].0@));
            }
        }
        self.entries.len() == 0
    }

    /// The place of a name among the entries.
    fn position(&self, name: &str) -> (r: Option<usize>)
        ensures
            match r {
                Some(i) => i < self.entries@.len() && self.entries@[i as int].0@ == name@,
                None => !holds(self.entries@, self.entries@.len() as int, name@),
            },
    {
        let mut i: usize = 0;
        while i < self.entries.len()
            invariant
                i <= self.entries@.len(),
                !holds(self.entries@, i as int, name@),
            decreases self.entries@.len() - i,
        {
            if same_text(self.entries[i].0.as_str(), name) {
                return Some(i);
            }
            i += 1;
        }
        None
    }

    pub fn get(&self, name: &str) -> (r: Option<&T>)
        requires
            self.wf(),
        ensures
            r == (if self@.contains_key(name@) {
                Some(&self@[name@])
            } else {
                None
            }),
    {
        match self.position(name) {
            Some(i) => {
                proof {
                    self.lemma_entry(i as int);
                }
                Some(&self.entries[i].1)
            },
            None => None,
        }
    }

    /// Puts `value` under `name`, in place of what was there.
    pub fn insert(&mut self, name: String, value: T)
        requires
            old(self).wf(),
        ensures
            final(self).wf(),
            final(self)@ == old(self)@.insert(name@, value),
    {
        let ghost before = *self;
        let ghost key = name@;
        match self.position(name.as_str()) {
            Some(i) => {
                self.entries[i].1 = value;
                proof {
                    assert(self.entries@ =~= before.entries@.update(
                        i as int,
                        (before.entries@[i as int].0, value),
                    ));
                    lemma_replaced(before, *self, i as int, value);
                }
            },
            None => {
                self.entries.push((name, value));
                proof {
                    lemma_appended(before, *self, name, value);
                }
            },
        }
    }
}

proof fn lemma_replaced<T>(before: NameMap<T>, after: NameMap<T>, i: int, value: T)
    requires
        before.wf(),
        0 <= i < before.entries@.len(),
        after.entries@ == before.entries@.update(i, (before.entries@[i].0, value)),
    ensures
        after.wf(),
        after@ == before@.insert(before.entries@[i].0@, value),
{
    let key = before.entries@[i].0@;
    let n = before.entries@.len() as int;
    assert forall|j: int| 0 <= j < n implies (#[trigger] after.entries@[j]).0
        == before.entries@[j].0 by {}
    assert forall|a: int, b: int| 0 <= a < b < n implies (#[trigger] after.entries@[a]).0@ != (
    #[trigger] after.entries@[b]).0@ by {
        assert(before.entries@[a].0@ != before.entries@[b].0@);
    }
    assert forall|name: Seq<char>|
        holds(after.entries@, n, name) == holds(before.entries@, n, name) by {
        if holds(before.entries@, n, name) {
            let j = choose|j: int| 0 <= j < n && (#[trigger] before.entries@[j]).0@ == name;
            assert(after.entries@[j].0@ == name);
        }
        if holds(after.entries@, n, name) {
            let j = choose|j: int| 0 <= j < n && (#[trigger] after.entries@[j]).0@ == name;
            assert(before.entries@[j].0@ == name);
        }
    }
    after.lemma_entry(i);
    before.lemma_entry(i);
    assert(after@ =~= before@.insert(key, value)) by {
        assert forall|name: Seq<char>| after@.contains_key(name) && name != key implies after@[name]
            == before@[name] by {
            let j = choose|j: int| 0 <= j < n && (#[trigger] after.entries@[j]).0@ == name;
            after.lemma_entry(j);
            before.lemma_entry(j);
        }
    }
}

proof fn lemma_appended<T>(before: NameMap<T>, after: NameMap<T>, name: String, value: T)
    requires
        before.wf(),
        !holds(before.entries@, before.entries@.len() as int, name@),
        after.entries@ == before.entries@.push((name, value)),
    ensures
        after.wf(),
        after@ == before@.insert(name@, value),
{
    let n = before.entries@.len() as int;
    assert forall|a: int, b: int| 0 <= a < b < n + 1 implies (#[trigger] after.entries@[a]).0@ != (
    #[trigger] after.entries@[b]).0@ by {
        assert(before.entries@[a].0@ == after.entries@[a].0@);
        if b < n {
            assert(before.entries@[b].0@ == after.entries@[b].0@);
        }
    }
    after.lemma_entry(n);
    assert forall|key: Seq<char>|
        holds(after.entries@, n + 1, key) == (holds(before.entries@, n, key) || key == name@) by {
        if holds(before.entries@, n, key) {
            let j = choose|j: int| 0 <= j < n && (#[trigger] before.entries@[j]).0@ == key;
            assert(after.entries@[j].0@ == key);
        }
        if key == name@ {
            assert(after.entries@[n].0@ == key);
        }
        if holds(after.entries@, n + 1, key) {
            let j = choose|j: int| 0 <= j < n + 1 && (#[trigger] after.entries@[j]).0@ == key;
            if j < n {
                assert(before.entries@[j].0@ == key);
            }
        }
    }
    assert(after@ =~= before@.insert(name@, value)) by {
        assert forall|key: Seq<char>| after@.contains_key(key) && key != name@ implies after@[key]
            == before@[key] by {
            let j = choose|j: int| 0 <= j < n + 1 && (#[trigger] after.entries@[j]).0@ == key;
            assert(j < n);
            assert(before.entries@[j] == after.entries@[j]);
            after.lemma_entry(j);
            before.lemma_entry(j);
        }
    }
}

} // verus!
