use vstd::prelude::*;

verus! {

/// Whether two texts are equal.
pub fn same_text(a: &str, b: &str) -> (r: bool)
    ensures
        r == (a@ == b@),
{
    a.to_owned() == b.to_owned()
}

/// A table from names to values, kept in insertion order. A lookup finds the
/// first entry with the name.
#[derive(Debug)]
pub struct NameMap<V> {
    pub entries: Vec<(String, V)>,
}

/// The index of the first of the first `n` entries named `name`.
pub open spec fn find_in<V>(entries: Seq<(String, V)>, name: Seq<char>, n: int) -> Option<int>
    decreases n,
{
    if n <= 0 {
        None
    } else {
        match find_in(entries, name, n - 1) {
            Some(i) => Some(i),
            None => if entries[n - 1].0@ == name {
                Some(n - 1)
            } else {
                None
            },
        }
    }
}

pub proof fn lemma_find_in<V>(entries: Seq<(String, V)>, name: Seq<char>, n: int)
    requires
        0 <= n <= entries.len(),
    ensures
        match find_in(entries, name, n) {
            Some(i) => 0 <= i < n && entries[i].0@ == name && forall|j: int|
                0 <= j < i ==> (#[trigger] entries[j]).0@ != name,
            None => forall|j: int| 0 <= j < n ==> (#[trigger] entries[j]).0@ != name,
        },
    decreases n,
{
    if n > 0 {
        lemma_find_in(entries, name, n - 1);
    }
}

impl<V> NameMap<V> {
    /// The index of the first entry named `name`.
    pub open spec fn find(&self, name: Seq<char>) -> Option<int> {
        find_in(self.entries@, name, self.entries@.len() as int)
    }

    /// The value of the first entry named `name`.
    pub open spec fn lookup(&self, name: Seq<char>) -> Option<V> {
        match self.find(name) {
            Some(i) => Some(self.entries@[i].1),
            None => None,
        }
    }

    /// A reference to the value of the first entry named `name`.
    pub open spec fn lookup_ref<'a>(&'a self, name: Seq<char>) -> Option<&'a V> {
        match self.find(name) {
            Some(i) => Some(&self.entries@[i].1),
            None => None,
        }
    }

    /// An empty table.
    pub fn new() -> (m: Self)
        ensures
            m.entries@.len() == 0,
            m.wf(),
    {
        NameMap { entries: Vec::new() }
    }

    /// The index of the first entry named `name`.
    pub fn find_index(&self, name: &str) -> (r: Option<usize>)
        ensures
            match r {
                Some(i) => self.find(name@) == Some(i as int),
                None => self.find(name@) is None,
            },
    {
        let mut i: usize = 0;
        while i < self.entries.len()
            invariant
                i <= self.entries@.len(),
                find_in(self.entries@, name@, i as int) is None,
            decreases self.entries@.len() - i,
        {
            if same_text(self.entries[i].0.as_str(), name) {
                proof {
                    lemma_find_in(self.entries@, name@, i as int);
                    lemma_find_in(self.entries@, name@, self.entries@.len() as int);
                    assert(self.entries@[i as int].0@ == name@);
                }
                return Some(i);
            }
            i = i + 1;
        }
        proof {
            lemma_find_in(self.entries@, name@, i as int);
        }
        None
    }

    /// The value of the first entry named `name`.
    pub fn get(&self, name: &str) -> (r: Option<&V>)
        ensures
            match self.find(name@) {
                Some(i) => r == Some(&self.entries@[i].1),
                None => r is None,
            },
    {
        let mut i: usize = 0;
        while i < self.entries.len()
            invariant
                i <= self.entries@.len(),
                find_in(self.entries@, name@, i as int) is None,
            decreases self.entries@.len() - i,
        {
            if same_text(self.entries[i].0.as_str(), name) {
                proof {
                    lemma_find_in(self.entries@, name@, i as int);
                    lemma_find_in(self.entries@, name@, self.entries@.len() as int);
                    assert(self.entries@[i as int].0@ == name@);
                }
                return Some(&self.entries[i].1);
            }
            i = i + 1;
        }
        proof {
            lemma_find_in(self.entries@, name@, i as int);
        }
        None
    }
}

/// Two tables with the same names at the same places find the same entry.
pub proof fn lemma_find_in_names<V>(a: Seq<(String, V)>, b: Seq<(String, V)>, name: Seq<char>, n: int)
    requires
        0 <= n <= a.len(),
        n <= b.len(),
        forall|j: int| 0 <= j < n ==> (#[trigger] a[j]).0 == b[j].0,
    ensures
        find_in(a, name, n) == find_in(b, name, n),
    decreases n,
{
    if n > 0 {
        lemma_find_in_names(a, b, name, n - 1);
    }
}

impl<V> NameMap<V> {
    /// No name occurs twice in the table.
    pub open spec fn wf(&self) -> bool {
        forall|i: int, j: int|
            0 <= i < j < self.entries@.len() ==> (#[trigger] self.entries@[i]).0@ != (
            #[trigger] self.entries@[j]).0@
    }

    /// Sets the value of `name`, replacing the value it had, or adding an entry at
    /// the end when it had none; gives the value it had.
    pub fn insert(&mut self, name: String, value: V) -> (r: Option<V>)
        ensures
            old(self).wf() ==> final(self).wf(),
            final(self).lookup(name@) == Some(value),
            forall|n: Seq<char>| n != name@ ==> #[trigger] final(self).lookup(n) == old(self).lookup(n),
            r == old(self).lookup(name@),
    {
        let ghost old_entries = self.entries@;
        let ghost key = name@;
        proof {
            lemma_find_in(old_entries, key, old_entries.len() as int);
        }
        match self.find_index(name.as_str()) {
            Some(i) => {
                let mut v = value;
                std::mem::swap(&mut self.entries[i].1, &mut v);
                proof {
                    assert forall|n: Seq<char>| #[trigger] self.lookup(n) == if n == key {
                        Some(value)
                    } else {
                        old(self).lookup(n)
                    } by {
                        lemma_find_in_names(old_entries, self.entries@, n, old_entries.len() as int);
                        lemma_find_in(old_entries, n, old_entries.len() as int);
                    }
                    assert forall|a: int, b: int|
                        old(self).wf() && 0 <= a < b < self.entries@.len() implies (
                        #[trigger] self.entries@[a]).0@ != (#[trigger] self.entries@[b]).0@ by {
                        assert(self.entries@[a].0 == old_entries[a].0);
                        assert(self.entries@[b].0 == old_entries[b].0);
                    }
                }
                Some(v)
            },
            None => {
                self.entries.push((name, value));
                proof {
                    let len = old_entries.len() as int;
                    assert forall|n: Seq<char>| #[trigger] self.lookup(n) == if n == key {
                        Some(value)
                    } else {
                        old(self).lookup(n)
                    } by {
                        lemma_find_in_names(old_entries, self.entries@, n, len);
                        lemma_find_in(old_entries, n, len);
                    }
                    assert forall|a: int, b: int|
                        old(self).wf() && 0 <= a < b < self.entries@.len() implies (
                        #[trigger] self.entries@[a]).0@ != (#[trigger] self.entries@[b]).0@ by {
                        if b == len {
                            assert(self.entries@[a] == old_entries[a]);
                        } else {
                            assert(self.entries@[a] == old_entries[a]);
                            assert(self.entries@[b] == old_entries[b]);
                        }
                    }
                }
                None
            },
        }
    }
}

/// In a table where no name occurs twice, each entry is the one found for its
/// name.
pub proof fn lemma_wf_find<V>(m: &NameMap<V>, i: int)
    requires
        m.wf(),
        0 <= i < m.entries@.len(),
    ensures
        m.find(m.entries@[i].0@) == Some(i),
{
    lemma_find_in(m.entries@, m.entries@[i].0@, m.entries@.len() as int);
    if let Some(j) = m.find(m.entries@[i].0@) {
        if j < i {
            assert(m.entries@[j].0@ != m.entries@[i].0@);
        }
    }
}

/// One of the strings is `n`.
pub open spec fn has_name(s: Seq<String>, n: Seq<char>) -> bool {
    exists|i: int| 0 <= i < s.len() && (#[trigger] s[i])@ == n
}

/// A set of names.
#[derive(Debug)]
pub struct NameSet {
    pub names: Vec<String>,
}

impl View for NameSet {
    type V = Set<Seq<char>>;

    open spec fn view(&self) -> Set<Seq<char>> {
        Set::new(|n: Seq<char>| has_name(self.names@, n))
    }
}

impl NameSet {
    /// No name occurs twice.
    pub open spec fn wf(&self) -> bool {
        forall|i: int, j: int|
            0 <= i < j < self.names@.len() ==> (#[trigger] self.names@[i])@ != (
            #[trigger] self.names@[j])@
    }

    /// The empty set.
    pub fn new() -> (s: Self)
        ensures
            s@ == Set::<Seq<char>>::empty(),
            s.wf(),
    {
        let s = NameSet { names: Vec::new() };
        assert(s@ =~= Set::<Seq<char>>::empty());
        s
    }

    /// Whether `name` is in the set.
    pub fn contains(&self, name: &str) -> (r: bool)
        ensures
            r == self@.contains(name@),
    {
        let mut i: usize = 0;
        while i < self.names.len()
            invariant
                i <= self.names@.len(),
                forall|j: int| 0 <= j < i ==> (#[trigger] self.names@[j])@ != name@,
            decreases self.names@.len() - i,
        {
            if same_text(self.names[i].as_str(), name) {
                return true;
            }
            i = i + 1;
        }
        false
    }

    /// Adds `name`.
    pub fn insert(&mut self, name: &str)
        ensures
            final(self)@ == old(self)@.insert(name@),
            old(self).wf() ==> final(self).wf(),
    {
        if self.contains(name) {
            assert(self@ =~= old(self)@.insert(name@));
            return;
        }
        let s = name.to_owned();
        self.names.push(s);
        assert(self@ =~= old(self)@.insert(name@)) by {
            assert(self.names@[self.names@.len() - 1]@ == name@);
            assert forall|n: Seq<char>| old(self)@.contains(n) implies self@.contains(n) by {
                let i = choose|i: int| 0 <= i < old(self).names@.len() && (#[trigger] old(self).names@[i])@ == n;
                assert(self.names@[i] == old(self).names@[i]);
            }
            assert forall|n: Seq<char>| self@.contains(n) implies old(self)@.insert(name@).contains(n) by {
                let i = choose|i: int| 0 <= i < self.names@.len() && (#[trigger] self.names@[i])@ == n;
                if i < old(self).names@.len() {
                    assert(old(self).names@[i] == self.names@[i]);
                }
            }
        }
    }

    /// Removes `name`.
    pub fn remove(&mut self, name: &str)
        ensures
            final(self)@ == old(self)@.remove(name@),
            old(self).wf() ==> final(self).wf(),
    {
        let mut kept: Vec<String> = Vec::new();
        let mut i: usize = 0;
        while i < self.names.len()
            invariant
                i <= self.names@.len(),
                forall|n: Seq<char>|
                    #[trigger] has_name(kept@, n) <==> (n != name@ && has_name(
                        self.names@.take(i as int),
                        n,
                    )),
                self.wf() ==> forall|a: int, b: int|
                    0 <= a < b < kept@.len() ==> (#[trigger] kept@[a])@ != (#[trigger] kept@[b])@,
            decreases self.names@.len() - i,
        {
            let ghost before = kept@;
            if !(same_text(self.names[i].as_str(), name)) {
                let c = self.names[i].clone();
                proof {
                    if self.wf() {
                        assert(!has_name(self.names@.take(i as int), self.names@[i as int]@)) by {
                            if has_name(self.names@.take(i as int), self.names@[i as int]@) {
                                let k = choose|k: int|
                                    0 <= k < i && (#[trigger] self.names@.take(i as int)[k])@
                                        == self.names@[i as int]@;
                                assert(self.names@[k] == self.names@.take(i as int)[k]);
                            }
                        }
                        assert(!has_name(before, self.names@[i as int]@));
                    }
                }
                kept.push(c);
                proof {
                    if self.wf() {
                        assert forall|a: int, b: int|
                            0 <= a < b < kept@.len() implies (#[trigger] kept@[a])@ != (
                            #[trigger] kept@[b])@ by {
                            assert(kept@[a] == before[a]);
                            if b < before.len() {
                                assert(kept@[b] == before[b]);
                            } else {
                                if kept@[a]@ == kept@[b]@ {
                                    assert(has_name(before, self.names@[i as int]@));
                                }
                            }
                        }
                    }
                }
            }
            assert forall|n: Seq<char>|
                #[trigger] has_name(kept@, n) <==> (n != name@ && has_name(
                    self.names@.take(i + 1),
                    n,
                )) by {
                let prefix = self.names@.take(i as int);
                let next = self.names@.take(i + 1);
                assert(next =~= prefix.push(self.names@[i as int]));
                if has_name(kept@, n) {
                    let j = choose|j: int| 0 <= j < kept@.len() && (#[trigger] kept@[j])@ == n;
                    if j < before.len() {
                        assert(kept@[j] == before[j]);
                        assert(has_name(before, n));
                        let k = choose|k: int| 0 <= k < prefix.len() && (#[trigger] prefix[k])@ == n;
                        assert(next[k] == prefix[k]);
                    } else {
                        assert(next[i as int]@ == n);
                    }
                }
                if n != name@ && has_name(next, n) {
                    let k = choose|k: int| 0 <= k < next.len() && (#[trigger] next[k])@ == n;
                    if k < i {
                        assert(prefix[k] == next[k]);
                        assert(has_name(prefix, n));
                        assert(has_name(before, n));
                        let j = choose|j: int| 0 <= j < before.len() && (#[trigger] before[j])@ == n;
                        assert(kept@[j] == before[j]);
                    } else {
                        assert(kept@[kept@.len() - 1]@ == n);
                    }
                }
            }
            i = i + 1;
        }
        assert(self.names@.take(i as int) =~= self.names@);
        self.names = kept;
        assert forall|n: Seq<char>| #[trigger] self@.contains(n) <==> old(self)@.remove(name@).contains(n) by {
            assert(self@.contains(n) == has_name(self.names@, n));
            assert(old(self)@.contains(n) == has_name(old(self).names@, n));
        }
        assert(self@ =~= old(self)@.remove(name@));
    }

    /// A copy of the set.
    pub fn copy(&self) -> (r: Self)
        ensures
            r@ == self@,
            self.wf() ==> r.wf(),
    {
        let r = NameSet { names: self.names.clone() };
        assert(r.names@ =~= self.names@);
        assert(r@ =~= self@);
        r
    }

    /// Adds every name of `other`.
    pub fn extend(&mut self, other: &NameSet)
        ensures
            final(self)@ == old(self)@.union(other@),
            old(self).wf() ==> final(self).wf(),
    {
        let mut i: usize = 0;
        while i < other.names.len()
            invariant
                i <= other.names@.len(),
                old(self).wf() ==> self.wf(),
                self@ == old(self)@.union(
                    Set::new(|n: Seq<char>| exists|j: int| 0 <= j < i && (#[trigger] other.names@[j])@ == n),
                ),
            decreases other.names@.len() - i,
        {
            let ghost before = self@;
            self.insert(other.names[i].as_str());
            assert(self@ =~= old(self)@.union(
                Set::new(|n: Seq<char>| exists|j: int| 0 <= j < i + 1 && (#[trigger] other.names@[j])@ == n),
            )) by {
                assert forall|n: Seq<char>| #[trigger] self@.contains(n) implies old(self)@.union(
                    Set::new(|n: Seq<char>| exists|j: int| 0 <= j < i + 1 && (#[trigger] other.names@[j])@ == n),
                ).contains(n) by {
                    if n == other.names@[i as int]@ {
                    } else {
                        assert(before.contains(n));
                    }
                }
            }
            i = i + 1;
        }
        assert(self@ =~= old(self)@.union(other@));
    }
}

} // verus!
