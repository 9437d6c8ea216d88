//! The configuration block of a room file: escape-separated key lines fed
//! into a small two-level trie, and the lookup of the three required
//! settings, each of which must resolve to exactly one value.
use vstd::prelude::*;

verus! {

/// One key of the configuration with the distinct values seen under it.
/// `Node` keeps only the first two path segments of each line: the
/// setting name and its value; deeper segments never decide a lookup.
pub struct Node {
    entries: Vec<(Vec<char>, Vec<Vec<char>>)>,
}

impl Node {
    /// The association list this trie denotes: each key once, with the
    /// distinct values under it in first-seen order.
    pub closed spec fn view(&self) -> Seq<(Seq<char>, Seq<Seq<char>>)> {
        Seq::new(
            self.entries.len() as nat,
            |i: int| (self.entries[i].0@, self.entries[i].1.deep_view()),
        )
    }

    /// Keys are distinct, and so are the values under each key.
    pub open spec fn wf(&self) -> bool {
        &&& forall|i: int, j: int|
            0 <= i < j < self@.len() ==> self@[i].0 != self@[j].0
        &&& forall|i: int, x: int, y: int|
            0 <= i < self@.len() && 0 <= x < y < self@[i].1.len()
                ==> self@[i].1[x] != self@[i].1[y]
    }

    pub fn new() -> (r: Node)
        ensures
            r@ == Seq::<(Seq<char>, Seq<Seq<char>>)>::empty(),
            r.wf(),
    {
        let r = Node { entries: Vec::new() };
        proof {
            assert(r@ =~= Seq::<(Seq<char>, Seq<Seq<char>>)>::empty());
        }
        r
    }

    /// Record one configuration line, already split into path segments.
    /// The first segment names the setting; the second, if present, is a
    /// value for it; deeper segments are ignored.
    pub fn populate(&mut self, parts: &Vec<Vec<char>>)
        requires
            old(self).wf(),
        ensures
            final(self).wf(),
            final(self)@ == spec_populate(old(self)@, parts.deep_view()),
    {
        let ghost old_view = self@;
        if parts.len() == 0 {
            return;
        }
        let mut i: usize = 0;
        while i < self.entries.len()
            invariant
                i <= self.entries.len(),
                self == old(self),
                self.wf(),
                parts.len() >= 1,
                old_view == self@,
                forall|j: int| 0 <= j < i ==> self@[j].0 != parts.deep_view()[0],
            decreases self.entries.len() - i,
        {
            let hit = crate::text::chars_eq(&self.entries[i].0, &parts[0]);
            proof {
                crate::text::lemma_deep_index(parts, 0);
            }
            if hit {
                proof {
                    lemma_spec_index_of(self@, parts.deep_view()[0], i as int);
                }
                assert(self@[i as int].0 == parts.deep_view()[0]);
                if parts.len() >= 2 {
                    let mut k: usize = 0;
                    let n = self.entries[i].1.len();
                    while k < n
                        invariant
                            k <= n,
                            i < self.entries.len(),
                            n == self.entries[i as int].1.len(),
                            self == old(self),
                            self.wf(),
                            parts.len() >= 2,
                            old_view == self@,
                            spec_index_of(self@, parts.deep_view()[0])
                                == Some(i as int),
                            self@[i as int].0 == parts.deep_view()[0],
                            forall|j: int|
                                0 <= j < k
                                    ==> self@[i as int].1[j] != parts.deep_view()[1],
                        decreases n - k,
                    {
                        let vhit = crate::text::chars_eq(&self.entries[i].1[k], &parts[1]);
                        proof {
                            crate::text::lemma_deep_index(parts, 1);
                            assert(self@[i as int].1[k as int]
                                == self.entries[i as int].1.deep_view()[k as int]);
                            assert(self.entries[i as int].1.deep_view()[k as int]
                                =~= self.entries[i as int].1@[k as int]@);
                        }
                        if vhit {
                            assert(self@[i as int].1[k as int] == parts.deep_view()[1]);
                            assert(self@[i as int].1.contains(parts.deep_view()[1]));
                            assert(self@ =~= spec_populate(old_view, parts.deep_view()));
                            return;
                        }
                        k = k + 1;
                    }
                    proof {
                        let pv = parts.deep_view();
                        assert(forall|j: int|
                            0 <= j < self@[i as int].1.len()
                                ==> self@[i as int].1[j] != pv[1]);
                        assert(!self@[i as int].1.contains(pv[1]));
                    }
                    let mut entry = self.entries.remove(i);
                    entry.1.push(parts[1].clone());
                    self.entries.insert(i, entry);
                    proof {
                        let pv = parts.deep_view();
                        assert(self@[i as int].1 =~= old_view[i as int].1.push(pv[1]));
                        assert(self@ =~~= spec_populate(old_view, pv));
                        assert(forall|j: int|
                            0 <= j < self@.len() && j != i
                                ==> self@[j] == old_view[j]);
                        assert(final(self).wf());
                    }
                } else {
                    assert(self@ =~= spec_populate(old_view, parts.deep_view()));
                }
                return;
            }
            i = i + 1;
        }
        let mut values: Vec<Vec<char>> = Vec::new();
        if parts.len() >= 2 {
            values.push(parts[1].clone());
        }
        self.entries.push((parts[0].clone(), values));
        proof {
            let pv = parts.deep_view();
            crate::text::lemma_deep_index(parts, 0);
            if pv.len() >= 2 {
                crate::text::lemma_deep_index(parts, 1);
            }
            lemma_spec_index_of_none(old_view, pv[0]);
            if pv.len() >= 2 {
                assert(values.deep_view() =~= seq![pv[1]]);
            } else {
                assert(values.deep_view() =~= Seq::<Seq<char>>::empty());
            }
            assert(self@ =~~= spec_populate(old_view, pv));
            assert(forall|j: int|
                0 <= j < old_view.len() ==> self@[j] == old_view[j]);
            assert(final(self).wf());
        }
    }

    /// Remove the entry for `s` and hand back its values as a trie of
    /// their own, as popping a subtree does.
    pub fn pop(&mut self, s: &str) -> (r: Option<Node>)
        requires
            old(self).wf(),
        ensures
            final(self).wf(),
            match spec_index_of(old(self)@, s@) {
                Some(i) => {
                    &&& r is Some
                    &&& r.unwrap().wf()
                    &&& r.unwrap()@ == Seq::new(
                        old(self)@[i].1.len(),
                        |k: int| (old(self)@[i].1[k], Seq::<Seq<char>>::empty()),
                    )
                    &&& final(self)@ == old(self)@.remove(i)
                },
                None => r is None && final(self)@ == old(self)@,
            },
    {
        let key = crate::text::str_chars(s);
        let mut i: usize = 0;
        while i < self.entries.len()
            invariant
                i <= self.entries.len(),
                self == old(self),
                self.wf(),
                key@ == s@,
                forall|j: int| 0 <= j < i ==> self@[j].0 != s@,
            decreases self.entries.len() - i,
        {
            if crate::text::chars_eq(&self.entries[i].0, &key) {
                proof {
                    lemma_spec_index_of(self@, s@, i as int);
                }
                let (_, values) = self.entries.remove(i);
                let mut sub: Vec<(Vec<char>, Vec<Vec<char>>)> = Vec::new();
                let mut k: usize = 0;
                while k < values.len()
                    invariant
                        k <= values.len(),
                        sub.len() == k,
                        forall|j: int|
                            0 <= j < k
                                ==> sub@[j].0@ == values.deep_view()[j]
                                    && sub@[j].1.deep_view()
                                        == Seq::<Seq<char>>::empty(),
                    decreases values.len() - k,
                {
                    let empty_vals: Vec<Vec<char>> = Vec::new();
                    assert(empty_vals.deep_view() =~= Seq::<Seq<char>>::empty());
                    sub.push((values[k].clone(), empty_vals));
                    k = k + 1;
                }
                let node = Node { entries: sub };
                proof {
                    let gi = i as int;
                    assert(node@ =~= Seq::new(
                        old(self)@[gi].1.len(),
                        |k: int| (old(self)@[gi].1[k], Seq::<Seq<char>>::empty()),
                    ));
                    assert(self@ =~= old(self)@.remove(gi));
                    assert(forall|x: int, y: int|
                        0 <= x < y < old(self)@[gi].1.len()
                            ==> old(self)@[gi].1[x] != old(self)@[gi].1[y]);
                }
                return Some(node);
            }
            i = i + 1;
        }
        proof {
            lemma_spec_index_of_none(self@, s@);
        }
        None
    }

    /// The single key of this trie, if it has exactly one; a setting with
    /// no value, or more than one, resolves to nothing.
    pub fn one(self) -> (r: Option<String>)
        ensures
            self@.len() == 1 ==> r is Some && r.unwrap()@ == self@[0].0,
            self@.len() != 1 ==> r is None,
    {
        if self.entries.len() == 1 {
            let mut entries = self.entries;
            match entries.pop() {
                Some((key, _)) => Some(crate::text::chars_to_string(&key)),
                None => None,
            }
        } else {
            None
        }
    }
}

/// What `populate` does to the association list.
pub open spec fn spec_populate(
    al: Seq<(Seq<char>, Seq<Seq<char>>)>,
    parts: Seq<Seq<char>>,
) -> Seq<(Seq<char>, Seq<Seq<char>>)> {
    if parts.len() == 0 {
        al
    } else {
        match spec_index_of(al, parts[0]) {
            Some(i) => {
                if parts.len() >= 2 && !al[i].1.contains(parts[1]) {
                    al.update(i, (al[i].0, al[i].1.push(parts[1])))
                } else {
                    al
                }
            },
            None => al.push(
                (parts[0], if parts.len() >= 2 { seq![parts[1]] } else { Seq::empty() }),
            ),
        }
    }
}

/// The index of `key` in the association list, if present.
pub open spec fn spec_index_of(
    al: Seq<(Seq<char>, Seq<Seq<char>>)>,
    key: Seq<char>,
) -> Option<int> {
    if exists|i: int| 0 <= i < al.len() && al[i].0 == key {
        Some(choose|i: int| 0 <= i < al.len() && #[trigger] al[i].0 == key)
    } else {
        None
    }
}

/// With distinct keys, finding `key` at `i` pins `spec_index_of` to `i`.
proof fn lemma_spec_index_of(al: Seq<(Seq<char>, Seq<Seq<char>>)>, key: Seq<char>, i: int)
    requires
        0 <= i < al.len(),
        al[i].0 == key,
        forall|x: int, y: int| 0 <= x < y < al.len() ==> al[x].0 != al[y].0,
    ensures
        spec_index_of(al, key) == Some(i),
{
    assert(0 <= i < al.len() && al[i].0 == key);
    let j = choose|j: int| 0 <= j < al.len() && #[trigger] al[j].0 == key;
    if j != i {
        if j < i {
            assert(al[j].0 != al[i].0);
        } else {
            assert(al[i].0 != al[j].0);
        }
    }
}

/// If no entry holds `key`, `spec_index_of` finds none.
proof fn lemma_spec_index_of_none(al: Seq<(Seq<char>, Seq<Seq<char>>)>, key: Seq<char>)
    requires
        forall|j: int| 0 <= j < al.len() ==> al[j].0 != key,
    ensures
        spec_index_of(al, key) == None::<int>,
{
}

} // verus!
