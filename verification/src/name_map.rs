//! Maps from names to values, kept in the order of the names.

use crate::text::str_chars;
use vstd::prelude::*;

verus! {

/// Whether the text `a` comes before the text `b`: at the first position
/// where they differ `a` has the lower character, or `a` ends there and `b`
/// does not.
pub open spec fn name_lt(a: Seq<char>, b: Seq<char>) -> bool
    decreases a.len(),
{
    if b.len() == 0 {
        false
    } else if a.len() == 0 {
        true
    } else if (a[0] as int) < (b[0] as int) {
        true
    } else if (a[0] as int) > (b[0] as int) {
        false
    } else {
        name_lt(a.skip(1), b.skip(1))
    }
}

/// Of two texts, one comes before the other or they are the same.
pub proof fn lemma_name_order_total(a: Seq<char>, b: Seq<char>)
    ensures
        name_lt(a, b) || name_lt(b, a) || a == b,
        !(name_lt(a, b) && name_lt(b, a)),
        !name_lt(a, a),
    decreases a.len(),
{
    lemma_name_irreflexive(a);
    if a.len() == 0 || b.len() == 0 {
        if a.len() == 0 && b.len() == 0 {
            assert(a =~= b);
        }
    } else if (a[0] as int) == (b[0] as int) {
        lemma_name_order_total(a.skip(1), b.skip(1));
        if a.skip(1) == b.skip(1) {
            assert(a =~= seq![a[0]] + a.skip(1));
            assert(b =~= seq![b[0]] + b.skip(1));
        }
    }
}

proof fn lemma_name_irreflexive(a: Seq<char>)
    ensures
        !name_lt(a, a),
    decreases a.len(),
{
    if a.len() > 0 {
        lemma_name_irreflexive(a.skip(1));
    }
}

/// What comes before a text that comes before a third comes before the
/// third.
pub proof fn lemma_name_order_transitive(a: Seq<char>, b: Seq<char>, c: Seq<char>)
    requires
        name_lt(a, b),
        name_lt(b, c),
    ensures
        name_lt(a, c),
    decreases a.len(),
{
    if a.len() > 0 && b.len() > 0 && c.len() > 0 {
        if (a[0] as int) == (b[0] as int) && (b[0] as int) == (c[0] as int) {
            lemma_name_order_transitive(a.skip(1), b.skip(1), c.skip(1));
        }
    }
}

/// Whether the names of `s` rise strictly.
pub open spec fn names_rise<V>(s: Seq<(String, V)>) -> bool {
    forall|i: int, j: int| 0 <= i < j < s.len() ==> name_lt(#[trigger] s[i].0@, #[trigger] s[j].0@)
}

/// The position of the name `name` in `s`, if it is there.
pub open spec fn position_of<V>(s: Seq<(String, V)>, name: Seq<char>) -> Option<int> {
    if exists|i: int| 0 <= i < s.len() && s[i].0@ == name {
        Some(choose|i: int| 0 <= i < s.len() && s[i].0@ == name)
    } else {
        None
    }
}

/// How the text `a` stands to the text `b`.
#[derive(Debug, Clone, Copy, PartialEq, Eq, Structural)]
pub enum NameOrder {
    Before,
    Same,
    After,
}

/// How the character `a` stands to the character `b`.
fn compare_char(a: char, b: char) -> (r: NameOrder)
    ensures
        match r {
            NameOrder::Before => (a as int) < (b as int),
            NameOrder::Same => a == b,
            NameOrder::After => (a as int) > (b as int),
        },
{
    let x: u32 = a as u32;
    let y: u32 = b as u32;
    if x < y {
        NameOrder::Before
    } else if x > y {
        NameOrder::After
    } else {
        NameOrder::Same
    }
}

/// How the text `a` stands to the text `b`.
fn compare_chars(a: &Vec<char>, b: &Vec<char>) -> (r: NameOrder)
    ensures
        match r {
            NameOrder::Before => name_lt(a@, b@),
            NameOrder::Same => a@ == b@,
            NameOrder::After => name_lt(b@, a@),
        },
{
    let mut i: usize = 0;
    assert(a@.skip(0) =~= a@);
    assert(b@.skip(0) =~= b@);
    assert(a@.take(0) =~= b@.take(0));
    while i < a.len() && i < b.len()
        invariant
            i <= a.len(),
            i <= b.len(),
            name_lt(a@, b@) == name_lt(a@.skip(i as int), b@.skip(i as int)),
            name_lt(b@, a@) == name_lt(b@.skip(i as int), a@.skip(i as int)),
            a@.take(i as int) == b@.take(i as int),
        decreases a.len() - i,
    {
        let ghost sa = a@.skip(i as int);
        let ghost sb = b@.skip(i as int);
        assert(sa[0] == a@[i as int]);
        assert(sb[0] == b@[i as int]);
        match compare_char(a[i], b[i]) {
            NameOrder::Before => {
                return NameOrder::Before;
            },
            NameOrder::After => {
                return NameOrder::After;
            },
            NameOrder::Same => {},
        }
        assert(sa.skip(1) =~= a@.skip(i + 1));
        assert(sb.skip(1) =~= b@.skip(i + 1));
        assert(a@.take(i + 1) =~= a@.take(i as int).push(a@[i as int]));
        assert(b@.take(i + 1) =~= b@.take(i as int).push(b@[i as int]));
        i += 1;
    }
    if i < b.len() {
        assert(a@.skip(i as int).len() == 0);
        NameOrder::Before
    } else if i < a.len() {
        assert(b@.skip(i as int).len() == 0);
        NameOrder::After
    } else {
        assert(a@.take(i as int) =~= a@);
        assert(b@.take(i as int) =~= b@);
        NameOrder::Same
    }
}

/// How the name `a` stands to the name `b`.
pub fn compare_names(a: &str, b: &str) -> (r: NameOrder)
    ensures
        match r {
            NameOrder::Before => name_lt(a@, b@),
            NameOrder::Same => a@ == b@,
            NameOrder::After => name_lt(b@, a@),
        },
{
    let ca = str_chars(a);
    let cb = str_chars(b);
    compare_chars(&ca, &cb)
}

/// A map from names to values. Its entries are kept by rising name.
#[derive(Debug)]
pub struct NameMap<V> {
    entries: Vec<(String, V)>,
}

impl<V> View for NameMap<V> {
    type V = Seq<(String, V)>;

    closed spec fn view(&self) -> Seq<(String, V)> {
        self.entries@
    }
}

impl<V> NameMap<V> {
    /// Whether the entries are kept by rising name.
    pub open spec fn wf(&self) -> bool {
        names_rise(self@)
    }

    /// Whether the map has an entry for `name`.
    pub open spec fn has(&self, name: Seq<char>) -> bool {
        exists|i: int| 0 <= i < self@.len() && self@[i].0@ == name
    }

    /// The value for `name`.
    pub open spec fn value(&self, name: Seq<char>) -> V {
        self@[position_of(self@, name)->0].1
    }

    /// A map without entries.
    pub fn new() -> (m: Self)
        ensures
            m@.len() == 0,
            m.wf(),
    {
        NameMap { entries: Vec::new() }
    }

    /// The number of entries.
    pub fn len(&self) -> (n: usize)
        ensures
            n == self@.len(),
    {
        self.entries.len()
    }

    /// The entry at position `i`, counted by rising name.
    pub fn entry(&self, i: usize) -> (e: &(String, V))
        requires
            i < self@.len(),
        ensures
            *e == self@[i as int],
    {
        &self.entries[i]
    }

    /// The first position whose name does not come before `name`, and
    /// whether the name at that position is `name`.
    fn find(&self, name: &str) -> (r: (usize, bool))
        requires
            self.wf(),
        ensures
            r.0 <= self@.len(),
            forall|j: int| 0 <= j < r.0 ==> name_lt(#[trigger] self@[j].0@, name@),
            r.1 ==> r.0 < self@.len() && self@[r.0 as int].0@ == name@,
            !r.1 ==> forall|j: int| r.0 <= j < self@.len() ==> name_lt(name@, #[trigger] self@[j].0@),
    {
        let mut i: usize = 0;
        while i < self.entries.len()
            invariant
                i <= self.entries.len(),
                self.wf(),
                forall|j: int| 0 <= j < i ==> name_lt(#[trigger] self@[j].0@, name@),
            decreases self.entries.len() - i,
        {
            match compare_names(self.entries[i].0.as_str(), name) {
                NameOrder::Before => {},
                NameOrder::Same => {
                    return (i, true);
                },
                NameOrder::After => {
                    proof {
                        assert forall|j: int| i <= j < self@.len() implies name_lt(
                            name@,
                            #[trigger] self@[j].0@,
                        ) by {
                            if j > i {
                                assert(name_lt(self@[i as int].0@, self@[j].0@));
                                lemma_name_order_transitive(
                                    name@,
                                    self@[i as int].0@,
                                    self@[j].0@,
                                );
                            }
                        }
                    }
                    return (i, false);
                },
            }
            i += 1;
        }
        (i, false)
    }

    /// The value for `name`, if the map has one.
    pub fn get(&self, name: &str) -> (r: Option<&V>)
        requires
            self.wf(),
        ensures
            r is Some <==> self.has(name@),
            r is Some ==> *r->0 == self.value(name@),
    {
        let (i, found) = self.find(name);
        if found {
            proof {
                self.lemma_position(i as int);
            }
            Some(&self.entries[i].1)
        } else {
            proof {
                if self.has(name@) {
                    let k = choose|k: int| 0 <= k < self@.len() && self@[k].0@ == name@;
                    lemma_name_order_total(name@, name@);
                }
            }
            None
        }
    }

    /// A name stands at one position only.
    pub proof fn lemma_position(&self, i: int)
        requires
            self.wf(),
            0 <= i < self@.len(),
        ensures
            position_of(self@, self@[i].0@) == Some(i),
            self.has(self@[i].0@),
            self.value(self@[i].0@) == self@[i].1,
    {
        let name = self@[i].0@;
        let k = choose|k: int| 0 <= k < self@.len() && self@[k].0@ == name;
        lemma_name_order_total(name, name);
        if k < i {
            assert(name_lt(self@[k].0@, self@[i].0@));
        } else if k > i {
            assert(name_lt(self@[i].0@, self@[k].0@));
        }
    }

    /// Sets the value for `name` to `v`: the entry for `name` gets the new
    /// value, or a new entry is made at the place where its name belongs.
    pub fn insert(&mut self, name: String, v: V)
        requires
            old(self).wf(),
        ensures
            final(self).wf(),
            final(self).has(name@),
            final(self).value(name@) == v,
            forall|other: Seq<char>|
                other != name@ ==> (final(self).has(other) <==> old(self).has(other)) && (old(
                    self,
                ).has(other) ==> final(self).value(other) == old(self).value(other)),
            final(self)@.len() == if old(self).has(name@) {
                old(self)@.len()
            } else {
                old(self)@.len() + 1
            },
    {
        let ghost before = self@;
        let (i, found) = self.find(name.as_str());
        if found {
            self.entries.set(i, (name, v));
            proof {
                assert forall|a: int, b: int| 0 <= a < b < self@.len() implies name_lt(
                    #[trigger] self@[a].0@,
                    #[trigger] self@[b].0@,
                ) by {
                    assert(name_lt(before[a].0@, before[b].0@));
                }
                self.lemma_position(i as int);
                assert forall|other: Seq<char>| other != name@ implies (self.has(other) <==> old(
                    self,
                ).has(other)) && (old(self).has(other) ==> self.value(other) == old(self).value(
                    other,
                )) by {
                    if old(self).has(other) {
                        let k = choose|k: int| 0 <= k < before.len() && before[k].0@ == other;
                        old(self).lemma_position(k);
                        assert(self@[k].0@ == other);
                        self.lemma_position(k);
                    }
                    if self.has(other) {
                        let k = choose|k: int| 0 <= k < self@.len() && self@[k].0@ == other;
                        assert(before[k].0@ == other);
                    }
                }
                assert(old(self).has(name@)) by {
                    assert(before[i as int].0@ == name@);
                }
            }
        } else {
            self.entries.insert(i, (name, v));
            proof {
                assert forall|a: int, b: int| 0 <= a < b < self@.len() implies name_lt(
                    #[trigger] self@[a].0@,
                    #[trigger] self@[b].0@,
                ) by {
                    if b < i {
                        assert(name_lt(before[a].0@, before[b].0@));
                    } else if b == i {
                        assert(name_lt(before[a].0@, name@));
                    } else if a < i {
                        assert(name_lt(before[a].0@, name@));
                        assert(name_lt(name@, before[b - 1].0@));
                        lemma_name_order_transitive(before[a].0@, name@, before[b - 1].0@);
                    } else if a == i {
                        assert(name_lt(name@, before[b - 1].0@));
                    } else {
                        assert(name_lt(before[a - 1].0@, before[b - 1].0@));
                    }
                }
                self.lemma_position(i as int);
                assert(!old(self).has(name@)) by {
                    if old(self).has(name@) {
                        let k = choose|k: int| 0 <= k < before.len() && before[k].0@ == name@;
                        lemma_name_order_total(name@, name@);
                        if k < i {
                            assert(name_lt(before[k].0@, name@));
                        } else {
                            assert(name_lt(name@, before[k].0@));
                        }
                    }
                }
                assert forall|other: Seq<char>| other != name@ implies (self.has(other) <==> old(
                    self,
                ).has(other)) && (old(self).has(other) ==> self.value(other) == old(self).value(
                    other,
                )) by {
                    if old(self).has(other) {
                        let k = choose|k: int| 0 <= k < before.len() && before[k].0@ == other;
                        old(self).lemma_position(k);
                        let k2 = if k < i {
                            k
                        } else {
                            k + 1
                        };
                        assert(self@[k2].0@ == other);
                        self.lemma_position(k2);
                    }
                    if self.has(other) {
                        let k = choose|k: int| 0 <= k < self@.len() && self@[k].0@ == other;
                        if k < i {
                            assert(before[k].0@ == other);
                        } else {
                            assert(before[k - 1].0@ == other);
                        }
                    }
                }
            }
        }
    }
}

} // verus!
