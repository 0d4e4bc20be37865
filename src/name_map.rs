use vstd::prelude::*;
use vstd::string::StringSliceAdditionalSpecFns;

verus! {

/// The mapping that a list of named entries stands for.
pub open spec fn map_of<V>(s: Seq<(String, V)>) -> Map<Seq<char>, V>
    decreases s.len(),
{
    if s.len() == 0 {
        Map::empty()
    } else {
        map_of(s.drop_last()).insert(s.last().0@, s.last().1)
    }
}

/// No two entries share a name.
pub open spec fn unique_names<V>(s: Seq<(String, V)>) -> bool {
    forall|i: int, j: int| 0 <= i < j < s.len() ==> #[trigger] s[i].0@ != #[trigger] s[j].0@
}

pub proof fn lemma_map_of<V>(s: Seq<(String, V)>)
    requires
        unique_names(s),
    ensures
        forall|k: Seq<char>|
            #[trigger] map_of(s).contains_key(k) <==> exists|i: int|
                0 <= i < s.len() && #[trigger] s[i].0@ == k,
        forall|i: int| 0 <= i < s.len() ==> #[trigger] map_of(s)[s[i].0@] == s[i].1,
    decreases s.len(),
{
    if s.len() > 0 {
        let t = s.drop_last();
        assert(unique_names(t));
        lemma_map_of(t);
        assert(map_of(s) == map_of(t).insert(s.last().0@, s.last().1));
        assert(forall|i: int| 0 <= i < t.len() ==> #[trigger] t[i] == s[i]);
        assert forall|k: Seq<char>|
            #[trigger] map_of(s).contains_key(k) <==> exists|i: int|
                0 <= i < s.len() && #[trigger] s[i].0@ == k by {
            if map_of(s).contains_key(k) && k != s.last().0@ {
                assert(map_of(t).contains_key(k));
                let i = choose|i: int| 0 <= i < t.len() && #[trigger] t[i].0@ == k;
                assert(t[i] == s[i]);
                assert(s[i].0@ == k);
            }
            if exists|i: int| 0 <= i < s.len() && #[trigger] s[i].0@ == k {
                let i = choose|i: int| 0 <= i < s.len() && #[trigger] s[i].0@ == k;
                if i < t.len() {
                    assert(t[i].0@ == k);
                }
            }
        }
        assert forall|i: int| 0 <= i < s.len() implies #[trigger] map_of(s)[s[i].0@] == s[i].1 by {
            if i < t.len() {
                assert(t[i] == s[i]);
                assert(s[i].0@ != s[s.len() - 1].0@);
                assert(map_of(t)[t[i].0@] == t[i].1);
            }
        }
    }
}

/// An ordered name-to-value mapping: entries sorted by the bytes of their
/// names, no name twice.
#[derive(Clone, Debug, PartialEq)]
pub struct NameMap<V> {
    entries: Vec<(String, V)>,
}

impl<V> View for NameMap<V> {
    type V = Map<Seq<char>, V>;

    closed spec fn view(&self) -> Map<Seq<char>, V> {
        map_of(self.entries@)
    }
}

/// Whether two strings hold the same characters (compared byte by byte).
pub fn same_text(a: &str, b: &str) -> (r: bool)
    ensures
        r == (a@ == b@),
{
    let x = a.as_bytes();
    let y = b.as_bytes();
    if x.len() != y.len() {
        return false;
    }
    let mut i: usize = 0;
    while i < x.len()
        invariant
            x@ == a.spec_bytes(),
            y@ == b.spec_bytes(),
            x@.len() == y@.len(),
            i <= x@.len(),
            forall|j: int| 0 <= j < i ==> x@[j] == y@[j],
        decreases x.len() - i,
    {
        if x[i] != y[i] {
            return false;
        }
        i = i + 1;
    }
    assert(x@ =~= y@);
    proof {
        vstd::utf8::encode_utf8_decode_utf8(a@);
        vstd::utf8::encode_utf8_decode_utf8(b@);
    }
    true
}

/// `a` and `b` agree before index `i`, where `a` ends first or holds the
/// smaller byte.
pub open spec fn first_difference(a: Seq<u8>, b: Seq<u8>, i: int) -> bool {
    &&& 0 <= i <= a.len()
    &&& i <= b.len()
    &&& forall|j: int| 0 <= j < i ==> a[j] == b[j]
    &&& (i == a.len() && i < b.len()) || (i < a.len() && i < b.len() && a[i] < b[i])
}

/// Byte order of UTF-8 text, as `String`'s `Ord` has it.
pub open spec fn bytes_before(a: Seq<u8>, b: Seq<u8>) -> bool {
    exists|i: int| first_difference(a, b, i)
}

/// `a` comes before `b` in the order of their UTF-8 bytes.
pub open spec fn name_before(a: Seq<char>, b: Seq<char>) -> bool {
    bytes_before(vstd::utf8::encode_utf8(a), vstd::utf8::encode_utf8(b))
}

/// Names in strictly increasing order.
pub open spec fn sorted_names<V>(s: Seq<(String, V)>) -> bool {
    forall|i: int, j: int|
        0 <= i < j < s.len() ==> name_before(#[trigger] s[i].0@, #[trigger] s[j].0@)
}

pub proof fn lemma_before_transitive(a: Seq<u8>, b: Seq<u8>, c: Seq<u8>)
    requires
        bytes_before(a, b),
        bytes_before(b, c),
    ensures
        bytes_before(a, c),
{
    let i = choose|i: int| first_difference(a, b, i);
    let j = choose|j: int| first_difference(b, c, j);
    let k = if i < j {
        i
    } else {
        j
    };
    assert(first_difference(a, c, k));
}

/// Orders two strings by their UTF-8 bytes: negative, zero or positive.
fn compare_text(a: &str, b: &str) -> (r: i8)
    ensures
        r == 0 <==> a@ == b@,
        r < 0 ==> name_before(a@, b@),
        r > 0 ==> name_before(b@, a@),
{
    let x = a.as_bytes();
    let y = b.as_bytes();
    let mut i: usize = 0;
    while i < x.len() && i < y.len()
        invariant
            x@ == a.spec_bytes(),
            y@ == b.spec_bytes(),
            i <= x@.len(),
            i <= y@.len(),
            forall|j: int| 0 <= j < i ==> x@[j] == y@[j],
        decreases x.len() - i,
    {
        if x[i] < y[i] {
            assert(first_difference(x@, y@, i as int));
            return -1;
        }
        if x[i] > y[i] {
            assert(first_difference(y@, x@, i as int));
            return 1;
        }
        i = i + 1;
    }
    if x.len() < y.len() {
        assert(first_difference(x@, y@, i as int));
        -1
    } else if x.len() > y.len() {
        assert(first_difference(y@, x@, i as int));
        1
    } else {
        assert(x@ =~= y@);
        proof {
            vstd::utf8::encode_utf8_decode_utf8(a@);
            vstd::utf8::encode_utf8_decode_utf8(b@);
        }
        0
    }
}

impl<V> NameMap<V> {
    pub closed spec fn wf(&self) -> bool {
        &&& unique_names(self.entries@)
        &&& sorted_names(self.entries@)
    }

    /// The entries in order.
    pub closed spec fn pairs(&self) -> Seq<(String, V)> {
        self.entries@
    }

    pub fn new() -> (r: Self)
        ensures
            r.wf(),
            r@ == Map::<Seq<char>, V>::empty(),
            r.pairs().len() == 0,
    {
        NameMap { entries: Vec::new() }
    }

    pub fn len(&self) -> (r: usize)
        ensures
            r == self.pairs().len(),
    {
        self.entries.len()
    }

    pub fn is_empty(&self) -> (r: bool)
        ensures
            r == (self.pairs().len() == 0),
    {
        self.entries.len() == 0
    }

    /// The entries in order of their names.
    pub fn as_slice(&self) -> (r: &[(String, V)])
        ensures
            r@ == self.pairs(),
            self.wf() ==> sorted_names(r@),
    {
        self.entries.as_slice()
    }

    /// Index of the entry named `key`, if there is one.
    fn position(&self, key: &str) -> (r: Option<usize>)
        requires
            self.wf(),
        ensures
            match r {
                Some(i) => i < self.entries@.len() && self.entries@[i as int].0@ == key@,
                None => forall|i: int|
                    0 <= i < self.entries@.len() ==> #[trigger] self.entries@[i].0@ != key@,
            },
    {
        let mut i: usize = 0;
        while i < self.entries.len()
            invariant
                i <= self.entries@.len(),
                forall|j: int| 0 <= j < i ==> #[trigger] self.entries@[j].0@ != key@,
            decreases self.entries.len() - i,
        {
            if same_text(self.entries[i].0.as_str(), key) {
                return Some(i);
            }
            i = i + 1;
        }
        None
    }

    pub fn get(&self, key: &str) -> (r: Option<&V>)
        requires
            self.wf(),
        ensures
            match r {
                Some(v) => self@.contains_key(key@) && *v == self@[key@],
                None => !self@.contains_key(key@),
            },
    {
        proof {
            lemma_map_of(self.entries@);
        }
        match self.position(key) {
            Some(i) => Some(&self.entries[i].1),
            None => None,
        }
    }

    pub fn get_key_value(&self, key: &str) -> (r: Option<(&String, &V)>)
        requires
            self.wf(),
        ensures
            match r {
                Some(p) => self@.contains_key(key@) && p.0@ == key@ && *p.1 == self@[key@],
                None => !self@.contains_key(key@),
            },
    {
        proof {
            lemma_map_of(self.entries@);
        }
        match self.position(key) {
            Some(i) => Some((&self.entries[i].0, &self.entries[i].1)),
            None => None,
        }
    }

    /// The value under `key`, to change in place. The names stay as they are.
    pub fn get_mut(&mut self, key: &str) -> (r: Option<&mut V>)
        requires
            old(self).wf(),
        ensures
            final(self).wf(),
            match r {
                Some(v) => old(self)@.contains_key(key@) && *v == old(self)@[key@],
                None => !old(self)@.contains_key(key@) && *final(self) == *old(self),
            },
    {
        proof {
            lemma_map_of(self.entries@);
        }
        match self.position(key) {
            Some(i) => Some(&mut self.entries[i].1),
            None => None,
        }
    }

    pub fn contains_key(&self, key: &str) -> (r: bool)
        requires
            self.wf(),
        ensures
            r == self@.contains_key(key@),
    {
        proof {
            lemma_map_of(self.entries@);
        }
        self.position(key).is_some()
    }

    /// Sets the value under `key`; a value already there is replaced and returned.
    pub fn insert(&mut self, key: String, value: V) -> (r: Option<V>)
        requires
            old(self).wf(),
        ensures
            final(self).wf(),
            final(self)@ == old(self)@.insert(key@, value),
            match r {
                Some(v) => old(self)@.contains_key(key@) && v == old(self)@[key@],
                None => !old(self)@.contains_key(key@),
            },
    {
        proof {
            lemma_map_of(self.entries@);
        }
        let ghost k = key@;
        let ghost v0 = value;
        match self.position(key.as_str()) {
            Some(i) => {
                let ghost s0 = self.entries@;
                let old_entry = self.entries.remove(i);
                self.entries.insert(i, (key, value));
                proof {
                    let s = self.entries@;
                    assert(s =~= s0.update(i as int, (s[i as int].0, v0)));
                    assert(old_entry == s0[i as int]);
                    assert(forall|j: int| 0 <= j < s.len() ==> #[trigger] s[j].0@ == s0[j].0@);
                    assert(unique_names(s));
                    assert(sorted_names(s));
                    lemma_map_of(s);
                    assert(self@ =~= map_of(s0).insert(k, v0)) by {
                        assert forall|x: Seq<char>| #[trigger]
                            self@.contains_key(x) implies map_of(s0).insert(k, v0).contains_key(
                            x,
                        ) by {
                            let j = choose|j: int| 0 <= j < s.len() && #[trigger] s[j].0@ == x;
                            if j != i {
                                assert(s0[j].0@ == x);
                            }
                        }
                        assert forall|x: Seq<char>| #[trigger]
                            map_of(s0).insert(k, v0).contains_key(x) implies self@.contains_key(x)
                            && self@[x] == map_of(s0).insert(k, v0)[x] by {
                            if x == k {
                                assert(s[i as int].0@ == x);
                            } else {
                                let j = choose|j: int| 0 <= j < s0.len() && #[trigger] s0[j].0@ == x;
                                assert(s[j].0@ == x);
                            }
                        }
                    }
                }
                Some(old_entry.1)
            },
            None => {
                let mut p: usize = 0;
                let mut found = false;
                while !found && p < self.entries.len()
                    invariant
                        p <= self.entries@.len(),
                        forall|i: int|
                            0 <= i < self.entries@.len() ==> #[trigger] self.entries@[i].0@
                                != key@,
                        forall|j: int|
                            0 <= j < p ==> name_before(#[trigger] self.entries@[j].0@, key@),
                        found ==> p < self.entries@.len() && name_before(
                            key@,
                            self.entries@[p as int].0@,
                        ),
                    decreases self.entries.len() - p, if found {
                        0int
                    } else {
                        1int
                    },
                {
                    if compare_text(self.entries[p].0.as_str(), key.as_str()) > 0 {
                        found = true;
                    } else {
                        p = p + 1;
                    }
                }
                let ghost s0 = self.entries@;
                self.entries.insert(p, (key, value));
                proof {
                    let s = self.entries@;
                    assert(s == s0.insert(p as int, (s[p as int].0, v0)));
                    assert forall|a: int, b: int| 0 <= a < b < s.len() implies #[trigger] s[a].0@
                        != #[trigger] s[b].0@ by {
                        if a < p && b > p {
                            assert(s[b] == s0[b - 1]);
                        } else if a > p {
                            assert(s[a] == s0[a - 1]);
                            assert(s[b] == s0[b - 1]);
                        } else if a == p {
                            assert(s[b] == s0[b - 1]);
                        }
                    }
                    assert(unique_names(s));
                    assert forall|a: int, b: int| 0 <= a < b < s.len() implies name_before(
                        #[trigger] s[a].0@,
                        #[trigger] s[b].0@,
                    ) by {
                        if a < p && b == p {
                            assert(name_before(s0[a].0@, k));
                        } else if a < p && b > p {
                            assert(s[b] == s0[b - 1]);
                            assert(name_before(s0[a].0@, s0[b - 1].0@));
                        } else if a == p {
                            assert(s[b] == s0[b - 1]);
                            if b - 1 > p {
                                assert(name_before(s0[p as int].0@, s0[b - 1].0@));
                                lemma_before_transitive(
                                    vstd::utf8::encode_utf8(k),
                                    vstd::utf8::encode_utf8(s0[p as int].0@),
                                    vstd::utf8::encode_utf8(s0[b - 1].0@),
                                );
                            }
                        } else if a > p {
                            assert(s[a] == s0[a - 1]);
                            assert(s[b] == s0[b - 1]);
                            assert(name_before(s0[a - 1].0@, s0[b - 1].0@));
                        } else {
                            assert(name_before(s0[a].0@, s0[b].0@));
                        }
                    }
                    lemma_map_of(s);
                    assert(self@ =~= map_of(s0).insert(k, v0)) by {
                        assert forall|x: Seq<char>| #[trigger]
                            self@.contains_key(x) implies map_of(s0).insert(k, v0).contains_key(
                            x,
                        ) by {
                            let j = choose|j: int| 0 <= j < s.len() && #[trigger] s[j].0@ == x;
                            if j < p {
                                assert(s0[j].0@ == x);
                            } else if j > p {
                                assert(s0[j - 1].0@ == x);
                            }
                        }
                        assert forall|x: Seq<char>| #[trigger]
                            map_of(s0).insert(k, v0).contains_key(x) implies self@.contains_key(x)
                            && self@[x] == map_of(s0).insert(k, v0)[x] by {
                            if x == k {
                                assert(s[p as int].0@ == x);
                            } else {
                                let j = choose|j: int| 0 <= j < s0.len() && #[trigger] s0[j].0@ == x;
                                if j < p {
                                    assert(s[j].0@ == x);
                                } else {
                                    assert(s[j + 1].0@ == x);
                                }
                            }
                        }
                    }
                }
                None
            },
        }
    }

    /// Takes out the entry named `key` and returns its value.
    pub fn remove(&mut self, key: &str) -> (r: Option<V>)
        requires
            old(self).wf(),
        ensures
            final(self).wf(),
            final(self)@ == old(self)@.remove(key@),
            match r {
                Some(v) => old(self)@.contains_key(key@) && v == old(self)@[key@],
                None => !old(self)@.contains_key(key@),
            },
    {
        proof {
            lemma_map_of(self.entries@);
        }
        let ghost k = key@;
        match self.position(key) {
            Some(i) => {
                let ghost s0 = self.entries@;
                let entry = self.entries.remove(i);
                proof {
                    let s = self.entries@;
                    assert(s =~= s0.remove(i as int));
                    assert forall|a: int, b: int| 0 <= a < b < s.len() implies #[trigger] s[a].0@
                        != #[trigger] s[b].0@ by {
                        if a < i && b >= i {
                            assert(s[b] == s0[b + 1]);
                        } else if a >= i {
                            assert(s[a] == s0[a + 1]);
                            assert(s[b] == s0[b + 1]);
                        }
                    }
                    lemma_map_of(s);
                    assert(self@ =~= map_of(s0).remove(k)) by {
                        assert forall|x: Seq<char>| #[trigger]
                            self@.contains_key(x) implies map_of(s0).remove(k).contains_key(x) by {
                            let j = choose|j: int| 0 <= j < s.len() && #[trigger] s[j].0@ == x;
                            if j < i {
                                assert(s0[j].0@ == x);
                            } else {
                                assert(s0[j + 1].0@ == x);
                            }
                        }
                        assert forall|x: Seq<char>| #[trigger]
                            map_of(s0).remove(k).contains_key(x) implies self@.contains_key(x)
                            && self@[x] == map_of(s0).remove(k)[x] by {
                            let j = choose|j: int| 0 <= j < s0.len() && #[trigger] s0[j].0@ == x;
                            if j < i {
                                assert(s[j].0@ == x);
                            } else {
                                assert(j != i);
                                assert(s[j - 1].0@ == x);
                            }
                        }
                    }
                }
                Some(entry.1)
            },
            None => None,
        }
    }
}

impl<V> NameMap<V> {
    /// The mapping is the one its entries stand for, and no name repeats.
    pub proof fn lemma_view(&self)
        requires
            self.wf(),
        ensures
            self@ == map_of(self.pairs()),
            unique_names(self.pairs()),
    {
    }

    /// The entries are smaller than the map, for recursion over nested maps.
    pub proof fn lemma_pairs_decrease(&self)
        ensures
            decreases_to!(*self => self.pairs()),
    {
        assert(decreases_to!(*self => self.entries));
        assert(decreases_to!(self.entries => self.entries@));
    }

    /// Each value held is smaller than the map, for recursion over nested maps.
    pub proof fn lemma_value_decreases(&self, i: int)
        requires
            0 <= i < self.pairs().len(),
        ensures
            decreases_to!(*self => self.pairs()[i].1),
    {
        assert(decreases_to!(*self => self.entries));
        assert(decreases_to!(self.entries => self.entries@));
        assert(decreases_to!(self.entries@ => self.entries@[i]));
        assert(decreases_to!(self.entries@[i] => self.entries@[i].1));
    }
}

} // verus!
