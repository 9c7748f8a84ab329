//! A map keyed by names, kept sorted in the byte order of the names'
//! UTF-8 encodings (the order in which `str` compares), so that walking it
//! visits the names in ascending order.
use vstd::prelude::*;
use vstd::utf8::*;

verus! {

broadcast use vstd::utf8::encode_utf8_decode_utf8;

/// Lexicographic comparison of two byte strings, from position `i` on.
pub open spec fn lex_lt_from(a: Seq<u8>, b: Seq<u8>, i: nat) -> bool
    decreases a.len() - i,
{
    if i >= a.len() {
        i < b.len()
    } else if i >= b.len() {
        false
    } else if a[i as int] != b[i as int] {
        a[i as int] < b[i as int]
    } else {
        lex_lt_from(a, b, i + 1)
    }
}

/// `a` comes strictly before `b` in lexicographic byte order.
pub open spec fn bytes_lt(a: Seq<u8>, b: Seq<u8>) -> bool {
    lex_lt_from(a, b, 0)
}

/// The order of names: that of their UTF-8 encodings.
pub open spec fn name_lt(a: Seq<char>, b: Seq<char>) -> bool {
    bytes_lt(encode_utf8(a), encode_utf8(b))
}

proof fn lemma_lex_irreflexive(a: Seq<u8>, i: nat)
    ensures
        !lex_lt_from(a, a, i),
    decreases a.len() - i,
{
    if i < a.len() {
        lemma_lex_irreflexive(a, i + 1);
    }
}

proof fn lemma_lex_transitive(a: Seq<u8>, b: Seq<u8>, c: Seq<u8>, i: nat)
    requires
        lex_lt_from(a, b, i),
        lex_lt_from(b, c, i),
    ensures
        lex_lt_from(a, c, i),
    decreases a.len() - i,
{
    if i < a.len() && i < b.len() && i < c.len() {
        if a[i as int] == b[i as int] && b[i as int] == c[i as int] {
            lemma_lex_transitive(a, b, c, i + 1);
        }
    }
}

proof fn lemma_lex_total(a: Seq<u8>, b: Seq<u8>, i: nat)
    requires
        a.len() >= i,
        b.len() >= i,
        a.subrange(i as int, a.len() as int) != b.subrange(i as int, b.len() as int),
    ensures
        lex_lt_from(a, b, i) || lex_lt_from(b, a, i),
    decreases a.len() - i,
{
    if i < a.len() && i < b.len() && a[i as int] == b[i as int] {
        let sa = a.subrange(i as int, a.len() as int);
        let sb = b.subrange(i as int, b.len() as int);
        let ta = a.subrange(i + 1 as int, a.len() as int);
        let tb = b.subrange(i + 1 as int, b.len() as int);
        if ta == tb {
            assert(ta.len() == tb.len());
            assert(sa.len() == sb.len());
            assert forall|k: int| 0 <= k < sa.len() implies sa[k] == sb[k] by {
                if k > 0 {
                    assert(sa[k] == ta[k - 1]);
                    assert(sb[k] == tb[k - 1]);
                }
            }
            assert(sa =~= sb);
        }
        lemma_lex_total(a, b, i + 1);
    } else if i == a.len() && i == b.len() {
        assert(a.subrange(i as int, a.len() as int) =~= b.subrange(i as int, b.len() as int));
    }
}

/// The order on names is a strict total order.
pub proof fn lemma_name_order(a: Seq<char>, b: Seq<char>, c: Seq<char>)
    ensures
        !name_lt(a, a),
        name_lt(a, b) && name_lt(b, c) ==> name_lt(a, c),
        a != b ==> name_lt(a, b) || name_lt(b, a),
        name_lt(a, b) ==> !name_lt(b, a),
{
    lemma_lex_irreflexive(encode_utf8(a), 0);
    if name_lt(a, b) && name_lt(b, c) {
        lemma_lex_transitive(encode_utf8(a), encode_utf8(b), encode_utf8(c), 0);
    }
    if name_lt(a, b) && name_lt(b, a) {
        lemma_lex_transitive(encode_utf8(a), encode_utf8(b), encode_utf8(a), 0);
        lemma_lex_irreflexive(encode_utf8(a), 0);
    }
    if a != b {
        let ea = encode_utf8(a);
        let eb = encode_utf8(b);
        assert(ea.subrange(0, ea.len() as int) =~= ea);
        assert(eb.subrange(0, eb.len() as int) =~= eb);
        if ea == eb {
            assert(decode_utf8(ea) == a);
        }
        lemma_lex_total(ea, eb, 0);
    }
}

/// Compares two names in byte order: negative, zero or positive as `a` comes
/// before, equals or comes after `b`.
pub fn compare_names(a: &str, b: &str) -> (r: i8)
    ensures
        r < 0 <==> name_lt(a@, b@),
        r == 0 <==> a@ == b@,
        r > 0 <==> name_lt(b@, a@),
{
    let x = a.as_bytes();
    let y = b.as_bytes();
    proof {
        lemma_name_order(a@, b@, a@);
    }
    let mut i: usize = 0;
    while i < x.len() && i < y.len() && x[i] == y[i]
        invariant
            x@ == encode_utf8(a@),
            y@ == encode_utf8(b@),
            i <= x@.len(),
            i <= y@.len(),
            x@.subrange(0, i as int) =~= y@.subrange(0, i as int),
            lex_lt_from(x@, y@, 0) == lex_lt_from(x@, y@, i as nat),
            lex_lt_from(y@, x@, 0) == lex_lt_from(y@, x@, i as nat),
        decreases x@.len() - i,
    {
        assert(x@.subrange(0, i + 1) =~= x@.subrange(0, i as int).push(x@[i as int]));
        assert(y@.subrange(0, i + 1) =~= y@.subrange(0, i as int).push(y@[i as int]));
        i = i + 1;
    }
    if i < x.len() && i < y.len() {
        if x[i] < y[i] {
            -1
        } else {
            1
        }
    } else if i < y.len() {
        -1
    } else if i < x.len() {
        1
    } else {
        assert(x@ =~= x@.subrange(0, i as int));
        assert(y@ =~= y@.subrange(0, i as int));
        assert(decode_utf8(x@) == a@);
        0
    }
}

/// The names of `s` strictly ascend.
pub open spec fn ascending<V>(s: Seq<(String, V)>) -> bool {
    forall|i: int, j: int| 0 <= i < j < s.len() ==> name_lt(#[trigger] s[i].0@, #[trigger] s[j].0@)
}

/// Some entry of `s` has the name `k`.
pub open spec fn has_name<V>(s: Seq<(String, V)>, k: Seq<char>) -> bool {
    exists|i: int| 0 <= i < s.len() && #[trigger] s[i].0@ == k
}

/// The position of the entry named `k` in `s`.
pub open spec fn position_of<V>(s: Seq<(String, V)>, k: Seq<char>) -> int {
    choose|i: int| 0 <= i < s.len() && #[trigger] s[i].0@ == k
}

/// The map that a sequence of named entries stands for.
pub open spec fn entries_map<V>(s: Seq<(String, V)>) -> Map<Seq<char>, V> {
    Map::new(|k: Seq<char>| has_name(s, k), |k: Seq<char>| s[position_of(s, k)].1)
}

proof fn lemma_position<V>(s: Seq<(String, V)>, i: int)
    requires
        ascending(s),
        0 <= i < s.len(),
    ensures
        has_name(s, s[i].0@),
        position_of(s, s[i].0@) == i,
        entries_map(s).contains_key(s[i].0@),
        entries_map(s)[s[i].0@] == s[i].1,
{
    let k = s[i].0@;
    assert(has_name(s, k));
    let j = position_of(s, k);
    if j != i {
        lemma_name_order(s[i].0@, s[j].0@, s[i].0@);
    }
}

/// The sum of the weights `w` of the values of `s`.
pub open spec fn sum_entries<V>(s: Seq<(String, V)>, w: spec_fn(V) -> nat) -> nat
    decreases s.len(),
{
    if s.len() == 0 {
        0
    } else {
        sum_entries(s.drop_last(), w) + w(s.last().1)
    }
}

proof fn lemma_sum_insert<V>(s: Seq<(String, V)>, i: int, e: (String, V), w: spec_fn(V) -> nat)
    requires
        0 <= i <= s.len(),
    ensures
        sum_entries(s.insert(i, e), w) == sum_entries(s, w) + w(e.1),
    decreases s.len(),
{
    if i == s.len() {
        assert(s.insert(i, e).drop_last() =~= s);
    } else {
        lemma_sum_insert(s.drop_last(), i, e, w);
        assert(s.insert(i, e).drop_last() =~= s.drop_last().insert(i, e));
    }
}

proof fn lemma_sum_update<V>(s: Seq<(String, V)>, i: int, e: (String, V), w: spec_fn(V) -> nat)
    requires
        0 <= i < s.len(),
    ensures
        sum_entries(s.update(i, e), w) + w(s[i].1) == sum_entries(s, w) + w(e.1),
    decreases s.len(),
{
    if i == s.len() - 1 {
        assert(s.update(i, e).drop_last() =~= s.drop_last());
    } else {
        lemma_sum_update(s.drop_last(), i, e, w);
        assert(s.update(i, e).drop_last() =~= s.drop_last().update(i, e));
    }
}

proof fn lemma_sum_remove<V>(s: Seq<(String, V)>, i: int, w: spec_fn(V) -> nat)
    requires
        0 <= i < s.len(),
    ensures
        sum_entries(s.remove(i), w) + w(s[i].1) == sum_entries(s, w),
    decreases s.len(),
{
    if i == s.len() - 1 {
        assert(s.remove(i) =~= s.drop_last());
    } else {
        lemma_sum_remove(s.drop_last(), i, w);
        assert(s.remove(i).drop_last() =~= s.drop_last().remove(i));
    }
}

/// A map from names to values, walked in ascending order of the names.
pub struct NameMap<V> {
    entries: Vec<(String, V)>,
}

impl<V> NameMap<V> {
    /// The entries, in ascending order of their names.
    pub closed spec fn entries(&self) -> Seq<(String, V)> {
        self.entries@
    }

    /// Well-formedness: the names strictly ascend.
    pub open spec fn wf(&self) -> bool {
        ascending(self.entries())
    }

    /// The map from names to values.
    pub open spec fn view(&self) -> Map<Seq<char>, V> {
        entries_map(self.entries())
    }

    /// The sum of the weights `w` of the values.
    pub open spec fn total(&self, w: spec_fn(V) -> nat) -> nat {
        sum_entries(self.entries(), w)
    }

    /// The entries of a well-formed map stand for its view: each entry is
    /// in the view, and each name of the view is that of an entry.
    pub proof fn lemma_entries(&self)
        requires
            self.wf(),
        ensures
            forall|i: int|
                0 <= i < self.entries().len() ==> #[trigger] self@.contains_key(
                    self.entries()[i].0@,
                ) && self@[self.entries()[i].0@] == self.entries()[i].1,
            forall|k: Seq<char>|
                #[trigger] self@.contains_key(k) ==> exists|i: int|
                    0 <= i < self.entries().len() && #[trigger] self.entries()[i].0@ == k,
            self@.dom().finite(),
            self@.dom().len() == self.entries().len(),
    {
        let s = self.entries();
        assert forall|i: int| 0 <= i < s.len() implies #[trigger] self@.contains_key(s[i].0@)
            && self@[s[i].0@] == s[i].1 by {
            lemma_position(s, i);
        }
        lemma_dom_len(s);
    }

    pub fn new() -> (m: Self)
        ensures
            m.wf(),
            m.entries() == Seq::<(String, V)>::empty(),
            m@ == Map::<Seq<char>, V>::empty(),
    {
        let m = NameMap { entries: Vec::new() };
        assert(m@ =~= Map::<Seq<char>, V>::empty());
        m
    }

    pub fn len(&self) -> (n: usize)
        ensures
            n == self.entries().len(),
    {
        self.entries.len()
    }

    /// The entry at position `i`.
    pub fn entry_at(&self, i: usize) -> (e: &(String, V))
        requires
            i < self.entries().len(),
        ensures
            *e == self.entries()[i as int],
    {
        &self.entries[i]
    }

    /// The position at which `k` stands, or would stand, in the entries,
    /// and whether an entry of that name is there.
    fn locate(&self, k: &str) -> (r: (usize, bool))
        requires
            self.wf(),
        ensures
            r.0 <= self.entries().len(),
            forall|j: int| 0 <= j < r.0 ==> name_lt(#[trigger] self.entries()[j].0@, k@),
            r.1 ==> r.0 < self.entries().len() && self.entries()[r.0 as int].0@ == k@,
            !r.1 ==> forall|j: int|
                r.0 <= j < self.entries().len() ==> name_lt(k@, #[trigger] self.entries()[j].0@),
    {
        let mut i: usize = 0;
        while i < self.entries.len()
            invariant
                self.wf(),
                i <= self.entries@.len(),
                forall|j: int| 0 <= j < i ==> name_lt(#[trigger] self.entries@[j].0@, k@),
            decreases self.entries@.len() - i,
        {
            let c = compare_names(self.entries[i].0.as_str(), k);
            if c == 0 {
                return (i, true);
            } else if c > 0 {
                proof {
                    assert forall|j: int| i <= j < self.entries@.len() implies name_lt(
                        k@,
                        #[trigger] self.entries@[j].0@,
                    ) by {
                        if j > i {
                            lemma_name_order(k@, self.entries@[i as int].0@, self.entries@[j].0@);
                        }
                    }
                }
                return (i, false);
            }
            i = i + 1;
        }
        (i, false)
    }

    /// Whether some entry has the name `k`.
    pub fn contains_key(&self, k: &str) -> (b: bool)
        requires
            self.wf(),
        ensures
            b == self@.contains_key(k@),
    {
        let (i, found) = self.locate(k);
        proof {
            if found {
                lemma_position(self.entries(), i as int);
            } else {
                lemma_absent(self.entries(), k@, i as int);
            }
        }
        found
    }

    /// The value of the entry named `k`, if any.
    pub fn get(&self, k: &str) -> (r: Option<&V>)
        requires
            self.wf(),
        ensures
            r.is_some() == self@.contains_key(k@),
            r.is_some() ==> *r.unwrap() == self@[k@],
    {
        let (i, found) = self.locate(k);
        if found {
            proof {
                lemma_position(self.entries(), i as int);
            }
            Some(&self.entries[i].1)
        } else {
            proof {
                lemma_absent(self.entries(), k@, i as int);
            }
            None
        }
    }

    /// Sets the value of `k` to `v`, adding an entry where none has the name.
    pub fn insert(&mut self, k: String, v: V)
        requires
            old(self).wf(),
        ensures
            final(self).wf(),
            final(self)@ == old(self)@.insert(k@, v),
            old(self)@.contains_key(k@) ==> final(self).entries().len() == old(
                self,
            ).entries().len(),
            !old(self)@.contains_key(k@) ==> final(self).entries().len() == old(
                self,
            ).entries().len() + 1,
            forall|w: spec_fn(V) -> nat|
                #[trigger] final(self).total(w) + (if old(self)@.contains_key(k@) {
                    w(old(self)@[k@])
                } else {
                    0
                }) == old(self).total(w) + w(v),
    {
        let ghost s = self.entries@;
        let (i, found) = self.locate(k.as_str());
        if found {
            proof {
                lemma_position(s, i as int);
            }
            let ghost e = (k, v);
            self.entries.set(i, (k, v));
            proof {
                let t = self.entries@;
                assert forall|w: spec_fn(V) -> nat| #[trigger] sum_entries(t, w) + w(s[i as int].1)
                    == sum_entries(s, w) + w(e.1) by {
                    lemma_sum_update(s, i as int, e, w);
                }
                assert(ascending(t)) by {
                    assert forall|a: int, b: int| 0 <= a < b < t.len() implies name_lt(
                        #[trigger] t[a].0@,
                        #[trigger] t[b].0@,
                    ) by {
                        assert(s[a].0@ == t[a].0@);
                        assert(s[b].0@ == t[b].0@);
                    }
                }
                lemma_map_after_update(s, t, i as int);
            }
        } else {
            proof {
                lemma_absent(s, k@, i as int);
            }
            let ghost e = (k, v);
            self.entries.insert(i, (k, v));
            proof {
                let t = self.entries@;
                assert forall|w: spec_fn(V) -> nat| #[trigger] sum_entries(t, w) == sum_entries(s, w)
                    + w(e.1) by {
                    lemma_sum_insert(s, i as int, e, w);
                }
                assert(ascending(t)) by {
                    assert forall|a: int, b: int| 0 <= a < b < t.len() implies name_lt(
                        #[trigger] t[a].0@,
                        #[trigger] t[b].0@,
                    ) by {
                        if b < i {
                        } else if a < i && b == i {
                        } else if a < i {
                            assert(t[b] == s[b - 1]);
                            lemma_name_order(t[a].0@, t[i as int].0@, t[b].0@);
                        } else if a == i {
                            assert(t[b] == s[b - 1]);
                        } else {
                            assert(t[a] == s[a - 1]);
                            assert(t[b] == s[b - 1]);
                        }
                    }
                }
                lemma_map_after_insert(s, t, i as int);
            }
        }
    }

    /// Takes out the entry named `k`, if any, and hands back its value.
    pub fn remove(&mut self, k: &str) -> (r: Option<V>)
        requires
            old(self).wf(),
        ensures
            final(self).wf(),
            final(self)@ == old(self)@.remove(k@),
            r.is_some() == old(self)@.contains_key(k@),
            r.is_some() ==> r.unwrap() == old(self)@[k@],
            r.is_some() ==> final(self).entries().len() + 1 == old(self).entries().len(),
            r.is_none() ==> final(self).entries() == old(self).entries(),
            forall|w: spec_fn(V) -> nat|
                #[trigger] final(self).total(w) + (if old(self)@.contains_key(k@) {
                    w(old(self)@[k@])
                } else {
                    0
                }) == old(self).total(w),
    {
        let ghost s = self.entries@;
        let (i, found) = self.locate(k);
        if found {
            proof {
                lemma_position(s, i as int);
            }
            let (_, v) = self.entries.remove(i);
            proof {
                let t = self.entries@;
                assert forall|w: spec_fn(V) -> nat| #[trigger] sum_entries(t, w) + w(s[i as int].1)
                    == sum_entries(s, w) by {
                    lemma_sum_remove(s, i as int, w);
                }
                assert(ascending(t)) by {
                    assert forall|a: int, b: int| 0 <= a < b < t.len() implies name_lt(
                        #[trigger] t[a].0@,
                        #[trigger] t[b].0@,
                    ) by {
                        if b < i {
                        } else if a < i {
                            assert(t[b] == s[b + 1]);
                        } else {
                            assert(t[a] == s[a + 1]);
                            assert(t[b] == s[b + 1]);
                        }
                    }
                }
                lemma_map_after_remove(s, t, i as int);
            }
            Some(v)
        } else {
            proof {
                lemma_absent(s, k@, i as int);
                assert(self@ =~= old(self)@.remove(k@));
            }
            None
        }
    }

    /// The names of the entries, in ascending order.
    pub fn keys(&self) -> (ks: Vec<String>)
        ensures
            ks@.len() == self.entries().len(),
            forall|i: int| 0 <= i < ks@.len() ==> #[trigger] ks@[i] == self.entries()[i].0,
    {
        let mut ks: Vec<String> = Vec::new();
        let mut i: usize = 0;
        while i < self.entries.len()
            invariant
                i <= self.entries@.len(),
                ks@.len() == i,
                forall|j: int| 0 <= j < i ==> #[trigger] ks@[j] == self.entries@[j].0,
            decreases self.entries@.len() - i,
        {
            ks.push(self.entries[i].0.clone());
            i = i + 1;
        }
        ks
    }
}

proof fn lemma_absent<V>(s: Seq<(String, V)>, k: Seq<char>, i: int)
    requires
        0 <= i <= s.len(),
        forall|j: int| 0 <= j < i ==> name_lt(#[trigger] s[j].0@, k),
        forall|j: int| i <= j < s.len() ==> name_lt(k, #[trigger] s[j].0@),
    ensures
        !has_name(s, k),
        !entries_map(s).contains_key(k),
{
    if has_name(s, k) {
        let j = choose|j: int| 0 <= j < s.len() && #[trigger] s[j].0@ == k;
        lemma_name_order(k, k, k);
        if j < i {
            assert(name_lt(s[j].0@, k));
        } else {
            assert(name_lt(k, s[j].0@));
        }
    }
}

proof fn lemma_dom_len<V>(s: Seq<(String, V)>)
    requires
        ascending(s),
    ensures
        entries_map(s).dom().finite(),
        entries_map(s).dom().len() == s.len(),
    decreases s.len(),
{
    let m = entries_map(s);
    if s.len() == 0 {
        assert(m.dom() =~= Set::<Seq<char>>::empty());
    } else {
        let t = s.drop_last();
        assert(ascending(t));
        lemma_dom_len(t);
        let k = s.last().0@;
        assert(has_name(s, k));
        assert(!has_name(t, k)) by {
            if has_name(t, k) {
                let j = choose|j: int| 0 <= j < t.len() && #[trigger] t[j].0@ == k;
                assert(s[j] == t[j]);
                lemma_name_order(k, k, k);
            }
        }
        assert(m.dom() =~= entries_map(t).dom().insert(k)) by {
            assert forall|x: Seq<char>| m.dom().contains(x) implies entries_map(
                t,
            ).dom().insert(k).contains(x) by {
                let j = choose|j: int| 0 <= j < s.len() && #[trigger] s[j].0@ == x;
                if j < t.len() {
                    assert(t[j] == s[j]);
                }
            }
            assert forall|x: Seq<char>| entries_map(t).dom().insert(k).contains(x) implies m.dom().contains(
                x,
            ) by {
                if x != k {
                    let j = choose|j: int| 0 <= j < t.len() && #[trigger] t[j].0@ == x;
                    assert(s[j] == t[j]);
                }
            }
        }
    }
}

proof fn lemma_map_after_update<V>(s: Seq<(String, V)>, t: Seq<(String, V)>, i: int)
    requires
        ascending(s),
        ascending(t),
        0 <= i < s.len(),
        t.len() == s.len(),
        forall|j: int| 0 <= j < s.len() && j != i ==> #[trigger] t[j] == s[j],
        t[i].0@ == s[i].0@,
    ensures
        entries_map(t) == entries_map(s).insert(t[i].0@, t[i].1),
{
    let m = entries_map(s).insert(t[i].0@, t[i].1);
    assert forall|x: Seq<char>| #[trigger] entries_map(t).contains_key(x) <==> m.contains_key(x) by {
        if has_name(t, x) {
            let j = choose|j: int| 0 <= j < t.len() && #[trigger] t[j].0@ == x;
            if j != i {
                assert(s[j] == t[j]);
            }
        }
        if has_name(s, x) {
            let j = choose|j: int| 0 <= j < s.len() && #[trigger] s[j].0@ == x;
            if j != i {
                assert(s[j] == t[j]);
            }
        }
    }
    assert forall|x: Seq<char>| #[trigger] entries_map(t).contains_key(x) implies entries_map(
        t,
    )[x] == m[x] by {
        let j = choose|j: int| 0 <= j < t.len() && #[trigger] t[j].0@ == x;
        lemma_position(t, j);
        lemma_name_order(t[j].0@, t[i].0@, t[j].0@);
        if j != i {
            assert(s[j] == t[j]);
            lemma_position(s, j);
        }
    }
    assert(entries_map(t) =~= m);
}

proof fn lemma_map_after_insert<V>(s: Seq<(String, V)>, t: Seq<(String, V)>, i: int)
    requires
        ascending(s),
        ascending(t),
        0 <= i <= s.len(),
        i < t.len(),
        t == s.insert(i, t[i]),
    ensures
        entries_map(t) == entries_map(s).insert(t[i].0@, t[i].1),
{
    let m = entries_map(s).insert(t[i].0@, t[i].1);
    assert forall|x: Seq<char>| #[trigger] entries_map(t).contains_key(x) <==> m.contains_key(x) by {
        if has_name(t, x) {
            let j = choose|j: int| 0 <= j < t.len() && #[trigger] t[j].0@ == x;
            if j < i {
                assert(s[j] == t[j]);
            } else if j > i {
                assert(s[j - 1] == t[j]);
            }
        }
        if has_name(s, x) {
            let j = choose|j: int| 0 <= j < s.len() && #[trigger] s[j].0@ == x;
            if j < i {
                assert(s[j] == t[j]);
            } else {
                assert(s[j] == t[j + 1]);
            }
        }
    }
    assert forall|x: Seq<char>| #[trigger] entries_map(t).contains_key(x) implies entries_map(
        t,
    )[x] == m[x] by {
        let j = choose|j: int| 0 <= j < t.len() && #[trigger] t[j].0@ == x;
        lemma_position(t, j);
        lemma_name_order(t[j].0@, t[i].0@, t[j].0@);
        if j < i {
            assert(s[j] == t[j]);
            lemma_position(s, j);
        } else if j > i {
            assert(s[j - 1] == t[j]);
            lemma_position(s, j - 1);
        }
    }
    assert(entries_map(t) =~= m);
}

proof fn lemma_map_after_remove<V>(s: Seq<(String, V)>, t: Seq<(String, V)>, i: int)
    requires
        ascending(s),
        ascending(t),
        0 <= i < s.len(),
        t == s.remove(i),
    ensures
        entries_map(t) == entries_map(s).remove(s[i].0@),
{
    let m = entries_map(s).remove(s[i].0@);
    assert forall|x: Seq<char>| #[trigger] entries_map(t).contains_key(x) <==> m.contains_key(x) by {
        if has_name(t, x) {
            let j = choose|j: int| 0 <= j < t.len() && #[trigger] t[j].0@ == x;
            if j < i {
                assert(s[j] == t[j]);
                lemma_name_order(s[j].0@, s[i].0@, s[j].0@);
            } else {
                assert(s[j + 1] == t[j]);
                lemma_name_order(s[i].0@, s[j + 1].0@, s[i].0@);
            }
        }
        if has_name(s, x) && x != s[i].0@ {
            let j = choose|j: int| 0 <= j < s.len() && #[trigger] s[j].0@ == x;
            if j < i {
                assert(s[j] == t[j]);
            } else {
                assert(s[j] == t[j - 1]);
            }
        }
    }
    assert forall|x: Seq<char>| #[trigger] entries_map(t).contains_key(x) implies entries_map(
        t,
    )[x] == m[x] by {
        let j = choose|j: int| 0 <= j < t.len() && #[trigger] t[j].0@ == x;
        lemma_position(t, j);
        if j < i {
            assert(s[j] == t[j]);
            lemma_position(s, j);
            lemma_name_order(s[j].0@, s[i].0@, s[j].0@);
        } else {
            assert(s[j + 1] == t[j]);
            lemma_position(s, j + 1);
            lemma_name_order(s[i].0@, s[j + 1].0@, s[i].0@);
        }
    }
    assert(entries_map(t) =~= m);
}

} // verus!
