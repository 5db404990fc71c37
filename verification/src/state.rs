use vstd::prelude::*;
use vstd::utf8::encode_utf8;

use crate::msg::{AllowedWithdrawlSettings, GrantModel};

verus! {

broadcast use vstd::utf8::group_utf8_lib;

/// `a` comes strictly before `b` in lexicographic byte order.
pub open spec fn bytes_lt(a: Seq<u8>, b: Seq<u8>) -> bool
    decreases a.len(),
{
    if b.len() == 0 {
        false
    } else if a.len() == 0 {
        true
    } else if a[0] != b[0] {
        a[0] < b[0]
    } else {
        bytes_lt(a.drop_first(), b.drop_first())
    }
}

/// Address `a` comes strictly before address `b` in the order of their UTF-8
/// bytes, the order in which the chain's storage ranges over its keys.
pub open spec fn key_lt(a: Seq<char>, b: Seq<char>) -> bool {
    bytes_lt(encode_utf8(a), encode_utf8(b))
}

pub proof fn lemma_bytes_lt_irreflexive(a: Seq<u8>)
    ensures
        !bytes_lt(a, a),
    decreases a.len(),
{
    if a.len() > 0 {
        lemma_bytes_lt_irreflexive(a.drop_first());
    }
}

pub proof fn lemma_bytes_lt_transitive(a: Seq<u8>, b: Seq<u8>, c: Seq<u8>)
    requires
        bytes_lt(a, b),
        bytes_lt(b, c),
    ensures
        bytes_lt(a, c),
    decreases a.len(),
{
    if a.len() > 0 && b.len() > 0 && c.len() > 0 && a[0] == b[0] && b[0] == c[0] {
        lemma_bytes_lt_transitive(a.drop_first(), b.drop_first(), c.drop_first());
    }
}

pub proof fn lemma_bytes_lt_total(a: Seq<u8>, b: Seq<u8>)
    requires
        a != b,
    ensures
        bytes_lt(a, b) || bytes_lt(b, a),
    decreases a.len(),
{
    if a.len() > 0 && b.len() > 0 && a[0] == b[0] {
        if a.drop_first() == b.drop_first() {
            assert(a =~= seq![a[0]] + a.drop_first());
            assert(b =~= seq![b[0]] + b.drop_first());
        }
        lemma_bytes_lt_total(a.drop_first(), b.drop_first());
    } else if a.len() == 0 && b.len() == 0 {
        assert(a =~= b);
    }
}

proof fn lemma_bytes_lt_skip(a: Seq<u8>, b: Seq<u8>, i: int)
    requires
        0 <= i <= a.len(),
        i <= b.len(),
        forall|t: int| 0 <= t < i ==> a[t] == b[t],
    ensures
        bytes_lt(a, b) == bytes_lt(a.skip(i), b.skip(i)),
    decreases i,
{
    if i > 0 {
        assert(a.drop_first().skip(i - 1) =~= a.skip(i));
        assert(b.drop_first().skip(i - 1) =~= b.skip(i));
        lemma_bytes_lt_skip(a.drop_first(), b.drop_first(), i - 1);
    } else {
        assert(a.skip(0) =~= a);
        assert(b.skip(0) =~= b);
    }
}

/// Key order on addresses is a strict total order.
pub proof fn lemma_key_order(a: Seq<char>, b: Seq<char>, c: Seq<char>)
    ensures
        !key_lt(a, a),
        a != b ==> key_lt(a, b) || key_lt(b, a),
        key_lt(a, b) && key_lt(b, c) ==> key_lt(a, c),
{
    lemma_bytes_lt_irreflexive(encode_utf8(a));
    if a != b {
        assert(encode_utf8(a) != encode_utf8(b)) by {
            if encode_utf8(a) == encode_utf8(b) {
                assert(vstd::utf8::decode_utf8(encode_utf8(a)) == a);
                assert(vstd::utf8::decode_utf8(encode_utf8(b)) == b);
            }
        }
        lemma_bytes_lt_total(encode_utf8(a), encode_utf8(b));
    }
    if key_lt(a, b) && key_lt(b, c) {
        lemma_bytes_lt_transitive(encode_utf8(a), encode_utf8(b), encode_utf8(c));
    }
}

/// Where one key stands relative to another.
#[derive(Debug, Clone, Copy, PartialEq, Eq, Structural)]
pub enum KeyOrder {
    Less,
    Equal,
    Greater,
}

/// Compares two addresses in the order of their UTF-8 bytes.
pub fn key_order(a: &String, b: &String) -> (r: KeyOrder)
    ensures
        (r == KeyOrder::Less) == key_lt(a@, b@),
        (r == KeyOrder::Equal) == (a@ == b@),
        (r == KeyOrder::Greater) == key_lt(b@, a@),
{
    let x = a.as_str().as_bytes();
    let y = b.as_str().as_bytes();
    proof {
        lemma_key_order(a@, b@, a@);
        lemma_key_order(b@, a@, b@);
    }
    let mut i: usize = 0;
    while i < x.len() && i < y.len() && x[i] == y[i]
        invariant
            i <= x@.len(),
            i <= y@.len(),
            x@ == encode_utf8(a@),
            y@ == encode_utf8(b@),
            forall|t: int| 0 <= t < i ==> x@[t] == y@[t],
        decreases x@.len() - i,
    {
        i += 1;
    }
    proof {
        lemma_bytes_lt_skip(x@, y@, i as int);
        lemma_bytes_lt_skip(y@, x@, i as int);
    }
    if i == x.len() && i == y.len() {
        assert(x@ =~= y@);
        assert(vstd::utf8::decode_utf8(x@) == a@);
        assert(vstd::utf8::decode_utf8(y@) == b@);
        KeyOrder::Equal
    } else if i == x.len() {
        assert(x@ != y@);
        KeyOrder::Less
    } else if i == y.len() {
        assert(x@ != y@);
        KeyOrder::Greater
    } else if x[i] < y[i] {
        assert(x@[i as int] != y@[i as int]);
        KeyOrder::Less
    } else {
        assert(x@[i as int] != y@[i as int]);
        KeyOrder::Greater
    }
}

/// A grant as a mathematical value: the granter's address and the settings.
pub type GrantEntry = (Seq<char>, GrantModel);

/// The granters of `s` stand in strictly ascending key order.
pub open spec fn keys_sorted(s: Seq<GrantEntry>) -> bool {
    forall|i: int, j: int| 0 <= i < j < s.len() ==> key_lt(#[trigger] s[i].0, #[trigger] s[j].0)
}

/// The map from granter to settings that the entries of `s` make up.
pub open spec fn map_of(s: Seq<GrantEntry>) -> Map<Seq<char>, GrantModel> {
    Map::new(
        |k: Seq<char>| exists|i: int| 0 <= i < s.len() && #[trigger] s[i].0 == k,
        |k: Seq<char>| s[choose|i: int| 0 <= i < s.len() && #[trigger] s[i].0 == k].1,
    )
}

pub proof fn lemma_map_of_at(s: Seq<GrantEntry>, i: int)
    requires
        keys_sorted(s),
        0 <= i < s.len(),
    ensures
        map_of(s).contains_key(s[i].0),
        map_of(s)[s[i].0] == s[i].1,
{
    let k = s[i].0;
    assert(exists|j: int| 0 <= j < s.len() && #[trigger] s[j].0 == k);
    let j = choose|j: int| 0 <= j < s.len() && #[trigger] s[j].0 == k;
    lemma_key_order(k, k, k);
    if j < i {
        assert(key_lt(s[j].0, s[i].0));
    } else if i < j {
        assert(key_lt(s[i].0, s[j].0));
    }
}

proof fn lemma_map_of_absent(s: Seq<GrantEntry>, k: Seq<char>)
    requires
        forall|i: int| 0 <= i < s.len() ==> #[trigger] s[i].0 != k,
    ensures
        !map_of(s).contains_key(k),
{
}

proof fn lemma_sorted_replace(s: Seq<GrantEntry>, p: int, v: GrantModel)
    requires
        keys_sorted(s),
        0 <= p < s.len(),
    ensures
        keys_sorted(s.update(p, (s[p].0, v))),
        map_of(s.update(p, (s[p].0, v))) == map_of(s).insert(s[p].0, v),
{
    let k = s[p].0;
    let s2 = s.update(p, (k, v));
    assert(keys_sorted(s2)) by {
        assert forall|i: int, j: int| 0 <= i < j < s2.len() implies key_lt(#[trigger] s2[i].0, #[trigger] s2[j].0) by {
            assert(s2[i].0 == s[i].0 && s2[j].0 == s[j].0);
        }
    }
    assert forall|q: Seq<char>| #[trigger] map_of(s2).contains_key(q) == map_of(s).insert(k, v).contains_key(q) by {
        if map_of(s).contains_key(q) {
            let i = choose|i: int| 0 <= i < s.len() && #[trigger] s[i].0 == q;
            assert(s2[i].0 == q);
        }
        if map_of(s2).contains_key(q) {
            let i = choose|i: int| 0 <= i < s2.len() && #[trigger] s2[i].0 == q;
            assert(s[i].0 == q);
        }
        if q == k {
            assert(s2[p].0 == q);
        }
    }
    assert forall|q: Seq<char>| #[trigger] map_of(s2).contains_key(q) implies map_of(s2)[q] == map_of(s).insert(k, v)[q] by {
        let i = choose|i: int| 0 <= i < s2.len() && #[trigger] s2[i].0 == q;
        lemma_map_of_at(s2, i);
        if i != p {
            assert(s[i] == s2[i]);
            lemma_key_order(k, k, k);
            if i < p {
                assert(key_lt(s[i].0, s[p].0));
            } else {
                assert(key_lt(s[p].0, s[i].0));
            }
            assert(q != k);
            lemma_map_of_at(s, i);
            assert(map_of(s).insert(k, v)[q] == map_of(s)[q]);
        } else {
            assert(map_of(s).insert(k, v)[q] == v);
        }
    }
    assert(map_of(s2) =~= map_of(s).insert(k, v));
}

proof fn lemma_sorted_insert(s: Seq<GrantEntry>, p: int, k: Seq<char>, v: GrantModel)
    requires
        keys_sorted(s),
        0 <= p <= s.len(),
        forall|t: int| 0 <= t < p ==> key_lt(#[trigger] s[t].0, k),
        p < s.len() ==> !key_lt(s[p].0, k) && s[p].0 != k,
    ensures
        keys_sorted(s.insert(p, (k, v))),
        map_of(s.insert(p, (k, v))) == map_of(s).insert(k, v),
{
    let s2 = s.insert(p, (k, v));
    if p < s.len() {
        lemma_key_order(s[p].0, k, k);
    }
    assert forall|t: int| p <= t < s.len() implies key_lt(k, #[trigger] s[t].0) by {
        if t > p {
            lemma_key_order(k, s[p].0, s[t].0);
        }
    }
    assert forall|t: int| 0 <= t < s.len() implies #[trigger] s[t].0 != k by {
        lemma_key_order(k, k, k);
        if t < p {
            assert(key_lt(s[t].0, k));
        } else {
            assert(key_lt(k, s[t].0));
        }
    }
    assert(keys_sorted(s2)) by {
        assert forall|i: int, j: int| 0 <= i < j < s2.len() implies key_lt(#[trigger] s2[i].0, #[trigger] s2[j].0) by {
            if j < p {
                assert(s2[i] == s[i] && s2[j] == s[j]);
            } else if j == p {
                assert(s2[i] == s[i]);
            } else if i < p {
                assert(s2[i] == s[i] && s2[j] == s[j - 1]);
                lemma_key_order(s[i].0, k, s[j - 1].0);
            } else if i == p {
                assert(s2[j] == s[j - 1]);
            } else {
                assert(s2[i] == s[i - 1] && s2[j] == s[j - 1]);
            }
        }
    }
    assert forall|q: Seq<char>| #[trigger] map_of(s2).contains_key(q) == map_of(s).insert(k, v).contains_key(q) by {
        if map_of(s).contains_key(q) {
            let i = choose|i: int| 0 <= i < s.len() && #[trigger] s[i].0 == q;
            if i < p {
                assert(s2[i].0 == q);
            } else {
                assert(s2[i + 1].0 == q);
            }
        }
        if map_of(s2).contains_key(q) {
            let i = choose|i: int| 0 <= i < s2.len() && #[trigger] s2[i].0 == q;
            if i < p {
                assert(s[i].0 == q);
            } else if i > p {
                assert(s[i - 1].0 == q);
            }
        }
        if q == k {
            assert(s2[p].0 == q);
        }
    }
    assert forall|q: Seq<char>| #[trigger] map_of(s2).contains_key(q) implies map_of(s2)[q] == map_of(s).insert(k, v)[q] by {
        let i = choose|i: int| 0 <= i < s2.len() && #[trigger] s2[i].0 == q;
        lemma_map_of_at(s2, i);
        assert(map_of(s2)[q] == s2[i].1);
        if i < p {
            assert(s[i] == s2[i]);
            assert(q != k);
            lemma_map_of_at(s, i);
            assert(map_of(s)[q] == s2[i].1);
            assert(map_of(s).insert(k, v)[q] == map_of(s)[q]);
        } else if i > p {
            assert(s[i - 1] == s2[i]);
            assert(s[i - 1].0 != k);
            lemma_map_of_at(s, i - 1);
            assert(map_of(s)[q] == s2[i].1);
            assert(map_of(s).insert(k, v)[q] == map_of(s)[q]);
        } else {
            assert(q == k);
            assert(s2[i].1 == v);
            assert(map_of(s).insert(k, v)[q] == v);
        }
    }
    assert(map_of(s2) =~= map_of(s).insert(k, v));
}

proof fn lemma_sorted_remove(s: Seq<GrantEntry>, p: int)
    requires
        keys_sorted(s),
        0 <= p < s.len(),
    ensures
        keys_sorted(s.remove(p)),
        map_of(s.remove(p)) == map_of(s).remove(s[p].0),
{
    let k = s[p].0;
    let s2 = s.remove(p);
    assert(keys_sorted(s2)) by {
        assert forall|i: int, j: int| 0 <= i < j < s2.len() implies key_lt(#[trigger] s2[i].0, #[trigger] s2[j].0) by {
            let a = if i < p { i } else { i + 1 };
            let b = if j < p { j } else { j + 1 };
            assert(s2[i] == s[a] && s2[j] == s[b]);
        }
    }
    assert forall|t: int| 0 <= t < s.len() && t != p implies #[trigger] s[t].0 != k by {
        lemma_key_order(k, k, k);
        if t < p {
            assert(key_lt(s[t].0, k));
        } else {
            assert(key_lt(k, s[t].0));
        }
    }
    assert forall|q: Seq<char>| #[trigger] map_of(s2).contains_key(q) == map_of(s).remove(k).contains_key(q) by {
        if map_of(s).contains_key(q) && q != k {
            let i = choose|i: int| 0 <= i < s.len() && #[trigger] s[i].0 == q;
            if i < p {
                assert(s2[i].0 == q);
            } else {
                assert(s2[i - 1].0 == q);
            }
        }
        if map_of(s2).contains_key(q) {
            let i = choose|i: int| 0 <= i < s2.len() && #[trigger] s2[i].0 == q;
            if i < p {
                assert(s[i].0 == q);
            } else {
                assert(s[i + 1].0 == q);
            }
        }
    }
    assert forall|q: Seq<char>| #[trigger] map_of(s2).contains_key(q) implies map_of(s2)[q] == map_of(s).remove(k)[q] by {
        let i = choose|i: int| 0 <= i < s2.len() && #[trigger] s2[i].0 == q;
        lemma_map_of_at(s2, i);
        if i < p {
            assert(s[i] == s2[i]);
            lemma_map_of_at(s, i);
        } else {
            assert(s[i + 1] == s2[i]);
            lemma_map_of_at(s, i + 1);
        }
    }
    assert(map_of(s2) =~= map_of(s).remove(k));
}

/// The entries of a vector of grants as mathematical values.
pub open spec fn model_of(v: Seq<(String, AllowedWithdrawlSettings)>) -> Seq<GrantEntry> {
    Seq::new(v.len(), |i: int| (v[i].0@, v[i].1@))
}

/// The grants that granters have made, keyed by granter address, in ascending
/// key order.
pub struct Grants {
    entries: Vec<(String, AllowedWithdrawlSettings)>,
}

impl Grants {
    /// The grants as a sequence of entries, in storage order.
    pub closed spec fn entries(&self) -> Seq<GrantEntry> {
        model_of(self.entries@)
    }

    #[verifier::type_invariant]
    closed spec fn sorted(&self) -> bool {
        keys_sorted(self.entries())
    }
}

impl View for Grants {
    type V = Map<Seq<char>, GrantModel>;

    open spec fn view(&self) -> Map<Seq<char>, GrantModel> {
        map_of(self.entries())
    }
}

impl Grants {
    /// No grants.
    pub fn new() -> (r: Grants)
        ensures
            r@ == Map::<Seq<char>, GrantModel>::empty(),
    {
        let r = Grants { entries: Vec::new() };
        assert(r@ =~= Map::<Seq<char>, GrantModel>::empty());
        r
    }

    /// The number of grants; the entries stand in ascending key order.
    pub fn len(&self) -> (r: usize)
        ensures
            r == self.entries().len(),
            keys_sorted(self.entries()),
    {
        proof {
            use_type_invariant(self);
        }
        self.entries.len()
    }

    /// The grant at position `i` of the ascending order, with its granter.
    pub fn entry(&self, i: usize) -> (r: (&String, &AllowedWithdrawlSettings))
        requires
            i < self.entries().len(),
        ensures
            (r.0@, r.1@) == self.entries()[i as int],
            self@.contains_key(r.0@),
            self@[r.0@] == r.1@,
    {
        proof {
            use_type_invariant(self);
            lemma_map_of_at(self.entries(), i as int);
        }
        (&self.entries[i].0, &self.entries[i].1)
    }

    /// The grant of `granter`, if there is one.
    pub fn get(&self, granter: &String) -> (r: Option<&AllowedWithdrawlSettings>)
        ensures
            match r {
                Some(g) => self@.contains_key(granter@) && g@ == self@[granter@],
                None => !self@.contains_key(granter@),
            },
    {
        proof {
            use_type_invariant(self);
        }
        let mut i: usize = 0;
        while i < self.entries.len()
            invariant
                i <= self.entries().len(),
                self.entries().len() == self.entries@.len(),
                keys_sorted(self.entries()),
                forall|t: int| 0 <= t < i ==> #[trigger] self.entries()[t].0 != granter@,
            decreases self.entries.len() - i,
        {
            assert(self.entries()[i as int].0 == self.entries@[i as int].0@);
            if self.entries[i].0 == *granter {
                proof {
                    lemma_map_of_at(self.entries(), i as int);
                }
                return Some(&self.entries[i].1);
            }
            i += 1;
        }
        proof {
            lemma_map_of_absent(self.entries(), granter@);
        }
        None
    }
    /// The first position whose granter does not come before `granter`.
    fn position_of(&self, granter: &String) -> (p: usize)
        ensures
            p <= self.entries().len(),
            forall|t: int| 0 <= t < p ==> key_lt(#[trigger] self.entries()[t].0, granter@),
            p < self.entries().len() ==> !key_lt(self.entries()[p as int].0, granter@),
    {
        let mut i: usize = 0;
        while i < self.entries.len()
            invariant
                i <= self.entries().len(),
                self.entries().len() == self.entries@.len(),
                forall|t: int| 0 <= t < i ==> key_lt(#[trigger] self.entries()[t].0, granter@),
            decreases self.entries.len() - i,
        {
            assert(self.entries()[i as int].0 == self.entries@[i as int].0@);
            match key_order(&self.entries[i].0, granter) {
                KeyOrder::Less => {},
                _ => {
                    return i;
                },
            }
            i += 1;
        }
        i
    }

    /// Records the grant of `granter`, replacing any earlier one.
    pub fn save(&mut self, granter: String, settings: AllowedWithdrawlSettings)
        ensures
            final(self)@ == old(self)@.insert(granter@, settings@),
    {
        proof {
            use_type_invariant(&*self);
        }
        let p = self.position_of(&granter);
        let ghost s = self.entries();
        let ghost k = granter@;
        let ghost v = settings@;
        let replace = p < self.entries.len() && self.entries[p].0 == granter;
        if replace {
            proof {
                assert(s[p as int].0 == k);
                lemma_sorted_replace(s, p as int, v);
            }
            let mut entries: Vec<(String, AllowedWithdrawlSettings)> = Vec::new();
            std::mem::swap(&mut entries, &mut self.entries);
            entries.set(p, (granter, settings));
            assert(model_of(entries@) =~= s.update(p as int, (k, v)));
            let updated = Grants { entries };
            *self = updated;
        } else {
            proof {
                if p < s.len() {
                    assert(s[p as int].0 == self.entries@[p as int].0@);
                }
                lemma_sorted_insert(s, p as int, k, v);
            }
            let mut entries: Vec<(String, AllowedWithdrawlSettings)> = Vec::new();
            std::mem::swap(&mut entries, &mut self.entries);
            entries.insert(p, (granter, settings));
            assert(model_of(entries@) =~= s.insert(p as int, (k, v)));
            let updated = Grants { entries };
            *self = updated;
        }
    }

    /// Deletes the grant of `granter`, if there is one.
    pub fn remove(&mut self, granter: &String)
        ensures
            final(self)@ == old(self)@.remove(granter@),
    {
        proof {
            use_type_invariant(&*self);
        }
        let ghost s = self.entries();
        let mut i: usize = 0;
        while i < self.entries.len()
            invariant
                i <= s.len(),
                s == self.entries(),
                s == old(self).entries(),
                keys_sorted(s),
                s.len() == self.entries@.len(),
                forall|t: int| 0 <= t < i ==> #[trigger] s[t].0 != granter@,
            decreases self.entries.len() - i,
        {
            assert(s[i as int].0 == self.entries@[i as int].0@);
            if self.entries[i].0 == *granter {
                proof {
                    lemma_sorted_remove(s, i as int);
                }
                let mut entries: Vec<(String, AllowedWithdrawlSettings)> = Vec::new();
                std::mem::swap(&mut entries, &mut self.entries);
                let _ = entries.remove(i);
                assert(model_of(entries@) =~= s.remove(i as int));
                let updated = Grants { entries };
                *self = updated;
                return ;
            }
            i += 1;
        }
        proof {
            lemma_map_of_absent(s, granter@);
            assert(map_of(s).remove(granter@) =~= map_of(s));
        }
    }
}

} // verus!
