//! A map keyed by path, kept sorted by path for logarithmic lookups.
use vstd::prelude::*;
use crate::text::{
    chars_of, lemma_text_order_eq, lemma_text_order_from_flip, lemma_text_order_from_trans,
    owned, text_order, text_order_exec,
};

verus! {

/// The map that a sequence of (path, value) entries describes; a later
/// entry for a path overrides an earlier one.
pub open spec fn map_of<V>(s: Seq<(String, V)>) -> Map<Seq<char>, V>
    decreases s.len(),
{
    if s.len() == 0 {
        Map::empty()
    } else {
        map_of(s.drop_last()).insert(s.last().0@, s.last().1)
    }
}

/// The entries are strictly increasing by path.
pub open spec fn keys_sorted<V>(s: Seq<(String, V)>) -> bool {
    forall|i: int, j: int|
        0 <= i < j < s.len() ==> text_order(#[trigger] s[i].0@, #[trigger] s[j].0@) < 0
}

proof fn lemma_text_lt_trans(a: Seq<char>, b: Seq<char>, c: Seq<char>)
    requires
        text_order(a, b) < 0,
        text_order(b, c) < 0,
    ensures
        text_order(a, c) < 0,
{
    lemma_text_order_from_trans(a, b, c, 0);
}

proof fn lemma_map_of_dom<V>(s: Seq<(String, V)>, k: Seq<char>)
    ensures
        map_of(s).dom().contains(k) <==> exists|i: int| 0 <= i < s.len() && #[trigger] s[i].0@ == k,
    decreases s.len(),
{
    if s.len() > 0 {
        lemma_map_of_dom(s.drop_last(), k);
        if map_of(s.drop_last()).dom().contains(k) {
            let i = choose|i: int| 0 <= i < s.drop_last().len() && #[trigger] s.drop_last()[i].0@ == k;
            assert(s[i].0@ == k);
        }
        if exists|i: int| 0 <= i < s.len() && #[trigger] s[i].0@ == k {
            let i = choose|i: int| 0 <= i < s.len() && #[trigger] s[i].0@ == k;
            if i < s.len() - 1 {
                assert(s.drop_last()[i].0@ == k);
            }
        }
    }
}

proof fn lemma_map_of_value<V>(s: Seq<(String, V)>, i: int)
    requires
        keys_sorted(s),
        0 <= i < s.len(),
    ensures
        map_of(s).dom().contains(s[i].0@),
        map_of(s)[s[i].0@] == s[i].1,
    decreases s.len(),
{
    if i < s.len() - 1 {
        assert(keys_sorted(s.drop_last()));
        assert(s.drop_last()[i] == s[i]);
        lemma_map_of_value(s.drop_last(), i);
        assert(text_order(s[i].0@, s[s.len() - 1].0@) < 0);
        lemma_text_order_eq(s[i].0@, s.last().0@);
    }
}

/// A map from paths to values, held as entries sorted by path.
pub struct PathMap<V> {
    entries: Vec<(String, V)>,
}

impl<V> View for PathMap<V> {
    type V = Map<Seq<char>, V>;

    closed spec fn view(&self) -> Map<Seq<char>, V> {
        map_of(self.entries@)
    }
}

impl<V> PathMap<V> {
    #[verifier::type_invariant]
    closed spec fn wf(self) -> bool {
        keys_sorted(self.entries@)
    }

    /// An empty map.
    pub fn new() -> (m: Self)
        ensures
            m@ == Map::<Seq<char>, V>::empty(),
    {
        PathMap { entries: Vec::new() }
    }

    /// Where `key` is or would go: every entry before the position has a
    /// smaller path, and the entry at it (if any) a path not smaller.
    fn position(&self, key: &str) -> (r: (bool, usize))
        ensures
            r.1 <= self.entries@.len(),
            forall|i: int| 0 <= i < r.1 ==> text_order(#[trigger] self.entries@[i].0@, key@) < 0,
            forall|i: int|
                r.1 <= i < self.entries@.len() ==> text_order(#[trigger] self.entries@[i].0@, key@)
                    >= 0,
            r.0 <==> r.1 < self.entries@.len() && self.entries@[r.1 as int].0@ == key@,
    {
        proof {
            use_type_invariant(self);
        }
        let k = chars_of(key);
        let mut lo: usize = 0;
        let mut hi: usize = self.entries.len();
        while lo < hi
            invariant
                lo <= hi <= self.entries@.len(),
                keys_sorted(self.entries@),
                k@ == key@,
                forall|i: int| 0 <= i < lo ==> text_order(#[trigger] self.entries@[i].0@, key@) < 0,
                forall|i: int|
                    hi <= i < self.entries@.len() ==> text_order(
                        #[trigger] self.entries@[i].0@,
                        key@,
                    ) >= 0,
            decreases hi - lo,
        {
            let mid = lo + (hi - lo) / 2;
            let c = text_order_exec(&chars_of(self.entries[mid].0.as_str()), &k);
            if c < 0 {
                proof {
                    assert forall|i: int| 0 <= i < mid + 1 implies text_order(
                        #[trigger] self.entries@[i].0@,
                        key@,
                    ) < 0 by {
                        if i < mid {
                            lemma_text_lt_trans(
                                self.entries@[i].0@,
                                self.entries@[mid as int].0@,
                                key@,
                            );
                        }
                    }
                }
                lo = mid + 1;
            } else {
                proof {
                    assert forall|i: int| mid <= i < self.entries@.len() implies text_order(
                        #[trigger] self.entries@[i].0@,
                        key@,
                    ) >= 0 by {
                        if i > mid {
                            let a = self.entries@[mid as int].0@;
                            let b = self.entries@[i].0@;
                            assert(text_order(a, b) < 0);
                            if text_order(b, key@) < 0 {
                                lemma_text_lt_trans(a, b, key@);
                            }
                        }
                    }
                }
                hi = mid;
            }
        }
        if lo < self.entries.len() {
            let c = text_order_exec(&chars_of(self.entries[lo].0.as_str()), &k);
            proof {
                lemma_text_order_eq(self.entries@[lo as int].0@, key@);
            }
            (c == 0, lo)
        } else {
            (false, lo)
        }
    }

    /// Whether `key` is held.
    pub fn contains_key(&self, key: &str) -> (b: bool)
        ensures
            b == self@.dom().contains(key@),
    {
        proof {
            use_type_invariant(self);
        }
        let (found, p) = self.position(key);
        proof {
            lemma_map_of_dom(self.entries@, key@);
            if !found {
                assert forall|i: int| 0 <= i < self.entries@.len() implies #[trigger] self.entries@[i].0@
                    != key@ by {
                    lemma_text_order_eq(self.entries@[i].0@, key@);
                    if i > p {
                        let a = self.entries@[p as int].0@;
                        assert(text_order(a, self.entries@[i].0@) < 0);
                        if self.entries@[i].0@ == key@ {
                            lemma_text_order_eq(a, key@);
                        }
                    }
                }
            }
        }
        found
    }

    /// The value held for `key`.
    pub fn get(&self, key: &str) -> (r: Option<&V>)
        ensures
            match r {
                Some(v) => self@.dom().contains(key@) && *v == self@[key@],
                None => !self@.dom().contains(key@),
            },
    {
        proof {
            use_type_invariant(self);
        }
        let (found, p) = self.position(key);
        proof {
            lemma_map_of_dom(self.entries@, key@);
        }
        if found {
            proof {
                lemma_map_of_value(self.entries@, p as int);
            }
            Some(&self.entries[p].1)
        } else {
            proof {
                assert forall|i: int| 0 <= i < self.entries@.len() implies #[trigger] self.entries@[i].0@
                    != key@ by {
                    lemma_text_order_eq(self.entries@[i].0@, key@);
                    if i > p {
                        let a = self.entries@[p as int].0@;
                        assert(text_order(a, self.entries@[i].0@) < 0);
                        if self.entries@[i].0@ == key@ {
                            lemma_text_order_eq(a, key@);
                        }
                    }
                }
            }
            None
        }
    }

    /// Holds `value` for `key`, replacing the value held before.
    pub fn insert(&mut self, key: &str, value: V)
        ensures
            final(self)@ == old(self)@.insert(key@, value),
    {
        proof {
            use_type_invariant(&*self);
        }
        let (found, p) = self.position(key);
        let ghost s = self.entries@;
        let ghost v = value;
        let ghost old_view = self@;
        let mut entries: Vec<(String, V)> = Vec::new();
        std::mem::swap(&mut entries, &mut self.entries);
        let k = owned(key);
        if found {
            entries.set(p, (k, value));
        } else {
            entries.insert(p, (k, value));
        }
        let ghost t = entries@;
        proof {
            assert(t[p as int].0@ == key@);
            assert(t[p as int].1 == v);
            assert forall|i: int, j: int| 0 <= i < j < t.len() implies text_order(
                #[trigger] t[i].0@,
                #[trigger] t[j].0@,
            ) < 0 by {
                if p < s.len() {
                    lemma_text_order_from_flip(key@, s[p as int].0@, 0);
                }
                if found {
                    if i == p {
                        assert(t[j] == s[j]);
                        assert(text_order(s[p as int].0@, s[j].0@) < 0);
                    } else if j == p {
                        assert(t[i] == s[i]);
                    } else {
                        assert(t[i] == s[i] && t[j] == s[j]);
                    }
                } else {
                    if j < p {
                        assert(t[i] == s[i] && t[j] == s[j]);
                    } else if j == p {
                        assert(t[i] == s[i]);
                    } else if i < p {
                        assert(t[i] == s[i] && t[j] == s[j - 1]);
                        lemma_text_order_from_flip(s[j - 1].0@, key@, 0);
                        if p < j - 1 {
                            assert(text_order(s[p as int].0@, s[j - 1].0@) < 0);
                            lemma_text_order_from_flip(s[p as int].0@, key@, 0);
                            lemma_text_order_eq(s[p as int].0@, key@);
                            lemma_text_lt_trans(key@, s[p as int].0@, s[j - 1].0@);
                        } else {
                            lemma_text_order_eq(s[j - 1].0@, key@);
                        }
                        lemma_text_lt_trans(s[i].0@, key@, s[j - 1].0@);
                    } else if i == p {
                        assert(t[j] == s[j - 1]);
                        lemma_text_order_from_flip(s[j - 1].0@, key@, 0);
                        lemma_text_order_eq(s[j - 1].0@, key@);
                        if p < j - 1 {
                            assert(text_order(s[p as int].0@, s[j - 1].0@) < 0);
                            lemma_text_order_from_flip(s[p as int].0@, key@, 0);
                            lemma_text_order_eq(s[p as int].0@, key@);
                            lemma_text_lt_trans(key@, s[p as int].0@, s[j - 1].0@);
                        }
                    } else {
                        assert(t[i] == s[i - 1] && t[j] == s[j - 1]);
                    }
                }
            }
            assert forall|k2: Seq<char>| #[trigger] map_of(t).dom().contains(k2) == old_view.insert(
                key@,
                v,
            ).dom().contains(k2) by {
                lemma_map_of_dom(t, k2);
                lemma_map_of_dom(s, k2);
                if exists|i: int| 0 <= i < s.len() && #[trigger] s[i].0@ == k2 {
                    let i = choose|i: int| 0 <= i < s.len() && #[trigger] s[i].0@ == k2;
                    if found {
                        if i == p {
                            assert(t[p as int].0@ == k2);
                        } else {
                            assert(t[i].0@ == k2);
                        }
                    } else if i < p {
                        assert(t[i].0@ == k2);
                    } else {
                        assert(t[i + 1].0@ == k2);
                    }
                }
                if exists|i: int| 0 <= i < t.len() && #[trigger] t[i].0@ == k2 {
                    let i = choose|i: int| 0 <= i < t.len() && #[trigger] t[i].0@ == k2;
                    if found {
                        if i != p {
                            assert(s[i].0@ == k2);
                        }
                    } else if i < p {
                        assert(s[i].0@ == k2);
                    } else if i > p {
                        assert(s[i - 1].0@ == k2);
                    }
                }
            }
            assert forall|k2: Seq<char>| #[trigger] map_of(t).dom().contains(k2) implies map_of(t)[k2]
                == old_view.insert(key@, v)[k2] by {
                lemma_map_of_dom(t, k2);
                let i = choose|i: int| 0 <= i < t.len() && #[trigger] t[i].0@ == k2;
                lemma_map_of_value(t, i);
                if k2 == key@ {
                    lemma_map_of_value(t, p as int);
                } else {
                    if found {
                        assert(s[i] == t[i]);
                        lemma_map_of_value(s, i);
                    } else if i < p {
                        assert(s[i] == t[i]);
                        lemma_map_of_value(s, i);
                    } else {
                        assert(s[i - 1] == t[i]);
                        lemma_map_of_value(s, i - 1);
                    }
                }
            }
            assert(map_of(t) =~= old_view.insert(key@, v));
        }
        self.entries = entries;
    }
}

} // verus!
