//! The attribute map of an element: names mapped to values, kept in
//! ascending name order so that walking it is deterministic.

use vstd::prelude::*;
use crate::text::{str_lt, str_less, str_equal, lemma_str_lt_irreflexive, lemma_str_lt_transitive, lemma_str_lt_total};

verus! {

/// A name/value pair as the specifications see it.
pub type AttrView = (Seq<char>, Seq<char>);

/// Names strictly ascending: sorted, and no name twice.
pub open spec fn attrs_sorted(s: Seq<AttrView>) -> bool {
    forall|i: int, j: int| 0 <= i < j < s.len() ==> str_lt(#[trigger] s[i].0, #[trigger] s[j].0)
}

/// The value bound to `name` (the first binding, should there be several).
pub open spec fn attr_lookup(s: Seq<AttrView>, name: Seq<char>) -> Option<Seq<char>>
    decreases s.len(),
{
    if s.len() == 0 {
        None
    } else if s[0].0 == name {
        Some(s[0].1)
    } else {
        attr_lookup(s.drop_first(), name)
    }
}

/// Binding `name` to `value` in a sorted list: the old binding is
/// overwritten in place, or the new pair goes where its name sorts.
pub open spec fn attrs_insert(s: Seq<AttrView>, name: Seq<char>, value: Seq<char>) -> Seq<AttrView>
    decreases s.len(),
{
    if s.len() == 0 {
        seq![(name, value)]
    } else if s[0].0 == name {
        seq![(name, value)] + s.drop_first()
    } else if str_lt(s[0].0, name) {
        seq![s[0]] + attrs_insert(s.drop_first(), name, value)
    } else {
        seq![(name, value)] + s
    }
}

pub open spec fn pair_view(p: (String, String)) -> AttrView {
    (p.0@, p.1@)
}

pub open spec fn pairs_view(v: Seq<(String, String)>) -> Seq<AttrView> {
    v.map_values(|p: (String, String)| pair_view(p))
}

/// `attr_lookup` finds a name exactly where some pair carries it.
pub proof fn lemma_lookup_some(s: Seq<AttrView>, name: Seq<char>)
    ensures
        attr_lookup(s, name) is Some <==> exists|i: int| 0 <= i < s.len() && #[trigger] s[i].0 == name,
        attr_lookup(s, name) is Some ==> exists|i: int|
            0 <= i < s.len() && #[trigger] s[i].0 == name && s[i].1 == attr_lookup(s, name)->0,
    decreases s.len(),
{
    if s.len() > 0 {
        lemma_lookup_some(s.drop_first(), name);
        if s[0].0 != name {
            assert forall|i: int| 0 <= i < s.len() && #[trigger] s[i].0 == name implies exists|j: int|
                0 <= j < s.drop_first().len() && #[trigger] s.drop_first()[j].0 == name by {
                assert(s.drop_first()[i - 1].0 == name);
            }
            if attr_lookup(s, name) is Some {
                let j = choose|j: int|
                    0 <= j < s.drop_first().len() && #[trigger] s.drop_first()[j].0 == name
                        && s.drop_first()[j].1 == attr_lookup(s, name)->0;
                assert(s[j + 1].0 == name);
            }
        }
    }
}

/// A lookup after inserting sees exactly the new binding.
pub proof fn lemma_insert_lookup(s: Seq<AttrView>, name: Seq<char>, value: Seq<char>, k: Seq<char>)
    ensures
        attr_lookup(attrs_insert(s, name, value), k) == (if k == name {
            Some(value)
        } else {
            attr_lookup(s, k)
        }),
    decreases s.len(),
{
    let r = attrs_insert(s, name, value);
    if s.len() == 0 {
        assert(r =~= seq![(name, value)]);
        assert(r[0] == (name, value));
        assert(attr_lookup(r.drop_first(), k) is None);
    } else if s[0].0 == name {
        assert(r =~= seq![(name, value)] + s.drop_first());
        assert(r[0] == (name, value));
        assert(r.drop_first() =~= s.drop_first());
    } else if str_lt(s[0].0, name) {
        lemma_str_lt_irreflexive(name);
        lemma_insert_lookup(s.drop_first(), name, value, k);
        assert(r =~= seq![s[0]] + attrs_insert(s.drop_first(), name, value));
        assert(r[0] == s[0]);
        assert(r.drop_first() =~= attrs_insert(s.drop_first(), name, value));
    } else {
        assert(r =~= seq![(name, value)] + s);
        assert(r[0] == (name, value));
        assert(r.drop_first() =~= s);
    }
}

/// Inserting keeps the list sorted, and a later lookup sees exactly the new binding.
pub proof fn lemma_insert(s: Seq<AttrView>, name: Seq<char>, value: Seq<char>)
    requires
        attrs_sorted(s),
    ensures
        attrs_sorted(attrs_insert(s, name, value)),
        forall|k: Seq<char>|
            #[trigger] attr_lookup(attrs_insert(s, name, value), k) == (if k == name {
                Some(value)
            } else {
                attr_lookup(s, k)
            }),
        forall|i: int|
            0 <= i < attrs_insert(s, name, value).len() ==> (#[trigger] attrs_insert(s, name, value)[i]).0
                == name || exists|j: int| 0 <= j < s.len() && s[j].0 == attrs_insert(s, name, value)[i].0,
    decreases s.len(),
{
    let r = attrs_insert(s, name, value);
    assert forall|k: Seq<char>| #[trigger] attr_lookup(r, k) == (if k == name {
        Some(value)
    } else {
        attr_lookup(s, k)
    }) by {
        lemma_insert_lookup(s, name, value, k);
    }
    if s.len() == 0 {
    } else if s[0].0 == name {
        assert forall|i: int, j: int| 0 <= i < j < r.len() implies str_lt(#[trigger] r[i].0, #[trigger] r[j].0) by {
            assert(str_lt(s[i].0, s[j].0));
        }
        assert forall|i: int| 0 <= i < r.len() implies (#[trigger] r[i]).0 == name || exists|j: int|
            0 <= j < s.len() && s[j].0 == r[i].0 by {
            if i > 0 {
                assert(s[i].0 == r[i].0);
            }
        }
    } else if str_lt(s[0].0, name) {
        let t = s.drop_first();
        assert(attrs_sorted(t));
        lemma_insert(t, name, value);
        let rt = attrs_insert(t, name, value);
        assert(r =~= seq![s[0]] + rt);
        assert forall|i: int, j: int| 0 <= i < j < r.len() implies str_lt(#[trigger] r[i].0, #[trigger] r[j].0) by {
            if i == 0 {
                assert(r[j] == rt[j - 1]);
                if rt[j - 1].0 != name {
                    let m = choose|m: int| 0 <= m < t.len() && t[m].0 == rt[j - 1].0;
                    assert(s[m + 1] == t[m]);
                }
            } else {
                assert(r[i] == rt[i - 1] && r[j] == rt[j - 1]);
            }
        }
        assert forall|i: int| 0 <= i < r.len() implies (#[trigger] r[i]).0 == name || exists|j: int|
            0 <= j < s.len() && s[j].0 == r[i].0 by {
            if i > 0 {
                assert(r[i] == rt[i - 1]);
                if rt[i - 1].0 != name {
                    let m = choose|m: int| 0 <= m < t.len() && t[m].0 == rt[i - 1].0;
                    assert(s[m + 1] == t[m]);
                }
            } else {
                assert(s[0].0 == r[0].0);
            }
        }
    } else {
        lemma_str_lt_total(s[0].0, name);
        assert(str_lt(name, s[0].0));
        assert forall|i: int, j: int| 0 <= i < j < r.len() implies str_lt(#[trigger] r[i].0, #[trigger] r[j].0) by {
            if i == 0 {
                if j > 1 {
                    assert(str_lt(s[0].0, s[j - 1].0));
                    lemma_str_lt_transitive(name, s[0].0, s[j - 1].0);
                }
            } else {
                assert(str_lt(s[i - 1].0, s[j - 1].0));
            }
        }
        assert forall|i: int| 0 <= i < r.len() implies (#[trigger] r[i]).0 == name || exists|j: int|
            0 <= j < s.len() && s[j].0 == r[i].0 by {
            if i > 0 {
                assert(s[i - 1].0 == r[i].0);
            }
        }
    }
}

/// Inserting past a prefix of smaller names leaves that prefix in front.
proof fn lemma_insert_split(s: Seq<AttrView>, i: int, name: Seq<char>, value: Seq<char>)
    requires
        0 <= i <= s.len(),
        forall|j: int| 0 <= j < i ==> str_lt(#[trigger] s[j].0, name),
    ensures
        attrs_insert(s, name, value) == s.take(i) + attrs_insert(s.skip(i), name, value),
    decreases i,
{
    if i == 0 {
        assert(s.take(0) + attrs_insert(s.skip(0), name, value) =~= attrs_insert(s, name, value)) by {
            assert(s.skip(0) =~= s);
        }
    } else {
        lemma_str_lt_irreflexive(name);
        assert(s[0].0 != name);
        let t = s.drop_first();
        assert forall|j: int| 0 <= j < i - 1 implies str_lt(#[trigger] t[j].0, name) by {
            assert(t[j] == s[j + 1]);
        }
        lemma_insert_split(t, i - 1, name, value);
        assert(t.skip(i - 1) =~= s.skip(i));
        assert(s.take(i) =~= seq![s[0]] + t.take(i - 1));
        assert(attrs_insert(s, name, value) =~= s.take(i) + attrs_insert(s.skip(i), name, value));
    }
}

/// The attributes of an element, names in ascending order.
#[derive(Debug, PartialEq, Eq)]
pub struct AttrMap {
    entries: Vec<(String, String)>,
}

impl View for AttrMap {
    type V = Seq<AttrView>;

    closed spec fn view(&self) -> Seq<AttrView> {
        pairs_view(self.entries@)
    }
}

impl Clone for AttrMap {
    fn clone(&self) -> (r: AttrMap)
        ensures
            r@ == self@,
    {
        proof {
            use_type_invariant(self);
        }
        let n = self.entries.len();
        let mut entries: Vec<(String, String)> = Vec::new();
        let mut i: usize = 0;
        while i < n
            invariant
                n == self.entries.len(),
                i <= n,
                entries@.len() == i,
                forall|j: int| 0 <= j < i ==> pair_view(#[trigger] entries@[j]) == pair_view(self.entries@[j]),
            decreases n - i,
        {
            let name = self.entries[i].0.clone();
            let value = self.entries[i].1.clone();
            entries.push((name, value));
            i = i + 1;
        }
        assert(pairs_view(entries@) =~= pairs_view(self.entries@));
        AttrMap { entries }
    }
}

impl AttrMap {
    #[verifier::type_invariant]
    closed spec fn names_ascending(self) -> bool {
        attrs_sorted(pairs_view(self.entries@))
    }

    /// Every attribute map keeps its names in ascending order.
    pub fn check_sorted(&self)
        ensures
            attrs_sorted(self@),
    {
        proof {
            use_type_invariant(self);
        }
    }

    /// An empty map.
    pub fn new() -> (m: AttrMap)
        ensures
            m@ == Seq::<AttrView>::empty(),
    {
        let m = AttrMap { entries: Vec::new() };
        assert(pairs_view(m.entries@) =~= Seq::<AttrView>::empty());
        m
    }

    /// Number of attributes.
    pub fn len(&self) -> (n: usize)
        ensures
            n == self@.len(),
    {
        self.entries.len()
    }

    /// The pairs, in ascending name order.
    pub fn entries(&self) -> (r: &Vec<(String, String)>)
        ensures
            pairs_view(r@) == self@,
    {
        &self.entries
    }

    /// Binds `name` to `value`, replacing an earlier value of the same name.
    pub fn insert(&mut self, name: String, value: String)
        ensures
            final(self)@ == attrs_insert(old(self)@, name@, value@),
    {
        proof {
            use_type_invariant(&*self);
        }
        let mut entries: Vec<(String, String)> = Vec::new();
        std::mem::swap(&mut entries, &mut self.entries);
        let ghost s = pairs_view(entries@);
        let n = entries.len();
        let mut i: usize = 0;
        while i < n
            invariant
                n == entries.len(),
                s == pairs_view(entries@),
                attrs_sorted(s),
                i <= n,
                forall|j: int| 0 <= j < i ==> str_lt(#[trigger] s[j].0, name@),
            ensures
                n == entries.len(),
                s == pairs_view(entries@),
                attrs_sorted(s),
                i <= n,
                forall|j: int| 0 <= j < i ==> str_lt(#[trigger] s[j].0, name@),
                i == n || !str_lt(s[i as int].0, name@),
            decreases n - i,
        {
            if !str_less(entries[i].0.as_str(), name.as_str()) {
                break;
            }
            i = i + 1;
        }
        assert(i == n || !str_lt(s[i as int].0, name@));
        proof {
            lemma_insert_split(s, i as int, name@, value@);
            lemma_insert(s, name@, value@);
        }
        if i < n && entries[i].0 == name {
            proof {
                assert(attrs_insert(s.skip(i as int), name@, value@) =~= seq![(name@, value@)]
                    + s.skip(i as int).drop_first());
            }
            entries.set(i, (name, value));
            proof {
                assert(pairs_view(entries@) =~= attrs_insert(s, name@, value@));
            }
        } else {
            proof {
                if i < n {
                    lemma_str_lt_total(s[i as int].0, name@);
                }
                assert(attrs_insert(s.skip(i as int), name@, value@) =~= seq![(name@, value@)]
                    + s.skip(i as int));
            }
            entries.insert(i, (name, value));
            proof {
                assert(pairs_view(entries@) =~= attrs_insert(s, name@, value@));
            }
        }
        self.entries = entries;
    }

    /// The value bound to `name`, if any.
    pub fn get(&self, name: &str) -> (r: Option<&String>)
        ensures
            match r {
                Some(v) => attr_lookup(self@, name@) == Some(v@),
                None => attr_lookup(self@, name@) is None,
            },
    {
        let n = self.entries.len();
        let ghost s = self@;
        let mut i: usize = 0;
        assert(s.skip(0) =~= s);
        while i < n
            invariant
                n == self.entries.len(),
                s == pairs_view(self.entries@),
                i <= n,
                attr_lookup(s, name@) == attr_lookup(s.skip(i as int), name@),
            decreases n - i,
        {
            if str_equal(self.entries[i].0.as_str(), name) {
                return Some(&self.entries[i].1);
            }
            assert(s.skip(i as int).drop_first() =~= s.skip(i + 1));
            i = i + 1;
        }
        None
    }

    /// Whether `name` is bound.
    pub fn contains_key(&self, name: &str) -> (r: bool)
        ensures
            r == attr_lookup(self@, name@) is Some,
    {
        self.get(name).is_some()
    }
}

} // verus!
