//! The route index: route name to the location of its controller.
use vstd::prelude::*;
use vstd::hash_map::StringHashMap;

use crate::protocol::RouteInfo;

verus! {

/// The views of a sequence of strings.
pub open spec fn string_views(s: Seq<String>) -> Seq<Seq<char>> {
    s.map_values(|x: String| x@)
}

/// A map from route name to controller location, which also remembers the
/// order in which names were first inserted so that they can be listed.
pub struct RouteIndex {
    map: StringHashMap<RouteInfo>,
    names: Vec<String>,
}

impl View for RouteIndex {
    type V = Map<Seq<char>, RouteInfo>;

    closed spec fn view(&self) -> Map<Seq<char>, RouteInfo> {
        self.map@
    }
}

impl RouteIndex {
    #[verifier::type_invariant]
    spec fn inv(self) -> bool {
        &&& string_views(self.names@).no_duplicates()
        &&& forall|k: Seq<char>| #[trigger]
            self.map@.contains_key(k) <==> string_views(self.names@).contains(k)
    }

    /// The route names, each once, in the order they were first inserted.
    pub closed spec fn names(&self) -> Seq<Seq<char>> {
        string_views(self.names@)
    }

    /// A duplicate-free list of names whose members are exactly the keys of a
    /// map has one name per key.
    proof fn lemma_names_cover(names: Seq<Seq<char>>, m: Map<Seq<char>, RouteInfo>)
        requires
            names.no_duplicates(),
            forall|k: Seq<char>| #[trigger] m.contains_key(k) <==> names.contains(k),
        ensures
            names.to_set() == m.dom(),
            names.len() == m.len(),
            m.dom().finite(),
    {
        assert(names.to_set() =~= m.dom());
        names.unique_seq_to_set();
    }

    /// An empty index.
    pub fn new() -> (r: RouteIndex)
        ensures
            r@ == Map::<Seq<char>, RouteInfo>::empty(),
            r.names() == Seq::<Seq<char>>::empty(),
    {
        let r = RouteIndex { map: StringHashMap::new(), names: Vec::new() };
        assert(string_views(r.names@) =~= Seq::<Seq<char>>::empty());
        r
    }

    /// Associates `info` with `name`, replacing what the name held before.
    pub fn insert(&mut self, name: String, info: RouteInfo)
        ensures
            final(self)@ == old(self)@.insert(name@, info),
            final(self).names() == if old(self)@.contains_key(name@) {
                old(self).names()
            } else {
                old(self).names().push(name@)
            },
    {
        proof {
            use_type_invariant(&*self);
        }
        let ghost old_names = self.names();
        let mut taken = RouteIndex::new();
        std::mem::swap(&mut taken, self);
        let RouteIndex { mut map, mut names } = taken;
        assert(string_views(names@) == old_names);
        if !map.contains_key(name.as_str()) {
            assert(!old_names.contains(name@));
            names.push(name.clone());
            assert(string_views(names@) =~= old_names.push(name@));
            assert(old_names.push(name@).no_duplicates()) by {
                let s = old_names.push(name@);
                assert forall|a: int, b: int| 0 <= a < s.len() && 0 <= b < s.len() && a != b implies s[a]
                    != s[b] by {
                    if a == old_names.len() {
                        assert(old_names.contains(s[b]));
                    } else if b == old_names.len() {
                        assert(old_names.contains(s[a]));
                    }
                }
            }
        }
        let ghost before = map@;
        map.insert(name, info);
        assert forall|k: Seq<char>| #[trigger] map@.contains_key(k) <==> string_views(names@).contains(k) by {
            if k == name@ {
                assert(string_views(names@).contains(name@)) by {
                    if before.contains_key(name@) {
                        assert(old_names.contains(name@));
                        assert(string_views(names@) == old_names);
                    } else {
                        assert(string_views(names@)[old_names.len() as int] == name@);
                    }
                }
            } else if string_views(names@).contains(k) && !before.contains_key(k) {
                let j = choose|j: int| 0 <= j < string_views(names@).len() && string_views(names@)[j] == k;
                if j < old_names.len() {
                    assert(old_names.contains(k));
                }
            } else if before.contains_key(k) {
                let j = choose|j: int| 0 <= j < old_names.len() && old_names[j] == k;
                assert(string_views(names@)[j] == k);
            }
        }
        *self = RouteIndex { map, names };
    }

    /// The location associated with `name`, if any.
    pub fn get(&self, name: &str) -> (r: Option<&RouteInfo>)
        ensures
            match r {
                Some(info) => self@.contains_key(name@) && *info == self@[name@],
                None => !self@.contains_key(name@),
            },
    {
        self.map.get(name)
    }

    /// The number of routes.
    pub fn len(&self) -> (r: usize)
        ensures
            r == self@.len(),
    {
        proof {
            use_type_invariant(self);
            Self::lemma_names_cover(self.names(), self@);
        }
        self.names.len()
    }

    /// Whether the index holds no route.
    pub fn is_empty(&self) -> (r: bool)
        ensures
            r == (self@.len() == 0),
    {
        self.len() == 0
    }

    /// The route names, each once, in the order they were first inserted.
    pub fn route_names(&self) -> (r: Vec<String>)
        ensures
            string_views(r@) == self.names(),
            self.names().no_duplicates(),
            self.names().to_set() == self@.dom(),
            self.names().len() == self@.len(),
    {
        proof {
            use_type_invariant(self);
            Self::lemma_names_cover(self.names(), self@);
        }
        let mut r: Vec<String> = Vec::new();
        let mut i: usize = 0;
        while i < self.names.len()
            invariant
                i <= self.names@.len(),
                string_views(r@) == string_views(self.names@).take(i as int),
            decreases self.names@.len() - i,
        {
            let ghost before = r@;
            let c = self.names[i].clone();
            assert(c@ == string_views(self.names@)[i as int]);
            r.push(c);
            assert(r@ == before.push(c));
            assert(string_views(before).len() == i);
            assert(string_views(r@).len() == i + 1);
            assert forall|j: int| 0 <= j < i + 1 implies #[trigger] string_views(r@)[j] == string_views(
                self.names@,
            ).take(i + 1)[j] by {
                if j < i {
                    assert(string_views(before)[j] == string_views(self.names@).take(i as int)[j]);
                }
            }
            assert(string_views(r@) =~= string_views(self.names@).take(i + 1));
            i = i + 1;
        }
        assert(string_views(self.names@).take(i as int) =~= string_views(self.names@));
        r
    }

    /// A copy of this index, with the same routes and the same name order.
    pub fn duplicate(&self) -> (r: RouteIndex)
        ensures
            r@ == self@,
            r.names() == self.names(),
    {
        proof {
            use_type_invariant(self);
        }
        let mut r = RouteIndex::new();
        let mut i: usize = 0;
        while i < self.names.len()
            invariant
                i <= self.names@.len(),
                string_views(self.names@).no_duplicates(),
                forall|k: Seq<char>| #[trigger]
                    self.map@.contains_key(k) <==> string_views(self.names@).contains(k),
                r.names() == string_views(self.names@).take(i as int),
                r@ == self.map@.restrict(string_views(self.names@).take(i as int).to_set()),
            decreases self.names@.len() - i,
        {
            let ghost views = string_views(self.names@);
            let name = &self.names[i];
            assert(views[i as int] == name@);
            assert(views.contains(name@));
            match self.map.get(name.as_str()) {
                Some(info) => {
                    assert(!views.take(i as int).contains(name@)) by {
                        if views.take(i as int).contains(name@) {
                            let j = choose|j: int| 0 <= j < i && views.take(i as int)[j] == name@;
                            assert(views[j] == views[i as int]);
                        }
                    }
                    assert(!r@.contains_key(name@));
                    r.insert(name.clone(), info.duplicate());
                    assert(views.take(i + 1) =~= views.take(i as int) + seq![name@]);
                    proof {
                        Seq::<Seq<char>>::lemma_to_set_insert_commutes(views.take(i as int), name@);
                    }
                    assert(r@ =~= self.map@.restrict(views.take(i + 1).to_set()));
                },
                None => {},
            }
            i = i + 1;
        }
        assert(string_views(self.names@).take(i as int) =~= string_views(self.names@));
        assert(r@ =~= self.map@);
        r
    }
}

} // verus!
