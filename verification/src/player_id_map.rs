use vstd::prelude::*;
use crate::game::PlayerId;

verus! {

/// The number of `Some` slots in `s`.
pub open spec fn count_some<T>(s: Seq<Option<T>>) -> nat
    decreases s.len(),
{
    if s.len() == 0 {
        0
    } else {
        count_some(s.drop_last()) + if s.last() is Some {
            1nat
        } else {
            0nat
        }
    }
}

/// The values of the `Some` slots of `s`, in slot order.
pub open spec fn populated<T>(s: Seq<Option<T>>) -> Seq<T>
    decreases s.len(),
{
    if s.len() == 0 {
        Seq::empty()
    } else {
        let rest = populated(s.drop_last());
        match s.last() {
            Some(x) => rest.push(x),
            None => rest,
        }
    }
}

/// The ids of the `Some` slots of `s`, in ascending order.
pub open spec fn populated_ids<T>(s: Seq<Option<T>>) -> Seq<PlayerId>
    decreases s.len(),
{
    if s.len() == 0 {
        Seq::empty()
    } else {
        let rest = populated_ids(s.drop_last());
        if s.last() is Some {
            rest.push(PlayerId((s.len() - 1) as u8))
        } else {
            rest
        }
    }
}

/// The value that the last pair with key `id` in `def` gives, if any.
pub open spec fn def_lookup<T>(def: Seq<(PlayerId, T)>, id: PlayerId) -> Option<T>
    decreases def.len(),
{
    if def.len() == 0 {
        None
    } else if def.last().0 == id {
        Some(def.last().1)
    } else {
        def_lookup(def.drop_last(), id)
    }
}

/// How many of the ids below `n` satisfy `f`.
pub open spec fn count_ids(f: spec_fn(PlayerId) -> bool, n: nat) -> nat
    decreases n,
{
    if n == 0 {
        0
    } else {
        count_ids(f, (n - 1) as nat) + if f(PlayerId((n - 1) as u8)) {
            1nat
        } else {
            0nat
        }
    }
}

proof fn lemma_count_some_ids<T>(s: Seq<Option<T>>, f: spec_fn(PlayerId) -> bool, n: nat)
    requires
        s.len() <= 256,
        n <= 256,
        forall|id: PlayerId| #[trigger] f(id) == ((id.0 as int) < s.len() && s[id.0 as int] is Some),
    ensures
        count_ids(f, n) == count_some(s.take(if n <= s.len() { n as int } else { s.len() as int })),
    decreases n,
{
    if n > 0 {
        lemma_count_some_ids(s, f, (n - 1) as nat);
        let id = PlayerId((n - 1) as u8);
        assert(f(id) == ((n - 1) < s.len() && s[n - 1] is Some));
        if n <= s.len() {
            assert(s.take(n as int).drop_last() =~= s.take(n - 1));
        }
    }
}

/// Data for each player, stored by the player's small integer id.
#[derive(Debug)]
pub struct PlayerIdMap<T> {
    inner: Vec<Option<T>>,
}

impl<T> Default for PlayerIdMap<T> {
    fn default() -> (r: Self)
        ensures
            r@ == Seq::<Option<T>>::empty(),
    {
        Self::new()
    }
}

impl<T: Clone> Clone for PlayerIdMap<T> {
    fn clone(&self) -> (r: Self)
        ensures
            r@.len() == self@.len(),
            forall|i: int| 0 <= i < self@.len() ==> #[trigger] cloned::<Option<T>>(self@[i], r@[i]),
    {
        proof { use_type_invariant(self); }
        PlayerIdMap { inner: self.inner.clone() }
    }
}

impl<T> View for PlayerIdMap<T> {
    type V = Seq<Option<T>>;

    closed spec fn view(&self) -> Seq<Option<T>> {
        self.inner@
    }
}

impl<T> PlayerIdMap<T> {
    #[verifier::type_invariant]
    closed spec fn inv(self) -> bool {
        self.inner@.len() <= 256
    }

    /// The slot of `id`, `None` beyond the end.
    pub open spec fn spec_get(self, id: PlayerId) -> Option<T> {
        if (id.0 as int) < self@.len() {
            self@[id.0 as int]
        } else {
            None
        }
    }

    pub open spec fn spec_contains(self, id: PlayerId) -> bool {
        self.spec_get(id) is Some
    }

    pub fn new() -> (r: Self)
        ensures
            r@ == Seq::<Option<T>>::empty(),
    {
        PlayerIdMap { inner: Vec::with_capacity(8) }
    }

    pub fn from_definition(definition: Vec<(PlayerId, T)>) -> (r: Self)
        ensures
            forall|id: PlayerId| #[trigger] r.spec_get(id) == def_lookup(definition@, id),
    {
        let mut map = Self::new();
        let ghost def = definition@;
        let mut i: usize = 0;
        for pair in it: definition.into_iter()
            invariant
                it.seq() == def,
                forall|id: PlayerId| #[trigger] map.spec_get(id) == def_lookup(def.take(it.index() as int), id),
        {
            let (id, x) = pair;
            let ghost k = it.index();
            proof {
                assert(def.take(k + 1).drop_last() =~= def.take(k as int));
            }
            map.set(id, x);
        }
        proof {
            assert(def.take(def.len() as int) =~= def);
        }
        map
    }

    pub fn set(&mut self, id: PlayerId, x: T)
        ensures
            final(self).spec_get(id) == Some(x),
            forall|other: PlayerId| other != id ==> #[trigger] final(self).spec_get(other) == old(self).spec_get(other),
            (id.0 as int) < old(self)@.len() ==> final(self)@ == old(self)@.update(id.0 as int, Some(x)),
            final(self)@.len() == if (id.0 as int) < old(self)@.len() {
                old(self)@.len() as int
            } else {
                id.0 + 1
            },
    {
        proof { use_type_invariant(&*self); }
        let index = id.0 as usize;
        let ghost old_inner = self.inner@;
        let mut inner: Vec<Option<T>> = Vec::new();
        std::mem::swap(&mut inner, &mut self.inner);
        while index >= inner.len()
            invariant
                old_inner.len() <= inner@.len() <= (if (index as int) < old_inner.len() {
                    old_inner.len() as int
                } else {
                    index + 1
                }),
                forall|j: int| 0 <= j < old_inner.len() ==> inner@[j] == old_inner[j],
                forall|j: int| old_inner.len() <= j < inner@.len() ==> inner@[j] is None,
            decreases index + 1 - inner.len(),
        {
            inner.push(None);
        }
        inner.set(index, Some(x));
        self.inner = inner;
        proof {
            assert forall|other: PlayerId| other != id implies #[trigger] self.spec_get(other) == old(self).spec_get(other) by {
                assert(other.0 != id.0);
            }
        }
    }

    pub fn remove(&mut self, id: PlayerId)
        ensures
            final(self).spec_get(id) is None,
            forall|other: PlayerId| other != id ==> #[trigger] final(self).spec_get(other) == old(self).spec_get(other),
            final(self)@.len() == old(self)@.len(),
    {
        proof { use_type_invariant(&*self); }
        let index = id.0 as usize;
        if index >= self.inner.len() {
        } else {
            let mut inner: Vec<Option<T>> = Vec::new();
            std::mem::swap(&mut inner, &mut self.inner);
            inner.set(index, None);
            self.inner = inner;
        }
        proof {
            assert forall|other: PlayerId| other != id implies #[trigger] self.spec_get(other) == old(self).spec_get(other) by {
                assert(other.0 != id.0);
            }
        }
    }

    pub fn get(&self, id: PlayerId) -> (r: Option<&T>)
        ensures
            r == match self.spec_get(id) {
                Some(x) => Some(&x),
                None => None::<&T>,
            },
    {
        let index = id.0 as usize;
        if index < self.inner.len() {
            match &self.inner[index] {
                Some(x) => Some(x),
                None => None,
            }
        } else {
            None
        }
    }

    pub fn get_mut(&mut self, id: PlayerId) -> (r: Option<&mut T>)
        ensures
            match old(self).spec_get(id) {
                Some(x) => r matches Some(m) && *m == x && final(self)@ == old(self)@.update(id.0 as int, Some(*final(m))),
                None => r is None && final(self)@ == old(self)@,
            },
    {
        proof { use_type_invariant(&*self); }
        let index = id.0 as usize;
        if index < self.inner.len() {
            match &mut self.inner[index] {
                Some(x) => Some(x),
                None => None,
            }
        } else {
            None
        }
    }

    pub fn contains(&self, id: PlayerId) -> (r: bool)
        ensures
            r == self.spec_contains(id),
    {
        self.get(id).is_some()
    }

    pub fn valid_ids(&self) -> (r: Vec<PlayerId>)
        ensures
            r@ == populated_ids(self@),
            forall|i: int, j: int| 0 <= i < j < r@.len() ==> (#[trigger] r@[i]).0 < (#[trigger] r@[j]).0,
            forall|id: PlayerId| r@.contains(id) <==> self.spec_contains(id),
    {
        proof {
            use_type_invariant(self);
            lemma_populated_ids_ordered(self@);
        }
        let mut vec = Vec::with_capacity(self.inner.len());
        let mut i: usize = 0;
        while i < self.inner.len()
            invariant
                i <= self.inner@.len() <= 256,
                vec@ == populated_ids(self.inner@.take(i as int)),
            decreases self.inner@.len() - i,
        {
            proof {
                assert(self.inner@.take(i + 1).drop_last() =~= self.inner@.take(i as int));
            }
            if self.inner[i].is_some() {
                vec.push(PlayerId(i as u8));
            }
            i += 1;
        }
        proof {
            assert(self.inner@.take(i as int) =~= self.inner@);
        }
        vec
    }

    pub fn count_populated(&self) -> (r: usize)
        ensures
            r == count_some(self@),
            r == count_ids(|id: PlayerId| self.spec_contains(id), 256),
    {
        proof { use_type_invariant(self); }
        let mut count: usize = 0;
        let mut i: usize = 0;
        while i < self.inner.len()
            invariant
                i <= self.inner@.len() <= 256,
                count == count_some(self.inner@.take(i as int)),
                count <= i,
            decreases self.inner@.len() - i,
        {
            proof {
                assert(self.inner@.take(i + 1).drop_last() =~= self.inner@.take(i as int));
            }
            if self.inner[i].is_some() {
                count += 1;
            }
            i += 1;
        }
        proof {
            assert(self.inner@.take(i as int) =~= self.inner@);
            let f = |id: PlayerId| self.spec_contains(id);
            lemma_count_some_ids(self@, f, 256);
        }
        count
    }

    pub fn next_free(&self) -> (r: Option<PlayerId>)
        ensures
            match r {
                Some(id) => 1 <= id.0 < 8 && !self.spec_contains(id) && forall|j: u8|
                    1 <= j < id.0 ==> #[trigger] self.spec_contains(PlayerId(j)),
                None => forall|j: u8| 1 <= j < 8 ==> #[trigger] self.spec_contains(PlayerId(j)),
            },
    {
        let mut i: usize = 1;
        while i < 8
            invariant
                1 <= i <= 8,
                forall|j: u8| 1 <= j < i ==> #[trigger] self.spec_contains(PlayerId(j)),
            decreases 8 - i,
        {
            if i < self.inner.len() {
                if self.inner[i].is_none() {
                    return Some(PlayerId(i as u8));
                }
            } else {
                return Some(PlayerId(i as u8));
            }
            proof {
                assert(self.spec_contains(PlayerId(i as u8)));
            }
            i += 1;
        }
        None
    }
}


impl<T> PlayerIdMap<T> {
    pub fn iter(&self) -> (r: PlayerIdMapIterator<'_, T>)
        ensures
            r.cursor() == 0,
            r.source() == *self,
            self@.len() <= 256,
    {
        proof { use_type_invariant(self); }
        PlayerIdMapIterator { i: 0, vec: self }
    }
}

impl<T: Clone> PlayerIdMap<T> {
    pub fn get_populated(&self) -> (r: Vec<T>)
        ensures
            r@.len() == populated(self@).len(),
            forall|i: int| 0 <= i < r@.len() ==> #[trigger] cloned::<T>(populated(self@)[i], r@[i]),
    {
        let mut out: Vec<T> = Vec::new();
        let mut i: usize = 0;
        while i < self.inner.len()
            invariant
                i <= self.inner@.len(),
                out@.len() == populated(self.inner@.take(i as int)).len(),
                forall|k: int| 0 <= k < out@.len() ==> #[trigger] cloned::<T>(populated(self.inner@.take(i as int))[k], out@[k]),
            decreases self.inner@.len() - i,
        {
            proof {
                assert(self.inner@.take(i + 1).drop_last() =~= self.inner@.take(i as int));
            }
            match &self.inner[i] {
                Some(v) => {
                    out.push(v.clone());
                },
                None => {},
            }
            i += 1;
        }
        proof {
            assert(self.inner@.take(i as int) =~= self.inner@);
        }
        out
    }

    /// A map with the keys of `other`, each holding a clone of `x`.
    pub fn seed_from<U>(other: &PlayerIdMap<U>, x: T) -> (r: PlayerIdMap<T>)
        ensures
            r@.len() == other@.len(),
            forall|i: int| 0 <= i < r@.len() ==> (#[trigger] r@[i] is Some) == (other@[i] is Some),
            forall|i: int| 0 <= i < r@.len() && r@[i] is Some ==> cloned::<T>(x, #[trigger] r@[i]->0),
    {
        proof { use_type_invariant(other); }
        let mut inner: Vec<Option<T>> = Vec::with_capacity(other.inner.len());
        let mut i: usize = 0;
        while i < other.inner.len()
            invariant
                i <= other.inner@.len() <= 256,
                inner@.len() == i,
                forall|k: int| 0 <= k < i ==> (#[trigger] inner@[k] is Some) == (other.inner@[k] is Some),
                forall|k: int| 0 <= k < i && inner@[k] is Some ==> cloned::<T>(x, #[trigger] inner@[k]->0),
            decreases other.inner@.len() - i,
        {
            match &other.inner[i] {
                Some(_) => {
                    inner.push(Some(x.clone()));
                },
                None => {
                    inner.push(None);
                },
            }
            i += 1;
        }
        PlayerIdMap { inner }
    }

    /// Adds a clone of `x` under every key of `other` that this map lacks.
    pub fn seed_missing<U>(&mut self, other: &PlayerIdMap<U>, x: T)
        ensures
            forall|id: PlayerId| #[trigger] old(self).spec_contains(id) ==> final(self).spec_get(id) == old(self).spec_get(id),
            forall|id: PlayerId| !old(self).spec_contains(id) && !other.spec_contains(id) ==> #[trigger] final(self).spec_get(id) is None,
            forall|id: PlayerId| !old(self).spec_contains(id) && other.spec_contains(id) ==> (#[trigger] final(self).spec_get(id) matches Some(v) && cloned::<T>(x, v)),
    {
        let mut it = other.iter();
        loop
            invariant
                it.source() == *other,
                forall|id: PlayerId| #[trigger] old(self).spec_contains(id) ==> self.spec_get(id) == old(self).spec_get(id),
                forall|id: PlayerId| !old(self).spec_contains(id) && !(other.spec_contains(id) && id.0 < it.cursor()) ==> #[trigger] self.spec_get(id) is None,
                forall|id: PlayerId| !old(self).spec_contains(id) && other.spec_contains(id) && id.0 < it.cursor() ==> (#[trigger] self.spec_get(id) matches Some(v) && cloned::<T>(x, v)),
            ensures
                forall|id: PlayerId| #[trigger] old(self).spec_contains(id) ==> self.spec_get(id) == old(self).spec_get(id),
                forall|id: PlayerId| !old(self).spec_contains(id) && !other.spec_contains(id) ==> #[trigger] self.spec_get(id) is None,
                forall|id: PlayerId| !old(self).spec_contains(id) && other.spec_contains(id) ==> (#[trigger] self.spec_get(id) matches Some(v) && cloned::<T>(x, v)),
            decreases other@.len() + 1 - it.cursor(),
        {
            match it.next() {
                Some((id, _)) => {
                    if !self.contains(id) {
                        self.set(id, x.clone());
                    }
                },
                None => {
                    assert forall|id: PlayerId| other.spec_contains(id) implies id.0 < it.cursor() by {}
                    break;
                },
            }
        }
    }

    /// Drops every key that `other` lacks.
    pub fn intersect<U>(&mut self, other: &PlayerIdMap<U>)
        ensures
            final(self)@.len() == old(self)@.len(),
            forall|id: PlayerId| #[trigger] final(self).spec_get(id) == if other.spec_contains(id) {
                old(self).spec_get(id)
            } else {
                None
            },
    {
        proof { use_type_invariant(&*self); }
        let mut i: usize = 0;
        let len = self.inner.len();
        while i < len
            invariant
                len == self@.len() == old(self)@.len() <= 256,
                i <= len,
                forall|id: PlayerId| (id.0 as int) < i ==> #[trigger] self.spec_get(id) == if other.spec_contains(id) {
                    old(self).spec_get(id)
                } else {
                    None
                },
                forall|id: PlayerId| (id.0 as int) >= i ==> #[trigger] self.spec_get(id) == old(self).spec_get(id),
            decreases len - i,
        {
            if !other.contains(PlayerId(i as u8)) {
                self.remove(PlayerId(i as u8));
            }
            i += 1;
        }
    }
}

impl<T: Copy> PlayerIdMap<T> {
    /// A slot-for-slot copy.
    pub fn copied(&self) -> (r: Self)
        ensures
            r@ == self@,
    {
        proof { use_type_invariant(self); }
        let mut inner: Vec<Option<T>> = Vec::with_capacity(self.inner.len());
        let mut i: usize = 0;
        while i < self.inner.len()
            invariant
                i <= self.inner@.len() <= 256,
                inner@ == self.inner@.take(i as int),
            decreases self.inner@.len() - i,
        {
            inner.push(self.inner[i]);
            i += 1;
            proof {
                assert(inner@ =~= self.inner@.take(i as int));
            }
        }
        proof {
            assert(self.inner@.take(i as int) =~= self.inner@);
        }
        PlayerIdMap { inner }
    }

    pub fn get_copy(&self, id: PlayerId) -> (r: Option<T>)
        ensures
            r == self.spec_get(id),
    {
        let index = id.0 as usize;
        if index < self.inner.len() {
            self.inner[index]
        } else {
            None
        }
    }
}

/// Walks the populated slots of a map in ascending id order.
pub struct PlayerIdMapIterator<'a, T> {
    i: usize,
    vec: &'a PlayerIdMap<T>,
}

impl<'a, T> PlayerIdMapIterator<'a, T> {
    /// The next slot to look at.
    pub closed spec fn cursor(&self) -> int {
        self.i as int
    }

    /// The map being walked.
    pub closed spec fn source(&self) -> PlayerIdMap<T> {
        *self.vec
    }

    pub fn next(&mut self) -> (r: Option<(PlayerId, &'a T)>)
        ensures
            final(self).source() == old(self).source(),
            match r {
                Some((id, x)) => {
                    &&& old(self).cursor() <= id.0 < old(self).source()@.len()
                    &&& old(self).source()@[id.0 as int] == Some(*x)
                    &&& forall|j: int| old(self).cursor() <= j < id.0 ==> #[trigger] old(self).source()@[j] is None
                    &&& final(self).cursor() == id.0 + 1
                },
                None => {
                    &&& forall|j: int| old(self).cursor() <= j < old(self).source()@.len() ==> #[trigger] old(self).source()@[j] is None
                    &&& final(self).cursor() >= old(self).source()@.len()
                    &&& final(self).cursor() >= old(self).cursor()
                },
            },
    {
        proof { use_type_invariant(self.vec); }
        while self.i < self.vec.inner.len()
            invariant
                self.vec == old(self).vec,
                self.vec.inner@.len() <= 256,
                old(self).i <= self.i,
                forall|j: int| old(self).i <= j < self.i ==> #[trigger] self.vec.inner@[j] is None,
            decreases self.vec.inner@.len() - self.i,
        {
            let cur = self.i;
            self.i += 1;
            match &self.vec.inner[cur] {
                Some(x) => {
                    return Some((PlayerId(cur as u8), x));
                },
                None => {},
            }
        }
        None
    }
}


/// The number of populated slots, the ids that `valid_ids` lists and the values that
/// `get_populated` lists all agree.
pub proof fn law_count_matches_ids<T>(s: Seq<Option<T>>)
    ensures
        populated_ids(s).len() == count_some(s),
        populated(s).len() == count_some(s),
    decreases s.len(),
{
    if s.len() > 0 {
        law_count_matches_ids(s.drop_last());
    }
}


/// The ids of the `Some` slots come in strictly ascending order, and an id is listed exactly
/// when its slot holds a value.
pub proof fn lemma_populated_ids_ordered<T>(s: Seq<Option<T>>)
    requires
        s.len() <= 256,
    ensures
        forall|i: int, j: int| 0 <= i < j < populated_ids(s).len() ==> (#[trigger] populated_ids(s)[i]).0 < (
        #[trigger] populated_ids(s)[j]).0,
        forall|i: int| 0 <= i < populated_ids(s).len() ==> (#[trigger] populated_ids(s)[i]).0 < s.len(),
        forall|id: PlayerId| populated_ids(s).contains(id) <==> ((id.0 as int) < s.len() && s[id.0 as int] is Some),
    decreases s.len(),
{
    if s.len() > 0 {
        let t = s.drop_last();
        lemma_populated_ids_ordered(t);
        let rest = populated_ids(t);
        let last = PlayerId((s.len() - 1) as u8);
        assert forall|id: PlayerId| populated_ids(s).contains(id) <==> ((id.0 as int) < s.len() && s[id.0 as int] is Some) by {
            let p = populated_ids(s);
            if (id.0 as int) < t.len() {
                assert(s[id.0 as int] == t[id.0 as int]);
            }
            if (id.0 as int) == s.len() - 1 {
                assert(id == last);
            }
            if id == last {
                assert(id.0 as int == s.len() - 1);
            }
            if s.last() is Some {
                assert(p == rest.push(last));
                if p.contains(id) {
                    let k = choose|k: int| 0 <= k < p.len() && p[k] == id;
                    if k < rest.len() {
                        assert(rest[k] == id);
                        assert(rest.contains(id));
                    }
                }
                if rest.contains(id) {
                    let k = choose|k: int| 0 <= k < rest.len() && rest[k] == id;
                    assert(p[k] == id);
                }
                if id == last {
                    assert(p[rest.len() as int] == id);
                }
            } else {
                assert(p == rest);
            }
        }
    }
}


/// The populated slots of `s` from slot `c` on, as `(id, value)` pairs in ascending id order.
pub open spec fn pairs_from<T>(s: Seq<Option<T>>, c: int) -> Seq<(PlayerId, T)>
    decreases s.len() - c,
{
    if c < 0 || c >= s.len() {
        Seq::empty()
    } else {
        let rest = pairs_from(s, c + 1);
        match s[c] {
            Some(x) => seq![(PlayerId(c as u8), x)] + rest,
            None => rest,
        }
    }
}

/// One call of `next` on an iterator of `s` at cursor `c` that gives `(id, x)` and leaves the
/// cursor at `c2`, as its contract describes it.
pub open spec fn iter_step<T>(s: Seq<Option<T>>, c: int, id: PlayerId, x: T, c2: int) -> bool {
    &&& c <= id.0 < s.len()
    &&& s[id.0 as int] == Some(x)
    &&& forall|j: int| c <= j < id.0 ==> #[trigger] s[j] is None
    &&& c2 == id.0 + 1
}

proof fn lemma_pairs_skip<T>(s: Seq<Option<T>>, c: int, d: int)
    requires
        0 <= c <= d <= s.len(),
        forall|j: int| c <= j < d ==> #[trigger] s[j] is None,
    ensures
        pairs_from(s, c) == pairs_from(s, d),
    decreases d - c,
{
    if c < d {
        lemma_pairs_skip(s, c + 1, d);
    }
}

proof fn lemma_pairs_push<T>(s: Seq<Option<T>>, o: Option<T>, c: int)
    requires
        0 <= c <= s.len() < 256,
    ensures
        pairs_from(s.push(o), c) == pairs_from(s, c) + match o {
            Some(x) => seq![(PlayerId(s.len() as u8), x)],
            None => Seq::<(PlayerId, T)>::empty(),
        },
    decreases s.len() - c,
{
    let t = s.push(o);
    if c < s.len() {
        lemma_pairs_push(s, o, c + 1);
        assert(t[c] == s[c]);
        match s[c] {
            Some(x) => {
                assert(pairs_from(t, c) =~= pairs_from(s, c) + match o {
                    Some(y) => seq![(PlayerId(s.len() as u8), y)],
                    None => Seq::<(PlayerId, T)>::empty(),
                });
            },
            None => {},
        }
    } else {
        assert(pairs_from(t, c + 1) == Seq::<(PlayerId, T)>::empty());
        assert(pairs_from(s, c) == Seq::<(PlayerId, T)>::empty());
        match o {
            Some(x) => {
                assert(pairs_from(t, c) =~= seq![(PlayerId(s.len() as u8), x)]);
            },
            None => {},
        }
    }
}

proof fn lemma_pairs_populated<T>(s: Seq<Option<T>>)
    requires
        s.len() <= 256,
    ensures
        pairs_from(s, 0).map_values(|p: (PlayerId, T)| p.0) == populated_ids(s),
        pairs_from(s, 0).map_values(|p: (PlayerId, T)| p.1) == populated(s),
    decreases s.len(),
{
    if s.len() > 0 {
        let t = s.drop_last();
        lemma_pairs_populated(t);
        assert(t.push(s.last()) == s);
        lemma_pairs_push(t, s.last(), 0);
        let a = pairs_from(t, 0);
        match s.last() {
            Some(x) => {
                let b = a + seq![(PlayerId(t.len() as u8), x)];
                assert(b.map_values(|p: (PlayerId, T)| p.0) =~= a.map_values(|p: (PlayerId, T)| p.0).push(PlayerId(t.len() as u8)));
                assert(b.map_values(|p: (PlayerId, T)| p.1) =~= a.map_values(|p: (PlayerId, T)| p.1).push(x));
            },
            None => {
                assert(a + Seq::<(PlayerId, T)>::empty() =~= a);
            },
        }
    } else {
        assert(pairs_from(s, 0).map_values(|p: (PlayerId, T)| p.0) =~= Seq::<PlayerId>::empty());
        assert(pairs_from(s, 0).map_values(|p: (PlayerId, T)| p.1) =~= Seq::<T>::empty());
    }
}

proof fn lemma_iteration_from<T>(s: Seq<Option<T>>, steps: Seq<(PlayerId, T)>, cursors: Seq<int>, k: int)
    requires
        s.len() <= 256,
        cursors.len() == steps.len() + 1,
        0 <= k <= steps.len(),
        0 <= cursors[k],
        forall|i: int| 0 <= i < steps.len() ==> #[trigger] iter_step(s, cursors[i], steps[i].0, steps[i].1, cursors[i + 1]),
        forall|j: int| cursors[steps.len() as int] <= j < s.len() ==> #[trigger] s[j] is None,
    ensures
        steps.subrange(k, steps.len() as int) == pairs_from(s, cursors[k]),
    decreases steps.len() - k,
{
    let n = steps.len() as int;
    if k == n {
        if cursors[n] < s.len() {
            lemma_pairs_skip(s, cursors[n], s.len() as int);
        }
        assert(steps.subrange(k, n) =~= Seq::<(PlayerId, T)>::empty());
    } else {
        assert(iter_step(s, cursors[k], steps[k].0, steps[k].1, cursors[k + 1]));
        lemma_iteration_from(s, steps, cursors, k + 1);
        let id = steps[k].0;
        lemma_pairs_skip(s, cursors[k], id.0 as int);
        assert(PlayerId((id.0 as int) as u8) == id);
        assert(pairs_from(s, id.0 as int) == seq![(id, steps[k].1)] + pairs_from(s, cursors[k + 1]));
        assert(steps.subrange(k, n) =~= seq![steps[k]] + steps.subrange(k + 1, n));
    }
}

/// Calling `next` on a fresh iterator until it gives `None` lists each populated slot once, in
/// ascending id order: the ids that `valid_ids` gives, with the values that `get_populated`
/// gives.
pub proof fn law_iteration_lists_valid_ids<T>(s: Seq<Option<T>>, steps: Seq<(PlayerId, T)>, cursors: Seq<int>)
    requires
        s.len() <= 256,
        cursors.len() == steps.len() + 1,
        cursors[0] == 0,
        forall|i: int| 0 <= i < steps.len() ==> #[trigger] iter_step(s, cursors[i], steps[i].0, steps[i].1, cursors[i + 1]),
        forall|j: int| cursors[steps.len() as int] <= j < s.len() ==> #[trigger] s[j] is None,
    ensures
        steps == pairs_from(s, 0),
        steps.map_values(|p: (PlayerId, T)| p.0) == populated_ids(s),
        steps.map_values(|p: (PlayerId, T)| p.1) == populated(s),
{
    lemma_iteration_from(s, steps, cursors, 0);
    assert(steps.subrange(0, steps.len() as int) =~= steps);
    lemma_pairs_populated(s);
}

} // verus!
