use vstd::prelude::*;

verus! {

#[derive(PartialEq, Eq, Debug, Clone, Copy, Structural)]
pub enum RbColor {
    Red,
    Black,
}

#[derive(PartialEq, Eq, Debug, Clone, Copy, Structural)]
pub enum Direction {
    Left,
    Right,
}

impl Direction {
    pub fn opposite(&self) -> (r: Direction)
        ensures
            r != *self,
    {
        match self {
            Direction::Left => Direction::Right,
            Direction::Right => Direction::Left,
        }
    }
}

/// Membership of a node in an ordered tree.
pub struct RbLinks {
    pub color: RbColor,
    pub owned: bool,
}

impl RbLinks {
    pub fn new() -> (r: Self)
        ensures
            r.color == RbColor::Red,
            !r.owned,
    {
        RbLinks { color: RbColor::Red, owned: false }
    }
}

/// Whether the keys of `s` never decrease.
pub open spec fn sorted_by_key<V>(s: Seq<(usize, V)>) -> bool {
    forall|i: int, j: int| 0 <= i < j < s.len() ==> s[i].0 <= s[j].0
}

/// Whether some entry of `s` has key `key`.
pub open spec fn has_key<V>(s: Seq<(usize, V)>, key: usize) -> bool {
    exists|i: int| 0 <= i < s.len() && #[trigger] s[i].0 == key
}

/// Ordered collection of values by key; equal keys keep the order they were inserted in.
pub struct RbTree<V> {
    pub entries: Vec<(usize, V)>,
}

impl<V> RbTree<V> {
    /// The entries in key order.
    pub open spec fn view(&self) -> Seq<(usize, V)> {
        self.entries@
    }

    pub open spec fn wf(&self) -> bool {
        sorted_by_key(self@)
    }

    pub fn new() -> (r: Self)
        ensures
            r.wf(),
            r@ == Seq::<(usize, V)>::empty(),
    {
        RbTree { entries: Vec::new() }
    }

    pub fn len(&self) -> (r: usize)
        ensures
            r == self@.len(),
    {
        self.entries.len()
    }

    /// Inserts `value` under `key`, after every entry whose key is not greater.
    pub fn insert(&mut self, key: usize, value: V)
        requires
            old(self).wf(),
        ensures
            final(self).wf(),
            exists|pos: int|
                0 <= pos <= old(self)@.len() && (forall|i: int| 0 <= i < pos ==> #[trigger] old(self)@[i].0 <= key)
                    && (forall|i: int| pos <= i < old(self)@.len() ==> #[trigger] old(self)@[i].0 > key)
                    && final(self)@ == old(self)@.insert(pos, (key, value)),
    {
        let mut pos: usize = 0;
        while pos < self.entries.len() && self.entries[pos].0 <= key
            invariant
                pos <= self@.len(),
                self@ == old(self)@,
                self.wf(),
                forall|i: int| 0 <= i < pos ==> #[trigger] self@[i].0 <= key,
            decreases self@.len() - pos,
        {
            pos += 1;
        }
        self.entries.insert(pos, (key, value));
        proof {
            let o = old(self)@;
            assert forall|i: int| pos <= i < o.len() implies #[trigger] o[i].0 > key by {
                assert(o[pos as int].0 > key);
            }
            assert forall|i: int, j: int| 0 <= i < j < self@.len() implies self@[i].0 <= self@[j].0 by {
                if j < pos {
                } else if j == pos {
                    assert(o[i].0 <= key);
                } else if i == pos {
                    assert(o[j - 1].0 > key);
                } else if i < pos {
                    assert(o[i].0 <= o[j - 1].0);
                } else {
                    assert(o[i - 1].0 <= o[j - 1].0);
                }
            }
        }
    }

    /// Position of the first entry with key `key`.
    fn position(&self, key: usize) -> (r: Option<usize>)
        ensures
            match r {
                None => !has_key(self@, key),
                Some(i) => i < self@.len() && self@[i as int].0 == key
                    && forall|j: int| 0 <= j < i ==> #[trigger] self@[j].0 != key,
            },
    {
        let mut i: usize = 0;
        while i < self.entries.len()
            invariant
                i <= self@.len(),
                forall|j: int| 0 <= j < i ==> #[trigger] self@[j].0 != key,
            decreases self@.len() - i,
        {
            if self.entries[i].0 == key {
                return Some(i);
            }
            i += 1;
        }
        None
    }

    /// A value under `key`, if there is one.
    pub fn find(&self, key: usize) -> (r: Option<&V>)
        ensures
            r is None <==> !has_key(self@, key),
            r matches Some(v) ==> exists|i: int| 0 <= i < self@.len() && #[trigger] self@[i] == (key, *v),
    {
        match self.position(key) {
            Some(i) => {
                let r = &self.entries[i].1;
                assert(self@[i as int] == (key, *r));
                Some(r)
            },
            None => None,
        }
    }

    /// Removes an entry under `key` and hands out its value.
    pub fn remove_key(&mut self, key: usize) -> (r: Option<V>)
        requires
            old(self).wf(),
        ensures
            final(self).wf(),
            r is None <==> !has_key(old(self)@, key),
            r is None ==> final(self)@ == old(self)@,
            r matches Some(v) ==> exists|i: int|
                0 <= i < old(self)@.len() && #[trigger] old(self)@[i] == (key, v) && final(self)@
                    == old(self)@.remove(i),
    {
        match self.position(key) {
            Some(i) => {
                let (k, v) = self.entries.remove(i);
                proof {
                    let o = old(self)@;
                    assert(o[i as int] == (k, v));
                    assert forall|a: int, b: int| 0 <= a < b < self@.len() implies self@[a].0 <= self@[b].0 by {
                        if b < i {
                        } else if a < i {
                            assert(o[a].0 <= o[b + 1].0);
                        } else {
                            assert(o[a + 1].0 <= o[b + 1].0);
                        }
                    }
                }
                Some(v)
            },
            None => None,
        }
    }

    /// A cursor at the entry with the smallest key.
    pub fn cursor(&self) -> (r: Cursor<'_, V>)
        ensures
            r.tree@ == self@,
            r.index == 0,
    {
        Cursor { tree: self, index: 0 }
    }

    /// A cursor at an entry under `key`, if there is one.
    pub fn cursor_at_key(&self, key: usize) -> (r: Option<Cursor<'_, V>>)
        ensures
            r is None <==> !has_key(self@, key),
            r matches Some(c) ==> c.tree@ == self@ && c.index < self@.len() && self@[c.index as int].0 == key,
    {
        match self.position(key) {
            Some(i) => Some(Cursor { tree: self, index: i }),
            None => None,
        }
    }
}

/// Position in a tree, moving in key order.
pub struct Cursor<'a, V> {
    pub tree: &'a RbTree<V>,
    pub index: usize,
}

impl<'a, V> Cursor<'a, V> {
    /// The entry under the cursor.
    pub fn get_arc(&self) -> (r: &'a (usize, V))
        requires
            self.index < self.tree@.len(),
        ensures
            *r == self.tree@[self.index as int],
    {
        &self.tree.entries[self.index]
    }

    /// The entry under the cursor, if it is not past the end.
    pub fn get(&self) -> (r: Option<&'a (usize, V)>)
        ensures
            self.index < self.tree@.len() ==> r == Some(&self.tree@[self.index as int]),
            self.index >= self.tree@.len() ==> r is None,
    {
        if self.index < self.tree.entries.len() {
            Some(&self.tree.entries[self.index])
        } else {
            None
        }
    }

    /// Moves to the next entry in key order.
    pub fn next(&mut self)
        ensures
            final(self).tree == old(self).tree,
            old(self).index < old(self).tree@.len() ==> final(self).index == old(self).index + 1,
            old(self).index >= old(self).tree@.len() ==> final(self).index == old(self).index,
    {
        if self.index < self.tree.entries.len() {
            self.index = self.index + 1;
        }
    }
}

} // verus!
