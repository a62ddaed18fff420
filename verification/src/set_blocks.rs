use vstd::prelude::*;

verus! {

/// The value that a lookup reports for a position that holds no stored block.
pub const UNSET_ID: u8 = 241;

/// The ASCII decimal digits of a natural number, most significant first.
pub open spec fn nat_digits(n: nat) -> Seq<u8>
    decreases n,
{
    if n < 10 {
        seq![(48 + n) as u8]
    } else {
        nat_digits(n / 10).push((48 + n % 10) as u8)
    }
}

/// The ASCII decimal rendering of an integer, with a leading `-` when negative.
pub open spec fn int_digits(n: int) -> Seq<u8> {
    if n < 0 {
        seq![45u8] + nat_digits((-n) as nat)
    } else {
        nat_digits(n as nat)
    }
}

/// The key under which a stored block is kept: the decimal renderings of the
/// chunk's grid coordinates and of the block's three indices, written one
/// after the other with no separator.
pub open spec fn spec_block_key(grid_x: int, grid_z: int, i: int, k: int, j: int) -> Seq<u8> {
    int_digits(grid_x) + int_digits(grid_z) + int_digits(i) + int_digits(k) + int_digits(j)
}

/// What a lookup of `key` in `m` reports.
pub open spec fn stored_value(m: Map<Seq<u8>, u8>, key: Seq<u8>) -> u8 {
    if m.contains_key(key) {
        m[key]
    } else {
        UNSET_ID
    }
}

fn push_nat_digits(out: &mut Vec<u8>, n: u128)
    ensures
        final(out)@ == old(out)@ + nat_digits(n as nat),
    decreases n,
{
    if n >= 10 {
        push_nat_digits(out, n / 10);
    }
    let d: u8 = (n % 10) as u8;
    out.push(48 + d);
    proof {
        assert(old(out)@ + nat_digits(n as nat) =~= old(out)@ + (if n >= 10 {
            nat_digits((n / 10) as nat)
        } else {
            Seq::<u8>::empty()
        }).push((48 + n % 10) as u8));
    }
}

fn push_int_digits(out: &mut Vec<u8>, n: i128)
    ensures
        final(out)@ == old(out)@ + int_digits(n as int),
{
    if n < 0 {
        out.push(45);
        let m: u128 = if n == i128::MIN {
            (i128::MAX as u128) + 1
        } else {
            (-n) as u128
        };
        push_nat_digits(out, m);
        proof {
            assert(old(out)@ + int_digits(n as int) =~= old(out)@.push(45u8) + nat_digits(m as nat));
        }
    } else {
        push_nat_digits(out, n as u128);
    }
}

/// Builds the key of the stored block at indices `(i, k, j)` of the chunk at
/// grid coordinates `(grid_x, grid_z)`.
pub fn block_key(grid_x: i32, grid_z: i32, i: i128, k: i128, j: i128) -> (key: Vec<u8>)
    ensures
        key@ == spec_block_key(grid_x as int, grid_z as int, i as int, k as int, j as int),
{
    let mut key: Vec<u8> = Vec::new();
    push_int_digits(&mut key, grid_x as i128);
    push_int_digits(&mut key, grid_z as i128);
    push_int_digits(&mut key, i);
    push_int_digits(&mut key, k);
    push_int_digits(&mut key, j);
    proof {
        assert(key@ =~= spec_block_key(grid_x as int, grid_z as int, i as int, k as int, j as int));
    }
    key
}

fn bytes_eq(a: &Vec<u8>, b: &Vec<u8>) -> (r: bool)
    ensures
        r == (a@ == b@),
{
    if a.len() != b.len() {
        return false;
    }
    let mut idx: usize = 0;
    while idx < a.len()
        invariant
            a@.len() == b@.len(),
            idx <= a@.len(),
            forall|t: int| 0 <= t < idx ==> a@[t] == b@[t],
        decreases a@.len() - idx,
    {
        if a[idx] != b[idx] {
            return false;
        }
        idx = idx + 1;
    }
    proof {
        assert(a@ =~= b@);
    }
    true
}

/// Blocks that were placed, removed or planted, kept by key so that a chunk
/// that is generated again shows them. No key occurs twice.
pub struct SetBlocks {
    entries: Vec<(Vec<u8>, u8)>,
}

impl SetBlocks {
    #[verifier::type_invariant]
    spec fn keys_distinct(self) -> bool {
        forall|a: int, b: int|
            0 <= a < b < self.entries@.len() ==> #[trigger] self.entries@[a].0@ != #[trigger] self.entries@[b].0@
    }

    spec fn has_key_at(self, key: Seq<u8>, a: int) -> bool {
        0 <= a < self.entries@.len() && self.entries@[a].0@ == key
    }

    pub closed spec fn spec_map(self) -> Map<Seq<u8>, u8> {
        Map::new(
            |key: Seq<u8>| exists|a: int| self.has_key_at(key, a),
            |key: Seq<u8>| self.entries@[choose|a: int| self.has_key_at(key, a)].1,
        )
    }

    /// An empty store.
    pub fn new() -> (s: SetBlocks)
        ensures
            s@ == Map::<Seq<u8>, u8>::empty(),
    {
        let s = SetBlocks { entries: Vec::new() };
        assert(s.spec_map() =~= Map::<Seq<u8>, u8>::empty());
        s
    }

    fn find(&self, key: &Vec<u8>) -> (r: Option<usize>)
        ensures
            match r {
                Some(a) => self.has_key_at(key@, a as int),
                None => forall|a: int| !self.has_key_at(key@, a),
            },
    {
        let mut idx: usize = 0;
        while idx < self.entries.len()
            invariant
                idx <= self.entries@.len(),
                forall|a: int| 0 <= a < idx ==> !self.has_key_at(key@, a),
            decreases self.entries@.len() - idx,
        {
            if bytes_eq(&self.entries[idx].0, key) {
                return Some(idx);
            }
            idx = idx + 1;
        }
        None
    }

    proof fn lemma_value_at(self, key: Seq<u8>, a: int)
        requires
            self.keys_distinct(),
            self.has_key_at(key, a),
        ensures
            self.spec_map().contains_key(key),
            self.spec_map()[key] == self.entries@[a].1,
    {
        let c = choose|c: int| self.has_key_at(key, c);
        assert(self.has_key_at(key, c));
        if c != a {
            if c < a {
                assert(self.entries@[c].0@ != self.entries@[a].0@);
            } else {
                assert(self.entries@[a].0@ != self.entries@[c].0@);
            }
        }
    }

    /// The value stored under `key`, if any.
    pub fn get(&self, key: &Vec<u8>) -> (r: Option<u8>)
        ensures
            r == (if self@.contains_key(key@) {
                Some(self@[key@])
            } else {
                None::<u8>
            }),
    {
        proof {
            use_type_invariant(self);
        }
        match self.find(key) {
            Some(a) => {
                proof {
                    self.lemma_value_at(key@, a as int);
                }
                Some(self.entries[a].1)
            },
            None => None,
        }
    }

    pub fn contains_key(&self, key: &Vec<u8>) -> (r: bool)
        ensures
            r == self@.contains_key(key@),
    {
        proof {
            use_type_invariant(self);
        }
        match self.find(key) {
            Some(a) => {
                proof {
                    self.lemma_value_at(key@, a as int);
                }
                true
            },
            None => false,
        }
    }

    /// Stores `value` under `key`, replacing what was there.
    pub fn insert(&mut self, key: Vec<u8>, value: u8)
        ensures
            final(self)@ == old(self)@.insert(key@, value),
    {
        proof {
            use_type_invariant(&*self);
        }
        let ghost old_self = *self;
        match self.find(&key) {
            Some(a) => {
                let mut entries: Vec<(Vec<u8>, u8)> = Vec::new();
                std::mem::swap(&mut entries, &mut self.entries);
                entries.set(a, (key, value));
                let ghost e = entries@;
                assert forall|x: int, y: int| 0 <= x < y < e.len() implies #[trigger] e[x].0@ != #[trigger] e[y].0@ by {
                    assert(old_self.entries@[x].0@ != old_self.entries@[y].0@);
                }
                self.entries = entries;
                proof {
                    let ghost ks = old_self.entries@[a as int].0@;
                    assert forall|kk: Seq<u8>| true implies
                        (self.spec_map().contains_key(kk) == old_self.spec_map().insert(ks, value).contains_key(kk))
                    by {
                        if exists|c: int| old_self.has_key_at(kk, c) {
                            let c = choose|c: int| old_self.has_key_at(kk, c);
                            assert(self.has_key_at(kk, c));
                        }
                        if exists|c: int| self.has_key_at(kk, c) {
                            let c = choose|c: int| self.has_key_at(kk, c);
                            assert(old_self.has_key_at(kk, c));
                        }
                    }
                    assert forall|kk: Seq<u8>| #[trigger] self.spec_map().contains_key(kk) implies
                        self.spec_map()[kk] == old_self.spec_map().insert(ks, value)[kk]
                    by {
                        let c = choose|c: int| self.has_key_at(kk, c);
                        self.lemma_value_at(kk, c);
                        if kk != ks {
                            old_self.lemma_value_at(kk, c);
                        }
                    }
                    assert(self.spec_map() =~= old_self.spec_map().insert(key@, value));
                }
            },
            None => {
                let ghost ks = key@;
                let mut entries: Vec<(Vec<u8>, u8)> = Vec::new();
                std::mem::swap(&mut entries, &mut self.entries);
                entries.push((key, value));
                let ghost e = entries@;
                assert forall|x: int, y: int| 0 <= x < y < e.len() implies #[trigger] e[x].0@ != #[trigger] e[y].0@ by {
                    if y < e.len() - 1 {
                        assert(old_self.entries@[x].0@ != old_self.entries@[y].0@);
                    } else {
                        assert(!old_self.has_key_at(ks, x));
                    }
                }
                self.entries = entries;
                proof {
                    let n = old_self.entries@.len() as int;
                    assert(self.has_key_at(ks, n));
                    assert forall|kk: Seq<u8>| true implies
                        (self.spec_map().contains_key(kk) == old_self.spec_map().insert(ks, value).contains_key(kk))
                    by {
                        if exists|c: int| old_self.has_key_at(kk, c) {
                            let c = choose|c: int| old_self.has_key_at(kk, c);
                            assert(self.has_key_at(kk, c));
                        }
                        if exists|c: int| self.has_key_at(kk, c) {
                            let c = choose|c: int| self.has_key_at(kk, c);
                            if c < n {
                                assert(old_self.has_key_at(kk, c));
                            }
                        }
                    }
                    assert forall|kk: Seq<u8>| #[trigger] self.spec_map().contains_key(kk) implies
                        self.spec_map()[kk] == old_self.spec_map().insert(ks, value)[kk]
                    by {
                        let c = choose|c: int| self.has_key_at(kk, c);
                        self.lemma_value_at(kk, c);
                        if kk != ks {
                            old_self.lemma_value_at(kk, c);
                        }
                    }
                    assert(self.spec_map() =~= old_self.spec_map().insert(key@, value));
                }
            },
        }
    }

    /// Drops what is stored under `key`, if anything.
    pub fn remove(&mut self, key: &Vec<u8>)
        ensures
            final(self)@ == old(self)@.remove(key@),
    {
        proof {
            use_type_invariant(&*self);
        }
        let ghost old_self = *self;
        match self.find(key) {
            Some(a) => {
                let mut entries: Vec<(Vec<u8>, u8)> = Vec::new();
                std::mem::swap(&mut entries, &mut self.entries);
                let ghost before = entries@;
                entries.remove(a);
                let ghost e = entries@;
                assert forall|x: int| 0 <= x < e.len() implies #[trigger] e[x] == before[if x < a { x } else { x + 1 }] by {}
                assert forall|x: int, y: int| 0 <= x < y < e.len() implies #[trigger] e[x].0@ != #[trigger] e[y].0@ by {
                    let xo = if x < a { x } else { x + 1 };
                    let yo = if y < a { y } else { y + 1 };
                    assert(e[x] == before[xo]);
                    assert(e[y] == before[yo]);
                    assert(old_self.entries@[xo].0@ != old_self.entries@[yo].0@);
                }
                self.entries = entries;
                proof {
                    assert forall|kk: Seq<u8>| true implies
                        (self.spec_map().contains_key(kk) == old_self.spec_map().remove(key@).contains_key(kk))
                    by {
                        if exists|c: int| old_self.has_key_at(kk, c) {
                            let c = choose|c: int| old_self.has_key_at(kk, c);
                            if kk != key@ {
                                assert(c != a);
                                let cn = if c < a { c } else { c - 1 };
                                assert(e[cn] == before[c]);
                                assert(self.has_key_at(kk, cn));
                            }
                        }
                        if exists|c: int| self.has_key_at(kk, c) {
                            let c = choose|c: int| self.has_key_at(kk, c);
                            let co = if c < a { c } else { c + 1 };
                            assert(e[c] == before[co]);
                            assert(old_self.has_key_at(kk, co));
                            if kk == key@ {
                                assert(old_self.has_key_at(kk, a as int));
                                if co < a {
                                    assert(old_self.entries@[co].0@ != old_self.entries@[a as int].0@);
                                } else {
                                    assert(old_self.entries@[a as int].0@ != old_self.entries@[co].0@);
                                }
                            }
                        }
                    }
                    assert forall|kk: Seq<u8>| #[trigger] self.spec_map().contains_key(kk) implies
                        self.spec_map()[kk] == old_self.spec_map().remove(key@)[kk]
                    by {
                        let c = choose|c: int| self.has_key_at(kk, c);
                        self.lemma_value_at(kk, c);
                        let co = if c < a { c } else { c + 1 };
                        assert(e[c] == before[co]);
                        old_self.lemma_value_at(kk, co);
                    }
                    assert(self.spec_map() =~= old_self.spec_map().remove(key@));
                }
            },
            None => {
                proof {
                    assert(self.spec_map() =~= old_self.spec_map().remove(key@));
                }
            },
        }
    }
}

impl View for SetBlocks {
    type V = Map<Seq<u8>, u8>;

    open spec fn view(&self) -> Map<Seq<u8>, u8> {
        self.spec_map()
    }
}

} // verus!
