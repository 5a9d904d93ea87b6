//! The in-memory index: a map from each live key to the position of the
//! `Set` command that bound it. Entries also carry the bound value as a
//! ghost sequence, so that contracts can speak about the store's contents
//! without re-reading the log.

use vstd::map::*;
use vstd::prelude::*;

verus! {

/// Where one command lies in the log: its generation file, its offset in
/// that file, and its encoded length.
#[derive(Debug, Clone, Copy)]
pub struct CmdPos {
    /// The generation file that holds the command.
    pub fid: u64,
    /// The offset of the command's first character in that file.
    pub pos: u64,
    /// The encoded length of the command.
    pub len: u64,
}

/// The mathematical value of one index entry: the position of the live
/// `Set` command for a key, and the value that command carries.
pub struct EntryModel {
    /// The position of the live command.
    pub pos: CmdPos,
    /// The value bound to the key.
    pub value: Seq<char>,
}

struct IndexEntry {
    key: String,
    pos: CmdPos,
    value: Ghost<Seq<char>>,
}

/// A map from live keys to the positions of their `Set` commands.
pub struct Index {
    entries: Vec<IndexEntry>,
}

spec fn model_of(e: IndexEntry) -> EntryModel {
    EntryModel { pos: e.pos, value: e.value@ }
}

spec fn map_of(s: Seq<IndexEntry>) -> Map<Seq<char>, EntryModel>
    decreases s.len(),
{
    if s.len() == 0 {
        Map::empty()
    } else {
        map_of(s.drop_last()).insert(s.last().key@, model_of(s.last()))
    }
}

spec fn unique_keys(s: Seq<IndexEntry>) -> bool {
    forall|i: int, j: int| 0 <= i < j < s.len() ==> s[i].key@ != s[j].key@
}

spec fn total_of(s: Seq<IndexEntry>) -> int
    decreases s.len(),
{
    if s.len() == 0 {
        0
    } else {
        total_of(s.drop_last()) + s.last().pos.len
    }
}

proof fn lemma_total_of_nonneg(s: Seq<IndexEntry>)
    ensures
        total_of(s) >= 0,
    decreases s.len(),
{
    if s.len() > 0 {
        lemma_total_of_nonneg(s.drop_last());
    }
}

proof fn lemma_total_of_update(s: Seq<IndexEntry>, i: int, e: IndexEntry)
    requires
        0 <= i < s.len(),
    ensures
        total_of(s.update(i, e)) == total_of(s) - s[i].pos.len + e.pos.len,
    decreases s.len(),
{
    if i == s.len() - 1 {
        assert(s.update(i, e).drop_last() =~= s.drop_last());
    } else {
        assert(s.update(i, e).drop_last() =~= s.drop_last().update(i, e));
        lemma_total_of_update(s.drop_last(), i, e);
        assert(s.drop_last()[i] == s[i]);
    }
}

proof fn lemma_total_of_remove(s: Seq<IndexEntry>, i: int)
    requires
        0 <= i < s.len(),
    ensures
        total_of(s.remove(i)) == total_of(s) - s[i].pos.len,
    decreases s.len(),
{
    if i == s.len() - 1 {
        assert(s.remove(i) =~= s.drop_last());
    } else {
        assert(s.remove(i).drop_last() =~= s.drop_last().remove(i));
        assert(s.remove(i).last() == s.last());
        lemma_total_of_remove(s.drop_last(), i);
        assert(s.drop_last()[i] == s[i]);
    }
}

proof fn lemma_map_of_contains(s: Seq<IndexEntry>, k: Seq<char>)
    ensures
        map_of(s).contains_key(k) <==> exists|i: int| 0 <= i < s.len() && s[i].key@ == k,
    decreases s.len(),
{
    if s.len() > 0 {
        lemma_map_of_contains(s.drop_last(), k);
        if map_of(s).contains_key(k) {
            if s.last().key@ == k {
                assert(s[s.len() - 1].key@ == k);
            } else {
                let i = choose|i: int| 0 <= i < s.drop_last().len() && s.drop_last()[i].key@ == k;
                assert(s[i].key@ == k);
            }
        }
        if exists|i: int| 0 <= i < s.len() && s[i].key@ == k {
            let i = choose|i: int| 0 <= i < s.len() && s[i].key@ == k;
            if i < s.len() - 1 {
                assert(s.drop_last()[i].key@ == k);
            }
        }
    }
}

proof fn lemma_map_of_value(s: Seq<IndexEntry>, i: int)
    requires
        unique_keys(s),
        0 <= i < s.len(),
    ensures
        map_of(s).contains_key(s[i].key@),
        map_of(s)[s[i].key@] == model_of(s[i]),
    decreases s.len(),
{
    if i == s.len() - 1 {
    } else {
        lemma_map_of_value(s.drop_last(), i);
        assert(s.drop_last()[i] == s[i]);
        assert(s.last().key@ != s[i].key@);
    }
}

impl View for Index {
    type V = Map<Seq<char>, EntryModel>;

    closed spec fn view(&self) -> Map<Seq<char>, EntryModel> {
        map_of(self.entries@)
    }
}

impl Index {
    /// All entries bind distinct keys.
    pub closed spec fn wf(self) -> bool {
        unique_keys(self.entries@)
    }

    /// The number of entries.
    pub closed spec fn num(self) -> int {
        self.entries@.len() as int
    }

    /// The key of the entry at position `i`.
    pub closed spec fn key_at(self, i: int) -> Seq<char> {
        self.entries@[i].key@
    }

    /// The command position of the entry at position `i`.
    pub closed spec fn pos_at(self, i: int) -> CmdPos {
        self.entries@[i].pos
    }

    /// The value of the entry at position `i`.
    pub closed spec fn val_at(self, i: int) -> Seq<char> {
        self.entries@[i].value@
    }

    /// The sum of the encoded lengths of all live commands.
    pub closed spec fn total_len(self) -> int {
        total_of(self.entries@)
    }

    /// The sum of the encoded lengths of the first `t` entries.
    pub open spec fn len_sum(self, t: int) -> int
        decreases t,
    {
        if t <= 0 {
            0
        } else {
            self.len_sum(t - 1) + self.pos_at(t - 1).len
        }
    }

    /// The total live length is never negative.
    pub proof fn lemma_total_nonneg(self)
        ensures
            self.total_len() >= 0,
    {
        lemma_total_of_nonneg(self.entries@);
    }

    /// Prefix sums agree between two indexes whose entry lengths agree.
    pub proof fn lemma_len_sum_congruent(self, other: Index, t: int)
        requires
            forall|j: int| 0 <= j < t ==> (#[trigger] self.pos_at(j)).len == other.pos_at(j).len,
        ensures
            self.len_sum(t) == other.len_sum(t),
        decreases t,
    {
        if t > 0 {
            self.lemma_len_sum_congruent(other, t - 1);
        }
    }

    /// The prefix sums add up to the total.
    pub proof fn lemma_len_sum_total(self)
        ensures
            self.len_sum(self.num()) == self.total_len(),
    {
        self.lemma_len_sum_take(self.num());
        assert(self.entries@.take(self.num()) =~= self.entries@);
    }

    proof fn lemma_len_sum_take(self, t: int)
        requires
            0 <= t <= self.num(),
        ensures
            self.len_sum(t) == total_of(self.entries@.take(t)),
        decreases t,
    {
        if t > 0 {
            self.lemma_len_sum_take(t - 1);
            assert(self.entries@.take(t).drop_last() =~= self.entries@.take(t - 1));
            assert(self.entries@.take(t).last() == self.entries@[t - 1]);
        }
    }

    /// The entries enumerate exactly the keys of the map, each once, with
    /// the map's position and value.
    pub proof fn lemma_enumerate(self)
        requires
            self.wf(),
        ensures
            forall|i: int, j: int| 0 <= i < j < self.num() ==> self.key_at(i) != self.key_at(j),
            forall|i: int|
                0 <= i < self.num() ==> self@.contains_key(#[trigger] self.key_at(i))
                    && self@[self.key_at(i)] == (EntryModel {
                    pos: self.pos_at(i),
                    value: self.val_at(i),
                }),
            forall|k: Seq<char>|
                self@.contains_key(k) ==> exists|i: int| 0 <= i < self.num() && self.key_at(i) == k,
    {
        assert forall|i: int|
            0 <= i < self.num() implies self@.contains_key(#[trigger] self.key_at(i))
            && self@[self.key_at(i)] == (EntryModel {
            pos: self.pos_at(i),
            value: self.val_at(i),
        }) by {
            lemma_map_of_value(self.entries@, i);
        }
        assert forall|k: Seq<char>| self@.contains_key(k) implies exists|i: int|
            0 <= i < self.num() && self.key_at(i) == k by {
            lemma_map_of_contains(self.entries@, k);
            let i = choose|i: int| 0 <= i < self.entries@.len() && self.entries@[i].key@ == k;
            assert(0 <= i < self.num() && self.key_at(i) == k);
        }
    }

    /// An empty index.
    pub fn new() -> (s: Self)
        ensures
            s.wf(),
            s@ == Map::<Seq<char>, EntryModel>::empty(),
            s.num() == 0,
            s.total_len() == 0,
    {
        Index { entries: Vec::new() }
    }

    fn find(&self, key: &String) -> (r: Option<usize>)
        ensures
            match r {
                Option::Some(i) => i < self.entries@.len() && self.entries@[i as int].key@ == key@,
                Option::None => forall|i: int|
                    0 <= i < self.entries@.len() ==> self.entries@[i].key@ != key@,
            },
    {
        let n = self.entries.len();
        let mut i: usize = 0;
        while i < n
            invariant
                i <= n,
                n == self.entries@.len(),
                forall|j: int| 0 <= j < i ==> self.entries@[j].key@ != key@,
            decreases n - i,
        {
            if self.entries[i].key == *key {
                return Option::Some(i);
            }
            i += 1;
        }
        Option::None
    }

    /// Whether `key` is live, and at which position its command lies.
    pub fn get(&self, key: &String) -> (r: Option<CmdPos>)
        requires
            self.wf(),
        ensures
            match r {
                Option::Some(p) => self@.contains_key(key@) && self@[key@].pos == p,
                Option::None => !self@.contains_key(key@),
            },
    {
        let found = self.find(key);
        proof {
            lemma_map_of_contains(self.entries@, key@);
        }
        match found {
            Option::Some(i) => {
                proof {
                    lemma_map_of_value(self.entries@, i as int);
                }
                Option::Some(self.entries[i].pos)
            },
            Option::None => Option::None,
        }
    }

    /// Bind `key` to a command position and value, returning the position
    /// it was bound to before, if any.
    pub fn insert(&mut self, key: String, pos: CmdPos, value: Ghost<Seq<char>>) -> (prev: Option<
        CmdPos,
    >)
        requires
            old(self).wf(),
        ensures
            final(self).wf(),
            final(self)@ == old(self)@.insert(key@, (EntryModel { pos, value: value@ })),
            match prev {
                Option::Some(p) => old(self)@.contains_key(key@) && old(self)@[key@].pos == p
                    && final(self).total_len() == old(self).total_len() + pos.len - p.len,
                Option::None => !old(self)@.contains_key(key@) && final(self).total_len() == old(
                    self,
                ).total_len() + pos.len,
            },
    {
        let ghost s0 = self.entries@;
        let found = self.find(&key);
        proof {
            lemma_map_of_contains(s0, key@);
        }
        match found {
            Option::Some(i) => {
                let prev_pos = self.entries[i].pos;
                proof {
                    lemma_map_of_value(s0, i as int);
                }
                let ghost k = key@;
                self.entries[i] = IndexEntry { key, pos, value };
                proof {
                    let s1 = self.entries@;
                    assert(s1 =~= s0.update(i as int, s1[i as int]));
                    assert(unique_keys(s1));
                    lemma_map_of_value(s1, i as int);
                    let em = EntryModel { pos, value: value@ };
                    assert_maps_equal!(map_of(s1), map_of(s0).insert(k, em), q => {
                        lemma_map_of_contains(s0, q);
                        lemma_map_of_contains(s1, q);
                        if q != k {
                            if map_of(s1).contains_key(q) {
                                let j = choose|j: int| 0 <= j < s1.len() && s1[j].key@ == q;
                                lemma_map_of_value(s1, j);
                                lemma_map_of_value(s0, j);
                            }
                            if map_of(s0).contains_key(q) {
                                let j = choose|j: int| 0 <= j < s0.len() && s0[j].key@ == q;
                                lemma_map_of_value(s0, j);
                                lemma_map_of_value(s1, j);
                            }
                        }
                    });
                    assert(map_of(s1) == map_of(s0).insert(k, em));
                    lemma_total_of_update(s0, i as int, s1[i as int]);
                }
                Option::Some(prev_pos)
            },
            Option::None => {
                self.entries.push(IndexEntry { key, pos, value });
                proof {
                    let s1 = self.entries@;
                    assert(s1.drop_last() =~= s0);
                    assert(total_of(s1) == total_of(s0) + pos.len);
                    assert(unique_keys(s1)) by {
                        assert forall|i: int, j: int| 0 <= i < j < s1.len() implies s1[i].key@
                            != s1[j].key@ by {
                            if j == s1.len() - 1 {
                                assert(s0[i].key@ != s1[j].key@);
                            }
                        }
                    }
                }
                Option::None
            },
        }
    }

    /// Unbind `key`, returning the position it was bound to, if any.
    pub fn remove(&mut self, key: &String) -> (prev: Option<CmdPos>)
        requires
            old(self).wf(),
        ensures
            final(self).wf(),
            final(self)@ == old(self)@.remove(key@),
            match prev {
                Option::Some(p) => old(self)@.contains_key(key@) && old(self)@[key@].pos == p
                    && final(self).total_len() == old(self).total_len() - p.len,
                Option::None => !old(self)@.contains_key(key@) && final(self).total_len() == old(
                    self,
                ).total_len(),
            },
    {
        let ghost s0 = self.entries@;
        let found = self.find(key);
        proof {
            lemma_map_of_contains(s0, key@);
        }
        match found {
            Option::Some(i) => {
                proof {
                    lemma_map_of_value(s0, i as int);
                }
                let e = self.entries.remove(i);
                proof {
                    let s1 = self.entries@;
                    assert(s1 =~= s0.remove(i as int));
                    assert(unique_keys(s1)) by {
                        assert forall|a: int, b: int| 0 <= a < b < s1.len() implies s1[a].key@
                            != s1[b].key@ by {
                            if a < i as int {
                                if b < i as int {
                                    assert(s1[a] == s0[a] && s1[b] == s0[b]);
                                } else {
                                    assert(s1[a] == s0[a] && s1[b] == s0[b + 1]);
                                }
                            } else {
                                assert(s1[a] == s0[a + 1] && s1[b] == s0[b + 1]);
                            }
                        }
                    }
                    assert_maps_equal!(map_of(s1), map_of(s0).remove(key@), q => {
                        lemma_map_of_contains(s0, q);
                        lemma_map_of_contains(s1, q);
                        if map_of(s1).contains_key(q) {
                            let j = choose|j: int| 0 <= j < s1.len() && s1[j].key@ == q;
                            lemma_map_of_value(s1, j);
                            if j < i as int {
                                lemma_map_of_value(s0, j);
                            } else {
                                lemma_map_of_value(s0, j + 1);
                            }
                        }
                        if map_of(s0).contains_key(q) && q != key@ {
                            let j = choose|j: int| 0 <= j < s0.len() && s0[j].key@ == q;
                            lemma_map_of_value(s0, j);
                            if j < i as int {
                                lemma_map_of_value(s1, j);
                                assert(s1[j] == s0[j]);
                            } else {
                                assert(j != i as int);
                                lemma_map_of_value(s1, j - 1);
                                assert(s1[j - 1] == s0[j]);
                            }
                        }
                    });
                    assert(map_of(s1) == map_of(s0).remove(key@));
                    lemma_total_of_remove(s0, i as int);
                }
                Option::Some(e.pos)
            },
            Option::None => {
                proof {
                    assert(map_of(s0) =~= map_of(s0).remove(key@));
                }
                Option::None
            },
        }
    }

    /// The number of entries, executably.
    pub fn count(&self) -> (n: usize)
        ensures
            n == self.num(),
    {
        self.entries.len()
    }

    /// The key and position of the entry at position `i`.
    pub fn entry_at(&self, i: usize) -> (r: (String, CmdPos))
        requires
            self.wf(),
            i < self.num(),
        ensures
            r.0@ == self.key_at(i as int),
            r.1 == self.pos_at(i as int),
    {
        let e = &self.entries[i];
        (e.key.clone(), e.pos)
    }

    /// Repoint the entry at position `i`, keeping its key and value.
    pub fn set_pos_at(&mut self, i: usize, pos: CmdPos)
        requires
            old(self).wf(),
            i < old(self).num(),
        ensures
            final(self).wf(),
            final(self).num() == old(self).num(),
            forall|j: int| 0 <= j < old(self).num() ==> final(self).key_at(j) == old(self).key_at(j),
            forall|j: int| 0 <= j < old(self).num() ==> final(self).val_at(j) == old(self).val_at(j),
            forall|j: int|
                0 <= j < old(self).num() && j != i ==> final(self).pos_at(j) == old(self).pos_at(j),
            final(self).pos_at(i as int) == pos,
            final(self).total_len() == old(self).total_len() - old(self).pos_at(i as int).len
                + pos.len,
            final(self)@ == old(self)@.insert(old(self).key_at(i as int), (EntryModel {
                pos,
                value: old(self).val_at(i as int),
            })),
    {
        let ghost s0 = self.entries@;
        let key = self.entries[i].key.clone();
        let ghost value = self.entries@[i as int].value@;
        let e = IndexEntry { key, pos, value: Ghost(value) };
        self.entries[i] = e;
        proof {
            let s1 = self.entries@;
            let k = s0[i as int].key@;
            assert(s1 =~= s0.update(i as int, s1[i as int]));
            assert(unique_keys(s1));
            lemma_map_of_value(s0, i as int);
            lemma_map_of_value(s1, i as int);
            let em = EntryModel { pos, value };
            assert_maps_equal!(map_of(s1), map_of(s0).insert(k, em), q => {
                lemma_map_of_contains(s0, q);
                lemma_map_of_contains(s1, q);
                if q != k {
                    if map_of(s1).contains_key(q) {
                        let j = choose|j: int| 0 <= j < s1.len() && s1[j].key@ == q;
                        lemma_map_of_value(s1, j);
                        lemma_map_of_value(s0, j);
                    }
                    if map_of(s0).contains_key(q) {
                        let j = choose|j: int| 0 <= j < s0.len() && s0[j].key@ == q;
                        lemma_map_of_value(s0, j);
                        lemma_map_of_value(s1, j);
                    }
                }
            });
            assert(map_of(s1) == map_of(s0).insert(k, em));
            lemma_total_of_update(s0, i as int, s1[i as int]);
        }
    }
}

} // verus!
