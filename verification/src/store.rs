//! The record store: an in-memory sequence of `(id, key, value)` records,
//! kept strictly ascending by id. Ascending order makes `list` output
//! deterministic and makes "first match by key" mean "lowest id among
//! matches".
use vstd::prelude::*;

verus! {

/// One stored record.
pub struct Record {
    pub id: u64,
    pub key: String,
    pub value: String,
}

/// The mathematical image of a record.
pub struct RecView {
    pub id: u64,
    pub key: Seq<char>,
    pub value: Seq<char>,
}

impl View for Record {
    type V = RecView;

    open spec fn view(&self) -> RecView {
        RecView { id: self.id, key: self.key@, value: self.value@ }
    }
}

/// All records, ordered strictly ascending by id.
pub struct Store {
    pub recs: Vec<Record>,
}

impl View for Store {
    type V = Seq<RecView>;

    open spec fn view(&self) -> Seq<RecView> {
        self.recs@.map_values(|r: Record| r@)
    }
}

/// Ids strictly ascend, so every id occurs at most once.
pub open spec fn sorted_by_id(s: Seq<RecView>) -> bool {
    forall|i: int, j: int| 0 <= i < j < s.len() ==> s[i].id < s[j].id
}

/// The first record of `s` whose id is `id`.
pub open spec fn first_with_id(s: Seq<RecView>, id: u64) -> Option<RecView>
    decreases s.len(),
{
    if s.len() == 0 {
        None
    } else if s[0].id == id {
        Some(s[0])
    } else {
        first_with_id(s.drop_first(), id)
    }
}

/// The first record of `s` whose key is `key`; with `sorted_by_id` this is
/// the match with the lowest id.
pub open spec fn first_with_key(s: Seq<RecView>, key: Seq<char>) -> Option<RecView>
    decreases s.len(),
{
    if s.len() == 0 {
        None
    } else if s[0].key == key {
        Some(s[0])
    } else {
        first_with_key(s.drop_first(), key)
    }
}

/// `s` with every record of id `id` taken out.
pub open spec fn without_id(s: Seq<RecView>, id: u64) -> Seq<RecView>
    decreases s.len(),
{
    if s.len() == 0 {
        Seq::empty()
    } else if s[0].id == id {
        without_id(s.drop_first(), id)
    } else {
        seq![s[0]] + without_id(s.drop_first(), id)
    }
}

/// The id the next insertion will be given: one more than the maximum
/// existing id, or 1 for an empty store. (As an `int`, so the statement
/// itself cannot overflow.)
pub open spec fn next_id_of(s: Seq<RecView>) -> int {
    if s.len() == 0 {
        1
    } else {
        s.last().id + 1
    }
}

pub proof fn lemma_without_id_contains(s: Seq<RecView>, id: u64, x: RecView)
    requires
        without_id(s, id).contains(x),
    ensures
        s.contains(x),
    decreases s.len(),
{
    if s.len() > 0 {
        if s[0].id == id {
            lemma_without_id_contains(s.drop_first(), id, x);
            let j = choose|j: int| 0 <= j < s.drop_first().len() && s.drop_first()[j] == x;
            assert(s[j + 1] == x);
        } else {
            let w = seq![s[0]] + without_id(s.drop_first(), id);
            let k = choose|k: int| 0 <= k < w.len() && w[k] == x;
            if k == 0 {
                assert(s[0] == x);
            } else {
                assert(without_id(s.drop_first(), id)[k - 1] == x);
                lemma_without_id_contains(s.drop_first(), id, x);
                let j = choose|j: int| 0 <= j < s.drop_first().len() && s.drop_first()[j] == x;
                assert(s[j + 1] == x);
            }
        }
    }
}

pub proof fn lemma_without_id_sorted(s: Seq<RecView>, id: u64)
    requires
        sorted_by_id(s),
    ensures
        sorted_by_id(without_id(s, id)),
    decreases s.len(),
{
    if s.len() > 0 {
        let t = s.drop_first();
        assert forall|i: int, j: int| 0 <= i < j < t.len() implies t[i].id < t[j].id by {
            assert(s[i + 1].id < s[j + 1].id);
        }
        lemma_without_id_sorted(t, id);
        if s[0].id != id {
            let w = seq![s[0]] + without_id(t, id);
            assert forall|i: int, j: int| 0 <= i < j < w.len() implies w[i].id < w[j].id by {
                if i == 0 {
                    let x = w[j];
                    assert(without_id(t, id)[j - 1] == x);
                    assert(without_id(t, id).contains(x));
                    lemma_without_id_contains(t, id, x);
                    let k = choose|k: int| 0 <= k < t.len() && t[k] == x;
                    assert(s[0].id < s[k + 1].id);
                } else {
                    assert(without_id(t, id)[i - 1].id < without_id(t, id)[j - 1].id);
                }
            }
        }
    }
}

/// Taking an id out removes every record with that id.
pub proof fn lemma_without_id_gone(s: Seq<RecView>, id: u64)
    ensures
        first_with_id(without_id(s, id), id) is None,
    decreases s.len(),
{
    if s.len() > 0 {
        lemma_without_id_gone(s.drop_first(), id);
        if s[0].id != id {
            let w = seq![s[0]] + without_id(s.drop_first(), id);
            assert(w.drop_first() =~= without_id(s.drop_first(), id));
        }
    }
}

/// Scanning from position `i` finds the same first match, as long as
/// nothing before `i` matches.
proof fn lemma_first_id_skip(s: Seq<RecView>, id: u64, i: int)
    requires
        0 <= i <= s.len(),
        forall|j: int| 0 <= j < i ==> (#[trigger] s[j]).id != id,
    ensures
        first_with_id(s, id) == first_with_id(s.skip(i), id),
    decreases i,
{
    if i > 0 {
        assert(first_with_id(s, id) == first_with_id(s.drop_first(), id));
        lemma_first_id_skip(s.drop_first(), id, i - 1);
        assert(s.drop_first().skip(i - 1) =~= s.skip(i));
    } else {
        assert(s.skip(0) =~= s);
    }
}

proof fn lemma_first_key_skip(s: Seq<RecView>, key: Seq<char>, i: int)
    requires
        0 <= i <= s.len(),
        forall|j: int| 0 <= j < i ==> (#[trigger] s[j]).key != key,
    ensures
        first_with_key(s, key) == first_with_key(s.skip(i), key),
    decreases i,
{
    if i > 0 {
        assert(first_with_key(s, key) == first_with_key(s.drop_first(), key));
        lemma_first_key_skip(s.drop_first(), key, i - 1);
        assert(s.drop_first().skip(i - 1) =~= s.skip(i));
    } else {
        assert(s.skip(0) =~= s);
    }
}

/// Removing the sole index holding `id` is the same as taking `id` out.
proof fn lemma_remove_is_without_id(s: Seq<RecView>, id: u64, i: int)
    requires
        sorted_by_id(s),
        0 <= i < s.len(),
        s[i].id == id,
        forall|j: int| 0 <= j < i ==> (#[trigger] s[j]).id != id,
    ensures
        without_id(s, id) == s.remove(i),
    decreases i,
{
    let t = s.drop_first();
    assert forall|p: int, q: int| 0 <= p < q < t.len() implies t[p].id < t[q].id by {
        assert(s[p + 1].id < s[q + 1].id);
    }
    if i == 0 {
        assert(forall|j: int| 0 <= j < t.len() ==> (#[trigger] t[j]).id > id);
        lemma_without_id_all_kept(t, id);
        assert(without_id(s, id) =~= s.remove(0));
    } else {
        assert(t[i - 1].id == id);
        lemma_remove_is_without_id(t, id, i - 1);
        assert(without_id(s, id) =~= seq![s[0]] + t.remove(i - 1));
        assert(seq![s[0]] + t.remove(i - 1) =~= s.remove(i));
    }
}

/// When no record has the id, taking it out changes nothing.
pub proof fn lemma_without_id_all_kept(s: Seq<RecView>, id: u64)
    requires
        forall|j: int| 0 <= j < s.len() ==> (#[trigger] s[j]).id != id,
    ensures
        without_id(s, id) == s,
    decreases s.len(),
{
    if s.len() > 0 {
        lemma_without_id_all_kept(s.drop_first(), id);
        assert(without_id(s, id) =~= s);
    }
}

impl Store {
    /// Every id occurs once and the order is ascending.
    pub open spec fn wf(&self) -> bool {
        sorted_by_id(self@)
    }

    /// The next insertion's id must still fit in a `u64`.
    pub open spec fn can_insert(&self) -> bool {
        self@.len() == 0 || self@.last().id < u64::MAX
    }

    pub exec fn new() -> (s: Store)
        ensures
            s@ =~= Seq::<RecView>::empty(),
            s.wf(),
    {
        Store { recs: Vec::new() }
    }

    /// Direct lookup by id.
    pub exec fn get_by_id(&self, id: u64) -> (r: Option<&Record>)
        ensures
            match r {
                Some(rec) => first_with_id(self@, id) == Some(rec@),
                None => first_with_id(self@, id) is None,
            },
    {
        let n = self.recs.len();
        let mut i: usize = 0;
        while i < n
            invariant
                n == self.recs.len(),
                0 <= i <= n,
                forall|j: int| 0 <= j < i ==> (#[trigger] self@[j]).id != id,
            decreases n - i,
        {
            if self.recs[i].id == id {
                proof {
                    lemma_first_id_skip(self@, id, i as int);
                    assert(self@.skip(i as int)[0] == self@[i as int]);
                }
                return Some(&self.recs[i]);
            }
            i += 1;
        }
        proof {
            lemma_first_id_skip(self@, id, n as int);
            assert(self@.skip(n as int) =~= Seq::<RecView>::empty());
        }
        None
    }

    /// First record whose key equals `key`; scanning in store order, so
    /// with a well-formed store this is the match with the lowest id.
    pub exec fn get_by_key(&self, key: &String) -> (r: Option<&Record>)
        ensures
            match r {
                Some(rec) => first_with_key(self@, key@) == Some(rec@),
                None => first_with_key(self@, key@) is None,
            },
    {
        let n = self.recs.len();
        let mut i: usize = 0;
        while i < n
            invariant
                n == self.recs.len(),
                0 <= i <= n,
                forall|j: int| 0 <= j < i ==> (#[trigger] self@[j]).key != key@,
            decreases n - i,
        {
            if self.recs[i].key == *key {
                proof {
                    lemma_first_key_skip(self@, key@, i as int);
                    assert(self@.skip(i as int)[0] == self@[i as int]);
                }
                return Some(&self.recs[i]);
            }
            i += 1;
        }
        proof {
            lemma_first_key_skip(self@, key@, n as int);
            assert(self@.skip(n as int) =~= Seq::<RecView>::empty());
        }
        None
    }

    /// Inserts a fresh record under the next id (one past the maximum
    /// existing id, or 1 when the store is empty) and returns that id.
    pub exec fn insert(&mut self, key: String, value: String) -> (id: u64)
        requires
            old(self).wf(),
            old(self).can_insert(),
        ensures
            id == next_id_of(old(self)@),
            final(self)@ =~= old(self)@.push(RecView { id, key: key@, value: value@ }),
            final(self).wf(),
            first_with_id(final(self)@, id) == Some(
                RecView { id, key: key@, value: value@ },
            ),
    {
        let n = self.recs.len();
        let id: u64 = if n == 0 {
            1
        } else {
            self.recs[n - 1].id + 1
        };
        let ghost oldv = self@;
        self.recs.push(Record { id, key, value });
        proof {
            assert(self@ =~= oldv.push(RecView { id, key: key@, value: value@ }));
            assert forall|i: int, j: int| 0 <= i < j < self@.len() implies self@[i].id
                < self@[j].id by {
                if j == self@.len() - 1 && oldv.len() > 0 && i < oldv.len() - 1 {
                    assert(oldv[i].id < oldv[oldv.len() - 1].id);
                }
            }
            assert forall|j: int| 0 <= j < oldv.len() implies (#[trigger] oldv[j]).id != id by {
                if j < oldv.len() - 1 {
                    assert(oldv[j].id < oldv[oldv.len() - 1].id);
                }
            }
            lemma_first_id_fresh(oldv, id);
        }
        id
    }

    /// Removes the record with the given id, if present. Returns whether
    /// one was removed.
    pub exec fn remove_by_id(&mut self, id: u64) -> (removed: bool)
        requires
            old(self).wf(),
        ensures
            removed == (first_with_id(old(self)@, id) is Some),
            final(self)@ =~= without_id(old(self)@, id),
            final(self).wf(),
    {
        let n = self.recs.len();
        let mut i: usize = 0;
        while i < n
            invariant
                n == self.recs.len(),
                0 <= i <= n,
                forall|j: int| 0 <= j < i ==> (#[trigger] self@[j]).id != id,
                self.wf(),
                *self == *old(self),
            decreases n - i,
        {
            if self.recs[i].id == id {
                let ghost oldv = self@;
                proof {
                    lemma_first_id_skip(oldv, id, i as int);
                    assert(oldv.skip(i as int)[0] == oldv[i as int]);
                    lemma_remove_is_without_id(oldv, id, i as int);
                    lemma_without_id_sorted(oldv, id);
                }
                self.recs.remove(i);
                proof {
                    assert(self@ =~= oldv.remove(i as int));
                }
                return true;
            }
            i += 1;
        }
        proof {
            lemma_first_id_skip(self@, id, n as int);
            assert(self@.skip(n as int) =~= Seq::<RecView>::empty());
            lemma_without_id_all_kept(self@, id);
            assert(self@ =~= without_id(self@, id));
        }
        false
    }

    /// Removes the first record whose key equals `key` (the lowest id
    /// among matches). Returns whether one was removed.
    pub exec fn remove_by_key(&mut self, key: &String) -> (removed: bool)
        requires
            old(self).wf(),
        ensures
            match first_with_key(old(self)@, key@) {
                Some(rec) => removed && final(self)@ =~= without_id(old(self)@, rec.id),
                None => !removed && final(self)@ =~= old(self)@,
            },
            final(self).wf(),
    {
        let target: Option<u64> = match self.get_by_key(key) {
            Some(rec) => Some(rec.id),
            None => None,
        };
        match target {
            Some(id) => {
                proof {
                    let r = first_with_key(self@, key@)->Some_0;
                    lemma_first_key_in(self@, key@, r);
                    let j = choose|j: int| 0 <= j < self@.len() && self@[j] == r;
                    assert(self@[j].id == id);
                    lemma_id_present(self@, id);
                }
                self.remove_by_id(id)
            },
            None => false,
        }
    }

    /// All records, ascending by id.
    pub exec fn records(&self) -> (r: &Vec<Record>)
        ensures
            r@.map_values(|rec: Record| rec@) == self@,
    {
        &self.recs
    }

    /// Whether the next insertion's id still fits in a `u64`.
    pub exec fn has_room(&self) -> (b: bool)
        ensures
            b == self.can_insert(),
    {
        let n = self.recs.len();
        n == 0 || self.recs[n - 1].id < u64::MAX
    }

    pub exec fn len(&self) -> (n: usize)
        ensures
            n == self@.len(),
    {
        self.recs.len()
    }
}

/// A first-by-id match carries the id it was found under.
pub proof fn lemma_first_id_is(s: Seq<RecView>, id: u64)
    ensures
        first_with_id(s, id) matches Some(r) ==> r.id == id,
    decreases s.len(),
{
    if s.len() > 0 && s[0].id != id {
        lemma_first_id_is(s.drop_first(), id);
    }
}

/// When a first-by-id lookup finds nothing, no record has the id.
pub proof fn lemma_first_id_none(s: Seq<RecView>, id: u64)
    requires
        first_with_id(s, id) is None,
    ensures
        forall|j: int| 0 <= j < s.len() ==> (#[trigger] s[j]).id != id,
    decreases s.len(),
{
    if s.len() > 0 {
        lemma_first_id_none(s.drop_first(), id);
        assert forall|j: int| 0 <= j < s.len() implies (#[trigger] s[j]).id != id by {
            if j > 0 {
                assert(s.drop_first()[j - 1].id != id);
            }
        }
    }
}

/// A first-by-key match is one of the records.
proof fn lemma_first_key_in(s: Seq<RecView>, key: Seq<char>, r: RecView)
    requires
        first_with_key(s, key) == Some(r),
    ensures
        s.contains(r),
    decreases s.len(),
{
    if s.len() > 0 && s[0].key != key {
        lemma_first_key_in(s.drop_first(), key, r);
        let j = choose|j: int| 0 <= j < s.drop_first().len() && s.drop_first()[j] == r;
        assert(s[j + 1] == r);
    }
}

/// If some record carries the id, a first-by-id lookup finds one.
proof fn lemma_id_present(s: Seq<RecView>, id: u64)
    requires
        exists|i: int| 0 <= i < s.len() && (#[trigger] s[i]).id == id,
    ensures
        first_with_id(s, id) is Some,
    decreases s.len(),
{
    if s.len() > 0 && s[0].id != id {
        let i = choose|i: int| 0 <= i < s.len() && (#[trigger] s[i]).id == id;
        assert(s.drop_first()[i - 1].id == id);
        lemma_id_present(s.drop_first(), id);
    }
}

/// What `insert` does to the store's contents.
pub open spec fn insert_spec(s: Seq<RecView>, key: Seq<char>, value: Seq<char>) -> Seq<RecView> {
    s.push(RecView { id: next_id_of(s) as u64, key, value })
}

/// The store after inserting the given pairs in order, starting empty.
pub open spec fn insert_all(pairs: Seq<(Seq<char>, Seq<char>)>) -> Seq<RecView>
    decreases pairs.len(),
{
    if pairs.len() == 0 {
        Seq::empty()
    } else {
        insert_spec(insert_all(pairs.drop_last()), pairs.last().0, pairs.last().1)
    }
}

/// Inserting any pairs in order into an empty store assigns the ids
/// 1 up to the number of pairs, in insertion order.
pub proof fn lemma_ids_sequential(pairs: Seq<(Seq<char>, Seq<char>)>)
    requires
        pairs.len() <= u64::MAX,
    ensures
        insert_all(pairs).len() == pairs.len(),
        forall|i: int| 0 <= i < pairs.len() ==> (#[trigger] insert_all(pairs)[i]) == (RecView {
            id: (i + 1) as u64,
            key: pairs[i].0,
            value: pairs[i].1,
        }),
        sorted_by_id(insert_all(pairs)),
    decreases pairs.len(),
{
    if pairs.len() > 0 {
        let front = pairs.drop_last();
        lemma_ids_sequential(front);
        let prev = insert_all(front);
        let whole = insert_all(pairs);
        assert(whole == prev.push(
            RecView { id: next_id_of(prev) as u64, key: pairs.last().0, value: pairs.last().1 },
        ));
        assert forall|i: int| 0 <= i < pairs.len() implies (#[trigger] whole[i]) == (RecView {
            id: (i + 1) as u64,
            key: pairs[i].0,
            value: pairs[i].1,
        }) by {
            if i < pairs.len() - 1 {
                assert(whole[i] == prev[i]);
                assert(pairs[i] == front[i]);
            } else {
                if prev.len() > 0 {
                    assert(prev.last().id == prev.len() as u64);
                }
            }
        }
    }
}

/// A lookup of a just-assigned id finds the just-inserted record.
pub proof fn lemma_get_after_insert(s: Seq<RecView>, key: Seq<char>, value: Seq<char>)
    requires
        sorted_by_id(s),
        next_id_of(s) <= u64::MAX,
    ensures
        first_with_id(insert_spec(s, key, value), next_id_of(s) as u64) == Some(
            RecView { id: next_id_of(s) as u64, key, value },
        ),
{
    let id = next_id_of(s) as u64;
    assert forall|j: int| 0 <= j < s.len() implies (#[trigger] s[j]).id != id by {
        if j < s.len() - 1 {
            assert(s[j].id < s[s.len() - 1].id);
        }
    }
    lemma_first_id_fresh(s, id);
}

/// A listing follows the store's order, which well-formedness keeps
/// strictly ascending by id, however the records got there.
pub proof fn lemma_list_sorted(st: Store)
    requires
        st.wf(),
    ensures
        forall|i: int, j: int| 0 <= i < j < st@.len() ==> st@[i].id < st@[j].id,
{
}

/// A fresh id (past every id in `s`) is found at the end after a push.
proof fn lemma_first_id_fresh(s: Seq<RecView>, id: u64)
    requires
        forall|j: int| 0 <= j < s.len() ==> (#[trigger] s[j]).id != id,
    ensures
        forall|r: RecView|
            r.id == id ==> first_with_id(#[trigger] s.push(r), id) == Some(r),
    decreases s.len(),
{
    assert forall|r: RecView| r.id == id implies first_with_id(#[trigger] s.push(r), id)
        == Some(r) by {
        if s.len() == 0 {
            assert(s.push(r)[0] == r);
        } else {
            lemma_first_id_fresh(s.drop_first(), id);
            assert(s.push(r).drop_first() =~= s.drop_first().push(r));
        }
    }
}

} // verus!
