use vstd::prelude::*;

verus! {

/// The map that a list of (address, message) pairs stands for: each address
/// to the message paired with it, a later pair overriding an earlier one.
pub open spec fn pairs_map<M>(pairs: Seq<(String, M)>) -> Map<Seq<char>, M>
    decreases pairs.len(),
{
    if pairs.len() == 0 {
        Map::empty()
    } else {
        pairs_map(pairs.drop_last()).insert(pairs.last().0@, pairs.last().1)
    }
}

pub open spec fn keys_unique<M>(pairs: Seq<(String, M)>) -> bool {
    forall|i: int, j: int|
        0 <= i < j < pairs.len() ==> (#[trigger] pairs[i]).0@ != (#[trigger] pairs[j]).0@
}

proof fn lemma_pairs_map_absent<M>(pairs: Seq<(String, M)>, k: Seq<char>)
    requires
        forall|i: int| 0 <= i < pairs.len() ==> (#[trigger] pairs[i]).0@ != k,
    ensures
        !pairs_map(pairs).contains_key(k),
    decreases pairs.len(),
{
    if pairs.len() > 0 {
        let rest = pairs.drop_last();
        assert forall|i: int| 0 <= i < rest.len() implies (#[trigger] rest[i]).0@ != k by {
            assert(rest[i] == pairs[i]);
        }
        lemma_pairs_map_absent(rest, k);
    }
}

proof fn lemma_pairs_map_at<M>(pairs: Seq<(String, M)>, i: int)
    requires
        keys_unique(pairs),
        0 <= i < pairs.len(),
    ensures
        pairs_map(pairs).contains_key(pairs[i].0@),
        pairs_map(pairs)[pairs[i].0@] == pairs[i].1,
    decreases pairs.len(),
{
    if i < pairs.len() - 1 {
        let rest = pairs.drop_last();
        assert forall|a: int, b: int| 0 <= a < b < rest.len() implies (#[trigger] rest[a]).0@
            != (#[trigger] rest[b]).0@ by {
            assert(rest[a] == pairs[a] && rest[b] == pairs[b]);
        }
        assert(rest[i] == pairs[i]);
        lemma_pairs_map_at(rest, i);
        assert(pairs[i].0@ != pairs[pairs.len() - 1].0@);
    }
}

proof fn lemma_pairs_map_update<M>(pairs: Seq<(String, M)>, i: int, key: String, m: M)
    requires
        keys_unique(pairs),
        0 <= i < pairs.len(),
        pairs[i].0@ == key@,
    ensures
        keys_unique(pairs.update(i, (key, m))),
        pairs_map(pairs.update(i, (key, m))) == pairs_map(pairs).insert(key@, m),
    decreases pairs.len(),
{
    let new_pairs = pairs.update(i, (key, m));
    assert forall|a: int, b: int| 0 <= a < b < new_pairs.len() implies (
    #[trigger] new_pairs[a]).0@ != (#[trigger] new_pairs[b]).0@ by {
        assert(pairs[a].0@ != pairs[b].0@);
    }
    let rest = pairs.drop_last();
    if i == pairs.len() - 1 {
        assert(new_pairs.drop_last() =~= rest);
        assert(pairs_map(new_pairs) =~= pairs_map(pairs).insert(key@, m));
    } else {
        assert forall|a: int, b: int| 0 <= a < b < rest.len() implies (#[trigger] rest[a]).0@
            != (#[trigger] rest[b]).0@ by {
            assert(rest[a] == pairs[a] && rest[b] == pairs[b]);
        }
        lemma_pairs_map_update(rest, i, key, m);
        assert(new_pairs.drop_last() =~= rest.update(i, (key, m)));
        assert(pairs[i].0@ != pairs.last().0@);
        assert(pairs_map(new_pairs) =~= pairs_map(pairs).insert(key@, m));
    }
}

/// The last message sent to each address, so that a message equal to the
/// last one is not sent again.  Held as address and message pairs with
/// distinct addresses: vstd models `HashMap` lookups (`obeys_key_model`) for
/// integer and boolean keys only, not for `String` addresses.
pub struct LastSent<M> {
    entries: Vec<(String, M)>,
}

impl<M> View for LastSent<M> {
    type V = Map<Seq<char>, M>;

    closed spec fn view(&self) -> Map<Seq<char>, M> {
        pairs_map(self.entries@)
    }
}

impl<M> LastSent<M> {
    /// One entry per address.
    #[verifier::type_invariant]
    spec fn wf(self) -> bool {
        keys_unique(self.entries@)
    }

    /// An empty store.
    pub fn new() -> (res: Self)
        ensures
            res@ == Map::<Seq<char>, M>::empty(),
    {
        LastSent { entries: Vec::new() }
    }

    fn position(entries: &Vec<(String, M)>, addr: &String) -> (res: Option<usize>)
        ensures
            res matches Some(i) ==> i < entries@.len() && entries@[i as int].0@ == addr@,
            res is None ==> forall|i: int|
                0 <= i < entries@.len() ==> (#[trigger] entries@[i]).0@ != addr@,
    {
        let mut i: usize = 0;
        while i < entries.len()
            invariant
                i <= entries@.len(),
                forall|j: int| 0 <= j < i ==> (#[trigger] entries@[j]).0@ != addr@,
            decreases entries.len() - i,
        {
            if entries[i].0 == *addr {
                return Some(i);
            }
            i = i + 1;
        }
        None
    }

    /// The last message recorded for the address, if any.
    pub fn previous(&self, addr: &String) -> (res: Option<&M>)
        ensures
            res is Some <==> self@.contains_key(addr@),
            res matches Some(m) ==> *m == self@[addr@],
    {
        proof {
            use_type_invariant(self);
        }
        match Self::position(&self.entries, addr) {
            Some(i) => {
                proof {
                    lemma_pairs_map_at(self.entries@, i as int);
                }
                Some(&self.entries[i].1)
            },
            None => {
                proof {
                    lemma_pairs_map_absent(self.entries@, addr@);
                }
                None
            },
        }
    }

    /// Records `msg` as the last message sent to `addr`.
    pub fn record(&mut self, addr: String, msg: M)
        ensures
            final(self)@ == old(self)@.insert(addr@, msg),
    {
        proof {
            use_type_invariant(&*self);
        }
        let mut entries: Vec<(String, M)> = Vec::new();
        std::mem::swap(&mut entries, &mut self.entries);
        let ghost before = entries@;
        assert(before == old(self).entries@);
        match Self::position(&entries, &addr) {
            Some(i) => {
                proof {
                    lemma_pairs_map_update(entries@, i as int, addr, msg);
                }
                entries.set(i, (addr, msg));
            },
            None => {
                entries.push((addr, msg));
                proof {
                    assert(entries@.drop_last() =~= before);
                    assert forall|a: int, b: int|
                        0 <= a < b < entries@.len() implies (#[trigger] entries@[a]).0@
                        != (#[trigger] entries@[b]).0@ by {
                        if b == entries@.len() - 1 {
                            assert(before[a] == entries@[a]);
                        } else {
                            assert(before[a] == entries@[a] && before[b] == entries@[b]);
                        }
                    }
                }
            },
        }
        self.entries = entries;
    }
}

/// After a message is recorded for an address, that address answers with it,
/// and every other address answers as it did before.
pub proof fn lemma_record_then_previous<M>(
    before: Map<Seq<char>, M>,
    after: Map<Seq<char>, M>,
    addr: Seq<char>,
    msg: M,
)
    requires
        after == before.insert(addr, msg),
    ensures
        after.contains_key(addr),
        after[addr] == msg,
        forall|other: Seq<char>|
            other != addr ==> (#[trigger] after.contains_key(other) == before.contains_key(other)
                && (before.contains_key(other) ==> after[other] == before[other])),
{
}

}
