//! The tokens of finished sequences, by sequence id.
use vstd::prelude::*;

verus! {

/// The tokens generated so far, in ascending order of the sequence ids.
pub struct Outputs {
    pub entries: Vec<(usize, Vec<u32>)>,
}

/// What the entries map each id to.
pub open spec fn as_map(entries: Seq<(usize, Vec<u32>)>) -> Map<usize, Seq<u32>>
    decreases entries.len(),
{
    if entries.len() == 0 {
        Map::empty()
    } else {
        as_map(entries.drop_last()).insert(entries.last().0, entries.last().1@)
    }
}

impl Outputs {
    /// The ids ascend.
    pub open spec fn wf(&self) -> bool {
        forall|i: int, j: int|
            0 <= i < j < self.entries@.len() ==> (#[trigger] self.entries@[i]).0 < (
            #[trigger] self.entries@[j]).0
    }

    pub open spec fn map(&self) -> Map<usize, Seq<u32>> {
        as_map(self.entries@)
    }

    pub fn new() -> (outputs: Self)
        ensures
            outputs.wf(),
            outputs.map() == Map::<usize, Seq<u32>>::empty(),
    {
        Outputs { entries: Vec::new() }
    }

    /// Notes the tokens of sequence `seq_id`, in place of those noted before.
    pub fn insert(&mut self, seq_id: usize, token_ids: Vec<u32>)
        requires
            old(self).wf(),
        ensures
            final(self).wf(),
            final(self).map() == old(self).map().insert(seq_id, token_ids@),
    {
        let ghost before = self.entries@;
        let mut i: usize = 0;
        while i < self.entries.len() && self.entries[i].0 < seq_id
            invariant
                i <= self.entries@.len(),
                self.entries@ == before,
                forall|j: int| 0 <= j < i ==> (#[trigger] before[j]).0 < seq_id,
            decreases self.entries@.len() - i,
        {
            i = i + 1;
        }
        proof {
            lemma_map_of(before);
        }
        if i < self.entries.len() && self.entries[i].0 == seq_id {
            self.entries[i] = (seq_id, token_ids);
            assert(self.entries@ == before.update(i as int, (seq_id, token_ids)));
            proof {
                lemma_map_of(self.entries@);
                assert forall|id: usize| self.map().contains_key(id) <==> before_insert(
                    before,
                    seq_id,
                    token_ids@,
                ).contains_key(id) by {
                    lemma_has(before, id);
                    lemma_has(self.entries@, id);
                    if id == seq_id {
                        assert(self.entries@[i as int].0 == id);
                    }
                    if has(before, id) {
                        let j = choose|j: int| 0 <= j < before.len() && (#[trigger] before[j]).0 == id;
                        assert(self.entries@[j].0 == id);
                    }
                    if has(self.entries@, id) {
                        let j = choose|j: int|
                            0 <= j < self.entries@.len() && (#[trigger] self.entries@[j]).0 == id;
                        assert(before[j].0 == id);
                    }
                }
                assert forall|id: usize| #[trigger]
                    self.map().contains_key(id) implies self.map()[id] == before_insert(
                    before,
                    seq_id,
                    token_ids@,
                )[id] by {
                    lemma_has(self.entries@, id);
                    let j = choose|j: int|
                        0 <= j < self.entries@.len() && (#[trigger] self.entries@[j]).0 == id;
                    assert(self.map()[id] == self.entries@[j].1@);
                    if j != i {
                        assert(before[j] == self.entries@[j]);
                    }
                }
                assert(self.map() =~= before_insert(before, seq_id, token_ids@));
            }
        } else {
            self.entries.insert(i, (seq_id, token_ids));
            let ghost now = self.entries@;
            assert(now == before.insert(i as int, (seq_id, token_ids)));
            proof {
                assert forall|a: int, b: int| 0 <= a < b < now.len() implies (#[trigger] now[a]).0 < (
                #[trigger] now[b]).0 by {
                    let x = if a < i {
                        a
                    } else {
                        a - 1
                    };
                    let y = if b < i {
                        b
                    } else {
                        b - 1
                    };
                    if a != i {
                        assert(now[a] == before[x]);
                    }
                    if b != i {
                        assert(now[b] == before[y]);
                    }
                    if a == i && b > i {
                        assert(before[i as int].0 <= before[y].0);
                    }
                }
                lemma_map_of(now);
                assert forall|id: usize| self.map().contains_key(id) <==> before_insert(
                    before,
                    seq_id,
                    token_ids@,
                ).contains_key(id) by {
                    lemma_has(before, id);
                    lemma_has(now, id);
                    if id == seq_id {
                        assert(now[i as int].0 == id);
                    }
                    if has(before, id) {
                        let j = choose|j: int| 0 <= j < before.len() && (#[trigger] before[j]).0 == id;
                        let k = if j < i {
                            j
                        } else {
                            j + 1
                        };
                        assert(now[k].0 == id);
                    }
                    if has(now, id) && id != seq_id {
                        let j = choose|j: int| 0 <= j < now.len() && (#[trigger] now[j]).0 == id;
                        let k = if j < i {
                            j
                        } else {
                            j - 1
                        };
                        assert(before[k].0 == id);
                    }
                }
                assert forall|id: usize| #[trigger]
                    self.map().contains_key(id) implies self.map()[id] == before_insert(
                    before,
                    seq_id,
                    token_ids@,
                )[id] by {
                    lemma_has(now, id);
                    let j = choose|j: int| 0 <= j < now.len() && (#[trigger] now[j]).0 == id;
                    assert(self.map()[id] == now[j].1@);
                    if j != i {
                        let k = if j < i {
                            j
                        } else {
                            j - 1
                        };
                        assert(before[k] == now[j]);
                        assert(before[k].0 != seq_id);
                    }
                }
                assert(self.map() =~= before_insert(before, seq_id, token_ids@));
            }
        }
    }
}

spec fn before_insert(
    before: Seq<(usize, Vec<u32>)>,
    id: usize,
    tokens: Seq<u32>,
) -> Map<usize, Seq<u32>> {
    as_map(before).insert(id, tokens)
}

/// Some entry has this id.
pub open spec fn has(entries: Seq<(usize, Vec<u32>)>, id: usize) -> bool {
    exists|i: int| 0 <= i < entries.len() && (#[trigger] entries[i]).0 == id
}

proof fn lemma_has(entries: Seq<(usize, Vec<u32>)>, id: usize)
    ensures
        as_map(entries).contains_key(id) <==> has(entries, id),
    decreases entries.len(),
{
    if entries.len() > 0 {
        let rest = entries.drop_last();
        lemma_has(rest, id);
        if has(rest, id) {
            let i = choose|i: int| 0 <= i < rest.len() && (#[trigger] rest[i]).0 == id;
            assert(entries[i].0 == id);
        }
        if has(entries, id) && entries.last().0 != id {
            let i = choose|i: int| 0 <= i < entries.len() && (#[trigger] entries[i]).0 == id;
            assert(rest[i].0 == id);
        }
        if entries.last().0 == id {
            assert(entries[entries.len() - 1].0 == id);
        }
    }
}

/// Where the ids ascend, each entry is what the map gives for its id.
pub proof fn lemma_map_of(entries: Seq<(usize, Vec<u32>)>)
    requires
        forall|i: int, j: int|
            0 <= i < j < entries.len() ==> (#[trigger] entries[i]).0 < (#[trigger] entries[j]).0,
    ensures
        forall|i: int|
            0 <= i < entries.len() ==> as_map(entries).contains_key((#[trigger] entries[i]).0)
                && as_map(entries)[entries[i].0] == entries[i].1@,
    decreases entries.len(),
{
    if entries.len() > 0 {
        let rest = entries.drop_last();
        assert forall|i: int, j: int| 0 <= i < j < rest.len() implies (#[trigger] rest[i]).0 < (
        #[trigger] rest[j]).0 by {
            assert(rest[i] == entries[i] && rest[j] == entries[j]);
        }
        lemma_map_of(rest);
        assert forall|i: int| 0 <= i < entries.len() implies as_map(entries).contains_key(
            (#[trigger] entries[i]).0,
        ) && as_map(entries)[entries[i].0] == entries[i].1@ by {
            if i < rest.len() {
                assert(rest[i] == entries[i]);
                assert(entries[i].0 < entries[entries.len() - 1].0);
            }
        }
    }
}

/// Outputs come in the order in which the requests were taken: those of `n` requests that
/// got the ids from `first` on stand one behind the other.
pub proof fn outputs_come_in_the_order_of_the_requests(outputs: Outputs, first: usize, n: nat)
    requires
        outputs.wf(),
        first + n <= usize::MAX,
        forall|id: usize| #[trigger]
            outputs.map().contains_key(id) <==> first <= id < first + n,
    ensures
        outputs.entries@.len() == n,
        forall|i: int| 0 <= i < n ==> (#[trigger] outputs.entries@[i]).0 == first + i,
{
    let entries = outputs.entries@;
    assert forall|i: int| 0 <= i < n implies i < entries.len() && (#[trigger] entries[i]).0
        == first + i by {
        lemma_place_of_id(outputs, first, n, i);
    }
    if entries.len() > n {
        let last = entries[n as int];
        lemma_map_of(entries);
        assert(outputs.map().contains_key(last.0));
        lemma_place_of_id(outputs, first, n, last.0 - first);
        assert(entries[last.0 - first].0 == last.0);
    }
    if n > 0 {
        lemma_place_of_id(outputs, first, n, n - 1);
    }
}

proof fn lemma_place_of_id(outputs: Outputs, first: usize, n: nat, i: int)
    requires
        outputs.wf(),
        first + n <= usize::MAX,
        forall|id: usize| #[trigger]
            outputs.map().contains_key(id) <==> first <= id < first + n,
        0 <= i < n,
    ensures
        i < outputs.entries@.len(),
        outputs.entries@[i].0 == first + i,
    decreases i,
{
    let entries = outputs.entries@;
    let id = (first + i) as usize;
    lemma_map_of(entries);
    lemma_has(entries, id);
    assert(outputs.map().contains_key(id));
    let k = choose|k: int| 0 <= k < entries.len() && (#[trigger] entries[k]).0 == id;
    if i > 0 {
        lemma_place_of_id(outputs, first, n, i - 1);
        assert(entries[i - 1].0 == id - 1);
        if k < i {
            assert(entries[k].0 <= entries[i - 1].0);
        }
        assert(entries[i - 1].0 < entries[i].0);
    } else {
        assert(outputs.map().contains_key(entries[0].0));
    }
    if i < k {
        assert(entries[i].0 < entries[k].0);
        assert(outputs.map().contains_key(entries[i].0));
    }
}

} // verus!
