//! The chunk map that readers fill, one slot per chunk index, and the
//! reassembler that joins its slots in index order.
use vstd::prelude::*;

use crate::error::ChunkError;
use crate::plan::{chunk_bytes, chunk_end, chunk_start, lemma_plan_partitions};

verus! {

/// The slots joined in index order; an empty slot adds nothing.
pub open spec fn joined(s: Seq<Option<Seq<u8>>>) -> Seq<u8>
    decreases s.len(),
{
    if s.len() == 0 {
        Seq::empty()
    } else {
        joined(s.drop_last()) + match s.last() {
            Some(c) => c,
            None => Seq::empty(),
        }
    }
}

/// How many slots are filled.
pub open spec fn filled_count(s: Seq<Option<Seq<u8>>>) -> nat
    decreases s.len(),
{
    if s.len() == 0 {
        0
    } else {
        filled_count(s.drop_last()) + if s.last() is Some {
            1nat
        } else {
            0nat
        }
    }
}

/// Every slot is filled.
pub open spec fn all_filled(s: Seq<Option<Seq<u8>>>) -> bool {
    forall|i: int| 0 <= i < s.len() ==> #[trigger] s[i] is Some
}

/// The slots after each `(index, bytes)` arrival is stored in turn; an index
/// out of range is ignored.
pub open spec fn fill(s: Seq<Option<Seq<u8>>>, arrivals: Seq<(usize, Seq<u8>)>) -> Seq<
    Option<Seq<u8>>,
>
    decreases arrivals.len(),
{
    if arrivals.len() == 0 {
        s
    } else {
        let prev = fill(s, arrivals.drop_last());
        let (i, c) = arrivals.last();
        if i < prev.len() {
            prev.update(i as int, Some(c))
        } else {
            prev
        }
    }
}

/// No two arrivals carry the same index.
pub open spec fn distinct_indices(arrivals: Seq<(usize, Seq<u8>)>) -> bool {
    forall|a: int, b: int|
        0 <= a < arrivals.len() && 0 <= b < arrivals.len() && a != b ==> #[trigger] arrivals[a].0
            != #[trigger] arrivals[b].0
}

/// What the arrivals carry, as indices and byte sequences.
pub open spec fn arrival_view(a: Seq<(usize, Vec<u8>)>) -> Seq<(usize, Seq<u8>)> {
    a.map_values(|p: (usize, Vec<u8>)| (p.0, p.1@))
}

/// The slots of a buffer `b` cut into `k` chunks, every one filled.
pub open spec fn slots_of(b: Seq<u8>, k: nat) -> Seq<Option<Seq<u8>>> {
    Seq::new(k, |i: int| Some(chunk_bytes(b, k, i as nat)))
}

/// The `k` chunks of `b`, each as it arrives: its index and its bytes.
pub open spec fn chunk_arrivals(b: Seq<u8>, k: usize) -> Seq<(usize, Seq<u8>)> {
    Seq::new(k as nat, |i: int| (i as usize, chunk_bytes(b, k as nat, i as nat)))
}

/// `k` empty slots.
pub open spec fn empty_slots(k: nat) -> Seq<Option<Seq<u8>>> {
    Seq::new(k, |i: int| None::<Seq<u8>>)
}

/// Chunks gathered by index, one slot per index in `[0, k)`.
pub struct ChunkMap {
    slots: Vec<Option<Vec<u8>>>,
}

impl View for ChunkMap {
    type V = Seq<Option<Seq<u8>>>;

    closed spec fn view(&self) -> Seq<Option<Seq<u8>>> {
        self.slots@.map_values(
            |o: Option<Vec<u8>>|
                match o {
                    Some(v) => Some(v@),
                    None => None,
                },
        )
    }
}

impl ChunkMap {
    /// A map with `expected` empty slots.
    pub fn new(expected: usize) -> (r: ChunkMap)
        ensures
            r@ == empty_slots(expected as nat),
    {
        let mut slots: Vec<Option<Vec<u8>>> = Vec::new();
        let mut i: usize = 0;
        while i < expected
            invariant
                0 <= i <= expected,
                slots@.len() == i,
                forall|j: int| 0 <= j < i ==> #[trigger] slots@[j] is None,
            decreases expected - i,
        {
            slots.push(None);
            i = i + 1;
        }
        let r = ChunkMap { slots };
        assert(r@ =~= empty_slots(expected as nat));
        r
    }

    /// The number of slots, that is the number of chunks expected.
    pub fn expected(&self) -> (r: usize)
        ensures
            r == self@.len(),
    {
        self.slots.len()
    }

    /// Whether chunk `index` has arrived.
    pub fn contains(&self, index: usize) -> (r: bool)
        ensures
            r == (index < self@.len() && self@[index as int] is Some),
    {
        index < self.slots.len() && self.slots[index].is_some()
    }

    /// Stores `bytes` as chunk `index`, replacing what was there.
    pub fn insert(&mut self, index: usize, bytes: Vec<u8>)
        requires
            index < old(self)@.len(),
        ensures
            final(self)@ == old(self)@.update(index as int, Some(bytes@)),
    {
        self.slots.set(index, Some(bytes));
        assert(self@ =~= old(self)@.update(index as int, Some(bytes@)));
    }

    /// Stores each arrival in turn, in the order given; an arrival whose
    /// index has no slot is dropped.
    pub fn insert_all(&mut self, arrivals: Vec<(usize, Vec<u8>)>)
        ensures
            final(self)@ == fill(old(self)@, arrival_view(arrivals@)),
    {
        let ghost all = arrival_view(arrivals@);
        let mut rest = arrivals;
        let ghost mut n: int = 0;
        while rest.len() > 0
            invariant
                0 <= n && n + rest@.len() == all.len(),
                arrival_view(rest@) == all.subrange(n as int, all.len() as int),
                self@ == fill(old(self)@, all.take(n as int)),
            decreases rest@.len(),
        {
            let ghost before = rest@;
            let (index, bytes) = rest.remove(0);
            proof {
                assert(rest@ =~= before.subrange(1, before.len() as int));
                assert(all[n as int] == arrival_view(before)[0]);
                assert(arrival_view(rest@) =~= all.subrange(n + 1, all.len() as int)) by {
                    assert forall|j: int| 0 <= j < rest@.len() implies arrival_view(rest@)[j]
                        == all.subrange(n + 1, all.len() as int)[j] by {
                        assert(arrival_view(before)[j + 1] == all.subrange(
                            n as int,
                            all.len() as int,
                        )[j + 1]);
                    }
                }
                assert(all.take(n + 1).drop_last() =~= all.take(n as int));
            }
            if index < self.slots.len() {
                self.insert(index, bytes);
            }
            proof {
                n = n + 1;
            }
        }
        proof {
            assert(all.take(n as int) =~= all);
        }
    }
}

/// A chunk map's slots joined in index order, once every slot is filled; a
/// map with an empty slot is a partial read, reported with how many chunks
/// were expected and how many arrived.
pub fn get_final_byte_vec(map: &ChunkMap) -> (r: Result<Vec<u8>, ChunkError>)
    ensures
        r is Ok <==> all_filled(map@),
        r matches Ok(v) ==> v@ == joined(map@),
        !all_filled(map@) ==> r == Err::<Vec<u8>, ChunkError>(
            ChunkError::PartialRead { expected: map@.len() as usize, found: filled_count(map@) as usize },
        ),
{
    let n = map.slots.len();
    let mut out: Vec<u8> = Vec::new();
    let mut found: usize = 0;
    let mut i: usize = 0;
    while i < n
        invariant
            n == map@.len(),
            0 <= i <= n,
            found == filled_count(map@.take(i as int)),
            found <= i,
            out@ == joined(map@.take(i as int)),
        decreases n - i,
    {
        proof {
            assert(map@.take(i + 1).drop_last() =~= map@.take(i as int));
        }
        match &map.slots[i] {
            Some(c) => {
                let mut j: usize = 0;
                while j < c.len()
                    invariant
                        0 <= j <= c@.len(),
                        out@ == joined(map@.take(i as int)) + c@.take(j as int),
                    decreases c@.len() - j,
                {
                    out.push(c[j]);
                    proof {
                        assert(c@.take(j + 1) =~= c@.take(j as int).push(c@[j as int]));
                    }
                    j = j + 1;
                }
                proof {
                    assert(c@.take(j as int) =~= c@);
                }
                found = found + 1;
            },
            None => {
                assert(joined(map@.take(i as int)) + Seq::empty() =~= joined(map@.take(i as int)));
            },
        }
        i = i + 1;
    }
    proof {
        assert(map@.take(n as int) =~= map@);
        lemma_filled_count(map@);
    }
    if found == n {
        Ok(out)
    } else {
        Err(ChunkError::PartialRead { expected: n, found })
    }
}

proof fn lemma_filled_count(s: Seq<Option<Seq<u8>>>)
    ensures
        filled_count(s) <= s.len(),
        filled_count(s) == s.len() <==> all_filled(s),
    decreases s.len(),
{
    if s.len() > 0 {
        let p = s.drop_last();
        lemma_filled_count(p);
        if all_filled(s) {
            assert forall|i: int| 0 <= i < p.len() implies #[trigger] p[i] is Some by {
                assert(s[i] is Some);
            }
        }
        if filled_count(s) == s.len() {
            assert forall|i: int| 0 <= i < s.len() implies #[trigger] s[i] is Some by {
                if i < p.len() {
                    assert(p[i] is Some);
                }
            }
        }
    }
}

proof fn lemma_fill_len(s: Seq<Option<Seq<u8>>>, a: Seq<(usize, Seq<u8>)>)
    ensures
        fill(s, a).len() == s.len(),
    decreases a.len(),
{
    if a.len() > 0 {
        lemma_fill_len(s, a.drop_last());
    }
}

/// Where the arrivals carry distinct indices, slot `j` after them holds the
/// bytes of the arrival with index `j`, or what it held before if none has.
proof fn lemma_fill_slot(s: Seq<Option<Seq<u8>>>, a: Seq<(usize, Seq<u8>)>, j: int)
    requires
        distinct_indices(a),
        0 <= j < s.len(),
    ensures
        fill(s, a).len() == s.len(),
        forall|m: int| 0 <= m < a.len() && a[m].0 == j ==> fill(s, a)[j] == Some(#[trigger] a[m].1),
        (forall|m: int| 0 <= m < a.len() ==> #[trigger] a[m].0 != j) ==> fill(s, a)[j] == s[j],
    decreases a.len(),
{
    if a.len() > 0 {
        let p = a.drop_last();
        assert(distinct_indices(p)) by {
            assert forall|x: int, y: int|
                0 <= x < p.len() && 0 <= y < p.len() && x != y implies #[trigger] p[x].0
                != #[trigger] p[y].0 by {
                assert(p[x] == a[x] && p[y] == a[y]);
            }
        }
        lemma_fill_slot(s, p, j);
        assert forall|m: int| 0 <= m < a.len() && a[m].0 == j implies fill(s, a)[j] == Some(
            #[trigger] a[m].1,
        ) by {
            if m < a.len() - 1 {
                assert(p[m] == a[m]);
                assert(a[a.len() - 1].0 != a[m].0);
            }
        }
        if forall|m: int| 0 <= m < a.len() ==> #[trigger] a[m].0 != j {
            assert forall|m: int| 0 <= m < p.len() implies #[trigger] p[m].0 != j by {
                assert(p[m] == a[m]);
            }
            assert(a[a.len() - 1].0 != j);
        }
    }
}

/// The order in which chunks arrive does not matter: storing the same
/// arrivals, with no index twice, in any two orders gives the same map.
pub proof fn lemma_arrival_order_irrelevant(
    s: Seq<Option<Seq<u8>>>,
    a1: Seq<(usize, Seq<u8>)>,
    a2: Seq<(usize, Seq<u8>)>,
)
    requires
        distinct_indices(a1),
        distinct_indices(a2),
        a1.to_multiset() == a2.to_multiset(),
    ensures
        fill(s, a1) == fill(s, a2),
{
    a1.to_multiset_ensures();
    a2.to_multiset_ensures();
    assert forall|j: int| 0 <= j < s.len() implies fill(s, a1)[j] == fill(s, a2)[j] by {
        lemma_fill_slot(s, a1, j);
        lemma_fill_slot(s, a2, j);
        if exists|m: int| 0 <= m < a1.len() && #[trigger] a1[m].0 == j {
            let m = choose|m: int| 0 <= m < a1.len() && #[trigger] a1[m].0 == j;
            assert(a1.contains(a1[m]));
            assert(a1.to_multiset().count(a1[m]) > 0);
            assert(a2.to_multiset().count(a1[m]) > 0);
            assert(a2.contains(a1[m]));
            let m2 = choose|m2: int| 0 <= m2 < a2.len() && a2[m2] == a1[m];
            assert(a2[m2].1 == a1[m].1);
        } else if exists|m: int| 0 <= m < a2.len() && #[trigger] a2[m].0 == j {
            let m = choose|m: int| 0 <= m < a2.len() && #[trigger] a2[m].0 == j;
            assert(a2.contains(a2[m]));
            assert(a2.to_multiset().count(a2[m]) > 0);
            assert(a1.to_multiset().count(a2[m]) > 0);
            assert(a1.contains(a2[m]));
            let m1 = choose|m1: int| 0 <= m1 < a1.len() && a1[m1] == a2[m];
            assert(a1[m1].0 == j);
        }
    }
    lemma_fill_len(s, a1);
    lemma_fill_len(s, a2);
    assert(fill(s, a1) =~= fill(s, a2));
}

proof fn lemma_joined_prefix(b: Seq<u8>, k: nat, n: nat)
    requires
        0 < n <= k,
    ensures
        joined(slots_of(b, k).take(n as int)) == b.subrange(
            0,
            chunk_end(b.len(), k, (n - 1) as nat) as int,
        ),
    decreases n,
{
    lemma_plan_partitions(b.len(), k);
    let t = slots_of(b, k).take(n as int);
    assert(t.drop_last() =~= slots_of(b, k).take(n - 1));
    let c = chunk_bytes(b, k, (n - 1) as nat);
    assert(t.last() == Some(c));
    if n == 1 {
        assert(joined(t.drop_last()) =~= Seq::empty());
        assert(joined(t) =~= b.subrange(0, chunk_end(b.len(), k, 0) as int));
    } else {
        lemma_joined_prefix(b, k, (n - 1) as nat);
        let m = chunk_end(b.len(), k, (n - 2) as nat);
        assert(m == chunk_start(b.len(), k, (n - 1) as nat));
        assert(chunk_end(b.len(), k, (n - 1) as nat) <= b.len());
        assert(joined(t) =~= b.subrange(0, chunk_end(b.len(), k, (n - 1) as nat) as int));
    }
}

/// Cutting a buffer into `k >= 1` chunks, storing them in a chunk map in any
/// order, and joining the map gives the buffer back: every slot is filled and
/// the joined bytes are the buffer, empty or not.
pub proof fn lemma_round_trip(b: Seq<u8>, k: usize, arrivals: Seq<(usize, Seq<u8>)>)
    requires
        k > 0,
        distinct_indices(arrivals),
        arrivals.to_multiset() == chunk_arrivals(b, k).to_multiset(),
    ensures
        all_filled(fill(empty_slots(k as nat), arrivals)),
        joined(fill(empty_slots(k as nat), arrivals)) == b,
{
    let ordered = chunk_arrivals(b, k);
    let e = empty_slots(k as nat);
    assert(distinct_indices(ordered));
    lemma_arrival_order_irrelevant(e, arrivals, ordered);
    lemma_fill_len(e, ordered);
    assert forall|j: int| 0 <= j < k implies fill(e, ordered)[j] == slots_of(b, k as nat)[j] by {
        lemma_fill_slot(e, ordered, j);
        assert(ordered[j].0 == j);
        assert(fill(e, ordered)[j] == Some(ordered[j].1));
    }
    assert(fill(e, ordered) =~= slots_of(b, k as nat));
    lemma_joined_prefix(b, k as nat, k as nat);
    lemma_plan_partitions(b.len(), k as nat);
    assert(slots_of(b, k as nat).take(k as int) =~= slots_of(b, k as nat));
    assert(b.subrange(0, b.len() as int) =~= b);
}

} // verus!
