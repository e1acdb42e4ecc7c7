use crate::cmp::Cmp;
use crate::iterator::LdbIterator;
use rand::rngs::StdRng;
use std::cmp::Ordering;
use vstd::prelude::*;
use vstd::slice::slice_to_vec;

verus! {

/// Levels of the header; no node is taller.
pub const MAX_HEIGHT: usize = 12;

/// Each further level is granted with probability one in this many.
pub const BRANCHING_FACTOR: u32 = 4;

/// Bytes counted for each node besides its links, key and value.
pub const NODE_SIZE: usize = 80;

/// Bytes counted for each link of a node or of the header.
pub const LINK_SIZE: usize = 16;

/// Bytes counted for an empty list besides the header's links.
pub const LIST_SIZE: usize = 8;

/// The seed of each list's level generator, so that runs repeat.
pub const SEED: u64 = 0xdeadbeaf;

#[verifier::external_type_specification]
#[verifier::external_body]
pub struct ExStdRng(StdRng);

/// Relies on rand's `SeedableRng::seed_from_u64` for `StdRng`: a generator from a seed.
#[verifier::external_body]
fn seeded_rng(seed: u64) -> StdRng {
    <StdRng as rand::SeedableRng>::seed_from_u64(seed)
}

/// Relies on rand's `RngCore::next_u32` for `StdRng`: the next number drawn; any value may come.
#[verifier::external_body]
fn draw_u32(rng: &mut StdRng) -> u32 {
    rand::RngCore::next_u32(rng)
}

/// Bytes counted for a node of `h` levels holding a key and a value of the given lengths.
pub open spec fn node_cost(h: int, key_len: int, val_len: int) -> int {
    NODE_SIZE + h * LINK_SIZE + key_len + val_len
}

/// The level count after one more draw: one level higher when the count is below the
/// maximum and the draw is a multiple of the branching factor, else unchanged.
pub fn next_height(height: usize, draw: u32) -> (r: usize)
    requires
        1 <= height <= MAX_HEIGHT,
    ensures
        r == if height < MAX_HEIGHT && draw % BRANCHING_FACTOR == 0 {
            height + 1
        } else {
            height as int
        },
{
    if height < MAX_HEIGHT && draw % BRANCHING_FACTOR == 0 {
        height + 1
    } else {
        height
    }
}

/// A sorted map of byte strings, ordered by `cmp`, append-only.
///
/// Nodes live in an arena and are named by their index. Node `k` has `heights[k]` levels;
/// its link at level `l` is `links[k * MAX_HEIGHT + l]`, the header's is `head[l]`. Level 0
/// links every node to the next one in key order; higher levels skip ahead.
pub struct SkipList<C: Cmp> {
    cmp: C,
    keys: Vec<Vec<u8>>,
    values: Vec<Vec<u8>>,
    heights: Vec<usize>,
    links: Vec<Option<usize>>,
    head: Vec<Option<usize>>,
    approx_mem: usize,
    rand: StdRng,
    /// Node indices in key order.
    order: Ghost<Seq<int>>,
    /// The place of each node in `order`.
    pos: Ghost<Seq<int>>,
}

impl<C: Cmp> SkipList<C> {
    pub closed spec fn n(&self) -> int {
        self.keys@.len() as int
    }

    /// The comparator the list is ordered by.
    pub closed spec fn comparator(&self) -> C {
        self.cmp
    }

    /// The entries, in key order.
    pub closed spec fn entries(&self) -> Seq<(Seq<u8>, Seq<u8>)> {
        Seq::new(
            self.n() as nat,
            |i: int| (self.keys@[self.order@[i]]@, self.values@[self.order@[i]]@),
        )
    }

    pub closed spec fn mem(&self) -> nat {
        self.approx_mem as nat
    }

    /// Place in key order of a node, or -1 for the header.
    closed spec fn place(&self, c: Option<usize>) -> int {
        match c {
            None => -1,
            Some(k) => self.pos@[k as int],
        }
    }

    closed spec fn height(&self, c: Option<usize>) -> int {
        match c {
            None => MAX_HEIGHT as int,
            Some(k) => self.heights@[k as int] as int,
        }
    }

    closed spec fn link(&self, c: Option<usize>, l: int) -> Option<usize> {
        match c {
            None => self.head@[l],
            Some(k) => self.links@[slot(k as int, l)],
        }
    }

    closed spec fn is_ref(&self, c: Option<usize>) -> bool {
        match c {
            None => true,
            Some(k) => k < self.n(),
        }
    }

    /// The level-`l` link of `c` is the next node in order at level 0, and otherwise absent
    /// or a later node that has level `l`.
    closed spec fn link_ok(&self, c: Option<usize>, l: int) -> bool {
        let p = self.place(c);
        if l == 0 {
            self.link(c, l) == (if p + 1 < self.n() {
                Some(self.order@[p + 1] as usize)
            } else {
                None
            })
        } else {
            match self.link(c, l) {
                None => true,
                Some(t) => t < self.n() && self.place(Some(t)) > p && self.heights@[t as int] > l,
            }
        }
    }

    closed spec fn key_of(&self, k: int) -> Seq<u8> {
        self.keys@[k]@
    }

    /// Well-formed: the arena, the order, the links, and keys strictly ascending.
    pub closed spec fn wf(&self) -> bool {
        &&& self.values@.len() == self.n()
        &&& self.heights@.len() == self.n()
        &&& self.links@.len() == self.n() * MAX_HEIGHT
        &&& self.n() * MAX_HEIGHT <= usize::MAX
        &&& self.head@.len() == MAX_HEIGHT
        &&& self.order@.len() == self.n()
        &&& self.pos@.len() == self.n()
        &&& forall|k: int| 0 <= k < self.n() ==> 0 <= #[trigger] self.pos@[k] < self.n()
            && self.order@[self.pos@[k]] == k
        &&& forall|i: int| 0 <= i < self.n() ==> 0 <= #[trigger] self.order@[i] < self.n()
            && self.pos@[self.order@[i]] == i
        &&& forall|k: int| 0 <= k < self.n() ==> 1 <= #[trigger] self.heights@[k] <= MAX_HEIGHT
        &&& forall|c: Option<usize>, l: int|
            self.is_ref(c) && 0 <= l < self.height(c) ==> #[trigger] self.link_ok(c, l)
        &&& forall|k: int| 0 <= k < self.n() ==> self.cmp.accepts(#[trigger] self.key_of(k))
        &&& forall|i: int, j: int|
            0 <= i < j < self.n() ==> self.cmp.order(
                #[trigger] self.key_of(self.order@[i]),
                #[trigger] self.key_of(self.order@[j]),
            ) == Ordering::Less
    }

    /// An empty list whose levels are drawn from a generator seeded with `SEED`.
    pub fn new(cmp: C) -> (r: Self)
        ensures
            r.wf(),
            r.entries().len() == 0,
            r.comparator() == cmp,
            r.mem() == LIST_SIZE + MAX_HEIGHT * LINK_SIZE,
    {
        Self::with_seed(cmp, SEED)
    }

    /// An empty list whose levels are drawn from a generator seeded with `seed`.
    pub fn with_seed(cmp: C, seed: u64) -> (r: Self)
        ensures
            r.wf(),
            r.entries().len() == 0,
            r.comparator() == cmp,
            r.mem() == LIST_SIZE + MAX_HEIGHT * LINK_SIZE,
    {
        let mut head: Vec<Option<usize>> = Vec::new();
        let mut i: usize = 0;
        while i < MAX_HEIGHT
            invariant
                i <= MAX_HEIGHT,
                head@.len() == i,
                forall|l: int| 0 <= l < i ==> head@[l].is_none(),
            decreases MAX_HEIGHT - i,
        {
            head.push(None);
            i += 1;
        }
        let r = SkipList {
            cmp,
            keys: Vec::new(),
            values: Vec::new(),
            heights: Vec::new(),
            links: Vec::new(),
            head,
            approx_mem: LIST_SIZE + MAX_HEIGHT * LINK_SIZE,
            rand: seeded_rng(seed),
            order: Ghost(Seq::empty()),
            pos: Ghost(Seq::empty()),
        };
        assert forall|c: Option<usize>, l: int|
            r.is_ref(c) && 0 <= l < r.height(c) implies #[trigger] r.link_ok(c, l) by {
            assert(c.is_none());
        }
        r
    }

    /// A forward scan meets the keys in strictly ascending order, each accepted by the
    /// comparator.
    pub proof fn lemma_entries_ascending(&self)
        requires
            self.wf(),
        ensures
            forall|i: int|
                0 <= i < self.entries().len() ==> self.comparator().accepts(
                    #[trigger] self.entries()[i].0,
                ),
            forall|i: int, j: int|
                0 <= i < j < self.entries().len() ==> self.comparator().order(
                    #[trigger] self.entries()[i].0,
                    #[trigger] self.entries()[j].0,
                ) == Ordering::Less,
    {
        assert forall|i: int| 0 <= i < self.entries().len() implies self.comparator().accepts(
            #[trigger] self.entries()[i].0,
        ) by {
            assert(0 <= self.order@[i] < self.n());
            assert(self.entries()[i].0 == self.key_of(self.order@[i]));
        }
        assert forall|i: int, j: int| 0 <= i < j < self.entries().len() implies self.comparator().order(
            #[trigger] self.entries()[i].0,
            #[trigger] self.entries()[j].0,
        ) == Ordering::Less by {
            assert(self.entries()[i].0 == self.key_of(self.order@[i]));
            assert(self.entries()[j].0 == self.key_of(self.order@[j]));
        }
    }

    /// After an insert, a key comparing equal to the inserted one is in the list, every entry
    /// held before is still held, and there is one entry more.
    pub proof fn lemma_insert_keeps_and_adds(&self, before: &Self, key: Seq<u8>, val: Seq<u8>)
        requires
            before.comparator().accepts(key),
            self.comparator() == before.comparator(),
            exists|q: int|
                0 <= q <= before.entries().len() && self.entries() == before.entries().insert(
                    q,
                    (key, val),
                ),
        ensures
            self.entries().len() == before.entries().len() + 1,
            exists|i: int|
                0 <= i < self.entries().len() && self.comparator().order(
                    #[trigger] self.entries()[i].0,
                    key,
                ) == Ordering::Equal,
            forall|j: int|
                0 <= j < before.entries().len() ==> self.entries().contains(
                    #[trigger] before.entries()[j],
                ),
    {
        let q = choose|q: int|
            0 <= q <= before.entries().len() && self.entries() == before.entries().insert(
                q,
                (key, val),
            );
        self.cmp.lemma_total_order(key, key, key);
        assert(self.entries()[q].0 == key);
        assert forall|j: int| 0 <= j < before.entries().len() implies self.entries().contains(
            #[trigger] before.entries()[j],
        ) by {
            if j < q {
                assert(self.entries()[j] == before.entries()[j]);
            } else {
                assert(self.entries()[j + 1] == before.entries()[j]);
            }
        }
    }

    pub fn len(&self) -> (r: usize)
        requires
            self.wf(),
        ensures
            r == self.entries().len(),
    {
        self.keys.len()
    }

    pub fn is_empty(&self) -> (r: bool)
        requires
            self.wf(),
        ensures
            r == (self.entries().len() == 0),
    {
        self.keys.len() == 0
    }

    /// Bytes used, approximately: the figure a flush policy reads.
    pub fn approx_memory(&self) -> (r: usize)
        ensures
            r == self.mem(),
    {
        self.approx_mem
    }

    /// A level count: one, plus one more for each draw in a row that is a multiple of the
    /// branching factor, up to the maximum.
    fn random_height(&mut self) -> (r: usize)
        ensures
            1 <= r <= MAX_HEIGHT,
            final(self).cmp == old(self).cmp,
            final(self).keys == old(self).keys,
            final(self).values == old(self).values,
            final(self).heights == old(self).heights,
            final(self).links == old(self).links,
            final(self).head == old(self).head,
            final(self).approx_mem == old(self).approx_mem,
            final(self).order == old(self).order,
            final(self).pos == old(self).pos,
    {
        let mut height: usize = 1;
        let mut done = false;
        while !done
            invariant
                1 <= height <= MAX_HEIGHT,
                self.cmp == old(self).cmp,
                self.keys == old(self).keys,
                self.values == old(self).values,
                self.heights == old(self).heights,
                self.links == old(self).links,
                self.head == old(self).head,
                self.approx_mem == old(self).approx_mem,
                self.order == old(self).order,
                self.pos == old(self).pos,
            decreases MAX_HEIGHT - height + (if done { 0int } else { 1int }),
        {
            if height >= MAX_HEIGHT {
                done = true;
            } else {
                let next = next_height(height, draw_u32(&mut self.rand));
                if next == height {
                    done = true;
                } else {
                    height = next;
                }
            }
        }
        height
    }

    fn link_exec(&self, c: Option<usize>, level: usize) -> (r: Option<usize>)
        requires
            self.wf(),
            self.is_ref(c),
            level < self.height(c),
        ensures
            r == self.link(c, level as int),
    {
        match c {
            None => self.head[level],
            Some(k) => {
                let _ = self.links.len();
                proof {
                    lemma_index_bound(k as int, level as int, self.n());
                }
                self.links[k * MAX_HEIGHT + level]
            },
        }
    }

    proof fn lemma_link_facts(&self, c: Option<usize>, l: int)
        requires
            self.wf(),
            self.is_ref(c),
            0 <= l < self.height(c),
        ensures
            self.link_ok(c, l),
            -1 <= self.place(c) < self.n(),
            c.is_some() ==> self.order@[self.place(c)] == c.unwrap(),
    {
    }

    /// Keys at places `i < j` ascend; keys that compare below one at a place lie before it.
    proof fn lemma_sorted_at(&self, i: int, j: int)
        requires
            self.wf(),
            0 <= i < self.n(),
            0 <= j < self.n(),
        ensures
            i < j ==> self.cmp.order(self.key_of(self.order@[i]), self.key_of(self.order@[j]))
                == Ordering::Less,
            i == j ==> self.cmp.order(self.key_of(self.order@[i]), self.key_of(self.order@[j]))
                == Ordering::Equal,
            i > j ==> self.cmp.order(self.key_of(self.order@[i]), self.key_of(self.order@[j]))
                == Ordering::Greater,
    {
        let a = self.key_of(self.order@[i]);
        let b = self.key_of(self.order@[j]);
        self.cmp.lemma_total_order(a, b, b);
        if i > j {
            assert(self.cmp.order(b, a) == Ordering::Less);
        }
    }

    /// The node of the first key not below `key`, if any.
    fn get_greater_or_equal(&self, key: &[u8]) -> (r: Option<usize>)
        requires
            self.wf(),
            self.cmp.accepts(key@),
        ensures
            match r {
                None => forall|i: int|
                    0 <= i < self.n() ==> self.cmp.order(#[trigger] self.key_of(self.order@[i]), key@)
                        == Ordering::Less,
                Some(k) => k < self.n() && self.cmp.order(self.key_of(k as int), key@)
                    != Ordering::Less && forall|i: int|
                    0 <= i < self.pos@[k as int] ==> self.cmp.order(
                        #[trigger] self.key_of(self.order@[i]),
                        key@,
                    ) == Ordering::Less,
            },
    {
        let mut cur: Option<usize> = None;
        let mut level: usize = MAX_HEIGHT - 1;
        loop
            invariant
                self.wf(),
                self.cmp.accepts(key@),
                level < MAX_HEIGHT,
                self.is_ref(cur),
                level < self.height(cur),
                -1 <= self.place(cur) < self.n(),
                forall|i: int|
                    0 <= i <= self.place(cur) ==> self.cmp.order(
                        #[trigger] self.key_of(self.order@[i]),
                        key@,
                    ) == Ordering::Less,
            decreases level, self.n() - self.place(cur),
        {
            let next = self.link_exec(cur, level);
            proof {
                self.lemma_link_facts(cur, level as int);
            }
            let mut advanced = false;
            if let Some(nx) = next {
                proof {
                    if level == 0 {
                        let q = self.place(cur) + 1;
                        assert(q < self.n());
                        assert(0 <= self.order@[q] < self.n());
                        assert(self.order@[q] == nx);
                    }
                    assert(self.cmp.accepts(self.key_of(nx as int)));
                }
                let o = self.cmp.cmp(self.keys[nx].as_slice(), key);
                proof {
                    self.lemma_below_place(self.pos@[nx as int], key@);
                }
                match o {
                    Ordering::Less => {
                        advanced = true;
                    },
                    Ordering::Equal => {
                        return Some(nx);
                    },
                    Ordering::Greater => {
                        if level == 0 {
                            return Some(nx);
                        }
                    },
                }
            }
            if advanced {
                proof {
                    let p = self.pos@[next.unwrap() as int];
                    assert(self.order@[p] == next.unwrap());
                    self.lemma_below_place(p, key@);
                    assert(self.place(next) > self.place(cur));
                    assert(self.heights@[next.unwrap() as int] >= 1);
                }
                cur = next;
            } else if level == 0 {
                proof {
                    if next.is_some() {
                        assert(false);
                    }
                    assert(self.place(cur) + 1 >= self.n());
                }
                return None;
            } else {
                level -= 1;
            }
        }
    }

    /// How the key at place `i` compares to `key`, from how the key at place `p` does.
    proof fn lemma_cmp_place(&self, i: int, p: int, key: Seq<u8>)
        requires
            self.wf(),
            self.cmp.accepts(key),
            0 <= i < self.n(),
            0 <= p < self.n(),
        ensures
            (i < p && self.cmp.order(self.key_of(self.order@[p]), key) != Ordering::Greater)
                ==> self.cmp.order(self.key_of(self.order@[i]), key) == Ordering::Less,
            (i <= p && self.cmp.order(self.key_of(self.order@[p]), key) == Ordering::Less)
                ==> self.cmp.order(self.key_of(self.order@[i]), key) == Ordering::Less,
            (i > p && self.cmp.order(self.key_of(self.order@[p]), key) != Ordering::Less)
                ==> self.cmp.order(self.key_of(self.order@[i]), key) == Ordering::Greater,
    {
        let ki = self.key_of(self.order@[i]);
        let kp = self.key_of(self.order@[p]);
        assert(self.cmp.accepts(ki));
        assert(self.cmp.accepts(kp));
        self.lemma_sorted_at(i, p);
        self.cmp.lemma_total_order(ki, kp, key);
        self.cmp.lemma_total_order(kp, key, ki);
        self.cmp.lemma_total_order(key, kp, ki);
        self.cmp.lemma_total_order(ki, key, kp);
    }

    /// Keys at places before one whose key is below `key` are below it too.
    proof fn lemma_below_place(&self, p: int, key: Seq<u8>)
        requires
            self.wf(),
            self.cmp.accepts(key),
            0 <= p < self.n(),
        ensures
            self.cmp.order(self.key_of(self.order@[p]), key) == Ordering::Less ==> forall|i: int|
                0 <= i <= p ==> self.cmp.order(#[trigger] self.key_of(self.order@[i]), key)
                    == Ordering::Less,
            self.cmp.order(self.key_of(self.order@[p]), key) != Ordering::Greater ==> forall|
                i: int,
            |
                0 <= i < p ==> self.cmp.order(#[trigger] self.key_of(self.order@[i]), key)
                    == Ordering::Less,
            self.cmp.order(self.key_of(self.order@[p]), key) != Ordering::Less ==> forall|i: int|
                p < i < self.n() ==> self.cmp.order(#[trigger] self.key_of(self.order@[i]), key)
                    == Ordering::Greater,
    {
        assert forall|i: int| 0 <= i < self.n() implies {
            &&& (i < p && self.cmp.order(self.key_of(self.order@[p]), key) != Ordering::Greater)
                ==> self.cmp.order(#[trigger] self.key_of(self.order@[i]), key) == Ordering::Less
            &&& (i <= p && self.cmp.order(self.key_of(self.order@[p]), key) == Ordering::Less)
                ==> self.cmp.order(self.key_of(self.order@[i]), key) == Ordering::Less
            &&& (i > p && self.cmp.order(self.key_of(self.order@[p]), key) != Ordering::Less)
                ==> self.cmp.order(self.key_of(self.order@[i]), key) == Ordering::Greater
        } by {
            self.lemma_cmp_place(i, p, key);
        }
    }

    /// The node of the last key below `key`, if any.
    fn get_last_smaller(&self, key: &[u8]) -> (r: Option<usize>)
        requires
            self.wf(),
            self.cmp.accepts(key@),
        ensures
            match r {
                None => forall|i: int|
                    0 <= i < self.n() ==> self.cmp.order(#[trigger] self.key_of(self.order@[i]), key@)
                        != Ordering::Less,
                Some(k) => k < self.n() && self.cmp.order(self.key_of(k as int), key@)
                    == Ordering::Less && forall|i: int|
                    self.pos@[k as int] < i < self.n() ==> self.cmp.order(
                        #[trigger] self.key_of(self.order@[i]),
                        key@,
                    ) != Ordering::Less,
            },
    {
        let mut cur: Option<usize> = None;
        let mut level: usize = MAX_HEIGHT - 1;
        loop
            invariant
                self.wf(),
                self.cmp.accepts(key@),
                level < MAX_HEIGHT,
                self.is_ref(cur),
                level < self.height(cur),
                -1 <= self.place(cur) < self.n(),
                cur.is_some() ==> self.order@[self.place(cur)] == cur.unwrap(),
                forall|i: int|
                    0 <= i <= self.place(cur) ==> self.cmp.order(
                        #[trigger] self.key_of(self.order@[i]),
                        key@,
                    ) == Ordering::Less,
            decreases level, self.n() - self.place(cur),
        {
            let next = self.link_exec(cur, level);
            proof {
                self.lemma_link_facts(cur, level as int);
            }
            let mut advanced = false;
            if let Some(nx) = next {
                proof {
                    if level == 0 {
                        let q = self.place(cur) + 1;
                        assert(0 <= self.order@[q] < self.n());
                    }
                    assert(self.cmp.accepts(self.key_of(nx as int)));
                }
                let o = self.cmp.cmp(self.keys[nx].as_slice(), key);
                if matches!(o, Ordering::Less) {
                    advanced = true;
                } else if level == 0 {
                    proof {
                        self.lemma_below_place(self.pos@[nx as int], key@);
                    }
                }
            }
            if advanced {
                proof {
                    let p = self.pos@[next.unwrap() as int];
                    self.lemma_below_place(p, key@);
                    assert(self.heights@[next.unwrap() as int] >= 1);
                }
                cur = next;
            } else if level == 0 {
                return cur;
            } else {
                level -= 1;
            }
        }
    }

    /// Adds an entry whose key compares unequal to every key in the list, at its place in key
    /// order, and counts the bytes it takes.
    #[verifier::loop_isolation(false)]
    pub fn insert(&mut self, key: &[u8], val: &[u8])
        requires
            old(self).wf(),
            old(self).comparator().accepts(key@),
            key@.len() > 0,
            forall|i: int|
                0 <= i < old(self).entries().len() ==> old(self).comparator().order(
                    #[trigger] old(self).entries()[i].0,
                    key@,
                ) != Ordering::Equal,
            (old(self).entries().len() + 1) * MAX_HEIGHT <= usize::MAX,
            old(self).mem() + NODE_SIZE + MAX_HEIGHT * LINK_SIZE + key@.len() + val@.len()
                <= usize::MAX,
        ensures
            final(self).wf(),
            final(self).comparator() == old(self).comparator(),
            exists|q: int|
                0 <= q <= old(self).entries().len() && final(self).entries() == old(
                    self,
                ).entries().insert(q, (key@, val@)),
            exists|h: int|
                1 <= h <= MAX_HEIGHT && final(self).mem() == old(self).mem() + #[trigger] node_cost(
                    h,
                    key@.len() as int,
                    val@.len() as int,
                ),
    {
        let new_height = self.random_height();
        proof {
            old(self).lemma_wf_frame(self);
        }
        let ghost s0 = *self;
        let mut prevs: Vec<Option<usize>> = Vec::new();
        while prevs.len() < new_height
            invariant
                prevs@.len() <= new_height,
                forall|l: int| 0 <= l < prevs@.len() ==> prevs@[l].is_none(),
            decreases new_height - prevs@.len(),
        {
            prevs.push(None);
        }
        proof {
            assert forall|i: int| 0 <= i < self.n() implies self.cmp.order(
                #[trigger] self.key_of(self.order@[i]),
                key@,
            ) != Ordering::Equal by {
                assert(self.entries()[i].0 == self.key_of(self.order@[i]));
            }
        }
        let mut level: usize = MAX_HEIGHT - 1;
        let mut cur: Option<usize> = None;
        loop
            invariant
                self.wf(),
                self.cmp.accepts(key@),
                forall|i: int|
                    0 <= i < self.n() ==> self.cmp.order(
                        #[trigger] self.key_of(self.order@[i]),
                        key@,
                    ) != Ordering::Equal,
                1 <= new_height <= MAX_HEIGHT,
                prevs@.len() == new_height,
                level < MAX_HEIGHT,
                self.is_ref(cur),
                level < self.height(cur),
                -1 <= self.place(cur) < self.n(),
                forall|i: int|
                    0 <= i <= self.place(cur) ==> self.cmp.order(
                        #[trigger] self.key_of(self.order@[i]),
                        key@,
                    ) == Ordering::Less,
                forall|l: int|
                    level < l < new_height ==> self.recorded(#[trigger] prevs@[l], l, cur, key@),
            decreases level, self.n() - self.place(cur),
        {
            let next = self.link_exec(cur, level);
            proof {
                self.lemma_link_facts(cur, level as int);
            }
            let mut advanced = false;
            if let Some(nx) = next {
                proof {
                    if level == 0 {
                        let q = self.place(cur) + 1;
                        assert(0 <= self.order@[q] < self.n());
                    }
                    assert(self.cmp.accepts(self.key_of(nx as int)));
                }
                let o = self.cmp.cmp(self.keys[nx].as_slice(), key);
                if matches!(o, Ordering::Less) {
                    advanced = true;
                }
                proof {
                    let p = self.pos@[nx as int];
                    assert(self.order@[p] == nx);
                    self.lemma_below_place(p, key@);
                }
            }
            if advanced {
                proof {
                    assert(self.heights@[next.unwrap() as int] >= 1);
                    assert forall|l: int| level < l < new_height implies self.recorded(
                        #[trigger] prevs@[l],
                        l,
                        next,
                        key@,
                    ) by {
                        assert(self.recorded(prevs@[l], l, cur, key@));
                    }
                }
                cur = next;
            } else {
                if level < new_height {
                    prevs.set(level, cur);
                }
                proof {
                    assert(self.recorded(cur, level as int, cur, key@));
                }
                if level == 0 {
                    break;
                }
                level -= 1;
            }
        }
        // Links of the new node: what its predecessors linked to at its levels.
        let mut new_links: Vec<Option<usize>> = Vec::new();
        while new_links.len() < MAX_HEIGHT
            invariant
                self.wf(),
                prevs@.len() == new_height,
                1 <= new_height <= MAX_HEIGHT,
                new_links@.len() <= MAX_HEIGHT,
                forall|l: int| 0 <= l < new_height ==> self.is_ref(#[trigger] prevs@[l]) && l < self.height(prevs@[l]),
                forall|l: int|
                    0 <= l < new_links@.len() ==> #[trigger] new_links@[l] == if l < new_height {
                        self.link(prevs@[l], l)
                    } else {
                        None
                    },
            decreases MAX_HEIGHT - new_links@.len(),
        {
            let l = new_links.len();
            if l < new_height {
                let t = self.link_exec(prevs[l], l);
                new_links.push(t);
            } else {
                new_links.push(None);
            }
        }
        let m = self.keys.len();
        let ghost q = self.place(cur) + 1;
        assert(self.head@.len() == MAX_HEIGHT);
        let ghost n0 = self.n();
        let ghost old_links = self.links@;
        let ghost old_head = self.head@;
        let ghost old_order = self.order@;
        let ghost old_pos = self.pos@;
        let ghost old_keys = self.keys@;
        let ghost old_heights = self.heights@;
        let ghost old_entries = self.entries();
        self.keys.push(slice_to_vec(key));
        self.values.push(slice_to_vec(val));
        self.heights.push(new_height);
        let ghost s1 = *self;
        let mut i: usize = 0;
        while i < MAX_HEIGHT
            invariant
                i <= MAX_HEIGHT,
                new_links@.len() == MAX_HEIGHT,
                self.links@.len() == n0 * MAX_HEIGHT + i,
                forall|j: int| 0 <= j < n0 * MAX_HEIGHT ==> self.links@[j] == old_links[j],
                forall|l: int| 0 <= l < i ==> self.links@[n0 * MAX_HEIGHT + l] == new_links@[l],
                n0 * MAX_HEIGHT + MAX_HEIGHT <= usize::MAX,
                self.cmp == s1.cmp,
                self.keys == s1.keys,
                self.values == s1.values,
                self.heights == s1.heights,
                self.head == s1.head,
                self.approx_mem == s1.approx_mem,
                self.order == s1.order,
                self.pos == s1.pos,
            decreases MAX_HEIGHT - i,
        {
            self.links.push(new_links[i]);
            i += 1;
        }
        self.order = Ghost(old_order.insert(q, m as int));
        self.pos = Ghost(
            Seq::new(
                (n0 + 1) as nat,
                |k: int|
                    if k == n0 {
                        q
                    } else if old_pos[k] >= q {
                        old_pos[k] + 1
                    } else {
                        old_pos[k]
                    },
            ),
        );
        let ghost s2 = *self;
        // Link each predecessor to the new node.
        let mut j: usize = 0;
        while j < new_height
            invariant
                j <= new_height,
                1 <= new_height <= MAX_HEIGHT,
                prevs@.len() == new_height,
                m == n0,
                self.cmp == s1.cmp,
                self.keys == s1.keys,
                self.values == s1.values,
                self.heights == s1.heights,
                self.approx_mem == s1.approx_mem,
                self.order == s2.order,
                self.pos == s2.pos,
                self.links@.len() == (n0 + 1) * MAX_HEIGHT,
                self.head@.len() == MAX_HEIGHT,
                forall|l: int| 0 <= l < new_height ==> match #[trigger] prevs@[l] {
                    None => true,
                    Some(k) => k < n0,
                },
                forall|k: int, l: int|
                    0 <= k < n0 && 0 <= l < MAX_HEIGHT ==> self.links@[#[trigger] slot(k, l)] == if l < j
                        && prevs@[l] == Some(k as usize) {
                        Some(m)
                    } else {
                        old_links[slot(k, l)]
                    },
                forall|l: int| 0 <= l < MAX_HEIGHT ==> self.links@[#[trigger] slot(n0, l)] == new_links@[l],
                forall|l: int|
                    0 <= l < MAX_HEIGHT ==> #[trigger] self.head@[l] == if l < j && prevs@[l]
                        is None {
                        Some(m)
                    } else {
                        old_head[l]
                    },
            decreases new_height - j,
        {
            match prevs[j] {
                None => {
                    self.head.set(j, Some(m));
                },
                Some(k) => {
                    proof {
                        lemma_index_bound(k as int, j as int, n0 + 1);
                    }
                    self.links.set(k * MAX_HEIGHT + j, Some(m));
                    proof {
                        assert forall|k2: int, l: int|
                            0 <= k2 < n0 + 1 && 0 <= l < MAX_HEIGHT implies slot(k2, l) == slot(
                            k as int,
                            j as int,
                        ) <==> (k2 == k && l == j) by {
                            lemma_slot_inj(k2, l, k as int, j as int);
                        }
                    }
                },
            }
            j += 1;
        }
        proof {
            assert(LINK_SIZE * new_height <= LINK_SIZE * MAX_HEIGHT) by (nonlinear_arith)
                requires
                    new_height <= MAX_HEIGHT,
            ;
        }
        let added = NODE_SIZE + LINK_SIZE * new_height + key.len() + val.len();
        self.approx_mem = self.approx_mem + added;
        proof {
            self.lemma_insert_wf(s0, prevs@, cur, key@, val@, new_height as int, new_links@);
            assert(self.entries() =~= s0.entries().insert(q, (key@, val@)));
            assert(self.mem() == old(self).mem() + node_cost(
                new_height as int,
                key@.len() as int,
                val@.len() as int,
            ));
        }
    }

    proof fn lemma_wf_frame(&self, b: &Self)
        requires
            self.wf(),
            b.cmp == self.cmp,
            b.keys == self.keys,
            b.values == self.values,
            b.heights == self.heights,
            b.links == self.links,
            b.head == self.head,
            b.order == self.order,
            b.pos == self.pos,
        ensures
            b.wf(),
            b.entries() == self.entries(),
    {
        assert forall|c: Option<usize>, l: int|
            b.is_ref(c) && 0 <= l < b.height(c) implies #[trigger] b.link_ok(c, l) by {
            assert(self.link_ok(c, l));
        }
        assert forall|k: int| 0 <= k < b.n() implies b.cmp.accepts(#[trigger] b.key_of(k)) by {
            assert(self.cmp.accepts(self.key_of(k)));
        }
        assert forall|i: int, j: int| 0 <= i < j < b.n() implies b.cmp.order(
            #[trigger] b.key_of(b.order@[i]),
            #[trigger] b.key_of(b.order@[j]),
        ) == Ordering::Less by {
            assert(self.cmp.order(self.key_of(self.order@[i]), self.key_of(self.order@[j]))
                == Ordering::Less);
        }
        assert(b.entries() =~= self.entries());
    }

    /// The list after a node has been linked in at place `q`, just after `cur`.
    proof fn lemma_insert_wf(
        &self,
        s0: Self,
        prevs: Seq<Option<usize>>,
        cur: Option<usize>,
        key: Seq<u8>,
        val: Seq<u8>,
        h: int,
        new_links: Seq<Option<usize>>,
    )
        requires
            s0.wf(),
            s0.cmp.accepts(key),
            s0.is_ref(cur),
            -1 <= s0.place(cur) < s0.n(),
            forall|i: int|
                0 <= i <= s0.place(cur) ==> s0.cmp.order(#[trigger] s0.key_of(s0.order@[i]), key)
                    == Ordering::Less,
            1 <= h <= MAX_HEIGHT,
            prevs.len() == h,
            prevs[0] == cur,
            forall|l: int| 0 <= l < h ==> s0.recorded(#[trigger] prevs[l], l, cur, key),
            new_links.len() == MAX_HEIGHT,
            forall|l: int|
                0 <= l < MAX_HEIGHT ==> #[trigger] new_links[l] == if l < h {
                    s0.link(prevs[l], l)
                } else {
                    None
                },
            self.cmp == s0.cmp,
            self.keys@.len() == s0.n() + 1,
            forall|k: int| 0 <= k < s0.n() ==> #[trigger] self.keys@[k] == s0.keys@[k],
            self.keys@[s0.n()]@ == key,
            self.values@.len() == s0.n() + 1,
            forall|k: int| 0 <= k < s0.n() ==> #[trigger] self.values@[k] == s0.values@[k],
            self.values@[s0.n()]@ == val,
            self.heights@ == s0.heights@.push(h as usize),
            self.links@.len() == (s0.n() + 1) * MAX_HEIGHT,
            (s0.n() + 1) * MAX_HEIGHT <= usize::MAX,
            self.head@.len() == MAX_HEIGHT,
            forall|k: int, l: int|
                0 <= k < s0.n() && 0 <= l < MAX_HEIGHT ==> self.links@[#[trigger] slot(k, l)] == if l
                    < h && prevs[l] == Some(k as usize) {
                    Some(s0.n() as usize)
                } else {
                    s0.links@[slot(k, l)]
                },
            forall|l: int|
                0 <= l < MAX_HEIGHT ==> self.links@[#[trigger] slot(s0.n(), l)] == new_links[l],
            forall|l: int|
                0 <= l < MAX_HEIGHT ==> #[trigger] self.head@[l] == if l < h && prevs[l] is None {
                    Some(s0.n() as usize)
                } else {
                    s0.head@[l]
                },
            self.order@ == s0.order@.insert(s0.place(cur) + 1, s0.n()),
            self.pos@ == Seq::new(
                (s0.n() + 1) as nat,
                |k: int|
                    if k == s0.n() {
                        s0.place(cur) + 1
                    } else if s0.pos@[k] >= s0.place(cur) + 1 {
                        s0.pos@[k] + 1
                    } else {
                        s0.pos@[k]
                    },
            ),
        ensures
            self.wf(),
    {
        let n0 = s0.n();
        let q = s0.place(cur) + 1;
        let m = n0;
        assert(self.n() == n0 + 1);
        assert forall|k: int| 0 <= k < n0 + 1 implies 0 <= #[trigger] self.pos@[k] < n0 + 1
            && self.order@[self.pos@[k]] == k by {
            if k < n0 {
                assert(s0.order@[s0.pos@[k]] == k);
            }
        }
        assert forall|i: int| 0 <= i < n0 + 1 implies 0 <= #[trigger] self.order@[i] < n0 + 1
            && self.pos@[self.order@[i]] == i by {
            if i < q {
                assert(s0.pos@[s0.order@[i]] == i);
            } else if i > q {
                assert(s0.pos@[s0.order@[i - 1]] == i - 1);
            }
        }
        assert forall|k: int| 0 <= k < n0 + 1 implies 1 <= #[trigger] self.heights@[k]
            <= MAX_HEIGHT by {
            if k < n0 {
                assert(s0.heights@[k] == self.heights@[k]);
            }
        }
        assert forall|k: int| 0 <= k < n0 + 1 implies self.cmp.accepts(#[trigger] self.key_of(k))
            by {
            if k < n0 {
                assert(s0.cmp.accepts(s0.key_of(k)));
                assert(s0.key_of(k) == self.key_of(k));
            }
        }
        // Keys at old places keep their order; the new key sits between its neighbours.
        assert forall|i: int| 0 <= i < n0 + 1 implies #[trigger] self.key_of(self.order@[i]) == if i
            < q {
            s0.key_of(s0.order@[i])
        } else if i == q {
            key
        } else {
            s0.key_of(s0.order@[i - 1])
        } by {
            if i < q {
                assert(0 <= s0.order@[i] < n0);
            } else if i > q {
                assert(0 <= s0.order@[i - 1] < n0);
            }
        }
        if q < n0 {
            // The first key after the new one is above it.
            assert(s0.recorded(prevs[0], 0, cur, key));
            s0.lemma_link_facts(cur, 0);
            assert(s0.link(cur, 0) == Some(s0.order@[q] as usize));
            assert(0 <= s0.order@[q] < n0);
            assert(s0.cmp.order(s0.key_of(s0.order@[q]), key) == Ordering::Greater);
            s0.lemma_below_place(q, key);
        }
        assert forall|i: int, j: int| 0 <= i < j < n0 + 1 implies self.cmp.order(
            #[trigger] self.key_of(self.order@[i]),
            #[trigger] self.key_of(self.order@[j]),
        ) == Ordering::Less by {
            let ki = self.key_of(self.order@[i]);
            let kj = self.key_of(self.order@[j]);
            if i < q && j > q {
                s0.lemma_sorted_at(i, j - 1);
            } else if i == q {
                let kb = s0.key_of(s0.order@[j - 1]);
                assert(s0.cmp.order(kb, key) == Ordering::Greater);
                assert(s0.cmp.accepts(kb));
                s0.cmp.lemma_total_order(kb, key, key);
            } else if j == q {
            } else if j < q {
                s0.lemma_sorted_at(i, j);
            } else {
                s0.lemma_sorted_at(i - 1, j - 1);
            }
        }
        assert forall|c: Option<usize>, l: int|
            self.is_ref(c) && 0 <= l < self.height(c) implies #[trigger] self.link_ok(c, l) by {
            if c == Some(m as usize) {
                assert(self.link(c, l) == new_links[l]);
                assert(l < h);
                assert(s0.recorded(prevs[l], l, cur, key));
                s0.lemma_link_facts(prevs[l], l);
                if l == 0 {
                    if q < n0 {
                        assert(0 <= s0.order@[q] < n0);
                    }
                } else {
                    match s0.link(prevs[l], l) {
                        None => {},
                        Some(t) => {
                            s0.lemma_link_facts(Some(t), 0);
                            assert(s0.place(Some(t)) >= q);
                        },
                    }
                }
            } else {
                let p0 = s0.place(c);
                match c {
                    None => {},
                    Some(k) => {
                        assert(k < n0);
                        assert(self.link(c, l) == self.links@[slot(k as int, l)]);
                    },
                }
                assert(s0.is_ref(c));
                assert(self.height(c) == s0.height(c));
                s0.lemma_link_facts(c, l);
                if l < h && prevs[l] == c {
                    assert(s0.recorded(prevs[l], l, cur, key));
                    assert(self.link(c, l) == Some(m as usize));
                    assert(self.place(Some(m as usize)) == q);
                    if l == 0 {
                        assert(self.order@[q] == m);
                    }
                } else {
                    assert(self.link(c, l) == s0.link(c, l));
                    if l == 0 {
                        if c != cur {
                            match c {
                                None => {},
                                Some(k) => {
                                    match cur {
                                        None => {},
                                        Some(kc) => {
                                            assert(s0.order@[s0.pos@[k as int]] == k);
                                            assert(s0.order@[s0.pos@[kc as int]] == kc);
                                        },
                                    }
                                },
                            }
                            assert(p0 != q - 1);
                            if p0 + 1 < n0 {
                                assert(0 <= s0.order@[p0 + 1] < n0);
                            }
                        }
                    } else {
                        match s0.link(c, l) {
                            None => {},
                            Some(t) => {
                                assert(s0.place(Some(t)) > p0);
                            },
                        }
                    }
                }
            }
        }
    }

    /// Node `c`, recorded as the predecessor at level `l` while the walk stands at `cur`, is
    /// at or before `cur` and links at that level to nothing or to a key above `key`.
    closed spec fn recorded(&self, c: Option<usize>, l: int, cur: Option<usize>, key: Seq<u8>) -> bool {
        &&& self.is_ref(c)
        &&& l < self.height(c)
        &&& self.place(c) <= self.place(cur)
        &&& match self.link(c, l) {
            None => true,
            Some(t) => t < self.n() && self.cmp.order(self.key_of(t as int), key)
                == Ordering::Greater,
        }
    }

    /// Whether a key comparing equal to `key` is in the list.
    pub fn contains(&self, key: &[u8]) -> (r: bool)
        requires
            self.wf(),
            self.comparator().accepts(key@),
        ensures
            r == exists|i: int|
                0 <= i < self.entries().len() && self.comparator().order(
                    #[trigger] self.entries()[i].0,
                    key@,
                ) == Ordering::Equal,
    {
        match self.get_greater_or_equal(key) {
            None => {
                assert forall|i: int| 0 <= i < self.entries().len() implies self.comparator().order(
                    #[trigger] self.entries()[i].0,
                    key@,
                ) != Ordering::Equal by {
                    assert(self.entries()[i].0 == self.key_of(self.order@[i]));
                }
                false
            },
            Some(k) => {
                let o = self.cmp.cmp(self.keys[k].as_slice(), key);
                let p = Ghost(self.pos@[k as int]);
                proof {
                    self.lemma_below_place(p@, key@);
                    assert(self.entries()[p@].0 == self.key_of(k as int));
                }
                if matches!(o, Ordering::Equal) {
                    true
                } else {
                    assert forall|i: int|
                        0 <= i < self.entries().len() implies self.comparator().order(
                        #[trigger] self.entries()[i].0,
                        key@,
                    ) != Ordering::Equal by {
                        assert(self.entries()[i].0 == self.key_of(self.order@[i]));
                    }
                    false
                }
            },
        }
    }
}

impl<C: Cmp> SkipList<C> {
    /// A cursor over the list, before its first entry.
    pub fn iter(&self) -> (r: SkipListIter<'_, C>)
        requires
            self.wf(),
        ensures
            r.inv(),
            r.entries() == self.entries(),
            r.position().is_none(),
            r.key_order_is(self.comparator()),
            forall|k: Seq<u8>| #[trigger] r.seekable(k) == self.comparator().accepts(k),
    {
        SkipListIter { skip_list: self, cur: None }
    }
}

/// A cursor over a skip list.
pub struct SkipListIter<'a, C: Cmp> {
    skip_list: &'a SkipList<C>,
    cur: Option<usize>,
}

impl<'a, C: Cmp> SkipListIter<'a, C> {
    /// The cursor orders keys as `c` does.
    pub open spec fn key_order_is(&self, c: C) -> bool {
        forall|a: Seq<u8>, b: Seq<u8>| #[trigger] self.key_order(a, b) == c.order(a, b)
    }
}

impl<'a, C: Cmp> LdbIterator for SkipListIter<'a, C> {
    closed spec fn entries(&self) -> Seq<(Seq<u8>, Seq<u8>)> {
        self.skip_list.entries()
    }

    closed spec fn position(&self) -> Option<int> {
        match self.cur {
            None => None,
            Some(k) => Some(self.skip_list.pos@[k as int]),
        }
    }

    closed spec fn inv(&self) -> bool {
        &&& self.skip_list.wf()
        &&& self.skip_list.is_ref(self.cur)
    }

    closed spec fn key_order(&self, a: Seq<u8>, b: Seq<u8>) -> Ordering {
        self.skip_list.cmp.order(a, b)
    }

    closed spec fn seekable(&self, key: Seq<u8>) -> bool {
        self.skip_list.cmp.accepts(key)
    }

    fn advance(&mut self) -> (r: bool) {
        let next = self.skip_list.link_exec(self.cur, 0);
        proof {
            self.skip_list.lemma_link_facts(self.cur, 0);
            let q = self.skip_list.place(self.cur) + 1;
            if q < self.skip_list.n() {
                assert(0 <= self.skip_list.order@[q] < self.skip_list.n());
            }
        }
        self.cur = next;
        self.cur.is_some()
    }

    fn current(&self, key: &mut Vec<u8>, val: &mut Vec<u8>) -> (r: bool) {
        match self.cur {
            None => false,
            Some(k) => {
                *key = slice_to_vec(self.skip_list.keys[k].as_slice());
                *val = slice_to_vec(self.skip_list.values[k].as_slice());
                proof {
                    self.skip_list.lemma_link_facts(self.cur, 0);
                }
                true
            },
        }
    }

    fn seek(&mut self, key: &[u8]) {
        self.cur = self.skip_list.get_greater_or_equal(key);
        proof {
            let sl = self.skip_list;
            assert forall|i: int| 0 <= i < sl.n() implies #[trigger] sl.entries()[i].0 == sl.key_of(
                sl.order@[i],
            ) by {}
            if let Some(k) = self.cur {
                assert(sl.order@[sl.pos@[k as int]] == k);
            }
        }
    }

    fn reset(&mut self) {
        self.cur = None;
    }

    fn valid(&self) -> (r: bool) {
        proof {
            if let Some(k) = self.cur {
                assert(0 <= self.skip_list.pos@[k as int] < self.skip_list.n());
            }
        }
        self.cur.is_some()
    }

    fn prev(&mut self) -> (r: bool) {
        match self.cur {
            None => false,
            Some(k) => {
                let sl = self.skip_list;
                proof {
                    assert(sl.cmp.accepts(sl.key_of(k as int)));
                }
                let found = sl.get_last_smaller(sl.keys[k].as_slice());
                proof {
                    let p = sl.pos@[k as int];
                    assert(sl.order@[p] == k);
                    if p > 0 {
                        sl.lemma_sorted_at(p - 1, p);
                    }
                    match found {
                        None => {
                            if p > 0 {
                                assert(0 <= sl.order@[p - 1] < sl.n());
                            }
                        },
                        Some(f) => {
                            let pf = sl.pos@[f as int];
                            assert(sl.order@[pf] == f);
                            sl.lemma_sorted_at(pf, p);
                            if pf + 1 < p {
                                sl.lemma_sorted_at(pf + 1, p);
                            }
                        },
                    }
                }
                self.cur = found;
                self.cur.is_some()
            },
        }
    }
}

/// Where the level-`l` link of node `k` is kept.
pub open spec fn slot(k: int, l: int) -> int {
    k * MAX_HEIGHT + l
}

proof fn lemma_slot_inj(k1: int, l1: int, k2: int, l2: int)
    requires
        0 <= k1,
        0 <= k2,
        0 <= l1 < MAX_HEIGHT,
        0 <= l2 < MAX_HEIGHT,
    ensures
        slot(k1, l1) == slot(k2, l2) <==> (k1 == k2 && l1 == l2),
{
    assert(k1 * MAX_HEIGHT + l1 == k2 * MAX_HEIGHT + l2 ==> k1 == k2 && l1 == l2)
        by (nonlinear_arith)
        requires
            0 <= k1,
            0 <= k2,
            0 <= l1 < MAX_HEIGHT,
            0 <= l2 < MAX_HEIGHT,
    ;
}

proof fn lemma_index_bound(k: int, l: int, n: int)
    requires
        0 <= k < n,
        0 <= l < MAX_HEIGHT,
    ensures
        0 <= k * MAX_HEIGHT + l < n * MAX_HEIGHT,
{
    assert(0 <= k * MAX_HEIGHT + l < n * MAX_HEIGHT) by (nonlinear_arith)
        requires
            0 <= k < n,
            0 <= l < MAX_HEIGHT,
    ;
}

} // verus!
