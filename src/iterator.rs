use std::cmp::Ordering;
use vstd::prelude::*;

verus! {

/// Where `advance` moves a cursor: from before the first entry to the first one, from an entry
/// to the next one, and past the last one back to before the first.
pub open spec fn next_place(p: Option<int>, n: int) -> Option<int> {
    match p {
        None => if n > 0 {
            Some(0)
        } else {
            None
        },
        Some(i) => if i + 1 < n {
            Some(i + 1)
        } else {
            None
        },
    }
}

/// Where `prev` moves a cursor: to the entry before, or before the first one.
pub open spec fn prev_place(p: Option<int>) -> Option<int> {
    match p {
        None => None,
        Some(i) => if i > 0 {
            Some(i - 1)
        } else {
            None
        },
    }
}

pub open spec fn place_ok(p: Option<int>, n: int) -> bool {
    match p {
        None => true,
        Some(i) => 0 <= i < n,
    }
}

/// A cursor over a sorted source of key/value entries. A cursor starts before the first
/// entry, where it is not valid.
pub trait LdbIterator {
    /// The entries of the source, in order.
    spec fn entries(&self) -> Seq<(Seq<u8>, Seq<u8>)>;

    /// The place of the cursor among the entries, or `None` before the first one.
    spec fn position(&self) -> Option<int>;

    /// Whether the cursor is in a usable state.
    spec fn inv(&self) -> bool;

    /// The order the entries are sorted by.
    spec fn key_order(&self, a: Seq<u8>, b: Seq<u8>) -> Ordering;

    /// The keys `seek` takes.
    spec fn seekable(&self, key: Seq<u8>) -> bool;

    /// Moves to the next entry; `false`, and not valid, past the last one.
    fn advance(&mut self) -> (r: bool)
        requires
            old(self).inv(),
        ensures
            final(self).inv(),
            final(self).entries() == old(self).entries(),
            forall|a: Seq<u8>, b: Seq<u8>|
                #[trigger] final(self).key_order(a, b) == old(self).key_order(a, b),
            forall|k: Seq<u8>| #[trigger] final(self).seekable(k) == old(self).seekable(k),
            final(self).position() == next_place(old(self).position(), old(self).entries().len() as int),
            r == final(self).position().is_some(),
    ;

    /// Copies out the entry at the cursor, if it is valid.
    fn current(&self, key: &mut Vec<u8>, val: &mut Vec<u8>) -> (r: bool)
        requires
            self.inv(),
        ensures
            r == self.position().is_some(),
            r ==> final(key)@ == self.entries()[self.position().unwrap()].0 && final(val)@
                == self.entries()[self.position().unwrap()].1,
            !r ==> final(key)@ == old(key)@ && final(val)@ == old(val)@,
    ;

    /// Moves to the first entry whose key is not below `key`, or before the first entry if
    /// there is none.
    fn seek(&mut self, key: &[u8])
        requires
            old(self).inv(),
            old(self).seekable(key@),
        ensures
            final(self).inv(),
            final(self).entries() == old(self).entries(),
            forall|a: Seq<u8>, b: Seq<u8>|
                #[trigger] final(self).key_order(a, b) == old(self).key_order(a, b),
            forall|k: Seq<u8>| #[trigger] final(self).seekable(k) == old(self).seekable(k),
            match final(self).position() {
                None => forall|i: int|
                    0 <= i < final(self).entries().len() ==> final(self).key_order(
                        #[trigger] final(self).entries()[i].0,
                        key@,
                    ) == Ordering::Less,
                Some(p) => 0 <= p < final(self).entries().len() && final(self).key_order(
                    final(self).entries()[p].0,
                    key@,
                ) != Ordering::Less && forall|i: int|
                    0 <= i < p ==> final(self).key_order(
                        #[trigger] final(self).entries()[i].0,
                        key@,
                    ) == Ordering::Less,
            },
    ;

    /// Moves before the first entry.
    fn reset(&mut self)
        requires
            old(self).inv(),
        ensures
            final(self).inv(),
            final(self).entries() == old(self).entries(),
            forall|a: Seq<u8>, b: Seq<u8>|
                #[trigger] final(self).key_order(a, b) == old(self).key_order(a, b),
            forall|k: Seq<u8>| #[trigger] final(self).seekable(k) == old(self).seekable(k),
            final(self).position().is_none(),
    ;

    /// Whether the cursor is at an entry.
    fn valid(&self) -> (r: bool)
        requires
            self.inv(),
        ensures
            r == self.position().is_some(),
            place_ok(self.position(), self.entries().len() as int),
    ;

    /// Moves to the entry before; `false`, and not valid, before the first one.
    fn prev(&mut self) -> (r: bool)
        requires
            old(self).inv(),
        ensures
            final(self).inv(),
            final(self).entries() == old(self).entries(),
            forall|a: Seq<u8>, b: Seq<u8>|
                #[trigger] final(self).key_order(a, b) == old(self).key_order(a, b),
            forall|k: Seq<u8>| #[trigger] final(self).seekable(k) == old(self).seekable(k),
            final(self).position() == prev_place(old(self).position()),
            r == final(self).position().is_some(),
    ;

    /// Advances, and copies out the entry reached.
    fn next(&mut self) -> (r: Option<(Vec<u8>, Vec<u8>)>)
        requires
            old(self).inv(),
        ensures
            final(self).inv(),
            final(self).entries() == old(self).entries(),
            forall|a: Seq<u8>, b: Seq<u8>|
                #[trigger] final(self).key_order(a, b) == old(self).key_order(a, b),
            forall|k: Seq<u8>| #[trigger] final(self).seekable(k) == old(self).seekable(k),
            final(self).position() == next_place(old(self).position(), old(self).entries().len() as int),
            match r {
                None => final(self).position().is_none(),
                Some(e) => final(self).position().is_some()
                    && e.0@ == final(self).entries()[final(self).position().unwrap()].0
                    && e.1@ == final(self).entries()[final(self).position().unwrap()].1,
            },
    {
        if !self.advance() {
            return None;
        }
        let mut key: Vec<u8> = Vec::new();
        let mut val: Vec<u8> = Vec::new();
        if self.current(&mut key, &mut val) {
            Some((key, val))
        } else {
            None
        }
    }

    /// Moves to the first entry, if there is one.
    fn seek_to_first(&mut self)
        requires
            old(self).inv(),
        ensures
            final(self).inv(),
            final(self).entries() == old(self).entries(),
            forall|a: Seq<u8>, b: Seq<u8>|
                #[trigger] final(self).key_order(a, b) == old(self).key_order(a, b),
            forall|k: Seq<u8>| #[trigger] final(self).seekable(k) == old(self).seekable(k),
            final(self).position() == next_place(None, old(self).entries().len() as int),
    {
        self.reset();
        self.advance();
    }
}

} // verus!

verus! {

/// The place reached by `k` calls of `advance` from place `p` over `n` entries.
pub open spec fn advanced(p: Option<int>, n: int, k: nat) -> Option<int>
    decreases k,
{
    if k == 0 {
        p
    } else {
        next_place(advanced(p, n, (k - 1) as nat), n)
    }
}

/// A scan from before the first entry visits the entries in their order, each once: the
/// `k + 1`-th advance reaches place `k`, and the advance after the last entry leaves the
/// cursor not valid.
pub proof fn lemma_scan_visits_in_order(n: int, k: nat)
    requires
        0 <= n,
    ensures
        k < n ==> advanced(None, n, k + 1) == Some(k as int),
        k == n ==> advanced(None, n, k + 1) is None,
    decreases k,
{
    assert(advanced(None, n, k + 1) == next_place(advanced(None, n, k), n));
    if k > 0 {
        lemma_scan_visits_in_order(n, (k - 1) as nat);
        assert(((k - 1) as nat) + 1 == k);
    }
}

} // verus!
