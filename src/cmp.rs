use std::cmp::Ordering;
use vstd::prelude::*;
use vstd::slice::{slice_subrange, slice_to_vec};
use crate::ktypes::{
    build_internal_key, cmp_internal_key, cmp_mem_key, ik_seq, ik_type, ik_user_key, internal_key_bytes,
    is_internal_key, is_mem_key, lemma_internal_key_parts, mk_tag, mk_user_key, parse_internal_key,
    tag_seq, MAX_SEQUENCE_NUMBER,
};

verus! {

/// The reverse of an ordering.
pub open spec fn flip(o: Ordering) -> Ordering {
    match o {
        Ordering::Less => Ordering::Greater,
        Ordering::Equal => Ordering::Equal,
        Ordering::Greater => Ordering::Less,
    }
}

/// Ties on the user key go to the higher sequence number, which sorts first.
pub open spec fn then_seq(o: Ordering, a_seq: u64, b_seq: u64) -> Ordering {
    match o {
        Ordering::Equal => if a_seq > b_seq {
            Ordering::Less
        } else if a_seq < b_seq {
            Ordering::Greater
        } else {
            Ordering::Equal
        },
        _ => o,
    }
}

pub fn order_then_seq(o: Ordering, a_seq: u64, b_seq: u64) -> (r: Ordering)
    ensures
        r == then_seq(o, a_seq, b_seq),
{
    match o {
        Ordering::Less => Ordering::Less,
        Ordering::Greater => Ordering::Greater,
        Ordering::Equal => {
            if a_seq > b_seq {
                Ordering::Less
            } else if a_seq < b_seq {
                Ordering::Greater
            } else {
                Ordering::Equal
            }
        },
    }
}

/// A total order on byte strings, possibly layered on an inner comparator.
pub trait Cmp {
    /// The byte strings this comparator can interpret.
    spec fn accepts(&self, k: Seq<u8>) -> bool;

    /// How `cmp` orders two accepted byte strings.
    spec fn order(&self, a: Seq<u8>, b: Seq<u8>) -> Ordering;

    /// Whether separators and successors can be computed on this encoding.
    spec fn shortens(&self) -> bool;

    /// What `find_shortest_sep` returns.
    spec fn separator(&self, from: Seq<u8>, to: Seq<u8>) -> Seq<u8>;

    /// What `find_short_succ` returns.
    spec fn successor(&self, a: Seq<u8>) -> Seq<u8>;

    /// `order` is a total preorder on accepted strings.
    proof fn lemma_total_order(&self, a: Seq<u8>, b: Seq<u8>, c: Seq<u8>)
        requires
            self.accepts(a),
            self.accepts(b),
            self.accepts(c),
        ensures
            self.order(a, a) == Ordering::Equal,
            self.order(b, a) == flip(self.order(a, b)),
            (self.order(a, b) != Ordering::Greater && self.order(b, c) != Ordering::Greater)
                ==> self.order(a, c) != Ordering::Greater,
            (self.order(a, b) == Ordering::Less && self.order(b, c) != Ordering::Greater)
                ==> self.order(a, c) == Ordering::Less,
            (self.order(a, b) != Ordering::Greater && self.order(b, c) == Ordering::Less)
                ==> self.order(a, c) == Ordering::Less,
    ;

    /// Compares two byte strings.
    fn cmp(&self, a: &[u8], b: &[u8]) -> (r: Ordering)
        requires
            self.accepts(a@),
            self.accepts(b@),
        ensures
            r == self.order(a@, b@),
    ;

    /// A short string between `from` and `to`.
    fn find_shortest_sep(&self, from: &[u8], to: &[u8]) -> (r: Vec<u8>)
        requires
            self.shortens(),
            self.accepts(from@),
            self.accepts(to@),
            self.order(from@, to@) != Ordering::Greater,
        ensures
            r@ == self.separator(from@, to@),
            self.accepts(r@),
    ;

    /// A short string greater than `a`.
    fn find_short_succ(&self, a: &[u8]) -> (r: Vec<u8>)
        requires
            self.shortens(),
            self.accepts(a@),
        ensures
            r@ == self.successor(a@),
            self.accepts(r@),
    ;

    /// The name of the ordering.
    spec fn id_spec(&self) -> Seq<char>;

    /// Names the ordering, so that stored data is only read back under the same one.
    fn id(&self) -> (r: &'static str)
        ensures
            r@ == self.id_spec(),
    ;
}

/// How bytewise comparison goes from position `i` on.
pub open spec fn lex_at(a: Seq<u8>, b: Seq<u8>, i: int) -> Ordering
    decreases a.len() - i,
{
    if i >= a.len() && i >= b.len() {
        Ordering::Equal
    } else if i >= a.len() {
        Ordering::Less
    } else if i >= b.len() {
        Ordering::Greater
    } else if a[i] < b[i] {
        Ordering::Less
    } else if a[i] > b[i] {
        Ordering::Greater
    } else {
        lex_at(a, b, i + 1)
    }
}

/// Lexicographic order of byte strings.
pub open spec fn lex(a: Seq<u8>, b: Seq<u8>) -> Ordering {
    lex_at(a, b, 0)
}

/// The first position from `i` on where `a` and `b` differ, or the end of the shorter one.
pub open spec fn diff_at(a: Seq<u8>, b: Seq<u8>, i: int) -> int
    decreases a.len() - i,
{
    if 0 <= i < a.len() && i < b.len() && a[i] == b[i] {
        diff_at(a, b, i + 1)
    } else {
        i
    }
}

/// The last position at or before `j` whose byte is not 0xff, or -1.
pub open spec fn last_non_ff(a: Seq<u8>, j: int) -> int
    decreases j + 1,
{
    if j < 0 {
        -1
    } else if a[j] != 0xff {
        j
    } else {
        last_non_ff(a, j - 1)
    }
}

/// `a` with its last byte below 0xff raised by one.
pub open spec fn bump_last(a: Seq<u8>) -> Seq<u8> {
    let j = last_non_ff(a, a.len() - 1);
    a.update(j, (a[j] + 1) as u8)
}

/// The length of the run of 0xff bytes from position `i` on.
pub open spec fn ff_prefix_len(a: Seq<u8>, i: int) -> int
    decreases a.len() - i,
{
    if 0 <= i < a.len() && a[i] == 0xff {
        ff_prefix_len(a, i + 1)
    } else {
        i
    }
}

/// The short separator of `from` and `to` under bytewise order: `from` itself when they are
/// equal; else `from` cut after the first differing byte, raised by one, when that byte can be
/// raised and stay below `to`'s; else `from` with its last byte below 0xff raised, when that
/// sorts before `to`; else `from` with a zero byte appended.
pub open spec fn short_sep(from: Seq<u8>, to: Seq<u8>) -> Seq<u8> {
    let d = diff_at(from, to, 0);
    if from == to {
        from
    } else if d < from.len() && d < to.len() && from[d] < 0xff && from[d] + 1 < to[d] {
        from.subrange(0, d).push((from[d] + 1) as u8)
    } else if from.len() > 0 && last_non_ff(from, from.len() - 1) >= 0 && lex(bump_last(from), to)
        == Ordering::Less {
        bump_last(from)
    } else {
        from.push(0)
    }
}

/// The short successor of `a`: its leading 0xff bytes followed by the next byte raised by one,
/// or, when `a` is all 0xff, `a` with one more 0xff byte.
pub open spec fn short_succ(a: Seq<u8>) -> Seq<u8> {
    let p = ff_prefix_len(a, 0);
    if p == a.len() {
        a.push(0xff)
    } else {
        a.subrange(0, p).push((a[p] + 1) as u8)
    }
}

/// Bytewise comparison.
pub struct DefaultCmp;

impl Cmp for DefaultCmp {
    open spec fn accepts(&self, k: Seq<u8>) -> bool {
        true
    }

    open spec fn order(&self, a: Seq<u8>, b: Seq<u8>) -> Ordering {
        lex(a, b)
    }

    open spec fn shortens(&self) -> bool {
        true
    }

    open spec fn separator(&self, from: Seq<u8>, to: Seq<u8>) -> Seq<u8> {
        short_sep(from, to)
    }

    open spec fn successor(&self, a: Seq<u8>) -> Seq<u8> {
        short_succ(a)
    }

    open spec fn id_spec(&self) -> Seq<char> {
        "fundb.BytewiseCmp"@
    }

    proof fn lemma_total_order(&self, a: Seq<u8>, b: Seq<u8>, c: Seq<u8>) {
        lemma_lex_total(a, b, c, 0);
    }

    fn cmp(&self, a: &[u8], b: &[u8]) -> (r: Ordering) {
        let mut i: usize = 0;
        while i < a.len() && i < b.len() && a[i] == b[i]
            invariant
                i <= a@.len(),
                i <= b@.len(),
                lex_at(a@, b@, 0) == lex_at(a@, b@, i as int),
            decreases a@.len() - i,
        {
            i += 1;
        }
        if i == a.len() && i == b.len() {
            Ordering::Equal
        } else if i == a.len() {
            Ordering::Less
        } else if i == b.len() {
            Ordering::Greater
        } else if a[i] < b[i] {
            Ordering::Less
        } else {
            Ordering::Greater
        }
    }

    fn find_shortest_sep(&self, from: &[u8], to: &[u8]) -> (r: Vec<u8>) {
        if matches!(self.cmp(from, to), Ordering::Equal) {
            proof {
                assert(from@.subrange(0, 0) =~= to@.subrange(0, 0));
                lemma_lex_equal(from@, to@, 0);
            }
            return slice_to_vec(from);
        }
        proof {
            if from@ == to@ {
                lemma_lex_total(from@, from@, from@, 0);
            }
        }
        let mut d: usize = 0;
        while d < from.len() && d < to.len() && from[d] == to[d]
            invariant
                d <= from@.len(),
                d <= to@.len(),
                diff_at(from@, to@, 0) == diff_at(from@, to@, d as int),
            decreases from@.len() - d,
        {
            d += 1;
        }
        // First, a separator cut just after the first differing byte.
        if d < from.len() && d < to.len() && from[d] < 0xff && from[d] + 1 < to[d] {
            let mut sep = slice_to_vec(slice_subrange(from, 0, d));
            sep.push(from[d] + 1);
            return sep;
        }
        // Then `from` with its last byte below 0xff raised by one, if that stays below `to`.
        if from.len() > 0 {
            let mut i: usize = from.len() - 1;
            while i > 0 && from[i] == 0xff
                invariant
                    i < from@.len(),
                    last_non_ff(from@, from@.len() - 1) == last_non_ff(from@, i as int),
                decreases i,
            {
                i -= 1;
            }
            proof {
                if i == 0 && from@[0] == 0xff {
                    assert(last_non_ff(from@, -1) == -1);
                }
            }
            if from[i] < 0xff {
                let mut bumped = slice_to_vec(from);
                bumped.set(i, from[i] + 1);
                assert(bumped@ == bump_last(from@));
                if matches!(self.cmp(bumped.as_slice(), to), Ordering::Less) {
                    return bumped;
                }
            }
        }
        // Backup: `from` with a zero byte appended, which sorts just after it.
        let mut sep = slice_to_vec(from);
        sep.push(0);
        sep
    }

    fn find_short_succ(&self, a: &[u8]) -> (r: Vec<u8>) {
        let mut result: Vec<u8> = Vec::new();
        let mut i: usize = 0;
        while i < a.len() && a[i] == 0xff
            invariant
                i <= a@.len(),
                result@ == a@.subrange(0, i as int),
                ff_prefix_len(a@, 0) == ff_prefix_len(a@, i as int),
            decreases a@.len() - i,
        {
            result.push(0xff);
            i += 1;
            assert(result@ =~= a@.subrange(0, i as int));
        }
        if i == a.len() {
            result.push(0xff);
        } else {
            result.push(a[i] + 1);
        }
        proof {
            if i == a@.len() {
                assert(a@.subrange(0, i as int) =~= a@);
            }
        }
        result
    }

    fn id(&self) -> (r: &'static str) {
        proof {
            reveal_strlit("fundb.BytewiseCmp");
        }
        "fundb.BytewiseCmp"
    }
}

/// Bytewise order from position `i` on is reflexive and antisymmetric.
pub proof fn lemma_lex_flip(a: Seq<u8>, b: Seq<u8>, i: int)
    requires
        0 <= i,
    ensures
        lex_at(a, a, i) == Ordering::Equal,
        lex_at(b, a, i) == flip(lex_at(a, b, i)),
    decreases a.len() - i,
{
    if i < a.len() {
        lemma_lex_flip(a, b, i + 1);
    }
}

/// Bytewise order from position `i` on is a total order.
pub proof fn lemma_lex_total(a: Seq<u8>, b: Seq<u8>, c: Seq<u8>, i: int)
    requires
        0 <= i,
    ensures
        lex_at(a, a, i) == Ordering::Equal,
        lex_at(b, a, i) == flip(lex_at(a, b, i)),
        (lex_at(a, b, i) != Ordering::Greater && lex_at(b, c, i) != Ordering::Greater)
            ==> lex_at(a, c, i) != Ordering::Greater,
        (lex_at(a, b, i) == Ordering::Less && lex_at(b, c, i) != Ordering::Greater) ==> lex_at(
            a,
            c,
            i,
        ) == Ordering::Less,
        (lex_at(a, b, i) != Ordering::Greater && lex_at(b, c, i) == Ordering::Less) ==> lex_at(
            a,
            c,
            i,
        ) == Ordering::Less,
    decreases a.len() - i,
{
    lemma_lex_flip(a, b, i);
    if i < a.len() && i < b.len() && i < c.len() {
        lemma_lex_total(a, b, c, i + 1);
    }
}

/// Bytewise order equal means the same bytes.
pub proof fn lemma_lex_equal(a: Seq<u8>, b: Seq<u8>, i: int)
    requires
        0 <= i <= a.len(),
        0 <= i <= b.len(),
        a.subrange(0, i) == b.subrange(0, i),
        lex_at(a, b, i) == Ordering::Equal,
    ensures
        a == b,
    decreases a.len() - i,
{
    if i < a.len() {
        assert(a.subrange(0, i + 1) == a.subrange(0, i).push(a[i]));
        assert(b.subrange(0, i + 1) == b.subrange(0, i).push(b[i]));
        lemma_lex_equal(a, b, i + 1);
    } else {
        assert(a == a.subrange(0, i));
        assert(b == b.subrange(0, i));
    }
}

} // verus!

verus! {

/// Whether two byte strings hold the same bytes.
pub fn bytes_eq(a: &[u8], b: &[u8]) -> (r: bool)
    ensures
        r == (a@ == b@),
{
    if a.len() != b.len() {
        return false;
    }
    let mut i: usize = 0;
    while i < a.len()
        invariant
            i <= a@.len(),
            a@.len() == b@.len(),
            a@.subrange(0, i as int) == b@.subrange(0, i as int),
        decreases a@.len() - i,
    {
        if a[i] != b[i] {
            return false;
        }
        assert(a@.subrange(0, i + 1) == a@.subrange(0, i as int).push(a@[i as int]));
        assert(b@.subrange(0, i + 1) == b@.subrange(0, i as int).push(b@[i as int]));
        i += 1;
    }
    assert(a@ == a@.subrange(0, i as int));
    assert(b@ == b@.subrange(0, i as int));
    true
}

/// Orders internal keys: by user key under the inner comparator, then newest first.
pub struct InternalKeyCmp<C: Cmp>(pub C);

impl<C: Cmp> Cmp for InternalKeyCmp<C> {
    open spec fn accepts(&self, k: Seq<u8>) -> bool {
        is_internal_key(k) && self.0.accepts(ik_user_key(k))
    }

    open spec fn order(&self, a: Seq<u8>, b: Seq<u8>) -> Ordering {
        then_seq(self.0.order(ik_user_key(a), ik_user_key(b)), ik_seq(a), ik_seq(b))
    }

    open spec fn shortens(&self) -> bool {
        self.0.shortens()
    }

    /// The inner separator of the user keys, tagged with the highest sequence number when it
    /// is shorter than and above `from`'s user key, else with `from`'s sequence number.
    open spec fn separator(&self, from: Seq<u8>, to: Seq<u8>) -> Seq<u8> {
        let ua = ik_user_key(from);
        let sep = self.0.separator(ua, ik_user_key(to));
        if from == to {
            from
        } else if sep.len() < ua.len() && self.0.order(ua, sep) == Ordering::Less {
            internal_key_bytes(sep, MAX_SEQUENCE_NUMBER, ik_type(from))
        } else {
            internal_key_bytes(sep, ik_seq(from), ik_type(from))
        }
    }

    open spec fn successor(&self, a: Seq<u8>) -> Seq<u8> {
        internal_key_bytes(self.0.successor(ik_user_key(a)), ik_seq(a), ik_type(a))
    }

    open spec fn id_spec(&self) -> Seq<char> {
        self.0.id_spec()
    }

    proof fn lemma_total_order(&self, a: Seq<u8>, b: Seq<u8>, c: Seq<u8>) {
        self.0.lemma_total_order(ik_user_key(a), ik_user_key(b), ik_user_key(c));
    }

    fn cmp(&self, a: &[u8], b: &[u8]) -> (r: Ordering) {
        cmp_internal_key(&self.0, a, b)
    }

    fn find_shortest_sep(&self, a: &[u8], b: &[u8]) -> (r: Vec<u8>) {
        if bytes_eq(a, b) {
            return slice_to_vec(a);
        }
        let (key_a, seq_a, tpa) = parse_internal_key(a);
        let (key_b, _, _) = parse_internal_key(b);
        let sep = self.0.find_shortest_sep(key_a, key_b);
        if sep.len() < key_a.len() && matches!(
            self.0.cmp(key_a, sep.as_slice()),
            Ordering::Less
        ) {
            proof {
                lemma_internal_key_parts(sep@, MAX_SEQUENCE_NUMBER, tpa);
            }
            return build_internal_key(sep.as_slice(), MAX_SEQUENCE_NUMBER, tpa);
        }
        proof {
            lemma_internal_key_parts(sep@, seq_a, tpa);
        }
        build_internal_key(sep.as_slice(), seq_a, tpa)
    }

    fn find_short_succ(&self, a: &[u8]) -> (r: Vec<u8>) {
        let (key, seq, typ) = parse_internal_key(a);
        let succ = self.0.find_short_succ(key);
        proof {
            lemma_internal_key_parts(succ@, seq, typ);
        }
        build_internal_key(succ.as_slice(), seq, typ)
    }

    fn id(&self) -> (r: &'static str) {
        self.0.id()
    }
}

/// Orders memtable keys as their internal keys are ordered. Separators and successors are
/// not defined on this encoding, whose values are interleaved with the keys.
pub struct MemKeyCmp<C: Cmp>(pub C);

impl<C: Cmp> Cmp for MemKeyCmp<C> {
    open spec fn accepts(&self, k: Seq<u8>) -> bool {
        is_mem_key(k) && self.0.accepts(mk_user_key(k))
    }

    open spec fn order(&self, a: Seq<u8>, b: Seq<u8>) -> Ordering {
        then_seq(
            self.0.order(mk_user_key(a), mk_user_key(b)),
            tag_seq(mk_tag(a)),
            tag_seq(mk_tag(b)),
        )
    }

    open spec fn shortens(&self) -> bool {
        false
    }

    open spec fn separator(&self, from: Seq<u8>, to: Seq<u8>) -> Seq<u8> {
        Seq::empty()
    }

    open spec fn successor(&self, a: Seq<u8>) -> Seq<u8> {
        Seq::empty()
    }

    open spec fn id_spec(&self) -> Seq<char> {
        self.0.id_spec()
    }

    proof fn lemma_total_order(&self, a: Seq<u8>, b: Seq<u8>, c: Seq<u8>) {
        self.0.lemma_total_order(mk_user_key(a), mk_user_key(b), mk_user_key(c));
    }

    fn cmp(&self, a: &[u8], b: &[u8]) -> (r: Ordering) {
        cmp_mem_key(&self.0, a, b)
    }

    /// Not callable: `shortens` is false for memtable keys.
    fn find_short_succ(&self, a: &[u8]) -> (r: Vec<u8>) {
        Vec::new()
    }

    /// Not callable: `shortens` is false for memtable keys.
    fn find_shortest_sep(&self, from: &[u8], to: &[u8]) -> (r: Vec<u8>) {
        Vec::new()
    }

    fn id(&self) -> (r: &'static str) {
        self.0.id()
    }
}

} // verus!

verus! {

/// Bytewise order is a total order: reflexive, antisymmetric and transitive.
pub proof fn lemma_bytewise_total_order(a: Seq<u8>, b: Seq<u8>, c: Seq<u8>)
    ensures
        lex(a, a) == Ordering::Equal,
        lex(b, a) == flip(lex(a, b)),
        lex(a, b) == Ordering::Equal <==> a == b,
        (lex(a, b) == Ordering::Less && lex(b, c) == Ordering::Less) ==> lex(a, c)
            == Ordering::Less,
{
    lemma_lex_total(a, b, c, 0);
    if lex(a, b) == Ordering::Equal {
        assert(a.subrange(0, 0) =~= b.subrange(0, 0));
        lemma_lex_equal(a, b, 0);
    }
}

/// Comparison from `i` on is decided at `d` when the bytes between agree.
proof fn lemma_lex_skip(a: Seq<u8>, b: Seq<u8>, i: int, d: int)
    requires
        0 <= i <= d,
        d <= a.len(),
        d <= b.len(),
        forall|k: int| i <= k < d ==> a[k] == b[k],
    ensures
        lex_at(a, b, i) == lex_at(a, b, d),
    decreases d - i,
{
    if i < d {
        lemma_lex_skip(a, b, i + 1, d);
    }
}

proof fn lemma_diff_at(a: Seq<u8>, b: Seq<u8>, i: int)
    requires
        0 <= i <= a.len(),
        i <= b.len(),
    ensures
        i <= diff_at(a, b, i) <= a.len(),
        diff_at(a, b, i) <= b.len(),
        forall|k: int| i <= k < diff_at(a, b, i) ==> a[k] == b[k],
        diff_at(a, b, i) < a.len() && diff_at(a, b, i) < b.len() ==> a[diff_at(a, b, i)] != b[diff_at(
            a,
            b,
            i,
        )],
    decreases a.len() - i,
{
    if i < a.len() && i < b.len() && a[i] == b[i] {
        lemma_diff_at(a, b, i + 1);
    }
}

proof fn lemma_last_non_ff(a: Seq<u8>, j: int)
    requires
        -1 <= j < a.len(),
    ensures
        -1 <= last_non_ff(a, j) <= j,
        last_non_ff(a, j) >= 0 ==> a[last_non_ff(a, j)] != 0xff,
    decreases j + 1,
{
    if j >= 0 && a[j] == 0xff {
        lemma_last_non_ff(a, j - 1);
    }
}

proof fn lemma_ff_prefix_len(a: Seq<u8>, i: int)
    requires
        0 <= i <= a.len(),
    ensures
        i <= ff_prefix_len(a, i) <= a.len(),
        forall|k: int| i <= k < ff_prefix_len(a, i) ==> a[k] == 0xff,
        ff_prefix_len(a, i) < a.len() ==> a[ff_prefix_len(a, i)] != 0xff,
    decreases a.len() - i,
{
    if i < a.len() && a[i] == 0xff {
        lemma_ff_prefix_len(a, i + 1);
    }
}

/// A proper prefix sorts first.
proof fn lemma_lex_prefix(a: Seq<u8>, b: Seq<u8>)
    requires
        a.len() < b.len(),
        forall|k: int| 0 <= k < a.len() ==> a[k] == b[k],
    ensures
        lex(a, b) == Ordering::Less,
{
    lemma_lex_skip(a, b, 0, a.len() as int);
}

/// The separator of `from` and `to` lies between them: not below `from`, not above `to`,
/// and below `to` whenever `from` is, except where `to` is `from` with a zero byte appended,
/// where no string lies strictly between.
pub proof fn lemma_separator_bounds(from: Seq<u8>, to: Seq<u8>)
    requires
        lex(from, to) != Ordering::Greater,
    ensures
        lex(from, short_sep(from, to)) != Ordering::Greater,
        lex(short_sep(from, to), to) != Ordering::Greater,
        lex(from, to) == Ordering::Less && to != from.push(0) ==> lex(short_sep(from, to), to)
            == Ordering::Less,
{
    let s = short_sep(from, to);
    lemma_bytewise_total_order(from, to, to);
    if from != to {
        lemma_separator_between(from, to);
    }
}

proof fn lemma_separator_between(from: Seq<u8>, to: Seq<u8>)
    requires
        lex(from, to) == Ordering::Less,
        from != to,
    ensures
        lex(from, short_sep(from, to)) != Ordering::Greater,
        lex(short_sep(from, to), to) != Ordering::Greater,
        to != from.push(0) ==> lex(short_sep(from, to), to) == Ordering::Less,
{
    let s = short_sep(from, to);
    let d = diff_at(from, to, 0);
    lemma_diff_at(from, to, 0);
    lemma_lex_skip(from, to, 0, d);
    if d < from.len() && d < to.len() && from[d] < 0xff && from[d] + 1 < to[d] {
        lemma_lex_skip(from, s, 0, d);
        lemma_lex_skip(s, to, 0, d);
    } else if from.len() > 0 && last_non_ff(from, from.len() - 1) >= 0 && lex(bump_last(from), to)
        == Ordering::Less {
        let j = last_non_ff(from, from.len() - 1);
        lemma_last_non_ff(from, from.len() - 1);
        lemma_lex_skip(from, s, 0, j);
    } else {
        lemma_lex_prefix(from, s);
        if d < from.len() {
            lemma_lex_skip(s, to, 0, d);
        } else {
            let n = from.len() as int;
            if to[n] == 0 && to.len() > n + 1 {
                lemma_lex_prefix(s, to);
            } else if to[n] == 0 {
                assert(to =~= s);
                lemma_bytewise_total_order(s, s, s);
            } else {
                lemma_lex_skip(s, to, 0, n);
            }
        }
    }
}

/// The successor of a key sorts after it.
pub proof fn lemma_successor_greater(a: Seq<u8>)
    ensures
        lex(a, short_succ(a)) == Ordering::Less,
{
    let p = ff_prefix_len(a, 0);
    lemma_ff_prefix_len(a, 0);
    if p == a.len() {
        lemma_lex_prefix(a, short_succ(a));
    } else {
        lemma_lex_skip(a, short_succ(a), 0, p);
    }
}

/// For internal keys with equal user keys, the one with the higher sequence number sorts
/// first.
pub proof fn lemma_newer_sorts_first<C: Cmp>(c: InternalKeyCmp<C>, a: Seq<u8>, b: Seq<u8>)
    requires
        c.accepts(a),
        c.accepts(b),
        c.0.order(ik_user_key(a), ik_user_key(b)) == Ordering::Equal,
        ik_seq(a) > ik_seq(b),
    ensures
        c.order(a, b) == Ordering::Less,
        c.order(b, a) == Ordering::Greater,
{
    c.0.lemma_total_order(ik_user_key(a), ik_user_key(b), ik_user_key(b));
}

} // verus!
