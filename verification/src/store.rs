//! The ordered key-value store that holds task records.
//!
//! Entries are kept sorted by strict lexicographic key order, the order a
//! persistent store with byte-ordered keys exhibits, so a prefix describes
//! one contiguous run of entries. The store's abstract state is a map from
//! keys to values; batched operations apply to it as one unit.
use vstd::prelude::*;
use vstd::utf8::char_u32_cast;

verus! {

/// Strict lexicographic order on character sequences by scalar value.
pub open spec fn lex_lt(a: Seq<char>, b: Seq<char>) -> bool
    decreases a.len(),
{
    if b.len() == 0 {
        false
    } else if a.len() == 0 {
        true
    } else if (a[0] as u32) < (b[0] as u32) {
        true
    } else if (a[0] as u32) > (b[0] as u32) {
        false
    } else {
        lex_lt(a.drop_first(), b.drop_first())
    }
}

pub proof fn lemma_lex_asym(a: Seq<char>, b: Seq<char>)
    ensures
        lex_lt(a, b) ==> !lex_lt(b, a),
        lex_lt(a, b) ==> a != b,
    decreases a.len(),
{
    if a.len() > 0 && b.len() > 0 && (a[0] as u32) == (b[0] as u32) {
        lemma_lex_asym(a.drop_first(), b.drop_first());
        if lex_lt(a, b) && a == b {
            assert(a.drop_first() == b.drop_first());
        }
    }
}

pub proof fn lemma_lex_connex(a: Seq<char>, b: Seq<char>)
    ensures
        !lex_lt(a, b) && !lex_lt(b, a) ==> a == b,
    decreases a.len(),
{
    if !lex_lt(a, b) && !lex_lt(b, a) {
        if a.len() == 0 || b.len() == 0 {
            assert(a =~= b);
        } else {
            char_u32_cast(a[0], a[0] as u32);
            char_u32_cast(b[0], b[0] as u32);
            assert(a[0] == b[0]);
            assert(!lex_lt(a.drop_first(), b.drop_first()) && !lex_lt(
                b.drop_first(),
                a.drop_first(),
            ));
            lemma_lex_connex(a.drop_first(), b.drop_first());
            assert(forall|k: int| 1 <= k < a.len() ==> a[k] == a.drop_first()[k - 1]);
            assert(forall|k: int| 1 <= k < b.len() ==> b[k] == b.drop_first()[k - 1]);
            assert(a =~= b);
        }
    }
}

pub proof fn lemma_lex_trans(a: Seq<char>, b: Seq<char>, c: Seq<char>)
    ensures
        lex_lt(a, b) && lex_lt(b, c) ==> lex_lt(a, c),
    decreases a.len(),
{
    if lex_lt(a, b) && lex_lt(b, c) {
        if a.len() == 0 || b.len() == 0 || c.len() == 0 {
        } else if (a[0] as u32) == (b[0] as u32) && (b[0] as u32) == (c[0] as u32) {
            lemma_lex_trans(a.drop_first(), b.drop_first(), c.drop_first());
        }
    }
}

/// A difference at the first disagreeing position settles the order.
proof fn lemma_lex_from_diff(a: Seq<char>, b: Seq<char>, i: int)
    requires
        0 <= i < a.len(),
        i < b.len(),
        forall|j: int| 0 <= j < i ==> a[j] == b[j],
        (a[i] as u32) < (b[i] as u32),
    ensures
        lex_lt(a, b),
    decreases i,
{
    if i == 0 {
    } else {
        assert(forall|j: int| 0 <= j < i - 1 ==> a.drop_first()[j] == b.drop_first()[j]);
        lemma_lex_from_diff(a.drop_first(), b.drop_first(), i - 1);
    }
}

/// A strict prefix comes first.
proof fn lemma_lex_prefix(a: Seq<char>, b: Seq<char>)
    requires
        a.len() < b.len(),
        forall|j: int| 0 <= j < a.len() ==> a[j] == b[j],
    ensures
        lex_lt(a, b),
    decreases a.len(),
{
    if a.len() > 0 {
        assert(forall|j: int| 0 <= j < a.len() - 1 ==> a.drop_first()[j] == b.drop_first()[j]);
        lemma_lex_prefix(a.drop_first(), b.drop_first());
    }
}

/// Order is decided after a shared prefix.
pub proof fn lemma_lex_common_prefix(p: Seq<char>, a: Seq<char>, b: Seq<char>)
    ensures
        lex_lt(p + a, p + b) == lex_lt(a, b),
    decreases p.len(),
{
    if p.len() == 0 {
        assert(p + a =~= a);
        assert(p + b =~= b);
    } else {
        assert((p + a).drop_first() =~= p.drop_first() + a);
        assert((p + b).drop_first() =~= p.drop_first() + b);
        lemma_lex_common_prefix(p.drop_first(), a, b);
    }
}

/// Whether `p` is a prefix of `s`.
pub open spec fn has_prefix(s: Seq<char>, p: Seq<char>) -> bool {
    p.len() <= s.len() && s.subrange(0, p.len() as int) == p
}

/// The executable prefix test.
pub fn has_prefix_exec(s: &str, p: &str) -> (r: bool)
    ensures
        r == has_prefix(s@, p@),
{
    let n = s.unicode_len();
    let m = p.unicode_len();
    if m > n {
        proof {
            assert(!has_prefix(s@, p@));
        }
        return false;
    }
    let mut i: usize = 0;
    while i < m
        invariant
            i <= m <= n,
            n == s@.len(),
            m == p@.len(),
            forall|j: int| 0 <= j < i ==> s@[j] == p@[j],
        decreases m - i,
    {
        if s.get_char(i) != p.get_char(i) {
            proof {
                assert(s@.subrange(0, m as int)[i as int] != p@[i as int]);
            }
            return false;
        }
        i = i + 1;
    }
    proof {
        assert(s@.subrange(0, m as int) =~= p@);
    }
    true
}

/// Character-for-character string equality.
pub fn str_eq(a: &str, b: &str) -> (r: bool)
    ensures
        r == (a@ == b@),
{
    let n = a.unicode_len();
    let m = b.unicode_len();
    if n != m {
        proof {
            if a@ == b@ {
                assert(a@.len() == b@.len());
            }
        }
        return false;
    }
    let mut i: usize = 0;
    while i < n
        invariant
            i <= n,
            n == a@.len(),
            n == b@.len(),
            forall|j: int| 0 <= j < i ==> a@[j] == b@[j],
        decreases n - i,
    {
        if a.get_char(i) != b.get_char(i) {
            return false;
        }
        i = i + 1;
    }
    proof {
        assert(a@ =~= b@);
    }
    true
}

/// The executable strict lexicographic comparison.
pub fn lex_lt_exec(a: &str, b: &str) -> (r: bool)
    ensures
        r == lex_lt(a@, b@),
{
    let n = a.unicode_len();
    let m = b.unicode_len();
    let stop = if n < m {
        n
    } else {
        m
    };
    let mut i: usize = 0;
    while i < stop
        invariant
            i <= stop,
            n == a@.len(),
            m == b@.len(),
            stop == if n < m {
                n
            } else {
                m
            },
            forall|j: int| 0 <= j < i ==> a@[j] == b@[j],
        decreases stop - i,
    {
        let ca = a.get_char(i);
        let cb = b.get_char(i);
        if (ca as u32) < (cb as u32) {
            proof {
                lemma_lex_from_diff(a@, b@, i as int);
            }
            return true;
        }
        if (ca as u32) > (cb as u32) {
            proof {
                lemma_lex_from_diff(b@, a@, i as int);
                lemma_lex_asym(b@, a@);
            }
            return false;
        }
        proof {
            char_u32_cast(ca, ca as u32);
            char_u32_cast(cb, cb as u32);
        }
        i = i + 1;
    }
    if n < m {
        proof {
            lemma_lex_prefix(a@, b@);
        }
        true
    } else if m < n {
        proof {
            lemma_lex_prefix(b@, a@);
            lemma_lex_asym(b@, a@);
        }
        false
    } else {
        proof {
            assert(a@ =~= b@);
            lemma_lex_asym(a@, b@);
            lemma_lex_asym(b@, a@);
            lemma_lex_connex(a@, b@);
        }
        false
    }
}

/// Keys strictly ascending across the entry list.
pub open spec fn keys_sorted(es: Seq<(Seq<char>, Seq<u8>)>) -> bool {
    forall|i: int, j: int| 0 <= i < j < es.len() ==> lex_lt(es[i].0, es[j].0)
}

/// The map an entry list denotes.
pub open spec fn map_of(es: Seq<(Seq<char>, Seq<u8>)>) -> Map<Seq<char>, Seq<u8>> {
    Map::new(
        |k: Seq<char>|
            exists|i: int| 0 <= i < es.len() && es[i].0 == k,
        |k: Seq<char>|
            es[choose|i: int| 0 <= i < es.len() && es[i].0 == k].1,
    )
}

pub proof fn lemma_sorted_unique(es: Seq<(Seq<char>, Seq<u8>)>)
    requires
        keys_sorted(es),
    ensures
        forall|i: int, j: int|
            0 <= i < es.len() && 0 <= j < es.len() && es[i].0 == es[j].0 ==> i == j,
{
    assert forall|i: int, j: int|
        0 <= i < es.len() && 0 <= j < es.len() && es[i].0 == es[j].0 implies i == j by {
        if i < j {
            lemma_lex_asym(es[i].0, es[j].0);
        }
        if j < i {
            lemma_lex_asym(es[j].0, es[i].0);
        }
    }
}

/// Each entry is in the map with its own value; each key in the map has an
/// entry.
pub proof fn lemma_map_of_index(es: Seq<(Seq<char>, Seq<u8>)>)
    requires
        keys_sorted(es),
    ensures
        forall|i: int|
            0 <= i < es.len() ==> map_of(es).contains_key(#[trigger] es[i].0) && map_of(es)[es[i].0]
                == es[i].1,
        forall|k: Seq<char>|
            map_of(es).contains_key(k) ==> exists|i: int| 0 <= i < es.len() && es[i].0 == k,
{
    lemma_sorted_unique(es);
    assert forall|i: int| 0 <= i < es.len() implies map_of(es).contains_key(#[trigger] es[i].0)
        && map_of(es)[es[i].0] == es[i].1 by {
        let k = es[i].0;
        let w = choose|j: int| 0 <= j < es.len() && es[j].0 == k;
        assert(0 <= w < es.len() && es[w].0 == k);
        assert(w == i);
    }
}

/// Inserting an entry between its neighbours keeps the list sorted and
/// inserts its key into the denoted map.
proof fn lemma_sorted_insert(es: Seq<(Seq<char>, Seq<u8>)>, i: int, e: (Seq<char>, Seq<u8>))
    requires
        keys_sorted(es),
        0 <= i <= es.len(),
        forall|j: int| 0 <= j < i ==> lex_lt(#[trigger] es[j].0, e.0),
        forall|j: int| i <= j < es.len() ==> lex_lt(e.0, #[trigger] es[j].0),
    ensures
        keys_sorted(es.insert(i, e)),
        map_of(es.insert(i, e)) == map_of(es).insert(e.0, e.1),
{
    es.insert_ensures(i, e);
    let es2 = es.insert(i, e);
    assert forall|x: int, y: int| 0 <= x < y < es2.len() implies lex_lt(
        es2[x].0,
        es2[y].0,
    ) by {
        if x < i && y > i {
            lemma_lex_trans(es2[x].0, e.0, es2[y].0);
        }
    }
    lemma_map_of_index(es);
    lemma_map_of_index(es2);
    let m2 = map_of(es2);
    let mi = map_of(es).insert(e.0, e.1);
    assert forall|k: Seq<char>| m2.contains_key(k) implies mi.contains_key(k) && m2[k]
        == mi[k] by {
        let w = choose|w: int| 0 <= w < es2.len() && es2[w].0 == k;
        if w == i {
            assert(m2[k] == e.1);
        } else if w < i {
            assert(es[w] == es2[w]);
            lemma_lex_asym(es[w].0, e.0);
            assert(k != e.0);
            assert(map_of(es).contains_key(k) && map_of(es)[k] == es[w].1);
        } else {
            assert(es[w - 1] == es2[w]);
            lemma_lex_asym(e.0, es[w - 1].0);
            assert(k != e.0);
            assert(map_of(es).contains_key(k) && map_of(es)[k] == es[w - 1].1);
        }
    }
    assert forall|k: Seq<char>| mi.contains_key(k) implies m2.contains_key(k) by {
        if k == e.0 {
            assert(es2[i].0 == k);
        } else {
            let w = choose|w: int| 0 <= w < es.len() && es[w].0 == k;
            if w < i {
                assert(es2[w].0 == k);
            } else {
                assert(es2[w + 1].0 == k);
            }
        }
    }
    assert(m2 =~= mi);
}

/// Removing an entry keeps the list sorted and removes its key from the
/// denoted map.
proof fn lemma_sorted_remove(es: Seq<(Seq<char>, Seq<u8>)>, i: int)
    requires
        keys_sorted(es),
        0 <= i < es.len(),
    ensures
        keys_sorted(es.remove(i)),
        map_of(es.remove(i)) == map_of(es).remove(es[i].0),
{
    es.remove_ensures(i);
    let es2 = es.remove(i);
    assert forall|x: int, y: int| 0 <= x < y < es2.len() implies lex_lt(
        es2[x].0,
        es2[y].0,
    ) by {
        if x < i && y >= i {
            assert(es2[x] == es[x] && es2[y] == es[y + 1]);
        }
    }
    lemma_map_of_index(es);
    lemma_map_of_index(es2);
    lemma_sorted_unique(es);
    let m2 = map_of(es2);
    let mr = map_of(es).remove(es[i].0);
    assert forall|k: Seq<char>| m2.contains_key(k) implies mr.contains_key(k) && m2[k]
        == mr[k] by {
        let w = choose|w: int| 0 <= w < es2.len() && es2[w].0 == k;
        if w < i {
            assert(es2[w] == es[w]);
            if k == es[i].0 {
                assert(es[w].0 == es[i].0);
            }
            assert(map_of(es).contains_key(k) && map_of(es)[k] == es[w].1);
        } else {
            assert(es2[w] == es[w + 1]);
            if k == es[i].0 {
                assert(es[w + 1].0 == es[i].0);
            }
            assert(map_of(es).contains_key(k) && map_of(es)[k] == es[w + 1].1);
        }
    }
    assert forall|k: Seq<char>| mr.contains_key(k) implies m2.contains_key(k) by {
        let w = choose|w: int| 0 <= w < es.len() && es[w].0 == k;
        assert(w != i);
        if w < i {
            assert(es2[w].0 == k);
        } else {
            assert(es2[w - 1].0 == k);
        }
    }
    assert(m2 =~= mr);
}

/// A fresh copy of a byte vector.
fn dup_bytes(v: &Vec<u8>) -> (r: Vec<u8>)
    ensures
        r@ == v@,
{
    let mut out: Vec<u8> = Vec::new();
    let mut k: usize = 0;
    let n = v.len();
    while k < n
        invariant
            k <= n,
            n == v@.len(),
            out@ == v@.subrange(0, k as int),
        decreases n - k,
    {
        out.push(v[k]);
        proof {
            assert(v@.subrange(0, k as int + 1) =~= v@.subrange(0, k as int).push(v@[k as int]));
        }
        k = k + 1;
    }
    proof {
        assert(v@.subrange(0, n as int) =~= v@);
    }
    out
}

/// One buffered store mutation.
pub enum BatchOp {
    Put(String, Vec<u8>),
    Del(String),
}

impl View for BatchOp {
    type V = (Seq<char>, Option<Seq<u8>>);

    open spec fn view(&self) -> (Seq<char>, Option<Seq<u8>>) {
        match self {
            BatchOp::Put(k, v) => (k@, Some(v@)),
            BatchOp::Del(k) => (k@, None),
        }
    }
}

/// The views of a list of buffered mutations.
pub open spec fn ops_view(ops: Seq<BatchOp>) -> Seq<(Seq<char>, Option<Seq<u8>>)> {
    ops.map_values(|o: BatchOp| o@)
}

/// One mutation applied to the abstract store state.
pub open spec fn apply_op(
    m: Map<Seq<char>, Seq<u8>>,
    op: (Seq<char>, Option<Seq<u8>>),
) -> Map<Seq<char>, Seq<u8>> {
    match op.1 {
        Some(v) => m.insert(op.0, v),
        None => m.remove(op.0),
    }
}

/// A list of mutations applied in order, as one unit.
pub open spec fn apply_ops(
    m: Map<Seq<char>, Seq<u8>>,
    ops: Seq<(Seq<char>, Option<Seq<u8>>)>,
) -> Map<Seq<char>, Seq<u8>>
    decreases ops.len(),
{
    if ops.len() == 0 {
        m
    } else {
        apply_op(apply_ops(m, ops.drop_last()), ops.last())
    }
}

/// The ordered key-value store: entries sorted by key, no duplicates.
pub struct Kv {
    entries: Vec<(String, Vec<u8>)>,
}

impl View for Kv {
    type V = Map<Seq<char>, Seq<u8>>;

    closed spec fn view(&self) -> Map<Seq<char>, Seq<u8>> {
        map_of(self.entries_view())
    }
}

impl Kv {
    /// The entry list as abstract key/value pairs.
    pub closed spec fn entries_view(&self) -> Seq<(Seq<char>, Seq<u8>)> {
        self.entries@.map_values(|e: (String, Vec<u8>)| (e.0@, e.1@))
    }

    /// Well-formed: keys strictly ascending, hence unique.
    pub closed spec fn wf(&self) -> bool {
        keys_sorted(self.entries_view())
    }

    /// An empty store.
    pub fn new() -> (r: Kv)
        ensures
            r.wf(),
            r@ == Map::<Seq<char>, Seq<u8>>::empty(),
    {
        let r = Kv { entries: Vec::new() };
        proof {
            assert(r.entries_view() =~= Seq::<(Seq<char>, Seq<u8>)>::empty());
            assert(r@ =~= Map::<Seq<char>, Seq<u8>>::empty());
        }
        r
    }

    /// Look a key up.
    pub fn get(&self, key: &str) -> (r: Option<&Vec<u8>>)
        requires
            self.wf(),
        ensures
            match r {
                Some(v) => self@.contains_key(key@) && v@ == self@[key@],
                None => !self@.contains_key(key@),
            },
    {
        let n = self.entries.len();
        let ghost es = self.entries_view();
        proof {
            lemma_map_of_index(es);
        }
        let mut i: usize = 0;
        while i < n
            invariant
                i <= n,
                n == self.entries@.len(),
                self.wf(),
                es == self.entries_view(),
                forall|j: int| 0 <= j < i ==> #[trigger] es[j].0 != key@,
            decreases n - i,
        {
            proof {
                assert(es[i as int] == (self.entries@[i as int].0@, self.entries@[i as int].1@));
            }
            if str_eq(self.entries[i].0.as_str(), key) {
                proof {
                    lemma_map_of_index(es);
                }
                return Some(&self.entries[i].1);
            }
            i = i + 1;
        }
        proof {
            lemma_map_of_index(es);
            if self@.contains_key(key@) {
                let w = choose|w: int| 0 <= w < es.len() && es[w].0 == key@;
                assert(es[w].0 != key@);
            }
        }
        None
    }

    /// Insert or replace the value at `key`.
    pub fn put(&mut self, key: String, val: Vec<u8>)
        requires
            old(self).wf(),
        ensures
            final(self).wf(),
            final(self)@ == old(self)@.insert(key@, val@),
    {
        let n = self.entries.len();
        let ghost es = self.entries_view();
        let mut i: usize = 0;
        while i < n && lex_lt_exec(self.entries[i].0.as_str(), key.as_str())
            invariant
                i <= n,
                n == self.entries@.len(),
                self.wf(),
                es == self.entries_view(),
                forall|j: int| 0 <= j < i ==> lex_lt(#[trigger] es[j].0, key@),
            decreases n - i,
        {
            proof {
                assert(es[i as int] == (self.entries@[i as int].0@, self.entries@[i as int].1@));
            }
            i = i + 1;
        }
        // at `i` the scan stopped: every earlier key is below `key`, and the
        // entry at `i`, if any, is not
        proof {
            if (i as int) < n as int {
                assert(es[i as int] == (self.entries@[i as int].0@, self.entries@[i as int].1@));
            }
        }
        if i < n && str_eq(self.entries[i].0.as_str(), key.as_str()) {
            proof {
                lemma_sorted_remove(es, i as int);
                lemma_sorted_insert(
                    es.remove(i as int),
                    i as int,
                    (key@, val@),
                );
                assert forall|j: int| i as int <= j < es.remove(i as int).len() implies lex_lt(
                    key@,
                    #[trigger] es.remove(i as int)[j].0,
                ) by {
                    es.remove_ensures(i as int);
                    assert(es.remove(i as int)[j] == es[j + 1]);
                }
                assert(map_of(es).remove(key@).insert(key@, val@) =~= map_of(es).insert(
                    key@,
                    val@,
                ));
            }
            self.entries.remove(i);
            self.entries.insert(i, (key, val));
            proof {
                assert(self.entries_view() =~= es.remove(i as int).insert(
                    i as int,
                    (self.entries@[i as int].0@, self.entries@[i as int].1@),
                ));
            }
        } else {
            proof {
                if i < n {
                    lemma_lex_connex(es[i as int].0, key@);
                }
                assert forall|j: int| i as int <= j < es.len() implies lex_lt(
                    key@,
                    #[trigger] es[j].0,
                ) by {
                    lemma_lex_connex(es[i as int].0, key@);
                    if j > i as int {
                        lemma_lex_trans(key@, es[i as int].0, es[j].0);
                    }
                }
                lemma_sorted_insert(es, i as int, (key@, val@));
            }
            self.entries.insert(i, (key, val));
            proof {
                assert(self.entries_view() =~= es.insert(
                    i as int,
                    (self.entries@[i as int].0@, self.entries@[i as int].1@),
                ));
            }
        }
    }

    /// Delete the entry at `key`, if any.
    pub fn del(&mut self, key: &str)
        requires
            old(self).wf(),
        ensures
            final(self).wf(),
            final(self)@ == old(self)@.remove(key@),
    {
        let n = self.entries.len();
        let ghost es = self.entries_view();
        let mut i: usize = 0;
        while i < n
            invariant
                i <= n,
                n == self.entries@.len(),
                self.wf(),
                es == self.entries_view(),
                self.entries@ == old(self).entries@,
                forall|j: int| 0 <= j < i ==> #[trigger] es[j].0 != key@,
            decreases n - i,
        {
            proof {
                assert(es[i as int] == (self.entries@[i as int].0@, self.entries@[i as int].1@));
            }
            if str_eq(self.entries[i].0.as_str(), key) {
                proof {
                    lemma_sorted_remove(es, i as int);
                }
                self.entries.remove(i);
                proof {
                    assert(es[i as int].0 == key@);
                    assert(self.entries_view() =~= es.remove(i as int));
                }
                return ;
            }
            i = i + 1;
        }
        proof {
            lemma_map_of_index(es);
            if self@.contains_key(key@) {
                let w = choose|w: int| 0 <= w < es.len() && es[w].0 == key@;
                assert(es[w].0 != key@);
            }
            assert(self@ =~= self@.remove(key@));
        }
    }

    /// All entries whose key begins with `pre`, in ascending key order.
    #[verifier::rlimit(60)]
    pub fn entries_with_prefix(&self, pre: &str) -> (r: Vec<(String, Vec<u8>)>)
        requires
            self.wf(),
        ensures
            forall|m: int|
                0 <= m < r@.len() ==> has_prefix(#[trigger] r@[m].0@, pre@)
                    && self@.contains_key(r@[m].0@) && r@[m].1@ == self@[r@[m].0@],
            forall|k: Seq<char>|
                self@.contains_key(k) && has_prefix(k, pre@) ==> exists|m: int|
                    0 <= m < r@.len() && #[trigger] r@[m].0@ == k,
            forall|x: int, y: int| 0 <= x < y < r@.len() ==> lex_lt(r@[x].0@, r@[y].0@),
    {
        let n = self.entries.len();
        let ghost es = self.entries_view();
        let mut out: Vec<(String, Vec<u8>)> = Vec::new();
        let ghost mut src: Seq<int> = Seq::empty();
        let mut i: usize = 0;
        while i < n
            invariant
                i <= n,
                n == self.entries@.len(),
                self.wf(),
                es == self.entries_view(),
                src.len() == out@.len(),
                forall|m: int| 0 <= m < src.len() ==> 0 <= #[trigger] src[m] < i as int,
                forall|m: int|
                    0 <= m < src.len() ==> out@[m].0@ == es[#[trigger] src[m]].0 && out@[m].1@
                        == es[src[m]].1,
                forall|m1: int, m2: int| 0 <= m1 < m2 < src.len() ==> src[m1] < src[m2],
                forall|m: int| 0 <= m < src.len() ==> has_prefix(es[#[trigger] src[m]].0, pre@),
                forall|j: int|
                    0 <= j < i && has_prefix(#[trigger] es[j].0, pre@) ==> exists|m: int|
                        0 <= m < src.len() && src[m] == j,
            decreases n - i,
        {
            proof {
                assert(es[i as int] == (self.entries@[i as int].0@, self.entries@[i as int].1@));
            }
            if has_prefix_exec(self.entries[i].0.as_str(), pre) {
                let k2 = self.entries[i].0.clone();
                let v2 = dup_bytes(&self.entries[i].1);
                out.push((k2, v2));
                proof {
                    let src0 = src;
                    src = src.push(i as int);
                    assert forall|j: int|
                        0 <= j < i + 1 && has_prefix(#[trigger] es[j].0, pre@) implies exists|
                        m: int,
                    | 0 <= m < src.len() && src[m] == j by {
                        if j < i {
                            let m0 = choose|m0: int| 0 <= m0 < src0.len() && src0[m0] == j;
                            assert(src[m0] == j);
                        } else {
                            assert(src[src.len() - 1] == j);
                        }
                    }
                }
            } else {
                proof {
                    assert(!has_prefix(es[i as int].0, pre@));
                }
            }
            i = i + 1;
        }
        proof {
            lemma_map_of_index(es);
            assert forall|m: int|
                0 <= m < out@.len() implies has_prefix(#[trigger] out@[m].0@, pre@)
                && self@.contains_key(out@[m].0@) && out@[m].1@ == self@[out@[m].0@] by {
                let j = src[m];
                assert(out@[m].0@ == es[j].0 && out@[m].1@ == es[j].1);
                assert(self@.contains_key(es[j].0) && self@[es[j].0] == es[j].1);
            }
            assert forall|k: Seq<char>|
                self@.contains_key(k) && has_prefix(k, pre@) implies exists|m: int|
                0 <= m < out@.len() && #[trigger] out@[m].0@ == k by {
                let j = choose|j: int| 0 <= j < es.len() && es[j].0 == k;
                assert(has_prefix(es[j].0, pre@));
                let m = choose|m: int| 0 <= m < src.len() && src[m] == j;
                assert(out@[m].0@ == k);
            }
            assert forall|x: int, y: int| 0 <= x < y < out@.len() implies lex_lt(
                out@[x].0@,
                out@[y].0@,
            ) by {
                assert(src[x] < src[y]);
                assert(lex_lt(es[src[x]].0, es[src[y]].0));
            }
        }
        out
    }

    /// Apply a batch of buffered mutations, in order, as one unit.
    pub fn apply_batch(&mut self, ops: &Vec<BatchOp>)
        requires
            old(self).wf(),
        ensures
            final(self).wf(),
            final(self)@ == apply_ops(old(self)@, ops_view(ops@)),
    {
        let n = ops.len();
        let mut i: usize = 0;
        proof {
            assert(ops_view(ops@.take(0)) =~= Seq::<(Seq<char>, Option<Seq<u8>>)>::empty());
        }
        while i < n
            invariant
                i <= n,
                n == ops@.len(),
                self.wf(),
                self@ == apply_ops(old(self)@, ops_view(ops@.take(i as int))),
            decreases n - i,
        {
            let ghost pre_ops = ops_view(ops@.take(i as int));
            match &ops[i] {
                BatchOp::Put(k, v) => {
                    let k2 = k.clone();
                    let v2 = dup_bytes(v);
                    self.put(k2, v2);
                },
                BatchOp::Del(k) => {
                    let k2: &str = k.as_str();
                    self.del(k2);
                },
            }
            proof {
                let next_ops = ops_view(ops@.take(i as int + 1));
                assert(ops@.take(i as int + 1).drop_last() =~= ops@.take(i as int));
                assert(next_ops.drop_last() =~= pre_ops);
                assert(next_ops.last() == ops@[i as int]@);
            }
            i = i + 1;
        }
        proof {
            assert(ops@.take(n as int) =~= ops@);
        }
    }
}

} // verus!
