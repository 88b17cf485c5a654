//! The durable store model: a key-value engine with upserting point
//! writes and prefix scans ordered by key bytes.
use vstd::prelude::*;

verus! {

/// Strict lexicographic order on byte strings; a proper prefix comes
/// first.
pub open spec fn lex_lt(a: Seq<u8>, b: Seq<u8>) -> bool
    decreases a.len(),
{
    if b.len() == 0 {
        false
    } else if a.len() == 0 {
        true
    } else if a[0] < b[0] {
        true
    } else if a[0] > b[0] {
        false
    } else {
        lex_lt(a.drop_first(), b.drop_first())
    }
}

/// No byte string is below itself.
pub proof fn lemma_lex_irrefl(a: Seq<u8>)
    ensures
        !lex_lt(a, a),
    decreases a.len(),
{
    if a.len() > 0 {
        lemma_lex_irrefl(a.drop_first());
    }
}

/// The order is asymmetric.
pub proof fn lemma_lex_asym(a: Seq<u8>, b: Seq<u8>)
    requires
        lex_lt(a, b),
    ensures
        !lex_lt(b, a),
    decreases a.len(),
{
    if a.len() > 0 && b.len() > 0 && a[0] == b[0] {
        lemma_lex_asym(a.drop_first(), b.drop_first());
    }
}

/// The order is transitive.
pub proof fn lemma_lex_trans(a: Seq<u8>, b: Seq<u8>, c: Seq<u8>)
    requires
        lex_lt(a, b),
        lex_lt(b, c),
    ensures
        lex_lt(a, c),
    decreases a.len(),
{
    if a.len() > 0 && b.len() > 0 && c.len() > 0 && a[0] == b[0] && b[0] == c[0] {
        lemma_lex_trans(a.drop_first(), b.drop_first(), c.drop_first());
    }
}

/// Two byte strings that sit below neither one nor the other are equal.
pub proof fn lemma_lex_connex(a: Seq<u8>, b: Seq<u8>)
    requires
        !lex_lt(a, b),
        !lex_lt(b, a),
    ensures
        a == b,
    decreases a.len(),
{
    if a.len() == 0 {
        assert(b.len() == 0);
        assert(a =~= b);
    } else {
        assert(b.len() > 0);
        assert(a[0] == b[0]);
        lemma_lex_connex(a.drop_first(), b.drop_first());
        assert forall|i: int| 0 <= i < a.len() implies a[i] == b[i] by {
            if i > 0 {
                assert(a[i] == a.drop_first()[i - 1]);
                assert(b[i] == b.drop_first()[i - 1]);
            }
        }
        assert(a =~= b);
    }
}

/// `pre` is a prefix of `k`.
pub open spec fn has_prefix(k: Seq<u8>, pre: Seq<u8>) -> bool {
    pre.len() <= k.len() && k.subrange(0, pre.len() as int) == pre
}

/// The entries of `v` whose keys begin with `pre`, in the order they
/// stand in `v`.
pub open spec fn scan_of(v: Seq<(Seq<u8>, Seq<u8>)>, pre: Seq<u8>) -> Seq<(Seq<u8>, Seq<u8>)>
    decreases v.len(),
{
    if v.len() == 0 {
        Seq::empty()
    } else {
        let rest = scan_of(v.drop_first(), pre);
        if has_prefix(v[0].0, pre) {
            seq![v[0]] + rest
        } else {
            rest
        }
    }
}

/// `v` with the value at `k` replaced, or with `(k, val)` inserted at its
/// ordered place when `k` is absent.
pub open spec fn spec_upsert(v: Seq<(Seq<u8>, Seq<u8>)>, k: Seq<u8>, val: Seq<u8>) -> Seq<
    (Seq<u8>, Seq<u8>),
>
    decreases v.len(),
{
    if v.len() == 0 {
        seq![(k, val)]
    } else if lex_lt(k, v[0].0) {
        seq![(k, val)] + v
    } else if k == v[0].0 {
        seq![(k, val)] + v.drop_first()
    } else {
        seq![v[0]] + spec_upsert(v.drop_first(), k, val)
    }
}

/// The image of exec entries as mathematical pairs.
pub open spec fn pairs_view(s: Seq<(Vec<u8>, Vec<u8>)>) -> Seq<(Seq<u8>, Seq<u8>)> {
    s.map_values(|p: (Vec<u8>, Vec<u8>)| (p.0@, p.1@))
}

/// The durable store: entries kept strictly sorted by key bytes, so that
/// a prefix scan is ordered by key and each key holds one value.
pub struct Store {
    entries: Vec<(Vec<u8>, Vec<u8>)>,
}

impl View for Store {
    type V = Seq<(Seq<u8>, Seq<u8>)>;

    closed spec fn view(&self) -> Seq<(Seq<u8>, Seq<u8>)> {
        pairs_view(self.entries@)
    }
}

/// Keys strictly ascend: sortedness and key uniqueness in one statement.
pub open spec fn store_sorted(v: Seq<(Seq<u8>, Seq<u8>)>) -> bool {
    forall|i: int, j: int| 0 <= i < j < v.len() ==> lex_lt(#[trigger] v[i].0, #[trigger] v[j].0)
}

/// Upserting below the position `i` that the ordered walk stops at
/// replaces in place on a key hit and splices in otherwise.
proof fn lemma_upsert_split(v: Seq<(Seq<u8>, Seq<u8>)>, k: Seq<u8>, val: Seq<u8>, i: int)
    requires
        0 <= i <= v.len(),
        forall|j: int| 0 <= j < i ==> lex_lt(#[trigger] v[j].0, k),
        i < v.len() ==> !lex_lt(v[i as int].0, k),
    ensures
        i < v.len() && v[i as int].0 == k ==> spec_upsert(v, k, val) == v.update(i, (k, val)),
        !(i < v.len() && v[i as int].0 == k) ==> spec_upsert(v, k, val) == v.subrange(0, i)
            + seq![(k, val)] + v.subrange(i, v.len() as int),
    decreases i,
{
    if i == 0 {
        if v.len() == 0 {
            assert(spec_upsert(v, k, val) =~= v.subrange(0, 0) + seq![(k, val)] + v.subrange(
                0,
                0,
            ));
        } else if v[0].0 == k {
            lemma_lex_irrefl(k);
            assert(spec_upsert(v, k, val) == seq![(k, val)] + v.drop_first());
            assert(seq![(k, val)] + v.drop_first() =~= v.update(0, (k, val)));
        } else {
            assert(!lex_lt(v[0].0, k));
            if !lex_lt(k, v[0].0) {
                lemma_lex_connex(k, v[0].0);
                assert(false);
            }
            assert(spec_upsert(v, k, val) == seq![(k, val)] + v);
            assert(seq![(k, val)] + v =~= v.subrange(0, 0) + seq![(k, val)] + v.subrange(
                0,
                v.len() as int,
            ));
        }
    } else {
        assert(lex_lt(v[0].0, k));
        lemma_lex_asym(v[0].0, k);
        if k == v[0].0 {
            lemma_lex_irrefl(k);
            assert(false);
        }
        assert(spec_upsert(v, k, val) == seq![v[0]] + spec_upsert(v.drop_first(), k, val));
        let w = v.drop_first();
        assert forall|j: int| 0 <= j < i - 1 implies lex_lt(#[trigger] w[j].0, k) by {
            assert(w[j] == v[j + 1]);
        }
        assert(i - 1 < w.len() ==> !lex_lt(w[i - 1].0, k)) by {
            if i - 1 < w.len() {
                assert(w[i - 1] == v[i]);
            }
        }
        lemma_upsert_split(w, k, val, i - 1);
        if i < v.len() && v[i as int].0 == k {
            assert(w[i - 1] == v[i]);
            assert(spec_upsert(v, k, val) =~= v.update(i, (k, val)));
        } else {
            assert(seq![v[0]] + (w.subrange(0, i - 1) + seq![(k, val)] + w.subrange(
                i - 1,
                w.len() as int,
            )) =~= v.subrange(0, i) + seq![(k, val)] + v.subrange(i, v.len() as int));
        }
    }
}

/// Compares two keys in lexicographic byte order.
fn key_lt(a: &Vec<u8>, b: &Vec<u8>) -> (r: bool)
    ensures
        r == lex_lt(a@, b@),
{
    let an = a.len();
    let bn = b.len();
    let mut i: usize = 0;
    proof {
        assert(a@.skip(0) =~= a@);
        assert(b@.skip(0) =~= b@);
    }
    loop
        invariant
            i <= an,
            i <= bn,
            an == a@.len(),
            bn == b@.len(),
            forall|j: int| 0 <= j < i ==> a@[j] == b@[j],
            lex_lt(a@, b@) == lex_lt(a@.skip(i as int), b@.skip(i as int)),
        decreases an - i,
    {
        if i == an {
            proof {
                assert(a@.skip(i as int).len() == 0);
            }
            return bn > i;
        }
        if i == bn {
            proof {
                assert(b@.skip(i as int).len() == 0);
            }
            return false;
        }
        let x = a[i];
        let y = b[i];
        proof {
            assert(a@.skip(i as int)[0] == a@[i as int]);
            assert(b@.skip(i as int)[0] == b@[i as int]);
        }
        if x < y {
            return true;
        }
        if x > y {
            return false;
        }
        proof {
            assert(a@.skip(i as int).drop_first() =~= a@.skip(i as int + 1));
            assert(b@.skip(i as int).drop_first() =~= b@.skip(i as int + 1));
        }
        i = i + 1;
    }
}

/// Compares two byte strings for equality.
pub fn bytes_eq(a: &Vec<u8>, b: &Vec<u8>) -> (r: bool)
    ensures
        r == (a@ == b@),
{
    let an = a.len();
    if an != b.len() {
        return false;
    }
    for i in 0..an
        invariant
            an == a@.len() == b@.len(),
            forall|j: int| 0 <= j < i ==> a@[j] == b@[j],
    {
        if a[i] != b[i] {
            return false;
        }
    }
    proof {
        assert(a@ =~= b@);
    }
    true
}

impl Store {
    /// The store's well-formedness: keys strictly ascend.
    pub open spec fn inv(&self) -> bool {
        store_sorted(self@)
    }

    /// An empty store.
    pub fn new() -> (s: Store)
        ensures
            s@ == Seq::<(Seq<u8>, Seq<u8>)>::empty(),
            s.inv(),
    {
        let s = Store { entries: Vec::new() };
        proof {
            assert(s@ =~= Seq::<(Seq<u8>, Seq<u8>)>::empty());
        }
        s
    }

    /// Point write: upserts, overwriting any value the key held, and
    /// keeps the entries ordered.
    pub fn put(&mut self, key: Vec<u8>, value: Vec<u8>)
        requires
            old(self).inv(),
        ensures
            final(self).inv(),
            final(self)@ == spec_upsert(old(self)@, key@, value@),
    {
        let ghost v0 = self@;
        let n = self.entries.len();
        let mut i: usize = 0;
        while i < n && key_lt(&self.entries[i].0, &key)
            invariant
                i <= n,
                n == self.entries@.len(),
                self@ == v0,
                self.entries == old(self).entries,
                forall|j: int| 0 <= j < i ==> lex_lt(#[trigger] v0[j].0, key@),
            decreases n - i,
        {
            proof {
                assert(v0[i as int].0 == self.entries@[i as int].0@);
            }
            i = i + 1;
        }
        proof {
            assert(i < n ==> !lex_lt(v0[i as int].0, key@));
            lemma_upsert_split(v0, key@, value@, i as int);
        }
        if i < n && bytes_eq(&self.entries[i].0, &key) {
            self.entries.remove(i);
            self.entries.insert(i, (key, value));
            proof {
                assert(self@ =~= v0.update(i as int, (key@, value@)));
                assert forall|a: int, b: int| 0 <= a < b < self@.len() implies lex_lt(
                    #[trigger] self@[a].0,
                    #[trigger] self@[b].0,
                ) by {
                    assert(v0[a].0 == self@[a].0 || a == i);
                    assert(v0[b].0 == self@[b].0 || b == i);
                    assert(lex_lt(v0[a].0, v0[b].0));
                }
            }
        } else {
            self.entries.insert(i, (key, value));
            proof {
                assert(self@ =~= v0.subrange(0, i as int) + seq![(key@, value@)] + v0.subrange(
                    i as int,
                    v0.len() as int,
                ));
                if i < n {
                    assert(v0[i as int].0 != key@);
                    if !lex_lt(key@, v0[i as int].0) {
                        lemma_lex_connex(key@, v0[i as int].0);
                        assert(false);
                    }
                    assert(lex_lt(key@, v0[i as int].0));
                }
                assert forall|a: int, b: int| 0 <= a < b < self@.len() implies lex_lt(
                    #[trigger] self@[a].0,
                    #[trigger] self@[b].0,
                ) by {
                    let ii = i as int;
                    if a < ii && b == ii {
                        assert(self@[a] == v0[a]);
                    } else if a == ii && b > ii {
                        assert(self@[b] == v0[b - 1]);
                        assert(b - 1 >= ii);
                        if b - 1 == ii {
                            assert(lex_lt(key@, v0[ii].0));
                        } else {
                            assert(lex_lt(key@, v0[ii].0));
                            assert(lex_lt(v0[ii].0, v0[b - 1].0));
                            lemma_lex_trans(key@, v0[ii].0, v0[b - 1].0);
                        }
                    } else if a < ii && b > ii {
                        assert(self@[a] == v0[a]);
                        assert(self@[b] == v0[b - 1]);
                        if a == b - 1 {
                            assert(lex_lt(v0[a].0, key@));
                            assert(lex_lt(key@, v0[ii].0));
                        } else {
                            assert(lex_lt(v0[a].0, v0[b - 1].0));
                        }
                    } else if b < ii {
                        assert(self@[a] == v0[a] && self@[b] == v0[b]);
                    } else if a > ii {
                        assert(self@[a] == v0[a - 1] && self@[b] == v0[b - 1]);
                        assert(lex_lt(v0[a - 1].0, v0[b - 1].0));
                    }
                }
            }
        }
    }

    /// Prefix scan: every entry whose key begins with `prefix`, in key
    /// order.
    pub fn scan(&self, prefix: &Vec<u8>) -> (out: Vec<(Vec<u8>, Vec<u8>)>)
        ensures
            pairs_view(out@) == scan_of(self@, prefix@),
    {
        let mut out: Vec<(Vec<u8>, Vec<u8>)> = Vec::new();
        let n = self.entries.len();
        proof {
            assert(self@.skip(0) =~= self@);
            assert(pairs_view(Seq::<(Vec<u8>, Vec<u8>)>::empty()) + scan_of(self@, prefix@)
                =~= scan_of(self@, prefix@));
        }
        for i in 0..n
            invariant
                n == self.entries@.len(),
                scan_of(self@, prefix@) == pairs_view(out@) + scan_of(
                    self@.skip(i as int),
                    prefix@,
                ),
        {
            let e = &self.entries[i];
            let klen = e.0.len();
            let plen = prefix.len();
            let ghost tail = self@.skip(i as int);
            proof {
                assert(tail[0] == self@[i as int]);
                assert(tail.drop_first() =~= self@.skip(i as int + 1));
            }
            if plen <= klen && match_prefix(&e.0, prefix) {
                let kc = clone_bytes(&e.0);
                let vc = clone_bytes(&e.1);
                out.push((kc, vc));
                proof {
                    assert(pairs_view(out@) =~= pairs_view(out@.drop_last()) + seq![
                        self@[i as int]
                    ]);
                    assert(pairs_view(out@.drop_last()) + (seq![self@[i as int]] + scan_of(
                        self@.skip(i as int + 1),
                        prefix@,
                    )) =~= pairs_view(out@) + scan_of(self@.skip(i as int + 1), prefix@));
                }
            } else {
                proof {
                    assert(!has_prefix(self@[i as int].0, prefix@));
                }
            }
        }
        proof {
            assert(self@.skip(n as int).len() == 0);
            assert(pairs_view(out@) + scan_of(self@.skip(n as int), prefix@) =~= pairs_view(
                out@,
            ));
        }
        out
    }
}

/// Tests whether `pre` is a byte prefix of `k`.
fn match_prefix(k: &Vec<u8>, pre: &Vec<u8>) -> (r: bool)
    requires
        pre@.len() <= k@.len(),
    ensures
        r == has_prefix(k@, pre@),
{
    let n = pre.len();
    let _ = k.len();
    for i in 0..n
        invariant
            n == pre@.len() <= k@.len(),
            forall|j: int| 0 <= j < i ==> k@[j] == pre@[j],
    {
        if k[i] != pre[i] {
            proof {
                assert(k@.subrange(0, n as int)[i as int] != pre@[i as int]);
            }
            return false;
        }
    }
    proof {
        assert(k@.subrange(0, n as int) =~= pre@);
    }
    true
}

/// Copies a byte string.
pub fn clone_bytes(a: &Vec<u8>) -> (out: Vec<u8>)
    ensures
        out@ == a@,
{
    let mut out: Vec<u8> = Vec::new();
    let n = a.len();
    for i in 0..n
        invariant
            n == a@.len(),
            out@ == a@.take(i as int),
    {
        let b = a[i];
        out.push(b);
        proof {
            assert(a@.take(i as int + 1) =~= a@.take(i as int).push(b));
        }
    }
    proof {
        assert(a@.take(n as int) =~= a@);
    }
    out
}

} // verus!
