//! A set of names with lookup by hash: a fixed table of chains threaded
//! through the positions of the names.
use vstd::prelude::*;

use crate::manifest::views;

verus! {

/// The number of chains.
pub const BUCKETS: usize = 65536;

pub const HASH_MODULUS: u64 = 1_000_000_007;

/// A polynomial hash of the bytes.
pub open spec fn poly_hash(bs: Seq<u8>) -> nat
    decreases bs.len(),
{
    if bs.len() == 0 {
        0
    } else {
        ((poly_hash(bs.drop_last()) * 31 + bs.last()) % (HASH_MODULUS as int)) as nat
    }
}

/// The chain that a name belongs to, from its UTF-8 bytes.
pub open spec fn bucket_of(s: Seq<char>) -> int {
    poly_hash(vstd::utf8::encode_utf8(s)) as int % (BUCKETS as int)
}

fn bucket(s: &str) -> (r: usize)
    ensures
        r == bucket_of(s@),
        r < BUCKETS,
{
    let bs = s.as_bytes();
    let mut h: u64 = 0;
    let mut i: usize = 0;
    while i < bs.len()
        invariant
            i <= bs@.len(),
            h == poly_hash(bs@.take(i as int)),
            h < HASH_MODULUS,
        decreases bs@.len() - i,
    {
        assert(bs@.take(i + 1).drop_last() =~= bs@.take(i as int));
        h = (h * 31 + bs[i] as u64) % HASH_MODULUS;
        i = i + 1;
    }
    assert(bs@.take(i as int) =~= bs@);
    (h % (BUCKETS as u64)) as usize
}

/// One past the last position before `n` whose name is in chain `b`, or zero.
pub open spec fn chain_start(names: Seq<Seq<char>>, b: int, n: int) -> int
    decreases n,
{
    if n <= 0 {
        0
    } else if bucket_of(names[n - 1]) == b {
        n
    } else {
        chain_start(names, b, n - 1)
    }
}

proof fn lemma_chain_start(names: Seq<Seq<char>>, b: int, n: int)
    requires
        0 <= n <= names.len(),
    ensures
        0 <= chain_start(names, b, n) <= n,
        chain_start(names, b, n) > 0 ==> bucket_of(names[chain_start(names, b, n) - 1]) == b,
        forall|k: int|
            chain_start(names, b, n) <= k < n ==> bucket_of(#[trigger] names[k]) != b,
    decreases n,
{
    if n > 0 && bucket_of(names[n - 1]) != b {
        lemma_chain_start(names, b, n - 1);
    }
}

/// Names, each at a position, with their chains.
#[derive(Debug)]
pub struct NameIndex {
    names: Vec<String>,
    /// For each chain, one past the last position in it, or zero.
    heads: Vec<usize>,
    /// For each position, one past the previous position in its chain, or zero.
    links: Vec<usize>,
}

impl NameIndex {
    /// The names in order of insertion.
    pub closed spec fn view(&self) -> Seq<Seq<char>> {
        views(self.names@)
    }

    pub closed spec fn wf(&self) -> bool {
        &&& self.heads@.len() == BUCKETS
        &&& self.links@.len() == self.names@.len()
        &&& forall|b: int|
            0 <= b < BUCKETS ==> #[trigger] self.heads@[b] == chain_start(views(self.names@), b, self.names@.len() as int)
        &&& forall|k: int|
            0 <= k < self.names@.len() ==> #[trigger] self.links@[k] == chain_start(
                views(self.names@),
                bucket_of(self.names@[k]@),
                k,
            )
    }

    pub fn new() -> (r: NameIndex)
        ensures
            r.wf(),
            r.view() == Seq::<Seq<char>>::empty(),
    {
        let mut heads: Vec<usize> = Vec::new();
        while heads.len() < BUCKETS
            invariant
                heads@.len() <= BUCKETS,
                forall|b: int| 0 <= b < heads@.len() ==> heads@[b] == 0,
            decreases BUCKETS - heads@.len(),
        {
            heads.push(0);
        }
        let r = NameIndex { names: Vec::new(), heads, links: Vec::new() };
        assert(r.view() =~= Seq::<Seq<char>>::empty());
        r
    }

    pub fn len(&self) -> (r: usize)
        ensures
            r == self.view().len(),
    {
        self.names.len()
    }

    /// A position that holds a name equal to `s`, if any does.
    pub fn find(&self, s: &String) -> (r: Option<usize>)
        requires
            self.wf(),
        ensures
            match r {
                Some(k) => k < self.view().len() && self.view()[k as int] == s@,
                None => !self.view().contains(s@),
            },
    {
        let ghost ns = views(self.names@);
        let b = bucket(s);
        let mut p = self.heads[b];
        proof {
            lemma_chain_start(ns, b as int, ns.len() as int);
        }
        while p > 0
            invariant
                self.wf(),
                ns == views(self.names@),
                b == bucket_of(s@),
                b < BUCKETS,
                p <= ns.len(),
                p > 0 ==> bucket_of(ns[p - 1]) == b,
                forall|k: int| p <= k < ns.len() ==> (bucket_of(#[trigger] ns[k]) == b ==> ns[k] != s@),
            decreases p,
        {
            let j = p - 1;
            if self.names[j] == *s {
                return Some(j);
            }
            let q = self.links[j];
            proof {
                lemma_chain_start(ns, b as int, j as int);
                assert(ns[j as int] == self.names@[j as int]@);
            }
            p = q;
        }
        assert(!ns.contains(s@)) by {
            if ns.contains(s@) {
                let k = choose|k: int| 0 <= k < ns.len() && ns[k] == s@;
                assert(bucket_of(ns[k]) == b);
            }
        }
        None
    }

    /// Adds a name at the next position.
    pub fn push(&mut self, s: String)
        requires
            old(self).wf(),
        ensures
            final(self).wf(),
            final(self).view() == old(self).view().push(s@),
    {
        let ghost ns0 = views(self.names@);
        let b = bucket(s.as_str());
        let k = self.names.len();
        let prev = self.heads[b];
        self.links.push(prev);
        self.names.push(s);
        let len = self.names.len();
        self.heads.set(b, len);
        proof {
            let ns = views(self.names@);
            assert(ns =~= ns0.push(s@));
            assert forall|i: int| 0 <= i < k implies ns[i] == ns0[i] by {}
            assert forall|c: int, n: int| 0 <= n <= k implies chain_start(ns, c, n) == chain_start(ns0, c, n) by {
                lemma_chain_start_prefix(ns0, ns, c, n);
            }
            assert forall|c: int| 0 <= c < BUCKETS implies #[trigger] self.heads@[c] == chain_start(ns, c, ns.len() as int) by {
                assert(chain_start(ns, c, k + 1) == if c == b as int { k + 1 } else { chain_start(ns, c, k as int) });
            }
            assert forall|i: int| 0 <= i < self.names@.len() implies #[trigger] self.links@[i] == chain_start(ns, bucket_of(self.names@[i]@), i) by {
                assert(ns[i] == self.names@[i]@);
            }
        }
        assert(self.view() =~= old(self).view().push(s@));
    }
}

proof fn lemma_chain_start_prefix(a: Seq<Seq<char>>, c: Seq<Seq<char>>, b: int, n: int)
    requires
        0 <= n <= a.len(),
        n <= c.len(),
        forall|i: int| 0 <= i < n ==> a[i] == c[i],
    ensures
        chain_start(a, b, n) == chain_start(c, b, n),
    decreases n,
{
    if n > 0 {
        lemma_chain_start_prefix(a, c, b, n - 1);
    }
}

} // verus!
