//! Prefix searches below a node: the longest stored key that is a prefix of a
//! given key, and the subtree holding the keys that start with a given prefix.
use vstd::prelude::*;
use crate::bytes::{common_prefix_len, is_prefix_at};
use crate::node::{Node, children_lookup, children_ordered, find_child, first_byte, lemma_lookup_child, lemma_lookup_no_child, lemma_lookup_unfold, lemma_update_child, lemma_seq_split_eq, lemma_child_height};

verus! {

/// `kk.take(j)` goes through the child selected by `kk[p]` once it is longer than `p`.
proof fn lemma_take_skip(kk: Seq<u8>, p: int, j: int)
    requires
        0 <= p < j <= kk.len(),
    ensures
        kk.take(j).skip(p) == kk.skip(p).take(j - p),
        kk.take(j)[p] == kk[p],
{
    assert(kk.take(j).skip(p) =~= kk.skip(p).take(j - p));
}

impl<V> Node<V> {
    /// The longest stored key (relative to this node) that is a prefix of
    /// `key[depth..]`: its end position in `key` and its value.
    pub fn longest_prefix_match_iterate<'a>(&'a self, key: &[u8], depth: usize) -> (r: Option<(usize, &'a V)>)
        requires
            self.wf(),
            depth <= key@.len(),
        ensures
            match r {
                Some((end, v)) => {
                    &&& depth <= end <= key@.len()
                    &&& self.lookup(key@.skip(depth as int).take(end - depth)) == Some(*v)
                    &&& forall|j: int|
                        end - depth < j <= key@.len() - depth ==> (#[trigger] self.lookup(
                            key@.skip(depth as int).take(j),
                        )) is None
                },
                None => forall|j: int|
                    0 <= j <= key@.len() - depth ==> (#[trigger] self.lookup(key@.skip(depth as int).take(j))) is None,
            },
        decreases self,
    {
        let ghost kk = key@.skip(depth as int);
        let ghost p = self.prefix@;
        let plen = self.prefix.len();
        let klen = key.len() - depth;
        if klen < plen || !is_prefix_at(self.prefix.as_slice(), key, depth) {
            proof {
                assert forall|j: int| 0 <= j <= kk.len() implies (#[trigger] self.lookup(kk.take(j))) is None by {
                    lemma_lookup_unfold(*self, kk.take(j));
                    if p.is_prefix_of(kk.take(j)) {
                        assert(p.is_prefix_of(kk)) by {
                            assert(kk.subrange(0, p.len() as int) == kk.take(j).subrange(0, p.len() as int));
                        }
                    }
                }
            }
            return None;
        }
        let candidate: Option<(usize, &'a V)> = match self.value.as_ref() {
            Some(v) => Some((depth + plen, v)),
            None => None,
        };
        proof {
            assert(kk.take(plen as int) == p);
            lemma_lookup_unfold(*self, p);
            assert(p.is_prefix_of(p)) by {
                assert(p.subrange(0, p.len() as int) == p);
            }
            assert forall|j: int| 0 <= j < plen implies (#[trigger] self.lookup(kk.take(j))) is None by {
                lemma_lookup_unfold(*self, kk.take(j));
            }
        }
        if klen == plen {
            return candidate;
        }
        let b = key[depth + plen];
        let (idx, found) = find_child(&self.children, b);
        if !found {
            proof {
                assert forall|j: int| plen < j <= kk.len() implies (#[trigger] self.lookup(kk.take(j))) is None by {
                    lemma_take_skip(kk, plen as int, j);
                    assert(p.is_prefix_of(kk.take(j))) by {
                        assert(kk.take(j).subrange(0, plen as int) == kk.subrange(0, plen as int));
                    }
                    lemma_lookup_no_child(*self, kk.take(j));
                }
            }
            return candidate;
        }
        proof {
            assert(self.children@[idx as int].wf());
            assert(kk.skip(plen as int) == key@.skip(depth + plen));
            assert forall|j: int| plen < j <= kk.len() implies self.lookup(kk.take(j))
                == self.children@[idx as int].lookup(key@.skip(depth + plen).take(j - plen)) by {
                lemma_take_skip(kk, plen as int, j);
                assert(p.is_prefix_of(kk.take(j))) by {
                    assert(kk.take(j).subrange(0, plen as int) == kk.subrange(0, plen as int));
                }
                lemma_lookup_child(*self, kk.take(j), idx as int);
            }
        }
        match self.children[idx].longest_prefix_match_iterate(key, depth + plen) {
            Some(found_below) => {
                proof {
                    let end = found_below.0;
                    assert(self.lookup(kk.take(end - depth)) == self.children@[idx as int].lookup(
                        key@.skip(depth + plen).take(end - depth - plen),
                    ));
                    assert forall|j: int| end - depth < j <= kk.len() implies (#[trigger] self.lookup(kk.take(j))) is None by {
                        assert(self.lookup(kk.take(j)) == self.children@[idx as int].lookup(
                            key@.skip(depth + plen).take(j - plen),
                        ));
                    }
                }
                Some(found_below)
            },
            None => {
                proof {
                    assert forall|j: int| plen < j <= kk.len() implies (#[trigger] self.lookup(kk.take(j))) is None by {
                        assert(self.lookup(kk.take(j)) == self.children@[idx as int].lookup(
                            key@.skip(depth + plen).take(j - plen),
                        ));
                    }
                }
                candidate
            },
        }
    }
}


/// `chain` goes down the tree: each node after the first is a child of the one
/// before it.
pub open spec fn descent<V>(chain: Seq<Node<V>>) -> bool {
    &&& chain.len() >= 1
    &&& forall|j: int| 0 <= j < chain.len() - 1 ==> #[trigger] chain[j].children@.contains(chain[j + 1])
}

/// The segments of all nodes of `chain` but the last, one after the other: the
/// bytes from the first node's start to the last node's start.
pub open spec fn segments<V>(chain: Seq<Node<V>>) -> Seq<u8>
    decreases chain.len(),
{
    if chain.len() <= 1 {
        Seq::empty()
    } else {
        chain[0].prefix@ + segments(chain.drop_first())
    }
}

/// A single node is a descent with no segments before its last node.
pub proof fn lemma_descent_single<V>(n: Node<V>)
    ensures
        descent(seq![n]),
        seq![n][0] == n,
        seq![n].last() == n,
        segments(seq![n]) == Seq::<u8>::empty(),
{
}

/// A node followed by a descent that starts at one of its children is a descent.
pub proof fn lemma_descent_cons<V>(n: Node<V>, idx: int, c2: Seq<Node<V>>)
    requires
        0 <= idx < n.children@.len(),
        descent(c2),
        c2[0] == n.children@[idx],
    ensures
        descent(seq![n] + c2),
        (seq![n] + c2)[0] == n,
        (seq![n] + c2).last() == c2.last(),
        segments(seq![n] + c2) == n.prefix@ + segments(c2),
{
    let chain = seq![n] + c2;
    assert(chain.drop_first() == c2);
    assert forall|j: int| 0 <= j < chain.len() - 1 implies #[trigger] chain[j].children@.contains(chain[j + 1]) by {
        if j == 0 {
            assert(chain[1] == c2[0]);
            assert(n.children@[idx] == chain[1]);
        } else {
            assert(chain[j] == c2[j - 1]);
            assert(chain[j + 1] == c2[j]);
            assert(c2[j - 1].children@.contains(c2[j]));
        }
    }
}

impl<V> Node<V> {
    /// Finds the subtree holding the keys (relative to this node) that start with
    /// `prefix[depth..]`. The bytes from this node's start to the subtree's start
    /// are appended to `path`.
    #[verifier::spinoff_prover]
    pub fn find_prefix_subtree<'a>(&'a self, prefix: &[u8], depth: usize, path: &mut Vec<u8>) -> (r: Option<&'a Node<V>>)
        requires
            self.wf(),
            depth <= prefix@.len(),
        ensures
            old(path)@.is_prefix_of(final(path)@),
            match r {
                Some(sub) => {
                    let q = prefix@.skip(depth as int);
                    let extra = final(path)@.skip(old(path)@.len() as int);
                    &&& sub.wf()
                    &&& forall|k: Seq<u8>|
                        q.is_prefix_of(k) ==> #[trigger] self.lookup(k) == if extra.is_prefix_of(k) {
                            sub.lookup(k.skip(extra.len() as int))
                        } else {
                            None
                        }
                    &&& forall|x: Seq<u8>| (#[trigger] sub.lookup(x)) is Some ==> q.is_prefix_of(extra + x)
                    &&& q.is_prefix_of(extra + sub.prefix@)
                    &&& exists|chain: Seq<Node<V>>|
                        #[trigger] descent(chain) && chain[0] == *self && chain.last() == *sub && extra
                            == segments(chain)
                },
                None => forall|k: Seq<u8>|
                    prefix@.skip(depth as int).is_prefix_of(k) ==> (#[trigger] self.lookup(k)) is None,
            },
        decreases self,
    {
        let ghost q = prefix@.skip(depth as int);
        let ghost p = self.prefix@;
        let ghost path0 = path@;
        let qlen = prefix.len() - depth;
        let plen = self.prefix.len();
        let lcp = common_prefix_len(self.prefix.as_slice(), prefix, depth);
        proof {
            assert(path0.is_prefix_of(path0)) by {
                assert(path0.subrange(0, path0.len() as int) == path0);
            }
            assert(path0.skip(path0.len() as int) =~= Seq::<u8>::empty());
        }
        if lcp < plen {
            if lcp == qlen {
                proof {
                    assert(q == p.take(lcp as int)) by {
                        assert(q.take(lcp as int) == q);
                    }
                    assert forall|k: Seq<u8>| q.is_prefix_of(k) implies #[trigger] self.lookup(k) == if Seq::<u8>::empty().is_prefix_of(k) {
                        self.lookup(k.skip(0))
                    } else {
                        None
                    } by {
                        assert(k.skip(0) == k);
                    }
                    assert forall|x: Seq<u8>| (#[trigger] self.lookup(x)) is Some implies q.is_prefix_of(Seq::<u8>::empty() + x) by {
                        lemma_lookup_unfold(*self, x);
                        assert(Seq::<u8>::empty() + x == x);
                        assert(x.subrange(0, q.len() as int) == p.subrange(0, q.len() as int)) by {
                            assert(x.subrange(0, p.len() as int) == p);
                        }
                    }
                    assert(q.is_prefix_of(p)) by {
                        assert(p.subrange(0, q.len() as int) == q);
                    }
                    assert(Seq::<u8>::empty() + p == p);
                    lemma_descent_single(*self);
                }
                return Some(self);
            } else {
                proof {
                    assert forall|k: Seq<u8>| q.is_prefix_of(k) implies (#[trigger] self.lookup(k)) is None by {
                        lemma_lookup_unfold(*self, k);
                        if p.is_prefix_of(k) {
                            assert(k[lcp as int] == p[lcp as int]) by {
                                assert(k.subrange(0, p.len() as int)[lcp as int] == p[lcp as int]);
                            }
                            assert(k[lcp as int] == q[lcp as int]) by {
                                assert(k.subrange(0, q.len() as int)[lcp as int] == q[lcp as int]);
                            }
                        }
                    }
                }
                return None;
            }
        }
        proof {
            assert(p == q.take(plen as int)) by {
                assert(p.take(plen as int) == p);
            }
        }
        if plen == qlen {
            proof {
                assert(q == p) by {
                    assert(q.take(plen as int) == q);
                }
                assert forall|k: Seq<u8>| q.is_prefix_of(k) implies #[trigger] self.lookup(k) == if Seq::<u8>::empty().is_prefix_of(k) {
                    self.lookup(k.skip(0))
                } else {
                    None
                } by {
                    assert(k.skip(0) == k);
                }
                assert forall|x: Seq<u8>| (#[trigger] self.lookup(x)) is Some implies q.is_prefix_of(Seq::<u8>::empty() + x) by {
                    lemma_lookup_unfold(*self, x);
                    assert(Seq::<u8>::empty() + x == x);
                }
                assert(Seq::<u8>::empty() + p == p);
                assert(q.is_prefix_of(p)) by {
                    assert(p.subrange(0, q.len() as int) == q);
                }
                lemma_descent_single(*self);
            }
            return Some(self);
        }
        let b = prefix[depth + plen];
        let (idx, found) = find_child(&self.children, b);
        if !found {
            proof {
                assert forall|k: Seq<u8>| q.is_prefix_of(k) implies (#[trigger] self.lookup(k)) is None by {
                    assert(p.is_prefix_of(k)) by {
                        assert(k.subrange(0, p.len() as int) == q.subrange(0, p.len() as int)) by {
                            assert(k.subrange(0, q.len() as int) == q);
                        }
                    }
                    assert(k[plen as int] == q[plen as int]) by {
                        assert(k.subrange(0, q.len() as int)[plen as int] == q[plen as int]);
                    }
                    lemma_lookup_no_child(*self, k);
                }
            }
            return None;
        }
        let mut i: usize = 0;
        while i < plen
            invariant
                0 <= i <= plen,
                plen == p.len(),
                p == self.prefix@,
                path@ == path0 + p.take(i as int),
            decreases plen - i,
        {
            path.push(self.prefix[i]);
            proof {
                assert(p.take(i + 1) == p.take(i as int).push(p[i as int]));
            }
            i = i + 1;
        }
        let ghost mid = path@;
        proof {
            assert(p.take(plen as int) == p);
            assert(self.children@[idx as int].wf());
        }
        let child = &self.children[idx];
        let r = child.find_prefix_subtree(prefix, depth + plen, path);
        proof {
            let q2 = prefix@.skip(depth + plen);
            assert(q2 == q.skip(plen as int));
            assert(path0.is_prefix_of(path@)) by {
                assert(path@.subrange(0, path0.len() as int) == mid.subrange(0, path0.len() as int)) by {
                    assert(path@.subrange(0, mid.len() as int) == mid);
                }
            }
            let e2 = path@.skip(mid.len() as int);
            let extra = path@.skip(path0.len() as int);
            assert(extra == p + e2) by {
                assert(path@ =~= mid + e2) by {
                    assert(path@.subrange(0, mid.len() as int) == mid);
                }
            }
            // A key with prefix `q` goes through the selected child.
            assert forall|k: Seq<u8>| q.is_prefix_of(k) implies p.is_prefix_of(k) && k.len() > plen
                && self.lookup(k) == child.lookup(k.skip(plen as int)) && q2.is_prefix_of(k.skip(plen as int)) by {
                assert(k.subrange(0, q.len() as int) == q);
                assert(k.subrange(0, p.len() as int) == q.subrange(0, p.len() as int));
                assert(k[plen as int] == q[plen as int]) by {
                    assert(k.subrange(0, q.len() as int)[plen as int] == q[plen as int]);
                }
                lemma_lookup_child(*self, k, idx as int);
                assert(k.skip(plen as int).subrange(0, q2.len() as int) =~= q2);
            }
            match r {
                Some(sub) => {
                    assert forall|k: Seq<u8>| q.is_prefix_of(k) implies #[trigger] self.lookup(k) == if extra.is_prefix_of(k) {
                        sub.lookup(k.skip(extra.len() as int))
                    } else {
                        None
                    } by {
                        let ks = k.skip(plen as int);
                        assert(child.lookup(ks) == if e2.is_prefix_of(ks) {
                            sub.lookup(ks.skip(e2.len() as int))
                        } else {
                            None
                        });
                        if e2.is_prefix_of(ks) {
                            assert(ks.skip(e2.len() as int) =~= k.skip(extra.len() as int));
                            assert(k.subrange(0, extra.len() as int) =~= p + e2) by {
                                assert(k.subrange(0, p.len() as int) == p);
                            }
                        }
                        if extra.is_prefix_of(k) {
                            assert forall|i: int| 0 <= i < e2.len() implies ks.subrange(0, e2.len() as int)[i] == e2[i] by {
                                assert(k.subrange(0, extra.len() as int)[plen + i] == extra[plen + i]);
                            }
                            assert(ks.subrange(0, e2.len() as int) =~= e2);
                            assert(ks.skip(e2.len() as int) =~= k.skip(extra.len() as int));
                        }
                    }
                    assert forall|x: Seq<u8>| (#[trigger] sub.lookup(x)) is Some implies q.is_prefix_of(extra + x) by {
                        assert(q2.is_prefix_of(e2 + x));
                        assert(extra + x =~= p + (e2 + x));
                        assert(q =~= p + q2) by {
                            assert(q.subrange(0, p.len() as int) == p);
                        }
                        assert((p + (e2 + x)).subrange(0, q.len() as int) =~= p + (e2 + x).subrange(0, q2.len() as int));
                    }
                    let x = sub.prefix@;
                    assert(q.is_prefix_of(extra + x)) by {
                        assert(q2.is_prefix_of(e2 + x));
                        assert(extra + x =~= p + (e2 + x));
                        assert(q =~= p + q2) by {
                            assert(q.subrange(0, p.len() as int) == p);
                        }
                        assert((p + (e2 + x)).subrange(0, q.len() as int) =~= p + (e2 + x).subrange(0, q2.len() as int));
                    }
                    let c2 = choose|chain: Seq<Node<V>>|
                        #[trigger] descent(chain) && chain[0] == *child && chain.last() == *sub && e2
                            == segments(chain);
                    lemma_descent_cons(*self, idx as int, c2);
                },
                None => {},
            }
        }
        r
    }
}


/// A node with the same segment and children as `o` and value `Some(x)` is
/// well-formed and answers `x` for `o`'s own key.
proof fn lemma_value_replaced<V>(o: Node<V>, kk: Seq<u8>)
    requires
        o.wf(),
        o.value is Some,
        kk == o.prefix@,
    ensures
        forall|n2: Node<V>|
            n2.prefix@ == o.prefix@ && n2.children@ == o.children@ && n2.value is Some ==> #[trigger] n2.wf(),
        forall|n2: Node<V>, k: Seq<u8>|
            n2.prefix@ == o.prefix@ && n2.children@ == o.children@ && n2.value is Some ==> #[trigger] n2.lookup(k)
                == if k == kk {
                n2.value
            } else {
                o.lookup(k)
            },
{
    assert forall|n2: Node<V>|
        n2.prefix@ == o.prefix@ && n2.children@ == o.children@ && n2.value is Some implies #[trigger] n2.wf() by {
        assert forall|i: int| 0 <= i < n2.children@.len() implies (#[trigger] n2.children@[i]).wf() by {
            assert(o.children@[i].wf());
        }
    }
    assert forall|n2: Node<V>, k: Seq<u8>|
        n2.prefix@ == o.prefix@ && n2.children@ == o.children@ && n2.value is Some implies #[trigger] n2.lookup(k)
            == if k == kk {
            n2.value
        } else {
            o.lookup(k)
        } by {
        lemma_lookup_unfold(n2, k);
        lemma_lookup_unfold(o, k);
        if o.prefix@.is_prefix_of(k) && k.len() == o.prefix@.len() {
            assert(k == kk) by {
                assert(k.subrange(0, o.prefix@.len() as int) == k);
            }
        }
    }
}

/// A node like `o` whose `idx`-th child is replaced by a well-formed one with the
/// same segment, answering like the old child except possibly under `kk`'s rest,
/// is well-formed and answers like `o` except possibly under `kk`.
proof fn lemma_child_replaced<V>(o: Node<V>, idx: int, kk: Seq<u8>)
    requires
        o.wf(),
        0 <= idx < o.children@.len(),
        o.prefix@.is_prefix_of(kk),
        kk.len() > o.prefix@.len(),
        kk[o.prefix@.len() as int] == first_byte(o.children@[idx]),
    ensures
        forall|n2: Node<V>|
            n2.prefix@ == o.prefix@ && n2.value == o.value && n2.children@ == o.children@.update(
                idx,
                n2.children@[idx],
            ) && n2.children@[idx].wf() && n2.children@[idx].prefix@ == o.children@[idx].prefix@
                ==> #[trigger] n2.wf(),
        forall|n2: Node<V>, k: Seq<u8>|
            n2.prefix@ == o.prefix@ && n2.value == o.value && n2.children@ == o.children@.update(
                idx,
                n2.children@[idx],
            ) && n2.children@[idx].prefix@ == o.children@[idx].prefix@ && (forall|k2: Seq<u8>|
                k2 != kk.skip(o.prefix@.len() as int) ==> #[trigger] n2.children@[idx].lookup(k2)
                    == o.children@[idx].lookup(k2)) ==> #[trigger] n2.lookup(k) == if k == kk {
                n2.children@[idx].lookup(kk.skip(o.prefix@.len() as int))
            } else {
                o.lookup(k)
            },
{
    let plen = o.prefix@.len();
    let b = first_byte(o.children@[idx]);
    let kr = kk.skip(plen as int);
    assert forall|n2: Node<V>|
        n2.prefix@ == o.prefix@ && n2.value == o.value && n2.children@ == o.children@.update(
            idx,
            n2.children@[idx],
        ) && n2.children@[idx].wf() && n2.children@[idx].prefix@ == o.children@[idx].prefix@
            implies #[trigger] n2.wf() by {
        lemma_update_child(o.children@, idx, n2.children@[idx]);
        assert forall|i: int| 0 <= i < n2.children@.len() implies (#[trigger] n2.children@[i]).wf() by {
            if i != idx {
                assert(o.children@[i].wf());
            }
        }
    }
    assert forall|n2: Node<V>, k: Seq<u8>|
        n2.prefix@ == o.prefix@ && n2.value == o.value && n2.children@ == o.children@.update(
            idx,
            n2.children@[idx],
        ) && n2.children@[idx].prefix@ == o.children@[idx].prefix@ && (forall|k2: Seq<u8>|
            k2 != kr ==> #[trigger] n2.children@[idx].lookup(k2) == o.children@[idx].lookup(k2))
            implies #[trigger] n2.lookup(k) == if k == kk {
            n2.children@[idx].lookup(kr)
        } else {
            o.lookup(k)
        } by {
        let c = n2.children@[idx];
        lemma_update_child(o.children@, idx, c);
        lemma_lookup_unfold(n2, k);
        lemma_lookup_unfold(o, k);
        if o.prefix@.is_prefix_of(k) && k.len() > plen {
            let rest = k.skip(plen as int);
            if rest[0] == b {
                lemma_lookup_child(o, k, idx);
                if rest == kr {
                    assert(k.take(plen as int) == kk.take(plen as int));
                    lemma_seq_split_eq(k, kk, plen as int);
                }
                if k == kk {
                    assert(rest == kr);
                }
            } else {
                assert(k != kk);
            }
        } else {
            assert(k != kk);
        }
    }
}

impl<V> Node<V> {
    /// A mutable reference to the value under `key[depth..]` (relative to this node).
    pub fn get_iterate_mut<'a>(&'a mut self, key: &[u8], depth: usize) -> (r: Option<&'a mut V>)
        requires
            old(self).wf(),
            depth <= key@.len(),
        ensures
            final(self).prefix@ == old(self).prefix@,
            final(self).wf(),
            match r {
                Some(v) => {
                    &&& old(self).lookup(key@.skip(depth as int)) == Some(*v)
                    &&& forall|k: Seq<u8>| #[trigger] final(self).lookup(k) == if k == key@.skip(depth as int) {
                        Some(*final(v))
                    } else {
                        old(self).lookup(k)
                    }
                },
                None => {
                    &&& old(self).lookup(key@.skip(depth as int)) is None
                    &&& forall|k: Seq<u8>| #[trigger] final(self).lookup(k) == old(self).lookup(k)
                },
            },
        decreases old(self).height(),
    {
        let ghost kk = key@.skip(depth as int);
        let ghost o = *self;
        let plen = self.prefix.len();
        if key.len() - depth < plen || !is_prefix_at(self.prefix.as_slice(), key, depth) {
            proof {
                lemma_lookup_unfold(o, kk);
            }
            return None;
        }
        if key.len() - depth == plen {
            proof {
                lemma_lookup_unfold(o, kk);
                assert(kk == o.prefix@) by {
                    assert(kk.subrange(0, plen as int) == kk);
                }
                if o.value is Some {
                    lemma_value_replaced(o, kk);
                }
            }
            return self.value.as_mut();
        }
        let b = key[depth + plen];
        let (idx, found) = find_child(&self.children, b);
        if !found {
            proof {
                lemma_lookup_no_child(o, kk);
            }
            return None;
        }
        proof {
            assert(o.children@[idx as int].wf());
            assert(kk.skip(plen as int) == key@.skip(depth + plen));
            lemma_lookup_child(o, kk, idx as int);
            lemma_child_height(o, idx as int);
        }
        proof {
            lemma_child_replaced(o, idx as int, kk);
        }
        let child = &mut self.children[idx];
        child.get_iterate_mut(key, depth + plen)
    }
}

} // verus!
