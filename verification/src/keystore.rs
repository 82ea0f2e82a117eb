//! An in-memory store of serialized protocol entities under byte keys.
//!
//! The store itself is a keyed collection with unique keys; turning it into
//! its file form encodes every key and value in base64, and reading the
//! file form back decodes them.  Writing and reading the file itself is the
//! surrounding application's business.

use vstd::prelude::*;

use crate::crypto::clone_bytes;

verus! {

/// The standard-alphabet base64 spelling of a byte string.
pub uninterp spec fn b64_of(b: Seq<u8>) -> Seq<char>;

/// What base64 decoding returns: the bytes, or nothing on an invalid
/// spelling.
pub uninterp spec fn b64_dec_of(s: Seq<char>) -> Option<Seq<u8>>;

/// Relies on `base64::encode` (standard alphabet): the spelling is a pure
/// function of the bytes, and `base64::decode` inverts it.
#[verifier::external_body]
fn b64_encode(b: &Vec<u8>) -> (r: String)
    ensures
        r@ == b64_of(b@),
        b64_dec_of(r@) == Some(b@),
{
    base64::encode(b)
}

/// Relies on `base64::decode`: a pure function of its input, `None` exactly
/// on strings that are not valid standard-alphabet base64.
#[verifier::external_body]
fn b64_decode(s: &String) -> (r: Option<Vec<u8>>)
    ensures
        match b64_dec_of(s@) {
            Some(b) => r matches Some(v) && v@ == b,
            None => r is None,
        },
{
    match base64::decode(s) {
        Ok(v) => Some(v),
        Err(_) => None,
    }
}

/// Errors thrown by the key store.
#[derive(Debug, Clone, Copy, PartialEq, Eq, Structural)]
pub enum PersistentKeyStoreError {
    SerializationError,
}

/// The store: serialized values under byte keys, keys unique.
pub struct PersistentKeyStore {
    pub values: Vec<(Vec<u8>, Vec<u8>)>,
}

/// The store holds this key-value pair.
pub open spec fn has_pair(s: Seq<(Vec<u8>, Vec<u8>)>, k: Seq<u8>, v: Seq<u8>) -> bool {
    exists|i: int| 0 <= i < s.len() && (#[trigger] s[i]).0@ == k && s[i].1@ == v
}

/// The store holds this key.
pub open spec fn has_key(s: Seq<(Vec<u8>, Vec<u8>)>, k: Seq<u8>) -> bool {
    exists|i: int| 0 <= i < s.len() && (#[trigger] s[i]).0@ == k
}

impl PersistentKeyStore {
    /// Keys are unique, so a held pair is the only binding of its key.
    pub open spec fn wf(&self) -> bool {
        forall|i: int, j: int| 0 <= i < j < self.values@.len()
            ==> (#[trigger] self.values@[i]).0@ != (#[trigger] self.values@[j]).0@
    }

    /// Checks at run time that every key is bound at most once.
    pub fn check_unique(&self) -> (r: bool)
        ensures
            r == self.wf(),
    {
        let mut i: usize = 0;
        while i < self.values.len()
            invariant
                i <= self.values@.len(),
                forall|a: int, b: int| 0 <= a < b < self.values@.len() && a < i
                    ==> (#[trigger] self.values@[a]).0@ != (#[trigger] self.values@[b]).0@,
            decreases self.values@.len() - i,
        {
            let mut j: usize = i + 1;
            while j < self.values.len()
                invariant
                    i < j <= self.values@.len(),
                    i < self.values@.len(),
                    forall|b: int| i < b < j ==> (#[trigger] self.values@[b]).0@ != self.values@[i as int].0@,
                decreases self.values@.len() - j,
            {
                if crate::treesync::eq_bytes(&self.values[i].0, &self.values[j].0) {
                    return false;
                }
                j = j + 1;
            }
            i = i + 1;
        }
        true
    }

    /// An empty store.
    pub fn new() -> (r: PersistentKeyStore)
        ensures
            r.wf(),
            r.values@.len() == 0,
    {
        PersistentKeyStore { values: Vec::new() }
    }

    /// Drops the binding of a key, leaving every other binding in place.
    pub fn delete(&mut self, k: &Vec<u8>) -> (r: Result<(), PersistentKeyStoreError>)
        requires
            old(self).wf(),
        ensures
            final(self).wf(),
            r is Ok,
            !has_key(final(self).values@, k@),
            forall|k2: Seq<u8>, v2: Seq<u8>| k2 != k@ ==>
                (has_pair(final(self).values@, k2, v2) <==> has_pair(old(self).values@, k2, v2)),
    {
        let mut i: usize = 0;
        let mut found: bool = false;
        let mut at: usize = 0;
        while i < self.values.len() && !found
            invariant
                i <= self.values@.len(),
                self == old(self),
                forall|q: int| 0 <= q < i ==> (#[trigger] self.values@[q]).0@ != k@,
                found ==> (at < self.values@.len() && self.values@[at as int].0@ == k@ && at == i),
            decreases self.values@.len() - i + (if found { 0int } else { 1int }),
        {
            if crate::treesync::eq_bytes(&self.values[i].0, k) {
                found = true;
                at = i;
            } else {
                i = i + 1;
            }
        }
        if found {
            let ghost pre = self.values@;
            self.values.remove(at);
            proof {
                assert(self.values@ =~= pre.remove(at as int));
                assert forall|q: int| 0 <= q < self.values@.len() implies (#[trigger] self.values@[q]).0@ != k@ by {
                    if q < at {
                        assert(self.values@[q] == pre[q]);
                    } else {
                        assert(self.values@[q] == pre[q + 1]);
                    }
                }
                assert forall|k2: Seq<u8>, v2: Seq<u8>| k2 != k@ implies
                    (has_pair(self.values@, k2, v2) <==> has_pair(pre, k2, v2)) by {
                    if has_pair(self.values@, k2, v2) {
                        let q = choose|q: int| 0 <= q < self.values@.len() && (#[trigger] self.values@[q]).0@ == k2 && self.values@[q].1@ == v2;
                        if q < at {
                            assert(pre[q].0@ == k2 && pre[q].1@ == v2);
                        } else {
                            assert(pre[q + 1].0@ == k2 && pre[q + 1].1@ == v2);
                        }
                    }
                    if has_pair(pre, k2, v2) {
                        let q = choose|q: int| 0 <= q < pre.len() && (#[trigger] pre[q]).0@ == k2 && pre[q].1@ == v2;
                        if q < at {
                            assert(self.values@[q].0@ == k2 && self.values@[q].1@ == v2);
                        } else {
                            assert(q != at);
                            assert(self.values@[q - 1].0@ == k2 && self.values@[q - 1].1@ == v2);
                        }
                    }
                }
            }
        } else {
            proof {
                assert(!has_key(self.values@, k@));
            }
        }
        Ok(())
    }

    /// Binds a value to a key, replacing any earlier binding.
    pub fn store(&mut self, k: &Vec<u8>, v: &Vec<u8>) -> (r: Result<(), PersistentKeyStoreError>)
        requires
            old(self).wf(),
        ensures
            final(self).wf(),
            r is Ok,
            has_pair(final(self).values@, k@, v@),
            forall|k2: Seq<u8>, v2: Seq<u8>| k2 != k@ ==>
                (has_pair(final(self).values@, k2, v2) <==> has_pair(old(self).values@, k2, v2)),
    {
        let _ = self.delete(k);
        let ghost mid = self.values@;
        self.values.push((clone_bytes(k), clone_bytes(v)));
        proof {
            let cur = self.values@;
            assert(cur[cur.len() - 1].0@ == k@ && cur[cur.len() - 1].1@ == v@);
            assert forall|i: int, j: int| 0 <= i < j < cur.len() implies (#[trigger] cur[i]).0@ != (#[trigger] cur[j]).0@ by {
                if j < cur.len() - 1 {
                    assert(cur[i] == mid[i] && cur[j] == mid[j]);
                } else {
                    assert(cur[i] == mid[i]);
                    assert(!has_key(mid, k@));
                }
            }
            assert forall|k2: Seq<u8>, v2: Seq<u8>| k2 != k@ implies
                (has_pair(cur, k2, v2) <==> has_pair(mid, k2, v2)) by {
                if has_pair(cur, k2, v2) {
                    let q = choose|q: int| 0 <= q < cur.len() && (#[trigger] cur[q]).0@ == k2 && cur[q].1@ == v2;
                    assert(q < cur.len() - 1);
                    assert(mid[q].0@ == k2 && mid[q].1@ == v2);
                }
                if has_pair(mid, k2, v2) {
                    let q = choose|q: int| 0 <= q < mid.len() && (#[trigger] mid[q]).0@ == k2 && mid[q].1@ == v2;
                    assert(cur[q].0@ == k2 && cur[q].1@ == v2);
                }
            }
        }
        Ok(())
    }

    /// Reads the value bound to a key, if any.
    pub fn read(&self, k: &Vec<u8>) -> (r: Option<Vec<u8>>)
        requires
            self.wf(),
        ensures
            r matches Some(v) ==> has_pair(self.values@, k@, v@),
            r is None ==> !has_key(self.values@, k@),
    {
        let mut i: usize = 0;
        while i < self.values.len()
            invariant
                i <= self.values@.len(),
                forall|q: int| 0 <= q < i ==> (#[trigger] self.values@[q]).0@ != k@,
            decreases self.values@.len() - i,
        {
            if crate::treesync::eq_bytes(&self.values[i].0, k) {
                return Some(clone_bytes(&self.values[i].1));
            }
            i = i + 1;
        }
        None
    }

    /// The file form: every key and value spelled in base64, in store
    /// order, each spelling decoding back to its bytes.
    pub fn to_serializable(&self) -> (r: Vec<(String, String)>)
        ensures
            r@.len() == self.values@.len(),
            forall|i: int| 0 <= i < r@.len() ==> {
                let p = #[trigger] r@[i];
                &&& p.0@ == b64_of(self.values@[i].0@)
                &&& p.1@ == b64_of(self.values@[i].1@)
                &&& b64_dec_of(p.0@) == Some(self.values@[i].0@)
                &&& b64_dec_of(p.1@) == Some(self.values@[i].1@)
            },
    {
        let mut r: Vec<(String, String)> = Vec::new();
        let mut i: usize = 0;
        while i < self.values.len()
            invariant
                i <= self.values@.len(),
                r@.len() == i,
                forall|q: int| 0 <= q < i ==> {
                    let p = #[trigger] r@[q];
                    &&& p.0@ == b64_of(self.values@[q].0@)
                    &&& p.1@ == b64_of(self.values@[q].1@)
                    &&& b64_dec_of(p.0@) == Some(self.values@[q].0@)
                    &&& b64_dec_of(p.1@) == Some(self.values@[q].1@)
                },
            decreases self.values@.len() - i,
        {
            let ks = b64_encode(&self.values[i].0);
            let vs = b64_encode(&self.values[i].1);
            r.push((ks, vs));
            i = i + 1;
        }
        r
    }

    /// Rebuilds a store from its file form; later bindings of one key win,
    /// as when replaying inserts.  Fails exactly when some entry is not
    /// base64, and on success the store holds exactly each key's last
    /// binding.
    #[verifier::rlimit(100)]
    #[verifier::spinoff_prover]
    pub fn from_serializable(pairs: &Vec<(String, String)>) -> (r: Result<PersistentKeyStore, PersistentKeyStoreError>)
        ensures
            (r is Err) <==> any_pair_malformed(pairs@),
            r matches Err(e) ==> e == PersistentKeyStoreError::SerializationError,
            r matches Ok(s) ==> s.wf() && forall|k: Seq<u8>, v: Seq<u8>|
                #![trigger has_pair(s.values@, k, v)]
                #![trigger file_contents(pairs@, k, v)]
                (has_pair(s.values@, k, v) <==> file_contents(pairs@, k, v)),
    {
        let mut s = PersistentKeyStore::new();
        let mut i: usize = 0;
        proof {
            assert forall|k: Seq<u8>, v: Seq<u8>| !(#[trigger] has_pair(s.values@, k, v))
                && !(exists|q: int| #[trigger] last_binding_upto(pairs@, q, k, v, 0)) by {}
        }
        while i < pairs.len()
            invariant
                i <= pairs@.len(),
                s.wf(),
                forall|q: int| 0 <= q < i ==> b64_dec_of((#[trigger] pairs@[q]).0@) is Some
                    && b64_dec_of(pairs@[q].1@) is Some,
                forall|k: Seq<u8>, v: Seq<u8>|
                    #![trigger has_pair(s.values@, k, v)]
                    (has_pair(s.values@, k, v)
                        <==> exists|q: int| #[trigger] last_binding_upto(pairs@, q, k, v, i as int)),
            decreases pairs@.len() - i,
        {
            let k = match b64_decode(&pairs[i].0) {
                Some(v) => v,
                None => {
                    proof {
                        assert(b64_dec_of(pairs@[i as int].0@) is None);
                    }
                    return Err(PersistentKeyStoreError::SerializationError);
                },
            };
            let v = match b64_decode(&pairs[i].1) {
                Some(v) => v,
                None => {
                    proof {
                        assert(b64_dec_of(pairs@[i as int].1@) is None);
                    }
                    return Err(PersistentKeyStoreError::SerializationError);
                },
            };
            let ghost kv = k@;
            let ghost vv = v@;
            let ghost pre_vals = s.values@;
            let _ = s.store(&k, &v);
            proof {
                let cur = s.values@;
                assert forall|k2: Seq<u8>, v2: Seq<u8>|
                    #![trigger has_pair(cur, k2, v2)]
                    (has_pair(cur, k2, v2)
                        <==> exists|q: int| #[trigger] last_binding_upto(pairs@, q, k2, v2, i as int + 1)) by {
                    if k2 == kv {
                        if has_pair(cur, k2, v2) {
                            // keys are unique, so the binding is the freshly stored one
                            let a = choose|a: int| 0 <= a < cur.len() && (#[trigger] cur[a]).0@ == k2 && cur[a].1@ == v2;
                            let b = choose|b: int| 0 <= b < cur.len() && (#[trigger] cur[b]).0@ == kv && cur[b].1@ == vv;
                            assert(a == b);
                            assert(v2 == vv);
                            assert(last_binding_upto(pairs@, i as int, k2, v2, i as int + 1));
                        }
                        if exists|q: int| #[trigger] last_binding_upto(pairs@, q, k2, v2, i as int + 1) {
                            let q = choose|q: int| #[trigger] last_binding_upto(pairs@, q, k2, v2, i as int + 1);
                            // a binding of this key below would be shadowed by pair i
                            assert(q == i as int) by {
                                if q < i as int {
                                    assert(b64_dec_of((#[trigger] pairs@[i as int]).0@) != Some(k2));
                                }
                            }
                            assert(v2 == vv);
                            assert(has_pair(cur, k2, v2));
                        }
                    } else {
                        assert(has_pair(cur, k2, v2) <==> has_pair(pre_vals, k2, v2));
                        if has_pair(pre_vals, k2, v2) {
                            let q = choose|q: int| #[trigger] last_binding_upto(pairs@, q, k2, v2, i as int);
                            assert(last_binding_upto(pairs@, q, k2, v2, i as int + 1)) by {
                                assert forall|j: int| q < j < i as int + 1 implies b64_dec_of((#[trigger] pairs@[j]).0@) != Some(k2) by {
                                    if j == i as int {
                                        assert(b64_dec_of(pairs@[j].0@) == Some(kv));
                                    }
                                }
                            }
                        }
                        if exists|q: int| #[trigger] last_binding_upto(pairs@, q, k2, v2, i as int + 1) {
                            let q = choose|q: int| #[trigger] last_binding_upto(pairs@, q, k2, v2, i as int + 1);
                            assert(q != i as int) by {
                                if q == i as int {
                                    assert(b64_dec_of(pairs@[q].0@) == Some(kv));
                                }
                            }
                            assert(last_binding_upto(pairs@, q, k2, v2, i as int));
                            assert(has_pair(pre_vals, k2, v2));
                        }
                    }
                }
            }
            i = i + 1;
        }
        proof {
            assert forall|q: int| 0 <= q < pairs@.len() implies !(b64_dec_of((#[trigger] pairs@[q]).0@) is None
                || b64_dec_of(pairs@[q].1@) is None) by {}
        }
        Ok(s)
    }
}

/// The name of a member's key store file.
pub fn key_store_file_name(user_name: &String) -> (r: String)
    ensures
        r@ == "openmls_cli_"@ + user_name@ + "_ks.json"@,
{
    let mut s = String::new();
    s.append("openmls_cli_");
    s.append(user_name.as_str());
    s.append("_ks.json");
    s
}

/// Some entry of the file form is not base64.
pub open spec fn any_pair_malformed(pairs: Seq<(String, String)>) -> bool {
    exists|i: int| 0 <= i < pairs.len()
        && (b64_dec_of((#[trigger] pairs[i]).0@) is None || b64_dec_of(pairs[i].1@) is None)
}

/// Index `i` holds the last binding of `k` among the first `end` entries.
pub open spec fn last_binding_upto(pairs: Seq<(String, String)>, i: int, k: Seq<u8>, v: Seq<u8>, end: int) -> bool {
    &&& 0 <= i < end <= pairs.len()
    &&& b64_dec_of(pairs[i].0@) == Some(k)
    &&& b64_dec_of(pairs[i].1@) == Some(v)
    &&& forall|j: int| i < j < end ==> b64_dec_of((#[trigger] pairs[j]).0@) != Some(k)
}

/// The file form binds `k` to `v`: its last entry for `k` carries `v`.
pub open spec fn file_contents(pairs: Seq<(String, String)>, k: Seq<u8>, v: Seq<u8>) -> bool {
    exists|i: int| #[trigger] last_binding_upto(pairs, i, k, v, pairs.len() as int)
}

/// Round trip through the file form: a store written out by
/// `to_serializable` and rebuilt by `from_serializable` holds exactly its
/// old bindings.  The hypotheses are those two functions' contracts.
#[verifier::rlimit(100)]
#[verifier::spinoff_prover]
pub proof fn lemma_file_form_round_trip(s: &PersistentKeyStore, pairs: Seq<(String, String)>, rebuilt: &PersistentKeyStore)
    requires
        s.wf(),
        pairs.len() == s.values@.len(),
        forall|i: int| 0 <= i < pairs.len() ==> b64_dec_of((#[trigger] pairs[i]).0@) == Some(s.values@[i].0@)
            && b64_dec_of(pairs[i].1@) == Some(s.values@[i].1@),
        rebuilt.wf(),
        forall|k: Seq<u8>, v: Seq<u8>|
            #![trigger has_pair(rebuilt.values@, k, v)]
            #![trigger file_contents(pairs, k, v)]
            (has_pair(rebuilt.values@, k, v) <==> file_contents(pairs, k, v)),
    ensures
        !any_pair_malformed(pairs),
        forall|k: Seq<u8>, v: Seq<u8>|
            #![trigger has_pair(rebuilt.values@, k, v)]
            #![trigger has_pair(s.values@, k, v)]
            (has_pair(rebuilt.values@, k, v) <==> has_pair(s.values@, k, v)),
{
    assert forall|k: Seq<u8>, v: Seq<u8>| file_contents(pairs, k, v) <==> #[trigger] has_pair(s.values@, k, v) by {
        if file_contents(pairs, k, v) {
            let i = choose|i: int| #[trigger] last_binding_upto(pairs, i, k, v, pairs.len() as int);
            assert(s.values@[i].0@ == k && s.values@[i].1@ == v);
            assert(has_pair(s.values@, k, v));
        }
        if has_pair(s.values@, k, v) {
            let a = choose|a: int| 0 <= a < s.values@.len() && (#[trigger] s.values@[a]).0@ == k && s.values@[a].1@ == v;
            assert(last_binding_upto(pairs, a, k, v, pairs.len() as int)) by {
                assert forall|j: int| a < j < pairs.len() implies b64_dec_of((#[trigger] pairs[j]).0@) != Some(k) by {
                    assert(s.values@[a].0@ != s.values@[j].0@);
                }
            }
            assert(file_contents(pairs, k, v));
        }
    }
    assert forall|i: int| 0 <= i < pairs.len() implies !(b64_dec_of((#[trigger] pairs[i]).0@) is None
        || b64_dec_of(pairs[i].1@) is None) by {}
}

} // verus!
