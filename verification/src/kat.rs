//! Known-answer test vectors for the TreeKEM engine.
//!
//! A vector describes a tree a new member joins, the path secret handed to
//! it, and an update path sent afterwards; running it re-derives every
//! secret and compares trees, hashes and commit secrets against the
//! recorded values.  All fields travel as lowercase hex strings.

use vstd::prelude::*;
use vstd::string::StrSliceExecFns;

use crate::codec::{decode_nodes, encode_nodes};
use crate::crypto::{clone_bytes, kdf, HpkeCiphertext};
use crate::errors::TreeError;
use crate::index::{LeafIndex, NodeIndex};
use crate::node::{nv, Node};
use crate::treekem::{commit_label_bytes, path_label_bytes, UpdatePath, UpdatePathNode};
use crate::node::{strip_nodes, NodeV};
use crate::treesync::{all_parent_hashes_ok, eq_bytes, th, TreeSync};
use crate::treemath::root_spec;

verus! {

/// The sixteen lowercase hex digits.
pub open spec fn hex_digit(n: int) -> char {
    if n == 0 { '0' } else if n == 1 { '1' } else if n == 2 { '2' } else if n == 3 { '3' }
    else if n == 4 { '4' } else if n == 5 { '5' } else if n == 6 { '6' } else if n == 7 { '7' }
    else if n == 8 { '8' } else if n == 9 { '9' } else if n == 10 { 'a' } else if n == 11 { 'b' }
    else if n == 12 { 'c' } else if n == 13 { 'd' } else if n == 14 { 'e' } else { 'f' }
}

/// The lowercase hex spelling of a byte string.
pub open spec fn hex_of(b: Seq<u8>) -> Seq<char>
    decreases b.len(),
{
    if b.len() == 0 {
        Seq::empty()
    } else {
        seq![hex_digit(b[0] as int / 16), hex_digit(b[0] as int % 16)] + hex_of(b.drop_first())
    }
}

/// Appends one hex digit.
fn push_digit(s: &mut String, n: u8)
    requires
        n < 16,
    ensures
        final(s)@ == old(s)@ + seq![hex_digit(n as int)],
{
    proof {
        reveal_strlit("0");
        reveal_strlit("1");
        reveal_strlit("2");
        reveal_strlit("3");
        reveal_strlit("4");
        reveal_strlit("5");
        reveal_strlit("6");
        reveal_strlit("7");
        reveal_strlit("8");
        reveal_strlit("9");
        reveal_strlit("a");
        reveal_strlit("b");
        reveal_strlit("c");
        reveal_strlit("d");
        reveal_strlit("e");
        reveal_strlit("f");
    }
    if n == 0 { s.append("0") } else if n == 1 { s.append("1") } else if n == 2 { s.append("2") }
    else if n == 3 { s.append("3") } else if n == 4 { s.append("4") } else if n == 5 { s.append("5") }
    else if n == 6 { s.append("6") } else if n == 7 { s.append("7") } else if n == 8 { s.append("8") }
    else if n == 9 { s.append("9") } else if n == 10 { s.append("a") } else if n == 11 { s.append("b") }
    else if n == 12 { s.append("c") } else if n == 13 { s.append("d") } else if n == 14 { s.append("e") }
    else { s.append("f") }
}

/// Spells a byte string in lowercase hex.
pub fn bytes_to_hex(b: &Vec<u8>) -> (r: String)
    ensures
        r@ == hex_of(b@),
{
    let mut s = String::new();
    let mut i: usize = 0;
    proof {
        assert(b@.skip(0) =~= b@);
        assert(s@ + hex_of(b@.skip(0)) =~= hex_of(b@));
    }
    while i < b.len()
        invariant
            i <= b@.len(),
            s@ + hex_of(b@.skip(i as int)) == hex_of(b@),
        decreases b@.len() - i,
    {
        let ghost pre = s@;
        let byte = b[i];
        proof {
            assert(b@.skip(i as int).len() > 0);
            assert(b@.skip(i as int)[0] == b@[i as int]);
            assert(b@.skip(i as int).drop_first() =~= b@.skip(i as int + 1));
        }
        push_digit(&mut s, byte / 16);
        push_digit(&mut s, byte % 16);
        i = i + 1;
        proof {
            assert(s@ =~= pre + seq![hex_digit(byte as int / 16), hex_digit(byte as int % 16)]);
            assert(s@ + hex_of(b@.skip(i as int)) =~= pre + hex_of(b@.skip(i as int - 1)));
        }
    }
    proof {
        assert(hex_of(b@.skip(b@.len() as int)) =~= Seq::<char>::empty());
        assert(s@ =~= s@ + hex_of(b@.skip(b@.len() as int)));
    }
    s
}

/// Reads one hex digit; fails on any other character.
fn digit_val(c: char) -> (r: Result<u8, TreeError>)
    ensures
        r matches Ok(n) ==> n < 16 && hex_digit(n as int) == c,
        r matches Err(e) ==> e == TreeError::ValidationError,
{
    if c == '0' { Ok(0) } else if c == '1' { Ok(1) } else if c == '2' { Ok(2) }
    else if c == '3' { Ok(3) } else if c == '4' { Ok(4) } else if c == '5' { Ok(5) }
    else if c == '6' { Ok(6) } else if c == '7' { Ok(7) } else if c == '8' { Ok(8) }
    else if c == '9' { Ok(9) } else if c == 'a' { Ok(10) } else if c == 'b' { Ok(11) }
    else if c == 'c' { Ok(12) } else if c == 'd' { Ok(13) } else if c == 'e' { Ok(14) }
    else if c == 'f' { Ok(15) } else { Err(TreeError::ValidationError) }
}

/// Parses a lowercase hex string.  On success the bytes re-spell to
/// exactly the input.
pub fn hex_to_bytes(s: &str) -> (r: Result<Vec<u8>, TreeError>)
    ensures
        r matches Ok(v) ==> hex_of(v@) == s@,
        r matches Err(e) ==> e == TreeError::ValidationError,
{
    let n = s.unicode_len();
    if n % 2 != 0 {
        return Err(TreeError::ValidationError);
    }
    let mut v: Vec<u8> = Vec::new();
    let mut i: usize = 0;
    proof {
        assert(hex_of(v@) + s@.skip(0) =~= s@.skip(0));
        assert(s@.skip(0) =~= s@);
    }
    while i < n
        invariant
            i <= n,
            i % 2 == 0,
            n % 2 == 0,
            n == s@.len(),
            hex_of(v@) + s@.skip(i as int) == s@,
        decreases n - i,
    {
        proof {
            let a = i as int / 2;
            let bq = n as int / 2;
            vstd::arithmetic::div_mod::lemma_fundamental_div_mod(i as int, 2);
            vstd::arithmetic::div_mod::lemma_fundamental_div_mod(n as int, 2);
            assert(i as int == 2 * a + (i as int) % 2);
            assert((i as int) % 2 == 0);
            assert((n as int) % 2 == 0);
            assert(i as int == 2 * a);
            assert(n as int == 2 * bq);
            assert(a < bq);
            assert(i + 2 <= n);
        }
        let hi = match digit_val(s.get_char(i)) {
            Ok(x) => x,
            Err(e) => {
                return Err(e);
            },
        };
        let lo = match digit_val(s.get_char(i + 1)) {
            Ok(x) => x,
            Err(e) => {
                return Err(e);
            },
        };
        let ghost pre = v@;
        v.push(16 * hi + lo);
        i = i + 2;
        proof {
            let b = (16 * hi + lo) as u8;
            assert(b as int / 16 == hi as int && b as int % 16 == lo as int) by {
                vstd::arithmetic::div_mod::lemma_fundamental_div_mod_converse(b as int, 16, hi as int, lo as int);
            }
            lemma_hex_push(pre, b);
            assert(seq![hex_digit(hi as int), hex_digit(lo as int)] =~= s@.subrange(i as int - 2, i as int));
            assert(hex_of(v@) + s@.skip(i as int) =~= (hex_of(pre) + s@.subrange(i as int - 2, i as int)) + s@.skip(i as int));
            assert((hex_of(pre) + s@.subrange(i as int - 2, i as int)) + s@.skip(i as int) =~= hex_of(pre) + s@.skip(i as int - 2));
        }
    }
    proof {
        assert(s@.skip(n as int) =~= Seq::<char>::empty());
        assert(hex_of(v@) =~= hex_of(v@) + s@.skip(n as int));
    }
    Ok(v)
}

/// Appending a byte extends the hex spelling by its two digits.
proof fn lemma_hex_push(b: Seq<u8>, x: u8)
    ensures
        hex_of(b.push(x)) == hex_of(b) + seq![hex_digit(x as int / 16), hex_digit(x as int % 16)],
    decreases b.len(),
{
    if b.len() == 0 {
        assert(b.push(x)[0] == x);
        assert(b.push(x).drop_first() =~= Seq::<u8>::empty());
        assert(hex_of(Seq::<u8>::empty()) =~= Seq::<char>::empty());
        assert(hex_of(b.push(x)) =~= seq![hex_digit(x as int / 16), hex_digit(x as int % 16)] + hex_of(b.push(x).drop_first()));
        assert(hex_of(b.push(x)) =~= seq![hex_digit(x as int / 16), hex_digit(x as int % 16)]);
        assert(hex_of(b) + seq![hex_digit(x as int / 16), hex_digit(x as int % 16)]
            =~= seq![hex_digit(x as int / 16), hex_digit(x as int % 16)]);
    } else {
        lemma_hex_push(b.drop_first(), x);
        assert(b.push(x).drop_first() =~= b.drop_first().push(x));
        assert(b.push(x)[0] == b[0]);
        assert(hex_of(b.push(x)) =~= seq![hex_digit(b[0] as int / 16), hex_digit(b[0] as int % 16)] + (hex_of(b.drop_first()) + seq![hex_digit(x as int / 16), hex_digit(x as int % 16)]));
        assert(seq![hex_digit(b[0] as int / 16), hex_digit(b[0] as int % 16)] + (hex_of(b.drop_first()) + seq![hex_digit(x as int / 16), hex_digit(x as int % 16)])
            =~= (seq![hex_digit(b[0] as int / 16), hex_digit(b[0] as int % 16)] + hex_of(b.drop_first())) + seq![hex_digit(x as int / 16), hex_digit(x as int % 16)]);
    }
}

/// One ciphertext on the wire: encapsulation and payload, length-prefixed.
pub open spec fn enc_ct(c: HpkeCiphertext) -> Seq<u8> {
    crate::codec::enc_bytes(c.kem_output@) + crate::codec::enc_bytes(c.ciphertext@)
}

/// The ciphertexts of one path node, in order.
pub open spec fn enc_cts_from(cts: Seq<HpkeCiphertext>, i: int) -> Seq<u8>
    decreases cts.len() - i,
{
    if i < 0 || i >= cts.len() {
        Seq::empty()
    } else {
        enc_ct(cts[i]) + enc_cts_from(cts, i + 1)
    }
}

/// One path node on the wire: its public key, then its counted ciphertexts.
pub open spec fn enc_upn(n: &UpdatePathNode) -> Seq<u8> {
    crate::codec::enc_bytes(n.public_key@) + crate::codec::u32_bytes(n.ciphertexts@.len() as int)
        + enc_cts_from(n.ciphertexts@, 0)
}

/// The path nodes, in order.
pub open spec fn enc_upns_from(ns: Seq<UpdatePathNode>, i: int) -> Seq<u8>
    decreases ns.len() - i,
{
    if i < 0 || i >= ns.len() {
        Seq::empty()
    } else {
        enc_upn(&ns[i]) + enc_upns_from(ns, i + 1)
    }
}

/// An update path on the wire: the leaf public key, then the counted path
/// nodes.
pub open spec fn enc_up(u: &UpdatePath) -> Seq<u8> {
    crate::codec::enc_bytes(u.leaf_public_key@) + crate::codec::u32_bytes(u.nodes@.len() as int)
        + enc_upns_from(u.nodes@, 0)
}

/// An update path whose fields fit their length prefixes.
pub open spec fn up_encodable(u: &UpdatePath) -> bool {
    &&& u.leaf_public_key@.len() <= 0xffff_ffff
    &&& u.nodes@.len() <= 0xffff_ffff
    &&& forall|j: int| 0 <= j < u.nodes@.len() ==> upn_encodable(#[trigger] u.nodes@[j])
}

/// One path node whose fields fit their length prefixes.
pub open spec fn upn_encodable(n: UpdatePathNode) -> bool {
    &&& n.public_key@.len() <= 0xffff_ffff
    &&& n.ciphertexts@.len() <= 0xffff_ffff
    &&& forall|m: int| 0 <= m < n.ciphertexts@.len() ==> ct_encodable(#[trigger] n.ciphertexts@[m])
}

/// One ciphertext whose fields fit their length prefixes.
pub open spec fn ct_encodable(c: HpkeCiphertext) -> bool {
    c.kem_output@.len() <= 0xffff_ffff && c.ciphertext@.len() <= 0xffff_ffff
}

proof fn lemma_enc_cts_push(cts: Seq<HpkeCiphertext>, c: HpkeCiphertext, i: int)
    requires
        0 <= i <= cts.len(),
    ensures
        enc_cts_from(cts.push(c), i) == enc_cts_from(cts, i) + enc_ct(c),
    decreases cts.len() - i,
{
    let e = cts.push(c);
    if i == cts.len() {
        assert(e[i] == c);
        assert(enc_cts_from(e, i + 1) =~= Seq::<u8>::empty());
        assert(enc_cts_from(e, i) =~= enc_ct(c));
        assert(enc_cts_from(cts, i) + enc_ct(c) =~= enc_ct(c));
    } else {
        lemma_enc_cts_push(cts, c, i + 1);
        assert(e[i] == cts[i]);
        assert(enc_cts_from(e, i) =~= enc_ct(cts[i]) + (enc_cts_from(cts, i + 1) + enc_ct(c)));
        assert(enc_ct(cts[i]) + (enc_cts_from(cts, i + 1) + enc_ct(c))
            =~= (enc_ct(cts[i]) + enc_cts_from(cts, i + 1)) + enc_ct(c));
    }
}

proof fn lemma_enc_upns_push(ns: Seq<UpdatePathNode>, n: UpdatePathNode, i: int)
    requires
        0 <= i <= ns.len(),
    ensures
        enc_upns_from(ns.push(n), i) == enc_upns_from(ns, i) + enc_upn(&n),
    decreases ns.len() - i,
{
    let e = ns.push(n);
    if i == ns.len() {
        assert(e[i] == n);
        assert(enc_upns_from(e, i + 1) =~= Seq::<u8>::empty());
        assert(enc_upns_from(e, i) =~= enc_upn(&n));
        assert(enc_upns_from(ns, i) + enc_upn(&n) =~= enc_upn(&n));
    } else {
        lemma_enc_upns_push(ns, n, i + 1);
        assert(e[i] == ns[i]);
        assert(enc_upns_from(e, i) =~= enc_upn(&ns[i]) + (enc_upns_from(ns, i + 1) + enc_upn(&n)));
        assert(enc_upn(&ns[i]) + (enc_upns_from(ns, i + 1) + enc_upn(&n))
            =~= (enc_upn(&ns[i]) + enc_upns_from(ns, i + 1)) + enc_upn(&n));
    }
}

/// One encoding step for a ciphertext list.
#[verifier::rlimit(100)]
#[verifier::spinoff_prover]
proof fn lemma_cts_step(nbuf: Seq<u8>, cbuf: Seq<u8>, nheader: Seq<u8>, cts: Seq<HpkeCiphertext>, m: int)
    requires
        0 <= m < cts.len(),
        nbuf == nheader + enc_cts_from(cts.subrange(0, m), 0),
        cbuf == enc_ct(cts[m]),
    ensures
        nbuf + cbuf == nheader + enc_cts_from(cts.subrange(0, m + 1), 0),
{
    lemma_enc_cts_push(cts.subrange(0, m), cts[m], 0);
    assert(cts.subrange(0, m).push(cts[m]) =~= cts.subrange(0, m + 1));
    assert(nbuf + cbuf =~= nheader + enc_cts_from(cts.subrange(0, m + 1), 0));
}

/// One encoding step for a path-node list.
#[verifier::rlimit(100)]
#[verifier::spinoff_prover]
proof fn lemma_upns_step(buf: Seq<u8>, nbuf: Seq<u8>, header: Seq<u8>, ns: Seq<UpdatePathNode>, j: int)
    requires
        0 <= j < ns.len(),
        buf == header + enc_upns_from(ns.subrange(0, j), 0),
        nbuf == enc_upn(&ns[j]),
    ensures
        buf + nbuf == header + enc_upns_from(ns.subrange(0, j + 1), 0),
{
    lemma_enc_upns_push(ns.subrange(0, j), ns[j], 0);
    assert(ns.subrange(0, j).push(ns[j]) =~= ns.subrange(0, j + 1));
    assert(buf + nbuf =~= header + enc_upns_from(ns.subrange(0, j + 1), 0));
}

/// Encodes an update path for the wire: the leaf public key, then the
/// counted path nodes, each a public key and its counted ciphertexts, every
/// byte string length-prefixed.
pub fn encode_update_path(u: &UpdatePath) -> (r: Result<Vec<u8>, TreeError>)
    ensures
        up_encodable(u) ==> (r matches Ok(buf) && buf@ == enc_up(u)),
        r matches Err(e) ==> e == TreeError::ValidationError,
{
    if u.leaf_public_key.len() > 0xffff_ffff || u.nodes.len() > 0xffff_ffff {
        return Err(TreeError::ValidationError);
    }
    let mut buf: Vec<u8> = Vec::new();
    crate::codec::push_prefixed(&mut buf, &u.leaf_public_key);
    crate::codec::push_u32(&mut buf, u.nodes.len() as u32);
    let ghost header = crate::codec::enc_bytes(u.leaf_public_key@) + crate::codec::u32_bytes(u.nodes@.len() as int);
    proof {
        assert(enc_upns_from(u.nodes@.subrange(0, 0), 0) =~= Seq::<u8>::empty());
        assert(buf@ =~= header + enc_upns_from(u.nodes@.subrange(0, 0), 0));
    }
    let mut j: usize = 0;
    while j < u.nodes.len()
        invariant
            j <= u.nodes@.len(),
            u.nodes@.len() <= 0xffff_ffff,
            header == crate::codec::enc_bytes(u.leaf_public_key@) + crate::codec::u32_bytes(u.nodes@.len() as int),
            buf@ == header + enc_upns_from(u.nodes@.subrange(0, j as int), 0),
        decreases u.nodes@.len() - j,
    {
        let node = &u.nodes[j];
        if node.public_key.len() > 0xffff_ffff || node.ciphertexts.len() > 0xffff_ffff {
            proof {
                assert(!upn_encodable(u.nodes@[j as int]));
            }
            return Err(TreeError::ValidationError);
        }
        let mut nbuf: Vec<u8> = Vec::new();
        crate::codec::push_prefixed(&mut nbuf, &node.public_key);
        crate::codec::push_u32(&mut nbuf, node.ciphertexts.len() as u32);
        let ghost nheader = crate::codec::enc_bytes(node.public_key@) + crate::codec::u32_bytes(node.ciphertexts@.len() as int);
        proof {
            assert(enc_cts_from(node.ciphertexts@.subrange(0, 0), 0) =~= Seq::<u8>::empty());
            assert(nbuf@ =~= nheader + enc_cts_from(node.ciphertexts@.subrange(0, 0), 0));
        }
        let mut m: usize = 0;
        while m < node.ciphertexts.len()
            invariant
                m <= node.ciphertexts@.len(),
                (j as int) < u.nodes@.len(),
                node.public_key@ == u.nodes@[j as int].public_key@,
                node.ciphertexts@ == u.nodes@[j as int].ciphertexts@,
                nheader == crate::codec::enc_bytes(node.public_key@) + crate::codec::u32_bytes(node.ciphertexts@.len() as int),
                nbuf@ == nheader + enc_cts_from(node.ciphertexts@.subrange(0, m as int), 0),
            decreases node.ciphertexts@.len() - m,
        {
            let ct = &node.ciphertexts[m];
            if ct.kem_output.len() > 0xffff_ffff || ct.ciphertext.len() > 0xffff_ffff {
                proof {
                    assert(!ct_encodable(node.ciphertexts@[m as int]));
                    assert(!upn_encodable(u.nodes@[j as int]));
                    assert(!up_encodable(u));
                }
                return Err(TreeError::ValidationError);
            }
            let mut cbuf: Vec<u8> = Vec::new();
            crate::codec::push_prefixed(&mut cbuf, &ct.kem_output);
            crate::codec::push_prefixed(&mut cbuf, &ct.ciphertext);
            proof {
                assert(cbuf@ =~= enc_ct(node.ciphertexts@[m as int]));
                lemma_cts_step(nbuf@, cbuf@, nheader, node.ciphertexts@, m as int);
            }
            crate::codec::push_bytes(&mut nbuf, &cbuf);
            m = m + 1;
        }
        proof {
            assert(node.ciphertexts@.subrange(0, node.ciphertexts@.len() as int) =~= node.ciphertexts@);
            assert(nbuf@ =~= enc_upn(&u.nodes@[j as int]));
            lemma_upns_step(buf@, nbuf@, header, u.nodes@, j as int);
        }
        crate::codec::push_bytes(&mut buf, &nbuf);
        j = j + 1;
    }
    proof {
        assert(u.nodes@.subrange(0, u.nodes@.len() as int) =~= u.nodes@);
    }
    Ok(buf)
}

/// A parsed ciphertext extends the consumed prefix by its encoding.
#[verifier::rlimit(100)]
#[verifier::spinoff_prover]
proof fn lemma_ct_slice(data: Seq<u8>, pos0: int, kem_len: int, ct_len: int, kemv: Seq<u8>, ctv: Seq<u8>)
    requires
        0 <= pos0,
        pos0 + 8 + kem_len + ct_len <= data.len(),
        0 <= kem_len,
        0 <= ct_len,
        crate::codec::u32_bytes(kem_len) == data.subrange(pos0, pos0 + 4),
        kemv == data.subrange(pos0 + 4, pos0 + 4 + kem_len),
        crate::codec::u32_bytes(ct_len) == data.subrange(pos0 + 4 + kem_len, pos0 + 8 + kem_len),
        ctv == data.subrange(pos0 + 8 + kem_len, pos0 + 8 + kem_len + ct_len),
    ensures
        data.subrange(0, pos0 + 8 + kem_len + ct_len)
            == data.subrange(0, pos0) + ((crate::codec::u32_bytes(kem_len) + kemv) + (crate::codec::u32_bytes(ct_len) + ctv)),
{
    assert(data.subrange(0, pos0 + 8 + kem_len + ct_len)
        =~= data.subrange(0, pos0) + ((crate::codec::u32_bytes(kem_len) + kemv) + (crate::codec::u32_bytes(ct_len) + ctv)));
}

/// A parsed node extends the consumed prefix by its encoding.
#[verifier::rlimit(100)]
#[verifier::spinoff_prover]
proof fn lemma_upn_slice(data: Seq<u8>, pos0: int, pk_len: int, pkv: Seq<u8>, n_cts: int, rest: Seq<u8>, upto: int)
    requires
        0 <= pos0,
        0 <= pk_len,
        pos0 + 8 + pk_len <= upto <= data.len(),
        crate::codec::u32_bytes(pk_len) == data.subrange(pos0, pos0 + 4),
        pkv == data.subrange(pos0 + 4, pos0 + 4 + pk_len),
        crate::codec::u32_bytes(n_cts) == data.subrange(pos0 + 4 + pk_len, pos0 + 8 + pk_len),
        rest == data.subrange(pos0 + 8 + pk_len, upto),
    ensures
        data.subrange(0, upto)
            == data.subrange(0, pos0) + ((crate::codec::u32_bytes(pk_len) + pkv) + crate::codec::u32_bytes(n_cts) + rest),
{
    assert(data.subrange(0, upto)
        =~= data.subrange(0, pos0) + ((crate::codec::u32_bytes(pk_len) + pkv) + crate::codec::u32_bytes(n_cts) + rest));
}

/// A consumed prefix written as an extension pins the extension's bytes.
proof fn lemma_suffix_eq(data: Seq<u8>, a: int, b: int, tail: Seq<u8>)
    requires
        0 <= a <= b <= data.len(),
        data.subrange(0, b) == data.subrange(0, a) + tail,
    ensures
        tail == data.subrange(a, b),
{
    assert(tail.len() == b - a) by {
        assert(data.subrange(0, b).len() == data.subrange(0, a).len() + tail.len());
    }
    assert forall|i: int| 0 <= i < tail.len() implies tail[i] == data.subrange(a, b)[i] by {
        assert(data.subrange(0, b)[a + i] == tail[i]);
        assert(data[a + i] == data.subrange(0, b)[a + i]);
    }
    assert(tail =~= data.subrange(a, b));
}

/// A fully parsed node extends the consumed prefix by its encoding and
/// stays bounded.
#[verifier::rlimit(100)]
#[verifier::spinoff_prover]
proof fn lemma_dec_upn_step(
    data: Seq<u8>,
    header: Seq<u8>,
    prev: Seq<UpdatePathNode>,
    cur: Seq<UpdatePathNode>,
    nd: UpdatePathNode,
    pos_n: int,
    pk_len: int,
    n_cts: int,
    pos: int,
)
    requires
        cur == prev.push(nd),
        0 <= pos_n,
        0 <= pk_len <= 0xffff_ffff,
        0 <= n_cts <= 0xffff_ffff,
        pos_n + 8 + pk_len <= pos <= data.len(),
        data.subrange(0, pos_n) == header + enc_upns_from(prev, 0),
        crate::codec::u32_bytes(pk_len) == data.subrange(pos_n, pos_n + 4),
        nd.public_key@ == data.subrange(pos_n + 4, pos_n + 4 + pk_len),
        crate::codec::u32_bytes(n_cts) == data.subrange(pos_n + 4 + pk_len, pos_n + 8 + pk_len),
        nd.ciphertexts@.len() == n_cts,
        enc_cts_from(nd.ciphertexts@, 0) == data.subrange(pos_n + 8 + pk_len, pos),
        forall|a: int| 0 <= a < nd.ciphertexts@.len() ==> ct_encodable(#[trigger] nd.ciphertexts@[a]),
        forall|a: int| 0 <= a < prev.len() ==> upn_encodable(#[trigger] prev[a]),
    ensures
        data.subrange(0, pos) == header + enc_upns_from(cur, 0),
        forall|a: int| 0 <= a < cur.len() ==> upn_encodable(#[trigger] cur[a]),
{
    lemma_upn_slice(data, pos_n, pk_len, nd.public_key@, n_cts, data.subrange(pos_n + 8 + pk_len, pos), pos);
    assert(enc_upn(&nd) =~= (crate::codec::u32_bytes(pk_len) + nd.public_key@)
        + crate::codec::u32_bytes(n_cts) + enc_cts_from(nd.ciphertexts@, 0));
    lemma_enc_upns_push(prev, nd, 0);
    assert(data.subrange(0, pos) =~= header + enc_upns_from(cur, 0));
    assert(upn_encodable(nd));
    assert forall|a: int| 0 <= a < cur.len() implies upn_encodable(#[trigger] cur[a]) by {
        if a < prev.len() {
            assert(cur[a] == prev[a]);
        } else {
            assert(cur[a] == nd);
        }
    }
}

/// Decodes a wire-format update path.
#[verifier::rlimit(100)]
#[verifier::spinoff_prover]
pub fn decode_update_path(data: &Vec<u8>) -> (r: Result<UpdatePath, TreeError>)
    ensures
        r matches Ok(up) ==> enc_up(&up) == data@ && up_encodable(&up),
        r matches Err(e) ==> e == TreeError::ValidationError,
{
    let dlen = data.len();
    if dlen < 4 {
        return Err(TreeError::ValidationError);
    }
    let lpk_len = match crate::codec::read_u32(data, 0) {
        Ok(x) => x,
        Err(e) => {
            return Err(e);
        },
    };
    if (dlen - 4) < lpk_len as usize {
        return Err(TreeError::ValidationError);
    }
    let leaf_public_key = crate::codec::read_bytes(data, 4, lpk_len as usize);
    let ghost lpkv = leaf_public_key@;
    let mut pos: usize = 4 + lpk_len as usize;
    if dlen - pos < 4 {
        return Err(TreeError::ValidationError);
    }
    let n_nodes = match crate::codec::read_u32(data, pos) {
        Ok(x) => x,
        Err(e) => {
            return Err(e);
        },
    };
    pos = pos + 4;
    let ghost header = crate::codec::enc_bytes(lpkv) + crate::codec::u32_bytes(n_nodes as int);
    let mut nodes: Vec<UpdatePathNode> = Vec::new();
    proof {
        assert(enc_upns_from(nodes@, 0) =~= Seq::<u8>::empty());
        assert(data@.subrange(0, pos as int) =~= header + enc_upns_from(nodes@, 0));
    }
    let mut j: u32 = 0;
    while j < n_nodes
        invariant
            pos <= data@.len(),
            data@.len() <= usize::MAX,
            nodes@.len() == j,
            j <= n_nodes,
            lpkv.len() <= 0xffff_ffff,
            header == crate::codec::enc_bytes(lpkv) + crate::codec::u32_bytes(n_nodes as int),
            data@.subrange(0, pos as int) == header + enc_upns_from(nodes@, 0),
            forall|a: int| 0 <= a < nodes@.len() ==> upn_encodable(#[trigger] nodes@[a]),
        decreases n_nodes - j,
    {
        let ghost prev = nodes@;
        let ghost pos_n = pos as int;
        if data.len() - pos < 4 {
            return Err(TreeError::ValidationError);
        }
        let pk_len = match crate::codec::read_u32(data, pos) {
            Ok(x) => x,
            Err(e) => {
                return Err(e);
            },
        };
        if (data.len() - pos - 4) < pk_len as usize {
            return Err(TreeError::ValidationError);
        }
        let public_key = crate::codec::read_bytes(data, pos + 4, pk_len as usize);
        let ghost pkv = public_key@;
        pos = pos + 4 + pk_len as usize;
        if data.len() - pos < 4 {
            return Err(TreeError::ValidationError);
        }
        let n_cts = match crate::codec::read_u32(data, pos) {
            Ok(x) => x,
            Err(e) => {
                return Err(e);
            },
        };
        pos = pos + 4;
        let ghost nprefix = data@.subrange(0, pos as int);
        let mut ciphertexts: Vec<HpkeCiphertext> = Vec::new();
        proof {
            assert(enc_cts_from(ciphertexts@, 0) =~= Seq::<u8>::empty());
            assert(nprefix =~= nprefix + enc_cts_from(ciphertexts@, 0));
        }
        let mut m: u32 = 0;
        while m < n_cts
            invariant
                pos <= data@.len(),
                data@.len() <= usize::MAX,
                ciphertexts@.len() == m,
                m <= n_cts,
                data@.subrange(0, pos as int) == nprefix + enc_cts_from(ciphertexts@, 0),
                forall|a: int| 0 <= a < ciphertexts@.len() ==> ct_encodable(#[trigger] ciphertexts@[a]),
            decreases n_cts - m,
        {
            let ghost cpre = ciphertexts@;
            let ghost pos_c = pos as int;
            if data.len() - pos < 4 {
                return Err(TreeError::ValidationError);
            }
            let kem_len = match crate::codec::read_u32(data, pos) {
                Ok(x) => x,
                Err(e) => {
                    return Err(e);
                },
            };
            if (data.len() - pos - 4) < kem_len as usize {
                return Err(TreeError::ValidationError);
            }
            let kem_output = crate::codec::read_bytes(data, pos + 4, kem_len as usize);
            let ghost kemv = kem_output@;
            pos = pos + 4 + kem_len as usize;
            if data.len() - pos < 4 {
                return Err(TreeError::ValidationError);
            }
            let ct_len = match crate::codec::read_u32(data, pos) {
                Ok(x) => x,
                Err(e) => {
                    return Err(e);
                },
            };
            if (data.len() - pos - 4) < ct_len as usize {
                return Err(TreeError::ValidationError);
            }
            let ciphertext = crate::codec::read_bytes(data, pos + 4, ct_len as usize);
            let ghost ctv = ciphertext@;
            pos = pos + 4 + ct_len as usize;
            ciphertexts.push(HpkeCiphertext { kem_output, ciphertext });
            m = m + 1;
            proof {
                lemma_ct_slice(data@, pos_c, kem_len as int, ct_len as int, kemv, ctv);
                let c = ciphertexts@[m as int - 1];
                assert(enc_ct(c) =~= (crate::codec::u32_bytes(kem_len as int) + kemv) + (crate::codec::u32_bytes(ct_len as int) + ctv));
                lemma_enc_cts_push(cpre, c, 0);
                assert(ciphertexts@ =~= cpre.push(c));
                assert(data@.subrange(0, pos as int) =~= nprefix + enc_cts_from(ciphertexts@, 0));
                assert forall|a: int| 0 <= a < ciphertexts@.len() implies ct_encodable(#[trigger] ciphertexts@[a]) by {
                    if a < cpre.len() {
                        assert(ciphertexts@[a] == cpre[a]);
                    }
                }
            }
        }
        let node = UpdatePathNode { public_key, ciphertexts };
        nodes.push(node);
        j = j + 1;
        proof {
            let nd = nodes@[j as int - 1];
            assert(nodes@ =~= prev.push(nd));
            assert(nd.public_key@ == pkv && nd.ciphertexts@.len() == n_cts);
            lemma_suffix_eq(data@, pos_n + 8 + pk_len as int, pos as int, enc_cts_from(nd.ciphertexts@, 0));
            lemma_dec_upn_step(data@, header, prev, nodes@, nd, pos_n, pk_len as int, n_cts as int, pos as int);
        }
    }
    if pos != data.len() {
        return Err(TreeError::ValidationError);
    }
    let up = UpdatePath { leaf_public_key, nodes };
    proof {
        assert(data@.subrange(0, data@.len() as int) =~= data@);
        assert(enc_up(&up) =~= header + enc_upns_from(up.nodes@, 0));
    }
    Ok(up)
}

/// A TreeKEM known-answer vector: a tree a new member joins, the path
/// secret handed to it, and an update path processed afterwards, with
/// every expected digest and secret.  All byte fields travel as hex.
pub struct TreeKemTestVector {
    pub cipher_suite: u16,
    pub ratchet_tree_before: String,
    pub add_sender: u32,
    pub my_leaf_secret: String,
    pub my_key_package: String,
    pub my_path_secret: String,
    pub update_sender: u32,
    pub update_path: String,
    pub update_group_context: String,
    pub tree_hash_before: String,
    pub root_secret_after_add: String,
    pub root_secret_after_update: String,
    pub ratchet_tree_after: String,
    pub tree_hash_after: String,
}

/// What a vector check can find wrong, each mismatch named after the stage
/// that caught it.
#[derive(Debug, Clone, Copy, PartialEq, Eq, Structural)]
pub enum TreeKemTestVectorError {
    BeforeTreeHashMismatch,
    AfterTreeHashMismatch,
    BeforeParentHashMismatch,
    AfterParentHashMismatch,
    BeforeRootSecretMismatch,
    AfterRootSecretMismatch,
    AfterRatchetTreeMismatch,
    MalformedVector,
}

/// Finds the leaf holding a public key.
fn find_leaf_by_pk(nodes: &Vec<Option<Node>>, pk: &Vec<u8>) -> (r: Option<LeafIndex>)
    requires
        nodes@.len() % 2 == 1,
        nodes@.len() <= 0x7fff_ffff,
    ensures
        r matches Some(l) ==> 2 * (l.0 as int) < nodes@.len() && l.0 <= 0x7fff_ffff,
{
    let mut i: usize = 0;
    while 2 * i < nodes.len()
        invariant
            2 * i <= nodes@.len() + 1,
            nodes@.len() % 2 == 1,
            nodes@.len() <= 0x7fff_ffff,
            i <= 0x4000_0000,
        decreases nodes@.len() + 1 - 2 * i,
    {
        match &nodes[2 * i] {
            Some(Node::Leaf(l)) => {
                if eq_bytes(&l.public_key, pk) {
                    return Some(LeafIndex(i as u32));
                }
            },
            _ => {},
        }
        i = i + 1;
    }
    None
}

/// Checks one known-answer vector: rebuilds the tree the joining member
/// receives, validates its hashes and root secret, processes the recorded
/// update path, and compares the resulting tree, its hash and the new
/// commit secret against the recorded values.  Success says every field
/// parsed and every comparison held.
#[verifier::rlimit(100)]
#[verifier::spinoff_prover]
pub fn run_test_vector(test_vector: &TreeKemTestVector) -> (r: Result<(), TreeKemTestVectorError>)
    ensures
        !(exists|b: Seq<u8>| hex_of(b) == test_vector.ratchet_tree_before@)
            ==> r is Err && r->Err_0 == TreeKemTestVectorError::MalformedVector,
        r is Ok ==> {
            &&& exists|b: Seq<u8>| hex_of(b) == test_vector.ratchet_tree_before@
            &&& exists|b: Seq<u8>| hex_of(b) == test_vector.my_leaf_secret@
            &&& exists|b: Seq<u8>| hex_of(b) == test_vector.my_key_package@
            &&& exists|b: Seq<u8>| hex_of(b) == test_vector.my_path_secret@
            &&& exists|b: Seq<u8>| hex_of(b) == test_vector.update_path@
            &&& exists|b: Seq<u8>| hex_of(b) == test_vector.update_group_context@
            &&& exists|b: Seq<u8>| hex_of(b) == test_vector.root_secret_after_add@
            &&& exists|b: Seq<u8>| hex_of(b) == test_vector.root_secret_after_update@
            &&& exists|b: Seq<u8>| hex_of(b) == test_vector.ratchet_tree_after@
            &&& exists|b: Seq<u8>| hex_of(b) == test_vector.tree_hash_before@
            &&& exists|b: Seq<u8>| hex_of(b) == test_vector.tree_hash_after@
            // the recorded tree hash is the tree hash of the recorded tree,
            // whose parent hashes all check — before and after
            &&& exists|ns: Seq<Option<NodeV>>, hb: Seq<u8>|
                #![trigger crate::codec::enc_nodes(ns), hex_of(hb)]
                hex_of(crate::codec::enc_nodes(ns)) == test_vector.ratchet_tree_before@
                    && hex_of(hb) == test_vector.tree_hash_before@
                    && th(ns, root_spec(ns.len() as int), ns.len() as int) == hb
                    && all_parent_hashes_ok(ns, ns.len() as int)
            &&& exists|ns: Seq<Option<NodeV>>, hb: Seq<u8>|
                #![trigger crate::codec::enc_nodes(ns), hex_of(hb)]
                hex_of(crate::codec::enc_nodes(ns)) == test_vector.ratchet_tree_after@
                    && hex_of(hb) == test_vector.tree_hash_after@
                    && th(ns, root_spec(ns.len() as int), ns.len() as int) == hb
                    && all_parent_hashes_ok(ns, ns.len() as int)
            // the recorded start secret chains to the recorded root secret:
            // both commit to one and the same value
            &&& exists|ss: Seq<u8>, ra: Seq<u8>, k: nat|
                #![trigger crate::treekem::commit_of(ss, k), hex_of(ra)]
                hex_of(ss) == test_vector.my_path_secret@
                    && hex_of(ra) == test_vector.root_secret_after_add@
                    && crate::treekem::commit_of(ss, k)
                        == crate::crypto::kdf_of(ra, crate::treekem::commit_label())
        },
{
    let before_bytes = match hex_to_bytes(test_vector.ratchet_tree_before.as_str()) {
        Ok(v) => v,
        Err(_) => {
            return Err(TreeKemTestVectorError::MalformedVector);
        },
    };
    let nodes = match decode_nodes(&before_bytes) {
        Ok(v) => v,
        Err(_) => {
            return Err(TreeKemTestVectorError::MalformedVector);
        },
    };
    if nodes.len() % 2 != 1 || nodes.len() > 0x7fff_ffff {
        return Err(TreeKemTestVectorError::MalformedVector);
    }
    let my_leaf_secret = match hex_to_bytes(test_vector.my_leaf_secret.as_str()) {
        Ok(v) => v,
        Err(_) => {
            return Err(TreeKemTestVectorError::MalformedVector);
        },
    };
    let my_identity = match hex_to_bytes(test_vector.my_key_package.as_str()) {
        Ok(v) => v,
        Err(_) => {
            return Err(TreeKemTestVectorError::MalformedVector);
        },
    };
    let start_secret = match hex_to_bytes(test_vector.my_path_secret.as_str()) {
        Ok(v) => v,
        Err(_) => {
            return Err(TreeKemTestVectorError::MalformedVector);
        },
    };
    // The joining member's own leaf holds the key pair derived from its
    // leaf secret.
    let (my_pk, _my_sk) = match crate::crypto::derive_keypair(my_leaf_secret.as_slice()) {
        Ok(kp) => kp,
        Err(_) => {
            return Err(TreeKemTestVectorError::MalformedVector);
        },
    };
    let own_leaf = match find_leaf_by_pk(&nodes, &my_pk) {
        Some(l) => l,
        None => {
            return Err(TreeKemTestVectorError::MalformedVector);
        },
    };
    match &nodes[(2 * own_leaf.0) as usize] {
        Some(Node::Leaf(l)) => {
            if !eq_bytes(&l.identity, &my_identity) {
                return Err(TreeKemTestVectorError::MalformedVector);
            }
        },
        _ => {
            return Err(TreeKemTestVectorError::MalformedVector);
        },
    }
    let ghost nsv = nv(nodes@);
    // Rebuild the tree with private values; this validates parent hashes.
    let (mut tree, commit_before) = match TreeSync::from_nodes_with_secrets(
        nodes,
        own_leaf,
        my_leaf_secret,
        LeafIndex(test_vector.add_sender),
        start_secret,
    ) {
        Ok(tc) => tc,
        Err(TreeError::ParentHashMismatch) => {
            return Err(TreeKemTestVectorError::BeforeParentHashMismatch);
        },
        Err(_) => {
            return Err(TreeKemTestVectorError::MalformedVector);
        },
    };
    // The tree hash of the received tree.
    let th_bytes_before = tree.tree_hash();
    let th_before = bytes_to_hex(&th_bytes_before);
    if !th_before.eq(&test_vector.tree_hash_before) {
        return Err(TreeKemTestVectorError::BeforeTreeHashMismatch);
    }
    proof {
        assert(tree@.len() == nsv.len()) by {
            assert(strip_nodes(tree@).len() == strip_nodes(nsv).len());
        }
        crate::treesync::lemma_th_strip_eq(tree@, nsv, root_spec(nsv.len() as int), nsv.len() as int);
        assert(hex_of(crate::codec::enc_nodes(nsv)) == test_vector.ratchet_tree_before@);
        assert(hex_of(th_bytes_before@) == test_vector.tree_hash_before@);
        assert(th(nsv, root_spec(nsv.len() as int), nsv.len() as int) == th_bytes_before@);
        assert(all_parent_hashes_ok(nsv, nsv.len() as int));
    }
    // The root secret after the add, checked through the commit secret.
    let root_after_add = match hex_to_bytes(test_vector.root_secret_after_add.as_str()) {
        Ok(v) => v,
        Err(_) => {
            return Err(TreeKemTestVectorError::MalformedVector);
        },
    };
    let clabel = commit_label_bytes();
    let expected_commit_before = kdf(root_after_add.as_slice(), clabel.as_slice());
    match &commit_before {
        Some(cs) => {
            if !eq_bytes(&cs.0, &expected_commit_before) {
                return Err(TreeKemTestVectorError::BeforeRootSecretMismatch);
            }
            proof {
                let dp = crate::treemath::dpath(2 * (test_vector.add_sender as int), nsv.len() as int);
                let ch = crate::treemath::chain_spec(2 * (own_leaf.0 as int), nsv.len() as int);
                let mi = crate::treekem::merge_from(dp, ch, 0);
                crate::treekem::lemma_merge_from_le(dp, ch, 0);
                assert(mi < dp.len());
                let kk = (dp.len() - 1 - mi) as nat;
                assert(crate::treekem::commit_of(start_secret@, kk)
                    == crate::crypto::kdf_of(root_after_add@, crate::treekem::commit_label()));
                assert(hex_of(root_after_add@) == test_vector.root_secret_after_add@);
            }
        },
        None => {
            return Err(TreeKemTestVectorError::BeforeRootSecretMismatch);
        },
    }
    // Process the recorded update path.
    let up_bytes = match hex_to_bytes(test_vector.update_path.as_str()) {
        Ok(v) => v,
        Err(_) => {
            return Err(TreeKemTestVectorError::MalformedVector);
        },
    };
    let up = match crate::kat::decode_update_path(&up_bytes) {
        Ok(u) => u,
        Err(_) => {
            return Err(TreeKemTestVectorError::MalformedVector);
        },
    };
    let gctx = match hex_to_bytes(test_vector.update_group_context.as_str()) {
        Ok(v) => v,
        Err(_) => {
            return Err(TreeKemTestVectorError::MalformedVector);
        },
    };
    let excluded: Vec<LeafIndex> = Vec::new();
    let mut diff = tree.empty_diff();
    let (_path_secrets, commit_after) = match diff.apply_update_path(
        LeafIndex(test_vector.update_sender),
        &up,
        &excluded,
        &gctx,
    ) {
        Ok(pc) => pc,
        Err(_) => {
            return Err(TreeKemTestVectorError::AfterParentHashMismatch);
        },
    };
    let staged = match diff.into_staged_diff() {
        Ok(s) => s,
        Err(_) => {
            return Err(TreeKemTestVectorError::AfterParentHashMismatch);
        },
    };
    tree.merge_diff(staged);
    // The new root secret, checked through the commit secret.
    let root_after_update = match hex_to_bytes(test_vector.root_secret_after_update.as_str()) {
        Ok(v) => v,
        Err(_) => {
            return Err(TreeKemTestVectorError::MalformedVector);
        },
    };
    let expected_commit_after = kdf(root_after_update.as_slice(), clabel.as_slice());
    if !eq_bytes(&commit_after.0, &expected_commit_after) {
        return Err(TreeKemTestVectorError::AfterRootSecretMismatch);
    }
    // The tree now matches the recorded one, byte for byte on the wire.
    let exported = tree.export_nodes();
    let exported_bytes = match encode_nodes(&exported) {
        Ok(v) => v,
        Err(_) => {
            return Err(TreeKemTestVectorError::AfterRatchetTreeMismatch);
        },
    };
    let after_hex = bytes_to_hex(&exported_bytes);
    if !after_hex.eq(&test_vector.ratchet_tree_after) {
        return Err(TreeKemTestVectorError::AfterRatchetTreeMismatch);
    }
    let th_bytes_after = tree.tree_hash();
    let th_after = bytes_to_hex(&th_bytes_after);
    if !th_after.eq(&test_vector.tree_hash_after) {
        return Err(TreeKemTestVectorError::AfterTreeHashMismatch);
    }
    proof {
        let ns2 = strip_nodes(tree@);
        assert(ns2.len() == tree@.len());
        assert(strip_nodes(ns2) =~= strip_nodes(tree@));
        assert(crate::codec::encodable(nv(exported@))) by {
            assert forall|k: int| 0 <= k < nv(exported@).len()
                implies crate::codec::slot_encodable(#[trigger] nv(exported@)[k]) by {
                assert(nv(exported@)[k] == strip_nodes(tree@)[k]);
                assert(crate::codec::slot_encodable(tree@[k]));
            }
        }
        assert(hex_of(crate::codec::enc_nodes(ns2)) == test_vector.ratchet_tree_after@);
        crate::treesync::lemma_th_strip_eq(tree@, ns2, root_spec(ns2.len() as int), ns2.len() as int);
        assert(th(ns2, root_spec(ns2.len() as int), ns2.len() as int) == th_bytes_after@);
        assert(hex_of(th_bytes_after@) == test_vector.tree_hash_after@);
        crate::treesync::lemma_all_ph_strip_eq(tree@, ns2, ns2.len() as int);
        assert(all_parent_hashes_ok(ns2, ns2.len() as int));
    }
    Ok(())
}

/// A member's deterministic secret for vector generation.
fn member_secret(i: u32, tag: u8) -> (r: Vec<u8>)
    ensures
        r@.len() == 32,
{
    let mut v: Vec<u8> = Vec::new();
    v.push(tag);
    v.push((i % 0x100) as u8);
    v.push(((i / 0x100) % 0x100) as u8);
    v.push(((i / 0x1_0000) % 0x100) as u8);
    v.push(((i / 0x100_0000) % 0x100) as u8);
    let mut k: usize = 5;
    while k < 32
        invariant
            5 <= k <= 32,
            v@.len() == k,
        decreases 32 - k,
    {
        v.push(0u8);
        k = k + 1;
    }
    v
}

/// A member's identity bytes for vector generation.
fn member_identity(i: u32) -> (r: Vec<u8>)
    ensures
        r@.len() == 5,
{
    let mut v: Vec<u8> = Vec::new();
    v.push(73u8);
    v.push((i % 0x100) as u8);
    v.push(((i / 0x100) % 0x100) as u8);
    v.push(((i / 0x1_0000) % 0x100) as u8);
    v.push(((i / 0x100_0000) % 0x100) as u8);
    v
}

/// Builds a full group tree, every leaf holding its deterministic key pair.
fn build_group_tree(n: u32) -> (r: Result<TreeSync, TreeError>)
    requires
        2 <= n <= crate::treemath::MAX_LEAVES,
    ensures
        r matches Ok(t) ==> t.wf() && crate::treesync::leaf_count(t@) == n,
{
    let total: usize = (2 * n - 1) as usize;
    let mut nodes: Vec<Option<Node>> = Vec::new();
    let mut k: usize = 0;
    while k < total
        invariant
            k <= total,
            nodes@.len() == k,
            forall|q: int| 0 <= q < k ==> (#[trigger] nv(nodes@)[q]) is None,
        decreases total - k,
    {
        let ghost pre = nv(nodes@);
        nodes.push(None);
        k = k + 1;
        proof {
            assert forall|q: int| 0 <= q < k implies (#[trigger] nv(nodes@)[q]) is None by {
                if q < k - 1 {
                    assert(nv(nodes@)[q] == pre[q]);
                } else {
                    assert(nodes@[q] is None);
                }
            }
        }
    }
    proof {
        assert(crate::treesync::wf_shape(nv(nodes@)));
        assert(crate::treesync::keys_ok(nv(nodes@)));
        assert(crate::codec::encodable(nv(nodes@)));
    }
    let mut i: u32 = 0;
    while i < n
        invariant
            i <= n,
            2 <= n <= crate::treemath::MAX_LEAVES,
            nodes@.len() == 2 * n - 1,
            crate::treesync::wf_shape(nv(nodes@)),
            crate::treesync::keys_ok(nv(nodes@)),
            crate::codec::encodable(nv(nodes@)),
            forall|q: int| 0 <= q < i ==> (#[trigger] nv(nodes@)[2 * q]) is Some,
        decreases n - i,
    {
        let secret = member_secret(i, 1);
        let (pk, sk) = match crate::crypto::derive_keypair(secret.as_slice()) {
            Ok(kp) => kp,
            Err(e) => {
                return Err(e);
            },
        };
        let identity = member_identity(i);
        let ghost pre = nv(nodes@);
        crate::treesync::write_leaf(&mut nodes, (2 * i) as usize, pk, identity, Some(sk));
        proof {
            assert forall|q: int| 0 <= q < i + 1 implies (#[trigger] nv(nodes@)[2 * q]) is Some by {
                if q < i {
                    assert(nv(nodes@)[2 * q] == pre[2 * q]);
                }
            }
        }
        i = i + 1;
    }
    let diff = crate::treesync::Diff { nodes, own_leaf: LeafIndex(0) };
    let staged = match diff.into_staged_diff() {
        Ok(s) => s,
        Err(e) => {
            return Err(e);
        },
    };
    let mut t = match TreeSync::new(member_identity(0), member_secret(0, 1)) {
        Ok(t) => t,
        Err(e) => {
            return Err(e);
        },
    };
    t.merge_diff(staged);
    Ok(t)
}

/// Derives the path-secret chain `steps` times.
fn derive_chain(secret: &Vec<u8>, steps: usize) -> (r: Vec<u8>)
    ensures
        r@ == crate::treekem::chain_secret(secret@, steps as nat),
    decreases steps,
{
    let plabel = path_label_bytes();
    let mut cur = clone_bytes(secret);
    let mut k: usize = 0;
    while k < steps
        invariant
            k <= steps,
            plabel@ == crate::treekem::path_label(),
            cur@ == crate::treekem::chain_secret(secret@, k as nat),
        decreases steps - k,
    {
        let next = kdf(cur.as_slice(), plabel.as_slice());
        cur = next;
        k = k + 1;
    }
    cur
}

/// Builds a deterministic known-answer vector: a group of `n_leaves`
/// members whose last member just joined after an update by the first, who
/// then sends one more update path that the joiner must process.
pub fn generate_test_vector(n_leaves: u32) -> (r: Result<TreeKemTestVector, TreeError>)
    requires
        2 <= n_leaves <= crate::treemath::MAX_LEAVES,
    ensures
        r matches Ok(tv) ==> {
            &&& tv.cipher_suite == 1
            &&& tv.add_sender == 0
            &&& tv.update_sender == 0
            &&& exists|b: Seq<u8>| hex_of(b) == tv.ratchet_tree_before@
            &&& exists|b: Seq<u8>| hex_of(b) == tv.my_leaf_secret@
            &&& exists|b: Seq<u8>| hex_of(b) == tv.my_key_package@
            &&& exists|b: Seq<u8>| hex_of(b) == tv.my_path_secret@
            &&& exists|b: Seq<u8>| hex_of(b) == tv.update_path@
            &&& exists|b: Seq<u8>| hex_of(b) == tv.update_group_context@
            &&& exists|b: Seq<u8>| hex_of(b) == tv.tree_hash_before@
            &&& exists|b: Seq<u8>| hex_of(b) == tv.root_secret_after_add@
            &&& exists|b: Seq<u8>| hex_of(b) == tv.root_secret_after_update@
            &&& exists|b: Seq<u8>| hex_of(b) == tv.ratchet_tree_after@
            &&& exists|b: Seq<u8>| hex_of(b) == tv.tree_hash_after@
        },
{
    let mut tree = match build_group_tree(n_leaves) {
        Ok(t) => t,
        Err(e) => {
            return Err(e);
        },
    };
    let excluded: Vec<LeafIndex> = Vec::new();
    let empty_ctx: Vec<u8> = Vec::new();
    // The first member removes one member and adds a fresh one in its
    // place — the joiner reuses the blanked slot where one exists — then
    // refreshes the tree; its path supplies the joiner's path secret.
    let removed = if n_leaves >= 3 { LeafIndex(n_leaves - 2) } else { LeafIndex(1) };
    let joiner_secret = member_secret(n_leaves, 1);
    let (joiner_pk, _joiner_sk) = match crate::crypto::derive_keypair(joiner_secret.as_slice()) {
        Ok(kp) => kp,
        Err(e) => {
            return Err(e);
        },
    };
    let add_secret = member_secret(0, 2);
    let mut diff = tree.empty_diff();
    match diff.blank_leaf(removed) {
        Ok(()) => {},
        Err(e) => {
            return Err(e);
        },
    }
    let joiner = match diff.add_leaf(member_identity(n_leaves), joiner_pk) {
        Ok(l) => l,
        Err(e) => {
            return Err(e);
        },
    };
    let (_up_add, _commit_add) = match diff.encrypt_path(clone_bytes(&add_secret), &excluded, &empty_ctx) {
        Ok(pc) => pc,
        Err(e) => {
            return Err(e);
        },
    };
    let staged = match diff.into_staged_diff() {
        Ok(s) => s,
        Err(e) => {
            return Err(e);
        },
    };
    tree.merge_diff(staged);
    // The merge level of the joiner on the adder's direct path.
    let size = tree.leaf_span();
    let dp = match crate::treemath::direct_path(LeafIndex(0), size) {
        Ok(v) => v,
        Err(e) => {
            return Err(e);
        },
    };
    let own_dp = match crate::treemath::direct_path(joiner, size) {
        Ok(v) => v,
        Err(e) => {
            return Err(e);
        },
    };
    let mut chv: Vec<NodeIndex> = Vec::new();
    chv.push(NodeIndex(2 * joiner.0));
    let mut t: usize = 0;
    while t < own_dp.len()
        invariant
            t <= own_dp@.len(),
        decreases own_dp@.len() - t,
    {
        chv.push(own_dp[t]);
        t = t + 1;
    }
    let mut i: usize = 0;
    while i < dp.len() && !crate::treekem::contains_ix(&chv, dp[i])
        invariant
            i <= dp@.len(),
        decreases dp@.len() - i,
    {
        i = i + 1;
    }
    if i >= dp.len() {
        return Err(TreeError::InvalidIndex);
    }
    // The joiner's start secret and the root secret after the add.
    let start_secret = derive_chain(&add_secret, i + 1);
    let root_after_add = derive_chain(&add_secret, dp.len());
    // The tree the joiner receives.
    let exported_before = tree.export_nodes();
    let before_bytes = match encode_nodes(&exported_before) {
        Ok(v) => v,
        Err(e) => {
            return Err(e);
        },
    };
    let ratchet_tree_before = bytes_to_hex(&before_bytes);
    let tree_hash_before = bytes_to_hex(&tree.tree_hash());
    // The later update the joiner must process.
    let upd_secret = member_secret(0, 3);
    let mut gctx: Vec<u8> = Vec::new();
    gctx.push(103u8);
    gctx.push(99u8);
    let mut diff2 = tree.empty_diff();
    let (up_u, _commit_u) = match diff2.encrypt_path(clone_bytes(&upd_secret), &excluded, &gctx) {
        Ok(pc) => pc,
        Err(e) => {
            return Err(e);
        },
    };
    let staged2 = match diff2.into_staged_diff() {
        Ok(s) => s,
        Err(e) => {
            return Err(e);
        },
    };
    tree.merge_diff(staged2);
    let root_after_update = derive_chain(&upd_secret, dp.len());
    let exported_after = tree.export_nodes();
    let after_bytes = match encode_nodes(&exported_after) {
        Ok(v) => v,
        Err(e) => {
            return Err(e);
        },
    };
    let up_bytes = match encode_update_path(&up_u) {
        Ok(v) => v,
        Err(e) => {
            return Err(e);
        },
    };
    Ok(TreeKemTestVector {
        cipher_suite: 1,
        ratchet_tree_before,
        add_sender: 0,
        my_leaf_secret: bytes_to_hex(&joiner_secret),
        my_key_package: bytes_to_hex(&member_identity(n_leaves)),
        my_path_secret: bytes_to_hex(&start_secret),
        update_sender: 0,
        update_path: bytes_to_hex(&up_bytes),
        update_group_context: bytes_to_hex(&gctx),
        tree_hash_before,
        root_secret_after_add: bytes_to_hex(&root_after_add),
        root_secret_after_update: bytes_to_hex(&root_after_update),
        ratchet_tree_after: bytes_to_hex(&after_bytes),
        tree_hash_after: bytes_to_hex(&tree.tree_hash()),
    })
}

} // verus!
