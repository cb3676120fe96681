//! Storage encoding: keys are the fixed namespace prefix followed by the
//! canonical path; values are a self-describing record of the inherit flag,
//! the extension and the raw content.
//!
//! The record layout is: a form tag, the inherit byte, and for the current
//! form an 8-byte little-endian character count followed by the extension's
//! characters (each one 4 little-endian bytes of its scalar value) and the
//! content bytes. A record with form tag zero carries no extension field and
//! decodes with an empty extension, so older records lacking the field are
//! still readable.
use vstd::arithmetic::div_mod::{lemma_fundamental_div_mod, lemma_multiply_divide_lt};
use vstd::arithmetic::power::pow;
use vstd::prelude::*;
use vstd::utf8::{char_is_scalar, char_u32_cast, is_scalar};

verus! {

/// `k` little-endian base-256 digits of `n`.
pub open spec fn le_bytes(n: nat, k: nat) -> Seq<u8>
    decreases k,
{
    if k == 0 {
        Seq::<u8>::empty()
    } else {
        seq![(n % 256) as u8] + le_bytes(n / 256, (k - 1) as nat)
    }
}

/// The number the little-endian digits `s` denote.
pub open spec fn from_le(s: Seq<u8>) -> nat
    decreases s.len(),
{
    if s.len() == 0 {
        0
    } else {
        (s[0] + 256 * from_le(s.drop_first())) as nat
    }
}

proof fn lemma_pow_step(k: nat)
    requires
        k >= 1,
    ensures
        pow(256, k) == 256 * pow(256, (k - 1) as nat),
        pow(256, (k - 1) as nat) > 0,
{
    reveal(pow);
    vstd::arithmetic::power::lemma_pow_positive(256, (k - 1) as nat);
}

proof fn lemma_pow_consts()
    ensures
        pow(256, 4) == 0x100000000,
        pow(256, 8) == 0x10000000000000000,
{
    reveal_with_fuel(pow, 9);
}

pub proof fn lemma_le_round_trip(n: nat, k: nat)
    requires
        n < pow(256, k),
    ensures
        le_bytes(n, k).len() == k,
        from_le(le_bytes(n, k)) == n,
    decreases k,
{
    if k == 0 {
        reveal(pow);
    } else {
        lemma_pow_step(k);
        lemma_fundamental_div_mod(n as int, 256);
        assert(n / 256 < pow(256, (k - 1) as nat)) by {
            lemma_pow_step(k);
            lemma_multiply_divide_lt(n as int, 256, pow(256, (k - 1) as nat));
        }
        lemma_le_round_trip(n / 256, (k - 1) as nat);
        assert(le_bytes(n, k).drop_first() =~= le_bytes(n / 256, (k - 1) as nat));
        assert(le_bytes(n, k)[0] == (n % 256) as u8);
        assert(from_le(le_bytes(n, k)) == ((n % 256) + 256 * from_le(
            le_bytes(n, k).drop_first(),
        )) as nat);
    }
}

pub proof fn lemma_from_le_bound(s: Seq<u8>)
    ensures
        from_le(s) < pow(256, s.len() as nat),
    decreases s.len(),
{
    if s.len() == 0 {
        reveal(pow);
    } else {
        lemma_pow_step(s.len() as nat);
        lemma_from_le_bound(s.drop_first());
    }
}

/// Each character as 4 little-endian bytes of its scalar value.
pub open spec fn encode_chars(cs: Seq<char>) -> Seq<u8>
    decreases cs.len(),
{
    if cs.len() == 0 {
        Seq::<u8>::empty()
    } else {
        le_bytes((cs[0] as u32) as nat, 4) + encode_chars(cs.drop_first())
    }
}

pub proof fn lemma_encode_chars_len(cs: Seq<char>)
    ensures
        encode_chars(cs).len() == 4 * cs.len(),
    decreases cs.len(),
{
    if cs.len() > 0 {
        char_is_scalar(cs[0]);
        lemma_pow_consts();
        lemma_le_round_trip((cs[0] as u32) as nat, 4);
        lemma_encode_chars_len(cs.drop_first());
    }
}

pub proof fn lemma_encode_chars_concat(a: Seq<char>, b: Seq<char>)
    ensures
        encode_chars(a + b) == encode_chars(a) + encode_chars(b),
    decreases a.len(),
{
    if a.len() == 0 {
        assert(a + b =~= b);
        assert(encode_chars(a) + encode_chars(b) =~= encode_chars(b));
    } else {
        assert((a + b).drop_first() =~= a.drop_first() + b);
        lemma_encode_chars_concat(a.drop_first(), b);
        assert(encode_chars(a + b) =~= encode_chars(a) + encode_chars(b));
    }
}

/// Decode a block of 4-byte groups back into characters; `None` when the
/// block is ragged or a group is not a scalar value.
pub open spec fn decode_chars(b: Seq<u8>) -> Option<Seq<char>>
    decreases b.len(),
{
    if b.len() == 0 {
        Some(Seq::<char>::empty())
    } else if b.len() < 4 {
        None
    } else {
        let u = from_le(b.subrange(0, 4));
        if is_scalar(u as u32) {
            match decode_chars(b.subrange(4, b.len() as int)) {
                Some(cs) => Some(seq![(u as u32) as char] + cs),
                None => None,
            }
        } else {
            None
        }
    }
}

pub proof fn lemma_chars_round_trip(cs: Seq<char>)
    ensures
        decode_chars(encode_chars(cs)) == Some(cs),
    decreases cs.len(),
{
    if cs.len() > 0 {
        let b = encode_chars(cs);
        let u0 = (cs[0] as u32) as nat;
        char_is_scalar(cs[0]);
        assert(pow(256, 4) == 0x100000000) by {
            reveal_with_fuel(pow, 5);
        }
        lemma_le_round_trip(u0, 4);
        lemma_encode_chars_len(cs.drop_first());
        assert(b.subrange(0, 4) =~= le_bytes(u0, 4));
        assert(b.subrange(4, b.len() as int) =~= encode_chars(cs.drop_first()));
        lemma_chars_round_trip(cs.drop_first());
        char_u32_cast(cs[0], cs[0] as u32);
        assert(seq![((u0 as u32) as char)] + cs.drop_first() =~= cs);
    }
}

/// The stored record for a task value.
pub open spec fn spec_encode_value(inherit: bool, ext: Seq<char>, content: Seq<u8>) -> Seq<u8> {
    seq![
        1u8,
        if inherit {
            1u8
        } else {
            0u8
        },
    ] + le_bytes(ext.len(), 8) + encode_chars(ext) + content
}

/// Read a stored record back; `None` signals a broken value.
pub open spec fn spec_decode_value(b: Seq<u8>) -> Option<(bool, Seq<char>, Seq<u8>)> {
    if b.len() < 2 {
        None
    } else if b[1] != 0 && b[1] != 1 {
        None
    } else if b[0] == 0 {
        Some(((b[1] == 1), Seq::<char>::empty(), b.subrange(2, b.len() as int)))
    } else if b[0] == 1 {
        if b.len() < 10 {
            None
        } else {
            let n = from_le(b.subrange(2, 10));
            if 10 + 4 * n > b.len() {
                None
            } else {
                match decode_chars(b.subrange(10, 10 + 4 * n as int)) {
                    Some(cs) => Some(((b[1] == 1), cs, b.subrange(10 + 4 * n as int, b.len() as int))),
                    None => None,
                }
            }
        }
    } else {
        None
    }
}

/// Law: decoding an encoded record returns the original fields.
pub proof fn lemma_value_round_trip(inherit: bool, ext: Seq<char>, content: Seq<u8>)
    requires
        ext.len() < 0x10000000000000000,
    ensures
        spec_decode_value(spec_encode_value(inherit, ext, content)) == Some(
            (inherit, ext, content),
        ),
{
    let b = spec_encode_value(inherit, ext, content);
    assert(pow(256, 8) == 0x10000000000000000) by {
        reveal_with_fuel(pow, 9);
    }
    lemma_le_round_trip(ext.len(), 8);
    lemma_encode_chars_len(ext);
    assert(b[0] == 1);
    assert(b[1] == if inherit { 1u8 } else { 0u8 });
    assert(b.subrange(2, 10) =~= le_bytes(ext.len(), 8));
    let n = from_le(b.subrange(2, 10));
    assert(n == ext.len());
    assert(b.subrange(10, 10 + 4 * n as int) =~= encode_chars(ext));
    lemma_chars_round_trip(ext);
    assert(b.subrange(10 + 4 * n as int, b.len() as int) =~= content);
}

/// Relies on char::from_u32: `Some` exactly for Unicode scalar values, and
/// the returned character has the given scalar value.
pub assume_specification[ char::from_u32 ](u: u32) -> (r: Option<char>)
    ensures
        r is Some <==> is_scalar(u),
        r matches Some(c) ==> c as u32 == u,
;

/// Relies on String::push: appends the one character at the end.
#[verifier::external_body]
fn push_char(s: &mut String, c: char)
    ensures
        final(s)@ == old(s)@.push(c),
{
    s.push(c);
}

fn push_le8(out: &mut Vec<u8>, n: u64)
    ensures
        final(out)@ == old(out)@ + le_bytes(n as nat, 8),
{
    let b0 = (n % 256) as u8;
    let n1 = n / 256;
    let b1 = (n1 % 256) as u8;
    let n2 = n1 / 256;
    let b2 = (n2 % 256) as u8;
    let n3 = n2 / 256;
    let b3 = (n3 % 256) as u8;
    let n4 = n3 / 256;
    let b4 = (n4 % 256) as u8;
    let n5 = n4 / 256;
    let b5 = (n5 % 256) as u8;
    let n6 = n5 / 256;
    let b6 = (n6 % 256) as u8;
    let n7 = n6 / 256;
    let b7 = (n7 % 256) as u8;
    out.push(b0);
    out.push(b1);
    out.push(b2);
    out.push(b3);
    out.push(b4);
    out.push(b5);
    out.push(b6);
    out.push(b7);
    proof {
        assert(out@ =~= old(out)@ + le_bytes(n as nat, 8)) by {
            reveal_with_fuel(le_bytes, 9);
        }
    }
}

fn read_le8(b: &Vec<u8>, off: usize) -> (r: u64)
    requires
        off + 8 <= b@.len(),
    ensures
        r as nat == from_le(b@.subrange(off as int, off as int + 8)),
{
    let l = b.len();
    assert(off + 8 <= l);
    let x0 = b[off] as u64;
    let x1 = b[off + 1] as u64;
    let x2 = b[off + 2] as u64;
    let x3 = b[off + 3] as u64;
    let x4 = b[off + 4] as u64;
    let x5 = b[off + 5] as u64;
    let x6 = b[off + 6] as u64;
    let x7 = b[off + 7] as u64;
    let r = x0 + 256 * (x1 + 256 * (x2 + 256 * (x3 + 256 * (x4 + 256 * (x5 + 256 * (x6 + 256
        * x7))))));
    proof {
        assert(r as nat == from_le(b@.subrange(off as int, off as int + 8))) by {
            reveal_with_fuel(from_le, 9);
            assert(b@.subrange(off as int, off as int + 8).drop_first() =~= b@.subrange(
                off as int + 1,
                off as int + 8,
            ));
            assert(b@.subrange(off as int + 1, off as int + 8).drop_first() =~= b@.subrange(
                off as int + 2,
                off as int + 8,
            ));
            assert(b@.subrange(off as int + 2, off as int + 8).drop_first() =~= b@.subrange(
                off as int + 3,
                off as int + 8,
            ));
            assert(b@.subrange(off as int + 3, off as int + 8).drop_first() =~= b@.subrange(
                off as int + 4,
                off as int + 8,
            ));
            assert(b@.subrange(off as int + 4, off as int + 8).drop_first() =~= b@.subrange(
                off as int + 5,
                off as int + 8,
            ));
            assert(b@.subrange(off as int + 5, off as int + 8).drop_first() =~= b@.subrange(
                off as int + 6,
                off as int + 8,
            ));
            assert(b@.subrange(off as int + 6, off as int + 8).drop_first() =~= b@.subrange(
                off as int + 7,
                off as int + 8,
            ));
            assert(b@.subrange(off as int + 7, off as int + 8).drop_first() =~= Seq::<
                u8,
            >::empty());
        }
    }
    r
}

fn push_le4(out: &mut Vec<u8>, n: u32)
    ensures
        final(out)@ == old(out)@ + le_bytes(n as nat, 4),
{
    let b0 = (n % 256) as u8;
    let n1 = n / 256;
    let b1 = (n1 % 256) as u8;
    let n2 = n1 / 256;
    let b2 = (n2 % 256) as u8;
    let n3 = n2 / 256;
    let b3 = (n3 % 256) as u8;
    out.push(b0);
    out.push(b1);
    out.push(b2);
    out.push(b3);
    proof {
        assert(out@ =~= old(out)@ + le_bytes(n as nat, 4)) by {
            reveal_with_fuel(le_bytes, 5);
        }
    }
}

fn read_le4(b: &Vec<u8>, off: usize) -> (r: u32)
    requires
        off + 4 <= b@.len(),
    ensures
        r as nat == from_le(b@.subrange(off as int, off as int + 4)),
{
    let l = b.len();
    assert(off + 4 <= l);
    let x0 = b[off] as u32;
    let x1 = b[off + 1] as u32;
    let x2 = b[off + 2] as u32;
    let x3 = b[off + 3] as u32;
    let r = x0 + 256 * (x1 + 256 * (x2 + 256 * x3));
    proof {
        assert(r as nat == from_le(b@.subrange(off as int, off as int + 4))) by {
            reveal_with_fuel(from_le, 5);
            assert(b@.subrange(off as int, off as int + 4).drop_first() =~= b@.subrange(
                off as int + 1,
                off as int + 4,
            ));
            assert(b@.subrange(off as int + 1, off as int + 4).drop_first() =~= b@.subrange(
                off as int + 2,
                off as int + 4,
            ));
            assert(b@.subrange(off as int + 2, off as int + 4).drop_first() =~= b@.subrange(
                off as int + 3,
                off as int + 4,
            ));
            assert(b@.subrange(off as int + 3, off as int + 4).drop_first() =~= Seq::<
                u8,
            >::empty());
        }
    }
    r
}

/// Serialize a record for the store.
pub fn encode_value_bytes(inherit: bool, extension: &String, content: &Vec<u8>) -> (r: Vec<u8>)
    ensures
        r@ == spec_encode_value(inherit, extension@, content@),
{
    let mut out: Vec<u8> = Vec::new();
    out.push(1u8);
    out.push(
        if inherit {
            1u8
        } else {
            0u8
        },
    );
    let m = extension.as_str().unicode_len();
    push_le8(&mut out, m as u64);
    let ghost head = seq![
        1u8,
        if inherit {
            1u8
        } else {
            0u8
        },
    ] + le_bytes(m as nat, 8);
    proof {
        assert(out@ =~= head + encode_chars(extension@.take(0)));
    }
    let mut j: usize = 0;
    while j < m
        invariant
            m == extension@.len(),
            j <= m,
            out@ == head + encode_chars(extension@.take(j as int)),
        decreases m - j,
    {
        let c = extension.as_str().get_char(j);
        push_le4(&mut out, c as u32);
        proof {
            let pre = extension@.take(j as int);
            let one = seq![extension@[j as int]];
            assert(extension@.take(j as int + 1) =~= pre + one);
            lemma_encode_chars_concat(pre, one);
            assert(one.drop_first() =~= Seq::<char>::empty());
            assert(encode_chars(Seq::<char>::empty()) == Seq::<u8>::empty());
            assert(encode_chars(one) =~= le_bytes((c as u32) as nat, 4));
            assert(out@ =~= head + encode_chars(extension@.take(j as int + 1)));
        }
        j = j + 1;
    }
    proof {
        assert(extension@.take(m as int) =~= extension@);
    }
    out.extend_from_slice(content.as_slice());
    proof {
        assert(out@ =~= spec_encode_value(inherit, extension@, content@));
    }
    out
}

/// `o` with the already-decoded characters put back in front.
spec fn opt_prepend(a: Seq<char>, o: Option<Seq<char>>) -> Option<Seq<char>> {
    match o {
        Some(t) => Some(a + t),
        None => None,
    }
}

/// Copy `b[from..to]` out as a fresh vector.
fn copy_range(b: &Vec<u8>, from: usize, to: usize) -> (r: Vec<u8>)
    requires
        from <= to <= b@.len(),
    ensures
        r@ == b@.subrange(from as int, to as int),
{
    let mut out: Vec<u8> = Vec::new();
    let mut k = from;
    while k < to
        invariant
            from <= k <= to <= b@.len(),
            out@ == b@.subrange(from as int, k as int),
        decreases to - k,
    {
        out.push(b[k]);
        proof {
            assert(b@.subrange(from as int, k as int + 1) =~= b@.subrange(
                from as int,
                k as int,
            ).push(b@[k as int]));
        }
        k = k + 1;
    }
    out
}

/// Deserialize a stored record; `None` signals a broken value.
pub fn decode_value_bytes(b: &Vec<u8>) -> (r: Option<(bool, String, Vec<u8>)>)
    ensures
        match r {
            Some(t) => spec_decode_value(b@) == Some((t.0, t.1@, t.2@)),
            None => spec_decode_value(b@) is None,
        },
{
    let len = b.len();
    if len < 2 {
        return None;
    }
    let tag = b[0];
    let ib = b[1];
    if ib != 0 && ib != 1 {
        return None;
    }
    let inherit = ib == 1;
    if tag == 0 {
        let content = copy_range(b, 2, len);
        return Some((inherit, String::new(), content));
    }
    if tag != 1 {
        return None;
    }
    if len < 10 {
        return None;
    }
    let n64 = read_le8(b, 2);
    let ghost n_spec = from_le(b@.subrange(2, 10));
    if n64 > ((len - 10) / 4) as u64 {
        proof {
            lemma_fundamental_div_mod(len as int - 10, 4);
        }
        return None;
    }
    proof {
        lemma_fundamental_div_mod(len as int - 10, 4);
    }
    let n = n64 as usize;
    let ghost chars_block = b@.subrange(10, 10 + 4 * n_spec as int);
    let mut ext = String::new();
    let mut j: usize = 0;
    proof {
        assert(b@.subrange(10 + 4 * j as int, 10 + 4 * n as int) =~= chars_block);
        match decode_chars(chars_block) {
            Some(t) => {
                assert(ext@ + t =~= t);
            },
            None => {},
        }
    }
    while j < n
        invariant
            n == n_spec,
            10 + 4 * n as int <= len as int,
            len == b@.len(),
            b@.len() >= 10,
            b@[0] == 1,
            b@[1] == 0 || b@[1] == 1,
            inherit == (b@[1] == 1),
            n_spec == from_le(b@.subrange(2, 10)),
            chars_block == b@.subrange(10, 10 + 4 * n as int),
            j <= n,
            opt_prepend(
                ext@,
                decode_chars(b@.subrange(10 + 4 * j as int, 10 + 4 * n as int)),
            ) == decode_chars(chars_block),
        decreases n - j,
    {
        let u = read_le4(b, 10 + 4 * j);
        let ghost blk = b@.subrange(10 + 4 * j as int, 10 + 4 * n as int);
        proof {
            assert(blk.subrange(0, 4) =~= b@.subrange(10 + 4 * j as int, 10 + 4 * j as int + 4));
            lemma_from_le_bound(blk.subrange(0, 4));
            lemma_pow_consts();
        }
        match char::from_u32(u) {
            Some(c) => {
                proof {
                    char_u32_cast(c, u);
                    assert(blk.subrange(4, blk.len() as int) =~= b@.subrange(
                        10 + 4 * (j as int + 1),
                        10 + 4 * n as int,
                    ));
                    assert(decode_chars(blk) == opt_prepend(
                        seq![c],
                        decode_chars(blk.subrange(4, blk.len() as int)),
                    ));
                }
                let ghost ext0 = ext@;
                push_char(&mut ext, c);
                proof {
                    assert(ext@ =~= ext0 + seq![c]);
                    match decode_chars(b@.subrange(10 + 4 * (j as int + 1), 10 + 4 * n as int)) {
                        Some(t) => {
                            assert((ext0 + seq![c]) + t =~= ext0 + (seq![c] + t));
                        },
                        None => {},
                    }
                }
                j = j + 1;
            },
            None => {
                proof {
                    assert(decode_chars(blk) is None);
                    assert(decode_chars(chars_block) is None);
                    assert(spec_decode_value(b@) is None);
                }
                return None;
            },
        }
    }
    proof {
        assert(b@.subrange(10 + 4 * n as int, 10 + 4 * n as int) =~= Seq::<u8>::empty());
        assert(decode_chars(chars_block) == Some(ext@ + Seq::<char>::empty()));
        assert(ext@ + Seq::<char>::empty() =~= ext@);
    }
    let content = copy_range(b, 10 + 4 * n, len);
    Some((inherit, ext, content))
}

/// The fixed namespace prefix that keeps task entries apart from anything
/// else sharing the store.
pub open spec fn key_prefix() -> Seq<char> {
    seq!['t', 'a', 's', 'k', '.']
}

/// The storage key for a canonical path.
pub open spec fn task_key(path: Seq<char>) -> Seq<char> {
    key_prefix() + path
}

pub proof fn lemma_task_key_injective(p1: Seq<char>, p2: Seq<char>)
    ensures
        task_key(p1) == task_key(p2) ==> p1 == p2,
{
    if task_key(p1) == task_key(p2) {
        assert(p1 =~= task_key(p1).subrange(5, task_key(p1).len() as int));
        assert(p2 =~= task_key(p2).subrange(5, task_key(p2).len() as int));
    }
}

/// Recover the path a key stands for; `None` when the key is not in the
/// task namespace or the remainder is not absolute.
pub open spec fn spec_decode_key(k: Seq<char>) -> Option<Seq<char>> {
    if k.len() >= 6 && k.subrange(0, 5) == key_prefix() && k[5] == '/' {
        Some(k.subrange(5, k.len() as int))
    } else {
        None
    }
}

/// Law: decoding an encoded key returns the original absolute path.
pub proof fn lemma_key_round_trip(path: Seq<char>)
    requires
        crate::path::abs_path(path),
    ensures
        spec_decode_key(task_key(path)) == Some(path),
{
    let k = task_key(path);
    assert(k.subrange(0, 5) =~= key_prefix());
    assert(k.subrange(5, k.len() as int) =~= path);
}

/// The storage key for `path`, ready for the store.
pub fn encode_key(path: &str) -> (r: String)
    ensures
        r@ == task_key(path@),
{
    let mut s = String::from_str("task.");
    proof {
        reveal_strlit("task.");
        assert(s@ =~= key_prefix());
    }
    s.append(path);
    s
}

/// The path behind a storage key, when the key is a task entry.
pub fn decode_key(key: &str) -> (r: Option<String>)
    ensures
        match r {
            Some(p) => spec_decode_key(key@) == Some(p@),
            None => spec_decode_key(key@) is None,
        },
{
    let n = key.unicode_len();
    if n < 6 {
        return None;
    }
    if key.get_char(0) == 't' && key.get_char(1) == 'a' && key.get_char(2) == 's'
        && key.get_char(3) == 'k' && key.get_char(4) == '.' && key.get_char(5) == '/' {
        proof {
            assert(key@.subrange(0, 5) =~= key_prefix());
        }
        Some(key.substring_char(5, n).to_owned())
    } else {
        proof {
            if key@.subrange(0, 5) == key_prefix() {
                assert(key@[0] == 't' && key@[1] == 'a' && key@[2] == 's' && key@[3] == 'k'
                    && key@[4] == '.');
            }
        }
        None
    }
}

} // verus!
