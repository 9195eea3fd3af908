//! The canonical, versioned binary encoding of operation payloads, shared by the
//! local and the cloud-mirrored log.
use vstd::prelude::*;
use crate::op::{DataView, OpData, bytes_eq};

verus! {

/// Version byte that leads every encoded payload.
pub const FORMAT_VERSION: u8 = 1;

/// A byte string is not the encoding of any payload.
#[derive(Debug, Clone, Copy, PartialEq, Eq, Structural)]
pub enum DecodeError {
    /// Empty, or led by an unknown version.
    UnknownVersion,
    /// The version is known but the rest is malformed.
    Malformed,
    /// A stored identifier is not sixteen bytes long.
    BadIdentifier,
    /// The stored kind is not the kind of the stored payload.
    KindMismatch,
}

/// 256 to the power `n`.
pub open spec fn pow256(n: nat) -> nat
    decreases n,
{
    if n == 0 { 1 } else { 256 * pow256((n - 1) as nat) }
}

/// The number that a byte string denotes, read big-endian.
pub open spec fn be_value(b: Seq<u8>) -> nat
    decreases b.len(),
{
    if b.len() == 0 {
        0
    } else {
        be_value(b.drop_last()) * 256 + b.last() as nat
    }
}

/// The `n` lowest bytes of `x`, big-endian.
pub open spec fn be_bytes(x: nat, n: nat) -> Seq<u8>
    decreases n,
{
    if n == 0 {
        Seq::empty()
    } else {
        be_bytes(x / 256, (n - 1) as nat).push((x % 256) as u8)
    }
}

/// Whether the payload can be encoded: a field name's length must fit the eight-byte
/// length prefix, which every field name held in memory does.
pub open spec fn encodable(d: DataView) -> bool {
    match d {
        DataView::Update { field, .. } => field.len() < pow256(8),
        _ => true,
    }
}

pub proof fn lemma_pow256_mono(i: nat, j: nat)
    requires
        i <= j,
    ensures
        1 <= pow256(i) <= pow256(j),
    decreases j,
{
    if j > 0 {
        if i < j {
            lemma_pow256_mono(i, (j - 1) as nat);
        } else {
            lemma_pow256_mono((j - 1) as nat, (j - 1) as nat);
        }
    }
}

/// The big-endian bytes of a number below `pow256(n)` read back to it.
pub proof fn lemma_be_bytes(x: nat, n: nat)
    requires
        x < pow256(n),
    ensures
        be_bytes(x, n).len() == n,
        be_value(be_bytes(x, n)) == x,
    decreases n,
{
    if n > 0 {
        let q = pow256((n - 1) as nat);
        assert(x / 256 < q) by (nonlinear_arith)
            requires
                x < 256 * q,
        ;
        lemma_be_bytes(x / 256, (n - 1) as nat);
        let s = be_bytes(x, n);
        assert(s.drop_last() == be_bytes(x / 256, (n - 1) as nat));
        assert(x == (x / 256) * 256 + x % 256) by (nonlinear_arith);
    }
}

/// A big-endian number of `n` bytes is below `pow256(n)`.
pub proof fn lemma_be_value_bound(s: Seq<u8>)
    ensures
        be_value(s) < pow256(s.len()),
    decreases s.len(),
{
    if s.len() > 0 {
        lemma_be_value_bound(s.drop_last());
        let v = be_value(s.drop_last());
        let q = pow256((s.len() - 1) as nat);
        let c = s.last() as nat;
        assert(v * 256 + c < 256 * q) by (nonlinear_arith)
            requires
                v < q,
                c < 256,
        ;
    }
}

/// The encoding: version, then a tag (0 create, 1 update, 2 delete); an update goes
/// on with the field name's length in eight bytes, big-endian, the name, and the value.
pub open spec fn encode_data(d: DataView) -> Seq<u8> {
    match d {
        DataView::Create => seq![FORMAT_VERSION, 0u8],
        DataView::Update { field, value } => seq![FORMAT_VERSION, 1u8] + be_bytes(field.len(), 8) + field
            + value,
        DataView::Delete => seq![FORMAT_VERSION, 2u8],
    }
}

/// Bytes are the big-endian bytes, as many, of the number they denote.
pub proof fn lemma_be_bytes_of_value(s: Seq<u8>)
    ensures
        be_bytes(be_value(s), s.len()) == s,
    decreases s.len(),
{
    if s.len() > 0 {
        let p = s.drop_last();
        lemma_be_bytes_of_value(p);
        let v = be_value(p);
        let x = be_value(s);
        let c = s.last() as nat;
        assert(x / 256 == v && x % 256 == c) by (nonlinear_arith)
            requires
                x == v * 256 + c,
                c < 256,
        ;
        assert(s == p.push(s.last()));
    }
}

/// Encodable payloads have distinct encodings, so decoding is well defined.
pub proof fn lemma_encode_injective(a: DataView, b: DataView)
    requires
        encodable(a),
        encodable(b),
        encode_data(a) == encode_data(b),
    ensures
        a == b,
{
    let e = encode_data(a);
    assert(e[1] == encode_data(b)[1]);
    if let DataView::Update { field: fa, value: va } = a {
        if let DataView::Update { field: fb, value: vb } = b {
            let eb = encode_data(b);
            lemma_be_bytes(fa.len(), 8);
            lemma_be_bytes(fb.len(), 8);
            assert(e.subrange(2, 10) == be_bytes(fa.len(), 8));
            assert(eb.subrange(2, 10) == be_bytes(fb.len(), 8));
            assert(fa.len() == fb.len());
            assert(fa == e.subrange(10, (10 + fa.len()) as int));
            assert(fb == eb.subrange(10, (10 + fb.len()) as int));
            assert(va == e.subrange((10 + fa.len()) as int, e.len() as int));
            assert(vb == eb.subrange((10 + fb.len()) as int, eb.len() as int));
        }
    }
}

/// ASCII `c`.
pub const KIND_CREATE: u8 = 99;
/// ASCII `u`.
pub const KIND_UPDATE: u8 = 117;
/// ASCII `:`.
pub const KIND_SEPARATOR: u8 = 58;
/// ASCII `d`.
pub const KIND_DELETE: u8 = 100;

/// The kind column of a payload: `c` for a creation, `u:` and the field name for an
/// update, `d` for a deletion.
pub open spec fn kind_of(d: DataView) -> Seq<u8> {
    match d {
        DataView::Create => seq![KIND_CREATE],
        DataView::Update { field, .. } => seq![KIND_UPDATE, KIND_SEPARATOR] + field,
        DataView::Delete => seq![KIND_DELETE],
    }
}

/// The kind column of a payload.
pub fn kind(d: &OpData) -> (r: Vec<u8>)
    ensures
        r@ == kind_of(d@),
{
    let mut r: Vec<u8> = Vec::new();
    match d {
        OpData::Create => {
            r.push(KIND_CREATE);
        },
        OpData::Update { field, .. } => {
            r.push(KIND_UPDATE);
            r.push(KIND_SEPARATOR);
            extend(&mut r, field);
        },
        OpData::Delete => {
            r.push(KIND_DELETE);
        },
    }
    assert(r@ =~= kind_of(d@));
    r
}

/// Whether `k` is the kind column of the payload.
pub fn has_kind(d: &OpData, k: &Vec<u8>) -> (r: bool)
    ensures
        r == (kind_of(d@) == k@),
{
    bytes_eq(&kind(d), k)
}

fn copy_range(b: &Vec<u8>, start: usize, end: usize) -> (r: Vec<u8>)
    requires
        start <= end <= b@.len(),
    ensures
        r@ == b@.subrange(start as int, end as int),
{
    let mut r: Vec<u8> = Vec::new();
    let mut i: usize = start;
    while i < end
        invariant
            start <= i <= end,
            end <= b@.len(),
            r@ == b@.subrange(start as int, i as int),
        decreases end - i,
    {
        r.push(b[i]);
        assert(r@ =~= b@.subrange(start as int, i + 1));
        i = i + 1;
    }
    r
}

fn extend(r: &mut Vec<u8>, b: &Vec<u8>)
    ensures
        final(r)@ == old(r)@ + b@,
{
    let mut i: usize = 0;
    while i < b.len()
        invariant
            i <= b@.len(),
            r@ == old(r)@ + b@.subrange(0, i as int),
        decreases b.len() - i,
    {
        r.push(b[i]);
        assert(r@ =~= old(r)@ + b@.subrange(0, i + 1));
        i = i + 1;
    }
    assert(b@.subrange(0, b@.len() as int) == b@);
}

fn push_be(out: &mut Vec<u8>, x: u64, n: usize)
    ensures
        final(out)@ == old(out)@ + be_bytes(x as nat, n as nat),
    decreases n,
{
    if n > 0 {
        push_be(out, x / 256, n - 1);
        let ghost mid = out@;
        out.push((x % 256) as u8);
        assert(out@ =~= old(out)@ + be_bytes(x as nat, n as nat));
    } else {
        assert(out@ =~= old(out)@ + be_bytes(x as nat, n as nat));
    }
}

/// Encodes a payload.
pub fn encode(d: &OpData) -> (r: Vec<u8>)
    ensures
        encodable(d@),
        r@ == encode_data(d@),
{
    let mut r: Vec<u8> = Vec::new();
    r.push(FORMAT_VERSION);
    match d {
        OpData::Create => {
            r.push(0u8);
            assert(r@ =~= encode_data(d@));
        },
        OpData::Delete => {
            r.push(2u8);
            assert(r@ =~= encode_data(d@));
        },
        OpData::Update { field, value } => {
            r.push(1u8);
            let flen = field.len() as u64;
            proof {
                reveal_with_fuel(pow256, 9);
                assert(pow256(8) == 0x1_0000_0000_0000_0000);
            }
            push_be(&mut r, flen, 8);
            extend(&mut r, field);
            extend(&mut r, value);
            assert(r@ =~= encode_data(d@));
        },
    }
    r
}

/// Decodes a payload: succeeds exactly on the encodings of encodable payloads.
pub fn decode(b: &Vec<u8>) -> (r: Result<OpData, DecodeError>)
    ensures
        match r {
            Ok(d) => encodable(d@) && encode_data(d@) == b@,
            Err(_) => forall|d: DataView| encodable(d) ==> encode_data(d) != b@,
        },
        r == Err::<OpData, DecodeError>(DecodeError::UnknownVersion) <==> (b@.len() < 2 || b@[0] != FORMAT_VERSION),
        r is Err ==> r == Err::<OpData, DecodeError>(DecodeError::UnknownVersion)
            || r == Err::<OpData, DecodeError>(DecodeError::Malformed),
{
    if b.len() < 2 || b[0] != FORMAT_VERSION {
        proof {
            assert forall|d: DataView| encodable(d) implies encode_data(d) != b@ by {
                if encode_data(d) == b@ {
                    assert(encode_data(d)[0] == FORMAT_VERSION);
                }
            }
        }
        return Err(DecodeError::UnknownVersion);
    }
    let tag = b[1];
    if tag == 0 && b.len() == 2 {
        assert(b@ =~= encode_data(DataView::Create));
        return Ok(OpData::Create);
    }
    if tag == 2 && b.len() == 2 {
        assert(b@ =~= encode_data(DataView::Delete));
        return Ok(OpData::Delete);
    }
    if tag == 1 && b.len() >= 10 {
        let mut flen: u64 = 0;
        let mut i: usize = 0;
        proof {
            reveal_with_fuel(pow256, 9);
            assert(pow256(8) == 0x1_0000_0000_0000_0000);
            assert(b@.subrange(2, 2) =~= Seq::<u8>::empty());
        }
        while i < 8
            invariant
                i <= 8,
                b@.len() >= 10,
                pow256(8) == 0x1_0000_0000_0000_0000,
                flen as nat == be_value(b@.subrange(2, 2 + i)),
            decreases 8 - i,
        {
            proof {
                lemma_be_value_bound(b@.subrange(2, 2 + i));
                lemma_pow256_mono(i as nat, 7);
                let q = pow256(i as nat);
                let q7 = pow256(7);
                assert(flen * 256 + 255 < pow256(8)) by (nonlinear_arith)
                    requires
                        flen < q,
                        q <= q7,
                        pow256(8) == 256 * q7,
                ;
                assert(b@.subrange(2, 3 + i).drop_last() == b@.subrange(2, 2 + i));
            }
            flen = flen * 256 + b[2 + i] as u64;
            i = i + 1;
        }
        let ghost head = b@.subrange(2, 10);
        if flen as u128 <= (b.len() - 10) as u128 {
            let n = flen as usize;
            let field = copy_range(b, 10, 10 + n);
            let value = copy_range(b, 10 + n, b.len());
            let d = OpData::Update { field, value };
            proof {
                lemma_be_value_bound(head);
                lemma_be_bytes(flen as nat, 8);
                lemma_be_bytes_of_value(head);
            }
            assert(encode_data(d@) =~= b@);
            return Ok(d);
        }
        proof {
            assert forall|d: DataView| encodable(d) implies encode_data(d) != b@ by {
                if encode_data(d) == b@ {
                    let e = encode_data(d);
                    assert(e[1] == b@[1]);
                    if let DataView::Update { field, value } = d {
                        lemma_be_bytes(field.len(), 8);
                        assert(e.subrange(2, 10) == be_bytes(field.len(), 8));
                        assert(head == e.subrange(2, 10));
                    }
                }
            }
        }
        return Err(DecodeError::Malformed);
    }
    proof {
        assert forall|d: DataView| encodable(d) implies encode_data(d) != b@ by {
            if encode_data(d) == b@ {
                let e = encode_data(d);
                assert(e[1] == b@[1]);
                if let DataView::Update { field, value } = d {
                    lemma_be_bytes(field.len(), 8);
                    assert(e.len() >= 10);
                }
            }
        }
    }
    Err(DecodeError::Malformed)
}

} // verus!
