//! Reed-Solomon erasure coding for the storage plugin.
//!
//! Defaults: k=10, n=14 (4 parity shards). Any 10 of the 14 shards
//! rebuild the original bytes.

use vstd::prelude::*;
use crate::codec::{codeword, present_count, reconstructible, rs_new, rs_encode, rs_reconstruct, rs_reconstructed, agrees_with, all_len};
use crate::text::{decimal, push_decimal};

verus! {

broadcast use vstd::seq::group_seq_axioms;

/// Default data shard count.
pub const DEFAULT_K: usize = 10;

/// Default total shard count.
pub const DEFAULT_N: usize = 14;

/// Number of parity shards under the default scheme.
pub const DEFAULT_PARITY: usize = DEFAULT_N - DEFAULT_K;

/// One Reed-Solomon shard: its position in `0..n` and the encoded bytes.
#[derive(Clone, Debug, PartialEq, Eq)]
pub struct Shard {
    pub index: u8,
    pub bytes: Vec<u8>,
}

/// Why encoding or decoding failed.
#[derive(Debug)]
pub enum ErasureError {
    /// `k` or `parity` is zero.
    ZeroShardCount,
    /// The received vector does not have one slot per shard.
    WrongShardCount { expected: usize, got: usize },
    /// Fewer than `k` shards survived.
    TooFewShards { need: usize, got: usize },
    /// The codec refused the shard counts.
    CodecSetup(reed_solomon_erasure::Error),
    /// The codec refused to compute parity.
    CodecEncode(reed_solomon_erasure::Error),
    /// The codec refused to rebuild the lost shards.
    CodecReconstruct(reed_solomon_erasure::Error),
    /// A data slot was still empty after reconstruction.
    MissingDataShard,
}

/// The text of an error, as the node reports it.
pub open spec fn erasure_message(e: ErasureError) -> Seq<char> {
    match e {
        ErasureError::ZeroShardCount => "erasure encode: k and parity must be > 0"@,
        ErasureError::WrongShardCount { expected, got } => "erasure decode: expected "@ + decimal(
            expected as nat,
        ) + " positions, got "@ + decimal(got as nat),
        ErasureError::TooFewShards { need, got } => "erasure decode: need at least "@ + decimal(
            need as nat,
        ) + " shards, got "@ + decimal(got as nat),
        ErasureError::CodecSetup(_) => "ReedSolomon::new"@,
        ErasureError::CodecEncode(_) => "ReedSolomon::encode"@,
        ErasureError::CodecReconstruct(_) => "ReedSolomon::reconstruct"@,
        ErasureError::MissingDataShard => "RS reconstruct left data slot empty"@,
    }
}

impl ErasureError {
    /// The error's text.
    pub fn message(&self) -> (s: String)
        ensures
            s@ == erasure_message(*self),
    {
        match self {
            ErasureError::ZeroShardCount => String::from_str("erasure encode: k and parity must be > 0"),
            ErasureError::WrongShardCount { expected, got } => {
                let mut s = String::from_str("erasure decode: expected ");
                push_decimal(&mut s, *expected);
                s.append(" positions, got ");
                push_decimal(&mut s, *got);
                s
            },
            ErasureError::TooFewShards { need, got } => {
                let mut s = String::from_str("erasure decode: need at least ");
                push_decimal(&mut s, *need);
                s.append(" shards, got ");
                push_decimal(&mut s, *got);
                s
            },
            ErasureError::CodecSetup(_) => String::from_str("ReedSolomon::new"),
            ErasureError::CodecEncode(_) => String::from_str("ReedSolomon::encode"),
            ErasureError::CodecReconstruct(_) => String::from_str("ReedSolomon::reconstruct"),
            ErasureError::MissingDataShard => String::from_str("RS reconstruct left data slot empty"),
        }
    }
}

/// Length of every shard for `len` input bytes over `k` data shards:
/// `ceil(len / k)`, and at least one byte.
pub open spec fn shard_len(len: nat, k: nat) -> nat {
    if len == 0 {
        1
    } else {
        ((len - 1) as nat / k + 1) as nat
    }
}

/// `l` bytes of `data` starting at `base`, zero-padded past its end.
pub open spec fn data_slice(data: Seq<u8>, base: int, l: nat) -> Seq<u8> {
    Seq::new(l, |j: int| if base + j < data.len() { data[base + j] } else { 0u8 })
}

/// The `k` data shards of `data`: consecutive slices of `shard_len` bytes,
/// the last ones zero-padded.
pub open spec fn data_shards(data: Seq<u8>, k: nat) -> Seq<Seq<u8>> {
    let l = shard_len(data.len(), k);
    Seq::new(k, |i: int| data_slice(data, i * l, l))
}

/// The `k + p` shards that encoding `data` yields.
pub open spec fn encoded(data: Seq<u8>, k: nat, p: nat) -> Seq<Seq<u8>> {
    codeword(data_shards(data, k), p)
}

/// The bytes of each slot of a received vector.
pub open spec fn slot_bytes(received: Seq<Option<Shard>>) -> Seq<Option<Seq<u8>>> {
    received.map_values(|o: Option<Shard>| match o {
        Some(s) => Some(s.bytes@),
        None => None,
    })
}

/// The shard counts are ones the codec accepts.
pub open spec fn valid_counts(k: nat, p: nat) -> bool {
    k > 0 && p > 0 && k + p <= 256
}

/// `s` cut to at most `n` elements.
pub open spec fn truncated<T>(s: Seq<T>, n: nat) -> Seq<T> {
    if n <= s.len() {
        s.take(n as int)
    } else {
        s
    }
}

/// The received slots come from encoding `data` with `k` data and `p`
/// parity shards: at least `k` of them are present, and each present one
/// is the shard that encoding gave at its position.
pub open spec fn holds_encoding_of(
    slots: Seq<Option<Seq<u8>>>,
    data: Seq<u8>,
    k: nat,
    p: nat,
) -> bool {
    &&& valid_counts(k, p)
    &&& slots.len() == k + p
    &&& present_count(slots) >= k
    &&& forall|i: int|
        0 <= i < slots.len() && (#[trigger] slots[i]) is Some ==> slots[i].unwrap() == encoded(
            data,
            k,
            p,
        )[i] && slots[i].unwrap().len() == shard_len(data.len(), k)
}

fn padded_slice(data: &[u8], start: usize, l: usize) -> (b: Vec<u8>)
    requires
        start <= data@.len(),
    ensures
        b@ == data_slice(data@, start as int, l as nat),
{
    let mut b: Vec<u8> = Vec::new();
    let mut j: usize = 0;
    while j < l
        invariant
            j <= l,
            start <= data@.len(),
            b@ =~= data_slice(data@, start as int, l as nat).take(j as int),
        decreases l - j,
    {
        if j < data.len() - start {
            b.push(data[start + j]);
        } else {
            b.push(0u8);
        }
        j = j + 1;
    }
    b
}

proof fn lemma_slice_past_end(data: Seq<u8>, base: int, l: nat)
    requires
        base >= data.len(),
    ensures
        data_slice(data, base, l) == data_slice(data, data.len() as int, l),
{
    assert(data_slice(data, base, l) =~= data_slice(data, data.len() as int, l));
}

/// Number each buffer by its position.
pub fn shards_from_buffers(buffers: Vec<Vec<u8>>) -> (shards: Vec<Shard>)
    requires
        buffers@.len() <= 256,
    ensures
        shards@.len() == buffers@.len(),
        forall|i: int|
            0 <= i < shards@.len() ==> (#[trigger] shards@[i]).index == i && shards@[i].bytes@
                == buffers@[i]@,
{
    let ghost orig = buffers@;
    let mut rest = buffers;
    let mut shards: Vec<Shard> = Vec::new();
    let mut i: usize = 0;
    while rest.len() > 0
        invariant
            orig.len() <= 256,
            i + rest@.len() == orig.len(),
            shards@.len() == i,
            rest@ == orig.skip(i as int),
            forall|t: int|
                0 <= t < i ==> (#[trigger] shards@[t]).index == t && shards@[t].bytes@ == orig[t]@,
        decreases rest@.len(),
    {
        let b: Vec<u8> = rest.remove(0);
        shards.push(Shard { index: i as u8, bytes: b });
        assert(orig.skip(i as int).skip(1) =~= orig.skip(i as int + 1));
        i = i + 1;
    }
    shards
}

/// Encode `data` into `k + parity` shards. Returns the shards plus the
/// original byte length (so the decoder can trim padding).
pub fn encode(data: &[u8], k: usize, parity: usize) -> (r: Result<(Vec<Shard>, usize), ErasureError>)
    requires
        k + parity <= usize::MAX,
    ensures
        (k == 0 || parity == 0) <==> r matches Err(ErasureError::ZeroShardCount),
        (k > 0 && parity > 0 && k + parity > 256) <==> r matches Err(ErasureError::CodecSetup(_)),
        r is Ok <==> valid_counts(k as nat, parity as nat),
        r matches Ok((shards, len)) ==> {
            &&& len == data@.len()
            &&& shards@.len() == k + parity
            &&& forall|i: int|
                0 <= i < shards@.len() ==> (#[trigger] shards@[i]).index == i && shards@[i].bytes@
                    == encoded(data@, k as nat, parity as nat)[i] && shards@[i].bytes@.len()
                    == shard_len(data@.len(), k as nat)
        },
{
    if k == 0 || parity == 0 {
        return Err(ErasureError::ZeroShardCount);
    }
    let coder = match rs_new(k, parity) {
        Ok(c) => c,
        Err(e) => return Err(ErasureError::CodecSetup(e)),
    };
    let n: usize = k + parity;
    let len: usize = data.len();
    // Every shard has the same length; empty input still gets one byte per
    // shard, since the codec refuses empty shards.
    let l: usize = if len == 0 {
        1
    } else {
        (len - 1) / k + 1
    };
    let ghost lg = l as nat;
    let ghost d = data_shards(data@, k as nat);
    assert(lg == shard_len(len as nat, k as nat));

    let mut buffers: Vec<Vec<u8>> = Vec::new();
    let mut pos: usize = 0;
    let mut i: usize = 0;
    while i < k
        invariant
            i <= k,
            k <= 256,
            len == data@.len(),
            l == lg,
            lg == shard_len(len as nat, k as nat),
            d == data_shards(data@, k as nat),
            buffers@.len() == i,
            pos <= len,
            pos == (if i * lg < len { i * lg } else { len as int }),
            forall|t: int| 0 <= t < i ==> (#[trigger] buffers@[t])@ == d[t],
        decreases k - i,
    {
        let b = padded_slice(data, pos, l);
        proof {
            if i * lg >= len {
                lemma_slice_past_end(data@, i * lg, lg);
            }
            assert(b@ == d[i as int]);
        }
        buffers.push(b);
        let next: usize = if l <= len - pos {
            pos + l
        } else {
            len
        };
        proof {
            assert((i + 1) * lg == i * lg + lg) by (nonlinear_arith);
        }
        pos = next;
        i = i + 1;
    }
    while i < n
        invariant
            k <= i <= n,
            n == k + parity,
            n <= 256,
            l == lg,
            lg >= 1,
            buffers@.len() == i,
            forall|t: int| 0 <= t < k ==> (#[trigger] buffers@[t])@ == d[t],
            forall|t: int| k <= t < i ==> (#[trigger] buffers@[t])@.len() == lg,
        decreases n - i,
    {
        buffers.push(vec![0u8; l]);
        i = i + 1;
    }
    assert(lg >= 1);
    assert forall|t: int| 0 <= t < buffers@.len() implies (#[trigger] buffers@[t])@.len()
        == buffers@[0]@.len() by {
        if t < k {
            assert(buffers@[t]@ == d[t]);
        }
        assert(buffers@[0]@ == d[0]);
    }
    let ghost before = buffers.deep_view();
    assert(before.take(k as int) =~= d) by {
        assert forall|t: int| 0 <= t < k implies #[trigger] before.take(k as int)[t] == d[t] by {
            assert(before[t] == buffers@[t]@);
        }
    }
    match rs_encode(&coder, &mut buffers) {
        Ok(()) => {},
        Err(e) => return Err(ErasureError::CodecEncode(e)),
    }
    assert forall|t: int| 0 <= t < buffers@.len() implies (#[trigger] buffers@[t])@ == encoded(
        data@,
        k as nat,
        parity as nat,
    )[t] && buffers@[t]@.len() == lg by {
        assert(buffers.deep_view()[t] == buffers@[t]@);
    }
    let shards = shards_from_buffers(buffers);
    Ok((shards, len))
}


/// The shards of a sequence of present slots.
pub open spec fn unwrapped(s: Seq<Option<Seq<u8>>>) -> Seq<Seq<u8>> {
    s.map_values(|o: Option<Seq<u8>>| o.unwrap())
}

proof fn lemma_flatten_len(d: Seq<Seq<u8>>, l: nat)
    requires
        all_len(d, l),
    ensures
        d.flatten().len() == d.len() * l,
    decreases d.len(),
{
    if d.len() > 0 {
        lemma_flatten_len(d.drop_first(), l);
        assert(d[0].len() == l);
        assert(d.len() * l == l + (d.len() - 1) * l) by (nonlinear_arith);
    }
}

proof fn lemma_flatten_index(d: Seq<Seq<u8>>, l: nat, i: int, j: int)
    requires
        all_len(d, l),
        0 <= i < d.len(),
        0 <= j < l,
    ensures
        i * l + j < d.flatten().len(),
        d.flatten()[i * l + j] == d[i][j],
    decreases d.len(),
{
    assert(d[0].len() == l);
    assert(d.flatten() == d.first() + d.drop_first().flatten());
    lemma_flatten_len(d, l);
    lemma_flatten_len(d.drop_first(), l);
    assert(all_len(d.drop_first(), l));
    if i > 0 {
        lemma_flatten_index(d.drop_first(), l, i - 1, j);
        assert((i - 1) * l + j + l == i * l + j) by (nonlinear_arith);
        assert(0 <= (i - 1) * l) by (nonlinear_arith)
            requires
                i >= 1,
        ;
        assert(d.drop_first()[i - 1] == d[i]);
    } else {
        assert(i * l == 0) by (nonlinear_arith)
            requires
                i == 0,
        ;
    }
    assert(i * l + j < d.len() * l) by (nonlinear_arith)
        requires
            0 <= i < d.len(),
            0 <= j < l,
    ;
}

/// Joining the data shards of `data` and cutting the padding gives `data`.
pub proof fn lemma_data_shards_flatten(data: Seq<u8>, k: nat)
    requires
        k > 0,
    ensures
        truncated(data_shards(data, k).flatten(), data.len()) == data,
{
    let len = data.len();
    let l = shard_len(len, k);
    let d = data_shards(data, k);
    assert(all_len(d, l));
    lemma_flatten_len(d, l);
    assert(len <= k * l) by {
        if len > 0 {
            let x = (len - 1) as int;
            vstd::arithmetic::div_mod::lemma_fundamental_div_mod(x, k as int);
            vstd::arithmetic::div_mod::lemma_mod_pos_bound(x, k as int);
            vstd::arithmetic::div_mod::lemma_div_pos_is_pos(x, k as int);
            assert(l == x / (k as int) + 1);
            assert(k * l == k * (x / (k as int)) + k) by (nonlinear_arith)
                requires
                    l == x / (k as int) + 1,
            ;
        }
    }
    let f = d.flatten();
    assert forall|idx: int| 0 <= idx < len implies #[trigger] f[idx] == data[idx] by {
        let i = idx / (l as int);
        let j = idx % (l as int);
        vstd::arithmetic::div_mod::lemma_fundamental_div_mod(idx, l as int);
        vstd::arithmetic::div_mod::lemma_mod_pos_bound(idx, l as int);
        vstd::arithmetic::div_mod::lemma_div_pos_is_pos(idx, l as int);
        assert(i * l + j == idx) by (nonlinear_arith)
            requires
                idx == l * i + j,
        ;
        assert(i < k) by (nonlinear_arith)
            requires
                i * l + j == idx,
                idx < len,
                len <= k * l,
                0 <= j,
                l > 0,
        ;
        lemma_flatten_index(d, l, i, j);
        assert(d[i] == data_slice(data, i * l, l));
    }
    assert(truncated(f, len) =~= data);
}

fn count_present(received: &Vec<Option<Shard>>) -> (c: usize)
    ensures
        c == present_count(slot_bytes(received@)),
{
    let ghost sb = slot_bytes(received@);
    let mut c: usize = 0;
    let mut i: usize = 0;
    while i < received.len()
        invariant
            i <= received@.len(),
            sb == slot_bytes(received@),
            c <= i,
            c == present_count(sb.take(i as int)),
        decreases received@.len() - i,
    {
        assert(sb.take(i as int + 1).drop_last() =~= sb.take(i as int));
        if received[i].is_some() {
            c = c + 1;
        }
        i = i + 1;
    }
    assert(sb.take(received@.len() as int) =~= sb);
    c
}

fn into_slots(received: Vec<Option<Shard>>) -> (slots: Vec<Option<Vec<u8>>>)
    ensures
        slots.deep_view() == slot_bytes(received@),
{
    let ghost sb = slot_bytes(received@);
    let total: usize = received.len();
    let ghost n = total as nat;
    let mut rest = received;
    let mut slots: Vec<Option<Vec<u8>>> = Vec::new();
    let mut i: usize = 0;
    while rest.len() > 0
        invariant
            i + rest@.len() == n,
            n <= usize::MAX,
            sb.len() == n,
            slot_bytes(rest@) == sb.skip(i as int),
            slots.deep_view() == sb.take(i as int),
        decreases rest@.len(),
    {
        let ghost old_rest = rest@;
        let o = rest.remove(0);
        let ghost before = slots.deep_view();
        proof {
            assert(rest@ =~= old_rest.skip(1));
            assert(slot_bytes(rest@) =~= slot_bytes(old_rest).skip(1));
            assert(sb.skip(i as int).skip(1) =~= sb.skip(i as int + 1));
            assert(slot_bytes(old_rest)[0] == sb[i as int]);
        }
        match o {
            Some(s) => {
                let ghost bv = s.bytes@;
                assert(s.bytes.deep_view() =~= bv);
                slots.push(Some(s.bytes));
                assert(slots.deep_view() =~= before.push(Some(bv)));
            },
            None => {
                slots.push(None);
                assert(slots.deep_view() =~= before.push(None));
            },
        }
        assert(slots.deep_view() =~= sb.take(i as int + 1));
        i = i + 1;
    }
    assert(sb.take(n as int) =~= sb);
    slots
}

fn append_bytes(out: &mut Vec<u8>, b: &Vec<u8>)
    ensures
        final(out)@ == old(out)@ + b@,
{
    let mut j: usize = 0;
    while j < b.len()
        invariant
            j <= b@.len(),
            out@ =~= old(out)@ + b@.take(j as int),
        decreases b@.len() - j,
    {
        out.push(b[j]);
        j = j + 1;
    }
    assert(b@.take(b@.len() as int) =~= b@);
}

/// Join the first `k` slots of a rebuilt shard set and cut the result to
/// `original_len` bytes.
pub fn join_data_shards(shards: &Vec<Option<Vec<u8>>>, k: usize, original_len: usize) -> (r: Result<
    Vec<u8>,
    ErasureError,
>)
    requires
        k <= shards@.len(),
    ensures
        r is Ok <==> forall|i: int| 0 <= i < k ==> (#[trigger] shards@[i]) is Some,
        r is Err ==> r matches Err(ErasureError::MissingDataShard),
        r matches Ok(v) ==> v@ == truncated(
            unwrapped(shards.deep_view().take(k as int)).flatten(),
            original_len as nat,
        ),
{
    let ghost dv = shards.deep_view();
    let mut out: Vec<u8> = Vec::new();
    let mut i: usize = 0;
    while i < k
        invariant
            i <= k,
            k <= shards@.len(),
            dv == shards.deep_view(),
            forall|t: int| 0 <= t < i ==> (#[trigger] shards@[t]) is Some,
            out@ == unwrapped(dv.take(i as int)).flatten(),
        decreases k - i,
    {
        match &shards[i] {
            Some(b) => {
                append_bytes(&mut out, b);
                proof {
                    assert(dv[i as int] == shards@[i as int].deep_view());
                    assert(dv[i as int] == Some(b@));
                    assert(unwrapped(dv.take(i as int + 1)) =~= unwrapped(dv.take(i as int)).push(
                        b@,
                    ));
                    unwrapped(dv.take(i as int)).lemma_flatten_push(b@);
                }
            },
            None => {
                return Err(ErasureError::MissingDataShard);
            },
        }
        i = i + 1;
    }
    out.truncate(original_len);
    Ok(out)
}

/// Decode the original bytes from any subset of shards.
///
/// `received` holds one slot per shard position (`k + parity` of them);
/// `None` marks a lost shard. At least `k` slots must hold a shard.
pub fn decode(received: Vec<Option<Shard>>, k: usize, parity: usize, original_len: usize) -> (r:
    Result<Vec<u8>, ErasureError>)
    requires
        k + parity <= usize::MAX,
    ensures
        received@.len() != k + parity <==> r == Err::<Vec<u8>, _>(
            ErasureError::WrongShardCount { expected: (k + parity) as usize, got: received@.len() as usize },
        ),
        received@.len() == k + parity && present_count(slot_bytes(received@)) < k <==> r == Err::<
            Vec<u8>,
            _,
        >(
            ErasureError::TooFewShards {
                need: k,
                got: present_count(slot_bytes(received@)) as usize,
            },
        ),
        (received@.len() == k + parity && present_count(slot_bytes(received@)) >= k
            && !valid_counts(k as nat, parity as nat)) <==> r matches Err(
            ErasureError::CodecSetup(_),
        ),
        (received@.len() == k + parity && present_count(slot_bytes(received@)) >= k
            && valid_counts(k as nat, parity as nat) && !reconstructible(
            k as nat,
            parity as nat,
            slot_bytes(received@),
        )) <==> r matches Err(ErasureError::CodecReconstruct(_)),
        r is Ok <==> (received@.len() == k + parity && valid_counts(k as nat, parity as nat)
            && reconstructible(k as nat, parity as nat, slot_bytes(received@))),
        r matches Ok(v) ==> v@ == truncated(
            rs_reconstructed(k as nat, parity as nat, slot_bytes(received@)).take(
                k as int,
            ).flatten(),
            original_len as nat,
        ),
        r is Ok ==> forall|i: int|
            0 <= i < received@.len() && (#[trigger] slot_bytes(received@)[i]) is Some
                ==> rs_reconstructed(k as nat, parity as nat, slot_bytes(received@))[i]
                == slot_bytes(received@)[i].unwrap(),
        (r is Ok && forall|i: int| 0 <= i < k ==> (#[trigger] slot_bytes(received@)[i]) is Some)
            ==> (r matches Ok(v) && v@ == truncated(
            unwrapped(slot_bytes(received@).take(k as int)).flatten(),
            original_len as nat,
        )),
        forall|data: Seq<u8>|
            #[trigger] holds_encoding_of(slot_bytes(received@), data, k as nat, parity as nat)
                && data.len() == original_len ==> (r matches Ok(v) && v@ == data),
{
    let n: usize = k + parity;
    let ghost sb = slot_bytes(received@);
    if received.len() != n {
        return Err(ErasureError::WrongShardCount { expected: n, got: received.len() });
    }
    let surviving: usize = count_present(&received);
    if surviving < k {
        return Err(ErasureError::TooFewShards { need: k, got: surviving });
    }
    let coder = match rs_new(k, parity) {
        Ok(c) => c,
        Err(e) => return Err(ErasureError::CodecSetup(e)),
    };
    let mut shards = into_slots(received);
    match rs_reconstruct(&coder, &mut shards) {
        Ok(()) => {},
        Err(e) => return Err(ErasureError::CodecReconstruct(e)),
    }
    let ghost rebuilt = rs_reconstructed(k as nat, parity as nat, sb);
    assert(shards.deep_view().take(k as int) =~= rebuilt.take(k as int).map_values(
        |b: Seq<u8>| Some(b),
    ));
    assert(unwrapped(shards.deep_view().take(k as int)) =~= rebuilt.take(k as int));
    assert forall|i: int| 0 <= i < k implies (#[trigger] shards@[i]) is Some by {
        assert(shards.deep_view()[i] == Some(rebuilt[i]));
    }
    proof {
        if forall|i: int| 0 <= i < k ==> (#[trigger] sb[i]) is Some {
            assert(rebuilt.take(k as int) =~= unwrapped(sb.take(k as int)));
        }
        assert forall|data: Seq<u8>|
            #[trigger] holds_encoding_of(sb, data, k as nat, parity as nat) && data.len()
                == original_len implies truncated(rebuilt.take(k as int).flatten(), original_len as nat)
            == data by {
            let d = data_shards(data, k as nat);
            let l = shard_len(data.len(), k as nat);
            assert(all_len(d, d[0].len()));
            assert(agrees_with(sb, d, parity as nat));
            assert(codeword(d, parity as nat) == rebuilt);
            assert(rebuilt.take(k as int) =~= d);
            lemma_data_shards_flatten(data, k as nat);
        }
    }
    join_data_shards(&shards, k, original_len)
}

/// Any `k` of the shards that `encode` returns rebuild the input: slots
/// holding, at each position, either nothing or the shard `encode` gave
/// there, with at least `k` present, are what `decode` turns back into
/// `data` (see its last `ensures` clause).
pub proof fn law_decode_undoes_encode(
    data: Seq<u8>,
    k: nat,
    p: nat,
    shards: Seq<Seq<u8>>,
    slots: Seq<Option<Seq<u8>>>,
)
    requires
        valid_counts(k, p),
        shards.len() == k + p,
        forall|i: int|
            0 <= i < shards.len() ==> #[trigger] shards[i] == encoded(data, k, p)[i] && shards[i].len()
                == shard_len(data.len(), k),
        slots.len() == k + p,
        forall|i: int| 0 <= i < slots.len() && (#[trigger] slots[i]) is Some ==> slots[i] == Some(shards[i]),
        present_count(slots) >= k,
    ensures
        holds_encoding_of(slots, data, k, p),
{
    assert forall|i: int|
        0 <= i < slots.len() && (#[trigger] slots[i]) is Some implies slots[i].unwrap() == encoded(
        data,
        k,
        p,
    )[i] && slots[i].unwrap().len() == shard_len(data.len(), k) by {
        assert(shards[i] == encoded(data, k, p)[i]);
    }
}

} // verus!
