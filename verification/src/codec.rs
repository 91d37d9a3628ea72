//! The Reed-Solomon codec of the `reed-solomon-erasure` crate (GF(2^8)),
//! seen through the few calls that erasure coding makes.

use vstd::prelude::*;

verus! {

/// The codec's error type, carried opaquely.
#[verifier::external_type_specification]
#[verifier::external_body]
pub struct ExRsError(reed_solomon_erasure::Error);

/// The parity shards that the codec computes for the given data shards.
pub uninterp spec fn rs_parity(data: Seq<Seq<u8>>, parity_count: nat) -> Seq<Seq<u8>>;

/// The full shard set that the codec rebuilds from a partial one.
pub uninterp spec fn rs_reconstructed(
    data_count: nat,
    parity_count: nat,
    shards: Seq<Option<Seq<u8>>>,
) -> Seq<Seq<u8>>;

/// The codeword of a block of data shards: the data shards followed by
/// their parity shards.
pub open spec fn codeword(data: Seq<Seq<u8>>, parity_count: nat) -> Seq<Seq<u8>> {
    data + rs_parity(data, parity_count)
}

/// Every shard of `d` has length `l`.
pub open spec fn all_len(d: Seq<Seq<u8>>, l: nat) -> bool {
    forall|i: int| 0 <= i < d.len() ==> (#[trigger] d[i]).len() == l
}

/// How many slots of `s` hold a shard.
pub open spec fn present_count<T>(s: Seq<Option<T>>) -> nat
    decreases s.len(),
{
    if s.len() == 0 {
        0
    } else {
        present_count(s.drop_last()) + if s.last() is Some {
            1nat
        } else {
            0nat
        }
    }
}

/// The count of present slots is the number of `Some` entries of `s`.
pub proof fn law_present_count<T>(s: Seq<Option<T>>)
    ensures
        present_count(s) == s.filter(|o: Option<T>| o is Some).len(),
    decreases s.len(),
{
    reveal(Seq::filter);
    if s.len() > 0 {
        law_present_count(s.drop_last());
    }
}

/// The present shards of `s` are non-empty and of one length.
pub open spec fn uniform_present(s: Seq<Option<Seq<u8>>>) -> bool {
    forall|i: int, j: int|
        0 <= i < s.len() && 0 <= j < s.len() && s[i] is Some && s[j] is Some ==> (
        #[trigger] s[i]).unwrap().len() == (#[trigger] s[j]).unwrap().len() && s[i].unwrap().len()
            > 0
}

/// The codec can rebuild `s`: one slot per shard, at least `data_count`
/// of them present, all present shards non-empty and of one length.
pub open spec fn reconstructible(data_count: nat, parity_count: nat, s: Seq<Option<Seq<u8>>>) -> bool {
    &&& s.len() == data_count + parity_count
    &&& uniform_present(s)
    &&& present_count(s) >= data_count
}

/// Every present shard of `s` is the matching shard of the codeword of `d`,
/// where `d` is a block of equally long data shards.
pub open spec fn agrees_with(s: Seq<Option<Seq<u8>>>, d: Seq<Seq<u8>>, parity_count: nat) -> bool {
    &&& d.len() > 0
    &&& all_len(d, d[0].len())
    &&& s.len() == d.len() + parity_count
    &&& forall|i: int|
        0 <= i < s.len() && (#[trigger] s[i]) is Some ==> s[i].unwrap() == codeword(
            d,
            parity_count,
        )[i]
}

/// A `galois_8::ReedSolomon` codec, held opaquely: the generic
/// `ReedSolomon<F>` is bound by the crate's own `Field` trait, so the
/// concrete codec is wrapped here rather than declared.
#[verifier::external_body]
pub(crate) struct RsCodec {
    rs: reed_solomon_erasure::galois_8::ReedSolomon,
}

/// A Reed-Solomon codec over GF(2^8) together with the shard counts it was
/// built for.
pub(crate) struct Coder {
    codec: RsCodec,
    data_shards: usize,
    parity_shards: usize,
}

impl Coder {
    pub closed spec fn data_count(&self) -> nat {
        self.data_shards as nat
    }

    pub closed spec fn parity_count(&self) -> nat {
        self.parity_shards as nat
    }
}

/// Calls `ReedSolomon::new(data, parity)` of `galois_8`. Its source returns
/// an error exactly when `data == 0`, `parity == 0` or `data + parity > 256`
/// (the order of the field).
#[verifier::external_body]
pub(crate) fn rs_new(data: usize, parity: usize) -> (r: Result<Coder, reed_solomon_erasure::Error>)
    requires
        data + parity <= usize::MAX,
    ensures
        r is Ok <==> (data > 0 && parity > 0 && data + parity <= 256),
        r matches Ok(c) ==> c.data_count() == data && c.parity_count() == parity,
{
    match reed_solomon_erasure::galois_8::ReedSolomon::new(data, parity) {
        Ok(rs) => Ok(Coder { codec: RsCodec { rs }, data_shards: data, parity_shards: parity }),
        Err(e) => Err(e),
    }
}

/// Calls `ReedSolomon::encode` on a full shard vector. Its source checks the
/// shard count, that the first shard is non-empty and that all shards share
/// its length, and fails before touching anything otherwise; on success the
/// data shards are untouched and the parity slots are overwritten with the
/// parity of the data shards, each as long as a data shard.
#[verifier::external_body]
pub(crate) fn rs_encode(c: &Coder, shards: &mut Vec<Vec<u8>>) -> (r: Result<(), reed_solomon_erasure::Error>)
    ensures
        r is Ok <==> (old(shards)@.len() == c.data_count() + c.parity_count() && old(
            shards,
        )@.len() > 0 && old(shards)@[0]@.len() > 0 && forall|i: int|
            0 <= i < old(shards)@.len() ==> (#[trigger] old(shards)@[i])@.len() == old(
                shards,
            )@[0]@.len()),
        r is Ok ==> final(shards).deep_view() == old(shards).deep_view().take(
            c.data_count() as int,
        ) + rs_parity(old(shards).deep_view().take(c.data_count() as int), c.parity_count()),
        r is Ok ==> final(shards)@.len() == old(shards)@.len(),
        r is Ok ==> all_len(final(shards).deep_view(), old(shards)@[0]@.len()),
        r is Err ==> final(shards)@ == old(shards)@,
{
    c.codec.rs.encode(shards)
}

/// Calls `ReedSolomon::reconstruct` on slots of which `None` marks a lost
/// shard. Its source fails, touching nothing, unless the codec can rebuild
/// the set (see `reconstructible`); on success every slot holds a shard of
/// the common length, present shards unchanged. The rebuilt set is named
/// `rs_reconstructed`; of it this states, besides the above, the defining
/// property of an MDS code: where the present shards are those of a
/// codeword, the rebuilt set is that codeword. What it holds for shards
/// that are not part of any codeword is left unsaid.
#[verifier::external_body]
pub(crate) fn rs_reconstruct(c: &Coder, shards: &mut Vec<Option<Vec<u8>>>) -> (r: Result<
    (),
    reed_solomon_erasure::Error,
>)
    ensures
        r is Ok <==> reconstructible(c.data_count(), c.parity_count(), old(shards).deep_view()),
        r is Ok ==> final(shards).deep_view() == rs_reconstructed(
            c.data_count(),
            c.parity_count(),
            old(shards).deep_view(),
        ).map_values(|b: Seq<u8>| Some(b)),
        r is Ok ==> rs_reconstructed(
            c.data_count(),
            c.parity_count(),
            old(shards).deep_view(),
        ).len() == old(shards)@.len(),
        r is Ok ==> forall|i: int|
            0 <= i < old(shards)@.len() && (#[trigger] old(shards).deep_view()[i]) is Some
                ==> rs_reconstructed(c.data_count(), c.parity_count(), old(shards).deep_view())[i]
                == old(shards).deep_view()[i].unwrap(),
        r is Ok ==> forall|d: Seq<Seq<u8>>|
            agrees_with(old(shards).deep_view(), d, c.parity_count()) && d.len()
                == c.data_count() ==> #[trigger] codeword(d, c.parity_count()) == rs_reconstructed(
                c.data_count(),
                c.parity_count(),
                old(shards).deep_view(),
            ),
        r is Err ==> final(shards).deep_view() == old(shards).deep_view(),
{
    c.codec.rs.reconstruct(shards)
}

} // verus!
