//! The registry's persisted form and its proof of round-tripping.
//!
//! A registry is laid out as a little-endian `u32` candidate count followed
//! by one record per candidate: a `u32` byte length and the UTF-8 bytes of
//! the nickname, the 32 wallet-identifier bytes, and the tally as a
//! little-endian `u64`. `spec_serialize` states the layout, `parse_registry`
//! states what any byte string decodes to, and the round-trip lemmas prove
//! that decoding an encoding gives back the same candidate sequence and that
//! re-encoding anything decoded reproduces the bytes.

use vstd::bytes::{spec_u32_to_le_bytes, spec_u64_to_le_bytes};
use vstd::bytes::{spec_u32_from_le_bytes, spec_u64_from_le_bytes};
use vstd::bytes::{u32_from_le_bytes, u32_to_le_bytes, u64_from_le_bytes, u64_to_le_bytes};
use vstd::prelude::*;
use vstd::slice::{slice_subrange, slice_to_vec};
use vstd::utf8::{decode_utf8, encode_utf8, valid_utf8};

use crate::registry::{Candidate, CandidateModel, VoteAccount};

verus! {

broadcast use vstd::utf8::group_utf8_lib;

/// A candidate fits the layout: its nickname's UTF-8 form fits the `u32`
/// length prefix and its wallet identifier is exactly 32 bytes.
pub open spec fn encodable_candidate(c: CandidateModel) -> bool {
    &&& encode_utf8(c.nickname).len() <= u32::MAX
    &&& c.wallet_address.len() == 32
}

/// A candidate sequence fits the layout: the count fits the `u32` prefix and
/// every candidate is encodable.
pub open spec fn encodable(s: Seq<CandidateModel>) -> bool {
    &&& s.len() <= u32::MAX
    &&& forall|i: int| 0 <= i < s.len() ==> encodable_candidate(#[trigger] s[i])
}

/// The bytes of one candidate record.
pub open spec fn spec_serialize_candidate(c: CandidateModel) -> Seq<u8> {
    spec_u32_to_le_bytes(encode_utf8(c.nickname).len() as u32) + encode_utf8(c.nickname)
        + c.wallet_address + spec_u64_to_le_bytes(c.votes)
}

/// The concatenated records of a candidate sequence, in order.
pub open spec fn spec_serialize_candidates(s: Seq<CandidateModel>) -> Seq<u8>
    decreases s.len(),
{
    if s.len() == 0 {
        Seq::empty()
    } else {
        spec_serialize_candidate(s[0]) + spec_serialize_candidates(s.subrange(1, s.len() as int))
    }
}

/// The full persisted form: the candidate count, then the records.
pub open spec fn spec_serialize(s: Seq<CandidateModel>) -> Seq<u8> {
    spec_u32_to_le_bytes(s.len() as u32) + spec_serialize_candidates(s)
}

/// Decode one candidate record from the front of `b`; on success also return
/// the bytes that follow it.
pub open spec fn parse_candidate(b: Seq<u8>) -> Option<(CandidateModel, Seq<u8>)> {
    if b.len() < 4 {
        None
    } else {
        let nlen = spec_u32_from_le_bytes(b.take(4)) as int;
        let b1 = b.skip(4);
        if b1.len() < nlen {
            None
        } else {
            let chunk = b1.take(nlen);
            if !valid_utf8(chunk) {
                None
            } else {
                let b2 = b1.skip(nlen);
                if b2.len() < 32 {
                    None
                } else {
                    let b3 = b2.skip(32);
                    if b3.len() < 8 {
                        None
                    } else {
                        Some(
                            (
                                CandidateModel {
                                    nickname: decode_utf8(chunk),
                                    wallet_address: b2.take(32),
                                    votes: spec_u64_from_le_bytes(b3.take(8)),
                                },
                                b3.skip(8),
                            ),
                        )
                    }
                }
            }
        }
    }
}

/// Decode `n` candidate records from the front of `b`.
pub open spec fn parse_candidates(b: Seq<u8>, n: nat) -> Option<(Seq<CandidateModel>, Seq<u8>)>
    decreases n,
{
    if n == 0 {
        Some((Seq::empty(), b))
    } else {
        match parse_candidate(b) {
            None => None,
            Some((c, rest)) => match parse_candidates(rest, (n - 1) as nat) {
                None => None,
                Some((cs, rest2)) => Some((seq![c] + cs, rest2)),
            },
        }
    }
}

/// Decode a whole registry: the count, that many records, nothing left over.
pub open spec fn parse_registry(b: Seq<u8>) -> Option<Seq<CandidateModel>> {
    if b.len() < 4 {
        None
    } else {
        let n = spec_u32_from_le_bytes(b.take(4));
        match parse_candidates(b.skip(4), n as nat) {
            None => None,
            Some((cs, rest)) => if rest.len() == 0 {
                Some(cs)
            } else {
                None
            },
        }
    }
}

/// One serialized candidate record parses back to the candidate it came
/// from, leaving exactly the trailing bytes.
proof fn lemma_parse_serialized_candidate(c: CandidateModel, rest: Seq<u8>)
    requires
        encodable_candidate(c),
    ensures
        parse_candidate(spec_serialize_candidate(c) + rest) == Some((c, rest)),
{
    vstd::bytes::lemma_auto_spec_u32_to_from_le_bytes();
    vstd::bytes::lemma_auto_spec_u64_to_from_le_bytes();
    vstd::utf8::encode_utf8_valid_utf8(c.nickname);
    vstd::utf8::encode_utf8_decode_utf8(c.nickname);
    let e = encode_utf8(c.nickname);
    let nlen = e.len() as int;
    let lb = spec_u32_to_le_bytes(e.len() as u32);
    let vb = spec_u64_to_le_bytes(c.votes);
    let b = spec_serialize_candidate(c) + rest;
    assert(b.take(4) =~= lb);
    let b1 = b.skip(4);
    assert(b1 =~= e + c.wallet_address + vb + rest);
    assert(b1.take(nlen) =~= e);
    let b2 = b1.skip(nlen);
    assert(b2 =~= c.wallet_address + vb + rest);
    assert(b2.take(32) =~= c.wallet_address);
    let b3 = b2.skip(32);
    assert(b3 =~= vb + rest);
    assert(b3.take(8) =~= vb);
    assert(b3.skip(8) =~= rest);
    assert(parse_candidate(b) is Some);
    assert((parse_candidate(b)->0).0 == c);
    assert((parse_candidate(b)->0).1 == rest);
}

/// The concatenated records of a candidate sequence parse back to that
/// sequence, record count known, leaving exactly the trailing bytes.
proof fn lemma_parse_serialized_candidates(s: Seq<CandidateModel>, rest: Seq<u8>)
    requires
        forall|i: int| 0 <= i < s.len() ==> encodable_candidate(#[trigger] s[i]),
    ensures
        parse_candidates(spec_serialize_candidates(s) + rest, s.len()) == Some((s, rest)),
    decreases s.len(),
{
    if s.len() == 0 {
        assert(spec_serialize_candidates(s) + rest =~= rest);
        assert(parse_candidates(rest, 0) == Some((Seq::<CandidateModel>::empty(), rest)));
        assert(s =~= Seq::<CandidateModel>::empty());
    } else {
        let tail = s.subrange(1, s.len() as int);
        let b = spec_serialize_candidates(s) + rest;
        assert(b =~= spec_serialize_candidate(s[0]) + (spec_serialize_candidates(tail) + rest));
        lemma_parse_serialized_candidate(s[0], spec_serialize_candidates(tail) + rest);
        lemma_parse_serialized_candidates(tail, rest);
        assert(seq![s[0]] + tail =~= s);
    }
}

/// Round trip: decoding the persisted form of any encodable candidate
/// sequence gives back an identical sequence, same order and same fields.
pub proof fn lemma_serialize_round_trip(s: Seq<CandidateModel>)
    requires
        encodable(s),
    ensures
        parse_registry(spec_serialize(s)) == Some(s),
{
    vstd::bytes::lemma_auto_spec_u32_to_from_le_bytes();
    let b = spec_serialize(s);
    assert(b.take(4) =~= spec_u32_to_le_bytes(s.len() as u32));
    assert(b.skip(4) =~= spec_serialize_candidates(s) + Seq::<u8>::empty());
    lemma_parse_serialized_candidates(s, Seq::<u8>::empty());
}

/// A byte string one candidate record was decoded from is that record
/// re-encoded, followed by the leftover bytes.
proof fn lemma_parse_candidate_sound(b: Seq<u8>)
    requires
        parse_candidate(b) is Some,
    ensures
        ({
            let (c, rest) = parse_candidate(b)->0;
            &&& encodable_candidate(c)
            &&& spec_serialize_candidate(c) + rest == b
        }),
{
    vstd::bytes::lemma_auto_spec_u32_to_from_le_bytes();
    vstd::bytes::lemma_auto_spec_u64_to_from_le_bytes();
    let nlen = spec_u32_from_le_bytes(b.take(4)) as int;
    let b1 = b.skip(4);
    let chunk = b1.take(nlen);
    vstd::utf8::decode_utf8_encode_utf8(chunk);
    let b2 = b1.skip(nlen);
    let b3 = b2.skip(32);
    let (c, rest) = parse_candidate(b)->0;
    assert(encode_utf8(c.nickname) == chunk);
    assert(spec_u32_to_le_bytes(spec_u32_from_le_bytes(b.take(4))) == b.take(4));
    assert(spec_u64_to_le_bytes(spec_u64_from_le_bytes(b3.take(8))) == b3.take(8));
    assert(spec_serialize_candidate(c) + rest =~= b);
}

/// A byte string `n` records were decoded from is those records re-encoded,
/// followed by the leftover bytes; and each record fits the layout.
proof fn lemma_parse_candidates_sound(b: Seq<u8>, n: nat)
    requires
        parse_candidates(b, n) is Some,
    ensures
        ({
            let (cs, rest) = parse_candidates(b, n)->0;
            &&& cs.len() == n
            &&& forall|i: int| 0 <= i < cs.len() ==> encodable_candidate(#[trigger] cs[i])
            &&& spec_serialize_candidates(cs) + rest == b
        }),
    decreases n,
{
    if n == 0 {
        let (cs, rest) = parse_candidates(b, n)->0;
        assert(spec_serialize_candidates(cs) + rest =~= b);
    } else {
        lemma_parse_candidate_sound(b);
        let (c, r1) = parse_candidate(b)->0;
        lemma_parse_candidates_sound(r1, (n - 1) as nat);
        let (cs1, rest) = parse_candidates(r1, (n - 1) as nat)->0;
        let cs = seq![c] + cs1;
        assert(cs[0] == c);
        assert(cs.subrange(1, cs.len() as int) =~= cs1);
        assert(spec_serialize_candidates(cs) == spec_serialize_candidate(c)
            + spec_serialize_candidates(cs1));
        assert(spec_serialize_candidates(cs) + rest =~= spec_serialize_candidate(c) + (
        spec_serialize_candidates(cs1) + rest));
        assert(spec_serialize_candidate(c) + r1 =~= b);
    }
}

/// The layout is canonical: a byte string that decodes to a registry is
/// exactly that registry's own persisted form, so re-encoding what was
/// decoded reproduces the bytes.
pub proof fn lemma_parse_round_trip(b: Seq<u8>)
    requires
        parse_registry(b) is Some,
    ensures
        encodable(parse_registry(b)->0),
        spec_serialize(parse_registry(b)->0) == b,
{
    vstd::bytes::lemma_auto_spec_u32_to_from_le_bytes();
    let n = spec_u32_from_le_bytes(b.take(4));
    lemma_parse_candidates_sound(b.skip(4), n as nat);
    let s = parse_registry(b)->0;
    assert(spec_u32_to_le_bytes(spec_u32_from_le_bytes(b.take(4))) == b.take(4));
    assert(spec_serialize_candidates(s) + Seq::<u8>::empty() =~= spec_serialize_candidates(s));
    assert(spec_serialize(s) =~= b);
}

/// Serializing one more candidate extends the record bytes at the end.
proof fn lemma_serialize_candidates_snoc(s: Seq<CandidateModel>, c: CandidateModel)
    ensures
        spec_serialize_candidates(s.push(c)) == spec_serialize_candidates(s)
            + spec_serialize_candidate(c),
    decreases s.len(),
{
    let sp = s.push(c);
    if s.len() == 0 {
        assert(sp[0] == c);
        assert(sp.subrange(1, sp.len() as int) =~= Seq::<CandidateModel>::empty());
        assert(spec_serialize_candidates(Seq::<CandidateModel>::empty())
            == Seq::<u8>::empty());
        assert(spec_serialize_candidates(sp) == spec_serialize_candidate(c)
            + Seq::<u8>::empty());
        assert(spec_serialize_candidates(sp) =~= spec_serialize_candidates(s)
            + spec_serialize_candidate(c));
    } else {
        let tail = s.subrange(1, s.len() as int);
        assert(sp.subrange(1, sp.len() as int) =~= tail.push(c));
        lemma_serialize_candidates_snoc(tail, c);
        assert(sp[0] == s[0]);
        assert(spec_serialize_candidates(sp) == spec_serialize_candidate(s[0]) + (
        spec_serialize_candidates(tail) + spec_serialize_candidate(c)));
        assert(spec_serialize_candidates(s) == spec_serialize_candidate(s[0])
            + spec_serialize_candidates(tail));
        assert(spec_serialize_candidate(s[0]) + (spec_serialize_candidates(tail)
            + spec_serialize_candidate(c)) =~= (spec_serialize_candidate(s[0])
            + spec_serialize_candidates(tail)) + spec_serialize_candidate(c));
    }
}

/// Encode a registry in its persisted form. Returns nothing exactly when the
/// value does not fit the layout's `u32` length prefixes, which no registry
/// a caller can build within this crate's operations will reach in practice.
pub fn serialize(acc: &VoteAccount) -> (r: Option<Vec<u8>>)
    ensures
        match r {
            Some(v) => encodable(acc@) && v@ == spec_serialize(acc@),
            None => !encodable(acc@),
        },
{
    let n = acc.candidates.len();
    if n > (u32::MAX as usize) {
        return None;
    }
    let mut out: Vec<u8> = u32_to_le_bytes(n as u32);
    let mut i: usize = 0;
    while i < n
        invariant
            i <= n,
            n == acc.candidates@.len(),
            n <= u32::MAX,
            forall|j: int| 0 <= j < i ==> encodable_candidate(#[trigger] acc@[j]),
            out@ == spec_u32_to_le_bytes(n as u32) + spec_serialize_candidates(
                acc@.take(i as int),
            ),
        decreases n - i,
    {
        let c = &acc.candidates[i];
        let nb: &[u8] = c.nickname.as_str().as_bytes();
        if nb.len() > (u32::MAX as usize) {
            proof {
                assert(!encodable_candidate(acc@[i as int]));
            }
            return None;
        }
        let mut lb = u32_to_le_bytes(nb.len() as u32);
        out.append(&mut lb);
        out.extend_from_slice(nb);
        out.extend_from_slice(c.wallet_address.as_slice());
        let mut vb = u64_to_le_bytes(c.votes);
        out.append(&mut vb);
        proof {
            lemma_serialize_candidates_snoc(acc@.take(i as int), acc@[i as int]);
            assert(acc@.take(i as int + 1) =~= acc@.take(i as int).push(acc@[i as int]));
            assert(out@ =~= spec_u32_to_le_bytes(n as u32) + spec_serialize_candidates(
                acc@.take(i as int + 1),
            ));
        }
        i += 1;
    }
    proof {
        assert(acc@.take(n as int) =~= acc@);
    }
    Some(out)
}

/// Decode a registry from its persisted form. Returns a registry exactly
/// when the bytes are a complete, well-formed encoding with nothing left
/// over, and then the registry the bytes decode to.
pub fn deserialize(bytes: &[u8]) -> (r: Option<VoteAccount>)
    ensures
        match r {
            Some(acc) => parse_registry(bytes@) == Some(acc@),
            None => parse_registry(bytes@) is None,
        },
{
    if bytes.len() < 4 {
        return None;
    }
    let count = u32_from_le_bytes(slice_subrange(bytes, 0, 4));
    proof {
        assert(bytes@.subrange(0, 4) =~= bytes@.take(4));
    }
    let mut cands: Vec<Candidate> = Vec::new();
    let mut pos: usize = 4;
    let mut i: u32 = 0;
    while i < count
        invariant
            4 <= pos <= bytes@.len(),
            bytes@.len() <= usize::MAX,
            i <= count,
            cands@.len() == i,
            bytes@.len() >= 4,
            count == spec_u32_from_le_bytes(bytes@.take(4)),
            ({
                let full = parse_candidates(bytes@.skip(4), count as nat);
                match parse_candidates(bytes@.skip(pos as int), (count - i) as nat) {
                    None => full is None,
                    Some((cs, rest)) => full == Some(
                        (cands@.map_values(|c: Candidate| c@) + cs, rest),
                    ),
                }
            }),
        decreases count - i,
    {
        let ghost cur = bytes@.skip(pos as int);
        let rem = bytes.len() - pos;
        if rem < 4 {
            proof {
                assert(parse_candidate(cur) is None);
            }
            return None;
        }
        let nlen32 = u32_from_le_bytes(slice_subrange(bytes, pos, pos + 4));
        proof {
            assert(bytes@.subrange(pos as int, pos as int + 4) =~= cur.take(4));
        }
        let nlen = nlen32 as usize;
        if rem - 4 < nlen {
            proof {
                assert(cur.skip(4).len() < nlen as int);
                assert(parse_candidate(cur) is None);
            }
            return None;
        }
        let ghost b1 = cur.skip(4);
        let chunk = slice_to_vec(slice_subrange(bytes, pos + 4, pos + 4 + nlen));
        proof {
            assert(chunk@ =~= b1.take(nlen as int));
        }
        let ghost chunk_spec = chunk@;
        let nickname = match string_from_utf8(chunk) {
            Some(s) => s,
            None => {
                proof {
                    assert(parse_candidate(cur) is None);
                }
                return None;
            },
        };
        proof {
            vstd::utf8::encode_utf8_decode_utf8(nickname@);
            assert(decode_utf8(chunk_spec) == nickname@);
        }
        if rem - 4 - nlen < 32 {
            proof {
                assert(cur.skip(4).skip(nlen as int).len() < 32);
                assert(parse_candidate(cur) is None);
            }
            return None;
        }
        let ghost b2 = b1.skip(nlen as int);
        let mut wallet: [u8; 32] = [0u8; 32];
        let mut k: usize = 0;
        while k < 32
            invariant
                k <= 32,
                pos + 4 + nlen + 32 <= bytes@.len(),
                bytes@.len() <= usize::MAX,
                forall|j: int|
                    0 <= j < k ==> wallet@[j] == bytes@[pos as int + 4 + nlen as int + j],
            decreases 32 - k,
        {
            wallet[k] = bytes[pos + 4 + nlen + k];
            k += 1;
        }
        proof {
            assert(wallet@ =~= b2.take(32));
        }
        if rem - 4 - nlen - 32 < 8 {
            proof {
                assert(b2.skip(32).len() < 8);
                assert(parse_candidate(cur) is None);
            }
            return None;
        }
        let ghost b3 = b2.skip(32);
        let votes = u64_from_le_bytes(
            slice_subrange(bytes, pos + 4 + nlen + 32, pos + 4 + nlen + 40),
        );
        proof {
            assert(bytes@.subrange(
                pos as int + 4 + nlen as int + 32,
                pos as int + 4 + nlen as int + 40,
            ) =~= b3.take(8));
        }
        let c = Candidate { nickname, wallet_address: wallet, votes };
        let ghost old_models = cands@.map_values(|x: Candidate| x@);
        cands.push(c);
        pos = pos + 4 + nlen + 40;
        i = i + 1;
        proof {
            assert(b3.skip(8) =~= bytes@.skip(pos as int));
            assert(parse_candidate(cur) == Some((c@, bytes@.skip(pos as int))));
            assert(cands@.map_values(|x: Candidate| x@) =~= old_models.push(c@));
            let full = parse_candidates(bytes@.skip(4), count as nat);
            match parse_candidates(bytes@.skip(pos as int), (count - i) as nat) {
                None => {
                    assert(full is None);
                },
                Some((cs, rest)) => {
                    assert(parse_candidates(cur, (count - (i - 1)) as nat) == Some(
                        (seq![c@] + cs, rest),
                    ));
                    assert(old_models + (seq![c@] + cs) =~= old_models.push(c@) + cs);
                },
            }
        }
    }
    if pos != bytes.len() {
        proof {
            assert(bytes@.skip(pos as int).len() > 0);
        }
        return None;
    }
    let acc = VoteAccount { candidates: cands };
    proof {
        assert(bytes@.skip(pos as int).len() == 0);
        assert(parse_candidates(bytes@.skip(4), count as nat) == Some(
            (acc@ + Seq::<CandidateModel>::empty(), bytes@.skip(pos as int)),
        ));
        assert(acc@ + Seq::<CandidateModel>::empty() =~= acc@);
        assert(parse_registry(bytes@) == Some(acc@));
    }
    Some(acc)
}

/// Relies on `String::from_utf8`: it succeeds exactly when the input is
/// valid UTF-8, and the returned string then holds exactly the given bytes.
#[verifier::external_body]
fn string_from_utf8(bytes: Vec<u8>) -> (r: Option<String>)
    ensures
        match r {
            Some(s) => valid_utf8(bytes@) && encode_utf8(s@) == bytes@,
            None => !valid_utf8(bytes@),
        },
{
    String::from_utf8(bytes).ok()
}

/// Two encodable candidate sequences with the same persisted form are the
/// same sequence: the layout is injective.
pub proof fn lemma_serialize_injective(s1: Seq<CandidateModel>, s2: Seq<CandidateModel>)
    requires
        encodable(s1),
        encodable(s2),
        spec_serialize(s1) == spec_serialize(s2),
    ensures
        s1 == s2,
{
    lemma_serialize_round_trip(s1);
    lemma_serialize_round_trip(s2);
}

} // verus!
