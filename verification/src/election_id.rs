//! Roots of the elections that close an epoch.
use vstd::prelude::*;
use vstd::string::*;

use crate::bytes::{
    be_bytes, lemma_be_bytes_injective, lemma_be_bytes_len, lemma_byte_spans, push_be, push_text, text_bytes,
};
use crate::digest::{blake2b_256, digest_hash};
use crate::types::{BlockHash, QualifiedRoot, RaiEpoch, Root};

verus! {

/// What is hashed to name an election: the purpose, the epoch and the round.
pub open spec fn election_preimage(domain: &str, epoch: RaiEpoch, round: u32) -> Seq<u8> {
    text_bytes(domain) + be_bytes(epoch.number as nat, 8) + be_bytes(round as nat, 4)
}

/// The root that names an election. Its zero `previous` half stands for no block.
pub open spec fn election_root(domain: &str, epoch: RaiEpoch, round: u32) -> QualifiedRoot {
    QualifiedRoot {
        root: Root::of_bytes(blake2b_256(election_preimage(domain, epoch, round))),
        previous: BlockHash { hi: 0, lo: 0 },
    }
}

/// The root of the election on an epoch's cut.
pub fn rai_close_cut_root(epoch: RaiEpoch, round: u32) -> (r: QualifiedRoot)
    ensures
        r == election_root("RAI/CloseCutId", epoch, round),
{
    synthetic_root("RAI/CloseCutId", epoch, round)
}

/// The root of the election on an epoch's close record.
pub fn rai_close_record_root(epoch: RaiEpoch, round: u32) -> (r: QualifiedRoot)
    ensures
        r == election_root("RAI/CloseRecordId", epoch, round),
{
    synthetic_root("RAI/CloseRecordId", epoch, round)
}

fn synthetic_root(domain: &str, epoch: RaiEpoch, round: u32) -> (r: QualifiedRoot)
    ensures
        r == election_root(domain, epoch, round),
{
    let mut preimage: Vec<u8> = Vec::new();
    push_text(&mut preimage, domain);
    push_be(&mut preimage, epoch.number() as u128, 8);
    push_be(&mut preimage, round as u128, 4);
    proof {
        assert(preimage@ =~= election_preimage(domain, epoch, round));
    }
    let hash = digest_hash(&preimage);
    QualifiedRoot { root: Root { hi: hash.hi, lo: hash.lo }, previous: BlockHash::zero() }
}

/// Epoch and round are part of an election's identity: with the same purpose,
/// what is hashed differs unless both are the same.
pub proof fn preimage_identifies_election(domain: &str, e: RaiEpoch, r: u32, f: RaiEpoch, s: u32)
    requires
        election_preimage(domain, e, r) == election_preimage(domain, f, s),
    ensures
        e == f,
        r == s,
{
    let a = election_preimage(domain, e, r);
    let b = election_preimage(domain, f, s);
    let n = text_bytes(domain).len() as int;
    lemma_byte_spans();
    lemma_be_bytes_len(e.number as nat, 8);
    lemma_be_bytes_len(f.number as nat, 8);
    lemma_be_bytes_len(r as nat, 4);
    lemma_be_bytes_len(s as nat, 4);
    assert(a.subrange(n, n + 8) =~= be_bytes(e.number as nat, 8));
    assert(b.subrange(n, n + 8) =~= be_bytes(f.number as nat, 8));
    assert(a.subrange(n + 8, n + 12) =~= be_bytes(r as nat, 4));
    assert(b.subrange(n + 8, n + 12) =~= be_bytes(s as nat, 4));
    lemma_be_bytes_injective(e.number as nat, f.number as nat, 8);
    lemma_be_bytes_injective(r as nat, s as nat, 4);
}

/// What is hashed for a cut election is never what is hashed for a record election.
pub proof fn close_elections_are_domain_separated(e: RaiEpoch, r: u32, f: RaiEpoch, s: u32)
    ensures
        election_preimage("RAI/CloseCutId", e, r) != election_preimage("RAI/CloseRecordId", f, s),
{
    broadcast use vstd::string::is_ascii_spec_bytes;

    reveal_strlit("RAI/CloseCutId");
    reveal_strlit("RAI/CloseRecordId");
    assert("RAI/CloseCutId".is_ascii());
    assert("RAI/CloseRecordId".is_ascii());
    lemma_be_bytes_len(e.number as nat, 8);
    lemma_be_bytes_len(f.number as nat, 8);
    lemma_be_bytes_len(r as nat, 4);
    lemma_be_bytes_len(s as nat, 4);
    assert(election_preimage("RAI/CloseCutId", e, r).len() == 26);
    assert(election_preimage("RAI/CloseRecordId", f, s).len() == 29);
}

/// What the root of a close election is the digest of: the tag, eight bytes with the epoch,
/// and four with the round; it follows no block.
pub proof fn election_preimage_layout(domain: &str, epoch: RaiEpoch, round: u32)
    ensures
        ({
            let m = election_preimage(domain, epoch, round);
            let t = text_bytes(domain);
            let n = t.len() as int;
            &&& m.len() == n + 12
            &&& m.subrange(0, n) == t
            &&& m.subrange(n, n + 8) == be_bytes(epoch.number as nat, 8)
            &&& m.subrange(n + 8, n + 12) == be_bytes(round as nat, 4)
            &&& election_root(domain, epoch, round).root == Root::of_bytes(blake2b_256(m))
            &&& election_root(domain, epoch, round).previous == (BlockHash { hi: 0, lo: 0 })
        }),
{
    let m = election_preimage(domain, epoch, round);
    let t = text_bytes(domain);
    let n = t.len() as int;
    lemma_be_bytes_len(epoch.number as nat, 8);
    lemma_be_bytes_len(round as nat, 4);
    assert(m.subrange(0, n) =~= t);
    assert(m.subrange(n, n + 8) =~= be_bytes(epoch.number as nat, 8));
    assert(m.subrange(n + 8, n + 12) =~= be_bytes(round as nat, 4));
}

}
