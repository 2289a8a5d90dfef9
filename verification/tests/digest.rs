use rai_consensus::digest::digest_hash;
use rai_consensus::types::BlockHash;

#[test]
fn digests_are_blake2b_of_32_bytes() {
    assert_eq!(
        digest_hash(&vec![]),
        BlockHash {
            hi: 0x0e5751c026e543b2e8ab2eb06099daa1,
            lo: 0xd1e5df47778f7787faab45cdf12fe3a8
        }
    );
    assert_eq!(
        digest_hash(&b"abc".to_vec()),
        BlockHash {
            hi: 0xbddd813c634239723171ef3fee98579b,
            lo: 0x94964e3bb1cb3e427262c8c068d52319
        }
    );
}
