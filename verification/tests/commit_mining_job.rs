use translator_sv2::codec::{ShortTxId, ShortTxIdList, B0255, B064K, U256};
use translator_sv2::commit_mining_job::{CommitMiningJob, CommitMiningJobSuccess};
use translator_sv2::error::Error;

fn job(token: Vec<u8>, prefix: Vec<u8>, outputs: Vec<u8>, ids: usize, excess: Vec<u8>) -> CommitMiningJob {
    let list: Vec<ShortTxId> = (0..ids)
        .map(|i| ShortTxId { bytes: [i as u8, 1, 2, 3, 4, 5] })
        .collect();
    CommitMiningJob {
        request_id: 0x0102_0304,
        mining_job_token: B0255::new(token).unwrap(),
        version: 0x2000_0000,
        coninbase_tx_version: 2,
        coninbase_prefix: B0255::new(prefix).unwrap(),
        coninbase_tx_input_nsequence: 0xffff_ffff,
        coninbase_tx_value_remaining: 625_000_000,
        coinbase_tx_outputs: B064K::new(outputs).unwrap(),
        coinbase_tx_locktime: 0,
        min_extranonce_size: 8,
        tx_short_hash_nonce: 0x1122_3344_5566_7788,
        tx_short_hash_list: ShortTxIdList::new(list).unwrap(),
        tx_hash_list_hash: U256 { bytes: [0xab; 32] },
        excess_data: B064K::new(excess).unwrap(),
    }
}

#[test]
fn field_types_refuse_what_does_not_fit() {
    assert_eq!(B0255::new(vec![0u8; 256]), Err(Error::InvalidB0255Size(256)));
    assert_eq!(B0255::new(vec![7u8; 255]).unwrap().inner_as_ref(), &[7u8; 255][..]);
    assert_eq!(B064K::new(vec![0u8; 65536]), Err(Error::InvalidB064KSize(65536)));
    assert_eq!(B064K::new(vec![1u8; 65535]).unwrap().inner_as_ref().len(), 65535);
    let ids = vec![ShortTxId { bytes: [0; 6] }; 65536];
    assert_eq!(ShortTxIdList::new(ids), Err(Error::InvalidSeq064KSize(65536)));
    assert_eq!(U256::from_slice(&[1u8; 31]), Err(Error::InvalidU256(31)));
    assert_eq!(U256::from_slice(&[1u8; 33]), Err(Error::InvalidU256(33)));
    assert_eq!(U256::from_slice(&[1u8; 32]), Ok(U256 { bytes: [1u8; 32] }));
}

#[test]
fn empty_job_size_is_the_sum_of_fixed_parts() {
    let m = job(vec![], vec![], vec![], 0, vec![]);
    // 4+1+4+4+1+4+8+2+4+2+8+2+32+2
    assert_eq!(m.get_size(), 78);
    assert_eq!(m.to_bytes().len(), 78);
}

#[test]
fn job_size_counts_every_variable_field() {
    let m = job(vec![1, 2, 3], vec![4; 10], vec![5; 300], 4, vec![6; 2]);
    assert_eq!(m.get_size(), 78 + 3 + 10 + 300 + 4 * 6 + 2);
    assert_eq!(m.to_bytes().len(), m.get_size());
}

#[test]
fn job_layout_is_little_endian_and_length_prefixed() {
    let m = job(vec![0xaa], vec![], vec![0xcc, 0xdd], 1, vec![]);
    let b = m.to_bytes();
    assert_eq!(&b[0..4], &[4, 3, 2, 1]);
    assert_eq!(&b[4..6], &[1, 0xaa]);
    assert_eq!(&b[6..10], &[0, 0, 0, 0x20]);
    assert_eq!(&b[10..14], &[2, 0, 0, 0]);
    assert_eq!(b[14], 0);
    assert_eq!(&b[15..19], &[0xff; 4]);
    assert_eq!(&b[19..27], &625_000_000u64.to_le_bytes());
    assert_eq!(&b[27..31], &[2, 0, 0xcc, 0xdd]);
    assert_eq!(&b[31..35], &[0; 4]);
    assert_eq!(&b[35..37], &[8, 0]);
    assert_eq!(&b[37..45], &0x1122_3344_5566_7788u64.to_le_bytes());
    assert_eq!(&b[45..53], &[1, 0, 0, 1, 2, 3, 4, 5]);
    assert_eq!(&b[53..85], &[0xab; 32]);
    assert_eq!(&b[85..87], &[0, 0]);
    assert_eq!(b.len(), 87);
}

#[test]
fn job_decodes_back_to_itself() {
    let m = job(vec![9; 255], vec![1, 2], vec![3; 1000], 17, vec![4; 65535]);
    let b = m.to_bytes();
    let (d, n) = CommitMiningJob::from_bytes(&b).unwrap();
    assert_eq!(d, m);
    assert_eq!(n, b.len());
    assert_eq!(n, m.get_size());
}

#[test]
fn job_decoding_leaves_trailing_bytes() {
    let m = job(vec![1], vec![2], vec![3], 2, vec![4]);
    let mut b = m.to_bytes();
    let len = b.len();
    b.extend_from_slice(&[0xde, 0xad]);
    let (d, n) = CommitMiningJob::from_bytes(&b).unwrap();
    assert_eq!(d, m);
    assert_eq!(n, len);
}

#[test]
fn truncated_job_is_out_of_bound() {
    let m = job(vec![1, 2], vec![3], vec![4, 5, 6], 3, vec![7, 8]);
    let b = m.to_bytes();
    for cut in 0..b.len() {
        assert_eq!(CommitMiningJob::from_bytes(&b[..cut]), Err(Error::OutOfBound), "cut {}", cut);
    }
}

#[test]
fn success_layout_size_and_roundtrip() {
    let m = CommitMiningJobSuccess {
        request_id: 0x0102_0304,
        new_mining_job_token: B0255::new(vec![0xaa, 0xbb]).unwrap(),
    };
    assert_eq!(m.get_size(), 7);
    let b = m.to_bytes();
    assert_eq!(b, vec![4, 3, 2, 1, 2, 0xaa, 0xbb]);
    assert_eq!(CommitMiningJobSuccess::from_bytes(&b), Ok((m.clone(), 7)));
    assert_eq!(CommitMiningJobSuccess::from_bytes(&b[..6]), Err(Error::OutOfBound));
    assert_eq!(CommitMiningJobSuccess::from_bytes(&[]), Err(Error::OutOfBound));
}

#[test]
fn success_decodes_from_raw_bytes() {
    let (m, n) = CommitMiningJobSuccess::from_bytes(&[1, 0, 0, 0, 0, 9]).unwrap();
    assert_eq!(m.request_id, 1);
    assert_eq!(m.new_mining_job_token.inner_as_ref(), &[] as &[u8]);
    assert_eq!(n, 5);
}
