use orga::merkle::{verify_proof, MerkleStore, ProofBuilder};
use orga::state_machine::step_atomic;
use orga::store::{BufStore, MapStore, Read, Write};
use orga::{Error, Result};

#[test]
fn simple() {
    let mut store = MerkleStore::new();
    store.put(vec![1, 2, 3], vec![2]).unwrap();
    store.put(vec![3, 4, 5], vec![4]).unwrap();
    store.commit().unwrap();

    let mut builder = ProofBuilder::new(&store);
    let key = [1, 2, 3];
    assert_eq!(builder.get(&key[..]).unwrap(), Some(vec![2]));

    let proof = builder.build().unwrap();
    let root_hash = store.root_hash();
    let res = verify_proof(&proof, &vec![vec![1, 2, 3]], &root_hash).unwrap();

    assert_eq!(res[0], Some(vec![2]));
}

#[test]
fn absence() {
    let mut store = MerkleStore::new();
    store.put(vec![1, 2, 3], vec![2]).unwrap();
    store.put(vec![3, 4, 5], vec![4]).unwrap();
    store.commit().unwrap();

    let mut builder = ProofBuilder::new(&store);
    let key = [5];
    assert_eq!(builder.get(&key[..]).unwrap(), None);

    let proof = builder.build().unwrap();
    let root_hash = store.root_hash();
    let res = verify_proof(&proof, &vec![vec![5]], &root_hash).unwrap();

    assert_eq!(res[0], None);
}

fn get_u8(key: &[u8], store: &MapStore) -> Result<u8> {
    match store.get(key) {
        Ok(None) => Ok(0),
        Ok(Some(vec)) => Ok(vec[0]),
        Err(err) => Err(err),
    }
}

fn put_u8(key: &[u8], value: u8, store: &mut MapStore) -> Result<()> {
    store.put(key.to_vec(), vec![value])
}

fn counter(store: &mut MapStore, n: u8) -> Result<u8> {
    // put to n before checking count (to test atomicity)
    put_u8(b"n", n, store)?;

    // get count, compare to n, write if successful
    let count = get_u8(b"count", store)?;
    if count != n {
        return Err(Error::Test);
    }
    put_u8(b"count", count + 1, store)?;
    Ok(count + 1)
}

#[test]
fn step_counter_error() {
    let mut store = MapStore::new();
    // invalid `n`, should error
    assert!(counter(&mut store, 100).is_err());
    // count should not have been mutated
    assert_eq!(store.get(b"count").unwrap(), None);
    // n should have been mutated
    assert_eq!(store.get(b"n").unwrap(), Some(vec![100]));
}

#[test]
fn step_atomic_discards_on_error() {
    let mut store = MapStore::new();
    store.put(b"kept".to_vec(), vec![7]).unwrap();

    let step = |mut buf: BufStore<MapStore>, n: u8| -> (BufStore<MapStore>, Result<u8>) {
        buf.put(b"n".to_vec(), vec![n]).unwrap();
        let count = match buf.get(b"count") {
            Ok(Some(v)) => v[0],
            Ok(None) => 0,
            Err(e) => return (buf, Err(e)),
        };
        if count != n {
            return (buf, Err(Error::Test));
        }
        let r = buf.put(b"count".to_vec(), vec![count + 1]);
        (buf, r.map(|_| count + 1))
    };

    // a failing step buffers writes but none of them reach the store
    let (store, res) = step_atomic(step, store, 100);
    assert!(res.is_err());
    assert_eq!(store.get(b"n").unwrap(), None);
    assert_eq!(store.get(b"count").unwrap(), None);
    assert_eq!(store.get(b"kept").unwrap(), Some(vec![7]));

    // a successful step applies every buffered write at once
    let (store, res) = step_atomic(step, store, 0);
    assert_eq!(res.unwrap(), 1);
    assert_eq!(store.get(b"n").unwrap(), Some(vec![0]));
    assert_eq!(store.get(b"count").unwrap(), Some(vec![1]));
}

#[test]
fn proof_rejects_uncovered_key() {
    let mut store = MerkleStore::new();
    store.put(vec![1, 2, 3], vec![2]).unwrap();
    store.put(vec![3, 4, 5], vec![4]).unwrap();
    store.commit().unwrap();

    let mut builder = ProofBuilder::new(&store);
    assert_eq!(builder.get(&[1, 2, 3][..]).unwrap(), Some(vec![2]));
    let proof = builder.build().unwrap();
    let root_hash = store.root_hash();

    // the covered key verifies; a key outside the recorded read set fails
    assert!(verify_proof(&proof, &vec![vec![1, 2, 3]], &root_hash).is_ok());
    assert_eq!(
        verify_proof(&proof, &vec![vec![3, 4, 5]], &root_hash),
        Err(Error::Proof)
    );
    // and a proof checked against the wrong root fails
    let wrong_root = vec![0; 32];
    assert_eq!(
        verify_proof(&proof, &vec![vec![1, 2, 3]], &wrong_root),
        Err(Error::Proof)
    );
}

#[test]
fn repeated_reads_are_recorded_once() {
    let mut store = MerkleStore::new();
    store.put(vec![1], vec![9]).unwrap();
    store.commit().unwrap();

    let mut builder = ProofBuilder::new(&store);
    assert_eq!(builder.get(&[1][..]).unwrap(), Some(vec![9]));
    assert_eq!(builder.get(&[1][..]).unwrap(), Some(vec![9]));
    let proof = builder.build().unwrap();
    let root_hash = store.root_hash();
    let res = verify_proof(&proof, &vec![vec![1]], &root_hash).unwrap();
    assert_eq!(res[0], Some(vec![9]));
}

#[test]
fn commit_keeps_contents() {
    let mut store = MerkleStore::new();
    store.put(b"a".to_vec(), vec![1]).unwrap();
    store.put(b"b".to_vec(), vec![2]).unwrap();
    store.delete(b"a").unwrap();
    assert_eq!(store.get(b"a").unwrap(), None);
    assert_eq!(store.get(b"b").unwrap(), Some(vec![2]));
    store.commit().unwrap();
    assert_eq!(store.get(b"a").unwrap(), None);
    assert_eq!(store.get(b"b").unwrap(), Some(vec![2]));
}

#[test]
fn map_store_overwrites_and_deletes() {
    let mut store = MapStore::new();
    store.put(b"k".to_vec(), vec![1]).unwrap();
    store.put(b"k".to_vec(), vec![2]).unwrap();
    assert_eq!(store.get(b"k").unwrap(), Some(vec![2]));
    store.delete(b"k").unwrap();
    assert_eq!(store.get(b"k").unwrap(), None);
}
