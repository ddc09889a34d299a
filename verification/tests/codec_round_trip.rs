use solanke_backend::codec::{decode_product, encode_product};
use solanke_backend::{CallerId, Product};

fn sample() -> Product {
    Product {
        id: 77,
        description: b"a fine product".to_vec(),
        approve: 2,
        reject: 1,
        pass: 0,
        is_active: true,
        voted: vec![
            CallerId::new(vec![1, 2, 3]),
            CallerId::new(vec![]),
            CallerId::new(vec![255, 0, 128]),
        ],
        owner: CallerId::new(vec![9, 9]),
    }
}

#[test]
fn encode_decode_round_trip() {
    let p = sample();
    let bytes = encode_product(&p);
    let q = decode_product(&bytes).unwrap();
    assert_eq!(q.id, p.id);
    assert_eq!(q.description, p.description);
    assert_eq!(q.approve, p.approve);
    assert_eq!(q.reject, p.reject);
    assert_eq!(q.pass, p.pass);
    assert_eq!(q.is_active, p.is_active);
    assert_eq!(q.voted.len(), p.voted.len());
    for (x, y) in q.voted.iter().zip(p.voted.iter()) {
        assert_eq!(x.bytes, y.bytes);
    }
    assert_eq!(q.owner.bytes, p.owner.bytes);
}

#[test]
fn encode_is_deterministic_and_nontrivial() {
    let p = sample();
    let a = encode_product(&p);
    let b = encode_product(&p);
    assert_eq!(a, b);
    // the identifier lands in the first 8 bytes, little endian
    assert_eq!(&a[0..8], &[77, 0, 0, 0, 0, 0, 0, 0]);
    // the description must not simply be the whole payload
    assert_ne!(a, p.description);
}

#[test]
fn decode_rejects_malformed_input() {
    assert!(decode_product(&vec![]).is_none());
    assert!(decode_product(&vec![1, 2, 3]).is_none());
    let p = sample();
    let mut truncated = encode_product(&p);
    truncated.pop();
    assert!(decode_product(&truncated).is_none());
    let mut trailing = encode_product(&p);
    trailing.push(0);
    assert!(decode_product(&trailing).is_none());
}

#[test]
fn decode_rejects_bad_activity_byte() {
    let p = sample();
    let mut bytes = encode_product(&p);
    // the activity flag sits after the id and the three counters
    assert!(bytes[20] == 0 || bytes[20] == 1);
    bytes[20] = 2;
    assert!(decode_product(&bytes).is_none());
}
