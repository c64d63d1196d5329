//! Tests for the identifier codec and the set algebra.

use commit_dag::commit_set::{commit_set_to_vec, union_all, CommitSet};
use commit_dag::error::DagError;
use commit_dag::oid::{
    vertex_to_maybe_zero_oid, vertex_to_nonzero_oid, CommitVertex, MaybeZeroOid, NonZeroOid,
};

fn oid(n: u8) -> NonZeroOid {
    let mut bytes = vec![0u8; 20];
    bytes[19] = n;
    NonZeroOid::from_bytes(bytes).unwrap()
}

#[test]
fn codec_round_trips_non_zero_oid() {
    let o = oid(7);
    let v = CommitVertex::from_oid(&o);
    match vertex_to_maybe_zero_oid(&v).unwrap() {
        MaybeZeroOid::NonZero(back) => assert_eq!(back, o),
        MaybeZeroOid::Zero => panic!("a non-zero oid decoded as the zero sentinel"),
    }
    let back = vertex_to_nonzero_oid(&v).unwrap();
    assert_eq!(back, o);
}

#[test]
fn codec_round_trips_zero_sentinel() {
    let zero = CommitVertex::copy_from(&vec![0u8; 20]);
    match vertex_to_maybe_zero_oid(&zero).unwrap() {
        MaybeZeroOid::Zero => {}
        MaybeZeroOid::NonZero(_) => panic!("the zero sentinel decoded as a commit"),
    }
    assert_eq!(vertex_to_nonzero_oid(&zero), Err(DagError::UnexpectedZeroOid));
}

#[test]
fn codec_rejects_wrong_length() {
    let short = CommitVertex::copy_from(&vec![1u8; 7]);
    assert!(matches!(vertex_to_maybe_zero_oid(&short), Err(DagError::Codec)));
    assert!(matches!(vertex_to_nonzero_oid(&short), Err(DagError::Codec)));
    assert!(matches!(NonZeroOid::from_bytes(vec![1u8; 21]), Err(DagError::Codec)));
    assert!(matches!(
        NonZeroOid::from_bytes(vec![0u8; 20]),
        Err(DagError::UnexpectedZeroOid)
    ));
}

#[test]
fn set_algebra_membership_and_order() {
    let a = CommitSet::from_oids(&vec![oid(1), oid(2), oid(3)]);
    let b = CommitSet::from_oids(&vec![oid(3), oid(4)]);

    let u = a.union(&b);
    assert_eq!(u.count(), 4);
    // Left order first, then the right operand's new members.
    let u_oids = commit_set_to_vec(&u).unwrap();
    assert_eq!(u_oids, vec![oid(1), oid(2), oid(3), oid(4)]);

    let i = a.intersection(&b);
    assert_eq!(commit_set_to_vec(&i).unwrap(), vec![oid(3)]);

    let d = a.difference(&b);
    assert_eq!(commit_set_to_vec(&d).unwrap(), vec![oid(1), oid(2)]);

    assert!(!a.is_empty());
    assert!(CommitSet::empty().is_empty());
    assert!(a.contains(&CommitVertex::from_oid(&oid(2))));
    assert!(!a.contains(&CommitVertex::from_oid(&oid(4))));
}

#[test]
fn from_oids_keeps_first_occurrences() {
    let s = CommitSet::from_oids(&vec![oid(5), oid(6), oid(5)]);
    assert_eq!(commit_set_to_vec(&s).unwrap(), vec![oid(5), oid(6)]);
}

#[test]
fn union_all_folds_from_empty() {
    let sets = vec![
        CommitSet::from_oid(&oid(1)),
        CommitSet::from_oids(&vec![oid(2), oid(1)]),
        CommitSet::empty(),
    ];
    let u = union_all(&sets);
    assert_eq!(u.count(), 2);
    assert!(u.contains(&CommitVertex::from_oid(&oid(1))));
    assert!(u.contains(&CommitVertex::from_oid(&oid(2))));
    assert!(union_all(&Vec::new()).is_empty());
}

#[test]
fn commit_set_to_vec_reports_bad_vertices() {
    let zero = CommitVertex::copy_from(&vec![0u8; 20]);
    let bad = CommitSet::from_vertices(&vec![zero]);
    assert_eq!(commit_set_to_vec(&bad), Err(DagError::UnexpectedZeroOid));
    let short = CommitVertex::copy_from(&vec![9u8; 3]);
    let bad2 = CommitSet::from_vertices(&vec![short]);
    assert_eq!(commit_set_to_vec(&bad2), Err(DagError::Codec));
}
