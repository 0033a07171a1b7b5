use coil::error::IndexError;
use coil::hit_list::HitList;
use coil::score_vec::ScoreVec;

#[test]
fn score_vec_round_trip() {
    let mut sv = ScoreVec::new(2);
    let records = vec![vec![1, 2], vec![3, 4], vec![-5, 6]];
    for r in &records {
        let mut r = r.clone();
        assert_eq!(sv.add(&mut r), Ok(()));
        assert!(r.is_empty());
    }
    assert_eq!(sv.len(), 3);
    for (i, r) in records.iter().enumerate() {
        assert_eq!(sv.get(i).unwrap(), r.as_slice());
    }
}

#[test]
fn score_vec_shape_mismatch() {
    let mut sv = ScoreVec::new(2);
    let mut ok = vec![7, 8];
    sv.add(&mut ok).unwrap();
    let mut bad = vec![1, 2, 3];
    assert_eq!(sv.add(&mut bad), Err(IndexError::ShapeMismatch { len: 3, stride: 2 }));
    assert_eq!(bad, vec![1, 2, 3]);
    assert_eq!(sv.len(), 1);
    let mut short = vec![1];
    assert_eq!(sv.add(&mut short), Err(IndexError::ShapeMismatch { len: 1, stride: 2 }));
    assert_eq!(sv.len(), 1);
    assert_eq!(sv.get(0).unwrap(), &[7, 8]);
}

#[test]
fn score_vec_out_of_range() {
    let mut sv = ScoreVec::new(1);
    assert_eq!(sv.get(0), Err(IndexError::OutOfRange { index: 0, size: 0 }));
    let mut r = vec![4];
    sv.add(&mut r).unwrap();
    assert_eq!(sv.get(0).unwrap(), &[4]);
    assert_eq!(sv.get(1), Err(IndexError::OutOfRange { index: 1, size: 1 }));
    assert_eq!(sv.get(usize::MAX), Err(IndexError::OutOfRange { index: usize::MAX, size: 1 }));
}

#[test]
fn hit_list_keeps_docs_and_scores_aligned() {
    let mut h = HitList::new(1);
    assert_eq!(h.add_doc(4, &mut vec![2]), Ok(()));
    assert_eq!(h.add_doc(9, &mut vec![1]), Ok(()));
    assert_eq!(h.add_doc(4, &mut vec![5, 5]), Err(IndexError::ShapeMismatch { len: 2, stride: 1 }));
    assert_eq!(h.get_docs(), &[4, 9]);
    assert_eq!(h.get_scores().len(), h.get_docs().len());
    assert_eq!(h.get_scores().get(0).unwrap(), &[2]);
    assert_eq!(h.get_scores().get(1).unwrap(), &[1]);
}

#[test]
fn hit_list_failed_add_changes_nothing() {
    let mut h = HitList::new(2);
    let mut bad = vec![1];
    assert!(h.add_doc(3, &mut bad).is_err());
    assert!(h.get_docs().is_empty());
    assert_eq!(h.get_scores().len(), 0);
    assert_eq!(bad, vec![1]);
}
