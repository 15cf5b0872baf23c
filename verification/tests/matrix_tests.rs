use noir_r1cs::errors::Error;
use noir_r1cs::field::FieldElement;
use noir_r1cs::interner::Interner;
use noir_r1cs::matrix_sink::{ConstraintSink, MatrixSink};
use noir_r1cs::sparse_matrix::{HydratedSparseMatrix, SparseMatrix};

fn fe(x: u64) -> FieldElement {
    FieldElement::from_u64(x)
}

#[test]
fn set_keeps_columns_sorted_and_last_write_wins() {
    let mut interner = Interner::new();
    let h7 = interner.intern(fe(7));
    let h5 = interner.intern(fe(5));
    let h9 = interner.intern(fe(9));
    let mut m = SparseMatrix::new(2, 4);
    m.set(0, 2, h7).unwrap();
    m.set(0, 0, h5).unwrap();
    m.set(0, 3, h5).unwrap();
    m.set(0, 2, h9).unwrap();
    let row = m.iter_row(0);
    let cols: Vec<usize> = row.iter().map(|e| e.0).collect();
    assert_eq!(cols, vec![0, 2, 3]);
    let vals: Vec<u32> = row.iter().map(|e| e.1).collect();
    assert_eq!(vals, vec![h5, h9, h5]);
    assert!(m.iter_row(1).is_empty());
    assert_eq!(m.num_entries(), 3);
}

#[test]
fn set_out_of_range_fails_with_index_out_of_bounds() {
    let mut interner = Interner::new();
    let h = interner.intern(fe(1));
    let mut m = SparseMatrix::new(2, 3);
    assert_eq!(m.set(2, 0, h), Err(Error::IndexOutOfBounds));
    assert_eq!(m.set(0, 3, h), Err(Error::IndexOutOfBounds));
    assert_eq!(m.num_entries(), 0);
}

#[test]
fn grow_is_monotonic() {
    let mut m = SparseMatrix::new(2, 2);
    assert!(m.grow(3, 4).is_ok());
    assert_eq!(m.rows(), 3);
    assert_eq!(m.num_columns(), 4);
    assert_eq!(m.grow(2, 4), Err(Error::DimensionMismatch));
}

#[test]
fn matrix_vector_products() {
    // [[1, 2, 0], [0, 0, 3]] over x = [1, 10, 100].
    let mut interner = Interner::new();
    let h1 = interner.intern(fe(1));
    let h2 = interner.intern(fe(2));
    let h3 = interner.intern(fe(3));
    let mut m = SparseMatrix::new(2, 3);
    m.set(0, 0, h1).unwrap();
    m.set(0, 1, h2).unwrap();
    m.set(1, 2, h3).unwrap();
    let hm = m.hydrate(&interner);
    let x = vec![fe(1), fe(10), fe(100)];
    let out = hm.mul_vec(&x);
    assert_eq!(out.len(), 2);
    assert!(out[0].eq_value(&fe(21)));
    assert!(out[1].eq_value(&fe(300)));
    // Left multiplication: y^T M with y = [1, 2].
    let y = vec![fe(1), fe(2)];
    let out2 = hm.vec_mul(&y);
    assert_eq!(out2.len(), 3);
    assert!(out2[0].eq_value(&fe(1)));
    assert!(out2[1].eq_value(&fe(2)));
    assert!(out2[2].eq_value(&fe(6)));
}

#[test]
fn merged_matrix_product_is_sum_of_products() {
    // A and A' of equal shape; the entrywise sum's product equals the sum
    // of the products.
    let entries_a: [(usize, usize, u64); 4] = [(0, 0, 3), (0, 2, 7), (1, 1, 11), (2, 0, 5)];
    let entries_b: [(usize, usize, u64); 4] = [(0, 0, 4), (1, 1, 2), (1, 2, 9), (2, 2, 8)];
    let mut interner = Interner::new();
    let mut a = SparseMatrix::new(3, 3);
    for &(r, c, v) in entries_a.iter() {
        let h = interner.intern(fe(v));
        a.set(r, c, h).unwrap();
    }
    let mut b = SparseMatrix::new(3, 3);
    for &(r, c, v) in entries_b.iter() {
        let h = interner.intern(fe(v));
        b.set(r, c, h).unwrap();
    }
    // Build the entrywise merge by summing values per coordinate.
    let mut merged = SparseMatrix::new(3, 3);
    for r in 0..3usize {
        for c in 0..3usize {
            let va = a
                .get(r, c)
                .map(|h| interner.get(h).unwrap())
                .unwrap_or(FieldElement::zero());
            let vb = b
                .get(r, c)
                .map(|h| interner.get(h).unwrap())
                .unwrap_or(FieldElement::zero());
            let sum = va.add(vb);
            if !sum.eq_value(&FieldElement::zero()) {
                let h = interner.intern(sum);
                merged.set(r, c, h).unwrap();
            }
        }
    }
    let x = vec![fe(13), fe(17), fe(19)];
    let pa = a.hydrate(&interner).mul_vec(&x);
    let pb = b.hydrate(&interner).mul_vec(&x);
    let pm = merged.hydrate(&interner).mul_vec(&x);
    for i in 0..3 {
        assert!(pm[i].eq_value(&pa[i].add(pb[i])));
    }
}

#[test]
fn interner_deduplicates() {
    let mut interner = Interner::new();
    let h1 = interner.intern(fe(42));
    let h2 = interner.intern(fe(42));
    let h3 = interner.intern(fe(43));
    assert_eq!(h1, h2);
    assert_ne!(h1, h3);
    assert_eq!(interner.len(), 2);
    assert!(interner.get(h1).unwrap().eq_value(&fe(42)));
    assert!(interner.get(99).is_none());
}

#[test]
fn field_arithmetic_and_codec() {
    let a = fe(1_000_000_007);
    let b = fe(998_244_353);
    assert!(a.add(b).sub(b).eq_value(&a));
    assert!(a.mul(FieldElement::one()).eq_value(&a));
    assert!(a.mul(FieldElement::zero()).eq_value(&FieldElement::zero()));
    assert!(a.add(a.neg()).eq_value(&FieldElement::zero()));
    // Two halves make a whole.
    let half = FieldElement::half();
    assert!(half.add(half).eq_value(&FieldElement::one()));
    // Byte encoding round-trips.
    let bytes = a.to_bytes();
    assert_eq!(bytes.len(), 8);
    let back = FieldElement::from_bytes(&bytes).unwrap();
    assert!(back.eq_value(&a));
    // A non-canonical word is rejected.
    let big = [0xffu8; 8];
    assert!(FieldElement::from_bytes(&big).is_none());
}

#[test]
fn error_messages_name_every_kind() {
    let kinds = [
        Error::UnsupportedOpcode,
        Error::DimensionMismatch,
        Error::IndexOutOfBounds,
        Error::SchemeCapacityExceeded,
        Error::SumcheckEqualityViolation,
        Error::SerializationError,
    ];
    for k in kinds.iter() {
        assert!(!k.message().is_empty());
    }
}

#[test]
fn matrix_sink_stores_the_given_rows() {
    let mut sink = MatrixSink::new(4, 2).unwrap();
    let a = vec![(FieldElement::from_u64(3), 1usize)];
    let b = vec![(FieldElement::from_u64(1), 2usize)];
    let c = vec![
        (FieldElement::from_u64(7), 0usize),
        (FieldElement::from_u64(9), 3usize),
    ];
    sink.add_constraint(&a, &b, &c).unwrap();
    let ha = HydratedSparseMatrix { matrix: &sink.a, interner: &sink.interner };
    let row_a = ha.iter_row(0);
    assert_eq!(row_a.len(), 1);
    assert_eq!(row_a[0].0, 1);
    assert!(row_a[0].1.eq_value(&FieldElement::from_u64(3)));
    let hb = HydratedSparseMatrix { matrix: &sink.b, interner: &sink.interner };
    let row_b = hb.iter_row(0);
    assert_eq!(row_b.len(), 1);
    assert_eq!(row_b[0].0, 2);
    assert!(row_b[0].1.eq_value(&FieldElement::from_u64(1)));
    let hc = HydratedSparseMatrix { matrix: &sink.c, interner: &sink.interner };
    let row_c = hc.iter_row(0);
    assert_eq!(row_c.len(), 2);
    assert_eq!(row_c[0].0, 0);
    assert!(row_c[0].1.eq_value(&FieldElement::from_u64(7)));
    assert_eq!(row_c[1].0, 3);
    assert!(row_c[1].1.eq_value(&FieldElement::from_u64(9)));
    // A second row fills independently; the first is untouched.
    sink.add_constraint(&b, &a, &a).unwrap();
    let ha2 = HydratedSparseMatrix { matrix: &sink.a, interner: &sink.interner };
    assert_eq!(ha2.iter_row(0).len(), 1);
    assert_eq!(ha2.iter_row(1).len(), 1);
    assert_eq!(ha2.iter_row(1)[0].0, 2);
}
