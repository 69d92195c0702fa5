use dropck_model::codec::{decode, encode, Record};
use dropck_model::model::Variance;
use dropck_model::split_lifetimes;
use dropck_model::unmarked;
use dropck_model::variance::compute_variances;

#[test]
fn encoding_of_the_unmarked_declarations() {
    let rec = encode(&unmarked::declarations());
    assert_eq!(
        rec.numbers,
        vec![2, 1, 0, 0, 1, 2, 3, 0, 1, 0, 1, 1, 1, 0, 0, 1, 0]
    );
    assert_eq!(rec.names, vec!["Inner", "a", "Wrapper", "a"]);
}

#[test]
fn round_trip_keeps_declarations_and_variances() {
    let ds = split_lifetimes::declarations();
    let rec = encode(&ds);
    let back = decode(&rec).expect("a record written by encode reads back");
    assert_eq!(back.len(), ds.len());
    for (a, b) in ds.iter().zip(back.iter()) {
        assert_eq!(a.name, b.name);
        assert_eq!(a.has_destructor, b.has_destructor);
        assert_eq!(a.params.len(), b.params.len());
        assert_eq!(a.fields.len(), b.fields.len());
    }
    let t1 = compute_variances(&ds);
    let t2 = compute_variances(&back);
    for d in 0..ds.len() {
        for p in 0..ds[d].params.len() {
            assert_eq!(t1.variance_of(d, p), t2.variance_of(d, p));
            assert_eq!(t1.is_relevant(d, p), t2.is_relevant(d, p));
        }
    }
    assert_eq!(t2.variance_of(1, 0), Variance::Covariant);
    assert_eq!(encode(&back).numbers, rec.numbers);
}

#[test]
fn truncated_record_is_refused() {
    let mut rec = encode(&unmarked::declarations());
    rec.numbers.pop();
    assert!(decode(&rec).is_none());
}

#[test]
fn leftover_names_are_refused() {
    let mut rec = encode(&unmarked::declarations());
    rec.names.push("extra".to_string());
    assert!(decode(&rec).is_none());
}

#[test]
fn unknown_field_tag_is_refused() {
    let rec = Record { numbers: vec![1, 0, 0, 1, 9], names: vec!["T".to_string()] };
    assert!(decode(&rec).is_none());
}

#[test]
fn empty_record_is_refused_and_empty_set_reads_back() {
    let rec = Record { numbers: vec![], names: vec![] };
    assert!(decode(&rec).is_none());
    let empty = encode(&Vec::new());
    assert_eq!(empty.numbers, vec![0]);
    assert_eq!(decode(&empty).map(|v| v.len()), Some(0));
}
