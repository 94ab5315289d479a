use transadif::cli::record_indices;

#[test]
fn record_list_is_parsed() {
    assert_eq!(record_indices("0, 3,7"), vec![0, 3, 7]);
    assert_eq!(record_indices(" +2 ,x,,5 "), vec![2, 5]);
    assert_eq!(record_indices(""), Vec::<usize>::new());
    assert_eq!(record_indices("99999999999999999999999,1"), vec![1]);
    assert_eq!(record_indices("-1,2"), vec![2]);
}
