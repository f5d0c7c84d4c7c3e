use transportation::loader::from_text;
use transportation::Error;

#[test]
fn worked_example_loads() {
    let text = "2 2\n1 2 5\n3 4 5\n6 4\n";
    let t = from_text(text).unwrap();
    assert_eq!(t.supply(), &vec![5, 5]);
    assert_eq!(t.demand(), &vec![6, 4]);
    assert_eq!(t.costs().get(0, 1), Ok(2));
    assert_eq!(t.costs().get(1, 0), Ok(3));
    assert_eq!(t.transport().get(1, 1), Ok(0));
}

#[test]
fn final_newline_is_optional() {
    let t = from_text("1 1\n7 3\n3").unwrap();
    assert_eq!(t.supply(), &vec![3]);
    assert_eq!(t.demand(), &vec![3]);
    assert_eq!(t.costs().get(0, 0), Ok(7));
}

#[test]
fn negative_costs_parse() {
    let t = from_text("1 1\n-7 3\n3\n").unwrap();
    assert_eq!(t.costs().get(0, 0), Ok(-7));
}

#[test]
fn unbalanced_text_is_refused() {
    assert_eq!(from_text("1 1\n7 3\n4\n").map(|_| ()), Err(Error::UnbalancedProblem));
}

#[test]
fn missing_tokens_are_malformed() {
    assert_eq!(from_text("").map(|_| ()), Err(Error::MalformedInput));
    assert_eq!(from_text("2\n").map(|_| ()), Err(Error::MalformedInput));
    assert_eq!(from_text("1 1\n7\n3\n").map(|_| ()), Err(Error::MalformedInput));
    assert_eq!(from_text("1 1\n7 x\n3\n").map(|_| ()), Err(Error::MalformedInput));
    assert_eq!(from_text("-1 1\n").map(|_| ()), Err(Error::MalformedInput));
}

#[test]
fn trailing_content_is_refused() {
    assert_eq!(
        from_text("1 1\n7 3 9\n3\n").map(|_| ()),
        Err(Error::InvalidTrailingData)
    );
    assert_eq!(
        from_text("1 1\n7 3\n3\n\n").map(|_| ()),
        Err(Error::InvalidTrailingData)
    );
    assert_eq!(
        from_text("1 1\n7 3\n3 8\n").map(|_| ()),
        Err(Error::InvalidTrailingData)
    );
}

#[test]
fn empty_problem_loads() {
    let t = from_text("0 0\n").unwrap();
    assert_eq!(t.supply().len(), 0);
    assert_eq!(t.demand().len(), 0);
}
