use sweep_line::columns::sweep_line_assignment;
use sweep_line::columns::Column;
use sweep_line::columns::SweepLineKwargs;
use sweep_line::error::AssignError;
use sweep_line::error::ShapeFault;

fn touching() -> SweepLineKwargs {
    SweepLineKwargs { overlapping: false }
}

fn conflicting() -> SweepLineKwargs {
    SweepLineKwargs { overlapping: true }
}

#[test]
fn two_columns_of_long_integers() {
    let inputs = vec![
        Column::Int64(vec![Some(10), Some(20)]),
        Column::Int64(vec![Some(20), Some(30)]),
    ];
    assert_eq!(sweep_line_assignment(&inputs, touching()), Ok(vec![1, 1]));
    assert_eq!(sweep_line_assignment(&inputs, conflicting()), Ok(vec![1, 2]));
}

#[test]
fn every_integer_type_is_served() {
    let expected = Ok(vec![1, 2, 1]);
    let cases = vec![
        vec![
            Column::Int8(vec![Some(1), Some(2), Some(5)]),
            Column::Int8(vec![Some(4), Some(9), Some(7)]),
        ],
        vec![
            Column::Int16(vec![Some(1), Some(2), Some(5)]),
            Column::Int16(vec![Some(4), Some(9), Some(7)]),
        ],
        vec![
            Column::Int32(vec![Some(1), Some(2), Some(5)]),
            Column::Int32(vec![Some(4), Some(9), Some(7)]),
        ],
        vec![
            Column::Int64(vec![Some(1), Some(2), Some(5)]),
            Column::Int64(vec![Some(4), Some(9), Some(7)]),
        ],
        vec![
            Column::UInt8(vec![Some(1), Some(2), Some(5)]),
            Column::UInt8(vec![Some(4), Some(9), Some(7)]),
        ],
        vec![
            Column::UInt16(vec![Some(1), Some(2), Some(5)]),
            Column::UInt16(vec![Some(4), Some(9), Some(7)]),
        ],
        vec![
            Column::UInt32(vec![Some(1), Some(2), Some(5)]),
            Column::UInt32(vec![Some(4), Some(9), Some(7)]),
        ],
        vec![
            Column::UInt64(vec![Some(1), Some(2), Some(5)]),
            Column::UInt64(vec![Some(4), Some(9), Some(7)]),
        ],
    ];
    for inputs in cases {
        assert_eq!(sweep_line_assignment(&inputs, touching()), expected);
    }
}

#[test]
fn missing_values_in_columns() {
    let inputs = vec![
        Column::UInt32(vec![Some(10), None, Some(20)]),
        Column::UInt32(vec![Some(20), Some(5), Some(30)]),
    ];
    assert_eq!(sweep_line_assignment(&inputs, conflicting()), Ok(vec![1, 0, 2]));
}

#[test]
fn wrong_number_of_columns() {
    let none: Vec<Column> = Vec::new();
    let count = Err(AssignError::ArgumentShape(ShapeFault::ArgumentCount));
    assert_eq!(sweep_line_assignment(&none, touching()), count);
    let one = vec![Column::Int64(vec![Some(1)])];
    assert_eq!(sweep_line_assignment(&one, touching()), count);
    let three = vec![
        Column::Int64(vec![Some(1)]),
        Column::Int64(vec![Some(2)]),
        Column::Int64(vec![Some(3)]),
    ];
    assert_eq!(sweep_line_assignment(&three, conflicting()), count);
}

#[test]
fn columns_of_different_types() {
    let mismatch = Err(AssignError::ArgumentShape(ShapeFault::TypeMismatch));
    let inputs = vec![Column::Int64(vec![Some(1)]), Column::Int32(vec![Some(2)])];
    assert_eq!(sweep_line_assignment(&inputs, touching()), mismatch);
    let inputs = vec![Column::UInt8(vec![Some(1)]), Column::Int8(vec![Some(2)])];
    assert_eq!(sweep_line_assignment(&inputs, touching()), mismatch);
    let inputs = vec![Column::Other("f64".to_string()), Column::Int64(vec![Some(2)])];
    assert_eq!(sweep_line_assignment(&inputs, touching()), mismatch);
    let inputs = vec![Column::Int64(vec![Some(2)]), Column::Other("str".to_string())];
    assert_eq!(sweep_line_assignment(&inputs, touching()), mismatch);
    let inputs = vec![Column::Other("f64".to_string()), Column::Other("str".to_string())];
    assert_eq!(sweep_line_assignment(&inputs, touching()), mismatch);
}

#[test]
fn columns_of_an_unsupported_type() {
    let inputs = vec![Column::Other("f64".to_string()), Column::Other("f64".to_string())];
    assert_eq!(
        sweep_line_assignment(&inputs, touching()),
        Err(AssignError::ArgumentShape(ShapeFault::UnsupportedType))
    );
}

#[test]
fn columns_of_different_length() {
    let inputs = vec![Column::Int16(vec![Some(1), Some(2)]), Column::Int16(vec![Some(2)])];
    assert_eq!(
        sweep_line_assignment(&inputs, touching()),
        Err(AssignError::ArgumentShape(ShapeFault::LengthMismatch))
    );
}

#[test]
fn columns_with_a_reversed_interval() {
    let inputs = vec![
        Column::Int16(vec![Some(1), Some(5)]),
        Column::Int16(vec![Some(2), Some(3)]),
    ];
    assert_eq!(sweep_line_assignment(&inputs, touching()), Err(AssignError::InvalidInterval));
}

#[test]
fn column_lengths() {
    assert_eq!(Column::Int8(vec![Some(1), None]).len(), 2);
    assert_eq!(Column::UInt64(Vec::new()).len(), 0);
    assert_eq!(Column::Other("bool".to_string()).len(), 0);
}
