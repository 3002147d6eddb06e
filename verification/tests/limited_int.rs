use graph_chess::limited_int::LimitedInt;

#[test]
fn test_new_within_limit() {
    assert_eq!(LimitedInt::<6>::new(0), LimitedInt::<6>::new(6))
}

#[test]
fn test_adjacent_values() {
    assert_eq!(
        LimitedInt::<6>::new(0).adjacent_values(),
        [LimitedInt::<6>::new(5), LimitedInt::<6>::new(1)]
    )
}

#[test]
fn test_all_values() {
    assert_eq!(
        LimitedInt::<6>::all_values(),
        vec![
            LimitedInt::<6>::new(0),
            LimitedInt::<6>::new(1),
            LimitedInt::<6>::new(2),
            LimitedInt::<6>::new(3),
            LimitedInt::<6>::new(4),
            LimitedInt::<6>::new(5)
        ]
    )
}

#[test]
fn test_map_to_other() {
    // Entry `i` is the value that value `i` of `LimitedInt<6>` maps to.
    let result = vec![
        LimitedInt::<10>::new(0),
        LimitedInt::<10>::new(8),
        LimitedInt::<10>::new(7),
        LimitedInt::<10>::new(5),
        LimitedInt::<10>::new(3),
        LimitedInt::<10>::new(2),
    ];
    assert_eq!(LimitedInt::<6>::map_to_other::<10>(), result)
}

#[test]
fn test_shift_by() {
    assert_eq!(LimitedInt::<6>::new(3).shift_by(4), LimitedInt::<6>::new(1))
}

#[test]
fn map_to_other_onto_more_values() {
    assert_eq!(
        LimitedInt::<1>::map_to_other::<8>(),
        vec![LimitedInt::<8>::new(0)]
    );
    assert_eq!(
        LimitedInt::<4>::map_to_other::<8>(),
        vec![LimitedInt::<8>::new(0), LimitedInt::<8>::new(6), LimitedInt::<8>::new(4), LimitedInt::<8>::new(2)]
    );
}

#[test]
fn adjacent_values_wrap_at_the_top() {
    assert_eq!(
        LimitedInt::<8>::new(7).adjacent_values(),
        [LimitedInt::<8>::new(6), LimitedInt::<8>::new(0)]
    )
}
