use crusp::variables::VariableState;

#[test]
fn test_op_or() {
    // no change is neutral
    assert_eq!(VariableState::NoChange | VariableState::MaxBoundChange, VariableState::MaxBoundChange);
    assert_eq!(VariableState::NoChange | VariableState::MinBoundChange, VariableState::MinBoundChange);
    assert_eq!(VariableState::NoChange | VariableState::BoundsChange, VariableState::BoundsChange);
    assert_eq!(VariableState::NoChange | VariableState::ValuesChange, VariableState::ValuesChange);
    assert_eq!(VariableState::NoChange | VariableState::NoChange, VariableState::NoChange);
    assert_eq!(VariableState::NoChange | VariableState::UniversalChange, VariableState::UniversalChange);
    assert_eq!(VariableState::NoChange | VariableState::UniversalError, VariableState::UniversalError);
    // max bounds
    assert_eq!(VariableState::MaxBoundChange | VariableState::MaxBoundChange, VariableState::MaxBoundChange);
    assert_eq!(VariableState::MaxBoundChange | VariableState::MinBoundChange, VariableState::BoundsChange);
    assert_eq!(VariableState::MaxBoundChange | VariableState::BoundsChange, VariableState::BoundsChange);
    assert_eq!(VariableState::MaxBoundChange | VariableState::ValuesChange, VariableState::ValuesChange);
    assert_eq!(VariableState::MaxBoundChange | VariableState::NoChange, VariableState::MaxBoundChange);
    assert_eq!(VariableState::MaxBoundChange | VariableState::UniversalChange, VariableState::UniversalError);
    assert_eq!(VariableState::MaxBoundChange | VariableState::UniversalError, VariableState::UniversalError);
    // min bounds
    assert_eq!(VariableState::MinBoundChange | VariableState::MaxBoundChange, VariableState::BoundsChange);
    assert_eq!(VariableState::MinBoundChange | VariableState::MinBoundChange, VariableState::MinBoundChange);
    assert_eq!(VariableState::MinBoundChange | VariableState::BoundsChange, VariableState::BoundsChange);
    assert_eq!(VariableState::MinBoundChange | VariableState::ValuesChange, VariableState::ValuesChange);
    assert_eq!(VariableState::MinBoundChange | VariableState::NoChange, VariableState::MinBoundChange);
    assert_eq!(VariableState::MinBoundChange | VariableState::UniversalChange, VariableState::UniversalError);
    assert_eq!(VariableState::MinBoundChange | VariableState::UniversalError, VariableState::UniversalError);
    // bounds
    assert_eq!(VariableState::BoundsChange | VariableState::MaxBoundChange, VariableState::BoundsChange);
    assert_eq!(VariableState::BoundsChange | VariableState::MinBoundChange, VariableState::BoundsChange);
    assert_eq!(VariableState::BoundsChange | VariableState::BoundsChange, VariableState::BoundsChange);
    assert_eq!(VariableState::BoundsChange | VariableState::ValuesChange, VariableState::ValuesChange);
    assert_eq!(VariableState::BoundsChange | VariableState::NoChange, VariableState::BoundsChange);
    assert_eq!(VariableState::BoundsChange | VariableState::UniversalChange, VariableState::UniversalError);
    assert_eq!(VariableState::BoundsChange | VariableState::UniversalError, VariableState::UniversalError);
    // values
    assert_eq!(VariableState::ValuesChange | VariableState::MaxBoundChange, VariableState::ValuesChange);
    assert_eq!(VariableState::ValuesChange | VariableState::MinBoundChange, VariableState::ValuesChange);
    assert_eq!(VariableState::ValuesChange | VariableState::BoundsChange, VariableState::ValuesChange);
    assert_eq!(VariableState::ValuesChange | VariableState::ValuesChange, VariableState::ValuesChange);
    assert_eq!(VariableState::ValuesChange | VariableState::NoChange, VariableState::ValuesChange);
    assert_eq!(VariableState::ValuesChange | VariableState::UniversalChange, VariableState::UniversalError);
    assert_eq!(VariableState::ValuesChange | VariableState::UniversalError, VariableState::UniversalError);
    // universal
    assert_eq!(VariableState::UniversalChange | VariableState::MaxBoundChange, VariableState::UniversalError);
    assert_eq!(VariableState::UniversalChange | VariableState::MinBoundChange, VariableState::UniversalError);
    assert_eq!(VariableState::UniversalChange | VariableState::BoundsChange, VariableState::UniversalError);
    assert_eq!(VariableState::UniversalChange | VariableState::ValuesChange, VariableState::UniversalError);
    assert_eq!(VariableState::UniversalChange | VariableState::NoChange, VariableState::UniversalChange);
    assert_eq!(VariableState::UniversalChange | VariableState::UniversalChange, VariableState::UniversalChange);
    assert_eq!(VariableState::UniversalChange | VariableState::UniversalError, VariableState::UniversalError);
    // universal error
    assert_eq!(VariableState::UniversalError | VariableState::MaxBoundChange, VariableState::UniversalError);
    assert_eq!(VariableState::UniversalError | VariableState::MinBoundChange, VariableState::UniversalError);
    assert_eq!(VariableState::UniversalError | VariableState::BoundsChange, VariableState::UniversalError);
    assert_eq!(VariableState::UniversalError | VariableState::ValuesChange, VariableState::UniversalError);
    assert_eq!(VariableState::UniversalError | VariableState::NoChange, VariableState::UniversalError);
    assert_eq!(VariableState::UniversalError | VariableState::UniversalChange, VariableState::UniversalError);
    assert_eq!(VariableState::UniversalError | VariableState::UniversalError, VariableState::UniversalError);
}

const ALL: [VariableState; 7] = [
    VariableState::MaxBoundChange,
    VariableState::MinBoundChange,
    VariableState::BoundsChange,
    VariableState::ValuesChange,
    VariableState::NoChange,
    VariableState::UniversalChange,
    VariableState::UniversalError,
];

#[test]
fn op_or_is_commutative_and_idempotent() {
    for a in ALL.iter() {
        assert_eq!(*a | *a, *a);
        for b in ALL.iter() {
            assert_eq!(*a | *b, *b | *a);
        }
    }
}

#[test]
fn op_or_is_associative() {
    for a in ALL.iter() {
        for b in ALL.iter() {
            for c in ALL.iter() {
                assert_eq!((*a | *b) | *c, *a | (*b | *c));
            }
        }
    }
}

#[test]
fn codes_name_their_states() {
    for s in ALL.iter() {
        assert_eq!(VariableState::from_code(s.code()), *s);
    }
    assert_eq!(VariableState::BoundsChange.code(), 0x07);
    assert_eq!(VariableState::UniversalError.code(), 0xe1);
}

#[test]
fn subsumption_examples() {
    assert!(VariableState::MaxBoundChange.is_subsumed_under(&VariableState::MaxBoundChange));
    assert!(!VariableState::MaxBoundChange.is_subsumed_under(&VariableState::BoundsChange));
    assert!(VariableState::BoundsChange.is_subsumed_under(&VariableState::MinBoundChange));
    assert!(!VariableState::BoundsChange.is_subsumed_under(&VariableState::ValuesChange));
    assert!(VariableState::ValuesChange.is_subsumed_under(&VariableState::BoundsChange));
    assert!(!VariableState::ValuesChange.is_subsumed_under(&VariableState::NoChange));
    assert!(VariableState::NoChange.is_subsumed_under(&VariableState::NoChange));
    assert!(VariableState::UniversalError.is_subsumed_under(&VariableState::UniversalChange));
    assert!(!VariableState::UniversalChange.is_subsumed_under(&VariableState::UniversalError));
}
