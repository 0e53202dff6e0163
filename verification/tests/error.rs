use captain_crunch::error::GenError;

#[test]
fn every_failure_has_its_own_message() {
    let all = [
        GenError::MalformedField,
        GenError::InvalidPattern,
        GenError::UnboundedPattern,
        GenError::EmptyField,
        GenError::CountOverflow,
        GenError::SinkWriteFailed,
    ];
    for (i, a) in all.iter().enumerate() {
        assert!(!a.message().is_empty());
        for b in all.iter().skip(i + 1) {
            assert_ne!(a.message(), b.message());
        }
    }
}

#[test]
fn messages_name_the_failure() {
    assert_eq!(GenError::EmptyField.message(), "a field has no candidates");
    assert_eq!(GenError::SinkWriteFailed.message(), "writing a word to the sink failed");
    assert_eq!(
        GenError::CountOverflow.message(),
        "the number of combinations does not fit the counter"
    );
    assert_eq!(GenError::UnboundedPattern.message(), "a pattern repeats without an upper bound");
    assert_eq!(GenError::InvalidPattern.message(), "a pattern is not in the supported syntax");
    assert_eq!(GenError::MalformedField.message(), "a literal field holds no candidate");
}
