use work_stealing::generator::{create_range_generator, Generator, GeneratorFunc, GeneratorState, RangeFunc};

#[test]
fn range_generator_yields_in_order() {
    let mut gen = create_range_generator(0, 5);
    let mut values = Vec::new();
    while let Some(v) = gen.next() {
        values.push(v);
    }
    assert_eq!(values, vec![0, 1, 2, 3, 4]);
}

#[test]
fn exhausted_generator_stays_complete() {
    let mut gen = create_range_generator(0, 2);
    assert_eq!(gen.next(), Some(0));
    assert_eq!(gen.next(), Some(1));
    assert_eq!(gen.next(), None);
    assert!(matches!(gen.state(), GeneratorState::Complete));
    assert_eq!(gen.next(), None);
    assert!(matches!(gen.state(), GeneratorState::Complete));
}

#[test]
fn generator_state_follows_yields() {
    let mut gen = create_range_generator(10, 12);
    assert!(matches!(gen.state(), GeneratorState::Ready));
    assert_eq!(gen.next(), Some(10));
    assert!(matches!(gen.state(), GeneratorState::Yielded));
    assert_eq!(gen.next(), Some(11));
    assert!(matches!(gen.state(), GeneratorState::Yielded));
    assert_eq!(gen.next(), None);
    assert!(matches!(gen.state(), GeneratorState::Complete));
}

#[test]
fn empty_range_completes_immediately() {
    let mut gen = create_range_generator(3, 3);
    assert_eq!(gen.next(), None);
    assert!(matches!(gen.state(), GeneratorState::Complete));
}

#[test]
fn generator_drives_custom_functions() {
    let mut gen = Generator::new(RangeFunc { current: -2, end: 1 });
    assert_eq!(gen.next(), Some(-2));
    assert_eq!(gen.next(), Some(-1));
    assert_eq!(gen.next(), Some(0));
    assert_eq!(gen.next(), None);
}

#[test]
fn range_func_resumes_standalone() {
    let mut f = RangeFunc { current: 0, end: 2 };
    assert_eq!(f.resume(), Some(0));
    assert_eq!(f.resume(), Some(1));
    assert_eq!(f.resume(), None);
    assert_eq!(f.resume(), None);
}
