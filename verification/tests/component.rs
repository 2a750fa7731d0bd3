use blurhash::error::Error;
use blurhash::Component;

#[test]
fn try_new_takes_every_count_in_bounds() {
    for x in 1u8..=9 {
        for y in 1u8..=9 {
            let component = Component::try_new(x, y).unwrap();
            assert_eq!(component.x(), x);
            assert_eq!(component.y(), y);
        }
    }
}

#[test]
fn try_new_refuses_x_out_of_bounds() {
    assert_eq!(Component::try_new(0, 4), Err(Error::ComponentOutOfBounds(0)));
    assert_eq!(Component::try_new(10, 4), Err(Error::ComponentOutOfBounds(10)));
    assert_eq!(Component::try_new(255, 4), Err(Error::ComponentOutOfBounds(255)));
}

#[test]
fn try_new_refuses_y_out_of_bounds() {
    assert_eq!(Component::try_new(4, 0), Err(Error::ComponentOutOfBounds(0)));
    assert_eq!(Component::try_new(4, 10), Err(Error::ComponentOutOfBounds(10)));
}

#[test]
fn try_new_looks_at_x_first() {
    assert_eq!(Component::try_new(0, 10), Err(Error::ComponentOutOfBounds(0)));
    assert_eq!(Component::try_new(11, 0), Err(Error::ComponentOutOfBounds(11)));
}

#[test]
fn try_new_refuses_everything_else() {
    for x in 0u8..=255 {
        for y in 0u8..=255 {
            let in_bounds = (1..=9).contains(&x) && (1..=9).contains(&y);
            assert_eq!(Component::try_new(x, y).is_ok(), in_bounds);
        }
    }
}

#[test]
fn error_carries_the_count_and_a_message() {
    let error = Component::try_new(12, 1).unwrap_err();
    assert!(matches!(error, Error::ComponentOutOfBounds(12)));
    assert_eq!(error.message(), "The component value must fall in the range (1..=9)");
}

#[test]
fn frequencies_run_row_by_row() {
    let component = Component::try_new(3, 2).unwrap();
    assert_eq!(
        component.frequencies(),
        vec![(0, 0), (1, 0), (2, 0), (0, 1), (1, 1), (2, 1)]
    );
}

#[test]
fn frequencies_of_the_smallest_component() {
    let component = Component::try_new(1, 1).unwrap();
    assert_eq!(component.frequencies(), vec![(0, 0)]);
}

#[test]
fn frequencies_count_is_x_times_y() {
    for x in 1u8..=9 {
        for y in 1u8..=9 {
            let pairs = Component::try_new(x, y).unwrap().frequencies();
            assert_eq!(pairs.len(), x as usize * y as usize);
            assert_eq!(pairs[0], (0, 0));
            assert_eq!(pairs[pairs.len() - 1], (x as usize - 1, y as usize - 1));
        }
    }
}
