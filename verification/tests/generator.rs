use tokio_experiments::generator::{fibbers, Fib, GeneratorState};

#[test]
fn fib_yields_fibonacci_numbers() {
    let mut g = Fib::new();
    let expected: [u128; 10] = [1, 2, 3, 5, 8, 13, 21, 34, 55, 89];
    for e in expected.iter() {
        assert_eq!(g.resume(), GeneratorState::Yielded(*e));
    }
}

#[test]
fn fib_completes_before_overflow_and_stays_complete() {
    let mut g = Fib::new();
    let mut last = 0u128;
    for _ in 0..185 {
        match g.resume() {
            GeneratorState::Yielded(v) => {
                assert!(v > last || last == 0);
                last = v;
            }
            GeneratorState::Complete(_) => panic!("completed too early"),
        }
    }
    // fib(186) is the largest Fibonacci number that fits in a u128.
    assert_eq!(last, 332825110087067562321196029789634457848);
    assert_eq!(g.resume(), GeneratorState::Complete(332825110087067562321196029789634457848));
    assert_eq!(g.resume(), GeneratorState::Complete(332825110087067562321196029789634457848));
}

#[test]
fn fibbers_yields_powers_of_two() {
    let mut g = fibbers();
    let mut expected: i32 = 1;
    let mut count = 0;
    while g.resumable() {
        assert_eq!(g.resume(), expected);
        if count < 29 {
            expected *= 2;
        }
        count += 1;
    }
    assert_eq!(count, 30);
    assert_eq!(expected, 1 << 29);
}
