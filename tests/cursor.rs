use fsm::{State, StateDescriptor, StateFlip};

#[derive(Debug, Clone, Copy, PartialEq, PartialOrd)]
enum Coin {
    Heads,
    Tails,
}

impl StateDescriptor for Coin {
    const MAX: u8 = 2;
}

impl State for Coin {}

impl StateFlip for Coin {}

impl From<Coin> for u8 {
    fn from(state: Coin) -> u8 {
        match state {
            Coin::Heads => 0,
            Coin::Tails => 1,
        }
    }
}

impl TryFrom<u8> for Coin {
    type Error = ();
    fn try_from(d: u8) -> Result<Self, Self::Error> {
        match d {
            0 => Ok(Coin::Heads),
            1 => Ok(Coin::Tails),
            _ => Err(()),
        }
    }
}

#[derive(Debug, Clone, Copy, PartialEq, PartialOrd)]
enum Letter {
    A,
    B,
    C,
    D,
    E,
}

impl StateDescriptor for Letter {
    const MAX: u8 = 5;
}

impl State for Letter {}

impl From<Letter> for u8 {
    fn from(state: Letter) -> u8 {
        match state {
            Letter::A => 0,
            Letter::B => 1,
            Letter::C => 2,
            Letter::D => 3,
            Letter::E => 4,
        }
    }
}

impl TryFrom<u8> for Letter {
    type Error = ();
    fn try_from(d: u8) -> Result<Self, Self::Error> {
        match d {
            0 => Ok(Letter::A),
            1 => Ok(Letter::B),
            2 => Ok(Letter::C),
            3 => Ok(Letter::D),
            4 => Ok(Letter::E),
            _ => Err(()),
        }
    }
}

#[derive(Debug, Clone, Copy, PartialEq, PartialOrd)]
enum Only {
    One,
}

impl StateDescriptor for Only {
    const MAX: u8 = 1;
}

impl State for Only {}

impl From<Only> for u8 {
    fn from(_state: Only) -> u8 {
        0
    }
}

impl TryFrom<u8> for Only {
    type Error = ();
    fn try_from(d: u8) -> Result<Self, Self::Error> {
        match d {
            0 => Ok(Only::One),
            _ => Err(()),
        }
    }
}

const ALL: [Letter; 5] = [Letter::A, Letter::B, Letter::C, Letter::D, Letter::E];

#[test]
fn two_state() {
    assert_eq!(Coin::len(), 2);

    let mut state = Coin::start();
    assert_eq!(state, Coin::Heads);
    assert_eq!(state.flip(), Coin::Heads);
    assert_eq!(state, Coin::Tails);
    assert_eq!(state.flip(), Coin::Tails);
    assert_eq!(state, Coin::Heads);
}

#[test]
fn len_start_end() {
    assert_eq!(Letter::len(), 5);
    assert_eq!(Letter::start(), Letter::A);
    assert_eq!(u8::from(Letter::start()), 0);
    assert_eq!(Letter::end(), Letter::E);
    assert_eq!(u8::from(Letter::end()), 4);
    assert_eq!(Only::len(), 1);
    assert_eq!(Only::start(), Only::One);
    assert_eq!(Only::end(), Only::One);
}

#[test]
fn from_index_in_and_out_of_range() {
    assert_eq!(Letter::from_index(0), Some(Letter::A));
    assert_eq!(Letter::from_index(3), Some(Letter::D));
    assert_eq!(Letter::from_index(4), Some(Letter::E));
    assert_eq!(Letter::from_index(5), None);
    assert_eq!(Letter::from_index(255), None);
    assert_eq!(Coin::from_index(2), None);
}

#[test]
fn steps_return_prior_state() {
    let mut s = Letter::B;
    assert_eq!(s.next(), Letter::B);
    assert_eq!(s, Letter::C);
    assert_eq!(s.previous(), Letter::C);
    assert_eq!(s, Letter::B);
    assert_eq!(s.goto(Letter::E), Letter::B);
    assert_eq!(s, Letter::E);
    assert_eq!(s.goto(Letter::E), Letter::E);
    assert_eq!(s, Letter::E);
}

#[test]
fn wraparound_both_ways() {
    let mut s = Letter::end();
    assert_eq!(s.next(), Letter::E);
    assert_eq!(s, Letter::start());

    let mut s = Letter::start();
    assert_eq!(s.previous(), Letter::A);
    assert_eq!(s, Letter::end());

    let mut one = Only::One;
    assert_eq!(one.next(), Only::One);
    assert_eq!(one, Only::One);
    assert_eq!(one.previous(), Only::One);
    assert_eq!(one, Only::One);
}

#[test]
fn next_then_previous_round_trip() {
    for start in ALL {
        for k in 0..13 {
            let mut s = start;
            for _ in 0..k {
                s.next();
            }
            for _ in 0..k {
                s.previous();
            }
            assert_eq!(s, start);
            for _ in 0..k {
                s.previous();
            }
            for _ in 0..k {
                s.next();
            }
            assert_eq!(s, start);
        }
    }
}

#[test]
fn next_walks_in_order() {
    let mut s = Letter::C;
    let mut seen = Vec::new();
    for _ in 0..7 {
        seen.push(s.next());
    }
    assert_eq!(
        seen,
        vec![Letter::C, Letter::D, Letter::E, Letter::A, Letter::B, Letter::C, Letter::D]
    );
    assert_eq!(s, Letter::E);
}

#[test]
fn flip_alternates() {
    let mut state = Coin::start();
    let mut seen = Vec::new();
    for _ in 0..6 {
        seen.push(state.flip());
    }
    assert_eq!(
        seen,
        vec![Coin::Heads, Coin::Tails, Coin::Heads, Coin::Tails, Coin::Heads, Coin::Tails]
    );
    let mut a = Coin::Tails;
    let mut b = Coin::Tails;
    assert_eq!(a.flip(), b.next());
    assert_eq!(a, b);
    assert_eq!(a, Coin::Heads);
}

#[test]
fn five_letters_from_c() {
    let mut forward = Letter::C.into_iter_once();
    let mut yielded = Vec::new();
    let mut advanced_to = Vec::new();
    let mut cursor = Letter::C;
    while let Some(x) = forward.next() {
        yielded.push(x);
        cursor.next();
        advanced_to.push(cursor);
    }
    assert_eq!(yielded, vec![Letter::C, Letter::D, Letter::E]);
    assert_eq!(advanced_to, vec![Letter::D, Letter::E, Letter::A]);

    let mut backward = Letter::E.into_iter_once();
    let mut yielded = Vec::new();
    let mut advanced_to = Vec::new();
    let mut cursor = Letter::E;
    while let Some(x) = backward.next_back() {
        yielded.push(x);
        cursor.previous();
        advanced_to.push(cursor);
    }
    assert_eq!(yielded, vec![Letter::E, Letter::D, Letter::C, Letter::B, Letter::A]);
    assert_eq!(advanced_to, vec![Letter::D, Letter::C, Letter::B, Letter::A, Letter::E]);
}
