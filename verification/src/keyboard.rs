//! The sixteen-key keyboard snapshot.
//!
//! Each logical key is in one of three states: pressed, released this
//! frame, or never touched.  The embedding application injects press and
//! release events and clears the released state between frames; the engine
//! only ever polls the snapshot.

use vstd::prelude::*;

verus! {

/// The per-frame state of one key.
#[derive(Clone, Copy, Debug, PartialEq, Eq, Structural)]
pub enum KeyEventKind {
    KeyRelease,
    KeyPress,
    KeyDefault,
}

/// One of the sixteen logical CHIP-8 keys.
///
/// The variant order fixes each key's code: `A` through `F` are codes 0
/// through 5, `Zero` through `Nine` are codes 6 through 15.
#[derive(Clone, Copy, Debug)]
pub enum Key {
    A,
    B,
    C,
    D,
    E,
    F,
    Zero,
    One,
    Two,
    Three,
    Four,
    Five,
    Six,
    Seven,
    Eight,
    Nine,
}

impl Key {
    /// The code of this key, between 0 and 15.
    pub open spec fn spec_code(self) -> u8 {
        match self {
            Key::A => 0,
            Key::B => 1,
            Key::C => 2,
            Key::D => 3,
            Key::E => 4,
            Key::F => 5,
            Key::Zero => 6,
            Key::One => 7,
            Key::Two => 8,
            Key::Three => 9,
            Key::Four => 10,
            Key::Five => 11,
            Key::Six => 12,
            Key::Seven => 13,
            Key::Eight => 14,
            Key::Nine => 15,
        }
    }

    /// The key with the given code, or `None` for a code above 15.
    pub fn from_byte(byte: u8) -> (r: Option<Self>)
        ensures
            byte < 16 ==> (r matches Some(k) && k.spec_code() == byte),
            byte >= 16 ==> r is None,
    {
        match byte {
            0 => Some(Key::A),
            1 => Some(Key::B),
            2 => Some(Key::C),
            3 => Some(Key::D),
            4 => Some(Key::E),
            5 => Some(Key::F),
            6 => Some(Key::Zero),
            7 => Some(Key::One),
            8 => Some(Key::Two),
            9 => Some(Key::Three),
            10 => Some(Key::Four),
            11 => Some(Key::Five),
            12 => Some(Key::Six),
            13 => Some(Key::Seven),
            14 => Some(Key::Eight),
            15 => Some(Key::Nine),
            _ => None,
        }
    }

    pub fn into_byte(&self) -> (r: u8)
        ensures
            r == self.spec_code(),
            r < 16,
    {
        match self {
            Key::A => 0,
            Key::B => 1,
            Key::C => 2,
            Key::D => 3,
            Key::E => 4,
            Key::F => 5,
            Key::Zero => 6,
            Key::One => 7,
            Key::Two => 8,
            Key::Three => 9,
            Key::Four => 10,
            Key::Five => 11,
            Key::Six => 12,
            Key::Seven => 13,
            Key::Eight => 14,
            Key::Nine => 15,
        }
    }
}

/// A key together with the state it is moved to.
#[derive(Clone, Copy, Debug)]
pub struct KeyEvent {
    pub key: Key,
    pub kind: KeyEventKind,
}

impl KeyEvent {
    pub fn new(key: Key, kind: KeyEventKind) -> (r: Self)
        ensures
            r.key == key,
            r.kind == kind,
    {
        KeyEvent { key, kind }
    }

    /// An event for the key coded by the low nibble of `keys`.
    pub fn from_keyd(keys: u8, kind: KeyEventKind) -> (r: Self)
        ensures
            r.key.spec_code() == keys % 16,
            r.kind == kind,
    {
        let code = keys % 16;
        let key = Key::from_byte(code);
        match key {
            Some(k) => KeyEvent { key: k, kind },
            None => KeyEvent { key: Key::A, kind },  // unreachable: code < 16
        }
    }

    /// An event from raw bytes: `kind` 0 presses the key, anything else
    /// releases it.
    pub fn raw(keys: u8, kind: u8) -> (r: Self)
        ensures
            r.key.spec_code() == keys % 16,
            r.kind == (if kind == 0 {
                KeyEventKind::KeyPress
            } else {
                KeyEventKind::KeyRelease
            }),
    {
        Self::from_keyd(
            keys % 16,
            if kind == 0 {
                KeyEventKind::KeyPress
            } else {
                KeyEventKind::KeyRelease
            },
        )
    }
}

/// The states of the sixteen keys, indexed by key code.
#[derive(Clone, Copy)]
pub struct Keyboard([KeyEventKind; 16]);

/// The key codes in `keys` at or above position `n`, in increasing order,
/// whose state matches the selected kinds.
pub open spec fn codes_with(
    keys: Seq<KeyEventKind>,
    n: int,
    press: bool,
    release: bool,
    default: bool,
) -> Seq<u8>
    decreases 16 - n,
{
    if n < 0 || n >= 16 {
        Seq::empty()
    } else {
        let rest = codes_with(keys, n + 1, press, release, default);
        let here = match keys[n] {
            KeyEventKind::KeyPress => press,
            KeyEventKind::KeyRelease => release,
            KeyEventKind::KeyDefault => default,
        };
        if here {
            seq![n as u8] + rest
        } else {
            rest
        }
    }
}

/// The states of `keys` after applying each event of `evs` in order.
pub open spec fn apply_events(keys: Seq<KeyEventKind>, evs: Seq<KeyEvent>) -> Seq<KeyEventKind>
    decreases evs.len(),
{
    if evs.len() == 0 {
        keys
    } else {
        apply_events(
            keys.update(evs[0].key.spec_code() as int, evs[0].kind),
            evs.drop_first(),
        )
    }
}

impl Keyboard {
    /// The state of each key, indexed by key code.
    pub closed spec fn spec_keys(&self) -> Seq<KeyEventKind> {
        self.0@
    }

    /// A keyboard with every key never touched.
    pub fn new() -> (r: Self)
        ensures
            r.spec_keys().len() == 16,
            forall|i: int| 0 <= i < 16 ==> r.spec_keys()[i] == KeyEventKind::KeyDefault,
    {
        Self(
            [
                KeyEventKind::KeyDefault,
                KeyEventKind::KeyDefault,
                KeyEventKind::KeyDefault,
                KeyEventKind::KeyDefault,
                KeyEventKind::KeyDefault,
                KeyEventKind::KeyDefault,
                KeyEventKind::KeyDefault,
                KeyEventKind::KeyDefault,
                KeyEventKind::KeyDefault,
                KeyEventKind::KeyDefault,
                KeyEventKind::KeyDefault,
                KeyEventKind::KeyDefault,
                KeyEventKind::KeyDefault,
                KeyEventKind::KeyDefault,
                KeyEventKind::KeyDefault,
                KeyEventKind::KeyDefault,
            ],
        )
    }

    /// Move one key to the state carried by the event.
    pub fn action(&mut self, event: KeyEvent)
        ensures
            final(self).spec_keys() == old(self).spec_keys().update(
                event.key.spec_code() as int,
                event.kind,
            ),
    {
        let idx = event.key.into_byte();
        self.0[idx as usize] = event.kind;
    }

    /// Apply a batch of events in order.
    pub fn commit(&mut self, events: &[KeyEvent])
        ensures
            final(self).spec_keys() == apply_events(old(self).spec_keys(), events@),
    {
        let n = events.len();
        let mut i: usize = 0;
        proof {
            assert(events@.skip(0) =~= events@);
        }
        while i < n
            invariant
                i <= n,
                n == events@.len(),
                apply_events(old(self).spec_keys(), events@) == apply_events(
                    self.spec_keys(),
                    events@.skip(i as int),
                ),
            decreases n - i,
        {
            proof {
                assert(events@.skip(i as int)[0] == events@[i as int]);
                assert(events@.skip(i as int).drop_first() =~= events@.skip(i as int + 1));
            }
            self.action(events[i]);
            i = i + 1;
        }
        proof {
            assert(events@.skip(n as int) =~= Seq::<KeyEvent>::empty());
        }
    }

    /// Press one key.
    pub fn press(&mut self, key: Key)
        ensures
            final(self).spec_keys() == old(self).spec_keys().update(
                key.spec_code() as int,
                KeyEventKind::KeyPress,
            ),
    {
        self.action(KeyEvent::new(key, KeyEventKind::KeyPress))
    }

    /// Release one key.
    pub fn release(&mut self, key: Key)
        ensures
            final(self).spec_keys() == old(self).spec_keys().update(
                key.spec_code() as int,
                KeyEventKind::KeyRelease,
            ),
    {
        self.action(KeyEvent::new(key, KeyEventKind::KeyRelease))
    }

    pub fn is_pressed(&self, key: Key) -> (r: bool)
        ensures
            r == (self.spec_keys()[key.spec_code() as int] is KeyPress),
    {
        self.0[key.into_byte() as usize] == KeyEventKind::KeyPress
    }

    /// True when the key was released this frame and not yet reset.
    pub fn is_currenly_released(&self, key: Key) -> (r: bool)
        ensures
            r == (self.spec_keys()[key.spec_code() as int] is KeyRelease),
    {
        self.0[key.into_byte() as usize] == KeyEventKind::KeyRelease
    }

    /// True when the key is not pressed, whether idle or just released.
    pub fn is_released(&self, key: Key) -> (r: bool)
        ensures
            r == !(self.spec_keys()[key.spec_code() as int] is KeyPress),
    {
        match self.0[key.into_byte() as usize] {
            KeyEventKind::KeyRelease | KeyEventKind::KeyDefault => true,
            _ => false,
        }
    }

    /// One event per key, reporting its current state, in code order.
    pub fn all_events(&self) -> (r: Vec<KeyEvent>)
        ensures
            r@.len() == 16,
            forall|i: int|
                0 <= i < 16 ==> (#[trigger] r@[i]).key.spec_code() == i && r@[i].kind
                    == self.spec_keys()[i],
    {
        let r = self.events_with(true, true, true);
        proof {
            lemma_codes_with_all(self.spec_keys(), 0);
            assert forall|i: int|
                0 <= i < 16 implies (#[trigger] r@[i]).key.spec_code() == i && r@[i].kind
                == self.spec_keys()[i] by {
                assert(r@.map_values(|e: KeyEvent| e.key.spec_code())[i] == r@[i].key.spec_code());
                assert(codes_with(self.spec_keys(), 0, true, true, true)[i] == i as u8);
            }
        }
        r
    }

    /// The currently pressed keys, in code order.
    pub fn all_pressed(&self) -> (r: Vec<KeyEvent>)
        ensures
            r@.map_values(|e: KeyEvent| e.key.spec_code()) == codes_with(
                self.spec_keys(),
                0,
                true,
                false,
                false,
            ),
            forall|i: int| 0 <= i < r@.len() ==> (#[trigger] r@[i]).kind is KeyPress,
    {
        self.events_with(true, false, false)
    }

    /// The keys released this frame, in code order.
    pub fn all_currenly_released(&self) -> (r: Vec<KeyEvent>)
        ensures
            r@.map_values(|e: KeyEvent| e.key.spec_code()) == codes_with(
                self.spec_keys(),
                0,
                false,
                true,
                false,
            ),
    {
        self.events_with(false, true, false)
    }

    /// Every key that is not pressed, in code order.
    pub fn all_released(&self) -> (r: Vec<KeyEvent>)
        ensures
            r@.map_values(|e: KeyEvent| e.key.spec_code()) == codes_with(
                self.spec_keys(),
                0,
                false,
                true,
                true,
            ),
    {
        self.events_with(false, true, true)
    }

    /// The keys whose state matches the selected kinds, in code order,
    /// each paired with that state.
    fn events_with(&self, press: bool, release: bool, default: bool) -> (r: Vec<KeyEvent>)
        ensures
            r@.map_values(|e: KeyEvent| e.key.spec_code()) == codes_with(
                self.spec_keys(),
                0,
                press,
                release,
                default,
            ),
            forall|i: int|
                0 <= i < r@.len() ==> (#[trigger] r@[i]).kind == self.spec_keys()[r@[i].key.spec_code() as int],
            forall|i: int|
                0 <= i < r@.len() ==> (match (#[trigger] r@[i]).kind {
                    KeyEventKind::KeyPress => press,
                    KeyEventKind::KeyRelease => release,
                    KeyEventKind::KeyDefault => default,
                }),
    {
        let mut r: Vec<KeyEvent> = Vec::new();
        let mut i: usize = 0;
        proof {
            assert(r@.map_values(|e: KeyEvent| e.key.spec_code()) + codes_with(
                self.spec_keys(),
                0,
                press,
                release,
                default,
            ) =~= codes_with(self.spec_keys(), 0, press, release, default));
        }
        while i < 16
            invariant
                i <= 16,
                codes_with(self.spec_keys(), 0, press, release, default) == r@.map_values(
                    |e: KeyEvent| e.key.spec_code(),
                ) + codes_with(self.spec_keys(), i as int, press, release, default),
                forall|j: int|
                    0 <= j < r@.len() ==> (#[trigger] r@[j]).kind == self.spec_keys()[r@[j].key.spec_code() as int],
                forall|j: int|
                    0 <= j < r@.len() ==> (match (#[trigger] r@[j]).kind {
                        KeyEventKind::KeyPress => press,
                        KeyEventKind::KeyRelease => release,
                        KeyEventKind::KeyDefault => default,
                    }),
            decreases 16 - i,
        {
            let kind = self.0[i];
            let take = match kind {
                KeyEventKind::KeyPress => press,
                KeyEventKind::KeyRelease => release,
                KeyEventKind::KeyDefault => default,
            };
            if take {
                let ev = KeyEvent::from_keyd(i as u8, kind);
                let ghost r_before = r@;
                r.push(ev);
                proof {
                    assert(r@.map_values(|e: KeyEvent| e.key.spec_code()) =~= r_before.map_values(
                        |e: KeyEvent| e.key.spec_code(),
                    ) + seq![(i as u8)]);
                }
            }
            i = i + 1;
        }
        proof {
            assert(codes_with(self.spec_keys(), 16, press, release, default) =~= Seq::<
                u8,
            >::empty());
            assert(r@.map_values(|e: KeyEvent| e.key.spec_code()) =~= r@.map_values(
                |e: KeyEvent| e.key.spec_code(),
            ) + Seq::<u8>::empty());
        }
        r
    }

    /// The lowest-coded pressed key, if any key is pressed.
    pub fn first_pressed(&self) -> (r: Option<KeyEvent>)
        ensures
            match r {
                Some(ev) => ev.kind is KeyPress && self.spec_keys()[ev.key.spec_code() as int]
                    is KeyPress && (forall|j: int|
                    0 <= j < ev.spec_code_int() ==> !(self.spec_keys()[j] is KeyPress)),
                None => forall|j: int| 0 <= j < 16 ==> !(self.spec_keys()[j] is KeyPress),
            },
    {
        let mut i: usize = 0;
        while i < 16
            invariant
                i <= 16,
                forall|j: int| 0 <= j < i ==> !(self.spec_keys()[j] is KeyPress),
            decreases 16 - i,
        {
            if self.0[i] == KeyEventKind::KeyPress {
                return Some(KeyEvent::from_keyd(i as u8, KeyEventKind::KeyPress));
            }
            i = i + 1;
        }
        None
    }

    /// Forget the keys released this frame, keeping pressed keys pressed.
    pub fn reset(&mut self)
        ensures
            final(self).spec_keys().len() == 16,
            forall|i: int|
                0 <= i < 16 ==> final(self).spec_keys()[i] == (if old(self).spec_keys()[i]
                    is KeyRelease {
                    KeyEventKind::KeyDefault
                } else {
                    old(self).spec_keys()[i]
                }),
    {
        let mut i: usize = 0;
        while i < 16
            invariant
                i <= 16,
                self.spec_keys().len() == 16,
                forall|j: int|
                    i <= j < 16 ==> self.spec_keys()[j] == old(self).spec_keys()[j],
                forall|j: int|
                    0 <= j < i ==> self.spec_keys()[j] == (if old(self).spec_keys()[j]
                        is KeyRelease {
                        KeyEventKind::KeyDefault
                    } else {
                        old(self).spec_keys()[j]
                    }),
            decreases 16 - i,
        {
            if self.0[i] == KeyEventKind::KeyRelease {
                self.0[i] = KeyEventKind::KeyDefault;
            }
            i = i + 1;
        }
    }
}

impl KeyEvent {
    /// The event's key code as a mathematical integer.
    pub open spec fn spec_code_int(&self) -> int {
        self.key.spec_code() as int
    }
}

/// With every state selected, `codes_with` lists every code in order.
proof fn lemma_codes_with_all(keys: Seq<KeyEventKind>, n: int)
    requires
        0 <= n <= 16,
    ensures
        codes_with(keys, n, true, true, true) =~= Seq::new(
            (16 - n) as nat,
            |j: int| (n + j) as u8,
        ),
    decreases 16 - n,
{
    if n < 16 {
        lemma_codes_with_all(keys, n + 1);
    }
}

} // verus!
