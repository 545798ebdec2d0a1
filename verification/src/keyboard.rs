use vstd::prelude::*;

verus! {

/// Bytes in the queue of raw keyboard scan codes.
pub const QUEUE_SIZE: usize = 1024;

/// A key of the PC keyboard (scan code set 1).
#[derive(Clone, Copy, PartialEq, Eq, Structural, Debug)]
pub enum Key {
    Unknown,
    Num0,
    Num1,
    Num2,
    Num3,
    Num4,
    Num5,
    Num6,
    Num7,
    Num8,
    Num9,
    A,
    B,
    C,
    D,
    E,
    F,
    G,
    H,
    I,
    J,
    K,
    L,
    M,
    N,
    O,
    P,
    Q,
    R,
    S,
    T,
    U,
    V,
    W,
    X,
    Y,
    Z,
    Minus,
    Plus,
    LeftBracket,
    RightBracket,
    Tab,
    Semicolon,
    Quote,
    Backquote,
    Period,
    Comma,
    Slash,
    Space,
    Backslash,
    Backspace,
    Escape,
    Enter,
    LCtrl,
    LShift,
    RShift,
    LAlt,
}

/// The scan code of a key (its make code; `Unknown` has code 0).
pub open spec fn spec_key_code(k: Key) -> u8 {
    match k {
        Key::Unknown => 0x00u8,
        Key::Num0 => 0x0bu8,
        Key::Num1 => 0x02u8,
        Key::Num2 => 0x03u8,
        Key::Num3 => 0x04u8,
        Key::Num4 => 0x05u8,
        Key::Num5 => 0x06u8,
        Key::Num6 => 0x07u8,
        Key::Num7 => 0x08u8,
        Key::Num8 => 0x09u8,
        Key::Num9 => 0x0au8,
        Key::A => 0x1eu8,
        Key::B => 0x30u8,
        Key::C => 0x2eu8,
        Key::D => 0x20u8,
        Key::E => 0x12u8,
        Key::F => 0x21u8,
        Key::G => 0x22u8,
        Key::H => 0x23u8,
        Key::I => 0x17u8,
        Key::J => 0x24u8,
        Key::K => 0x25u8,
        Key::L => 0x26u8,
        Key::M => 0x32u8,
        Key::N => 0x31u8,
        Key::O => 0x18u8,
        Key::P => 0x19u8,
        Key::Q => 0x10u8,
        Key::R => 0x13u8,
        Key::S => 0x1fu8,
        Key::T => 0x14u8,
        Key::U => 0x16u8,
        Key::V => 0x2fu8,
        Key::W => 0x11u8,
        Key::X => 0x2du8,
        Key::Y => 0x15u8,
        Key::Z => 0x2cu8,
        Key::Minus => 0x0cu8,
        Key::Plus => 0x0du8,
        Key::LeftBracket => 0x1bu8,
        Key::RightBracket => 0x1au8,
        Key::Tab => 0x0fu8,
        Key::Semicolon => 0x27u8,
        Key::Quote => 0x28u8,
        Key::Backquote => 0x29u8,
        Key::Period => 0x34u8,
        Key::Comma => 0x33u8,
        Key::Slash => 0x35u8,
        Key::Space => 0x39u8,
        Key::Backslash => 0x2bu8,
        Key::Backspace => 0x0eu8,
        Key::Escape => 0x01u8,
        Key::Enter => 0x1cu8,
        Key::LCtrl => 0x1du8,
        Key::LShift => 0x2au8,
        Key::RShift => 0x36u8,
        Key::LAlt => 0x38u8,
    }
}

/// The scan code of a key.
pub fn key_code(k: Key) -> (r: u8)
    ensures
        r == spec_key_code(k),
{
    match k {
        Key::Unknown => 0x00u8,
        Key::Num0 => 0x0bu8,
        Key::Num1 => 0x02u8,
        Key::Num2 => 0x03u8,
        Key::Num3 => 0x04u8,
        Key::Num4 => 0x05u8,
        Key::Num5 => 0x06u8,
        Key::Num6 => 0x07u8,
        Key::Num7 => 0x08u8,
        Key::Num8 => 0x09u8,
        Key::Num9 => 0x0au8,
        Key::A => 0x1eu8,
        Key::B => 0x30u8,
        Key::C => 0x2eu8,
        Key::D => 0x20u8,
        Key::E => 0x12u8,
        Key::F => 0x21u8,
        Key::G => 0x22u8,
        Key::H => 0x23u8,
        Key::I => 0x17u8,
        Key::J => 0x24u8,
        Key::K => 0x25u8,
        Key::L => 0x26u8,
        Key::M => 0x32u8,
        Key::N => 0x31u8,
        Key::O => 0x18u8,
        Key::P => 0x19u8,
        Key::Q => 0x10u8,
        Key::R => 0x13u8,
        Key::S => 0x1fu8,
        Key::T => 0x14u8,
        Key::U => 0x16u8,
        Key::V => 0x2fu8,
        Key::W => 0x11u8,
        Key::X => 0x2du8,
        Key::Y => 0x15u8,
        Key::Z => 0x2cu8,
        Key::Minus => 0x0cu8,
        Key::Plus => 0x0du8,
        Key::LeftBracket => 0x1bu8,
        Key::RightBracket => 0x1au8,
        Key::Tab => 0x0fu8,
        Key::Semicolon => 0x27u8,
        Key::Quote => 0x28u8,
        Key::Backquote => 0x29u8,
        Key::Period => 0x34u8,
        Key::Comma => 0x33u8,
        Key::Slash => 0x35u8,
        Key::Space => 0x39u8,
        Key::Backslash => 0x2bu8,
        Key::Backspace => 0x0eu8,
        Key::Escape => 0x01u8,
        Key::Enter => 0x1cu8,
        Key::LCtrl => 0x1du8,
        Key::LShift => 0x2au8,
        Key::RShift => 0x36u8,
        Key::LAlt => 0x38u8,
    }
}

/// Some key other than `Unknown` has scan code `code`.
pub open spec fn is_known_scancode(code: u8) -> bool {
    exists|k: Key| k != Key::Unknown && #[trigger] spec_key_code(k) == code
}

/// The key whose scan code is `scancode`, or `Unknown`.
pub fn scancode_to_key(scancode: u8) -> (r: Key)
    ensures
        is_known_scancode(scancode) ==> spec_key_code(r) == scancode && r != Key::Unknown,
        !is_known_scancode(scancode) ==> r == Key::Unknown,
{
    let r = match scancode {
        0x0b => Key::Num0,
        0x02 => Key::Num1,
        0x03 => Key::Num2,
        0x04 => Key::Num3,
        0x05 => Key::Num4,
        0x06 => Key::Num5,
        0x07 => Key::Num6,
        0x08 => Key::Num7,
        0x09 => Key::Num8,
        0x0a => Key::Num9,
        0x1e => Key::A,
        0x30 => Key::B,
        0x2e => Key::C,
        0x20 => Key::D,
        0x12 => Key::E,
        0x21 => Key::F,
        0x22 => Key::G,
        0x23 => Key::H,
        0x17 => Key::I,
        0x24 => Key::J,
        0x25 => Key::K,
        0x26 => Key::L,
        0x32 => Key::M,
        0x31 => Key::N,
        0x18 => Key::O,
        0x19 => Key::P,
        0x10 => Key::Q,
        0x13 => Key::R,
        0x1f => Key::S,
        0x14 => Key::T,
        0x16 => Key::U,
        0x2f => Key::V,
        0x11 => Key::W,
        0x2d => Key::X,
        0x15 => Key::Y,
        0x2c => Key::Z,
        0x0c => Key::Minus,
        0x0d => Key::Plus,
        0x1b => Key::LeftBracket,
        0x1a => Key::RightBracket,
        0x0f => Key::Tab,
        0x27 => Key::Semicolon,
        0x28 => Key::Quote,
        0x29 => Key::Backquote,
        0x34 => Key::Period,
        0x33 => Key::Comma,
        0x35 => Key::Slash,
        0x39 => Key::Space,
        0x2b => Key::Backslash,
        0x0e => Key::Backspace,
        0x01 => Key::Escape,
        0x1c => Key::Enter,
        0x1d => Key::LCtrl,
        0x2a => Key::LShift,
        0x36 => Key::RShift,
        0x38 => Key::LAlt,
        _ => Key::Unknown,
    };
    proof {
        if r == Key::Unknown {
            assert forall|k: Key| k != Key::Unknown implies #[trigger] spec_key_code(k) != scancode by {
            }
        } else {
            assert(spec_key_code(r) == scancode);
        }
    }
    r
}

/// The character a key types, if any.
pub open spec fn spec_key_to_char(code: Key) -> Option<char> {
    match code {
        Key::Num0 => Some('0'),
        Key::Num1 => Some('1'),
        Key::Num2 => Some('2'),
        Key::Num3 => Some('3'),
        Key::Num4 => Some('4'),
        Key::Num5 => Some('5'),
        Key::Num6 => Some('6'),
        Key::Num7 => Some('7'),
        Key::Num8 => Some('8'),
        Key::Num9 => Some('9'),
        Key::A => Some('a'),
        Key::B => Some('b'),
        Key::C => Some('c'),
        Key::D => Some('d'),
        Key::E => Some('e'),
        Key::F => Some('f'),
        Key::G => Some('g'),
        Key::H => Some('h'),
        Key::I => Some('i'),
        Key::J => Some('j'),
        Key::K => Some('k'),
        Key::L => Some('l'),
        Key::M => Some('m'),
        Key::N => Some('n'),
        Key::O => Some('o'),
        Key::P => Some('p'),
        Key::Q => Some('q'),
        Key::R => Some('r'),
        Key::S => Some('s'),
        Key::T => Some('t'),
        Key::U => Some('u'),
        Key::V => Some('v'),
        Key::W => Some('w'),
        Key::X => Some('x'),
        Key::Y => Some('y'),
        Key::Z => Some('z'),
        Key::Minus => Some('-'),
        Key::Plus => Some('+'),
        Key::LeftBracket => Some(']'),
        Key::RightBracket => Some('['),
        Key::Semicolon => Some(';'),
        Key::Quote => Some('\''),
        Key::Backquote => Some('`'),
        Key::Period => Some('.'),
        Key::Comma => Some(','),
        Key::Slash => Some('/'),
        Key::Space => Some(' '),
        Key::Backslash => Some('\\'),
        _ => None,
    }
}

/// The character a key types, if any.
pub fn key_to_char(code: Key) -> (r: Option<char>)
    ensures
        r == spec_key_to_char(code),
{
    match code {
        Key::Num0 => Some('0'),
        Key::Num1 => Some('1'),
        Key::Num2 => Some('2'),
        Key::Num3 => Some('3'),
        Key::Num4 => Some('4'),
        Key::Num5 => Some('5'),
        Key::Num6 => Some('6'),
        Key::Num7 => Some('7'),
        Key::Num8 => Some('8'),
        Key::Num9 => Some('9'),
        Key::A => Some('a'),
        Key::B => Some('b'),
        Key::C => Some('c'),
        Key::D => Some('d'),
        Key::E => Some('e'),
        Key::F => Some('f'),
        Key::G => Some('g'),
        Key::H => Some('h'),
        Key::I => Some('i'),
        Key::J => Some('j'),
        Key::K => Some('k'),
        Key::L => Some('l'),
        Key::M => Some('m'),
        Key::N => Some('n'),
        Key::O => Some('o'),
        Key::P => Some('p'),
        Key::Q => Some('q'),
        Key::R => Some('r'),
        Key::S => Some('s'),
        Key::T => Some('t'),
        Key::U => Some('u'),
        Key::V => Some('v'),
        Key::W => Some('w'),
        Key::X => Some('x'),
        Key::Y => Some('y'),
        Key::Z => Some('z'),
        Key::Minus => Some('-'),
        Key::Plus => Some('+'),
        Key::LeftBracket => Some(']'),
        Key::RightBracket => Some('['),
        Key::Semicolon => Some(';'),
        Key::Quote => Some('\''),
        Key::Backquote => Some('`'),
        Key::Period => Some('.'),
        Key::Comma => Some(','),
        Key::Slash => Some('/'),
        Key::Space => Some(' '),
        Key::Backslash => Some('\\'),
        _ => None,
    }
}

/// A key event decoded from a raw byte: the key, and whether it was released.
pub open spec fn spec_decode(raw: u8) -> (u8, bool) {
    ((raw % 128) as u8, raw >= 128)
}

/// The ring buffer of raw scan codes that the keyboard interrupt fills.
pub struct KeyQueue {
    queue: Vec<u8>,
    top: usize,
    bottom: usize,
}

impl View for KeyQueue {
    type V = Seq<u8>;

    /// The raw codes waiting, oldest first.
    closed spec fn view(&self) -> Seq<u8> {
        Seq::new(
            ((self.top + QUEUE_SIZE - self.bottom) % (QUEUE_SIZE as int)) as nat,
            |k: int| self.queue@[(self.bottom + k) % (QUEUE_SIZE as int)],
        )
    }
}

impl KeyQueue {
    /// The internal invariant.
    pub closed spec fn wf(&self) -> bool {
        &&& self.queue.len() == QUEUE_SIZE
        &&& self.top < QUEUE_SIZE
        &&& self.bottom < QUEUE_SIZE
    }

    /// An empty queue.
    pub fn new() -> (r: KeyQueue)
        ensures
            r.wf(),
            r@ == Seq::<u8>::empty(),
    {
        let r = KeyQueue { queue: vec![0u8; QUEUE_SIZE], top: 0, bottom: 0 };
        assert(r@ =~= Seq::<u8>::empty());
        r
    }

    /// Records a raw code (what the keyboard interrupt does). When the queue is full
    /// the write wraps and the queue appears empty again.
    pub fn push(&mut self, code: u8)
        requires
            old(self).wf(),
        ensures
            final(self).wf(),
            old(self)@.len() < QUEUE_SIZE - 1 ==> final(self)@ == old(self)@.push(code),
            old(self)@.len() >= QUEUE_SIZE - 1 ==> final(self)@.len() == 0,
    {
        let ghost old_view = self@;
        self.queue.set(self.top, code);
        self.top = (self.top + 1) % QUEUE_SIZE;
        proof {
            if old_view.len() < QUEUE_SIZE - 1 {
                assert forall|k: int| 0 <= k < old_view.len() implies self@[k] == old_view[k] by {
                    assert((old(self).bottom + k) % (QUEUE_SIZE as int) != old(self).top);
                }
                assert(self@[old_view.len() as int] == code);
                assert(self@ =~= old_view.push(code));
            }
        }
    }

    /// Takes the oldest raw code and decodes it: the key, and whether it was released.
    pub fn get_key_event(&mut self) -> (r: Option<(Key, bool)>)
        requires
            old(self).wf(),
        ensures
            final(self).wf(),
            old(self)@.len() == 0 ==> r is None && final(self)@ == old(self)@,
            old(self)@.len() > 0 ==> final(self)@ == old(self)@.drop_first() && r is Some,
            r matches Some((k, up)) ==> {
                let (code, released) = spec_decode(old(self)@[0]);
                &&& up == released
                &&& is_known_scancode(code) ==> spec_key_code(k) == code
                &&& !is_known_scancode(code) ==> k == Key::Unknown
            },
    {
        if self.top == self.bottom {
            return None;
        }
        let ghost old_view = self@;
        let res = self.queue[self.bottom];
        self.bottom = (self.bottom + 1) % QUEUE_SIZE;
        let code = res & 0x7F;
        let up = (res & 0x80) != 0;
        assert(code == res % 128 && up == (res >= 128)) by (bit_vector)
            requires
                code == res & 0x7F,
                up == ((res & 0x80) != 0),
        ;
        let key = scancode_to_key(code);
        proof {
            assert(self@ =~= old_view.drop_first());
        }
        Some((key, up))
    }
}

/// The letter keys in the order of the alphabet.
pub open spec fn letter_keys() -> Seq<Key> {
    seq![Key::A, Key::B, Key::C, Key::D, Key::E, Key::F, Key::G, Key::H, Key::I, Key::J, Key::K, Key::L, Key::M, Key::N, Key::O, Key::P, Key::Q, Key::R, Key::S, Key::T, Key::U, Key::V, Key::W, Key::X, Key::Y, Key::Z]
}

/// The digit keys, from zero to nine.
pub open spec fn digit_keys() -> Seq<Key> {
    seq![Key::Num0, Key::Num1, Key::Num2, Key::Num3, Key::Num4, Key::Num5, Key::Num6, Key::Num7, Key::Num8, Key::Num9]
}

/// Each letter key types its own lower-case letter: the `i`-th key of the alphabet
/// types the character `'a' + i`.
pub proof fn lemma_letter_keys_type_their_letter()
    ensures
        forall|i: int| 0 <= i < 26 ==> #[trigger] spec_key_to_char(letter_keys()[i]) == Some((97 + i) as char),
{
    assert forall|i: int| 0 <= i < 26 implies #[trigger] spec_key_to_char(letter_keys()[i]) == Some((97 + i) as char) by {
        assert(i == 0 || i == 1 || i == 2 || i == 3 || i == 4 || i == 5 || i == 6 || i == 7 || i == 8 || i == 9 || i == 10 || i == 11 || i == 12 || i == 13 || i == 14 || i == 15 || i == 16 || i == 17 || i == 18 || i == 19 || i == 20 || i == 21 || i == 22 || i == 23 || i == 24 || i == 25);
    }
}

/// Each digit key types its own digit: key `i` types the character `'0' + i`.
pub proof fn lemma_digit_keys_type_their_digit()
    ensures
        forall|i: int| 0 <= i < 10 ==> #[trigger] spec_key_to_char(digit_keys()[i]) == Some((48 + i) as char),
{
    assert forall|i: int| 0 <= i < 10 implies #[trigger] spec_key_to_char(digit_keys()[i]) == Some((48 + i) as char) by {
        assert(i == 0 || i == 1 || i == 2 || i == 3 || i == 4 || i == 5 || i == 6 || i == 7 || i == 8 || i == 9);
    }
}

/// No two keys type the same character.
pub proof fn lemma_key_to_char_injective(a: Key, b: Key)
    requires
        spec_key_to_char(a) is Some,
        spec_key_to_char(a) == spec_key_to_char(b),
    ensures
        a == b,
{
}

/// The keys of the number row of a US keyboard, left to right.
pub open spec fn number_row_keys() -> Seq<Key> {
    seq![Key::Num1, Key::Num2, Key::Num3, Key::Num4, Key::Num5, Key::Num6, Key::Num7, Key::Num8, Key::Num9, Key::Num0]
}

/// Scan codes of the number row, left to right, run up from 0x02.
pub proof fn lemma_scan_code_digit_row()
    ensures
        forall|i: int| 0 <= i < 10 ==> #[trigger] spec_key_code(number_row_keys()[i]) == 0x02 + i,
{
    assert forall|i: int| 0 <= i < 10 implies #[trigger] spec_key_code(number_row_keys()[i]) == 0x02 + i by {
        assert(i == 0 || i == 1 || i == 2 || i == 3 || i == 4 || i == 5 || i == 6 || i == 7 || i == 8 || i == 9);
    }
}

/// The keys of the top letter row of a US keyboard, left to right.
pub open spec fn top_row_keys() -> Seq<Key> {
    seq![Key::Q, Key::W, Key::E, Key::R, Key::T, Key::Y, Key::U, Key::I, Key::O, Key::P]
}

/// Scan codes of the top letter row, left to right, run up from 0x10.
pub proof fn lemma_scan_code_top_row()
    ensures
        forall|i: int| 0 <= i < 10 ==> #[trigger] spec_key_code(top_row_keys()[i]) == 0x10 + i,
{
    assert forall|i: int| 0 <= i < 10 implies #[trigger] spec_key_code(top_row_keys()[i]) == 0x10 + i by {
        assert(i == 0 || i == 1 || i == 2 || i == 3 || i == 4 || i == 5 || i == 6 || i == 7 || i == 8 || i == 9);
    }
}

/// The keys of the home row of a US keyboard, left to right.
pub open spec fn home_row_keys() -> Seq<Key> {
    seq![Key::A, Key::S, Key::D, Key::F, Key::G, Key::H, Key::J, Key::K, Key::L]
}

/// Scan codes of the home row, left to right, run up from 0x1e.
pub proof fn lemma_scan_code_home_row()
    ensures
        forall|i: int| 0 <= i < 9 ==> #[trigger] spec_key_code(home_row_keys()[i]) == 0x1e + i,
{
    assert forall|i: int| 0 <= i < 9 implies #[trigger] spec_key_code(home_row_keys()[i]) == 0x1e + i by {
        assert(i == 0 || i == 1 || i == 2 || i == 3 || i == 4 || i == 5 || i == 6 || i == 7 || i == 8);
    }
}

/// The keys of the bottom letter row of a US keyboard, left to right.
pub open spec fn bottom_row_keys() -> Seq<Key> {
    seq![Key::Z, Key::X, Key::C, Key::V, Key::B, Key::N, Key::M]
}

/// Scan codes of the bottom letter row, left to right, run up from 0x2c.
pub proof fn lemma_scan_code_bottom_row()
    ensures
        forall|i: int| 0 <= i < 7 ==> #[trigger] spec_key_code(bottom_row_keys()[i]) == 0x2c + i,
{
    assert forall|i: int| 0 <= i < 7 implies #[trigger] spec_key_code(bottom_row_keys()[i]) == 0x2c + i by {
        assert(i == 0 || i == 1 || i == 2 || i == 3 || i == 4 || i == 5 || i == 6);
    }
}

/// No two keys have the same scan code.
pub proof fn lemma_key_code_injective(a: Key, b: Key)
    requires
        spec_key_code(a) == spec_key_code(b),
    ensures
        a == b,
{
}

} // verus!
