//! The serial console's output encoding. The writer collects the bytes that
//! the 8250 UART is to send; whoever owns the port sends them.
use vstd::prelude::*;
use vstd::string::StringSliceAdditionalSpecFns;

verus! {

/// The console's code for the backspace key.
pub const BACKSPACE: i32 = 0x100;

/// The byte that moves the cursor back one place.
pub const BACKSCHAR: u8 = 0x08;

/// The byte that the port sends in place of one that it cannot show.
pub const REPLACEMENT: u8 = 0x3f;

/// The escape sequence that clears a terminal and homes its cursor.
pub open spec fn clear_sequence() -> Seq<u8> {
    seq![27u8, 0x5bu8, 0x32u8, 0x4au8, 27u8, 0x5bu8, 0x48u8]
}

/// A byte that the terminal shows as it is: printable ASCII, or a newline.
pub open spec fn printable(b: u8) -> bool {
    (0x20 <= b && b <= 0x7e) || b == 0x0a
}

/// The byte that the port sends for `b`.
pub open spec fn line_byte(b: u8) -> u8 {
    if printable(b) {
        b
    } else {
        REPLACEMENT
    }
}

/// The bytes that the port sends for a character code: for backspace, the
/// backspace byte, a space and the backspace byte again, each as the port
/// sends it; otherwise the code's low byte.
pub open spec fn char_bytes(ch: i32) -> Seq<u8> {
    if ch == BACKSPACE {
        seq![line_byte(BACKSCHAR), line_byte(0x20u8), line_byte(BACKSCHAR)]
    } else {
        seq![line_byte(#[verifier::truncate] (ch as u8))]
    }
}

/// The bytes that the port sends for a string's bytes.
pub open spec fn string_bytes(s: Seq<u8>) -> Seq<u8> {
    s.map_values(|b: u8| line_byte(b))
}

/// Collects the bytes for the serial port, oldest first.
pub struct UartWriter {
    pending: Vec<u8>,
}

impl View for UartWriter {
    type V = Seq<u8>;

    /// The bytes written and not yet taken.
    closed spec fn view(&self) -> Seq<u8> {
        self.pending@
    }
}

impl UartWriter {
    pub fn new() -> (r: UartWriter)
        ensures
            r@ == Seq::<u8>::empty(),
    {
        UartWriter { pending: Vec::new() }
    }

    /// Writes a character code: backspace erases the previous character.
    pub fn write_char(&mut self, ch: i32)
        ensures
            final(self)@ == old(self)@ + char_bytes(ch),
    {
        if ch == BACKSPACE {
            self.write_byte(BACKSCHAR);
            self.write_byte(0x20);
            self.write_byte(BACKSCHAR);
            assert(self@ =~= old(self)@ + char_bytes(ch));
        } else {
            self.write_byte(#[verifier::truncate] (ch as u8));
            assert(self@ =~= old(self)@ + char_bytes(ch));
        }
    }

    /// Writes one byte, replaced when the terminal cannot show it.
    fn write_byte(&mut self, byte: u8)
        ensures
            final(self)@ == old(self)@.push(line_byte(byte)),
    {
        if (0x20 <= byte && byte <= 0x7e) || byte == 0x0a {
            self.pending.push(byte);
        } else {
            self.pending.push(REPLACEMENT);
        }
    }

    /// Writes the bytes of a string.
    pub fn write_string(&mut self, s: &str)
        ensures
            final(self)@ == old(self)@ + string_bytes(s.spec_bytes()),
    {
        let bytes = s.as_bytes();
        let mut i: usize = 0;
        while i < bytes.len()
            invariant
                i <= bytes@.len(),
                bytes@ == s.spec_bytes(),
                self@ == old(self)@ + string_bytes(bytes@.take(i as int)),
            decreases bytes@.len() - i,
        {
            let byte = bytes[i];
            if (0x20 <= byte && byte <= 0x7e) || byte == 0x0a {
                self.write_char(byte as i32);
            } else {
                self.write_byte(0xfe);
            }
            proof {
                assert(bytes@.take(i + 1) == bytes@.take(i as int).push(byte));
                assert(string_bytes(bytes@.take(i + 1)) =~= string_bytes(bytes@.take(i as int)).push(
                    line_byte(byte),
                ));
            }
            i = i + 1;
        }
        assert(bytes@.take(i as int) == bytes@);
    }

    /// Clears the terminal and homes its cursor.
    pub fn clear_screen(&mut self)
        ensures
            final(self)@ == old(self)@ + clear_sequence(),
    {
        self.pending.push(27);
        self.pending.push(0x5b);
        self.pending.push(0x32);
        self.pending.push(0x4a);
        self.pending.push(27);
        self.pending.push(0x5b);
        self.pending.push(0x48);
        assert(self@ =~= old(self)@ + clear_sequence());
    }

    /// Hands over the collected bytes, oldest first, and forgets them.
    pub fn take_output(&mut self) -> (r: Vec<u8>)
        ensures
            r@ == old(self)@,
            final(self)@ == Seq::<u8>::empty(),
    {
        let mut out: Vec<u8> = Vec::new();
        std::mem::swap(&mut out, &mut self.pending);
        out
    }
}

} // verus!
