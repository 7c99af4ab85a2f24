//! Serial ports: how a 16550 UART is set up, the bytes it is sent for what is written to it,
//! and the lines the kernel's logger writes to it.

use vstd::prelude::*;
use vstd::string::{StringExecFns, StringSliceAdditionalSpecFns, StrSliceExecFns};

use crate::log::LogLevel;

verus! {

/// The I/O port of the first serial port.
pub const COM1_PORT: u16 = 0x3F8;
/// The I/O port of the second serial port.
pub const COM2_PORT: u16 = 0x2F8;

pub const INTERRUPT_ENABLE_REGISTER: u16 = 1;
pub const FIFO_CONTROL_REGISTER: u16 = 2;
pub const LINE_CONTROL_REGISTER: u16 = 3;
pub const MODEM_CONTROL_REGISTER: u16 = 4;
pub const LINE_STATUS_REGISTER: u16 = 5;

/// The line status bit that says the transmitter can take a byte.
pub const LINE_STATUS_OUTPUT_EMPTY: u8 = 0x20;

/// A 16550 UART at an I/O port.
#[derive(Clone, Copy, Debug, PartialEq, Eq, Structural)]
pub struct Device {
    pub io_port: u16,
}

/// The port writes that set up the UART at `port`: interrupts off, the divisor latch on, a
/// divisor of 3 (38400 baud), 8-bit words with the latch off, the FIFOs on and cleared with a
/// 14-byte trigger, DTR, RTS and OUT2 on, and interrupts back on.
pub open spec fn init_sequence(port: u16) -> Seq<(u16, u8)> {
    seq![
        ((port + INTERRUPT_ENABLE_REGISTER) as u16, 0u8),
        ((port + LINE_CONTROL_REGISTER) as u16, 0x80u8),
        (port, 3u8),
        ((port + INTERRUPT_ENABLE_REGISTER) as u16, 0u8),
        ((port + LINE_CONTROL_REGISTER) as u16, 0x03u8),
        ((port + FIFO_CONTROL_REGISTER) as u16, 0xC7u8),
        ((port + MODEM_CONTROL_REGISTER) as u16, 0x0Bu8),
        ((port + INTERRUPT_ENABLE_REGISTER) as u16, 1u8),
    ]
}

/// The bytes sent for `byte`: a backspace or delete erases the previous character, a newline
/// is sent as carriage return and newline, anything else as it is.
pub open spec fn wire_bytes(byte: u8) -> Seq<u8> {
    if byte == 0x08 || byte == 0x7F {
        seq![0x08u8, 0x20u8, 0x08u8]
    } else if byte == 0x0A {
        seq![0x0Du8, 0x0Au8]
    } else {
        seq![byte]
    }
}

/// The bytes sent for each of `bytes`, in order.
pub open spec fn wire_bytes_of(bytes: Seq<u8>) -> Seq<u8>
    decreases bytes.len(),
{
    if bytes.len() == 0 {
        Seq::empty()
    } else {
        wire_bytes_of(bytes.drop_last()) + wire_bytes(bytes.last())
    }
}

impl Device {
    /// The UART at `io_port`.
    pub fn new(io_port: u16) -> (r: Self)
        ensures
            r.io_port == io_port,
    {
        Device { io_port }
    }

    /// The first serial port.
    pub fn com1() -> (r: Self)
        ensures
            r.io_port == COM1_PORT,
    {
        Device { io_port: COM1_PORT }
    }

    /// The second serial port.
    pub fn com2() -> (r: Self)
        ensures
            r.io_port == COM2_PORT,
    {
        Device { io_port: COM2_PORT }
    }

    /// The port writes that set the device up, in order.
    pub fn init_writes(&self) -> (r: Vec<(u16, u8)>)
        requires
            self.io_port + MODEM_CONTROL_REGISTER <= u16::MAX,
        ensures
            r@ == init_sequence(self.io_port),
    {
        let data_port = self.io_port;
        let interrupt_enable = self.io_port + INTERRUPT_ENABLE_REGISTER;
        let fifo_control = self.io_port + FIFO_CONTROL_REGISTER;
        let line_control = self.io_port + LINE_CONTROL_REGISTER;
        let modem_control = self.io_port + MODEM_CONTROL_REGISTER;
        let writes = vec![
            (interrupt_enable, 0u8),
            (line_control, 0x80u8),
            (data_port, 3u8),
            (interrupt_enable, 0u8),
            (line_control, 0x03u8),
            (fifo_control, 0xC7u8),
            (modem_control, 0x0Bu8),
            (interrupt_enable, 1u8),
        ];
        proof {
            assert(writes@ =~= init_sequence(self.io_port));
        }
        writes
    }

    /// The port that holds the line status.
    pub fn line_status_port(&self) -> (r: u16)
        requires
            self.io_port + LINE_STATUS_REGISTER <= u16::MAX,
        ensures
            r == self.io_port + LINE_STATUS_REGISTER,
    {
        self.io_port + LINE_STATUS_REGISTER
    }

    /// Whether the line status says the transmitter can take a byte.
    pub fn line_output_empty(status: u8) -> (r: bool)
        ensures
            r == (status & LINE_STATUS_OUTPUT_EMPTY == LINE_STATUS_OUTPUT_EMPTY),
    {
        status & LINE_STATUS_OUTPUT_EMPTY == LINE_STATUS_OUTPUT_EMPTY
    }

    /// The bytes sent for a byte written to the port.
    pub fn write(byte: u8) -> (r: Vec<u8>)
        ensures
            r@ == wire_bytes(byte),
    {
        let r = if byte == 0x08 || byte == 0x7F {
            vec![0x08u8, 0x20u8, 0x08u8]
        } else if byte == 0x0A {
            vec![0x0Du8, 0x0Au8]
        } else {
            vec![byte]
        };
        proof {
            assert(r@ =~= wire_bytes(byte));
        }
        r
    }

    /// The bytes sent for a string written to the port, byte by byte.
    pub fn write_str(s: &str) -> (r: Vec<u8>)
        ensures
            r@ == wire_bytes_of(s.spec_bytes()),
    {
        let bytes = s.as_bytes();
        let mut out: Vec<u8> = Vec::new();
        let mut i: usize = 0;
        while i < bytes.len()
            invariant
                i <= bytes@.len(),
                out@ == wire_bytes_of(bytes@.take(i as int)),
            decreases bytes@.len() - i,
        {
            let mut sent = Device::write(bytes[i]);
            proof {
                assert(bytes@.take(i + 1).drop_last() =~= bytes@.take(i as int));
            }
            out.append(&mut sent);
            i = i + 1;
        }
        proof {
            assert(bytes@.take(i as int) =~= bytes@);
        }
        out
    }
}

/// The decimal digits of `v`, most significant first.
pub open spec fn decimal(v: nat) -> Seq<char>
    decreases v,
{
    if v < 10 {
        seq![(v + 48) as char]
    } else {
        decimal(v / 10) + seq![((v % 10) + 48) as char]
    }
}

/// Appends the decimal digits of `v`.
pub fn append_decimal(out: &mut String, v: u64)
    ensures
        final(out)@ == old(out)@ + decimal(v as nat),
    decreases v,
{
    if v >= 10 {
        append_decimal(out, v / 10);
    }
    let d = v % 10;
    proof {
        reveal_strlit("0");
        reveal_strlit("1");
        reveal_strlit("2");
        reveal_strlit("3");
        reveal_strlit("4");
        reveal_strlit("5");
        reveal_strlit("6");
        reveal_strlit("7");
        reveal_strlit("8");
        reveal_strlit("9");
    }
    let digit = match d {
        0 => "0",
        1 => "1",
        2 => "2",
        3 => "3",
        4 => "4",
        5 => "5",
        6 => "6",
        7 => "7",
        8 => "8",
        _ => "9",
    };
    out.append(digit);
    proof {
        assert(out@ =~= old(out)@ + decimal(v as nat));
    }
}

/// The SGR color of a level: red for errors, yellow for warnings, green for information, blue
/// for debugging and dim for tracing.
pub open spec fn level_color(level: LogLevel) -> u8 {
    match level {
        LogLevel::Error => 31,
        LogLevel::Warn => 33,
        LogLevel::Info => 32,
        LogLevel::Debug => 34,
        LogLevel::Trace => 2,
    }
}

/// The SGR color of a level.
pub fn level_color_code(level: LogLevel) -> (r: u8)
    ensures
        r == level_color(level),
{
    match level {
        LogLevel::Error => 31,
        LogLevel::Warn => 33,
        LogLevel::Info => 32,
        LogLevel::Debug => 34,
        LogLevel::Trace => 2,
    }
}

/// The name of a level in capitals.
pub open spec fn level_name(level: LogLevel) -> Seq<char> {
    match level {
        LogLevel::Error => "ERROR"@,
        LogLevel::Warn => "WARN"@,
        LogLevel::Info => "INFO"@,
        LogLevel::Debug => "DEBUG"@,
        LogLevel::Trace => "TRACE"@,
    }
}

/// `s` padded with spaces on the right to `width` characters.
pub open spec fn pad_right(s: Seq<char>, width: nat) -> Seq<char> {
    if s.len() >= width {
        s
    } else {
        s + Seq::new((width - s.len()) as nat, |_i: int| ' ')
    }
}

/// The kernel's logger, which writes each record to the first serial port.
#[derive(Clone, Copy, Debug)]
pub struct SerialLogger;

impl SerialLogger {
    /// The line written for a record: the level's name in its color and padded to six
    /// characters, the target dimmed in brackets, then the message.
    pub open spec fn spec_line(level: LogLevel, target: Seq<char>, message: Seq<char>) -> Seq<char> {
        "\x1b["@ + decimal(level_color(level) as nat) + "m"@ + pad_right(level_name(level), 6)
            + "\x1b[0m\x1b[2m["@ + target + "]\x1b[0m \x1b["@ + decimal(0) + "m"@ + message
            + "\x1b[0m\n"@
    }

    /// The line written for a record of `level` from `target` with `message`.
    pub fn line(&self, level: LogLevel, target: &str, message: &str) -> (r: String)
        ensures
            r@ == Self::spec_line(level, target@, message@),
    {
        let mut out = String::new();
        out.append("\x1b[");
        append_decimal(&mut out, level_color_code(level) as u64);
        out.append("m");
        let name = level.as_str();
        proof {
            reveal_strlit("ERROR");
            reveal_strlit("WARN");
            reveal_strlit("INFO");
            reveal_strlit("DEBUG");
            reveal_strlit("TRACE");
        }
        assert(name@ == level_name(level));
        out.append(name);
        let ghost padded_start = out@;
        let mut pad: usize = name.unicode_len();
        while pad < 6
            invariant
                name@.len() <= pad <= 6,
                out@ == padded_start + Seq::new((pad - name@.len()) as nat, |_i: int| ' '),
            decreases 6 - pad,
        {
            out.append(" ");
            proof {
                reveal_strlit(" ");
                assert(out@ =~= padded_start + Seq::new((pad + 1 - name@.len()) as nat, |_i: int| ' '));
            }
            pad = pad + 1;
        }
        proof {
            if name@.len() >= 6 {
                assert(out@ =~= padded_start);
            }
        }
        out.append("\x1b[0m\x1b[2m[");
        out.append(target);
        out.append("]\x1b[0m \x1b[");
        append_decimal(&mut out, 0);
        out.append("m");
        out.append(message);
        out.append("\x1b[0m\n");
        proof {
            assert(out@ =~= Self::spec_line(level, target@, message@));
        }
        out
    }
}

} // verus!
