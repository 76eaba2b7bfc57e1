//! The serial lines of the machine: their ports, and what has to be written
//! to them.

use vstd::prelude::*;
use crate::interrupts::pic::{Port, PortWrite};

verus! {

/// The first port of the first serial line.
pub const COM1: u16 = 0x3F8;

/// The first port of the second serial line.
pub const COM2: u16 = 0x2F8;

/// The first port of the third serial line.
pub const COM3: u16 = 0x3E8;

/// The first port of the fourth serial line.
pub const COM4: u16 = 0x2E8;

/// In the line control register: the first two ports hold the divisor.
pub const DLAB_ENABLE: u8 = 0x80;

/// In the line control register: 8 bits, no parity, 1 stop bit.
pub const RATE: u8 = 0x03;

/// The divisor for 38400 baud.
pub const DIVISOR: u8 = 0x03;

/// In the control register of the buffers: both buffers on and cleared,
/// with the highest trigger level.
pub const FIFO_DEFAULT: u8 = 0xC7;

/// In the modem control register: both handshaking lines and both outputs.
pub const MODEM_DEFAULT: u8 = 0x0F;

/// In the line status register: a byte waits to be read.
pub const RBF: u8 = 0x01;

/// In the line status register: a byte can be written.
pub const THRE: u8 = 0x20;

/// A serial line: its eight ports.
#[derive(Debug, Clone, Copy, PartialEq, Eq, Structural)]
pub struct Serial {
    /// The port of the data.
    pub data: Port,
    /// The port that enables interrupts.
    pub interrupt_enable: Port,
    /// The port that controls the buffers.
    pub fifo: Port,
    /// The port that controls the line.
    pub line_ctrl: Port,
    /// The port that controls the modem.
    pub modem_ctrl: Port,
    /// The port of the status of the line.
    pub line_stat: Port,
    /// The port of the status of the modem.
    pub modem_stat: Port,
    /// The port that is free for any use.
    pub scratch: Port,
}

impl Serial {
    /// The serial line whose eight ports start at `base`.
    pub fn new(base: u16) -> (serial: Serial)
        requires
            base <= u16::MAX - 7,
        ensures
            serial.data.port == base,
            serial.interrupt_enable.port == base + 1,
            serial.fifo.port == base + 2,
            serial.line_ctrl.port == base + 3,
            serial.modem_ctrl.port == base + 4,
            serial.line_stat.port == base + 5,
            serial.modem_stat.port == base + 6,
            serial.scratch.port == base + 7,
    {
        Serial {
            data: Port::new(base),
            interrupt_enable: Port::new(base + 1),
            fifo: Port::new(base + 2),
            line_ctrl: Port::new(base + 3),
            modem_ctrl: Port::new(base + 4),
            line_stat: Port::new(base + 5),
            modem_stat: Port::new(base + 6),
            scratch: Port::new(base + 7),
        }
    }

    /// What is written to the ports to set the line up with 8 bits, no
    /// parity, 1 stop bit and a divisor of 3, in this order: interrupts off;
    /// the divisor, low byte and high byte, between the two writes that open
    /// and close the way to it; the buffers; the modem.
    pub open spec fn init_spec(self) -> Seq<PortWrite> {
        seq![
            PortWrite { port: self.interrupt_enable.port, value: 0 },
            PortWrite { port: self.line_ctrl.port, value: DLAB_ENABLE },
            PortWrite { port: self.data.port, value: DIVISOR },
            PortWrite { port: self.interrupt_enable.port, value: 0 },
            PortWrite { port: self.line_ctrl.port, value: RATE },
            PortWrite { port: self.fifo.port, value: FIFO_DEFAULT },
            PortWrite { port: self.modem_ctrl.port, value: MODEM_DEFAULT },
        ]
    }

    /// What is written to the ports to set the line up, in this order.
    pub fn init(&self) -> (writes: Vec<PortWrite>)
        ensures
            writes@ == self.init_spec(),
    {
        let mut writes: Vec<PortWrite> = Vec::new();
        writes.push(PortWrite { port: self.interrupt_enable.port, value: 0 });
        writes.push(PortWrite { port: self.line_ctrl.port, value: DLAB_ENABLE });
        writes.push(PortWrite { port: self.data.port, value: DIVISOR });
        writes.push(PortWrite { port: self.interrupt_enable.port, value: 0 });
        writes.push(PortWrite { port: self.line_ctrl.port, value: RATE });
        writes.push(PortWrite { port: self.fifo.port, value: FIFO_DEFAULT });
        writes.push(PortWrite { port: self.modem_ctrl.port, value: MODEM_DEFAULT });
        assert(writes@ =~= self.init_spec());
        writes
    }

    /// Tells from the status of the line whether a byte waits to be read.
    pub fn serial_received(status: u8) -> (waiting: bool)
        ensures
            waiting == (status & RBF == RBF),
    {
        status & RBF == RBF
    }

    /// Tells from the status of the line whether a byte can be written.
    pub fn is_transmit_empty(status: u8) -> (empty: bool)
        ensures
            empty == (status & THRE == THRE),
    {
        status & THRE == THRE
    }

    /// What writes the byte to the line, once a byte can be written.
    pub fn write(&self, byte: u8) -> (write: PortWrite)
        ensures
            write == (PortWrite { port: self.data.port, value: byte }),
    {
        PortWrite { port: self.data.port, value: byte }
    }
}

} // verus!
