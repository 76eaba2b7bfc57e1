//! The two chained interrupt controllers: which interrupt vectors they
//! answer for, and what has to be written to their ports.

use vstd::prelude::*;

verus! {

/// The port of the commands of the master controller.
pub const PIC1_COMMAND: u16 = 0x20;

/// The port of the data of the master controller.
pub const PIC1_DATA: u16 = 0x21;

/// The port of the commands of the slave controller.
pub const PIC2_COMMAND: u16 = 0xA0;

/// The port of the data of the slave controller.
pub const PIC2_DATA: u16 = 0xA1;

/// The port that is written to in order to wait for another port.
pub const WAIT_PORT: u16 = 0x80;

/// The command that starts the initialization of a controller.
pub const ICW1_INIT: u8 = 0x10;

/// Says, with the command that starts the initialization, that a fourth
/// word follows.
pub const ICW1_ICW4: u8 = 0x01;

/// The mode of the 8086, in the fourth word of the initialization.
pub const ICW4_8086: u8 = 0x01;

/// The line of the master controller that the slave is wired to, as a bit.
pub const SLAVE_LINE: u8 = 4;

/// The identity of the slave controller.
pub const SLAVE_IDENTITY: u8 = 2;

/// The command that ends an interrupt.
pub const PIC_EOI: u8 = 0x20;

/// A byte to write to a port.
#[derive(Debug, Clone, Copy, PartialEq, Eq, Structural)]
pub struct PortWrite {
    /// The number of the port.
    pub port: u16,
    /// The byte.
    pub value: u8,
}

/// A port of the processor, by its number. Reading and writing it is left
/// to the code that runs on the machine.
#[derive(Debug, Clone, Copy, PartialEq, Eq, Structural)]
pub struct Port {
    /// The number of the port.
    pub port: u16,
}

impl Port {
    /// The port with the given number.
    pub fn new(port: u16) -> (result: Port)
        ensures
            result.port == port,
    {
        Port { port }
    }
}

/// A port of the processor that must be used with care, by its number.
#[derive(Debug, Clone, Copy, PartialEq, Eq, Structural)]
pub struct UnsafePort {
    /// The number of the port.
    pub port: u16,
}

impl UnsafePort {
    /// The port with the given number.
    pub fn new(port: u16) -> (result: UnsafePort)
        ensures
            result.port == port,
    {
        UnsafePort { port }
    }
}

/// An interrupt controller: the first vector it answers for, and its ports.
#[derive(Debug, Clone, Copy, PartialEq, Eq, Structural)]
pub struct PIC {
    /// The first interrupt vector of the controller.
    pub offset: u8,
    /// The port of its commands.
    pub command: UnsafePort,
    /// The port of its data.
    pub data: UnsafePort,
}

impl PIC {
    /// Whether the controller answers for the interrupt vector: the vector
    /// lies between the offset of the controller and the offset plus 8, both
    /// included.
    pub open spec fn handles(self, interrupt: u8) -> bool {
        self.offset <= interrupt <= self.offset + 8
    }

    /// Tells whether the controller answers for the interrupt vector.
    pub fn handles_interrupt(&self, interrupt: u8) -> (handled: bool)
        ensures
            handled == self.handles(interrupt),
    {
        self.offset <= interrupt && interrupt - self.offset <= 8
    }

    /// What tells the controller that the interrupt is dealt with.
    pub fn end_of_interrupt(&self) -> (write: PortWrite)
        ensures
            write == (PortWrite { port: self.command.port, value: PIC_EOI }),
    {
        PortWrite { port: self.command.port, value: PIC_EOI }
    }

    /// What masks the line `irq` of the controller, where `current` was read
    /// from the port of its data: the byte with the bit of the line set.
    pub fn set_mask(&self, current: u8, irq: u8) -> (write: PortWrite)
        requires
            irq < 8,
        ensures
            write == (PortWrite { port: self.data.port, value: current | (1u8 << irq) }),
    {
        PortWrite { port: self.data.port, value: current | (1u8 << irq) }
    }

    /// What is written to the port of the data of the controller to clear
    /// the mask of the line `irq`, where `current` was read from that port: the
    /// byte with every bit set but, where `current` has it clear, the bit of
    /// the line.
    pub fn clear_mask(&self, current: u8, irq: u8) -> (write: PortWrite)
        requires
            irq < 8,
        ensures
            write == (PortWrite { port: self.data.port, value: current | !(1u8 << irq) }),
    {
        PortWrite { port: self.data.port, value: current | !(1u8 << irq) }
    }
}

/// Two chained interrupt controllers.
#[derive(Debug, Clone, Copy, PartialEq, Eq, Structural)]
pub struct ChainedPICs {
    /// The master controller.
    pub master: PIC,
    /// The slave controller.
    pub slave: PIC,
}

impl ChainedPICs {
    /// The two controllers with the given offsets, at their usual ports.
    pub fn new(offset1: u8, offset2: u8) -> (pics: ChainedPICs)
        ensures
            pics.master.offset == offset1,
            pics.slave.offset == offset2,
            pics.master.command.port == PIC1_COMMAND,
            pics.master.data.port == PIC1_DATA,
            pics.slave.command.port == PIC2_COMMAND,
            pics.slave.data.port == PIC2_DATA,
    {
        ChainedPICs {
            master: PIC {
                offset: offset1,
                command: UnsafePort::new(PIC1_COMMAND),
                data: UnsafePort::new(PIC1_DATA),
            },
            slave: PIC {
                offset: offset2,
                command: UnsafePort::new(PIC2_COMMAND),
                data: UnsafePort::new(PIC2_DATA),
            },
        }
    }

    /// What is written to the ports to initialize both controllers, in this
    /// order, where the masks were read from the ports of their data before:
    /// the command that starts the initialization, the offsets, the wiring
    /// and the mode, each to the master and then to the slave and each
    /// followed by a write to the port for waiting, and at last the masks.
    pub open spec fn initialize_spec(self, master_mask: u8, slave_mask: u8) -> Seq<PortWrite> {
        let wait = PortWrite { port: WAIT_PORT, value: 0 };
        seq![
            PortWrite { port: self.master.command.port, value: ICW1_INIT | ICW1_ICW4 },
            wait,
            PortWrite { port: self.slave.command.port, value: ICW1_INIT | ICW1_ICW4 },
            wait,
            PortWrite { port: self.master.data.port, value: self.master.offset },
            wait,
            PortWrite { port: self.slave.data.port, value: self.slave.offset },
            wait,
            PortWrite { port: self.master.data.port, value: SLAVE_LINE },
            wait,
            PortWrite { port: self.slave.data.port, value: SLAVE_IDENTITY },
            wait,
            PortWrite { port: self.master.data.port, value: ICW4_8086 },
            wait,
            PortWrite { port: self.slave.data.port, value: ICW4_8086 },
            wait,
            PortWrite { port: self.master.data.port, value: master_mask },
            PortWrite { port: self.slave.data.port, value: slave_mask },
        ]
    }

    /// What is written to the ports to initialize both controllers, in this
    /// order, where the masks were read from the ports of their data before.
    pub fn initialize(&self, master_mask: u8, slave_mask: u8) -> (writes: Vec<PortWrite>)
        ensures
            writes@ == self.initialize_spec(master_mask, slave_mask),
    {
        let wait = PortWrite { port: WAIT_PORT, value: 0 };
        let mut writes: Vec<PortWrite> = Vec::new();
        writes.push(PortWrite { port: self.master.command.port, value: ICW1_INIT | ICW1_ICW4 });
        writes.push(wait);
        writes.push(PortWrite { port: self.slave.command.port, value: ICW1_INIT | ICW1_ICW4 });
        writes.push(wait);
        writes.push(PortWrite { port: self.master.data.port, value: self.master.offset });
        writes.push(wait);
        writes.push(PortWrite { port: self.slave.data.port, value: self.slave.offset });
        writes.push(wait);
        writes.push(PortWrite { port: self.master.data.port, value: SLAVE_LINE });
        writes.push(wait);
        writes.push(PortWrite { port: self.slave.data.port, value: SLAVE_IDENTITY });
        writes.push(wait);
        writes.push(PortWrite { port: self.master.data.port, value: ICW4_8086 });
        writes.push(wait);
        writes.push(PortWrite { port: self.slave.data.port, value: ICW4_8086 });
        writes.push(wait);
        writes.push(PortWrite { port: self.master.data.port, value: master_mask });
        writes.push(PortWrite { port: self.slave.data.port, value: slave_mask });
        assert(writes@ =~= self.initialize_spec(master_mask, slave_mask));
        writes
    }

    /// The controller that the line `irq` of the two belongs to, and the
    /// number of the line there: the first eight lines are the master's.
    pub open spec fn line_spec(self, irq: u8) -> (PIC, u8) {
        if irq < 8 {
            (self.master, irq)
        } else {
            (self.slave, (irq - 8) as u8)
        }
    }

    /// The controller that the line `irq` of the two belongs to, and the
    /// number of the line there.
    pub fn line(&self, irq: u8) -> (line: (PIC, u8))
        requires
            irq < 16,
        ensures
            line == self.line_spec(irq),
            line.1 < 8,
    {
        if irq < 8 {
            (self.master, irq)
        } else {
            (self.slave, irq - 8)
        }
    }

    /// What masks the line `irq` of the two controllers, where `current` was
    /// read from the port of the data of the controller of that line.
    pub fn set_mask(&self, current: u8, irq: u8) -> (write: PortWrite)
        requires
            irq < 16,
        ensures
            write == (PortWrite {
                port: self.line_spec(irq).0.data.port,
                value: current | (1u8 << self.line_spec(irq).1),
            }),
    {
        let (pic, line) = self.line(irq);
        pic.set_mask(current, line)
    }

    /// What is written to clear the mask of the line `irq` of the two
    /// controllers, where `current` was read from the port of the data of the
    /// controller of that line.
    pub fn clear_mask(&self, current: u8, irq: u8) -> (write: PortWrite)
        requires
            irq < 16,
        ensures
            write == (PortWrite {
                port: self.line_spec(irq).0.data.port,
                value: current | !(1u8 << self.line_spec(irq).1),
            }),
    {
        let (pic, line) = self.line(irq);
        pic.clear_mask(current, line)
    }

    /// Tells whether both controllers answer for the interrupt vector.
    pub fn handles_interrupt(&self, interrupt: u8) -> (handled: bool)
        ensures
            handled == (self.master.handles(interrupt) && self.slave.handles(interrupt)),
    {
        self.master.handles_interrupt(interrupt) && self.slave.handles_interrupt(interrupt)
    }
}

} // verus!
