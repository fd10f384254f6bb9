use vstd::prelude::*;

verus! {

/// Number of data bits in each character.
#[derive(Debug, Clone, Copy, PartialEq, Eq, Structural)]
pub enum DataBits {
    Five,
    Six,
    Seven,
    Eight,
}

/// Parity checking mode.
#[derive(Debug, Clone, Copy, PartialEq, Eq, Structural)]
pub enum Parity {
    NoParity,
    Odd,
    Even,
}

/// Number of stop bits.
#[derive(Debug, Clone, Copy, PartialEq, Eq, Structural)]
pub enum StopBits {
    One,
    Two,
}

/// Flow control mode.
#[derive(Debug, Clone, Copy, PartialEq, Eq, Structural)]
pub enum FlowControl {
    NoFlowControl,
    Software,
    Hardware,
}

impl DataBits {
    /// The number of data bits as an integer.
    pub open spec fn spec_count(self) -> u8 {
        match self {
            DataBits::Five => 5,
            DataBits::Six => 6,
            DataBits::Seven => 7,
            DataBits::Eight => 8,
        }
    }

    pub fn count(self) -> (r: u8)
        ensures
            r == self.spec_count(),
            5 <= r <= 8,
    {
        match self {
            DataBits::Five => 5,
            DataBits::Six => 6,
            DataBits::Seven => 7,
            DataBits::Eight => 8,
        }
    }
}

/// A port descriptor: a device name and the framing it is opened with.
#[derive(Debug, Clone)]
pub struct SerialPortInfo {
    pub name: String,
    pub speed: u32,
    pub data_bits: DataBits,
    pub parity: Parity,
    pub stop_bits: StopBits,
    pub flow_control: FlowControl,
}

/// The mathematical value of a port descriptor.
pub struct PortModel {
    pub name: Seq<char>,
    pub speed: u32,
    pub data_bits: DataBits,
    pub parity: Parity,
    pub stop_bits: StopBits,
    pub flow_control: FlowControl,
}

impl View for SerialPortInfo {
    type V = PortModel;

    open spec fn view(&self) -> PortModel {
        PortModel {
            name: self.name@,
            speed: self.speed,
            data_bits: self.data_bits,
            parity: self.parity,
            stop_bits: self.stop_bits,
            flow_control: self.flow_control,
        }
    }
}

impl PartialEq for SerialPortInfo {
    fn eq(&self, other: &SerialPortInfo) -> (r: bool)
        ensures
            r == (self@ == other@),
    {
        self.name == other.name && self.speed == other.speed && self.data_bits == other.data_bits
            && self.parity == other.parity && self.stop_bits == other.stop_bits
            && self.flow_control == other.flow_control
    }
}

impl vstd::std_specs::cmp::PartialEqSpecImpl for SerialPortInfo {
    open spec fn obeys_eq_spec() -> bool {
        true
    }

    open spec fn eq_spec(&self, other: &SerialPortInfo) -> bool {
        self@ == other@
    }
}

impl PortModel {
    /// A descriptor is valid when its baud rate is positive.
    pub open spec fn wf(self) -> bool {
        self.speed > 0
    }
}

impl SerialPortInfo {
    /// Builds a descriptor; the baud rate must be positive.
    pub fn new(
        name: String,
        speed: u32,
        data_bits: DataBits,
        parity: Parity,
        stop_bits: StopBits,
        flow_control: FlowControl,
    ) -> (r: SerialPortInfo)
        requires
            speed > 0,
        ensures
            r@.wf(),
            r@ == (PortModel {
                name: name@,
                speed,
                data_bits,
                parity,
                stop_bits,
                flow_control,
            }),
    {
        SerialPortInfo { name, speed, data_bits, parity, stop_bits, flow_control }
    }

    /// The descriptor given to an enumerated device: 9600 baud, eight data
    /// bits, no parity, one stop bit, no flow control.
    pub fn with_default_framing(name: String) -> (r: SerialPortInfo)
        ensures
            r@.wf(),
            r@ == (PortModel {
                name: name@,
                speed: 9600,
                data_bits: DataBits::Eight,
                parity: Parity::NoParity,
                stop_bits: StopBits::One,
                flow_control: FlowControl::NoFlowControl,
            }),
    {
        SerialPortInfo::new(
            name,
            9600,
            DataBits::Eight,
            Parity::NoParity,
            StopBits::One,
            FlowControl::NoFlowControl,
        )
    }
}

} // verus!
