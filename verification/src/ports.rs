//! x86 I/O port addresses. The `in`/`out` instructions themselves are issued
//! outside this library; here a port is the address it names.
use vstd::prelude::*;

verus! {

/// An 8-bit I/O port.
#[derive(Debug, Clone, Copy, PartialEq, Eq)]
pub struct PortU8 {
    port: u16,
}

/// A 16-bit I/O port.
#[derive(Debug, Clone, Copy, PartialEq, Eq)]
pub struct PortU16 {
    port: u16,
}

impl View for PortU8 {
    type V = u16;

    closed spec fn view(&self) -> u16 {
        self.port
    }
}

impl View for PortU16 {
    type V = u16;

    closed spec fn view(&self) -> u16 {
        self.port
    }
}

impl PortU8 {
    pub fn new(port: u16) -> (r: Self)
        ensures
            r@ == port,
    {
        PortU8 { port }
    }

    /// The port's address.
    pub fn port(&self) -> (r: u16)
        ensures
            r == self@,
    {
        self.port
    }
}

impl PortU16 {
    pub fn new(port: u16) -> (r: Self)
        ensures
            r@ == port,
    {
        PortU16 { port }
    }

    /// The port's address.
    pub fn port(&self) -> (r: u16)
        ensures
            r == self@,
    {
        self.port
    }
}

} // verus!
