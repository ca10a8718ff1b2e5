//! Instruments: the voice a track plays through.

use vstd::prelude::*;

use crate::text::{decimal, decimal_string};

verus! {

/// A device used by tracks; think of it as a kind of voice.
#[derive(Clone, Debug)]
pub struct Instrument {
    /// The name of the instrument.
    pub name: String,
    /// The MIDI port used by the instrument.
    pub port: u8,
    /// The MIDI channel used by the instrument.
    pub channel: u8,
}

/// The text form of an instrument: its name and port.
pub open spec fn instrument_text(i: Instrument) -> Seq<char> {
    "name:"@ + i.name@ + ", port:"@ + decimal(i.port as nat)
}

impl Instrument {
    /// Creates an instrument with the given name, port and channel.
    pub fn new(name: &str, port: u8, channel: u8) -> (i: Instrument)
        ensures
            i.name@ == name@,
            i.port == port,
            i.channel == channel,
    {
        Instrument { name: String::from_str(name), port, channel }
    }

    /// The instrument as text: its name and port.
    pub fn to_string(&self) -> (s: String)
        ensures
            s@ == instrument_text(*self),
    {
        let mut s = String::from_str("name:");
        s.append(self.name.as_str());
        s.append(", port:");
        let p = decimal_string(self.port as u64);
        s.append(p.as_str());
        s
    }
}

impl Default for Instrument {
    fn default() -> (i: Instrument)
        ensures
            i.name@ == Seq::<char>::empty(),
            i.port == 0,
            i.channel == 0,
    {
        Instrument { name: String::new(), port: 0, channel: 0 }
    }
}

} // verus!
