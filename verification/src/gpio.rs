//! Output pins driven through the sysfs GPIO interface: which files drive a pin.
use vstd::prelude::*;
use crate::text;

verus! {

/// A GPIO pin used as an output.
pub struct SysfsGpioPin {
    pin: u8,
}

/// The sysfs directory of a pin.
pub open spec fn gpio_dir_text(pin: u8) -> Seq<char> {
    "/sys/class/gpio/gpio"@ + text::decimal(pin as nat)
}

impl SysfsGpioPin {
    /// The pin with the given number.
    pub fn with_pin(pin: u8) -> (p: SysfsGpioPin)
        ensures
            p.pin() == pin,
    {
        SysfsGpioPin { pin }
    }

    pub closed spec fn pin(&self) -> u8 {
        self.pin
    }

    /// The pin number.
    pub fn number(&self) -> (n: u8)
        ensures
            n == self.pin(),
    {
        self.pin
    }

    /// `/sys/class/gpio/gpio<pin>`.
    pub fn gpio_dir(&self) -> (s: String)
        ensures
            s@ == gpio_dir_text(self.pin()),
    {
        let n = text::u32_to_decimal(self.pin as u32);
        text::concat_str("/sys/class/gpio/gpio", n.as_str())
    }

    /// `/sys/class/gpio/gpio<pin>/direction`.
    pub fn direction_path(&self) -> (s: String)
        ensures
            s@ == gpio_dir_text(self.pin()) + "/direction"@,
    {
        let d = self.gpio_dir();
        text::concat_str(d.as_str(), "/direction")
    }

    /// `/sys/class/gpio/gpio<pin>/value`.
    pub fn value_path(&self) -> (s: String)
        ensures
            s@ == gpio_dir_text(self.pin()) + "/value"@,
    {
        let d = self.gpio_dir();
        text::concat_str(d.as_str(), "/value")
    }
}

/// What is written to a pin's value file: `1` for high, `0` for low.
pub fn level_text(high: bool) -> (s: &'static str)
    ensures
        s@ == (if high { "1"@ } else { "0"@ }),
{
    if high {
        "1"
    } else {
        "0"
    }
}

/// The decimal pin number written to the export file.
pub fn export_text(pin: u8) -> (s: String)
    ensures
        s@ == text::decimal(pin as nat),
{
    text::u32_to_decimal(pin as u32)
}

} // verus!
