//! Input devices and their buttons, by kind.

use vstd::prelude::*;
use vstd::std_specs::convert::FromSpecImpl;

verus! {

/// The kind of an input device, by name.
#[derive(Debug, Clone, PartialEq, Eq, Hash)]
pub struct DeviceType(pub String);

impl From<String> for DeviceType {
    fn from(value: String) -> (r: DeviceType) {
        DeviceType(value)
    }
}

impl FromSpecImpl<String> for DeviceType {
    open spec fn obeys_from_spec() -> bool {
        true
    }

    open spec fn from_spec(value: String) -> DeviceType {
        DeviceType(value)
    }
}

/// The kinds of device that every platform has.
#[derive(Debug, Clone, Copy, PartialEq, Eq, Hash, Structural)]
pub enum BaseDeviceType {
    Keyboard,
    Mouse,
    Gamepad,
    Touchscreen,
}

impl BaseDeviceType {
    /// The name of the kind, in lower case.
    pub open spec fn name(self) -> Seq<char> {
        match self {
            BaseDeviceType::Keyboard => "keyboard"@,
            BaseDeviceType::Mouse => "mouse"@,
            BaseDeviceType::Gamepad => "gamepad"@,
            BaseDeviceType::Touchscreen => "touchscreen"@,
        }
    }

    /// The kind as a device type: the one of its name.
    pub fn device_type(self) -> (r: DeviceType)
        ensures
            r.0@ == self.name(),
    {
        match self {
            BaseDeviceType::Keyboard => DeviceType("keyboard".to_owned()),
            BaseDeviceType::Mouse => DeviceType("mouse".to_owned()),
            BaseDeviceType::Gamepad => DeviceType("gamepad".to_owned()),
            BaseDeviceType::Touchscreen => DeviceType("touchscreen".to_owned()),
        }
    }
}

/// What is known of a kind of device.
#[derive(Debug)]
pub struct DeviceTypeDescription {
    ty: DeviceType,
    description: String,
}

impl DeviceTypeDescription {
    /// The kind that is described.
    pub closed spec fn kind(&self) -> DeviceType {
        self.ty
    }

    /// The text of the description.
    pub closed spec fn text(&self) -> Seq<char> {
        self.description@
    }

    /// The description of the kind `ty`.
    pub fn new(ty: DeviceType, description: String) -> (r: DeviceTypeDescription)
        ensures
            r.kind() == ty,
            r.text() == description@,
    {
        DeviceTypeDescription { ty, description }
    }

    /// The kind that is described.
    pub fn ty(&self) -> (r: &DeviceType)
        ensures
            *r == self.kind(),
    {
        &self.ty
    }

    /// The text of the description.
    pub fn description(&self) -> (r: &str)
        ensures
            r@ == self.text(),
    {
        self.description.as_str()
    }
}

/// A button of a device, by name.
#[derive(Debug, Clone, PartialEq, Eq, Hash)]
pub struct ButtonType(pub String);

impl From<String> for ButtonType {
    fn from(value: String) -> (r: ButtonType) {
        ButtonType(value)
    }
}

impl FromSpecImpl<String> for ButtonType {
    open spec fn obeys_from_spec() -> bool {
        true
    }

    open spec fn from_spec(value: String) -> ButtonType {
        ButtonType(value)
    }
}

/// A button of the mouse.
#[derive(Debug, Clone, Copy, PartialEq, Eq, Hash, Structural)]
pub enum UIMouseButton {
    Left,
    Rignt,
    Center,
}

} // verus!
