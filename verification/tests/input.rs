use xui::engine::{ButtonComponent, RenderLayers, UIViewRender, UIViewRenderWriter, XmlSource};
use xui::input::{BaseDeviceType, ButtonType, DeviceType, DeviceTypeDescription, UIMouseButton};

#[test]
fn base_device_types_are_named_in_lower_case() {
    assert_eq!(BaseDeviceType::Keyboard.device_type(), DeviceType("keyboard".to_string()));
    assert_eq!(BaseDeviceType::Mouse.device_type(), DeviceType("mouse".to_string()));
    assert_eq!(BaseDeviceType::Gamepad.device_type(), DeviceType("gamepad".to_string()));
    assert_eq!(BaseDeviceType::Touchscreen.device_type(), DeviceType("touchscreen".to_string()));
    assert_eq!(DeviceType::from("pen".to_string()), DeviceType("pen".to_string()));
    assert_eq!(ButtonType::from("a".to_string()), ButtonType("a".to_string()));
}

#[test]
fn description_keeps_kind_and_text() {
    let described = DeviceTypeDescription::new(BaseDeviceType::Mouse.device_type(), "two buttons".to_string());
    assert_eq!(described.ty(), &DeviceType("mouse".to_string()));
    assert_eq!(described.description(), "two buttons");
}

#[test]
fn engine_markers_and_button() {
    assert_eq!(UIViewRender::new(), UIViewRender {});
    assert_eq!(UIViewRenderWriter {}, UIViewRenderWriter {});
    assert_eq!(XmlSource {}, XmlSource {});
    assert_eq!(RenderLayers, RenderLayers);
    assert_eq!(ButtonComponent::new("ok".to_string()).text(), "ok");
    assert_eq!(ButtonComponent::default().text(), "");
    assert_ne!(UIMouseButton::Left, UIMouseButton::Rignt);
    assert_ne!(UIMouseButton::Center, UIMouseButton::Rignt);
}
