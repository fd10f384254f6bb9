use bitcore::{DataBits, FlowControl, Parity, SerialPortInfo, StopBits};

fn com3() -> SerialPortInfo {
    SerialPortInfo::new(
        "COM3".to_string(),
        9600,
        DataBits::Eight,
        Parity::NoParity,
        StopBits::One,
        FlowControl::NoFlowControl,
    )
}

#[test]
fn new_keeps_fields() {
    let p = com3();
    assert_eq!(p.name, "COM3");
    assert_eq!(p.speed, 9600);
    assert_eq!(p.data_bits, DataBits::Eight);
    assert_eq!(p.parity, Parity::NoParity);
    assert_eq!(p.stop_bits, StopBits::One);
    assert_eq!(p.flow_control, FlowControl::NoFlowControl);
    assert_eq!(p.data_bits.count(), 8);
    assert_eq!(DataBits::Five.count(), 5);
}

#[test]
fn default_framing_is_9600_8n1() {
    assert!(SerialPortInfo::with_default_framing("COM3".to_string()) == com3());
}

#[test]
fn encodes_exact_text() {
    assert_eq!(
        com3().to_json().unwrap(),
        r#"{"name":"COM3","speed":9600,"data_bits":"Eight","parity":"None","stop_bits":"One","flow_control":"None"}"#
    );
}

#[test]
fn encodes_other_variants() {
    let p = SerialPortInfo::new(
        "/dev/ttyUSB0".to_string(),
        115200,
        DataBits::Seven,
        Parity::Even,
        StopBits::Two,
        FlowControl::Hardware,
    );
    assert_eq!(
        p.to_json().unwrap(),
        r#"{"name":"/dev/ttyUSB0","speed":115200,"data_bits":"Seven","parity":"Even","stop_bits":"Two","flow_control":"Hardware"}"#
    );
}

#[test]
fn escapes_name() {
    let p = SerialPortInfo::new(
        "a\"b\\c\nd\u{1}".to_string(),
        1,
        DataBits::Five,
        Parity::Odd,
        StopBits::One,
        FlowControl::Software,
    );
    let text = p.to_json().unwrap();
    assert_eq!(
        text,
        r#"{"name":"a\"b\\c\nd\u0001","speed":1,"data_bits":"Five","parity":"Odd","stop_bits":"One","flow_control":"Software"}"#
    );
    assert_eq!(SerialPortInfo::from_json(text), Some(p));
}

#[test]
fn round_trips_every_variant() {
    let names = ["COM3", "", "ünïcødé ⚡", "tab\there", "\u{1f}"];
    let speeds = [1u32, 9, 10, 9600, 4294967295];
    let data_bits = [DataBits::Five, DataBits::Six, DataBits::Seven, DataBits::Eight];
    let parities = [Parity::NoParity, Parity::Odd, Parity::Even];
    let stops = [StopBits::One, StopBits::Two];
    let flows = [FlowControl::NoFlowControl, FlowControl::Software, FlowControl::Hardware];
    for name in names {
        for &speed in &speeds {
            for &db in &data_bits {
                for &pa in &parities {
                    for &sb in &stops {
                        for &fc in &flows {
                            let p = SerialPortInfo::new(name.to_string(), speed, db, pa, sb, fc);
                            let text = p.to_json().unwrap();
                            assert_eq!(SerialPortInfo::from_json(text), Some(p));
                        }
                    }
                }
            }
        }
    }
}

#[test]
fn text_is_valid_json() {
    let p = SerialPortInfo::new(
        "x\"y\u{7}".to_string(),
        57600,
        DataBits::Six,
        Parity::Odd,
        StopBits::Two,
        FlowControl::Software,
    );
    let v: serde_json::Value = serde_json::from_str(&p.to_json().unwrap()).unwrap();
    assert_eq!(v["name"], "x\"y\u{7}");
    assert_eq!(v["speed"], 57600);
    assert_eq!(v["data_bits"], "Six");
    assert_eq!(v["flow_control"], "Software");
}

#[test]
fn decodes_known_text() {
    let text = r#"{"name":"COM3","speed":9600,"data_bits":"Eight","parity":"None","stop_bits":"One","flow_control":"None"}"#;
    assert_eq!(SerialPortInfo::from_json(text.to_string()), Some(com3()));
}

#[test]
fn garbage_decodes_to_none() {
    let bad = [
        "",
        "garbage",
        "{}",
        "{\"name\":\"COM3\"}",
        r#"{"name":"COM3","speed":09600,"data_bits":"Eight","parity":"None","stop_bits":"One","flow_control":"None"}"#,
        r#"{"name":"COM3","speed":4294967296,"data_bits":"Eight","parity":"None","stop_bits":"One","flow_control":"None"}"#,
        r#"{"name":"COM3","speed":,"data_bits":"Eight","parity":"None","stop_bits":"One","flow_control":"None"}"#,
        r#"{"name":"COM3","speed":9600,"data_bits":"Nine","parity":"None","stop_bits":"One","flow_control":"None"}"#,
        r#"{"name":"COM3","speed":9600,"data_bits":"Eight","parity":"Mark","stop_bits":"One","flow_control":"None"}"#,
        r#"{"name":"COM3","speed":9600,"data_bits":"Eight","parity":"None","stop_bits":"Three","flow_control":"None"}"#,
        r#"{"name":"COM3","speed":9600,"data_bits":"Eight","parity":"None","stop_bits":"One","flow_control":"Xon"}"#,
        r#"{"name":"COM3","speed":9600,"data_bits":"Eight","parity":"None","stop_bits":"One","flow_control":"None"} "#,
        r#"{"name":"COM3","speed":9600,"data_bits":"Eight","parity":"None","stop_bits":"One","flow_control":"None""#,
        r#"{"name":"CO\qM3","speed":9600,"data_bits":"Eight","parity":"None","stop_bits":"One","flow_control":"None"}"#,
        r#"{"name":"COM3,"speed":9600,"data_bits":"Eight","parity":"None","stop_bits":"One","flow_control":"None"}"#,
    ];
    for text in bad {
        assert_eq!(SerialPortInfo::from_json(text.to_string()), None, "{}", text);
    }
}

#[test]
fn zero_speed_is_rejected() {
    let text = r#"{"name":"COM3","speed":0,"data_bits":"Eight","parity":"None","stop_bits":"One","flow_control":"None"}"#;
    assert_eq!(SerialPortInfo::from_json(text.to_string()), None);
}

#[test]
fn decoded_speed_is_positive() {
    let text = r#"{"name":"COM3","speed":1,"data_bits":"Eight","parity":"None","stop_bits":"One","flow_control":"None"}"#;
    assert_eq!(SerialPortInfo::from_json(text.to_string()).unwrap().speed, 1);
}

#[test]
fn short_escapes_decode() {
    let text = r#"{"name":"a\tb\rc\bd\fe\n","speed":300,"data_bits":"Five","parity":"Even","stop_bits":"Two","flow_control":"Hardware"}"#;
    let p = SerialPortInfo::from_json(text.to_string()).unwrap();
    assert_eq!(p.name, "a\tb\rc\u{8}d\u{c}e\n");
    assert_eq!(p.to_json().unwrap(), text);
}

#[test]
fn name_is_written_as_serde_json_writes_it() {
    let name = "q\"b\\s\u{0}\u{8}\t\n\u{b}\u{c}\r\u{1f} \u{7f}é";
    let p = SerialPortInfo::new(
        name.to_string(),
        9600,
        DataBits::Eight,
        Parity::NoParity,
        StopBits::One,
        FlowControl::NoFlowControl,
    );
    let expected = format!("{{\"name\":{},\"speed\":9600,", serde_json::to_string(name).unwrap());
    assert!(p.to_json().unwrap().starts_with(&expected));
}

#[test]
fn long_form_of_short_escape_is_not_canonical() {
    let text = r#"{"name":"a\u000ab","speed":1,"data_bits":"Five","parity":"None","stop_bits":"One","flow_control":"None"}"#;
    assert_eq!(SerialPortInfo::from_json(text.to_string()), None);
}

#[test]
fn raw_control_byte_in_name_is_rejected() {
    let text = "{\"name\":\"a\nb\",\"speed\":1,\"data_bits\":\"Five\",\"parity\":\"None\",\"stop_bits\":\"One\",\"flow_control\":\"None\"}";
    assert_eq!(SerialPortInfo::from_json(text.to_string()), None);
}

#[test]
fn equality_compares_all_fields() {
    let a = com3();
    let mut b = com3();
    assert!(a == b);
    b.speed = 19200;
    assert!(a != b);
}
