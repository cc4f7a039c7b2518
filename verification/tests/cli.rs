use obs_gamepad::cli::{device, menu, parse_args, parse_id, scale_text, ArgError, Device, Options};
use obs_gamepad::scalar::Scalar;

fn parse(args: &[&str]) -> Result<Options, ArgError> {
    let args: Vec<String> = args.iter().map(|a| (*a).to_owned()).collect();
    let numbers: Vec<Option<Scalar>> = args
        .iter()
        .map(|a| scale_text(a).parse::<f32>().ok().map(|x| Scalar { bits: x.to_bits() }))
        .collect();
    parse_args(&args, &numbers)
}

fn ok(args: &[&str]) -> (bool, u16, f32, String) {
    let o = parse(args).unwrap();
    (o.web, o.port, f32::from_bits(o.scale.bits), o.path)
}

fn message(args: &[&str]) -> String {
    parse(args).unwrap_err().message()
}

const USAGE: &str = "Usage: obs-gamepad [--web] [--port <N>] [--scale <N>] [config.toml]
  no args   = debug window on layouts/test.toml
  --web     = serve the overlay over the local network instead of a window
  --scale N = render the overlay at N× resolution (default 1)";

#[test]
fn without_arguments_there_are_defaults() {
    assert_eq!(ok(&[]), (false, 8080, 1.0, "layouts/test.toml".to_owned()));
}

#[test]
fn flags_are_read() {
    let path = "my.toml".to_owned();
    assert_eq!(ok(&["my.toml"]), (false, 8080, 1.0, path.clone()));
    assert_eq!(ok(&["--web", "my.toml"]), (true, 8080, 1.0, path.clone()));
    assert_eq!(ok(&["--serve", "my.toml"]).0, true);
    assert_eq!(ok(&["my.toml", "-w"]).0, true);
    assert_eq!(ok(&["--web", "--port", "9000", "my.toml"]), (true, 9000, 1.0, path.clone()));
    assert_eq!(ok(&["-p", "1", "-p", "2"]).1, 2);
    assert_eq!(ok(&["--port=65535"]).1, 65535);
    assert_eq!(ok(&["--port=+7"]).1, 7);
    assert_eq!(ok(&["--web", "--scale", "3", "my.toml"]), (true, 8080, 3.0, path.clone()));
    assert_eq!(ok(&["-s", "0.5", "--scale=2e1"]).2, 20.0);
    assert_eq!(ok(&["--scale", "inf"]).2, f32::INFINITY);
    assert_eq!(ok(&[""]).3, "");
}

#[test]
fn a_port_has_to_be_a_number() {
    let next = "--port expects a number, e.g. --port 8080";
    let inline = "--port expects a number, e.g. --port=8080";
    assert_eq!(message(&["--port"]), next);
    assert_eq!(message(&["-p", "x"]), next);
    assert_eq!(message(&["--port", "65536"]), next);
    assert_eq!(message(&["--port", "--web"]), next);
    assert_eq!(message(&["--port", "-1"]), next);
    assert_eq!(message(&["--port="]), inline);
    assert_eq!(message(&["--port=8080x"]), inline);
}

#[test]
fn a_scale_has_to_be_above_zero() {
    let next = "--scale expects a positive number, e.g. --scale 2";
    let inline = "--scale expects a positive number, e.g. --scale=2";
    assert_eq!(message(&["--scale"]), next);
    assert_eq!(message(&["-s", "0"]), next);
    assert_eq!(message(&["-s", "-2"]), next);
    assert_eq!(message(&["-s", "NaN"]), next);
    assert_eq!(message(&["-s", "x"]), next);
    assert_eq!(message(&["--scale", "--scale=2"]), next);
    assert_eq!(message(&["--scale="]), inline);
    assert_eq!(message(&["--scale=-0"]), inline);
    assert_eq!(message(&["--scale=two"]), inline);
}

#[test]
fn unknown_flags_are_named() {
    assert_eq!(message(&["--help"]), "Unknown flag '--help'");
    assert_eq!(message(&["-"]), "Unknown flag '-'");
    assert_eq!(message(&["--portal"]), "Unknown flag '--portal'");
    assert_eq!(message(&["a", "b", "-x"]), "Unknown flag '-x'");
}

#[test]
fn the_first_fault_is_told() {
    assert_eq!(message(&["--port", "x", "--help"]), "--port expects a number, e.g. --port 8080");
    assert_eq!(message(&["--help", "--port", "x"]), "Unknown flag '--help'");
}

#[test]
fn more_than_one_layout_is_refused() {
    assert_eq!(message(&["a.toml", "b.toml"]), USAGE);
    assert_eq!(message(&["a", "--web", "b", "c"]), USAGE);
}

#[test]
fn scales_stand_behind_the_equals_sign() {
    assert_eq!(scale_text("--scale=2.5"), "2.5");
    assert_eq!(scale_text("--scale="), "");
    assert_eq!(scale_text("2.5"), "2.5");
    assert_eq!(scale_text("--scal"), "--scal");
}

#[test]
fn ids_choose_controllers() {
    for i in 0..10 {
        assert_eq!(device(i), Device::Usb(i));
        assert_eq!(device(i + 10), Device::Serial(i));
        assert_eq!(device(i + 20), Device::XInput(i as u32));
    }
    assert_eq!(device(20 + (1 << 32) + 3), Device::XInput(3));
    assert_eq!(device(usize::MAX), Device::XInput((usize::MAX - 20) as u32));
}

#[test]
fn ids_are_read_from_a_line() {
    assert_eq!(parse_id("7\n"), Some(7));
    assert_eq!(parse_id("  21\r\n"), Some(21));
    assert_eq!(parse_id("+3"), Some(3));
    assert_eq!(parse_id(&usize::MAX.to_string()), Some(usize::MAX));
    for bad in ["", "\n", "x", "-1", "1 2", "18446744073709551616"] {
        assert_eq!(parse_id(bad), None, "{bad}");
    }
}

#[test]
fn the_menu_lists_every_controller() {
    let usb = vec![(0, "Pad".to_owned()), (3, "Stick".to_owned())];
    let serial =
        vec![("COM3".to_owned(), "B0XX".to_owned()), ("COM4".to_owned(), "x".to_owned())];
    assert_eq!(
        menu(4, &usb, &serial, &vec![0, 2]),
        "\nDetected 4 gamepads:\n0: Pad\n3: Stick\n10: COM3 B0XX\n11: COM4 x\n\
         20: XInput controller (slot 0)\n22: XInput controller (slot 2)\n\nEnter an id: "
    );
    assert_eq!(
        menu(0, &vec![], &vec![], &vec![]),
        "\nDetected 0 gamepads:\n\nEnter an id: "
    );
}

#[test]
fn a_listed_controller_is_chosen_by_its_id() {
    let list = menu(0, &vec![], &vec![("P".to_owned(), "Q".to_owned())], &vec![3]);
    let id = |line: &str| parse_id(line.split(':').next().unwrap()).unwrap();
    let lines: Vec<&str> = list.lines().collect();
    assert_eq!(device(id(lines[2])), Device::Serial(0));
    assert_eq!(device(id(lines[3])), Device::XInput(3));
}
