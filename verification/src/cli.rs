//! The command line, and the choice of a controller.

use crate::scalar::{Scalar, ONE};
use crate::text::{chars_of, parse_unsigned, push_decimal, starts_with, text_of, trimmed_range};
use vstd::prelude::*;

verus! {

/// The layout that is shown where the command line names none.
pub const DEFAULT_PATH: &'static str = "layouts/test.toml";

/// The port that is served where the command line names none.
pub const DEFAULT_PORT: u16 = 8080;

// ---------------------------------------------------------------------------
// Arguments
// ---------------------------------------------------------------------------

/// What the command line asks for.
#[derive(Debug)]
pub struct Options {
    /// Whether to serve the overlay instead of showing a window.
    pub web: bool,
    pub port: u16,
    /// The resolution of the overlay, as a multiple of the layout's own.
    pub scale: Scalar,
    /// The layout file.
    pub path: String,
}

/// What is wrong with a command line.
#[derive(Debug)]
pub enum ArgError {
    /// No port after the flag.
    Port,
    /// No port behind the equals sign.
    PortInline,
    /// No scale above zero after the flag.
    Scale,
    /// No scale above zero behind the equals sign.
    ScaleInline,
    /// A flag that there is not.
    Unknown(String),
    /// More than one layout.
    Usage,
}

/// The flags and files that a part of a command line asks for: whether to serve the overlay, the
/// port, the scale, and the layouts.
pub type Draft = (bool, u16, Scalar, Seq<Seq<char>>);

/// What is wrong with a command line; an unknown flag by its text.
pub enum Fault {
    Port,
    PortInline,
    Scale,
    ScaleInline,
    Unknown(Seq<char>),
    Usage,
}

impl View for ArgError {
    type V = Fault;

    open spec fn view(&self) -> Fault {
        match *self {
            ArgError::Port => Fault::Port,
            ArgError::PortInline => Fault::PortInline,
            ArgError::Scale => Fault::Scale,
            ArgError::ScaleInline => Fault::ScaleInline,
            ArgError::Unknown(flag) => Fault::Unknown(flag@),
            ArgError::Usage => Fault::Usage,
        }
    }
}

/// How the program is used.
pub const USAGE: &'static str = "Usage: obs-gamepad [--web] [--port <N>] [--scale <N>] [config.toml]\n  \
no args   = debug window on layouts/test.toml\n  \
--web     = serve the overlay over the local network instead of a window\n  \
--scale N = render the overlay at N\u{00d7} resolution (default 1)";

/// What a fault is called.
pub open spec fn fault_text(fault: Fault) -> Seq<char> {
    match fault {
        Fault::Port => "--port expects a number, e.g. --port 8080"@,
        Fault::PortInline => "--port expects a number, e.g. --port=8080"@,
        Fault::Scale => "--scale expects a positive number, e.g. --scale 2"@,
        Fault::ScaleInline => "--scale expects a positive number, e.g. --scale=2"@,
        Fault::Unknown(flag) => "Unknown flag '"@ + flag + "'"@,
        Fault::Usage => USAGE@,
    }
}

impl ArgError {
    /// The message for the person who typed the command line.
    pub fn message(&self) -> (r: String)
        ensures
            r@ == fault_text(self@),
    {
        let mut out = String::new();
        match self {
            ArgError::Port => out.append("--port expects a number, e.g. --port 8080"),
            ArgError::PortInline => out.append("--port expects a number, e.g. --port=8080"),
            ArgError::Scale => out.append("--scale expects a positive number, e.g. --scale 2"),
            ArgError::ScaleInline => out.append("--scale expects a positive number, e.g. --scale=2"),
            ArgError::Unknown(flag) => {
                out.append("Unknown flag '");
                out.append(flag.as_str());
                out.append("'");
            },
            ArgError::Usage => out.append(USAGE),
        }
        out
    }
}

/// The part of an argument that may spell a scale: what stands behind `--scale=`, or all of it.
pub open spec fn scale_part(arg: Seq<char>) -> Seq<char> {
    if crate::text::has_prefix(arg, "--scale="@) {
        arg.skip("--scale="@.len() as int)
    } else {
        arg
    }
}

/// The part of an argument that may spell a scale.
pub fn scale_text(arg: &str) -> (r: String)
    ensures
        r@ == scale_part(arg@),
{
    let chars = chars_of(arg);
    let n = chars.len();
    assert(chars@.subrange(0, n as int) == chars@);
    if starts_with(&chars, 0, n, "--scale=") {
        let skip = chars_of("--scale=").len();
        assert(chars@.subrange(skip as int, n as int) == chars@.skip(skip as int));
        text_of(&chars, skip, n)
    } else {
        text_of(&chars, 0, n)
    }
}

/// The port that a text spells.
pub open spec fn port_value(s: Seq<char>) -> Option<u16> {
    match crate::text::unsigned_value(s, u16::MAX as nat) {
        Some(n) => Some(n as u16),
        None => None,
    }
}

/// The scale that a number makes: it has to be above zero.
pub open spec fn scale_value(number: Option<Scalar>) -> Option<Scalar> {
    match number {
        Some(x) => if (Scalar { bits: 0 }).below(x) {
            Some(x)
        } else {
            None
        },
        None => None,
    }
}

/// The number that the whole of an argument spells, where `number` is what its scale part does.
/// What starts with a flag is no number.
pub open spec fn whole_number(arg: Seq<char>, number: Option<Scalar>) -> Option<Scalar> {
    if crate::text::has_prefix(arg, "--scale="@) {
        None
    } else {
        number
    }
}

/// What the arguments from place `i` on make of `draft`. `numbers` holds for each argument the
/// number that its scale part spells.
pub open spec fn drafted(
    args: Seq<Seq<char>>,
    numbers: Seq<Option<Scalar>>,
    i: nat,
    draft: Draft,
) -> Result<Draft, Fault>
    decreases args.len() - i,
{
    let (web, port, scale, files) = draft;
    if i >= args.len() {
        Ok(draft)
    } else if args[i as int] == "--web"@ || args[i as int] == "--serve"@ || args[i as int]
        == "-w"@ {
        drafted(args, numbers, i + 1, (true, port, scale, files))
    } else if args[i as int] == "--port"@ || args[i as int] == "-p"@ {
        if i + 1 >= args.len() {
            Err(Fault::Port)
        } else {
            match port_value(args[i as int + 1]) {
                Some(p) => drafted(args, numbers, i + 2, (web, p, scale, files)),
                None => Err(Fault::Port),
            }
        }
    } else if crate::text::has_prefix(args[i as int], "--port="@) {
        match port_value(args[i as int].skip("--port="@.len() as int)) {
            Some(p) => drafted(args, numbers, i + 1, (web, p, scale, files)),
            None => Err(Fault::PortInline),
        }
    } else if args[i as int] == "--scale"@ || args[i as int] == "-s"@ {
        if i + 1 >= args.len() {
            Err(Fault::Scale)
        } else {
            match scale_value(whole_number(args[i as int + 1], numbers[i as int + 1])) {
                Some(x) => drafted(args, numbers, i + 2, (web, port, x, files)),
                None => Err(Fault::Scale),
            }
        }
    } else if crate::text::has_prefix(args[i as int], "--scale="@) {
        match scale_value(numbers[i as int]) {
            Some(x) => drafted(args, numbers, i + 1, (web, port, x, files)),
            None => Err(Fault::ScaleInline),
        }
    } else if crate::text::has_prefix(args[i as int], "-"@) {
        Err(Fault::Unknown(args[i as int]))
    } else {
        drafted(args, numbers, i + 1, (web, port, scale, files.push(args[i as int])))
    }
}

/// The texts of strings.
pub open spec fn texts(v: Seq<String>) -> Seq<Seq<char>> {
    Seq::new(v.len(), |i: int| v[i]@)
}

/// Whether `r` is what a command line asks for: its last port and scale, a window unless it says
/// otherwise, and the one layout that it names, if any.
pub open spec fn answers(
    r: Result<Options, ArgError>,
    args: Seq<Seq<char>>,
    numbers: Seq<Option<Scalar>>,
) -> bool {
    let start = (false, DEFAULT_PORT, Scalar { bits: ONE }, Seq::<Seq<char>>::empty());
    match drafted(args, numbers, 0, start) {
        Ok((web, port, scale, files)) => if files.len() <= 1 {
            r matches Ok(o) && o.web == web && o.port == port && o.scale == scale && o.path@ == (
            if files.len() == 0 {
                DEFAULT_PATH@
            } else {
                files[0]
            })
        } else {
            r matches Err(e) && e@ == Fault::Usage
        },
        Err(fault) => r matches Err(e) && e@ == fault,
    }
}

fn parse_port(chars: &Vec<char>, from: usize) -> (r: Option<u16>)
    requires
        from <= chars@.len(),
    ensures
        r == port_value(chars@.skip(from as int)),
{
    assert(chars@.subrange(from as int, chars@.len() as int) == chars@.skip(from as int));
    match parse_unsigned(chars, from, chars.len(), 65_535) {
        Some(n) => Some(n as u16),
        None => None,
    }
}

fn positive(number: Option<Scalar>) -> (r: Option<Scalar>)
    ensures
        r == scale_value(number),
{
    match number {
        Some(x) => if (Scalar { bits: 0 }).lt(x) {
            Some(x)
        } else {
            None
        },
        None => None,
    }
}

/// Reads a command line, without the name of the program. `numbers` holds for each argument the
/// number that its scale part spells, if it spells one.
pub fn parse_args(args: &Vec<String>, numbers: &Vec<Option<Scalar>>) -> (r: Result<
    Options,
    ArgError,
>)
    requires
        numbers@.len() == args@.len(),
    ensures
        answers(r, texts(args@), numbers@),
{
    let ghost all = texts(args@);
    let ghost goal = drafted(
        all,
        numbers@,
        0,
        (false, DEFAULT_PORT, Scalar { bits: ONE }, Seq::<Seq<char>>::empty()),
    );
    let mut web = false;
    let mut port: u16 = DEFAULT_PORT;
    let mut scale = Scalar { bits: ONE };
    let mut files: Vec<String> = Vec::new();
    let mut i: usize = 0;
    assert(texts(files@) == Seq::<Seq<char>>::empty());
    while i < args.len()
        invariant
            numbers@.len() == args@.len(),
            i <= args@.len(),
            all == texts(args@),
            goal == drafted(
                all,
                numbers@,
                0,
                (false, DEFAULT_PORT, Scalar { bits: ONE }, Seq::<Seq<char>>::empty()),
            ),
            goal == drafted(all, numbers@, i as nat, (web, port, scale, texts(files@))),
        decreases args@.len() - i,
    {
        let a = args[i].as_str();
        let chars = chars_of(a);
        let n = chars.len();
        assert(chars@.subrange(0, n as int) == chars@);
        assert(all[i as int] == a@);
        if *a == *"--web" || *a == *"--serve" || *a == *"-w" {
            web = true;
        } else if *a == *"--port" || *a == *"-p" {
            i += 1;
            if i >= args.len() {
                return Err(ArgError::Port);
            }
            let value = chars_of(args[i].as_str());
            assert(value@.skip(0) == all[i as int]);
            match parse_port(&value, 0) {
                Some(p) => {
                    port = p;
                },
                None => {
                    return Err(ArgError::Port);
                },
            }
        } else if starts_with(&chars, 0, n, "--port=") {
            let skip = chars_of("--port=").len();
            match parse_port(&chars, skip) {
                Some(p) => {
                    port = p;
                },
                None => {
                    return Err(ArgError::PortInline);
                },
            }
        } else if *a == *"--scale" || *a == *"-s" {
            i += 1;
            if i >= args.len() {
                return Err(ArgError::Scale);
            }
            let value = chars_of(args[i].as_str());
            assert(value@.subrange(0, value@.len() as int) == all[i as int]);
            let number = if starts_with(&value, 0, value.len(), "--scale=") {
                None
            } else {
                numbers[i]
            };
            match positive(number) {
                Some(x) => {
                    scale = x;
                },
                None => {
                    return Err(ArgError::Scale);
                },
            }
        } else if starts_with(&chars, 0, n, "--scale=") {
            match positive(numbers[i]) {
                Some(x) => {
                    scale = x;
                },
                None => {
                    return Err(ArgError::ScaleInline);
                },
            }
        } else if starts_with(&chars, 0, n, "-") {
            return Err(ArgError::Unknown(text_of(&chars, 0, n)));
        } else {
            let ghost before = files@;
            files.push(text_of(&chars, 0, n));
            assert(texts(files@) == texts(before).push(all[i as int]));
        }
        i += 1;
    }
    if files.len() > 1 {
        return Err(ArgError::Usage);
    }
    let path = match files.pop() {
        Some(path) => path,
        None => {
            let mut path = String::new();
            path.append(DEFAULT_PATH);
            path
        },
    };
    Ok(Options { web, port, scale, path })
}

proof fn lemma_drafted_scale(
    args: Seq<Seq<char>>,
    numbers: Seq<Option<Scalar>>,
    i: nat,
    draft: Draft,
)
    requires
        (Scalar { bits: 0 }).below(draft.2),
    ensures
        drafted(args, numbers, i, draft) matches Ok(r) ==> (Scalar { bits: 0 }).below(r.2),
    decreases args.len() - i,
{
    let (web, port, scale, files) = draft;
    if i < args.len() {
        lemma_drafted_scale(args, numbers, i + 1, (true, port, scale, files));
        lemma_drafted_scale(
            args,
            numbers,
            i + 1,
            (web, port, scale, files.push(args[i as int])),
        );
        if let Some(p) = port_value(args[i as int].skip("--port="@.len() as int)) {
            lemma_drafted_scale(args, numbers, i + 1, (web, p, scale, files));
        }
        if let Some(x) = scale_value(numbers[i as int]) {
            lemma_drafted_scale(args, numbers, i + 1, (web, port, x, files));
        }
        if i + 1 < args.len() {
            if let Some(p) = port_value(args[i as int + 1]) {
                lemma_drafted_scale(args, numbers, i + 2, (web, p, scale, files));
            }
            if let Some(x) = scale_value(whole_number(args[i as int + 1], numbers[i as int + 1])) {
                lemma_drafted_scale(args, numbers, i + 2, (web, port, x, files));
            }
        }
    }
}

/// The scale that a command line asks for is above zero.
pub proof fn lemma_scale_positive(
    r: Result<Options, ArgError>,
    args: Seq<Seq<char>>,
    numbers: Seq<Option<Scalar>>,
)
    requires
        answers(r, args, numbers),
    ensures
        r matches Ok(o) ==> (Scalar { bits: 0 }).below(o.scale),
{
    crate::scalar::lemma_one();
    lemma_drafted_scale(
        args,
        numbers,
        0,
        (false, DEFAULT_PORT, Scalar { bits: ONE }, Seq::<Seq<char>>::empty()),
    );
}

// ---------------------------------------------------------------------------
// Controllers
// ---------------------------------------------------------------------------

/// A controller, by its place in the list of its kind.
#[derive(Debug, Clone, Copy, PartialEq, Eq, Structural)]
pub enum Device {
    Usb(usize),
    Serial(usize),
    XInput(u32),
}

/// The first id of the serial controllers.
pub const SERIAL_BASE: usize = 10;

/// The first id of the XInput controllers.
pub const XINPUT_BASE: usize = 20;

/// The controller with an id.
pub open spec fn device_of(id: usize) -> Device {
    if id >= XINPUT_BASE {
        Device::XInput(((id - XINPUT_BASE) % 0x1_0000_0000) as u32)
    } else if id < SERIAL_BASE {
        Device::Usb(id)
    } else {
        Device::Serial((id - SERIAL_BASE) as usize)
    }
}

/// The controller with an id.
pub fn device(id: usize) -> (r: Device)
    ensures
        r == device_of(id),
{
    if id >= XINPUT_BASE {
        let slot: u64 = (id - XINPUT_BASE) as u64 % 0x1_0000_0000;
        Device::XInput(slot as u32)
    } else if id < SERIAL_BASE {
        Device::Usb(id)
    } else {
        Device::Serial(id - SERIAL_BASE)
    }
}

/// The id under which a controller is listed.
pub open spec fn listed_id(d: Device) -> int {
    match d {
        Device::Usb(i) => i as int,
        Device::Serial(i) => i + SERIAL_BASE,
        Device::XInput(slot) => slot + XINPUT_BASE,
    }
}

/// Entering the id under which a controller is listed chooses that controller, as long as there
/// are at most ten of the kinds that others follow.
pub proof fn lemma_listed_device(d: Device, id: usize)
    requires
        id == listed_id(d),
        d matches Device::Usb(i) ==> i < 10,
        d matches Device::Serial(i) ==> i < 10,
    ensures
        device_of(id) == d,
{
}

/// The id that a line of input spells.
pub open spec fn entered_id(line: Seq<char>) -> Option<usize> {
    match crate::text::unsigned_value(crate::text::trim(line), usize::MAX as nat) {
        Some(n) => Some(n as usize),
        None => None,
    }
}

/// Reads the id on a line of input.
pub fn parse_id(line: &str) -> (r: Option<usize>)
    ensures
        r == entered_id(line@),
{
    let chars = chars_of(line);
    let (from, to) = trimmed_range(&chars);
    match parse_unsigned(&chars, from, to, usize::MAX as u64) {
        Some(n) => Some(n as usize),
        None => None,
    }
}

/// The lines of the first `n` USB controllers, each an id and a name.
pub open spec fn usb_lines(devices: Seq<(usize, String)>, n: nat) -> Seq<char>
    decreases n,
{
    if n == 0 {
        seq![]
    } else {
        usb_lines(devices, (n - 1) as nat) + (crate::text::decimal(devices[n - 1].0 as nat)
            + ": "@ + devices[n - 1].1@ + "\n"@)
    }
}

/// The lines of the first `n` serial controllers, each a name and a description.
pub open spec fn serial_lines(ports: Seq<(String, String)>, n: nat) -> Seq<char>
    decreases n,
{
    if n == 0 {
        seq![]
    } else {
        serial_lines(ports, (n - 1) as nat) + (crate::text::decimal(
            (n - 1 + SERIAL_BASE) as nat,
        ) + ": "@ + ports[n - 1].0@ + " "@ + ports[n - 1].1@ + "\n"@)
    }
}

/// The lines of the XInput controllers in the first `n` slots of the list.
pub open spec fn xinput_lines(slots: Seq<u32>, n: nat) -> Seq<char>
    decreases n,
{
    if n == 0 {
        seq![]
    } else {
        xinput_lines(slots, (n - 1) as nat) + (crate::text::decimal(
            (slots[n - 1] + XINPUT_BASE) as nat,
        ) + ": XInput controller (slot "@ + crate::text::decimal(slots[n - 1] as nat) + ")\n"@)
    }
}

/// The list of controllers to choose from.
pub open spec fn device_list(
    count: usize,
    usb: Seq<(usize, String)>,
    serial: Seq<(String, String)>,
    slots: Seq<u32>,
) -> Seq<char> {
    "\nDetected "@ + crate::text::decimal(count as nat) + " gamepads:\n"@ + usb_lines(
        usb,
        usb.len(),
    ) + serial_lines(serial, serial.len()) + xinput_lines(slots, slots.len())
        + "\nEnter an id: "@
}

fn push_usb(out: &mut String, usb: &Vec<(usize, String)>)
    ensures
        final(out)@ == old(out)@ + usb_lines(usb@, usb@.len()),
{
    let ghost start = out@;
    let mut i: usize = 0;
    assert(start + Seq::<char>::empty() == start);
    while i < usb.len()
        invariant
            i <= usb@.len(),
            out@ == start + usb_lines(usb@, i as nat),
        decreases usb@.len() - i,
    {
        let ghost before = out@;
        push_decimal(out, usb[i].0 as u128);
        out.append(": ");
        out.append(usb[i].1.as_str());
        out.append("\n");
        i += 1;
    }
}

fn push_serial(out: &mut String, ports: &Vec<(String, String)>)
    ensures
        final(out)@ == old(out)@ + serial_lines(ports@, ports@.len()),
{
    let ghost start = out@;
    let mut i: usize = 0;
    assert(start + Seq::<char>::empty() == start);
    while i < ports.len()
        invariant
            i <= ports@.len(),
            out@ == start + serial_lines(ports@, i as nat),
        decreases ports@.len() - i,
    {
        push_decimal(out, i as u128 + SERIAL_BASE as u128);
        out.append(": ");
        out.append(ports[i].0.as_str());
        out.append(" ");
        out.append(ports[i].1.as_str());
        out.append("\n");
        i += 1;
    }
}

fn push_xinput(out: &mut String, slots: &Vec<u32>)
    ensures
        final(out)@ == old(out)@ + xinput_lines(slots@, slots@.len()),
{
    let ghost start = out@;
    let mut i: usize = 0;
    assert(start + Seq::<char>::empty() == start);
    while i < slots.len()
        invariant
            i <= slots@.len(),
            out@ == start + xinput_lines(slots@, i as nat),
        decreases slots@.len() - i,
    {
        push_decimal(out, slots[i] as u128 + XINPUT_BASE as u128);
        out.append(": XInput controller (slot ");
        push_decimal(out, slots[i] as u128);
        out.append(")\n");
        i += 1;
    }
}

/// The list of controllers to choose from: how many were detected, then each with its id.
pub fn menu(
    count: usize,
    usb: &Vec<(usize, String)>,
    serial: &Vec<(String, String)>,
    slots: &Vec<u32>,
) -> (r: String)
    ensures
        r@ == device_list(count, usb@, serial@, slots@),
{
    let mut out = String::new();
    out.append("\nDetected ");
    push_decimal(&mut out, count as u128);
    out.append(" gamepads:\n");
    push_usb(&mut out, usb);
    push_serial(&mut out, serial);
    push_xinput(&mut out, slots);
    out.append("\nEnter an id: ");
    out
}

} // verus!
