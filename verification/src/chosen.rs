//! What the list of controllers offers, and what entering an id chooses.

use crate::cli::Device;
use vstd::prelude::*;

verus! {

/// Whether all of `s` is white space.
pub open spec fn blank(s: Seq<char>) -> bool {
    forall|i: int| 0 <= i < s.len() ==> crate::text::is_white(#[trigger] s[i])
}

proof fn lemma_trim_start(a: Seq<char>, s: Seq<char>)
    requires
        blank(a),
        s.len() > 0,
        !crate::text::is_white(s[0]),
    ensures
        crate::text::trim_start(a + s) == s,
    decreases a.len(),
{
    if a.len() == 0 {
        assert(a + s == s);
    } else {
        let b = a.skip(1);
        assert(blank(b)) by {
            assert forall|i: int| 0 <= i < b.len() implies crate::text::is_white(
                #[trigger] b[i],
            ) by {
                assert(b[i] == a[i + 1]);
            }
        }
        lemma_trim_start(b, s);
        assert((a + s).skip(1) == b + s);
        assert((a + s)[0] == a[0]);
    }
}

proof fn lemma_trim_end(s: Seq<char>, a: Seq<char>)
    requires
        blank(a),
        s.len() > 0,
        !crate::text::is_white(s.last()),
    ensures
        crate::text::trim_end(s + a) == s,
    decreases a.len(),
{
    if a.len() == 0 {
        assert(s + a == s);
    } else {
        let b = a.drop_last();
        assert(blank(b)) by {
            assert forall|i: int| 0 <= i < b.len() implies crate::text::is_white(
                #[trigger] b[i],
            ) by {
                assert(b[i] == a[i]);
            }
        }
        lemma_trim_end(s, b);
        assert((s + a).drop_last() == s + b);
        assert((s + a).last() == a.last());
    }
}

/// A number that is entered is read as that number, whatever white space is around it.
pub proof fn lemma_id_entered(before: Seq<char>, digits: Seq<char>, after: Seq<char>, n: usize)
    requires
        blank(before),
        blank(after),
        digits.len() > 0,
        crate::text::digits_value(digits) == Some(n as nat),
    ensures
        crate::cli::entered_id(before + digits + after) == Some(n),
{
    lemma_digits(digits, 0);
    lemma_digits(digits, digits.len() - 1);
    let s = digits + after;
    assert(s[0] == digits[0]);
    assert(before + digits + after == before + s);
    lemma_trim_start(before, s);
    lemma_trim_end(digits, after);
}

proof fn lemma_digits(s: Seq<char>, i: int)
    requires
        0 <= i < s.len(),
        crate::text::digits_value(s) is Some,
    ensures
        crate::text::digit_value(s[i]) is Some,
        !crate::text::is_white(s[i]),
        s[i] != '+',
    decreases s.len(),
{
    if i < s.len() - 1 {
        lemma_digits(s.drop_last(), i);
        assert(s.drop_last()[i] == s[i]);
    } else {
        assert(s[i] == s.last());
    }
}

/// Whether a line of a list offers a controller: `id` is what is to be entered for it, and `about`
/// what is said of it.
pub open spec fn offered(
    list: Seq<char>,
    id: Seq<char>,
    about: Seq<char>,
    above: Seq<char>,
    below: Seq<char>,
) -> bool {
    list == above + seq!['\n'] + id + ": "@ + about + seq!['\n'] + below
}

/// Whether entering `id` chooses a controller.
pub open spec fn chooses(id: Seq<char>, d: Device) -> bool {
    crate::cli::entered_id(id) matches Some(n) && crate::cli::device_of(n) == d
}

spec fn broken(s: Seq<char>) -> bool {
    s.len() > 0 && s.last() == '\n'
}

proof fn lemma_usb_lines(devices: Seq<(usize, String)>, i: nat, n: nat) -> (below: Seq<char>)
    requires
        i < n <= devices.len(),
    ensures
        crate::cli::usb_lines(devices, n) == crate::cli::usb_lines(devices, i) + (
        crate::text::decimal(devices[i as int].0 as nat) + ": "@ + devices[i as int].1@ + "\n"@)
            + below,
    decreases n,
{
    if i == n - 1 {
        let below = Seq::<char>::empty();
        assert(crate::cli::usb_lines(devices, n) == crate::cli::usb_lines(devices, n) + below);
        below
    } else {
        let rest = lemma_usb_lines(devices, i, (n - 1) as nat);
        let line = crate::text::decimal(devices[n - 1].0 as nat) + ": "@ + devices[n - 1].1@
            + "\n"@;
        assert(crate::cli::usb_lines(devices, i) + (crate::text::decimal(
            devices[i as int].0 as nat,
        ) + ": "@ + devices[i as int].1@ + "\n"@) + rest + line == crate::cli::usb_lines(devices, i)
            + (crate::text::decimal(devices[i as int].0 as nat) + ": "@ + devices[i as int].1@
            + "\n"@) + (rest + line));
        rest + line
    }
}

proof fn lemma_usb_broken(head: Seq<char>, devices: Seq<(usize, String)>, n: nat)
    requires
        broken(head),
        n <= devices.len(),
    ensures
        broken(head + crate::cli::usb_lines(devices, n)),
    decreases n,
{
    reveal_strlit("\n");
    assert("\n"@.last() == '\n' && "\n"@.len() == 1);
    let lines = crate::cli::usb_lines(devices, n);
    if n == 0 {
        assert(head + lines == head);
    } else {
        assert(lines.last() == '\n');
        assert((head + lines).last() == lines.last());
    }
}

proof fn lemma_serial_lines(ports: Seq<(String, String)>, i: nat, n: nat) -> (below: Seq<char>)
    requires
        i < n <= ports.len(),
    ensures
        crate::cli::serial_lines(ports, n) == crate::cli::serial_lines(ports, i) + (
        crate::text::decimal((i + 10) as nat) + ": "@ + (ports[i as int].0@ + " "@
            + ports[i as int].1@) + "\n"@) + below,
    decreases n,
{
    let line = crate::text::decimal((n - 1 + 10) as nat) + ": "@ + (ports[n - 1].0@ + " "@ + ports[n
        - 1].1@) + "\n"@;
    assert(crate::cli::serial_lines(ports, n) == crate::cli::serial_lines(ports, (n - 1) as nat)
        + line);
    if i == n - 1 {
        let below = Seq::<char>::empty();
        assert(crate::cli::serial_lines(ports, n) == crate::cli::serial_lines(ports, n) + below);
        below
    } else {
        let rest = lemma_serial_lines(ports, i, (n - 1) as nat);
        let first = crate::text::decimal((i + 10) as nat) + ": "@ + (ports[i as int].0@ + " "@
            + ports[i as int].1@) + "\n"@;
        assert(crate::cli::serial_lines(ports, i) + first + rest + line
            == crate::cli::serial_lines(ports, i) + first + (rest + line));
        rest + line
    }
}

proof fn lemma_serial_broken(head: Seq<char>, ports: Seq<(String, String)>, n: nat)
    requires
        broken(head),
        n <= ports.len(),
    ensures
        broken(head + crate::cli::serial_lines(ports, n)),
    decreases n,
{
    reveal_strlit("\n");
    assert("\n"@.last() == '\n' && "\n"@.len() == 1);
    let lines = crate::cli::serial_lines(ports, n);
    if n == 0 {
        assert(head + lines == head);
    } else {
        assert(lines.last() == '\n');
        assert((head + lines).last() == lines.last());
    }
}

proof fn lemma_xinput_lines(slots: Seq<u32>, i: nat, n: nat) -> (below: Seq<char>)
    requires
        i < n <= slots.len(),
    ensures
        crate::cli::xinput_lines(slots, n) == crate::cli::xinput_lines(slots, i) + (
        crate::text::decimal((slots[i as int] + 20) as nat) + ": "@ + (
        "XInput controller (slot "@ + crate::text::decimal(slots[i as int] as nat) + ")"@) + "\n"@)
            + below,
    decreases n,
{
    reveal_strlit(": XInput controller (slot ");
    reveal_strlit("XInput controller (slot ");
    reveal_strlit(": ");
    reveal_strlit(")\n");
    reveal_strlit(")");
    reveal_strlit("\n");
    assert(": XInput controller (slot "@ == ": "@ + "XInput controller (slot "@);
    assert(")\n"@ == ")"@ + "\n"@);
    let line = crate::text::decimal((slots[n - 1] + 20) as nat) + ": "@ + (
    "XInput controller (slot "@ + crate::text::decimal(slots[n - 1] as nat) + ")"@) + "\n"@;
    assert(crate::cli::xinput_lines(slots, n) == crate::cli::xinput_lines(slots, (n - 1) as nat)
        + line);
    if i == n - 1 {
        let below = Seq::<char>::empty();
        assert(crate::cli::xinput_lines(slots, n) == crate::cli::xinput_lines(slots, n) + below);
        below
    } else {
        let rest = lemma_xinput_lines(slots, i, (n - 1) as nat);
        let first = crate::text::decimal((slots[i as int] + 20) as nat) + ": "@ + (
        "XInput controller (slot "@ + crate::text::decimal(slots[i as int] as nat) + ")"@) + "\n"@;
        assert(crate::cli::xinput_lines(slots, i) + first + rest + line
            == crate::cli::xinput_lines(slots, i) + first + (rest + line));
        rest + line
    }
}

proof fn lemma_xinput_broken(head: Seq<char>, slots: Seq<u32>, n: nat)
    requires
        broken(head),
        n <= slots.len(),
    ensures
        broken(head + crate::cli::xinput_lines(slots, n)),
    decreases n,
{
    reveal_strlit(")\n");
    assert(")\n"@.last() == '\n' && ")\n"@.len() == 2);
    let lines = crate::cli::xinput_lines(slots, n);
    if n == 0 {
        assert(head + lines == head);
    } else {
        assert(lines.last() == '\n');
        assert((head + lines).last() == lines.last());
    }
}

spec fn list_head(count: usize) -> Seq<char> {
    "\nDetected "@ + crate::text::decimal(count as nat) + " gamepads:\n"@
}

proof fn lemma_head_broken(count: usize)
    ensures
        broken(list_head(count)),
{
    reveal_strlit(" gamepads:\n");
    assert(" gamepads:\n"@.last() == '\n' && " gamepads:\n"@.len() == 11);
}

proof fn lemma_line(
    list: Seq<char>,
    head: Seq<char>,
    id: Seq<char>,
    about: Seq<char>,
    below: Seq<char>,
)
    requires
        broken(head),
        list == head + (id + ": "@ + about + "\n"@) + below,
    ensures
        offered(list, id, about, head.drop_last(), below),
{
    reveal_strlit("\n");
    assert("\n"@ == seq!['\n']);
    assert(head.drop_last() + seq!['\n'] == head);
    assert(head + id + ": "@ + about + seq!['\n'] + below == list);
}

proof fn lemma_apart(
    head: Seq<char>,
    above: Seq<char>,
    line: Seq<char>,
    below: Seq<char>,
    rest: Seq<char>,
)
    ensures
        head + (above + line + below) + rest == (head + above) + line + (below + rest),
{
    assert(head + (above + line + below) + rest =~= (head + above) + line + (below + rest));
}

/// The list starts by how many controllers were detected.
pub proof fn lemma_list_counts(
    count: usize,
    usb: Seq<(usize, String)>,
    serial: Seq<(String, String)>,
    slots: Seq<u32>,
)
    ensures
        exists|n: Seq<char>, rest: Seq<char>|
            crate::cli::device_list(count, usb, serial, slots) == #[trigger] ("\nDetected "@ + n
                + " gamepads:\n"@ + rest) && crate::text::digits_value(n) == Some(count as nat),
{
    let u = crate::cli::usb_lines(usb, usb.len());
    let s = crate::cli::serial_lines(serial, serial.len());
    let x = crate::cli::xinput_lines(slots, slots.len());
    let last = "\nEnter an id: "@;
    let n = crate::text::decimal(count as nat);
    crate::text::lemma_decimal(count as nat);
    let head = "\nDetected "@ + n + " gamepads:\n"@;
    assert(head + u + s + x + last =~= head + (u + s + x + last));
    assert(crate::cli::device_list(count, usb, serial, slots) == "\nDetected "@ + n
        + " gamepads:\n"@ + (u + s + x + last));
}

/// A USB controller is on a line of its own, with its name. Entering the id of the line chooses it.
pub proof fn lemma_usb_offered(
    count: usize,
    usb: Seq<(usize, String)>,
    serial: Seq<(String, String)>,
    slots: Seq<u32>,
    i: int,
)
    requires
        0 <= i < usb.len(),
        usb[i].0 < 10,
    ensures
        exists|id: Seq<char>, a: Seq<char>, b: Seq<char>|
            #[trigger] offered(
                crate::cli::device_list(count, usb, serial, slots),
                id,
                usb[i].1@,
                a,
                b,
            ) && chooses(id, Device::Usb(usb[i].0)),
{
    let list = crate::cli::device_list(count, usb, serial, slots);
    let head = list_head(count);
    let s = crate::cli::serial_lines(serial, serial.len());
    let x = crate::cli::xinput_lines(slots, slots.len());
    let last = "\nEnter an id: "@;
    lemma_head_broken(count);
    let below = lemma_usb_lines(usb, i as nat, usb.len());
    let before = crate::cli::usb_lines(usb, i as nat);
    let id = crate::text::decimal(usb[i].0 as nat);
    let line = id + ": "@ + usb[i].1@ + "\n"@;
    let rest = s + x + last;
    lemma_usb_broken(head, usb, i as nat);
    assert(list == head + (before + line + below) + s + x + last);
    assert(list =~= head + (before + line + below) + rest);
    lemma_apart(head, before, line, below, rest);
    lemma_line(list, head + before, id, usb[i].1@, below + rest);
    lemma_chooses(usb[i].0, Device::Usb(usb[i].0));
}

/// A serial controller is on a line of its own, with its name and what it is. Entering the id of the
/// line chooses it, as long as it is one of the first ten.
pub proof fn lemma_serial_offered(
    count: usize,
    usb: Seq<(usize, String)>,
    serial: Seq<(String, String)>,
    slots: Seq<u32>,
    i: int,
)
    requires
        0 <= i < serial.len(),
        i < 10,
    ensures
        exists|id: Seq<char>, a: Seq<char>, b: Seq<char>|
            #[trigger] offered(
                crate::cli::device_list(count, usb, serial, slots),
                id,
                serial[i].0@ + " "@ + serial[i].1@,
                a,
                b,
            ) && chooses(id, Device::Serial(i as usize)),
{
    let list = crate::cli::device_list(count, usb, serial, slots);
    let head = list_head(count);
    let u = crate::cli::usb_lines(usb, usb.len());
    let x = crate::cli::xinput_lines(slots, slots.len());
    let last = "\nEnter an id: "@;
    lemma_head_broken(count);
    let below = lemma_serial_lines(serial, i as nat, serial.len());
    let before = crate::cli::serial_lines(serial, i as nat);
    let id = crate::text::decimal((i + 10) as nat);
    let about = serial[i].0@ + " "@ + serial[i].1@;
    let line = id + ": "@ + about + "\n"@;
    let rest = x + last;
    lemma_usb_broken(head, usb, usb.len());
    lemma_serial_broken(head + u, serial, i as nat);
    assert(list == (head + u) + (before + line + below) + x + last);
    assert(list =~= (head + u) + (before + line + below) + rest);
    lemma_apart(head + u, before, line, below, rest);
    lemma_line(list, head + u + before, id, about, below + rest);
    lemma_chooses((i + 10) as usize, Device::Serial(i as usize));
}

/// An XInput controller is on a line of its own, with its slot. Entering the id of the line chooses
/// it.
pub proof fn lemma_xinput_offered(
    count: usize,
    usb: Seq<(usize, String)>,
    serial: Seq<(String, String)>,
    slots: Seq<u32>,
    i: int,
)
    requires
        0 <= i < slots.len(),
        slots[i] + 20 <= usize::MAX,
    ensures
        exists|id: Seq<char>, a: Seq<char>, b: Seq<char>, slot: Seq<char>|
            #[trigger] offered(
                crate::cli::device_list(count, usb, serial, slots),
                id,
                "XInput controller (slot "@ + slot + ")"@,
                a,
                b,
            ) && crate::text::digits_value(slot) == Some(slots[i] as nat) && chooses(
                id,
                Device::XInput(slots[i]),
            ),
{
    let list = crate::cli::device_list(count, usb, serial, slots);
    let head = list_head(count);
    let u = crate::cli::usb_lines(usb, usb.len());
    let s = crate::cli::serial_lines(serial, serial.len());
    let last = "\nEnter an id: "@;
    lemma_head_broken(count);
    let below = lemma_xinput_lines(slots, i as nat, slots.len());
    let before = crate::cli::xinput_lines(slots, i as nat);
    let id = crate::text::decimal((slots[i] + 20) as nat);
    let slot = crate::text::decimal(slots[i] as nat);
    let about = "XInput controller (slot "@ + slot + ")"@;
    let line = id + ": "@ + about + "\n"@;
    lemma_usb_broken(head, usb, usb.len());
    lemma_serial_broken(head + u, serial, serial.len());
    lemma_xinput_broken(head + u + s, slots, i as nat);
    lemma_apart(head + u + s, before, line, below, last);
    assert(list == (head + u + s) + (before + line + below) + last);
    lemma_line(list, head + u + s + before, id, about, below + last);
    crate::text::lemma_decimal(slots[i] as nat);
    lemma_chooses((slots[i] + 20) as usize, Device::XInput(slots[i]));
    assert(offered(
        list,
        id,
        "XInput controller (slot "@ + slot + ")"@,
        (head + u + s + before).drop_last(),
        below + last,
    ));
}

proof fn lemma_chooses(n: usize, d: Device)
    requires
        crate::cli::device_of(n) == d,
    ensures
        chooses(crate::text::decimal(n as nat), d),
{
    let s = crate::text::decimal(n as nat);
    let none = Seq::<char>::empty();
    crate::text::lemma_decimal(n as nat);
    lemma_id_entered(none, s, none, n);
    assert(none + s + none == s);
}

} // verus!
