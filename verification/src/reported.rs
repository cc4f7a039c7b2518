//! What the reports of an XInput controller mean for the items of a layout.

use crate::gamepad::Backend;
use crate::layout::{InputState, Inputs};
use crate::scalar::Scalar;
use crate::xinput::{XInput, XInputGamepad};
use vstd::prelude::*;

verus! {

/// Whether `v` is `raw` of `full`, but for a 2^22nd of the whole. `v` is in units of 2^-149.
pub open spec fn share_of(v: int, raw: int, full: int) -> bool {
    0x40_0000 * crate::precision::size(v * full - raw * crate::scalar::unit()) <= full
        * crate::scalar::unit()
}

/// What a stick axis reports, but not beyond full deflection: it can report one step more one way.
pub open spec fn at_most_full(raw: int) -> int {
    if raw < -32767 {
        -32767
    } else {
        raw
    }
}

proof fn lemma_whole_value(negative: bool, n: nat)
    requires
        n <= 0x100_0000,
    ensures
        Scalar::of(negative, n).is_finite(),
        Scalar::of(negative, n).value() == (if negative {
            -(n * crate::scalar::unit())
        } else {
            (n * crate::scalar::unit()) as int
        }),
{
    crate::arith::lemma_whole(n);
}

proof fn lemma_share_error(a: Scalar, whole: Scalar, raw: int, full: int)
    requires
        a.is_finite(),
        whole.is_finite(),
        0 < full <= 32767,
        a.value() == raw * crate::scalar::unit(),
        whole.value() == full * crate::scalar::unit(),
        a.quotient(whole).is_finite(),
        crate::precision::size(a.quotient(whole).value()) <= 2 * crate::scalar::unit(),
    ensures
        share_of(a.quotient(whole).value(), raw, full),
{
    let u = crate::scalar::unit() as int;
    let q = a.quotient(whole).value();
    crate::scalar::lemma_one();
    crate::arith::lemma_unit_large();
    crate::precision::lemma_quotient_error(a, whole);
    crate::precision::lemma_size_product(full, u);
    assert(q * (full * u) - (raw * u) * u == (q * full - raw * u) * u) by (nonlinear_arith);
    crate::precision::lemma_size_product(q * full - raw * u, u);
    let e = crate::precision::size(q * full - raw * u);
    let s = crate::precision::size(q);
    assert(0x40_0000 * e <= full * u) by (nonlinear_arith)
        requires
            0x100_0000 * (e * u) <= (s + 0x80_0000) * (full * u),
            0 <= s <= 2 * u,
            u > 0x100_0000,
            full > 0,
    ;
}

/// A quotient of whole numbers that are not far apart is a number around 1.
proof fn lemma_share_bounded(negative: bool, n: nat, d: nat, whole: Scalar)
    requires
        n <= 32768,
        0 < d <= 32767,
        n <= d + 1,
        whole.is_finite(),
        !whole.is_signed(),
        whole.value() == d * crate::scalar::unit(),
    ensures
        ({
            let q = Scalar::of(negative, n).quotient(whole);
            q.is_finite() && crate::precision::size(q.value()) <= 2 * crate::scalar::unit()
        }),
{
    reveal(Scalar::quotient);
    let u = crate::scalar::unit();
    let a = Scalar::of(negative, n);
    let two = Scalar { bits: 0x4000_0000 };
    crate::scalar::lemma_one();
    crate::precision::lemma_two();
    lemma_whole_value(negative, n);
    let ma = crate::scalar::magnitude(a.low());
    let md = crate::scalar::magnitude(whole.low());
    assert(d * u > 0) by (nonlinear_arith)
        requires
            d > 0,
            u > 0,
    ;
    assert(ma == n * u);
    assert(ma * u <= (2 * u) * md) by (nonlinear_arith)
        requires
            ma == n * u,
            md == d * u,
            n <= 2 * d,
            u > 0,
    ;
    crate::arith::lemma_nearest_at_most(ma * u, md, 0x4000_0000);
    let q = a.quotient(whole);
    assert(q.low() == crate::scalar::nearest(ma * u, md));
    if q.low() < 0x4000_0000 {
        crate::scalar::lemma_magnitude_order(q.low(), 0x4000_0000);
    }
}

proof fn lemma_deflected(raw: i16, flip: bool)
    ensures
        ({
            let v = crate::xinput::deflection(raw, flip);
            let way = if flip {
                -at_most_full(raw as int)
            } else {
                at_most_full(raw as int)
            };
            &&& v.is_finite()
            &&& share_of(v.value(), way, 32767)
            &&& v.is_signed() == (if flip {
                raw >= 0
            } else {
                raw < 0
            })
        }),
{
    let u = crate::scalar::unit() as int;
    let negative = if flip {
        raw >= 0
    } else {
        raw < 0
    };
    let n = (if raw < 0 {
        -raw
    } else {
        raw as int
    }) as nat;
    let way = if flip {
        -(raw as int)
    } else {
        raw as int
    };
    let whole = Scalar { bits: crate::xinput::FULL_STICK };
    let a = Scalar::of(negative, n);
    let q = a.quotient(whole);
    crate::xinput::lemma_full();
    crate::scalar::lemma_one();
    lemma_whole_value(negative, n);
    lemma_share_bounded(negative, n, 32767, whole);
    assert(a.value() == way * u) by (nonlinear_arith)
        requires
            n == (if raw < 0 {
                -raw
            } else {
                raw as int
            }),
            way == (if flip {
                -(raw as int)
            } else {
                raw as int
            }),
            negative == (if flip {
                raw >= 0
            } else {
                raw < 0
            }),
            a.value() == (if negative {
                -(n * u)
            } else {
                n * u
            }),
    ;
    lemma_share_error(a, whole, way, 32767);
    assert((-1) * u == -u && 1 * u == u) by (nonlinear_arith);
    let v = q.clamped();
    let minus = Scalar { bits: (crate::scalar::ONE + crate::scalar::SIGN) as u32 };
    assert(minus.low() == crate::scalar::ONE && minus.is_signed());
    crate::arith::lemma_share(negative, n, 32767, whole);
    if raw == -32768 {
        // One step beyond full is limited to full.
        lemma_beyond_full(negative, whole);
        assert((-32767) * u == -(32767 * u) && 32767 * u == u * 32767) by (nonlinear_arith);
        assert((-u) * 32767 == -(u * 32767)) by (nonlinear_arith);
    } else {
        if q.low() < crate::scalar::ONE {
            crate::scalar::lemma_magnitude_order(q.low(), crate::scalar::ONE as nat);
        }
        assert(v == q);
    }
}

proof fn lemma_beyond_full(negative: bool, whole: Scalar)
    requires
        whole.is_finite(),
        !whole.is_signed(),
        whole.value() == 32767 * crate::scalar::unit(),
    ensures
        ({
            let q = Scalar::of(negative, 32768).quotient(whole);
            let u = crate::scalar::unit();
            !q.is_nan() && (if negative {
                q.value() <= -u
            } else {
                q.value() >= u
            })
        }),
{
    reveal(Scalar::quotient);
    let u = crate::scalar::unit();
    crate::scalar::lemma_one();
    lemma_whole_value(negative, 32768);
    lemma_share_bounded(negative, 32768, 32767, whole);
    let a = Scalar::of(negative, 32768);
    let ma = crate::scalar::magnitude(a.low());
    let md = crate::scalar::magnitude(whole.low());
    assert(u * md <= ma * u) by (nonlinear_arith)
        requires
            ma == 32768 * u,
            md == 32767 * u,
            u > 0,
    ;
    crate::arith::lemma_nearest_at_least(ma * u, md, crate::scalar::ONE as nat);
    let q = a.quotient(whole);
    assert(q.low() == crate::scalar::nearest(ma * u, md));
    if q.low() > crate::scalar::ONE {
        crate::scalar::lemma_magnitude_order(crate::scalar::ONE as nat, q.low());
    }
}

/// An axis is the share of the full deflection that its stick reports: right and down are positive,
/// though the controller reports up as positive, and a vertical axis at rest is a negative zero. A
/// trigger is the share of its full pull. There are
/// no other axes.
pub proof fn lemma_axis_share(g: XInputGamepad, id: u8)
    ensures
        ({
            let v = crate::xinput::axis_value(g, id).value();
            &&& crate::xinput::axis_value(g, id).is_finite()
            &&& id == 0 ==> share_of(v, at_most_full(g.thumb_lx as int), 32767)
            &&& id == 1 ==> share_of(v, -at_most_full(g.thumb_ly as int), 32767)
            &&& id == 2 ==> share_of(v, at_most_full(g.thumb_rx as int), 32767)
            &&& id == 3 ==> share_of(v, -at_most_full(g.thumb_ry as int), 32767)
            &&& id == 16 ==> share_of(v, g.left_trigger as int, 255)
            &&& id == 17 ==> share_of(v, g.right_trigger as int, 255)
            &&& id > 3 && id != 16 && id != 17 ==> v == 0
            &&& id == 0 ==> crate::xinput::axis_value(g, id).is_signed() == (g.thumb_lx < 0)
            &&& id == 1 ==> crate::xinput::axis_value(g, id).is_signed() == (g.thumb_ly >= 0)
            &&& id == 2 ==> crate::xinput::axis_value(g, id).is_signed() == (g.thumb_rx < 0)
            &&& id == 3 ==> crate::xinput::axis_value(g, id).is_signed() == (g.thumb_ry >= 0)
        }),
{
    crate::scalar::lemma_one();
    lemma_deflected(g.thumb_lx, false);
    lemma_deflected(g.thumb_ly, true);
    lemma_deflected(g.thumb_rx, false);
    lemma_deflected(g.thumb_ry, true);
    lemma_pulled(g.left_trigger);
    lemma_pulled(g.right_trigger);
}

proof fn lemma_pulled(raw: u8)
    ensures
        crate::xinput::pull(raw).is_finite(),
        share_of(crate::xinput::pull(raw).value(), raw as int, 255),
{
    let whole = Scalar { bits: crate::xinput::FULL_TRIGGER };
    crate::xinput::lemma_full();
    crate::scalar::lemma_one();
    lemma_whole_value(false, raw as nat);
    lemma_share_bounded(false, raw as nat, 255, whole);
    lemma_share_error(Scalar::of(false, raw as nat), whole, raw as int, 255);
}

/// A button is pressed while its bit of the mask is set; triggers are buttons as well, pressed while
/// they are pulled by more than 40 of 255. There are no other buttons.
pub proof fn lemma_button_pressed(g: XInputGamepad, id: u8)
    ensures
        id <= 15 ==> crate::xinput::button_value(g, id) == ((g.buttons >> (id as u16)) & 1 == 1),
        id == 16 ==> crate::xinput::button_value(g, id) == (g.left_trigger > 40),
        id == 17 ==> crate::xinput::button_value(g, id) == (g.right_trigger > 40),
        id > 17 ==> !crate::xinput::button_value(g, id),
{
}

/// Whether two readings of an axis are the same number.
pub open spec fn same_number(a: Scalar, b: Scalar) -> bool {
    !a.is_nan() && !b.is_nan() && a.value() == b.value()
}

/// A report brings every item of the layout up to date, by the ids of the item, and leaves what does
/// not belong to the layout as it is. It says that something changed exactly if some item did.
/// Without a report nothing changes.
pub proof fn lemma_report_shown(
    x: XInput,
    inputs: Inputs,
    before: InputState,
    after: InputState,
    changed: bool,
)
    requires
        x.tracks(&inputs),
        x.takes(before),
        x.reports(before, after, changed),
    ensures
        after.buttons@.len() == before.buttons@.len(),
        after.sticks@.len() == before.sticks@.len(),
        after.axes@.len() == before.axes@.len(),
        x.reading is None ==> !changed && after == before,
        x.reading matches Some(g) ==> {
            &&& forall|i: int|
                0 <= i < after.buttons@.len() ==> #[trigger] after.buttons@[i] == (if i
                    < inputs.buttons@.len() {
                    crate::xinput::button_value(g, inputs.buttons@[i].id)
                } else {
                    before.buttons@[i]
                })
            &&& forall|i: int|
                0 <= i < after.sticks@.len() ==> #[trigger] after.sticks@[i] == (if i
                    < inputs.sticks@.len() {
                    (
                        crate::xinput::axis_value(g, inputs.sticks@[i].x.id),
                        crate::xinput::axis_value(g, inputs.sticks@[i].y.id),
                    )
                } else {
                    before.sticks@[i]
                })
            &&& forall|i: int|
                0 <= i < after.axes@.len() ==> #[trigger] after.axes@[i] == (if i
                    < inputs.axes@.len() {
                    crate::xinput::axis_value(g, inputs.axes@[i].axis.id)
                } else {
                    before.axes@[i]
                })
            &&& !changed <==> {
                &&& forall|i: int|
                    0 <= i < inputs.buttons@.len() ==> #[trigger] before.buttons@[i]
                        == after.buttons@[i]
                &&& forall|i: int|
                    0 <= i < inputs.sticks@.len() ==> same_number(
                        (#[trigger] before.sticks@[i]).0,
                        after.sticks@[i].0,
                    ) && same_number(before.sticks@[i].1, after.sticks@[i].1)
                &&& forall|i: int|
                    0 <= i < inputs.axes@.len() ==> same_number(
                        #[trigger] before.axes@[i],
                        after.axes@[i],
                    )
            }
        },
{
    assert(x.button_ids@.len() == inputs.buttons@.len());
    assert(x.sticks@.len() == inputs.sticks@.len());
    assert(x.axis_ids@.len() == inputs.axes@.len());
    if let Some(g) = x.reading {
        assert forall|i: int| 0 <= i < x.sticks@.len() implies same_number(
            (#[trigger] before.sticks@[i]).0,
            after.sticks@[i].0,
        ) == before.sticks@[i].0.equals(after.sticks@[i].0) && same_number(
            before.sticks@[i].1,
            after.sticks@[i].1,
        ) == before.sticks@[i].1.equals(after.sticks@[i].1) by {}
        assert forall|i: int| 0 <= i < x.axis_ids@.len() implies same_number(
            #[trigger] before.axes@[i],
            after.axes@[i],
        ) == before.axes@[i].equals(after.axes@[i]) by {}
    }
}

/// Asking for a report leaves a source as it is. Setting it up for another layout keeps its slot and
/// what the controller last reported.
pub proof fn lemma_source_kept(x: XInput, inputs: Inputs, after: XInput)
    ensures
        x.polled(after) ==> after.slot == x.slot && after.reading == x.reading && after.button_ids@
            == x.button_ids@ && after.sticks@ == x.sticks@ && after.axis_ids@ == x.axis_ids@,
        x.reloaded(&inputs, after) ==> after.slot == x.slot && after.reading == x.reading,
{
}

/// The slots are listed in order, and none twice.
pub proof fn lemma_slots_ordered(status: Seq<u32>, n: nat, i: int, j: int)
    requires
        n <= 4,
        0 <= i < j < crate::xinput::connected(status, n).len(),
    ensures
        crate::xinput::connected(status, n)[i] < crate::xinput::connected(status, n)[j] < n,
    decreases n,
{
    let m = (n - 1) as nat;
    let before = crate::xinput::connected(status, m);
    if j < before.len() {
        lemma_slots_ordered(status, m, i, j);
    } else {
        lemma_slots_below(status, m, i);
    }
}

proof fn lemma_slots_below(status: Seq<u32>, n: nat, i: int)
    requires
        n <= 4,
        0 <= i < crate::xinput::connected(status, n).len(),
    ensures
        crate::xinput::connected(status, n)[i] < n,
    decreases n,
{
    let m = (n - 1) as nat;
    if i < crate::xinput::connected(status, m).len() {
        lemma_slots_below(status, m, i);
    }
}

} // verus!
