//! What each option of a command line does to what the command line asks for.

use crate::cli::{ArgError, Draft, Fault, Options};
use crate::scalar::{Scalar, ONE};
use vstd::prelude::*;

verus! {

/// Arguments.
pub type Args = Seq<Seq<char>>;

/// Whether a text spells the number `n`: digits, with a plus sign before them or not.
pub open spec fn spells(v: Seq<char>, n: nat) -> bool {
    ||| v.len() > 0 && crate::text::digits_value(v) == Some(n)
    ||| v.len() > 1 && v[0] == '+' && crate::text::digits_value(v.skip(1)) == Some(n)
}

/// Whether an argument asks to serve the overlay.
pub open spec fn web_flag(a: Seq<char>) -> bool {
    a == "--web"@ || a == "--serve"@ || a == "-w"@
}

/// Whether the port follows an argument.
pub open spec fn port_flag(a: Seq<char>) -> bool {
    a == "--port"@ || a == "-p"@
}

/// Whether the scale follows an argument.
pub open spec fn scale_flag(a: Seq<char>) -> bool {
    a == "--scale"@ || a == "-s"@
}

/// Whether an argument starts with `prefix`.
pub open spec fn begins(a: Seq<char>, prefix: Seq<char>) -> bool {
    a.len() >= prefix.len() && forall|i: int| 0 <= i < prefix.len() ==> #[trigger] a[i] == prefix[i]
}

/// Whether an argument starts with a dash.
pub open spec fn dashed(a: Seq<char>) -> bool {
    a.len() > 0 && a[0] == '-'
}

/// Whether `f` asks to serve the overlay.
pub open spec fn web_option(f: Args) -> bool {
    f.len() == 1 && web_flag(f[0])
}

/// Whether `f` asks for the port `n`.
pub open spec fn port_option(f: Args, n: nat) -> bool {
    &&& n <= 65535
    &&& {
        ||| f.len() == 2 && port_flag(f[0]) && spells(f[1], n)
        ||| f.len() == 1 && begins(f[0], "--port="@) && spells(f[0].skip(7), n)
    }
}

/// Whether a number is above zero.
pub open spec fn above_zero(x: Scalar) -> bool {
    !x.is_nan() && x.value() > 0
}

/// Whether `f` asks for the scale `x`, where `numbers` are what its arguments spell.
pub open spec fn scale_option(f: Args, numbers: Seq<Option<Scalar>>, x: Scalar) -> bool {
    &&& above_zero(x)
    &&& {
        ||| f.len() == 2 && scale_flag(f[0]) && !begins(f[1], "--scale="@) && numbers[1] == Some(x)
        ||| f.len() == 1 && begins(f[0], "--scale="@) && numbers[0] == Some(x)
    }
}

/// Whether `f` names the layout `v`.
pub open spec fn file_option(f: Args, v: Seq<char>) -> bool {
    f.len() == 1 && f[0] == v && !dashed(v)
}

proof fn lemma_begins(a: Seq<char>, prefix: Seq<char>)
    ensures
        begins(a, prefix) == crate::text::has_prefix(a, prefix),
{
    if begins(a, prefix) {
        assert(a.take(prefix.len() as int) == prefix);
    }
    if crate::text::has_prefix(a, prefix) {
        assert forall|i: int| 0 <= i < prefix.len() implies #[trigger] a[i] == prefix[i] by {
            assert(a.take(prefix.len() as int)[i] == a[i]);
        }
    }
}

proof fn lemma_words()
    ensures
        "--web"@ == seq!['-', '-', 'w', 'e', 'b'],
        "--serve"@ == seq!['-', '-', 's', 'e', 'r', 'v', 'e'],
        "-w"@ == seq!['-', 'w'],
        "--port"@ == seq!['-', '-', 'p', 'o', 'r', 't'],
        "-p"@ == seq!['-', 'p'],
        "--port="@ == seq!['-', '-', 'p', 'o', 'r', 't', '='],
        "--scale"@ == seq!['-', '-', 's', 'c', 'a', 'l', 'e'],
        "-s"@ == seq!['-', 's'],
        "--scale="@ == seq!['-', '-', 's', 'c', 'a', 'l', 'e', '='],
        "-"@ == seq!['-'],
{
    reveal_strlit("--web");
    reveal_strlit("--serve");
    reveal_strlit("-w");
    reveal_strlit("--port");
    reveal_strlit("-p");
    reveal_strlit("--port=");
    reveal_strlit("--scale");
    reveal_strlit("-s");
    reveal_strlit("--scale=");
    reveal_strlit("-");
    assert("--web"@ =~= seq!['-', '-', 'w', 'e', 'b']);
    assert("--serve"@ =~= seq!['-', '-', 's', 'e', 'r', 'v', 'e']);
    assert("-w"@ =~= seq!['-', 'w']);
    assert("--port"@ =~= seq!['-', '-', 'p', 'o', 'r', 't']);
    assert("-p"@ =~= seq!['-', 'p']);
    assert("--port="@ =~= seq!['-', '-', 'p', 'o', 'r', 't', '=']);
    assert("--scale"@ =~= seq!['-', '-', 's', 'c', 'a', 'l', 'e']);
    assert("-s"@ =~= seq!['-', 's']);
    assert("--scale="@ =~= seq!['-', '-', 's', 'c', 'a', 'l', 'e', '=']);
    assert("-"@ =~= seq!['-']);
}

proof fn lemma_kinds(a: Seq<char>)
    ensures
        crate::text::has_prefix(a, "--port="@) == begins(a, "--port="@),
        crate::text::has_prefix(a, "--scale="@) == begins(a, "--scale="@),
        crate::text::has_prefix(a, "-"@) == dashed(a),
        "--port="@.len() == 7,
        web_flag(a) ==> dashed(a) && !port_flag(a) && !scale_flag(a) && !begins(a, "--port="@)
            && !begins(a, "--scale="@),
        port_flag(a) ==> dashed(a) && !scale_flag(a) && !begins(a, "--port="@) && !begins(
            a,
            "--scale="@,
        ),
        scale_flag(a) ==> dashed(a) && !begins(a, "--port="@) && !begins(a, "--scale="@),
        begins(a, "--port="@) ==> dashed(a) && !begins(a, "--scale="@),
        begins(a, "--scale="@) ==> dashed(a),
{
    lemma_words();
    lemma_begins(a, "--port="@);
    lemma_begins(a, "--scale="@);
    lemma_begins(a, "-"@);
    let p = "--port="@;
    let s = "--scale="@;
    assert(p[2] == 'p' && p[6] == '=' && s[2] == 's' && s[7] == '=' && p[0] == '-' && s[0] == '-');
    if begins(a, p) {
        assert(a[0] == p[0] && a[2] == p[2] && a[6] == p[6]);
    }
    if begins(a, s) {
        assert(a[0] == s[0] && a[2] == s[2] && a[7] == s[7]);
    }
    if web_flag(a) {
        assert(a == "--web"@ || a == "--serve"@ || a == "-w"@);
        assert(a.len() == 5 || a.len() == 7 || a.len() == 2);
        assert(a.len() == 5 ==> a[2] == 'w');
        assert(a.len() == 7 ==> a[2] == 's' && a[3] == 'e' && "--scale"@[3] == 'c');
        assert(a.len() == 2 ==> a[1] == 'w' && "-p"@[1] == 'p' && "-s"@[1] == 's');
    }
    if port_flag(a) {
        assert(a.len() == 6 || a.len() == 2);
        assert(a.len() == 2 ==> a[1] == 'p' && "-s"@[1] == 's');
    }
    if scale_flag(a) {
        assert(a.len() == 7 || a.len() == 2);
        assert(a.len() == 7 ==> a[2] == 's');
    }
    assert(a.len() == 1 ==> a.take(1) == a);
}

proof fn lemma_spelled(v: Seq<char>, n: nat)
    requires
        spells(v, n),
        n <= 65535,
    ensures
        crate::cli::port_value(v) == Some(n as u16),
{
    if v[0] == '+' {
        lemma_no_digit(v);
        assert(v.len() > 1 && crate::text::digits_value(v.skip(1)) == Some(n));
    }
}

proof fn lemma_no_digit(v: Seq<char>)
    requires
        v.len() > 0,
        v[0] == '+',
    ensures
        crate::text::digits_value(v) is None,
    decreases v.len(),
{
    if v.len() > 1 {
        assert(v.drop_last()[0] == '+');
        lemma_no_digit(v.drop_last());
    }
}

proof fn lemma_unspelled(v: Seq<char>)
    requires
        forall|n: nat| n <= 65535 ==> !#[trigger] spells(v, n),
    ensures
        crate::cli::port_value(v) is None,
{
    if let Some(p) = crate::cli::port_value(v) {
        assert(spells(v, p as nat));
    }
}

/// Reading goes on behind what was read.
proof fn lemma_shifted(
    x: Args,
    nx: Seq<Option<Scalar>>,
    y: Args,
    ny: Seq<Option<Scalar>>,
    i: nat,
    d: Draft,
)
    requires
        nx.len() == x.len(),
        ny.len() == y.len(),
    ensures
        crate::cli::drafted(x + y, nx + ny, x.len() + i, d) == crate::cli::drafted(y, ny, i, d),
    decreases y.len() - i,
{
    let all = x + y;
    let numbers = nx + ny;
    let k = x.len() + i;
    let (web, port, scale, files) = d;
    if i < y.len() {
        let a = y[i as int];
        assert(all[k as int] == a);
        assert(numbers[k as int] == ny[i as int]);
        lemma_shifted(x, nx, y, ny, i + 1, (true, port, scale, files));
        lemma_shifted(x, nx, y, ny, i + 1, (web, port, scale, files.push(a)));
        if let Some(p) = crate::cli::port_value(a.skip("--port="@.len() as int)) {
            lemma_shifted(x, nx, y, ny, i + 1, (web, p, scale, files));
        }
        if let Some(v) = crate::cli::scale_value(ny[i as int]) {
            lemma_shifted(x, nx, y, ny, i + 1, (web, port, v, files));
        }
        if i + 1 < y.len() {
            assert(all[k as int + 1] == y[i as int + 1]);
            assert(numbers[k as int + 1] == ny[i as int + 1]);
            if let Some(p) = crate::cli::port_value(y[i as int + 1]) {
                lemma_shifted(x, nx, y, ny, i + 2, (web, p, scale, files));
            }
            if let Some(v) = crate::cli::scale_value(
                crate::cli::whole_number(y[i as int + 1], ny[i as int + 1]),
            ) {
                lemma_shifted(x, nx, y, ny, i + 2, (web, port, v, files));
            }
        }
    }
}

/// What was read stays read when more follows.
proof fn lemma_then(
    x: Args,
    nx: Seq<Option<Scalar>>,
    y: Args,
    ny: Seq<Option<Scalar>>,
    i: nat,
    d: Draft,
)
    requires
        nx.len() == x.len(),
        ny.len() == y.len(),
        i <= x.len(),
        crate::cli::drafted(x, nx, i, d) is Ok,
    ensures
        crate::cli::drafted(x + y, nx + ny, i, d) == crate::cli::drafted(
            y,
            ny,
            0,
            crate::cli::drafted(x, nx, i, d)->Ok_0,
        ),
    decreases x.len() - i,
{
    let all = x + y;
    let numbers = nx + ny;
    let (web, port, scale, files) = d;
    if i == x.len() {
        lemma_shifted(x, nx, y, ny, 0, d);
    } else {
        let a = x[i as int];
        assert(all[i as int] == a);
        assert(numbers[i as int] == nx[i as int]);
        if i + 1 < x.len() {
            assert(all[i as int + 1] == x[i as int + 1]);
            assert(numbers[i as int + 1] == nx[i as int + 1]);
        }
        if a == "--web"@ || a == "--serve"@ || a == "-w"@ {
            lemma_then(x, nx, y, ny, i + 1, (true, port, scale, files));
        } else if a == "--port"@ || a == "-p"@ {
            let p = crate::cli::port_value(x[i as int + 1])->0;
            lemma_then(x, nx, y, ny, i + 2, (web, p, scale, files));
        } else if crate::text::has_prefix(a, "--port="@) {
            let p = crate::cli::port_value(a.skip("--port="@.len() as int))->0;
            lemma_then(x, nx, y, ny, i + 1, (web, p, scale, files));
        } else if a == "--scale"@ || a == "-s"@ {
            let v = crate::cli::scale_value(
                crate::cli::whole_number(x[i as int + 1], nx[i as int + 1]),
            )->0;
            lemma_then(x, nx, y, ny, i + 2, (web, port, v, files));
        } else if crate::text::has_prefix(a, "--scale="@) {
            let v = crate::cli::scale_value(nx[i as int])->0;
            lemma_then(x, nx, y, ny, i + 1, (web, port, v, files));
        } else {
            lemma_then(x, nx, y, ny, i + 1, (web, port, scale, files.push(a)));
        }
    }
}

/// What a command line asks for before anything is read.
spec fn nothing() -> Draft {
    (false, crate::cli::DEFAULT_PORT, Scalar { bits: ONE }, Seq::<Seq<char>>::empty())
}

/// What an option makes of a draft.
spec fn with_option(
    f: Args,
    nf: Seq<Option<Scalar>>,
    d: Draft,
    n: nat,
    x: Scalar,
    v: Seq<char>,
) -> Draft {
    let (web, port, scale, files) = d;
    if web_option(f) {
        (true, port, scale, files)
    } else if port_option(f, n) {
        (web, n as u16, scale, files)
    } else if scale_option(f, nf, x) {
        (web, port, x, files)
    } else {
        (web, port, scale, files.push(v))
    }
}

proof fn lemma_option(
    f: Args,
    nf: Seq<Option<Scalar>>,
    d: Draft,
    n: nat,
    x: Scalar,
    v: Seq<char>,
)
    requires
        nf.len() == f.len(),
        web_option(f) || port_option(f, n) || scale_option(f, nf, x) || file_option(f, v),
    ensures
        crate::cli::drafted(f, nf, 0, d) == Ok::<Draft, Fault>(with_option(f, nf, d, n, x, v)),
        web_option(f) ==> !port_option(f, n) && !scale_option(f, nf, x) && !file_option(f, v),
        port_option(f, n) ==> !scale_option(f, nf, x) && !file_option(f, v),
        scale_option(f, nf, x) ==> !file_option(f, v),
{
    let a = f[0];
    lemma_kinds(a);
    crate::scalar::lemma_one();
    reveal_with_fuel(crate::cli::drafted, 3);
    if f.len() == 2 {
        lemma_kinds(f[1]);
    }
    if port_option(f, n) {
        if f.len() == 2 {
            lemma_spelled(f[1], n);
        } else {
            lemma_spelled(a.skip(7), n);
        }
    }
}

// ---------------------------------------------------------------------------
// What a command line asks for
// ---------------------------------------------------------------------------

/// Without arguments, a window shows the test layout at its own size; port 8080 would be served.
pub proof fn lemma_no_arguments(r: Result<Options, ArgError>)
    requires
        crate::cli::answers(r, Seq::<Seq<char>>::empty(), Seq::<Option<Scalar>>::empty()),
    ensures
        r matches Ok(o) && !o.web && o.port == 8080 && o.scale.value() == crate::scalar::unit()
            && o.path@ == "layouts/test.toml"@,
{
    crate::scalar::lemma_one();
}

/// Whether two command lines ask for the same, but for a layout that is named.
pub open spec fn same_settings(a: Options, b: Options) -> bool {
    a.web == b.web && a.port == b.port && a.scale == b.scale
}

/// An option at the end of a command line that is accepted does what it says, and nothing else.
pub proof fn lemma_option_added(
    before: Result<Options, ArgError>,
    x: Args,
    nx: Seq<Option<Scalar>>,
    f: Args,
    nf: Seq<Option<Scalar>>,
    after: Result<Options, ArgError>,
    n: nat,
    s: Scalar,
    v: Seq<char>,
)
    requires
        nx.len() == x.len(),
        nf.len() == f.len(),
        crate::cli::answers(before, x, nx),
        before is Ok,
        crate::cli::answers(after, x + f, nx + nf),
    ensures
        ({
            let o = before->Ok_0;
            &&& web_option(f) ==> (after matches Ok(p) && p.web && p.port == o.port && p.scale
                == o.scale && p.path@ == o.path@)
            &&& port_option(f, n) ==> (after matches Ok(p) && p.port == n && p.web == o.web
                && p.scale == o.scale && p.path@ == o.path@)
            &&& scale_option(f, nf, s) ==> (after matches Ok(p) && p.scale == s && p.web == o.web
                && p.port == o.port && p.path@ == o.path@)
            &&& file_option(f, v) ==> match after {
                Ok(p) => same_settings(p, o) && p.path@ == v && o.path@ == "layouts/test.toml"@,
                Err(e) => e@ is Usage && x.len() > 0,
            }
        }),
{
    lemma_then(x, nx, f, nf, 0, nothing());
    let d = crate::cli::drafted(x, nx, 0, nothing())->Ok_0;
    if web_option(f) || port_option(f, n) || scale_option(f, nf, s) || file_option(f, v) {
        lemma_option(f, nf, d, n, s, v);
    }
}

/// Options that set different things can be given in either order, wherever they stand.
pub proof fn lemma_options_swapped(
    r: Result<Options, ArgError>,
    t: Result<Options, ArgError>,
    accepted: Result<Options, ArgError>,
    x: Args,
    nx: Seq<Option<Scalar>>,
    f: Args,
    nf: Seq<Option<Scalar>>,
    g: Args,
    ng: Seq<Option<Scalar>>,
    y: Args,
    ny: Seq<Option<Scalar>>,
    n: nat,
    s: Scalar,
    v: Seq<char>,
)
    requires
        nx.len() == x.len(),
        nf.len() == f.len(),
        ng.len() == g.len(),
        ny.len() == y.len(),
        crate::cli::answers(accepted, x, nx),
        accepted is Ok,
        crate::cli::answers(r, x + f + g + y, nx + nf + ng + ny),
        crate::cli::answers(t, x + g + f + y, nx + ng + nf + ny),
        ({
            ||| web_option(f) && (port_option(g, n) || scale_option(g, ng, s) || file_option(g, v))
            ||| port_option(f, n) && (scale_option(g, ng, s) || file_option(g, v))
            ||| scale_option(f, nf, s) && file_option(g, v)
        }),
    ensures
        match (r, t) {
            (Ok(a), Ok(b)) => same_settings(a, b) && a.path@ == b.path@,
            (Err(a), Err(b)) => a@ == b@,
            _ => false,
        },
{
    let d = crate::cli::drafted(x, nx, 0, nothing())->Ok_0;
    lemma_then(x, nx, f, nf, 0, nothing());
    lemma_then(x, nx, g, ng, 0, nothing());
    lemma_option(f, nf, d, n, s, v);
    lemma_option(g, ng, d, n, s, v);
    let df = with_option(f, nf, d, n, s, v);
    let dg = with_option(g, ng, d, n, s, v);
    lemma_then(x + f, nx + nf, g, ng, 0, nothing());
    lemma_then(x + g, nx + ng, f, nf, 0, nothing());
    lemma_option(g, ng, df, n, s, v);
    lemma_option(f, nf, dg, n, s, v);
    lemma_then(x + f + g, nx + nf + ng, y, ny, 0, nothing());
    lemma_then(x + g + f, nx + ng + nf, y, ny, 0, nothing());
}

/// Whether an argument can set the port.
pub open spec fn about_port(a: Seq<char>) -> bool {
    port_flag(a) || begins(a, "--port="@)
}

/// Whether an argument can set the scale.
pub open spec fn about_scale(a: Seq<char>) -> bool {
    scale_flag(a) || begins(a, "--scale="@)
}

proof fn lemma_keeps(y: Args, ny: Seq<Option<Scalar>>, i: nat, d: Draft)
    requires
        ny.len() == y.len(),
        i <= y.len(),
        crate::cli::drafted(y, ny, i, d) is Ok,
    ensures
        ({
            let e = crate::cli::drafted(y, ny, i, d)->Ok_0;
            &&& (forall|k: int| i <= k < y.len() ==> !about_port(#[trigger] y[k])) ==> e.1 == d.1
            &&& (forall|k: int| i <= k < y.len() ==> !about_scale(#[trigger] y[k])) ==> e.2 == d.2
            &&& (forall|k: int| i <= k < y.len() ==> !web_flag(#[trigger] y[k])) ==> e.0 == d.0
            &&& d.0 ==> e.0
            &&& (forall|k: int| i <= k < y.len() ==> dashed(#[trigger] y[k])) ==> e.3 == d.3
            &&& e.3.len() >= d.3.len()
        }),
    decreases y.len() - i,
{
    let (web, port, scale, files) = d;
    if i < y.len() {
        let a = y[i as int];
        lemma_kinds(a);
        if web_flag(a) {
            lemma_keeps(y, ny, i + 1, (true, port, scale, files));
        } else if port_flag(a) {
            let p = crate::cli::port_value(y[i as int + 1])->0;
            lemma_keeps(y, ny, i + 2, (web, p, scale, files));
        } else if begins(a, "--port="@) {
            let p = crate::cli::port_value(a.skip("--port="@.len() as int))->0;
            lemma_keeps(y, ny, i + 1, (web, p, scale, files));
        } else if scale_flag(a) {
            let v = crate::cli::scale_value(
                crate::cli::whole_number(y[i as int + 1], ny[i as int + 1]),
            )->0;
            lemma_keeps(y, ny, i + 2, (web, port, v, files));
        } else if begins(a, "--scale="@) {
            let v = crate::cli::scale_value(ny[i as int])->0;
            lemma_keeps(y, ny, i + 1, (web, port, v, files));
        } else {
            lemma_keeps(y, ny, i + 1, (web, port, scale, files.push(a)));
        }
    }
}

/// What a command line does not speak of stays as it is without arguments.
pub proof fn lemma_defaults_kept(r: Result<Options, ArgError>, x: Args, nx: Seq<Option<Scalar>>)
    requires
        nx.len() == x.len(),
        crate::cli::answers(r, x, nx),
        r is Ok,
    ensures
        ({
            let o = r->Ok_0;
            &&& (forall|k: int| 0 <= k < x.len() ==> !about_port(#[trigger] x[k])) ==> o.port == 8080
            &&& (forall|k: int| 0 <= k < x.len() ==> !about_scale(#[trigger] x[k]))
                ==> o.scale.value() == crate::scalar::unit()
            &&& (forall|k: int| 0 <= k < x.len() ==> !web_flag(#[trigger] x[k])) ==> !o.web
            &&& (forall|k: int| 0 <= k < x.len() ==> dashed(#[trigger] x[k])) ==> o.path@
                == "layouts/test.toml"@
        }),
{
    crate::scalar::lemma_one();
    lemma_keeps(x, nx, 0, nothing());
}

/// An option counts wherever it stands: the last port and the last scale are those of an accepted
/// command line, it is served if any option says so, and it shows the layout that it names.
pub proof fn lemma_last_option(
    accepted: Result<Options, ArgError>,
    x: Args,
    nx: Seq<Option<Scalar>>,
    f: Args,
    nf: Seq<Option<Scalar>>,
    y: Args,
    ny: Seq<Option<Scalar>>,
    r: Result<Options, ArgError>,
    n: nat,
    s: Scalar,
    v: Seq<char>,
)
    requires
        nx.len() == x.len(),
        nf.len() == f.len(),
        ny.len() == y.len(),
        crate::cli::answers(accepted, x, nx),
        accepted is Ok,
        crate::cli::answers(r, x + f + y, nx + nf + ny),
        r is Ok,
    ensures
        ({
            let o = r->Ok_0;
            &&& web_option(f) ==> o.web
            &&& port_option(f, n) && (forall|k: int|
                0 <= k < y.len() ==> !about_port(#[trigger] y[k])) ==> o.port == n
            &&& scale_option(f, nf, s) && (forall|k: int|
                0 <= k < y.len() ==> !about_scale(#[trigger] y[k])) ==> o.scale == s
            &&& file_option(f, v) ==> o.path@ == v
        }),
{
    let d = crate::cli::drafted(x, nx, 0, nothing())->Ok_0;
    lemma_then(x, nx, f, nf, 0, nothing());
    if web_option(f) || port_option(f, n) || scale_option(f, nf, s) || file_option(f, v) {
        lemma_option(f, nf, d, n, s, v);
        let e = with_option(f, nf, d, n, s, v);
        lemma_then(x + f, nx + nf, y, ny, 0, nothing());
        lemma_keeps(y, ny, 0, e);
        if file_option(f, v) {
            lemma_files_kept(y, ny, 0, e);
        }
    }
}

proof fn lemma_files_kept(y: Args, ny: Seq<Option<Scalar>>, i: nat, d: Draft)
    requires
        ny.len() == y.len(),
        i <= y.len(),
        crate::cli::drafted(y, ny, i, d) is Ok,
    ensures
        ({
            let e = crate::cli::drafted(y, ny, i, d)->Ok_0;
            &&& e.3.len() >= d.3.len()
            &&& forall|k: int| 0 <= k < d.3.len() ==> #[trigger] e.3[k] == d.3[k]
        }),
    decreases y.len() - i,
{
    let (web, port, scale, files) = d;
    if i < y.len() {
        let a = y[i as int];
        lemma_kinds(a);
        if web_flag(a) {
            lemma_files_kept(y, ny, i + 1, (true, port, scale, files));
        } else if port_flag(a) {
            let p = crate::cli::port_value(y[i as int + 1])->0;
            lemma_files_kept(y, ny, i + 2, (web, p, scale, files));
        } else if begins(a, "--port="@) {
            let p = crate::cli::port_value(a.skip("--port="@.len() as int))->0;
            lemma_files_kept(y, ny, i + 1, (web, p, scale, files));
        } else if scale_flag(a) {
            let v = crate::cli::scale_value(
                crate::cli::whole_number(y[i as int + 1], ny[i as int + 1]),
            )->0;
            lemma_files_kept(y, ny, i + 2, (web, port, v, files));
        } else if begins(a, "--scale="@) {
            let v = crate::cli::scale_value(ny[i as int])->0;
            lemma_files_kept(y, ny, i + 1, (web, port, v, files));
        } else {
            let more = files.push(a);
            lemma_files_kept(y, ny, i + 1, (web, port, scale, more));
            assert forall|k: int| 0 <= k < files.len() implies #[trigger] crate::cli::drafted(
                y,
                ny,
                i,
                d,
            )->Ok_0.3[k] == files[k] by {
                assert(more[k] == files[k]);
            }
        }
    }
}

/// Faults are told by what is wrong at the first place where something is: an unknown flag, a port
/// that is missing or none, a scale that is missing or not above zero, or a second layout.
pub proof fn lemma_faults(
    accepted: Result<Options, ArgError>,
    x: Args,
    nx: Seq<Option<Scalar>>,
    y: Args,
    ny: Seq<Option<Scalar>>,
    r: Result<Options, ArgError>,
)
    requires
        nx.len() == x.len(),
        ny.len() == y.len(),
        y.len() > 0,
        crate::cli::answers(accepted, x, nx),
        accepted is Ok,
        crate::cli::answers(r, x + y, nx + ny),
    ensures
        ({
            let a = y[0];
            let no_port = forall|n: nat| n <= 65535 ==> !#[trigger] spells(y[1], n);
            let no_port_inline = forall|n: nat| n <= 65535 ==> !#[trigger] spells(a.skip(7), n);
            let scale = ny[0] matches Some(s) && above_zero(s);
            let next = ny[1] matches Some(s) && above_zero(s) && !begins(y[1], "--scale="@);
            &&& dashed(a) && !web_flag(a) && !about_port(a) && !about_scale(a) ==> (r matches Err(
                e,
            ) && e@ == Fault::Unknown(a))
            &&& port_flag(a) && (y.len() == 1 || no_port) ==> (r matches Err(e) && e@ is Port)
            &&& begins(a, "--port="@) && no_port_inline ==> (r matches Err(e) && e@ is PortInline)
            &&& scale_flag(a) && (y.len() == 1 || !next) ==> (r matches Err(e) && e@ is Scale)
            &&& begins(a, "--scale="@) && !scale ==> (r matches Err(e) && e@ is ScaleInline)
        }),
{
    let a = y[0];
    let d = crate::cli::drafted(x, nx, 0, nothing())->Ok_0;
    lemma_then(x, nx, y, ny, 0, nothing());
    lemma_kinds(a);
    crate::scalar::lemma_one();
    assert((Scalar { bits: 0 }).value() == 0);
    if port_flag(a) && y.len() > 1 {
        if forall|n: nat| n <= 65535 ==> !#[trigger] spells(y[1], n) {
            lemma_unspelled(y[1]);
        }
    }
    if begins(a, "--port="@) {
        if forall|n: nat| n <= 65535 ==> !#[trigger] spells(a.skip(7), n) {
            lemma_unspelled(a.skip(7));
        }
    }
    if y.len() > 1 {
        lemma_kinds(y[1]);
    }
}

/// A command line with two layouts and options that say something is refused, and one layout is not.
pub proof fn lemma_one_layout(
    accepted: Result<Options, ArgError>,
    x: Args,
    nx: Seq<Option<Scalar>>,
    v: Seq<char>,
    w: Seq<char>,
    nv: Option<Scalar>,
    nw: Option<Scalar>,
    one: Result<Options, ArgError>,
    two: Result<Options, ArgError>,
)
    requires
        nx.len() == x.len(),
        crate::cli::answers(accepted, x, nx),
        accepted is Ok,
        forall|k: int| 0 <= k < x.len() ==> dashed(#[trigger] x[k]),
        !dashed(v),
        !dashed(w),
        crate::cli::answers(one, x + seq![v], nx + seq![nv]),
        crate::cli::answers(two, x + seq![v] + seq![w], nx + seq![nv] + seq![nw]),
    ensures
        one matches Ok(o) && o.path@ == v,
        two matches Err(e) && e@ is Usage,
{
    let d = crate::cli::drafted(x, nx, 0, nothing())->Ok_0;
    lemma_keeps(x, nx, 0, nothing());
    lemma_then(x, nx, seq![v], seq![nv], 0, nothing());
    let s = Scalar { bits: ONE };
    lemma_option(seq![v], seq![nv], d, 0, s, v);
    lemma_kinds(v);
    lemma_kinds(w);
    let e = (d.0, d.1, d.2, d.3.push(v));
    lemma_then(x + seq![v], nx + seq![nv], seq![w], seq![nw], 0, nothing());
    lemma_option(seq![w], seq![nw], e, 0, s, w);
}

} // verus!
