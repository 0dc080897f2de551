//! The persisted document format: one JSON array of device objects, written
//! compactly with the fields in a fixed order and the optional fields omitted
//! when absent.
//!
//! The grammar the parser accepts is exactly the serializer's image, so a
//! document round-trips to an equal list; absent optional fields stay absent.
//! `"` and `\` are escaped with a backslash, control characters as `\u00XX`.
use crate::device::{Device, DeviceView, views_of};
use crate::text::{
    digit_char, digit_value, digit_char_exec, digit_value_exec, hex_char, hex_char_exec, hex_value,
    hex_value_exec, is_digit_char, is_hex_char, string_from_chars, str_to_chars,
};
use vstd::prelude::*;

verus! {

// ---------------------------------------------------------------------------
// The serialized form, as specification functions over character sequences.
// ---------------------------------------------------------------------------
pub open spec fn lit_obj_open() -> Seq<char> {
    seq!['{', '"', 'i', 'd', '"', ':']
}

pub open spec fn lit_name() -> Seq<char> {
    seq![',', '"', 'n', 'a', 'm', 'e', '"', ':']
}

pub open spec fn lit_mac() -> Seq<char> {
    seq![',', '"', 'm', 'a', 'c', '"', ':']
}

pub open spec fn lit_target() -> Seq<char> {
    seq![',', '"', 't', 'a', 'r', 'g', 'e', 't', 'A', 'd', 'd', 'r', '"', ':']
}

pub open spec fn lit_port() -> Seq<char> {
    seq![',', '"', 'p', 'o', 'r', 't', '"', ':']
}

/// How one character appears inside a JSON string literal.
pub open spec fn esc_char(c: char) -> Seq<char> {
    if c == '"' {
        seq!['\\', '"']
    } else if c == '\\' {
        seq!['\\', '\\']
    } else if (c as u32) < 32 {
        seq!['\\', 'u', '0', '0', hex_char(((c as u32) / 16) as nat), hex_char(
            ((c as u32) % 16) as nat,
        )]
    } else {
        seq![c]
    }
}

/// A whole text, escaped character by character.
pub open spec fn esc_str(t: Seq<char>) -> Seq<char>
    decreases t.len(),
{
    if t.len() == 0 {
        Seq::empty()
    } else {
        esc_char(t[0]) + esc_str(t.drop_first())
    }
}

/// A JSON string literal: the escaped text between double quotes.
pub open spec fn emit_string(t: Seq<char>) -> Seq<char> {
    seq!['"'] + esc_str(t) + seq!['"']
}

/// The canonical decimal digits of a number, no leading zeros.
pub open spec fn dec_digits(n: nat) -> Seq<char>
    decreases n,
{
    if n < 10 {
        seq![digit_char(n)]
    } else {
        dec_digits(n / 10) + seq![digit_char(n % 10)]
    }
}

/// One device object. Optional fields are omitted entirely when absent.
pub open spec fn emit_device(d: DeviceView) -> Seq<char> {
    lit_obj_open() + emit_string(d.id) + lit_name() + emit_string(d.name) + lit_mac()
        + emit_string(d.mac) + (match d.target_addr {
        Some(t) => lit_target() + emit_string(t),
        None => Seq::empty(),
    }) + (match d.port {
        Some(p) => lit_port() + dec_digits(p as nat),
        None => Seq::empty(),
    }) + seq!['}']
}

/// `,<device>` for each further entry, in order.
pub open spec fn emit_tail_items(ds: Seq<DeviceView>) -> Seq<char>
    decreases ds.len(),
{
    if ds.len() == 0 {
        Seq::empty()
    } else {
        seq![','] + emit_device(ds[0]) + emit_tail_items(ds.drop_first())
    }
}

/// Everything after the first entry, closing bracket included.
pub open spec fn emit_rest(ds: Seq<DeviceView>) -> Seq<char> {
    emit_tail_items(ds) + seq![']']
}

/// The whole persisted document for a device list.
pub open spec fn doc_of(ds: Seq<DeviceView>) -> Seq<char> {
    if ds.len() == 0 {
        seq!['[', ']']
    } else {
        seq!['['] + emit_device(ds[0]) + emit_rest(ds.drop_first())
    }
}

// ---------------------------------------------------------------------------
// The parser, as specification functions. Each takes a position and returns
// the parsed value with the position after it, or nothing on a mismatch.
// ---------------------------------------------------------------------------
/// An exact literal at position `i`.
pub open spec fn sp_lit(s: Seq<char>, i: int, lit: Seq<char>) -> Option<int> {
    if 0 <= i && i + lit.len() <= s.len() && s.subrange(i, i + lit.len() as int) == lit {
        Some(i + lit.len() as int)
    } else {
        None
    }
}

/// A backslash escape starting at `i` (where `s[i]` is the backslash).
pub open spec fn sp_escape(s: Seq<char>, i: int) -> Option<(char, int)> {
    if i + 2 <= s.len() && s[i + 1] == '"' {
        Some(('"', i + 2))
    } else if i + 2 <= s.len() && s[i + 1] == '\\' {
        Some(('\\', i + 2))
    } else if i + 6 <= s.len() && s[i + 1] == 'u' && s[i + 2] == '0' && s[i + 3] == '0'
        && is_hex_char(s[i + 4]) && is_hex_char(s[i + 5]) {
        Some(((((hex_value(s[i + 4]) * 16 + hex_value(s[i + 5])) as u8) as char), i + 6))
    } else {
        None
    }
}

/// String contents from `i` up to and past the closing quote.
pub open spec fn sp_chars(s: Seq<char>, i: int) -> Option<(Seq<char>, int)>
    decreases s.len() - i,
{
    if i < 0 || i >= s.len() {
        None
    } else if s[i] == '"' {
        Some((Seq::empty(), i + 1))
    } else if s[i] == '\\' {
        match sp_escape(s, i) {
            Some((c, j)) => if i < j <= s.len() {
                match sp_chars(s, j) {
                    Some((t, k)) => Some((seq![c] + t, k)),
                    None => None,
                }
            } else {
                None
            },
            None => None,
        }
    } else {
        match sp_chars(s, i + 1) {
            Some((t, k)) => Some((seq![s[i]] + t, k)),
            None => None,
        }
    }
}

/// A quoted JSON string literal at `i`.
pub open spec fn sp_string(s: Seq<char>, i: int) -> Option<(Seq<char>, int)> {
    if 0 <= i < s.len() && s[i] == '"' {
        sp_chars(s, i + 1)
    } else {
        None
    }
}

/// The position after the run of decimal digits starting at `i`.
pub open spec fn digit_run_end(s: Seq<char>, i: int) -> int
    decreases s.len() - i,
{
    if 0 <= i && i < s.len() && is_digit_char(s[i]) {
        digit_run_end(s, i + 1)
    } else {
        i
    }
}

/// The number named by a digit sequence, most significant first.
pub open spec fn digits_val(d: Seq<char>) -> nat
    decreases d.len(),
{
    if d.len() == 0 {
        0
    } else {
        digits_val(d.drop_last()) * 10 + digit_value(d.last())
    }
}

/// A port number at `i`: canonical decimal, in range for `u16`.
pub open spec fn sp_port(s: Seq<char>, i: int) -> Option<(u16, int)> {
    let j = digit_run_end(s, i);
    if j == i {
        None
    } else if s[i] == '0' && j > i + 1 {
        None
    } else if digits_val(s.subrange(i, j)) <= 65535 {
        Some((digits_val(s.subrange(i, j)) as u16, j))
    } else {
        None
    }
}

/// The optional `targetAddr` member at `i`.
pub open spec fn sp_opt_target(s: Seq<char>, i: int) -> Option<(Option<Seq<char>>, int)> {
    match sp_lit(s, i, lit_target()) {
        Some(i7) => match sp_string(s, i7) {
            Some((t, j)) => Some((Some(t), j)),
            None => None,
        },
        None => Some((None, i)),
    }
}

/// The optional `port` member at `i`.
pub open spec fn sp_opt_port(s: Seq<char>, i: int) -> Option<(Option<u16>, int)> {
    match sp_lit(s, i, lit_port()) {
        Some(i9) => match sp_port(s, i9) {
            Some((p, j)) => Some((Some(p), j)),
            None => None,
        },
        None => Some((None, i)),
    }
}

/// A device object's members from after the `mac` value to past `}`.
pub open spec fn sp_device_tail(
    s: Seq<char>,
    i: int,
    id: Seq<char>,
    name: Seq<char>,
    mac: Seq<char>,
) -> Option<(DeviceView, int)> {
    match sp_opt_target(s, i) {
        Some((ta, i8)) => match sp_opt_port(s, i8) {
            Some((po, i10)) => match sp_lit(s, i10, seq!['}']) {
                Some(i11) => Some(
                    (DeviceView { id, name, mac, target_addr: ta, port: po }, i11),
                ),
                None => None,
            },
            None => None,
        },
        None => None,
    }
}

/// One whole device object at `i`.
pub open spec fn sp_device(s: Seq<char>, i: int) -> Option<(DeviceView, int)> {
    match sp_lit(s, i, lit_obj_open()) {
        Some(i1) => match sp_string(s, i1) {
            Some((id, i2)) => match sp_lit(s, i2, lit_name()) {
                Some(i3) => match sp_string(s, i3) {
                    Some((name, i4)) => match sp_lit(s, i4, lit_mac()) {
                        Some(i5) => match sp_string(s, i5) {
                            Some((mac, i6)) => sp_device_tail(s, i6, id, name, mac),
                            None => None,
                        },
                        None => None,
                    },
                    None => None,
                },
                None => None,
            },
            None => None,
        },
        None => None,
    }
}

/// The entries after the first one, up to and past the closing bracket.
pub open spec fn sp_rest(s: Seq<char>, i: int) -> Option<(Seq<DeviceView>, int)>
    decreases s.len() - i,
{
    if i < 0 || i >= s.len() {
        None
    } else if s[i] == ']' {
        Some((Seq::empty(), i + 1))
    } else if s[i] == ',' {
        match sp_device(s, i + 1) {
            Some((d, j)) => if i < j <= s.len() {
                match sp_rest(s, j) {
                    Some((ds, k)) => Some((seq![d] + ds, k)),
                    None => None,
                }
            } else {
                None
            },
            None => None,
        }
    } else {
        None
    }
}

/// A whole document: the device list it names, if the text is exactly the
/// serialized form of one.
pub open spec fn sp_doc(s: Seq<char>) -> Option<Seq<DeviceView>> {
    if s.len() == 2 && s[0] == '[' && s[1] == ']' {
        Some(Seq::empty())
    } else if s.len() >= 1 && s[0] == '[' {
        match sp_device(s, 1) {
            Some((d, j)) => match sp_rest(s, j) {
                Some((ds, k)) => if k == s.len() {
                    Some(seq![d] + ds)
                } else {
                    None
                },
                None => None,
            },
            None => None,
        }
    } else {
        None
    }
}

/// A character below `0x20`, cast down to a byte and back, is itself.
pub(crate) proof fn lemma_control_char_cast(c: char)
    requires
        (c as u32) < 32,
    ensures
        (((c as u32) as u8) as char) == c,
{
    vstd::utf8::char_u32_cast(c, c as u32);
}

// ---------------------------------------------------------------------------
// The serializer.
// ---------------------------------------------------------------------------
/// Escaping one more character appends its escape.
proof fn lemma_esc_str_snoc(u: Seq<char>, c: char)
    ensures
        esc_str(u.push(c)) == esc_str(u) + esc_char(c),
    decreases u.len(),
{
    if u.len() == 0 {
        assert(u.push(c)[0] == c);
        assert(u.push(c).drop_first() =~= Seq::<char>::empty());
        assert(esc_str(u.push(c)) == esc_char(c) + esc_str(Seq::<char>::empty()));
        assert(esc_str(u.push(c)) =~= esc_str(u) + esc_char(c));
    } else {
        assert(u.push(c)[0] == u[0]);
        assert(u.push(c).drop_first() =~= u.drop_first().push(c));
        assert(esc_str(u.push(c)) == esc_char(u[0]) + esc_str(u.drop_first().push(c)));
        lemma_esc_str_snoc(u.drop_first(), c);
        assert(esc_str(u.push(c)) =~= esc_str(u) + esc_char(c));
    }
}

/// Emitting one more entry appends `,<device>`.
proof fn lemma_emit_tail_snoc(ds: Seq<DeviceView>, d: DeviceView)
    ensures
        emit_tail_items(ds.push(d)) == emit_tail_items(ds) + seq![','] + emit_device(d),
    decreases ds.len(),
{
    if ds.len() == 0 {
        assert(ds.push(d)[0] == d);
        assert(ds.push(d).drop_first() =~= Seq::<DeviceView>::empty());
        assert(emit_tail_items(ds.push(d)) == seq![','] + emit_device(d) + emit_tail_items(
            Seq::<DeviceView>::empty(),
        ));
        assert(emit_tail_items(ds.push(d)) =~= emit_tail_items(ds) + seq![','] + emit_device(d));
    } else {
        assert(ds.push(d)[0] == ds[0]);
        assert(ds.push(d).drop_first() =~= ds.drop_first().push(d));
        assert(emit_tail_items(ds.push(d)) == seq![','] + emit_device(ds[0]) + emit_tail_items(
            ds.drop_first().push(d),
        ));
        lemma_emit_tail_snoc(ds.drop_first(), d);
        assert(emit_tail_items(ds.push(d)) =~= emit_tail_items(ds) + seq![','] + emit_device(d));
    }
}

/// Appends the escaped, quoted form of `t`.
fn emit_string_exec(out: &mut Vec<char>, t: &String)
    ensures
        final(out)@ == old(out)@ + emit_string(t@),
{
    let cs = str_to_chars(t.as_str());
    out.push('"');
    let mut i: usize = 0;
    while i < cs.len()
        invariant
            cs@ == t@,
            i <= cs@.len(),
            out@ =~= old(out)@ + seq!['"'] + esc_str(t@.take(i as int)),
        decreases cs@.len() - i,
    {
        let c = cs[i];
        if c == '"' {
            out.push('\\');
            out.push('"');
        } else if c == '\\' {
            out.push('\\');
            out.push('\\');
        } else if (c as u32) < 32 {
            let code = c as u32;
            out.push('\\');
            out.push('u');
            out.push('0');
            out.push('0');
            out.push(hex_char_exec((code / 16) as u8));
            out.push(hex_char_exec((code % 16) as u8));
        } else {
            out.push(c);
        }
        proof {
            lemma_esc_str_snoc(t@.take(i as int), t@[i as int]);
            assert(t@.take((i + 1) as int) =~= t@.take(i as int).push(t@[i as int]));
            assert(out@ =~= old(out)@ + seq!['"'] + esc_str(t@.take((i + 1) as int)));
        }
        i = i + 1;
    }
    proof {
        assert(t@.take(t@.len() as int) =~= t@);
    }
    out.push('"');
    proof {
        assert(out@ =~= old(out)@ + emit_string(t@));
    }
}

/// Appends the canonical decimal digits of `n`.
fn push_decimal(out: &mut Vec<char>, n: u16)
    ensures
        final(out)@ == old(out)@ + dec_digits(n as nat),
    decreases n,
{
    if n < 10 {
        out.push(digit_char_exec(n as u8));
    } else {
        push_decimal(out, n / 10);
        out.push(digit_char_exec((n % 10) as u8));
        proof {
            assert(out@ =~= old(out)@ + dec_digits(n as nat));
        }
    }
}

fn push_obj_open(out: &mut Vec<char>)
    ensures
        final(out)@ == old(out)@ + lit_obj_open(),
{
    out.push('{');
    out.push('"');
    out.push('i');
    out.push('d');
    out.push('"');
    out.push(':');
    proof {
        assert(out@ =~= old(out)@ + lit_obj_open());
    }
}

fn push_key_name(out: &mut Vec<char>)
    ensures
        final(out)@ == old(out)@ + lit_name(),
{
    out.push(',');
    out.push('"');
    out.push('n');
    out.push('a');
    out.push('m');
    out.push('e');
    out.push('"');
    out.push(':');
    proof {
        assert(out@ =~= old(out)@ + lit_name());
    }
}

fn push_key_mac(out: &mut Vec<char>)
    ensures
        final(out)@ == old(out)@ + lit_mac(),
{
    out.push(',');
    out.push('"');
    out.push('m');
    out.push('a');
    out.push('c');
    out.push('"');
    out.push(':');
    proof {
        assert(out@ =~= old(out)@ + lit_mac());
    }
}

fn push_key_target(out: &mut Vec<char>)
    ensures
        final(out)@ == old(out)@ + lit_target(),
{
    out.push(',');
    out.push('"');
    out.push('t');
    out.push('a');
    out.push('r');
    out.push('g');
    out.push('e');
    out.push('t');
    out.push('A');
    out.push('d');
    out.push('d');
    out.push('r');
    out.push('"');
    out.push(':');
    proof {
        assert(out@ =~= old(out)@ + lit_target());
    }
}

fn push_key_port(out: &mut Vec<char>)
    ensures
        final(out)@ == old(out)@ + lit_port(),
{
    out.push(',');
    out.push('"');
    out.push('p');
    out.push('o');
    out.push('r');
    out.push('t');
    out.push('"');
    out.push(':');
    proof {
        assert(out@ =~= old(out)@ + lit_port());
    }
}

/// Appends one device object.
#[verifier::rlimit(60)]
fn emit_device_exec(out: &mut Vec<char>, d: &Device)
    ensures
        final(out)@ == old(out)@ + emit_device(d@),
{
    push_obj_open(out);
    emit_string_exec(out, &d.id);
    push_key_name(out);
    emit_string_exec(out, &d.name);
    push_key_mac(out);
    emit_string_exec(out, &d.mac);
    let ghost head = old(out)@ + lit_obj_open() + emit_string(d@.id) + lit_name() + emit_string(
        d@.name,
    ) + lit_mac() + emit_string(d@.mac);
    proof {
        assert(out@ =~= head);
    }
    match &d.target_addr {
        Some(t) => {
            push_key_target(out);
            emit_string_exec(out, t);
        },
        None => {},
    }
    let ghost mid = head + (match d@.target_addr {
        Some(t) => lit_target() + emit_string(t),
        None => Seq::empty(),
    });
    proof {
        assert(out@ =~= mid);
    }
    match d.port {
        Some(p) => {
            push_key_port(out);
            push_decimal(out, p);
        },
        None => {},
    }
    out.push('}');
    proof {
        assert(out@ =~= mid + (match d@.port {
            Some(p) => lit_port() + dec_digits(p as nat),
            None => Seq::empty(),
        }) + seq!['}']);
        assert(out@ =~= old(out)@ + emit_device(d@));
    }
}

/// The persisted document for a device list: the serialized JSON array.
pub fn serialize_devices(devices: &Vec<Device>) -> (r: String)
    ensures
        r@ == doc_of(views_of(devices@)),
{
    let ghost vs = views_of(devices@);
    let mut out: Vec<char> = Vec::new();
    out.push('[');
    if devices.len() == 0 {
        out.push(']');
        proof {
            assert(out@ =~= doc_of(vs));
        }
    } else {
        emit_device_exec(&mut out, &devices[0]);
        proof {
            assert(vs.subrange(1, 1) =~= Seq::<DeviceView>::empty());
            assert(out@ =~= seq!['['] + emit_device(vs[0]) + emit_tail_items(vs.subrange(1, 1)));
        }
        let mut i: usize = 1;
        while i < devices.len()
            invariant
                vs == views_of(devices@),
                1 <= i <= devices@.len(),
                out@ =~= seq!['['] + emit_device(vs[0]) + emit_tail_items(vs.subrange(1, i as int)),
            decreases devices@.len() - i,
        {
            out.push(',');
            emit_device_exec(&mut out, &devices[i]);
            proof {
                lemma_emit_tail_snoc(vs.subrange(1, i as int), vs[i as int]);
                assert(vs.subrange(1, (i + 1) as int) =~= vs.subrange(1, i as int).push(
                    vs[i as int],
                ));
                assert(out@ =~= seq!['['] + emit_device(vs[0]) + emit_tail_items(
                    vs.subrange(1, (i + 1) as int),
                ));
            }
            i = i + 1;
        }
        out.push(']');
        proof {
            assert(vs.subrange(1, vs.len() as int) =~= vs.drop_first());
            assert(out@ =~= doc_of(vs));
        }
    }
    string_from_chars(&out)
}

// ---------------------------------------------------------------------------
// The parser. Each function returns exactly what its specification twin
// names, so the accepted grammar is pinned by the `sp_` functions above.
// ---------------------------------------------------------------------------
fn pe_lit(s: &Vec<char>, i: usize, lit: &Vec<char>) -> (r: Option<usize>)
    requires
        i <= s@.len(),
    ensures
        match r {
            Some(j) => sp_lit(s@, i as int, lit@) == Some(j as int) && i <= j <= s@.len(),
            None => sp_lit(s@, i as int, lit@) is None,
        },
{
    let n = s.len();
    if lit.len() > n - i {
        return None;
    }
    let mut k: usize = 0;
    while k < lit.len()
        invariant
            n == s@.len(),
            i as int + lit@.len() <= s@.len(),
            k <= lit@.len(),
            forall|m: int| 0 <= m < k ==> s@[i + m] == lit@[m],
        decreases lit@.len() - k,
    {
        if s[i + k] != lit[k] {
            proof {
                assert(s@.subrange(i as int, i as int + lit@.len())[k as int] != lit@[k as int]);
            }
            return None;
        }
        k = k + 1;
    }
    proof {
        assert(s@.subrange(i as int, i as int + lit@.len()) =~= lit@);
    }
    Some(i + lit.len())
}

fn pe_string(s: &Vec<char>, i: usize) -> (r: Option<(Vec<char>, usize)>)
    requires
        i <= s@.len(),
    ensures
        match r {
            Some((t, j)) => sp_string(s@, i as int) == Some((t@, j as int)) && i < j <= s@.len(),
            None => sp_string(s@, i as int) is None,
        },
{
    if i >= s.len() {
        return None;
    }
    if s[i] != '"' {
        return None;
    }
    let mut acc: Vec<char> = Vec::new();
    let mut p: usize = i + 1;
    while p < s.len()
        invariant
            i + 1 <= p <= s@.len(),
            s@[i as int] == '"',
            sp_chars(s@, (i + 1) as int) == (match sp_chars(s@, p as int) {
                Some((t, k)) => Some((acc@ + t, k)),
                None => None::<(Seq<char>, int)>,
            }),
        decreases s@.len() - p,
    {
        let ghost p0 = p as int;
        let ghost acc0 = acc@;
        let c = s[p];
        if c == '"' {
            proof {
                assert(sp_chars(s@, p0) == Some((Seq::<char>::empty(), p0 + 1)));
                assert(acc@ + Seq::<char>::empty() =~= acc@);
            }
            return Some((acc, p + 1));
        } else if c == '\\' {
            let ghost cc: char;
            if s.len() - p >= 2 && s[p + 1] == '"' {
                acc.push('"');
                p = p + 2;
                proof {
                    cc = '"';
                    assert(sp_escape(s@, p0) == Some((cc, p0 + 2)));
                }
            } else if s.len() - p >= 2 && s[p + 1] == '\\' {
                acc.push('\\');
                p = p + 2;
                proof {
                    cc = '\\';
                    assert(sp_escape(s@, p0) == Some((cc, p0 + 2)));
                }
            } else if s.len() - p >= 6 && s[p + 1] == 'u' && s[p + 2] == '0' && s[p + 3] == '0'
                && hex_value_exec(s[p + 4]) < 16 && hex_value_exec(s[p + 5]) < 16 {
                let v: u8 = hex_value_exec(s[p + 4]) * 16 + hex_value_exec(s[p + 5]);
                acc.push(v as char);
                p = p + 6;
                proof {
                    cc = v as char;
                    assert(sp_escape(s@, p0) == Some((cc, p0 + 6)));
                }
            } else {
                proof {
                    assert(sp_escape(s@, p0) is None);
                    assert(sp_chars(s@, p0) is None);
                }
                return None;
            }
            proof {
                match sp_chars(s@, p as int) {
                    Some((t, k)) => {
                        assert(sp_chars(s@, p0) == Some((seq![cc] + t, k)));
                        assert(acc0 + (seq![cc] + t) =~= acc@ + t);
                    },
                    None => {
                        assert(sp_chars(s@, p0) is None);
                    },
                }
            }
        } else {
            acc.push(c);
            p = p + 1;
            proof {
                match sp_chars(s@, p as int) {
                    Some((t, k)) => {
                        assert(sp_chars(s@, p0) == Some((seq![c] + t, k)));
                        assert(acc0 + (seq![c] + t) =~= acc@ + t);
                    },
                    None => {
                        assert(sp_chars(s@, p0) is None);
                    },
                }
            }
        }
    }
    proof {
        assert(sp_chars(s@, p as int) is None);
    }
    None
}

/// The value of a digit run only grows as the run extends.
proof fn lemma_digits_val_prefix(d: Seq<char>, k: int)
    requires
        0 <= k <= d.len(),
    ensures
        digits_val(d.take(k)) <= digits_val(d),
    decreases d.len() - k,
{
    if k < d.len() {
        assert(d.take(k + 1).drop_last() =~= d.take(k));
        assert(d.take(k + 1).last() == d[k]);
        assert(digits_val(d.take(k + 1)) == digits_val(d.take(k)) * 10 + digit_value(d[k]));
        lemma_digits_val_prefix(d, k + 1);
    } else {
        assert(d.take(k) =~= d);
    }
}

fn pe_port(s: &Vec<char>, i: usize) -> (r: Option<(u16, usize)>)
    requires
        i <= s@.len(),
    ensures
        match r {
            Some((p, j)) => sp_port(s@, i as int) == Some((p, j as int)) && i < j <= s@.len(),
            None => sp_port(s@, i as int) is None,
        },
{
    let mut j: usize = i;
    while j < s.len() && digit_value_exec(s[j]) < 10
        invariant
            i <= j <= s@.len(),
            digit_run_end(s@, i as int) == digit_run_end(s@, j as int),
            forall|m: int| i <= m < j ==> is_digit_char(#[trigger] s@[m]),
        decreases s@.len() - j,
    {
        j = j + 1;
    }
    proof {
        assert(digit_run_end(s@, j as int) == j as int);
    }
    if j == i {
        return None;
    }
    if s[i] == '0' && j > i + 1 {
        return None;
    }
    let ghost dfull = s@.subrange(i as int, j as int);
    let mut v: u32 = 0;
    let mut k: usize = i;
    while k < j
        invariant
            i <= k <= j <= s@.len(),
            i < j,
            v <= 65535,
            digit_run_end(s@, i as int) == j as int,
            !(s@[i as int] == '0' && j > i + 1),
            forall|m: int| i <= m < j ==> is_digit_char(#[trigger] s@[m]),
            v as nat == digits_val(s@.subrange(i as int, k as int)),
            dfull == s@.subrange(i as int, j as int),
        decreases j - k,
    {
        let d = digit_value_exec(s[k]);
        proof {
            assert(s@.subrange(i as int, k + 1).drop_last() =~= s@.subrange(i as int, k as int));
            assert(s@.subrange(i as int, k + 1).last() == s@[k as int]);
        }
        v = v * 10 + d as u32;
        if v > 65535 {
            proof {
                assert(digits_val(s@.subrange(i as int, k + 1)) == digits_val(
                    s@.subrange(i as int, k as int),
                ) * 10 + digit_value(s@[k as int]));
                assert(s@.subrange(i as int, k + 1) =~= dfull.take(k + 1 - i));
                lemma_digits_val_prefix(dfull, k + 1 - i);
                assert(digits_val(dfull) > 65535);
            }
            return None;
        }
        k = k + 1;
    }
    proof {
        assert(s@.subrange(i as int, k as int) =~= dfull);
        assert(sp_port(s@, i as int) == Some((v as u16, j as int)));
    }
    Some((v as u16, j))
}

#[verifier::rlimit(60)]
fn pe_device(s: &Vec<char>, i: usize) -> (r: Option<(Device, usize)>)
    requires
        i <= s@.len(),
    ensures
        match r {
            Some((d, j)) => sp_device(s@, i as int) == Some((d@, j as int)) && i < j <= s@.len(),
            None => sp_device(s@, i as int) is None,
        },
{
    let lit1: Vec<char> = vec!['{', '"', 'i', 'd', '"', ':'];
    proof {
        assert(lit1@ =~= lit_obj_open());
    }
    let i1 = match pe_lit(s, i, &lit1) {
        Some(x) => x,
        None => {
            return None;
        },
    };
    let (idv, i2) = match pe_string(s, i1) {
        Some(x) => x,
        None => {
            return None;
        },
    };
    let lit2: Vec<char> = vec![',', '"', 'n', 'a', 'm', 'e', '"', ':'];
    proof {
        assert(lit2@ =~= lit_name());
    }
    let i3 = match pe_lit(s, i2, &lit2) {
        Some(x) => x,
        None => {
            return None;
        },
    };
    let (namev, i4) = match pe_string(s, i3) {
        Some(x) => x,
        None => {
            return None;
        },
    };
    let lit3: Vec<char> = vec![',', '"', 'm', 'a', 'c', '"', ':'];
    proof {
        assert(lit3@ =~= lit_mac());
    }
    let i5 = match pe_lit(s, i4, &lit3) {
        Some(x) => x,
        None => {
            return None;
        },
    };
    let (macv, i6) = match pe_string(s, i5) {
        Some(x) => x,
        None => {
            return None;
        },
    };
    let lit4: Vec<char> = vec![
        ',',
        '"',
        't',
        'a',
        'r',
        'g',
        'e',
        't',
        'A',
        'd',
        'd',
        'r',
        '"',
        ':',
    ];
    proof {
        assert(lit4@ =~= lit_target());
    }
    let (ta, i8): (Option<Vec<char>>, usize) = match pe_lit(s, i6, &lit4) {
        Some(i7) => match pe_string(s, i7) {
            Some((t, j)) => (Some(t), j),
            None => {
                return None;
            },
        },
        None => (None, i6),
    };
    let ghost tav: Option<Seq<char>> = match &ta {
        Some(t) => Some(t@),
        None => None,
    };
    proof {
        assert(sp_opt_target(s@, i6 as int) == Some((tav, i8 as int)));
    }
    let lit5: Vec<char> = vec![',', '"', 'p', 'o', 'r', 't', '"', ':'];
    proof {
        assert(lit5@ =~= lit_port());
    }
    let (po, i10): (Option<u16>, usize) = match pe_lit(s, i8, &lit5) {
        Some(i9) => match pe_port(s, i9) {
            Some((p, j)) => (Some(p), j),
            None => {
                return None;
            },
        },
        None => (None, i8),
    };
    proof {
        assert(sp_opt_port(s@, i8 as int) == Some((po, i10 as int)));
    }
    let lit6: Vec<char> = vec!['}'];
    proof {
        assert(lit6@ =~= seq!['}']);
    }
    let i11 = match pe_lit(s, i10, &lit6) {
        Some(x) => x,
        None => {
            return None;
        },
    };
    let dev = Device {
        id: string_from_chars(&idv),
        name: string_from_chars(&namev),
        mac: string_from_chars(&macv),
        target_addr: match ta {
            Some(t) => Some(string_from_chars(&t)),
            None => None,
        },
        port: po,
    };
    proof {
        assert(dev@ =~= DeviceView {
            id: idv@,
            name: namev@,
            mac: macv@,
            target_addr: tav,
            port: po,
        });
        assert(sp_device(s@, i as int) == Some((dev@, i11 as int)));
    }
    Some((dev, i11))
}

/// Parses a whole document. The result is the device list whose serialized
/// form is exactly `doc`, or nothing if `doc` is no such document.
#[verifier::rlimit(60)]
pub fn parse_devices(doc: &str) -> (r: Option<Vec<Device>>)
    ensures
        match r {
            Some(ds) => sp_doc(doc@) == Some(views_of(ds@)),
            None => sp_doc(doc@) is None,
        },
{
    let s = str_to_chars(doc);
    if s.len() == 0 {
        return None;
    }
    if s[0] != '[' {
        return None;
    }
    if s.len() == 2 && s[1] == ']' {
        let empty: Vec<Device> = Vec::new();
        proof {
            assert(views_of(empty@) =~= Seq::<DeviceView>::empty());
        }
        return Some(empty);
    }
    let (d0, j0) = match pe_device(&s, 1) {
        Some(x) => x,
        None => {
            return None;
        },
    };
    let mut acc: Vec<Device> = Vec::new();
    acc.push(d0);
    proof {
        assert(views_of(acc@) =~= seq![d0@]);
    }
    let mut p: usize = j0;
    while p < s.len()
        invariant
            p <= s@.len(),
            s@ == doc@,
            sp_doc(s@) == (match sp_rest(s@, p as int) {
                Some((ds, k)) => if k == s@.len() {
                    Some(views_of(acc@) + ds)
                } else {
                    None::<Seq<DeviceView>>
                },
                None => None::<Seq<DeviceView>>,
            }),
        decreases s@.len() - p,
    {
        let ghost p0 = p as int;
        let ghost accv0 = views_of(acc@);
        let c = s[p];
        if c == ']' {
            if p + 1 == s.len() {
                proof {
                    assert(sp_rest(s@, p0) == Some((Seq::<DeviceView>::empty(), p0 + 1)));
                    assert(views_of(acc@) + Seq::<DeviceView>::empty() =~= views_of(acc@));
                }
                return Some(acc);
            } else {
                proof {
                    assert(sp_rest(s@, p0) == Some((Seq::<DeviceView>::empty(), p0 + 1)));
                }
                return None;
            }
        } else if c == ',' {
            match pe_device(&s, p + 1) {
                Some((d2, j2)) => {
                    proof {
                        match sp_rest(s@, j2 as int) {
                            Some((ds, k)) => {
                                assert(sp_rest(s@, p0) == Some((seq![d2@] + ds, k)));
                                assert(views_of(acc@.push(d2)) =~= views_of(acc@).push(d2@));
                                assert(views_of(acc@).push(d2@) + ds =~= views_of(acc@) + (seq![
                                    d2@,
                                ] + ds));
                            },
                            None => {
                                assert(sp_rest(s@, p0) is None);
                            },
                        }
                    }
                    acc.push(d2);
                    p = j2;
                },
                None => {
                    proof {
                        assert(sp_rest(s@, p0) is None);
                    }
                    return None;
                },
            }
        } else {
            proof {
                assert(sp_rest(s@, p0) is None);
            }
            return None;
        }
    }
    proof {
        assert(sp_rest(s@, p as int) is None);
    }
    None
}

} // verus!
