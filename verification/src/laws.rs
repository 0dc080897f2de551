//! The codec's round-trip law: parsing the serialized form of any device
//! list yields exactly that list. In particular a field absent before
//! persistence is absent after reload.
use crate::device::DeviceView;
use crate::json::{
    dec_digits, digit_run_end, digits_val, doc_of, emit_device, emit_rest, emit_string,
    emit_tail_items, esc_char, esc_str, lemma_control_char_cast, lit_mac, lit_name, lit_obj_open,
    lit_port, lit_target, sp_chars, sp_device, sp_device_tail, sp_doc, sp_escape, sp_lit,
    sp_opt_port, sp_opt_target, sp_port, sp_rest, sp_string,
};
use crate::text::{digit_char, digit_value, hex_value, is_digit_char, lemma_hex_char_value};
use vstd::prelude::*;

verus! {

/// When the rest of `s` from `i` on reads `u`, every position of `s` past
/// `i` holds the corresponding character of `u`.
proof fn lemma_window(s: Seq<char>, i: int, u: Seq<char>)
    requires
        0 <= i <= s.len(),
        s.subrange(i, s.len() as int) == u,
    ensures
        s.len() - i == u.len(),
        forall|m: int| i <= m < s.len() ==> #[trigger] s[m] == u[m - i],
{
    assert(s.subrange(i, s.len() as int).len() == s.len() - i);
    assert forall|m: int| i <= m < s.len() implies #[trigger] s[m] == u[m - i] by {
        assert(s.subrange(i, s.len() as int)[m - i] == u[m - i]);
    };
}

/// Splitting a window: when the rest of `s` from `i` reads `a + b`, the rest
/// from `i + a.len()` reads `b`.
proof fn lemma_split_window(s: Seq<char>, i: int, a: Seq<char>, b: Seq<char>)
    requires
        0 <= i <= s.len(),
        s.subrange(i, s.len() as int) == a + b,
    ensures
        s.len() - i == a.len() + b.len(),
        s.subrange(i + a.len() as int, s.len() as int) == b,
{
    lemma_window(s, i, a + b);
    assert((a + b).len() == a.len() + b.len());
    assert forall|m: int|
        0 <= m < b.len() implies s.subrange(i + a.len() as int, s.len() as int)[m] == b[m] by {
        assert(s[i + a.len() + m] == (a + b)[(i + a.len() + m) - i]);
        assert((a + b)[a.len() + m] == b[m]);
    };
    assert(s.subrange(i + a.len() as int, s.len() as int) =~= b);
}

/// A literal standing at `i` is found there.
proof fn lemma_parse_lit(s: Seq<char>, i: int, lit: Seq<char>, tail: Seq<char>)
    requires
        0 <= i <= s.len(),
        s.subrange(i, s.len() as int) == lit + tail,
    ensures
        sp_lit(s, i, lit) == Some(i + lit.len() as int),
        s.subrange(i + lit.len() as int, s.len() as int) == tail,
{
    lemma_window(s, i, lit + tail);
    lemma_split_window(s, i, lit, tail);
    assert forall|m: int| 0 <= m < lit.len() implies s.subrange(i, i + lit.len() as int)[m]
        == lit[m] by {
        assert(s[i + m] == (lit + tail)[(i + m) - i]);
        assert((lit + tail)[m] == lit[m]);
    };
    assert(s.subrange(i, i + lit.len() as int) =~= lit);
}

/// Escaped string contents followed by the closing quote parse back to the
/// original text.
#[verifier::rlimit(100)]
proof fn lemma_parse_chars(s: Seq<char>, i: int, t: Seq<char>, tail: Seq<char>)
    requires
        0 <= i <= s.len(),
        s.subrange(i, s.len() as int) == esc_str(t) + seq!['"'] + tail,
    ensures
        sp_chars(s, i) == Some((t, i + esc_str(t).len() + 1)),
        s.subrange(i + esc_str(t).len() + 1, s.len() as int) == tail,
    decreases t.len(),
{
    let whole = esc_str(t) + seq!['"'] + tail;
    lemma_window(s, i, whole);
    if t.len() == 0 {
        assert(esc_str(t).len() == 0);
        assert(s[i] == whole[0]);
        assert(whole[0] == '"');
        assert(t =~= Seq::<char>::empty());
        assert(sp_chars(s, i) == Some((Seq::<char>::empty(), i + 1)));
        lemma_split_window(s, i, esc_str(t) + seq!['"'], tail);
        assert((esc_str(t) + seq!['"']).len() == 1);
    } else {
        let c = t[0];
        let t1 = t.drop_first();
        let e = esc_char(c);
        assert(esc_str(t) == e + esc_str(t1));
        assert(esc_str(t).len() == e.len() + esc_str(t1).len()) by {
            assert((e + esc_str(t1)).len() == e.len() + esc_str(t1).len());
        };
        let rest = esc_str(t1) + seq!['"'] + tail;
        assert(whole == ((e + esc_str(t1)) + seq!['"']) + tail);
        vstd::seq_lib::lemma_concat_associative(e, esc_str(t1), seq!['"']);
        vstd::seq_lib::lemma_concat_associative(e, esc_str(t1) + seq!['"'], tail);
        assert(whole == e + rest);
        lemma_split_window(s, i, e, rest);
        let i2 = i + e.len() as int;
        lemma_parse_chars(s, i2, t1, tail);
        assert(seq![c] + t1 =~= t);
        if c == '"' {
            assert(s[i] == whole[0]);
            assert(s[i + 1] == whole[1]);
            assert(whole[0] == '\\');
            assert(whole[1] == '"');
            assert(sp_escape(s, i) == Some(('"', i + 2)));
            assert(sp_chars(s, i) == Some((t, i + esc_str(t).len() + 1)));
        } else if c == '\\' {
            assert(s[i] == whole[0]);
            assert(s[i + 1] == whole[1]);
            assert(whole[0] == '\\');
            assert(whole[1] == '\\');
            assert(sp_escape(s, i) == Some(('\\', i + 2)));
            assert(sp_chars(s, i) == Some((t, i + esc_str(t).len() + 1)));
        } else if (c as u32) < 32 {
            let code = c as u32;
            lemma_hex_char_value((code / 16) as nat);
            lemma_hex_char_value((code % 16) as nat);
            lemma_control_char_cast(c);
            assert(s[i] == whole[0]);
            assert(s[i + 1] == whole[1]);
            assert(s[i + 2] == whole[2]);
            assert(s[i + 3] == whole[3]);
            assert(s[i + 4] == whole[4]);
            assert(s[i + 5] == whole[5]);
            assert(whole[0] == '\\');
            assert(whole[1] == 'u');
            assert(whole[2] == '0');
            assert(whole[3] == '0');
            assert(whole[4] == e[4]);
            assert(whole[5] == e[5]);
            assert(hex_value(s[i + 4]) * 16 + hex_value(s[i + 5]) == code);
            assert(sp_escape(s, i) == Some((c, i + 6)));
            assert(sp_chars(s, i) == Some((t, i + esc_str(t).len() + 1)));
        } else {
            assert(s[i] == whole[0]);
            assert(whole[0] == c);
            assert(sp_chars(s, i) == Some((t, i + esc_str(t).len() + 1)));
        }
    }
}

/// A quoted string literal parses back to its text.
proof fn lemma_parse_string(s: Seq<char>, i: int, t: Seq<char>, tail: Seq<char>)
    requires
        0 <= i <= s.len(),
        s.subrange(i, s.len() as int) == emit_string(t) + tail,
    ensures
        sp_string(s, i) == Some((t, i + emit_string(t).len() as int)),
        s.subrange(i + emit_string(t).len() as int, s.len() as int) == tail,
{
    let whole = emit_string(t) + tail;
    lemma_window(s, i, whole);
    assert(emit_string(t).len() == esc_str(t).len() + 2) by {
        assert((seq!['"'] + esc_str(t)).len() == 1 + esc_str(t).len());
    };
    assert(s[i] == whole[0]);
    assert(whole[0] == '"');
    let rest = esc_str(t) + seq!['"'] + tail;
    vstd::seq_lib::lemma_concat_associative(seq!['"'], esc_str(t), seq!['"']);
    vstd::seq_lib::lemma_concat_associative(seq!['"'], esc_str(t) + seq!['"'], tail);
    assert(whole == seq!['"'] + rest);
    lemma_split_window(s, i, seq!['"'], rest);
    lemma_parse_chars(s, i + 1, t, tail);
    assert(sp_string(s, i) == Some((t, i + emit_string(t).len() as int)));
}

/// Every character of a canonical decimal is a digit.
proof fn lemma_dec_digits_are_digits(n: nat)
    ensures
        forall|k: int|
            0 <= k < dec_digits(n).len() ==> is_digit_char(#[trigger] dec_digits(n)[k]),
    decreases n,
{
    if n < 10 {
        assert(digit_value(digit_char(n)) == n);
    } else {
        lemma_dec_digits_are_digits(n / 10);
        assert(digit_value(digit_char(n % 10)) == n % 10);
        assert forall|k: int|
            0 <= k < dec_digits(n).len() implies is_digit_char(#[trigger] dec_digits(n)[k]) by {
            if k < dec_digits(n / 10).len() {
                assert(dec_digits(n)[k] == dec_digits(n / 10)[k]);
            } else {
                assert(dec_digits(n)[k] == digit_char(n % 10));
            }
        };
    }
}

/// Canonical decimal digits name the number they were written from.
proof fn lemma_dec_digits_val(n: nat)
    ensures
        digits_val(dec_digits(n)) == n,
    decreases n,
{
    if n < 10 {
        assert(digits_val(Seq::<char>::empty()) == 0);
        assert(dec_digits(n).drop_last() =~= Seq::<char>::empty());
        assert(dec_digits(n).last() == digit_char(n));
        assert(digit_value(digit_char(n)) == n);
    } else {
        let a = dec_digits(n / 10);
        assert(dec_digits(n).drop_last() =~= a);
        assert(dec_digits(n).last() == digit_char(n % 10));
        assert(digit_value(digit_char(n % 10)) == n % 10);
        lemma_dec_digits_val(n / 10);
        assert(digits_val(dec_digits(n)) == (n / 10) * 10 + n % 10);
    }
}

/// A positive number's canonical decimal has no leading zero.
proof fn lemma_dec_digits_first(n: nat)
    requires
        n >= 1,
    ensures
        dec_digits(n)[0] != '0',
    decreases n,
{
    if n < 10 {
        assert(dec_digits(n)[0] == digit_char(n));
    } else {
        assert(dec_digits(n)[0] == dec_digits(n / 10)[0]);
        lemma_dec_digits_first(n / 10);
    }
}

/// The digit run starting at `i` ends exactly at `j`.
proof fn lemma_run_end(s: Seq<char>, i: int, j: int)
    requires
        0 <= i <= j <= s.len(),
        forall|m: int| i <= m < j ==> is_digit_char(#[trigger] s[m]),
        j == s.len() || !is_digit_char(s[j]),
    ensures
        digit_run_end(s, i) == j,
    decreases j - i,
{
    if i < j {
        lemma_run_end(s, i + 1, j);
    }
}

/// A canonical decimal followed by a non-digit parses back to the number.
#[verifier::rlimit(100)]
proof fn lemma_parse_port(s: Seq<char>, i: int, p: u16, tail: Seq<char>)
    requires
        0 <= i <= s.len(),
        s.subrange(i, s.len() as int) == dec_digits(p as nat) + tail,
        tail.len() >= 1,
        !is_digit_char(tail[0]),
    ensures
        sp_port(s, i) == Some((p, i + dec_digits(p as nat).len() as int)),
        s.subrange(i + dec_digits(p as nat).len() as int, s.len() as int) == tail,
{
    let d = dec_digits(p as nat);
    let whole = d + tail;
    let j = i + d.len() as int;
    lemma_window(s, i, whole);
    lemma_split_window(s, i, d, tail);
    lemma_dec_digits_are_digits(p as nat);
    assert forall|m: int| i <= m < j implies is_digit_char(#[trigger] s[m]) by {
        assert(s[m] == whole[m - i]);
        assert(whole[m - i] == d[m - i]);
    };
    assert(s[j] == whole[j - i]);
    assert(whole[d.len() as int] == tail[0]);
    lemma_run_end(s, i, j);
    assert forall|m: int| 0 <= m < d.len() implies s.subrange(i, j)[m] == d[m] by {
        assert(s[i + m] == whole[(i + m) - i]);
        assert(whole[m] == d[m]);
    };
    assert(s.subrange(i, j) =~= d);
    lemma_dec_digits_val(p as nat);
    if p >= 10 {
        lemma_dec_digits_first(p as nat);
        assert(s[i] == whole[0]);
        assert(whole[0] == d[0]);
        assert(s[i] != '0');
    }
    assert(sp_port(s, i) == Some((p, j)));
}

/// A mismatch at one position refuses the literal.
proof fn lemma_lit_mismatch(s: Seq<char>, i: int, lit: Seq<char>, k: int)
    requires
        0 <= i,
        0 <= k < lit.len(),
        i + lit.len() <= s.len() ==> s[i + k] != lit[k],
    ensures
        sp_lit(s, i, lit) is None,
{
    if i + lit.len() <= s.len() {
        assert(s.subrange(i, i + lit.len() as int)[k] == s[i + k]);
    }
}

/// The optional members and the closing brace of an emitted object parse
/// back to the device's optional fields.
#[verifier::rlimit(100)]
proof fn lemma_parse_device_tail(s: Seq<char>, i: int, d: DeviceView, tail: Seq<char>)
    requires
        0 <= i <= s.len(),
        s.subrange(i, s.len() as int) == (match d.target_addr {
            Some(t) => lit_target() + emit_string(t),
            None => Seq::empty(),
        }) + ((match d.port {
            Some(p) => lit_port() + dec_digits(p as nat),
            None => Seq::empty(),
        }) + (seq!['}'] + tail)),
    ensures
        sp_device_tail(s, i, d.id, d.name, d.mac) == Some((d, s.len() - tail.len() as int)),
        s.len() - tail.len() >= i,
        s.subrange(s.len() - tail.len() as int, s.len() as int) == tail,
{
    let t_t: Seq<char> = match d.target_addr {
        Some(t) => lit_target() + emit_string(t),
        None => Seq::empty(),
    };
    let t_p: Seq<char> = match d.port {
        Some(p) => lit_port() + dec_digits(p as nat),
        None => Seq::empty(),
    };
    lemma_split_window(s, i, t_t, t_p + (seq!['}'] + tail));
    let i8 = i + t_t.len() as int;
    match d.target_addr {
        Some(t) => {
            vstd::seq_lib::lemma_concat_associative(
                lit_target(),
                emit_string(t),
                t_p + (seq!['}'] + tail),
            );
            assert(s.subrange(i, s.len() as int) == lit_target() + (emit_string(t) + (t_p + (seq![
                '}',
            ] + tail))));
            lemma_parse_lit(s, i, lit_target(), emit_string(t) + (t_p + (seq!['}'] + tail)));
            let i7 = i + lit_target().len() as int;
            lemma_parse_string(s, i7, t, t_p + (seq!['}'] + tail));
            assert(i8 == i7 + emit_string(t).len()) by {
                assert(t_t.len() == lit_target().len() + emit_string(t).len());
            };
            assert(sp_opt_target(s, i) == Some((Some(t), i8)));
        },
        None => {
            let after = t_p + (seq!['}'] + tail);
            lemma_window(s, i, t_t + after);
            assert(t_t.len() == 0);
            match d.port {
                Some(p) => {
                    assert(s[i + 2] == (t_t + after)[2]);
                    assert(after[2] == lit_port()[2]) by {
                        assert(lit_port().len() == 8);
                        assert(after[2] == t_p[2]);
                        assert(t_p[2] == lit_port()[2]);
                    };
                    assert(s[i + 2] == 'p');
                    assert(lit_target()[2] == 't');
                    lemma_lit_mismatch(s, i, lit_target(), 2);
                },
                None => {
                    assert(s[i] == (t_t + after)[0]);
                    assert(t_p.len() == 0);
                    assert(after[0] == '}');
                    assert(lit_target()[0] == ',');
                    lemma_lit_mismatch(s, i, lit_target(), 0);
                },
            }
            assert(sp_opt_target(s, i) == Some((None::<Seq<char>>, i8)));
        },
    }
    lemma_split_window(s, i8, t_p, seq!['}'] + tail);
    let i10 = i8 + t_p.len() as int;
    match d.port {
        Some(p) => {
            vstd::seq_lib::lemma_concat_associative(
                lit_port(),
                dec_digits(p as nat),
                seq!['}'] + tail,
            );
            assert(s.subrange(i8, s.len() as int) == lit_port() + (dec_digits(p as nat) + (seq![
                '}',
            ] + tail)));
            lemma_parse_lit(s, i8, lit_port(), dec_digits(p as nat) + (seq!['}'] + tail));
            let i9 = i8 + lit_port().len() as int;
            assert((seq!['}'] + tail).len() >= 1);
            assert((seq!['}'] + tail)[0] == '}');
            assert(!is_digit_char('}'));
            lemma_parse_port(s, i9, p, seq!['}'] + tail);
            assert(i10 == i9 + dec_digits(p as nat).len()) by {
                assert(t_p.len() == lit_port().len() + dec_digits(p as nat).len());
            };
            assert(sp_opt_port(s, i8) == Some((Some(p), i10)));
        },
        None => {
            lemma_window(s, i8, t_p + (seq!['}'] + tail));
            assert(t_p.len() == 0);
            assert(s[i8] == (t_p + (seq!['}'] + tail))[0]);
            assert((seq!['}'] + tail)[0] == '}');
            assert(s[i8] == '}');
            assert(lit_port()[0] == ',');
            lemma_lit_mismatch(s, i8, lit_port(), 0);
            assert(sp_opt_port(s, i8) == Some((None::<u16>, i10)));
        },
    }
    lemma_parse_lit(s, i10, seq!['}'], tail);
    let i11 = i10 + 1;
    assert(i11 == s.len() - tail.len());
    let built = DeviceView {
        id: d.id,
        name: d.name,
        mac: d.mac,
        target_addr: d.target_addr,
        port: d.port,
    };
    assert(built =~= d);
    assert(sp_device_tail(s, i, d.id, d.name, d.mac) == Some((d, i11)));
}

/// An emitted device object parses back to the device.
#[verifier::rlimit(100)]
proof fn lemma_parse_device(s: Seq<char>, i: int, d: DeviceView, tail: Seq<char>)
    requires
        0 <= i <= s.len(),
        s.subrange(i, s.len() as int) == emit_device(d) + tail,
    ensures
        sp_device(s, i) == Some((d, i + emit_device(d).len() as int)),
        s.subrange(i + emit_device(d).len() as int, s.len() as int) == tail,
{
    let t_t: Seq<char> = match d.target_addr {
        Some(t) => lit_target() + emit_string(t),
        None => Seq::empty(),
    };
    let t_p: Seq<char> = match d.port {
        Some(p) => lit_port() + dec_digits(p as nat),
        None => Seq::empty(),
    };
    let r6 = t_t + (t_p + (seq!['}'] + tail));
    let r5 = emit_string(d.mac) + r6;
    let r4 = lit_mac() + r5;
    let r3 = emit_string(d.name) + r4;
    let r2 = lit_name() + r3;
    let r1 = emit_string(d.id) + r2;
    lemma_split_window(s, i, emit_device(d), tail);
    let a1 = lit_obj_open() + emit_string(d.id);
    let a2 = a1 + lit_name();
    let a3 = a2 + emit_string(d.name);
    let a4 = a3 + lit_mac();
    let a5 = a4 + emit_string(d.mac);
    let a6 = a5 + t_t;
    let a7 = a6 + t_p;
    assert(emit_device(d) == a7 + seq!['}']);
    vstd::seq_lib::lemma_concat_associative(a7, seq!['}'], tail);
    vstd::seq_lib::lemma_concat_associative(a6, t_p, seq!['}'] + tail);
    vstd::seq_lib::lemma_concat_associative(a5, t_t, t_p + (seq!['}'] + tail));
    vstd::seq_lib::lemma_concat_associative(a4, emit_string(d.mac), r6);
    vstd::seq_lib::lemma_concat_associative(a3, lit_mac(), r5);
    vstd::seq_lib::lemma_concat_associative(a2, emit_string(d.name), r4);
    vstd::seq_lib::lemma_concat_associative(a1, lit_name(), r3);
    vstd::seq_lib::lemma_concat_associative(lit_obj_open(), emit_string(d.id), r2);
    assert(s.subrange(i, s.len() as int) == lit_obj_open() + r1);
    lemma_parse_lit(s, i, lit_obj_open(), r1);
    let i1 = i + lit_obj_open().len() as int;
    lemma_parse_string(s, i1, d.id, r2);
    let i2 = i1 + emit_string(d.id).len() as int;
    lemma_parse_lit(s, i2, lit_name(), r3);
    let i3 = i2 + lit_name().len() as int;
    lemma_parse_string(s, i3, d.name, r4);
    let i4 = i3 + emit_string(d.name).len() as int;
    lemma_parse_lit(s, i4, lit_mac(), r5);
    let i5 = i4 + lit_mac().len() as int;
    lemma_parse_string(s, i5, d.mac, r6);
    let i6 = i5 + emit_string(d.mac).len() as int;
    lemma_parse_device_tail(s, i6, d, tail);
    assert(sp_device(s, i) == Some((d, s.len() - tail.len() as int)));
    assert(i + emit_device(d).len() == s.len() - tail.len());
}

/// The emitted remainder of a list parses back to that remainder, consuming
/// the document to its end.
#[verifier::rlimit(100)]
proof fn lemma_parse_rest(s: Seq<char>, i: int, ds: Seq<DeviceView>)
    requires
        0 <= i <= s.len(),
        s.subrange(i, s.len() as int) == emit_rest(ds),
    ensures
        sp_rest(s, i) == Some((ds, s.len() as int)),
    decreases ds.len(),
{
    lemma_window(s, i, emit_rest(ds));
    if ds.len() == 0 {
        assert(emit_rest(ds) =~= seq![']']);
        assert(s[i] == emit_rest(ds)[0]);
        assert(emit_rest(ds)[0] == ']');
        assert(i + 1 == s.len());
        assert(ds =~= Seq::<DeviceView>::empty());
    } else {
        let d0 = ds[0];
        let ds1 = ds.drop_first();
        assert(emit_tail_items(ds) == seq![','] + emit_device(d0) + emit_tail_items(ds1));
        assert(s[i] == emit_rest(ds)[0]);
        assert(emit_rest(ds)[0] == ',');
        assert(s[i] == ',');
        assert(',' != ']');
        assert(emit_rest(ds) == ((seq![','] + emit_device(d0)) + emit_tail_items(ds1)) + seq![
            ']',
        ]);
        vstd::seq_lib::lemma_concat_associative(
            seq![','] + emit_device(d0),
            emit_tail_items(ds1),
            seq![']'],
        );
        vstd::seq_lib::lemma_concat_associative(seq![','], emit_device(d0), emit_rest(ds1));
        assert(emit_rest(ds) == seq![','] + (emit_device(d0) + emit_rest(ds1)));
        lemma_split_window(s, i, seq![','], emit_device(d0) + emit_rest(ds1));
        lemma_parse_device(s, i + 1, d0, emit_rest(ds1));
        let j = i + 1 + emit_device(d0).len() as int;
        lemma_parse_rest(s, j, ds1);
        assert(seq![d0] + ds1 =~= ds);
        assert(sp_rest(s, i) == Some((ds, s.len() as int)));
    }
}

/// The round trip for a list with at least one entry.
#[verifier::rlimit(100)]
proof fn lemma_doc_round_trip_nonempty(ds: Seq<DeviceView>)
    requires
        ds.len() > 0,
    ensures
        sp_doc(doc_of(ds)) == Some(ds),
{
    let s = doc_of(ds);
    let d0 = ds[0];
    let ds1 = ds.drop_first();
    assert(s == seq!['['] + emit_device(d0) + emit_rest(ds1));
    vstd::seq_lib::lemma_concat_associative(seq!['['], emit_device(d0), emit_rest(ds1));
    assert(s == seq!['['] + (emit_device(d0) + emit_rest(ds1)));
    assert(s.subrange(0, s.len() as int) =~= s);
    lemma_split_window(s, 0, seq!['['], emit_device(d0) + emit_rest(ds1));
    lemma_parse_device(s, 1, d0, emit_rest(ds1));
    let j = 1 + emit_device(d0).len() as int;
    lemma_parse_rest(s, j, ds1);
    assert(s[0] == '[') by {
        assert(s[0] == (seq!['['] + (emit_device(d0) + emit_rest(ds1)))[0]);
    };
    assert(sp_lit(s, 1, lit_obj_open()) is Some);
    assert(s.len() >= 7);
    assert(seq![d0] + ds1 =~= ds);
    assert(sp_doc(s) == Some(ds));
}

/// Round trip: the serialized document of any device list parses back to
/// exactly that list, optional fields included.
pub proof fn lemma_document_round_trip(ds: Seq<DeviceView>)
    ensures
        sp_doc(doc_of(ds)) == Some(ds),
{
    if ds.len() == 0 {
        let s = doc_of(ds);
        assert(s == seq!['[', ']']);
        assert(s[0] == '[');
        assert(s[1] == ']');
        assert(s.len() == 2);
        assert(ds =~= Seq::<DeviceView>::empty());
    } else {
        lemma_doc_round_trip_nonempty(ds);
    }
}

} // verus!
